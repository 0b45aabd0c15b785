//! Errors of the table layer.
use vstd::prelude::*;

verus! {

/// What went wrong, without the details.
#[derive(Debug, Clone, Copy, PartialEq, Eq, Structural)]
pub enum ErrorKind {
    /// A stream that feeds a codec failed.
    Io,
    /// Stored bytes do not follow the format, or fail their checksum.
    Corruption,
    /// The caller asked for something that the format cannot hold.
    InvalidArgument,
    /// A codec refused its input, or is not known.
    Compression,
}

/// An error of the table layer.
#[derive(Debug)]
pub enum LevelDbError {
    /// A stream that feeds a codec failed.
    Io { message: String },
    /// Stored bytes do not follow the format, or fail their checksum.
    Corruption { path: Option<String>, message: String },
    /// The caller asked for something that the format cannot hold.
    InvalidArgument { message: String },
    /// A codec refused its input, or is not known.
    Compression { context: String, message: String },
}

/// The mathematical value of a [`LevelDbError`].
#[verifier::ext_equal]
pub enum ErrorView {
    Io { message: Seq<char> },
    Corruption { path: Option<Seq<char>>, message: Seq<char> },
    InvalidArgument { message: Seq<char> },
    Compression { context: Seq<char>, message: Seq<char> },
}

/// The characters of an optional string.
pub open spec fn text_view(text: Option<String>) -> Option<Seq<char>> {
    match text {
        Some(text) => Some(text@),
        None => None,
    }
}

impl View for LevelDbError {
    type V = ErrorView;

    open spec fn view(&self) -> ErrorView {
        match *self {
            LevelDbError::Io { message } => ErrorView::Io { message: message@ },
            LevelDbError::Corruption { path, message } => ErrorView::Corruption {
                path: text_view(path),
                message: message@,
            },
            LevelDbError::InvalidArgument { message } => ErrorView::InvalidArgument {
                message: message@,
            },
            LevelDbError::Compression { context, message } => ErrorView::Compression {
                context: context@,
                message: message@,
            },
        }
    }
}

/// Corruption that is not tied to a file yet.
pub open spec fn corrupt(message: Seq<char>) -> ErrorView {
    ErrorView::Corruption { path: None, message }
}

/// Corruption of the file at `path`.
pub open spec fn corrupt_at(path: Seq<char>, message: Seq<char>) -> ErrorView {
    ErrorView::Corruption { path: Some(path), message }
}

/// An argument that the format cannot hold.
pub open spec fn invalid(message: Seq<char>) -> ErrorView {
    ErrorView::InvalidArgument { message }
}

/// A failure of a table codec.
pub open spec fn codec_failure(message: Seq<char>) -> ErrorView {
    ErrorView::Compression { context: "table"@, message }
}

/// The kind of an error value.
pub open spec fn kind_of(error: ErrorView) -> ErrorKind {
    match error {
        ErrorView::Io { .. } => ErrorKind::Io,
        ErrorView::Corruption { .. } => ErrorKind::Corruption,
        ErrorView::InvalidArgument { .. } => ErrorKind::InvalidArgument,
        ErrorView::Compression { .. } => ErrorKind::Compression,
    }
}

/// The file an error value speaks of.
pub open spec fn path_of(error: ErrorView) -> Option<Seq<char>> {
    match error {
        ErrorView::Corruption { path, .. } => path,
        _ => None,
    }
}

/// A corruption without a file gets `path`; every other error stays as it is.
pub open spec fn with_path(error: ErrorView, path: Seq<char>) -> ErrorView {
    match error {
        ErrorView::Corruption { path: None, message } => corrupt_at(path, message),
        other => other,
    }
}

impl LevelDbError {
    /// Corruption that is not tied to a file yet.
    pub fn corruption(message: &str) -> (r: LevelDbError)
        ensures
            r@ == corrupt(message@),
    {
        LevelDbError::Corruption { path: None, message: message.to_owned() }
    }

    /// Corruption of the file at `path`.
    pub fn corruption_at(path: &str, message: &str) -> (r: LevelDbError)
        ensures
            r@ == corrupt_at(path@, message@),
    {
        LevelDbError::Corruption { path: Some(path.to_owned()), message: message.to_owned() }
    }

    /// An argument that the format cannot hold.
    pub fn invalid_argument(message: &str) -> (r: LevelDbError)
        ensures
            r@ == invalid(message@),
    {
        LevelDbError::InvalidArgument { message: message.to_owned() }
    }

    /// A codec failure in `context`.
    pub fn compression(context: &str, message: &str) -> (r: LevelDbError)
        ensures
            r@ == (ErrorView::Compression { context: context@, message: message@ }),
    {
        LevelDbError::Compression { context: context.to_owned(), message: message.to_owned() }
    }

    /// The kind of this error.
    pub fn kind(&self) -> (r: ErrorKind)
        ensures
            r == kind_of(self@),
    {
        match self {
            LevelDbError::Io { .. } => ErrorKind::Io,
            LevelDbError::Corruption { .. } => ErrorKind::Corruption,
            LevelDbError::InvalidArgument { .. } => ErrorKind::InvalidArgument,
            LevelDbError::Compression { .. } => ErrorKind::Compression,
        }
    }

    /// The file this error speaks of, where it is known.
    pub fn path(&self) -> (r: Option<&str>)
        ensures
            match r {
                Some(path) => path_of(self@) == Some(path@),
                None => path_of(self@) is None,
            },
    {
        match self {
            LevelDbError::Corruption { path: Some(path), .. } => Some(path.as_str()),
            _ => None,
        }
    }

    /// The text that explains this error.
    pub fn message(&self) -> (r: &str)
        ensures
            r@ == message_of(self@),
    {
        match self {
            LevelDbError::Io { message } => message.as_str(),
            LevelDbError::Corruption { message, .. } => message.as_str(),
            LevelDbError::InvalidArgument { message } => message.as_str(),
            LevelDbError::Compression { message, .. } => message.as_str(),
        }
    }
}

/// The text of an error value.
pub open spec fn message_of(error: ErrorView) -> Seq<char> {
    match error {
        ErrorView::Io { message } => message,
        ErrorView::Corruption { message, .. } => message,
        ErrorView::InvalidArgument { message } => message,
        ErrorView::Compression { message, .. } => message,
    }
}

/// Ties a corruption that names no file to `path`.
pub fn with_table_path(error: LevelDbError, path: &str) -> (r: LevelDbError)
    ensures
        r@ == with_path(error@, path@),
{
    match error {
        LevelDbError::Corruption { path: None, message } => LevelDbError::Corruption {
            path: Some(path.to_owned()),
            message,
        },
        other => other,
    }
}

/// The digit character of `d`.
pub open spec fn digit_char(d: nat) -> char {
    ((48 + d) as u8) as char
}

/// The decimal digits of `n`, most significant first.
pub open spec fn decimal(n: nat) -> Seq<char>
    decreases n,
{
    if n < 10 {
        seq![digit_char(n)]
    } else {
        decimal(n / 10).push(digit_char(n % 10))
    }
}

/// One decimal digit as text.
fn digit_text(d: u64) -> (r: &'static str)
    requires
        d < 10,
    ensures
        r@ == seq![digit_char(d as nat)],
{
    proof {
        reveal_strlit("0");
        reveal_strlit("1");
        reveal_strlit("2");
        reveal_strlit("3");
        reveal_strlit("4");
        reveal_strlit("5");
        reveal_strlit("6");
        reveal_strlit("7");
        reveal_strlit("8");
        reveal_strlit("9");
    }
    if d == 0 {
        "0"
    } else if d == 1 {
        "1"
    } else if d == 2 {
        "2"
    } else if d == 3 {
        "3"
    } else if d == 4 {
        "4"
    } else if d == 5 {
        "5"
    } else if d == 6 {
        "6"
    } else if d == 7 {
        "7"
    } else if d == 8 {
        "8"
    } else {
        "9"
    }
}

/// Writes `n` in decimal.
pub fn decimal_text(n: u64) -> (r: String)
    ensures
        r@ == decimal(n as nat),
    decreases n,
{
    if n < 10 {
        digit_text(n).to_owned()
    } else {
        let mut text = decimal_text(n / 10);
        text.append(digit_text(n % 10));
        proof {
            assert(text@ =~= decimal((n / 10) as nat).push(digit_char((n % 10) as nat)));
        }
        text
    }
}

/// `before`, then `n` in decimal.
pub(crate) fn numbered(before: &str, n: u64) -> (r: String)
    ensures
        r@ == before@ + decimal(n as nat),
{
    let mut text = before.to_owned();
    text.append(decimal_text(n).as_str());
    text
}

/// `before`, `middle` and `after` in a row.
pub(crate) fn joined(before: &str, middle: &str, after: &str) -> (r: String)
    ensures
        r@ == before@ + middle@ + after@,
{
    let mut text = before.to_owned();
    text.append(middle);
    text.append(after);
    text
}

/// The number that decimal digits stand for.
pub open spec fn base10(text: Seq<char>) -> int
    decreases text.len(),
{
    if text.len() == 0 {
        0
    } else {
        10 * base10(text.drop_last()) + (text.last() as int - 48)
    }
}

/// Numbers are written with the digits 0 to 9, most significant first, without
/// leading zeros.
pub proof fn numbers_are_written_in_base_10(n: nat)
    ensures
        decimal(n).len() > 0,
        forall|i: int| 0 <= i < decimal(n).len() ==> 48 <= (#[trigger] decimal(n)[i]) as int <= 57,
        base10(decimal(n)) == n,
        n > 0 ==> decimal(n)[0] as int != 48,
    decreases n,
{
    let text = decimal(n);
    if n < 10 {
        assert(text.drop_last() =~= Seq::<char>::empty());
        assert(base10(text.drop_last()) == 0);
    } else {
        numbers_are_written_in_base_10(n / 10);
        assert(text.drop_last() =~= decimal(n / 10));
        assert forall|i: int| 0 <= i < text.len() implies 48 <= (#[trigger] text[i]) as int
            <= 57 by {
            if i < text.len() - 1 {
                assert(text[i] == decimal(n / 10)[i]);
            }
        }
        assert(text[0] == decimal(n / 10)[0]);
    }
}

/// Only corruption that names no file gets one; it keeps its text. Every other
/// error stays as it is. The kind, the file and the text of an error are its own.
pub proof fn only_nameless_corruption_gets_a_path(error: ErrorView, path: Seq<char>)
    ensures
        match error {
            ErrorView::Corruption { path: None, message } => with_path(error, path)
                == (ErrorView::Corruption { path: Some(path), message }),
            _ => with_path(error, path) == error,
        },
        kind_of(error) is Corruption <==> error is Corruption,
        kind_of(error) is Io <==> error is Io,
        kind_of(error) is InvalidArgument <==> error is InvalidArgument,
        kind_of(error) is Compression <==> error is Compression,
        match error {
            ErrorView::Io { message } => message_of(error) == message && path_of(error) is None,
            ErrorView::Corruption { path: file, message } => message_of(error) == message
                && path_of(error) == file,
            ErrorView::InvalidArgument { message } => message_of(error) == message && path_of(
                error,
            ) is None,
            ErrorView::Compression { message, .. } => message_of(error) == message && path_of(
                error,
            ) is None,
        },
{
}

/// The errors of each kind carry the text and the file that they were made with.
pub proof fn errors_carry_what_they_were_made_with(message: Seq<char>, path: Seq<char>)
    ensures
        corrupt(message) == (ErrorView::Corruption { path: None, message }),
        corrupt_at(path, message) == (ErrorView::Corruption { path: Some(path), message }),
        invalid(message) == (ErrorView::InvalidArgument { message }),
        codec_failure(message) == (ErrorView::Compression { context: "table"@, message }),
{
}

/// The value of an error is what its fields hold.
pub proof fn errors_are_seen_as_they_are(error: LevelDbError)
    ensures
        match error {
            LevelDbError::Io { message } => error@ == (ErrorView::Io { message: message@ }),
            LevelDbError::Corruption { path: Some(path), message } => error@
                == (ErrorView::Corruption { path: Some(path@), message: message@ }),
            LevelDbError::Corruption { path: None, message } => error@
                == (ErrorView::Corruption { path: None, message: message@ }),
            LevelDbError::InvalidArgument { message } => error@ == (ErrorView::InvalidArgument {
                message: message@,
            }),
            LevelDbError::Compression { context, message } => error@ == (ErrorView::Compression {
                context: context@,
                message: message@,
            }),
        },
{
}

} // verus!
