//! Cheaply shared byte strings, and values that are borrowed or shared.
use crate::error::{corrupt, LevelDbError};
use bytes::Bytes;
use vstd::prelude::*;
use vstd::slice::slice_subrange;

verus! {

/// `bytes::Bytes`, a byte string whose clones and slices share one buffer.
#[verifier::external_type_specification]
#[verifier::external_body]
pub struct ExBytes(Bytes);

/// The bytes that a `bytes::Bytes` holds.
pub uninterp spec fn contents(bytes: Bytes) -> Seq<u8>;

/// Calls `<Bytes as AsRef<[u8]>>::as_ref`: the slice is what the byte string holds.
#[verifier::external_body]
pub(crate) fn as_slice(bytes: &Bytes) -> (r: &[u8])
    ensures
        r@ == contents(*bytes),
{
    bytes.as_ref()
}

/// Calls `<Bytes as From<Vec<u8>>>::from`: the byte string holds what the vector held.
#[verifier::external_body]
pub(crate) fn from_vec(vec: Vec<u8>) -> (r: Bytes)
    ensures
        contents(r) == vec@,
{
    Bytes::from(vec)
}

/// Calls `Bytes::copy_from_slice`: the byte string holds a copy of the slice.
#[verifier::external_body]
pub(crate) fn copy_from_slice(slice: &[u8]) -> (r: Bytes)
    ensures
        contents(r) == slice@,
{
    Bytes::copy_from_slice(slice)
}

/// Calls `<Bytes as Clone>::clone`: the clone holds the same bytes.
#[verifier::external_body]
pub(crate) fn share(bytes: &Bytes) -> (r: Bytes)
    ensures
        contents(r) == contents(*bytes),
{
    bytes.clone()
}

/// Calls `Bytes::slice` on `start..end`, which panics unless the range lies in
/// the byte string: the result holds the bytes of that range.
#[verifier::external_body]
fn slice_of(bytes: &Bytes, start: usize, end: usize) -> (r: Bytes)
    requires
        start <= end <= contents(*bytes).len(),
    ensures
        contents(r) == contents(*bytes).subrange(start as int, end as int),
{
    bytes.slice(start..end)
}

/// The bytes of an optional byte string.
pub open spec fn optional_contents(bytes: Option<Bytes>) -> Option<Seq<u8>> {
    match bytes {
        Some(bytes) => Some(contents(bytes)),
        None => None,
    }
}

/// `len` bytes of `payload` from `start` on, sharing its buffer.
pub fn bytes_slice_from_payload(payload: &Bytes, start: usize, len: usize) -> (r: Result<
    Bytes,
    LevelDbError,
>)
    ensures
        match r {
            Ok(bytes) => start + len <= contents(*payload).len() && contents(bytes) == contents(
                *payload,
            ).subrange(start as int, start + len),
            Err(error) => {
                &&& start + len > contents(*payload).len()
                &&& start + len > usize::MAX ==> error@ == corrupt(
                    "table value slice range overflow"@,
                )
                &&& start + len <= usize::MAX ==> error@ == corrupt(
                    "table value slice exceeds payload"@,
                )
            },
        },
{
    let payload_len: usize = as_slice(payload).len();
    match start.checked_add(len) {
        Some(end) => {
            if end > payload_len {
                return Err(LevelDbError::corruption("table value slice exceeds payload"));
            }
            Ok(slice_of(payload, start, end))
        },
        None => Err(LevelDbError::corruption("table value slice range overflow")),
    }
}

/// A value that a visitor sees: a slice of the table, or a shared byte string.
#[derive(Debug)]
pub enum ValueRef<'a> {
    /// A slice of the table itself.
    Borrowed(&'a [u8]),
    /// A byte string that shares a decompressed block.
    Shared(Bytes),
}

impl<'a> View for ValueRef<'a> {
    type V = Seq<u8>;

    open spec fn view(&self) -> Seq<u8> {
        match self {
            ValueRef::Borrowed(slice) => slice@,
            ValueRef::Shared(bytes) => contents(*bytes),
        }
    }
}

impl<'a> ValueRef<'a> {
    /// The bytes of the value.
    pub fn as_bytes(&self) -> (r: &[u8])
        ensures
            r@ == self@,
    {
        match self {
            ValueRef::Borrowed(slice) => slice,
            ValueRef::Shared(bytes) => as_slice(bytes),
        }
    }

    /// How many bytes the value has.
    pub fn len(&self) -> (r: usize)
        ensures
            r == self@.len(),
    {
        self.as_bytes().len()
    }

    /// The value as a byte string of its own: a borrowed slice is copied, a
    /// shared byte string is shared.
    pub fn to_bytes(&self) -> (r: Bytes)
        ensures
            contents(r) == self@,
    {
        match self {
            ValueRef::Borrowed(slice) => copy_from_slice(slice),
            ValueRef::Shared(bytes) => share(bytes),
        }
    }
}

/// The payload of a block: a slice of the table, or a decompressed byte string.
#[derive(Debug)]
pub enum BlockValue<'a> {
    /// A slice of the table itself.
    Borrowed(&'a [u8]),
    /// A decompressed byte string.
    Shared(Bytes),
}

impl<'a> View for BlockValue<'a> {
    type V = Seq<u8>;

    open spec fn view(&self) -> Seq<u8> {
        match self {
            BlockValue::Borrowed(slice) => slice@,
            BlockValue::Shared(bytes) => contents(*bytes),
        }
    }
}

impl<'a> BlockValue<'a> {
    /// The bytes of the payload.
    pub fn as_bytes(&self) -> (r: &[u8])
        ensures
            r@ == self@,
    {
        match self {
            BlockValue::Borrowed(slice) => slice,
            BlockValue::Shared(bytes) => as_slice(bytes),
        }
    }

    /// The payload as shared bytes: a borrowed one is copied.
    pub fn into_bytes(self) -> (r: Bytes)
        ensures
            contents(r) == self@,
    {
        match self {
            BlockValue::Borrowed(slice) => copy_from_slice(slice),
            BlockValue::Shared(bytes) => bytes,
        }
    }

    /// `len` bytes of the payload from `start` on: borrowed from a borrowed
    /// payload, shared with a shared one.
    pub fn value_ref(&self, start: usize, len: usize) -> (r: Result<ValueRef<'_>, LevelDbError>)
        ensures
            match r {
                Ok(value) => {
                    &&& start + len <= self@.len()
                    &&& value@ == self@.subrange(start as int, start + len)
                    &&& (value is Borrowed) == (*self is Borrowed)
                },
                Err(error) => {
                    &&& start + len > self@.len()
                    &&& start + len > usize::MAX ==> error@ == corrupt(
                        "table value slice range overflow"@,
                    )
                    &&& start + len <= usize::MAX ==> error@ == corrupt(
                        "table value slice exceeds payload"@,
                    )
                },
            },
    {
        match self {
            BlockValue::Borrowed(slice) => {
                let slice_len: usize = slice.len();
                match start.checked_add(len) {
                    Some(end) => {
                        if end > slice_len {
                            return Err(
                                LevelDbError::corruption("table value slice exceeds payload"),
                            );
                        }
                        Ok(ValueRef::Borrowed(slice_subrange(slice, start, end)))
                    },
                    None => Err(LevelDbError::corruption("table value slice range overflow")),
                }
            },
            BlockValue::Shared(bytes) => match bytes_slice_from_payload(bytes, start, len) {
                Ok(bytes) => Ok(ValueRef::Shared(bytes)),
                Err(error) => Err(error),
            },
        }
    }
}

/// A value, or the payload of a block, is the slice or the byte string that it
/// holds.
pub proof fn values_are_seen_as_they_are(slice: &[u8], bytes: Bytes)
    ensures
        ValueRef::Borrowed(slice)@ == slice@,
        ValueRef::Shared(bytes)@ == contents(bytes),
        BlockValue::Borrowed(slice)@ == slice@,
        BlockValue::Shared(bytes)@ == contents(bytes),
        optional_contents(Some(bytes)) == Some(contents(bytes)),
        optional_contents(None) is None,
{
}

} // verus!
