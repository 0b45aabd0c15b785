//! The codecs that table payloads may be compressed with.
use crate::coding::varint_bytes;
use crate::error::{codec_failure, decimal, numbered, ErrorView, LevelDbError};
use crate::keys::has_prefix;
use crate::options::CompressionPolicy;
use flate2::read::{DeflateDecoder, ZlibDecoder};
use flate2::write::ZlibEncoder;
use flate2::Compression;
use std::io::{Read, Write};
use vstd::prelude::*;
use vstd::slice::slice_to_vec;

verus! {

/// The tag of a payload that is stored as it is.
pub const COMPRESSION_NONE: u8 = 0;

/// The tag of a Snappy payload.
pub const COMPRESSION_SNAPPY: u8 = 1;

/// The tag of a zlib payload.
pub const COMPRESSION_ZLIB: u8 = 2;

/// The tag of a raw deflate payload, as Bedrock worlds use it.
pub const COMPRESSION_BEDROCK_ZLIB: u8 = 4;

/// What `snap::raw::Encoder::compress_vec` makes of a byte sequence, or the
/// text of its error.
pub uninterp spec fn snappy_compressed(payload: Seq<u8>) -> Result<Seq<u8>, Seq<char>>;

/// What `snap::raw::Decoder::decompress_vec` makes of a byte sequence, or the
/// text of its error.
pub uninterp spec fn snappy_decompressed(payload: Seq<u8>) -> Result<Seq<u8>, Seq<char>>;

/// What a `flate2::write::ZlibEncoder` at its fast level makes of a byte
/// sequence. An outer error is the text of a failed write, an inner one that of
/// a failed finish.
pub uninterp spec fn zlib_compressed(payload: Seq<u8>) -> Result<
    Result<Seq<u8>, Seq<char>>,
    Seq<char>,
>;

/// What a `flate2::read::ZlibDecoder` makes of a byte sequence, or the text of
/// its error.
pub uninterp spec fn zlib_decompressed(payload: Seq<u8>) -> Result<Seq<u8>, Seq<char>>;

/// What a `flate2::read::DeflateDecoder` makes of a byte sequence, or the text
/// of its error.
pub uninterp spec fn deflate_decompressed(payload: Seq<u8>) -> Result<Seq<u8>, Seq<char>>;

/// The answer of a codec that succeeds with `bytes`.
pub open spec fn success(bytes: Seq<u8>) -> Result<Seq<u8>, Seq<char>> {
    Ok(bytes)
}

/// The mathematical value of what a codec returns.
pub open spec fn codec_view(r: Result<Vec<u8>, String>) -> Result<Seq<u8>, Seq<char>> {
    match r {
        Ok(bytes) => Ok(bytes@),
        Err(message) => Err(message@),
    }
}

/// The mathematical value of what the zlib encoder returns.
pub open spec fn nested_codec_view(r: Result<Result<Vec<u8>, String>, String>) -> Result<
    Result<Seq<u8>, Seq<char>>,
    Seq<char>,
> {
    match r {
        Ok(finished) => Ok(codec_view(finished)),
        Err(message) => Err(message@),
    }
}

/// Whether bytes start as a Snappy stream of `len` bytes does: with the length
/// as a variable length integer and, unless there is nothing to come, with the
/// tag of a literal, whose low two bits are 0.
pub open spec fn starts_as_snappy(bytes: Seq<u8>, len: nat) -> bool {
    let head = varint_bytes(len);
    &&& has_prefix(bytes, head)
    &&& len > 0 ==> head.len() < bytes.len() && bytes[head.len() as int] % 4 == 0
}

/// Whether bytes start as a zlib stream with a window of 32 KiB does.
pub open spec fn starts_as_zlib(bytes: Seq<u8>) -> bool {
    bytes.len() > 0 && bytes[0] == 0x78
}

/// Calls `snap::raw::Encoder::compress_vec`. It succeeds exactly where its
/// bound on the compressed size fits in 32 bits, and what it writes
/// decompresses to the payload. It writes the length of the payload first, and
/// then, where there is a payload, a literal: it has nothing to copy from yet.
#[verifier::external_body]
fn snap_compress(payload: &[u8]) -> (r: Result<Vec<u8>, String>)
    ensures
        codec_view(r) == snappy_compressed(payload@),
        r is Ok <==> 32 + payload@.len() + payload@.len() / 6 <= u32::MAX,
        r is Ok ==> snappy_decompressed(r->Ok_0@) == success(payload@),
        r is Ok ==> starts_as_snappy(r->Ok_0@, payload@.len()),
{
    match snap::raw::Encoder::new().compress_vec(payload) {
        Ok(bytes) => Ok(bytes),
        Err(error) => Err(error.to_string()),
    }
}

/// Calls `snap::raw::Decoder::decompress_vec`, whose answer depends on the
/// payload alone.
#[verifier::external_body]
fn snap_decompress(payload: &[u8]) -> (r: Result<Vec<u8>, String>)
    ensures
        codec_view(r) == snappy_decompressed(payload@),
{
    match snap::raw::Decoder::new().decompress_vec(payload) {
        Ok(bytes) => Ok(bytes),
        Err(error) => Err(error.to_string()),
    }
}

/// Runs a `flate2::write::ZlibEncoder` over the payload, on which alone its
/// answer depends. Writing to a vector, it does not fail. It writes the zlib
/// header first, and what it writes decompresses to the payload.
#[verifier::external_body]
fn flate2_zlib_compress(payload: &[u8]) -> (r: Result<Result<Vec<u8>, String>, String>)
    ensures
        nested_codec_view(r) == zlib_compressed(payload@),
        r is Ok && r->Ok_0 is Ok,
        zlib_decompressed(r->Ok_0->Ok_0@) == success(payload@),
        starts_as_zlib(r->Ok_0->Ok_0@),
{
    let mut encoder = ZlibEncoder::new(Vec::new(), Compression::fast());
    match encoder.write_all(payload) {
        Ok(()) => match encoder.finish() {
            Ok(bytes) => Ok(Ok(bytes)),
            Err(error) => Ok(Err(error.to_string())),
        },
        Err(error) => Err(error.to_string()),
    }
}

/// Reads a `flate2::read::ZlibDecoder` over the payload to its end. The answer
/// depends on the payload alone.
#[verifier::external_body]
fn flate2_zlib_decompress(payload: &[u8]) -> (r: Result<Vec<u8>, String>)
    ensures
        codec_view(r) == zlib_decompressed(payload@),
{
    let mut out = Vec::new();
    match ZlibDecoder::new(payload).read_to_end(&mut out) {
        Ok(_) => Ok(out),
        Err(error) => Err(error.to_string()),
    }
}

/// Reads a `flate2::read::DeflateDecoder` over the payload to its end. The
/// answer depends on the payload alone.
#[verifier::external_body]
fn flate2_deflate_decompress(payload: &[u8]) -> (r: Result<Vec<u8>, String>)
    ensures
        codec_view(r) == deflate_decompressed(payload@),
{
    let mut out = Vec::new();
    match DeflateDecoder::new(payload).read_to_end(&mut out) {
        Ok(_) => Ok(out),
        Err(error) => Err(error.to_string()),
    }
}

/// A codec's answer as a table error.
pub open spec fn codec_result(answer: Result<Seq<u8>, Seq<char>>) -> Result<Seq<u8>, ErrorView> {
    match answer {
        Ok(bytes) => Ok(bytes),
        Err(message) => Err(codec_failure(message)),
    }
}

/// The zlib encoder's answer as a table error.
pub open spec fn encoder_result(
    answer: Result<Result<Seq<u8>, Seq<char>>, Seq<char>>,
) -> Result<Seq<u8>, ErrorView> {
    match answer {
        Ok(finished) => codec_result(finished),
        Err(message) => Err(ErrorView::Io { message }),
    }
}

/// The mathematical value of a result that holds bytes.
pub open spec fn bytes_result(r: Result<Vec<u8>, LevelDbError>) -> Result<Seq<u8>, ErrorView> {
    match r {
        Ok(bytes) => Ok(bytes@),
        Err(error) => Err(error@),
    }
}

/// Turns a codec's answer into a table result.
pub fn codec_outcome(answer: Result<Vec<u8>, String>) -> (r: Result<Vec<u8>, LevelDbError>)
    ensures
        bytes_result(r) == codec_result(codec_view(answer)),
{
    match answer {
        Ok(bytes) => Ok(bytes),
        Err(message) => Err(LevelDbError::compression("table", message.as_str())),
    }
}

/// Turns the zlib encoder's answer into a table result.
pub fn encoder_outcome(answer: Result<Result<Vec<u8>, String>, String>) -> (r: Result<
    Vec<u8>,
    LevelDbError,
>)
    ensures
        bytes_result(r) == encoder_result(nested_codec_view(answer)),
{
    match answer {
        Ok(finished) => codec_outcome(finished),
        Err(message) => Err(LevelDbError::Io { message }),
    }
}

/// Compresses with Snappy.
pub fn compress_snappy(payload: &[u8]) -> (r: Result<Vec<u8>, LevelDbError>)
    ensures
        bytes_result(r) == codec_result(snappy_compressed(payload@)),
        r is Ok <==> 32 + payload@.len() + payload@.len() / 6 <= u32::MAX,
        r matches Ok(bytes) ==> snappy_decompressed(bytes@) == success(payload@)
            && starts_as_snappy(bytes@, payload@.len()),
{
    codec_outcome(snap_compress(payload))
}

/// Undoes Snappy.
pub fn decompress_snappy(payload: &[u8]) -> (r: Result<Vec<u8>, LevelDbError>)
    ensures
        bytes_result(r) == codec_result(snappy_decompressed(payload@)),
{
    codec_outcome(snap_decompress(payload))
}

/// Compresses with zlib.
pub fn compress_zlib(payload: &[u8]) -> (r: Result<Vec<u8>, LevelDbError>)
    ensures
        bytes_result(r) == encoder_result(zlib_compressed(payload@)),
        r is Ok,
        r matches Ok(bytes) ==> zlib_decompressed(bytes@) == success(payload@) && starts_as_zlib(
            bytes@,
        ),
{
    encoder_outcome(flate2_zlib_compress(payload))
}

/// Undoes zlib.
pub fn decompress_zlib(payload: &[u8]) -> (r: Result<Vec<u8>, LevelDbError>)
    ensures
        bytes_result(r) == codec_result(zlib_decompressed(payload@)),
{
    codec_outcome(flate2_zlib_decompress(payload))
}

/// Undoes raw deflate.
pub fn decompress_deflate(payload: &[u8]) -> (r: Result<Vec<u8>, LevelDbError>)
    ensures
        bytes_result(r) == codec_result(deflate_decompressed(payload@)),
{
    codec_outcome(flate2_deflate_decompress(payload))
}

/// The tag under which a policy stores its payloads.
pub open spec fn tag_of(policy: CompressionPolicy) -> u8 {
    match policy {
        CompressionPolicy::Uncompressed => COMPRESSION_NONE,
        CompressionPolicy::Snappy => COMPRESSION_SNAPPY,
        CompressionPolicy::Zlib => COMPRESSION_ZLIB,
    }
}

/// The tag under which a policy stores its payloads.
pub fn compression_tag(policy: CompressionPolicy) -> (r: u8)
    ensures
        r == tag_of(policy),
{
    match policy {
        CompressionPolicy::Uncompressed => COMPRESSION_NONE,
        CompressionPolicy::Snappy => COMPRESSION_SNAPPY,
        CompressionPolicy::Zlib => COMPRESSION_ZLIB,
    }
}

/// What a policy makes of a payload.
pub open spec fn compressed(policy: CompressionPolicy, payload: Seq<u8>) -> Result<
    Seq<u8>,
    ErrorView,
> {
    match policy {
        CompressionPolicy::Uncompressed => Ok(payload),
        CompressionPolicy::Snappy => codec_result(snappy_compressed(payload)),
        CompressionPolicy::Zlib => encoder_result(zlib_compressed(payload)),
    }
}

/// What a tag makes of a stored payload.
pub open spec fn decompressed(tag: u8, payload: Seq<u8>) -> Result<Seq<u8>, ErrorView> {
    if tag == COMPRESSION_NONE {
        Ok(payload)
    } else if tag == COMPRESSION_SNAPPY {
        codec_result(snappy_decompressed(payload))
    } else if tag == COMPRESSION_ZLIB {
        codec_result(zlib_decompressed(payload))
    } else if tag == COMPRESSION_BEDROCK_ZLIB {
        codec_result(deflate_decompressed(payload))
    } else {
        Err(codec_failure("unknown table compression tag "@ + decimal(tag as nat)))
    }
}

/// Whether bytes start as what a policy makes of a payload does.
pub open spec fn starts_as(policy: CompressionPolicy, payload: Seq<u8>, bytes: Seq<u8>) -> bool {
    match policy {
        CompressionPolicy::Uncompressed => bytes == payload,
        CompressionPolicy::Snappy => starts_as_snappy(bytes, payload.len()),
        CompressionPolicy::Zlib => starts_as_zlib(bytes),
    }
}

/// Whether a policy can compress a payload of `len` bytes. Only Snappy has a
/// limit: its bound on the compressed size has to fit in 32 bits.
pub open spec fn compressible(policy: CompressionPolicy, len: nat) -> bool {
    policy is Snappy ==> 32 + len + len / 6 <= u32::MAX
}

/// Compresses a payload. What comes out decompresses to the payload under the
/// tag of the policy.
pub fn compress_payload(policy: CompressionPolicy, payload: &[u8]) -> (r: Result<
    Vec<u8>,
    LevelDbError,
>)
    ensures
        bytes_result(r) == compressed(policy, payload@),
        r matches Ok(bytes) ==> decompressed(tag_of(policy), bytes@) == Ok::<Seq<u8>, ErrorView>(
            payload@,
        ),
        r matches Ok(bytes) ==> starts_as(policy, payload@, bytes@),
        r is Ok <==> compressible(policy, payload@.len()),
{
    match policy {
        CompressionPolicy::Uncompressed => Ok(slice_to_vec(payload)),
        CompressionPolicy::Snappy => compress_snappy(payload),
        CompressionPolicy::Zlib => compress_zlib(payload),
    }
}

/// Undoes the compression that `tag` stands for.
pub fn decompress_payload(tag: u8, payload: &[u8]) -> (r: Result<Vec<u8>, LevelDbError>)
    ensures
        bytes_result(r) == decompressed(tag, payload@),
{
    if tag == COMPRESSION_NONE {
        Ok(slice_to_vec(payload))
    } else if tag == COMPRESSION_SNAPPY {
        decompress_snappy(payload)
    } else if tag == COMPRESSION_ZLIB {
        decompress_zlib(payload)
    } else if tag == COMPRESSION_BEDROCK_ZLIB {
        decompress_deflate(payload)
    } else {
        let message = numbered("unknown table compression tag ", tag as u64);
        Err(LevelDbError::compression("table", message.as_str()))
    }
}

// ---------------------------------------------------------------------------
// Which codec a tag stands for.

/// Whether a table result is a codec's answer: its bytes where it succeeds, and
/// an error with its text where it does not.
pub open spec fn is_answer_of(
    r: Result<Seq<u8>, ErrorView>,
    answer: Result<Seq<u8>, Seq<char>>,
) -> bool {
    match answer {
        Ok(bytes) => r matches Ok(found) && found == bytes,
        Err(text) => r matches Err(ErrorView::Compression { context, message }) && context
            == "table"@ && message == text,
    }
}

/// Each tag stands for one codec, for payloads of every length: 0 for none, 1 for
/// Snappy, 2 for zlib and 4 for raw deflate. Any other tag is refused.
pub proof fn tags_choose_codecs(tag: u8, payload: Seq<u8>)
    ensures
        tag == 0 ==> decompressed(tag, payload) == Ok::<Seq<u8>, ErrorView>(payload),
        tag == 1 ==> is_answer_of(decompressed(tag, payload), snappy_decompressed(payload)),
        tag == 2 ==> is_answer_of(decompressed(tag, payload), zlib_decompressed(payload)),
        tag == 4 ==> is_answer_of(decompressed(tag, payload), deflate_decompressed(payload)),
        tag == 3 || tag > 4 ==> decompressed(tag, payload) == Err::<Seq<u8>, ErrorView>(
            ErrorView::Compression {
                context: "table"@,
                message: "unknown table compression tag "@ + decimal(tag as nat),
            },
        ),
{
}

/// Each policy uses one codec, for payloads of every length, and stores what
/// comes out under the tag by which it can be undone.
pub proof fn policies_choose_codecs(policy: CompressionPolicy, payload: Seq<u8>)
    ensures
        policy is Uncompressed ==> tag_of(policy) == 0 && compressed(policy, payload) == Ok::<
            Seq<u8>,
            ErrorView,
        >(payload),
        policy is Snappy ==> tag_of(policy) == 1 && is_answer_of(
            compressed(policy, payload),
            snappy_compressed(payload),
        ),
        policy is Zlib ==> tag_of(policy) == 2 && (zlib_compressed(payload) matches Ok(answer)
            ==> is_answer_of(compressed(policy, payload), answer)),
        policy is Zlib ==> (zlib_compressed(payload) matches Err(text) ==> compressed(
            policy,
            payload,
        ) == Err::<Seq<u8>, ErrorView>(ErrorView::Io { message: text })),
        policy is Snappy || compressible(policy, payload.len()),
        policy is Snappy ==> (compressible(policy, payload.len()) <==> 32 + payload.len()
            + payload.len() / 6 <= 0xffff_ffff),
{
}

/// What a codec returns is seen as the bytes or the text that it holds, and what
/// the library makes of it keeps them. An encoder that cannot write fails with an
/// input or output error, every other failure is one of compression.
pub proof fn codec_answers_are_kept(
    answer: Result<Vec<u8>, String>,
    nested: Result<Result<Vec<u8>, String>, String>,
)
    ensures
        match answer {
            Ok(bytes) => codec_result(codec_view(answer)) == Ok::<Seq<u8>, ErrorView>(bytes@),
            Err(text) => codec_result(codec_view(answer)) == Err::<Seq<u8>, ErrorView>(
                ErrorView::Compression { context: "table"@, message: text@ },
            ),
        },
        match nested {
            Ok(Ok(bytes)) => encoder_result(nested_codec_view(nested)) == Ok::<Seq<u8>, ErrorView>(
                bytes@,
            ),
            Ok(Err(text)) => encoder_result(nested_codec_view(nested)) == Err::<
                Seq<u8>,
                ErrorView,
            >(ErrorView::Compression { context: "table"@, message: text@ }),
            Err(text) => encoder_result(nested_codec_view(nested)) == Err::<Seq<u8>, ErrorView>(
                ErrorView::Io { message: text@ },
            ),
        },
{
}

} // verus!
