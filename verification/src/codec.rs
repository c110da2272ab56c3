//! Content codec: compression and decompression of file content.
//!
//! The store archives each ingested file as zstd-compressed bytes. The codec
//! is trusted at the boundary of the zstd crate: what compression returns is
//! named by [`zstd_of`], what decompression recovers by [`zstd_decode`], and
//! the documented lossless round trip ties the two together.

use vstd::prelude::*;

verus! {

/// The fixed zstd compression level used for every blob.
pub const COMPRESSION_LEVEL: i32 = 3;

/// The bytes that zstd compression at [`COMPRESSION_LEVEL`] produces for the
/// given text: a function of the text alone.
pub uninterp spec fn zstd_of(s: Seq<char>) -> Seq<u8>;

/// What zstd decompression followed by a UTF-8 read recovers from the given
/// bytes: the original text, or nothing when the bytes are not a well-formed
/// frame holding valid UTF-8.
pub uninterp spec fn zstd_decode(b: Seq<u8>) -> Option<Seq<char>>;

/// Compresses `text`, or returns `None` when the encoder cannot be set up
/// (an environmental failure, not tied to any particular input).
///
/// Relies on `zstd::stream::encode_all`: for a fixed level its output is a
/// function of the input bytes alone.
#[verifier::external_body]
pub fn compress(text: &str) -> (r: Option<Vec<u8>>)
    ensures
        r matches Some(v) ==> v@ == zstd_of(text@),
{
    match zstd::stream::encode_all(text.as_bytes(), COMPRESSION_LEVEL) {
        Ok(v) => Some(v),
        Err(_) => None,
    }
}

/// Decompresses `data` back to text; `None` exactly when `data` is not a
/// well-formed zstd frame holding valid UTF-8.
///
/// Relies on `zstd::stream::decode_all`: which inputs it accepts and what it
/// returns for them depend on the input bytes alone, and on the documented
/// lossless round trip: the output of `encode_all` is always accepted and
/// decodes back to the encoder's exact input.
#[verifier::external_body]
pub fn decompress(data: &[u8]) -> (r: Option<String>)
    ensures
        r matches Some(s) ==> zstd_decode(data@) == Some(s@),
        r is None ==> zstd_decode(data@) is None,
        r is None ==> forall|x: Seq<char>| data@ != zstd_of(x),
        r matches Some(s) ==> forall|x: Seq<char>| data@ == zstd_of(x) ==> s@ == x,
{
    match zstd::stream::decode_all(data) {
        Ok(bytes) => match String::from_utf8(bytes) {
            Ok(s) => Some(s),
            Err(_) => None,
        },
        Err(_) => None,
    }
}

/// Law: decompression inverts compression. Any bytes known to be the
/// compression of some text decompress without failure to exactly that text.
pub fn decompress_compressed(data: &[u8], text: Ghost<Seq<char>>) -> (r: String)
    requires
        data@ == zstd_of(text@),
    ensures
        r@ == text@,
{
    match decompress(data) {
        Some(s) => s,
        None => {
            proof {
                assert(false);
            }
            String::new()
        },
    }
}

/// Law: compressing and then decompressing returns the text unchanged; the
/// only `None` outcome is the encoder's environmental failure, never a wrong
/// or missing result after a successful compression.
pub fn codec_round_trip(text: &str) -> (r: Option<String>)
    ensures
        r matches Some(s) ==> s@ == text@,
{
    match compress(text) {
        Some(compressed) => Some(decompress_compressed(compressed.as_slice(), Ghost(text@))),
        None => None,
    }
}

} // verus!
