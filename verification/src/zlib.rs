//! Trusted boundary to the zlib codec of the `flate2` crate.
//!
//! The engine never restates the deflate format: what the decoder yields is
//! given a name, `inflate_of`, and the encoder is trusted only for the one
//! fact callers need, that its output inflates back to its input.

use vstd::prelude::*;

verus! {

/// What `flate2`'s zlib decoder yields on a byte sequence: the fully
/// inflated bytes, or nothing when the sequence is not one well-formed zlib
/// stream. The result is a function of the input bytes alone.
pub uninterp spec fn inflate_of(s: Seq<u8>) -> Option<Seq<u8>>;

/// Relies on `flate2::read::ZlibDecoder` (read to end): inflates the byte
/// sequence as one zlib stream; the outcome and the inflated bytes depend on
/// the input alone, and a malformed stream reports an error.
#[verifier::external_body]
pub fn zlib_decompress(data: &Vec<u8>) -> (r: Option<Vec<u8>>)
    ensures
        r is Some <==> inflate_of(data@) is Some,
        r is Some ==> r.unwrap()@ == inflate_of(data@).unwrap(),
{
    let mut decoder = flate2::read::ZlibDecoder::new(data.as_slice());
    let mut out = Vec::new();
    match std::io::Read::read_to_end(&mut decoder, &mut out) {
        Ok(_) => Some(out),
        Err(_) => None,
    }
}

/// Relies on `flate2::write::ZlibEncoder`: compressing at a level in 0..=9
/// yields one zlib stream that inflates back to exactly the input bytes.
/// Writing into and finishing a `Vec`-backed encoder cannot fail.
#[verifier::external_body]
pub fn zlib_compress(data: &Vec<u8>, level: u32) -> (r: Vec<u8>)
    requires
        level <= 9,
    ensures
        inflate_of(r@) == Some(data@),
{
    let mut encoder = flate2::write::ZlibEncoder::new(
        Vec::new(),
        flate2::Compression::new(level),
    );
    std::io::Write::write_all(&mut encoder, data.as_slice()).expect("a Vec sink cannot fail");
    encoder.finish().expect("a Vec sink cannot fail")
}

} // verus!
