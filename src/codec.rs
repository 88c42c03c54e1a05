//! The three byte codecs the store is built on: the SHA-1 digest, zlib
//! compression, and lowercase hexadecimal. Each is provided by an outside crate
//! and reached through one trusted function here.

use flate2::read::ZlibDecoder;
use flate2::write::ZlibEncoder;
use flate2::Compression;
use sha1::Digest;
use std::io::Read;
use std::io::Write;
use vstd::prelude::*;

use crate::text::digit_char;

verus! {

/// The SHA-1 digest of `data`.
pub uninterp spec fn sha1_of(data: Seq<u8>) -> Seq<u8>;

/// The zlib stream (deflate at the default level) that compresses `data`.
pub uninterp spec fn zlib_of(data: Seq<u8>) -> Seq<u8>;

/// The bytes that the zlib stream `data` decompresses to, or `None` when `data`
/// is not a complete, well-formed zlib stream.
pub uninterp spec fn inflate_of(data: Seq<u8>) -> Option<Seq<u8>>;

/// The contents of an optional byte vector.
pub open spec fn option_bytes(o: Option<Vec<u8>>) -> Option<Seq<u8>> {
    match o {
        Some(v) => Some(v@),
        None => None,
    }
}

/// The lowercase hexadecimal digit for `n < 16`.
pub open spec fn hex_digit(n: nat) -> char {
    if n < 10 {
        digit_char(n)
    } else {
        ((n + 87) as u8) as char
    }
}

/// Two lowercase hexadecimal digits per byte, high nibble first.
pub open spec fn hex_of(data: Seq<u8>) -> Seq<char>
    decreases data.len(),
{
    if data.len() == 0 {
        Seq::empty()
    } else {
        hex_of(data.drop_last()) + seq![
            hex_digit((data.last() / 16) as nat),
            hex_digit((data.last() % 16) as nat),
        ]
    }
}

/// Relies on `sha1::Sha1::digest`, which returns the 20-byte SHA-1 digest of
/// its input.
#[verifier::external_body]
pub fn generate_hash(content: &Vec<u8>) -> (r: [u8; 20])
    ensures
        r@ == sha1_of(content@),
{
    sha1::Sha1::digest(content).into()
}

/// Relies on `flate2::write::ZlibEncoder` at `Compression::default()`: after
/// `write_all` and `finish` the inner `Vec` holds the zlib stream of the input.
/// Writing into a `Vec` does not fail.
#[verifier::external_body]
pub fn compress_content(content: &[u8]) -> (r: Vec<u8>)
    ensures
        r@ == zlib_of(content@),
{
    let mut encoder = ZlibEncoder::new(Vec::new(), Compression::default());
    encoder.write_all(content).expect("writing into a Vec");
    encoder.finish().expect("writing into a Vec")
}

/// Relies on `flate2::read::ZlibDecoder` and `read_to_end`: the decoder yields
/// the bytes that were compressed, and fails on a malformed stream or one that
/// ends before its final block ("incomplete deflate stream").
#[verifier::external_body]
pub(crate) fn zlib_decompress(data: &[u8]) -> (r: Option<Vec<u8>>)
    ensures
        option_bytes(r) == inflate_of(data@),
        forall|x: Seq<u8>| #[trigger] zlib_of(x) == data@ ==> option_bytes(r) == Some(x),
{
    let mut decoder = ZlibDecoder::new(data);
    let mut out = Vec::new();
    match decoder.read_to_end(&mut out) {
        Ok(_) => Some(out),
        Err(_) => None,
    }
}

/// Relies on `hex::encode`, which writes each byte as two lowercase
/// hexadecimal digits (from `b"0123456789abcdef"`), high nibble first.
#[verifier::external_body]
pub(crate) fn hex_encode(data: &[u8]) -> (r: String)
    ensures
        r@ == hex_of(data@),
{
    hex::encode(data)
}

} // verus!
