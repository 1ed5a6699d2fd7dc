//! The record-file facade: gzip framing around the binary codec.
//!
//! A `.dat` file is read by peeking at its first two bytes: the gzip magic
//! selects inflation, anything else is decoded raw. Files are always written
//! gzip-wrapped, at the library's one fixed compression level, so equal
//! records give equal files.
use vstd::prelude::*;

use crate::codec::{decode_named, enc_named, encode_named};
use crate::nbt::{Compound, CompoundModel, MAX_TEXT_LEN};

verus! {

/// What gzip inflation yields on a byte string: a pure function of the
/// bytes alone (the container admits no other outcome), `None` where the
/// stream is not a valid gzip framing.
pub uninterp spec fn gunzip_of(b: Seq<u8>) -> Option<Seq<u8>>;

/// Relies on flate2's `GzDecoder`: inflates a gzip stream, failing exactly
/// on invalid framing; the result depends on the input bytes alone.
#[verifier::external_body]
fn gzip_decompress(b: &Vec<u8>) -> (r: Option<Vec<u8>>)
    ensures
        match r {
            Some(d) => gunzip_of(b@) == Some(d@),
            None => gunzip_of(b@) is None,
        },
{
    let mut out = Vec::new();
    match std::io::Read::read_to_end(&mut flate2::read::GzDecoder::new(b.as_slice()), &mut out) {
        Ok(_) => Some(out),
        Err(_) => None,
    }
}

/// Relies on flate2's `GzEncoder` writing to a byte buffer at the default
/// level with the default header (magic `1f 8b`, no timestamp): compression
/// is lossless, so inflating the result gives back the input.
#[verifier::external_body]
fn gzip_compress(b: &Vec<u8>) -> (r: Vec<u8>)
    ensures
        gunzip_of(r@) == Some(b@),
        r@.len() >= 2 && r@[0] == 0x1f && r@[1] == 0x8b,
{
    let mut enc = flate2::write::GzEncoder::new(Vec::new(), flate2::Compression::default());
    std::io::Write::write_all(&mut enc, b.as_slice()).expect("a byte buffer accepts all writes");
    enc.finish().expect("a byte buffer accepts all writes")
}

/// Whether a file begins with the gzip magic.
pub open spec fn is_gzipped(b: Seq<u8>) -> bool {
    b.len() >= 2 && b[0] == 0x1f && b[1] == 0x8b
}

/// The record bytes inside a file: inflated when the gzip magic leads,
/// the file itself otherwise.
pub open spec fn file_payload(b: Seq<u8>) -> Option<Seq<u8>> {
    if is_gzipped(b) {
        gunzip_of(b)
    } else {
        Some(b)
    }
}

/// Decode a record file, inflating it first when it is gzip-wrapped.
///
/// On success the file's payload is exactly the encoding of the result;
/// and whenever that payload is the encoding of a well-formed record, the
/// read succeeds.
pub fn read_record_file(bytes: &Vec<u8>) -> (r: Option<(Vec<u8>, Compound)>)
    ensures
        match r {
            Some((name, c)) => c.wf() && name@.len() <= MAX_TEXT_LEN && file_payload(bytes@)
                == Some(enc_named(name@, c.model())),
            None => true,
        },
        (file_payload(bytes@) matches Some(p) && (exists|n: Seq<u8>, c: CompoundModel|
            c.wf() && n.len() <= MAX_TEXT_LEN && p == enc_named(n, c))) ==> r is Some,
{
    if bytes.len() >= 2 && bytes[0] == 0x1f && bytes[1] == 0x8b {
        match gzip_decompress(bytes) {
            Some(payload) => decode_named(&payload),
            None => None,
        }
    } else {
        decode_named(bytes)
    }
}

/// Encode a record and wrap it in a gzip frame, as every written `.dat`
/// file is.
pub fn write_record_file(name: &Vec<u8>, c: &Compound) -> (r: Vec<u8>)
    requires
        c.model().wf(),
        name@.len() <= MAX_TEXT_LEN,
    ensures
        is_gzipped(r@),
        file_payload(r@) == Some(enc_named(name@, c.model())),
{
    let payload = encode_named(name, c);
    gzip_compress(&payload)
}

} // verus!
