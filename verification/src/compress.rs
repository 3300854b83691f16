use vstd::prelude::*;

use crate::codec::{decode_data, enc_data, encode_data};
use crate::snapshot::{Data, DataV};
use std::io::Read;
use std::io::Write;

verus! {

/// What zlib deflate at the best compression level produces from the given
/// bytes: a pure function of the input.
pub uninterp spec fn zlib_deflate(data: Seq<u8>) -> Seq<u8>;

/// What zlib inflate recovers from the given bytes: the decompressed stream,
/// or nothing when the input is not a well-formed zlib stream.
pub uninterp spec fn zlib_inflate(data: Seq<u8>) -> Option<Seq<u8>>;

/// Relies on flate2's write::ZlibEncoder at Compression::best writing to an
/// in-memory Vec, which never fails: the output is a pure function of the
/// input bytes, and flate2's ZlibDecoder recovers the input from it.
#[verifier::external_body]
fn deflate_best(data: &Vec<u8>) -> (r: Vec<u8>)
    ensures
        r@ == zlib_deflate(data@),
        zlib_inflate(r@) == Some(data@),
{
    let mut enc = flate2::write::ZlibEncoder::new(Vec::new(), flate2::Compression::best());
    enc.write_all(data.as_slice()).unwrap();
    enc.finish().unwrap()
}

/// Relies on flate2's read::ZlibDecoder: inflation is a pure function of the
/// input bytes; it fails on malformed or truncated streams, and otherwise
/// recovers the decompressed bytes (anything after the end of the stream is
/// ignored).
#[verifier::external_body]
fn inflate(data: &Vec<u8>) -> (r: Option<Vec<u8>>)
    ensures
        r matches Some(v) ==> zlib_inflate(data@) == Some(v@),
        r is None ==> zlib_inflate(data@) is None,
{
    let mut dec = flate2::read::ZlibDecoder::new(data.as_slice());
    let mut out = Vec::new();
    match dec.read_to_end(&mut out) {
        Ok(_) => Some(out),
        Err(_) => None,
    }
}

/// Why a snapshot could not be loaded.
#[derive(Clone, Copy, Debug, PartialEq, Eq, Structural)]
pub enum SnapshotError {
    /// The bytes are not a well-formed compressed stream.
    CorruptCompression,
    /// The decompressed bytes are not the byte form of a valid aggregate.
    CorruptEncoding,
}

impl Data {
    /// Serializes this aggregate to its snapshot blob: the canonical byte
    /// form, compressed at the best level. Inflating the blob yields exactly
    /// the byte form back, so `from_raw` restores this aggregate.
    pub fn into_raw(&self) -> (r: Vec<u8>)
        requires
            self@.valid(),
        ensures
            r@ == zlib_deflate(enc_data(self@)),
            zlib_inflate(r@) == Some(enc_data(self@)),
    {
        let bytes = encode_data(self);
        deflate_best(&bytes)
    }

    /// Restores an aggregate from a snapshot blob. Succeeds exactly on blobs
    /// that inflate to the byte form of one valid aggregate, and then
    /// returns that aggregate: loading what `into_raw` saved gives back an
    /// aggregate equal to the one saved. Fails closed with the error kind
    /// that names the broken stage.
    pub fn from_raw(raw: &Vec<u8>) -> (r: Result<Data, SnapshotError>)
        ensures
            r matches Ok(v) ==> v@.valid() && zlib_inflate(raw@) == Some(enc_data(v@)),
            forall|w: DataV|
                w.valid() && zlib_inflate(raw@) == Some(enc_data(w)) ==> (r matches Ok(v) && v@
                    == w),
            r == Err::<Data, SnapshotError>(SnapshotError::CorruptCompression) <==> zlib_inflate(
                raw@,
            ) is None,
    {
        match inflate(raw) {
            None => Err(SnapshotError::CorruptCompression),
            Some(bytes) => match decode_data(&bytes) {
                Some(d) => Ok(d),
                None => Err(SnapshotError::CorruptEncoding),
            },
        }
    }
}

} // verus!
