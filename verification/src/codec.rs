//! Trusted boundary to the two supplied codec primitives: binary delta
//! computation (`bsdiff`) and reversible compression (`bzip2`).
//!
//! The two primitives are treated as deterministic functions of their byte
//! arguments alone, named by [`delta_of`] and [`compressed_of`].  The engine
//! assumes the documented external contract of both crates: applying a delta
//! to the source it was computed from yields the target, and decompressing
//! the output of compression yields the original input.

use vstd::prelude::*;

use crate::patch::PatchError;

verus! {

/// The delta that `bsdiff::diff` writes for the given source and target
/// buffers.  The algorithm is a pure function of the two buffers.
pub uninterp spec fn delta_of(source: Seq<u8>, target: Seq<u8>) -> Seq<u8>;

/// The bytes that `bzip2` compression (at the highest level) produces for
/// the given input buffer.  The encoder is a pure function of its input.
pub uninterp spec fn compressed_of(data: Seq<u8>) -> Seq<u8>;

/// Relies on `bsdiff::diff`: writes into the given buffer a delta from which
/// `bsdiff::patch` reconstructs `target` out of `source`.  Its only error
/// paths are writes into the patch sink, and a byte vector never fails one,
/// so diffing into memory always succeeds.
#[verifier::external_body]
pub(crate) fn diff_bytes(source: &[u8], target: &[u8]) -> (r: Result<Vec<u8>, PatchError>)
    ensures
        r is Ok,
        r matches Ok(v) ==> v@ == delta_of(source@, target@),
{
    let mut delta = Vec::new();
    match bsdiff::diff(source, target, &mut delta) {
        Ok(()) => Ok(delta),
        Err(_) => Err(PatchError::DiffFailed),
    }
}

/// Relies on `bsdiff::patch`: applied to the source a delta was computed
/// from, it reconstructs the target of that delta; on any other input it
/// reports an error or returns unspecified bytes.
#[verifier::external_body]
pub(crate) fn apply_delta(source: &[u8], delta: &[u8]) -> (r: Result<Vec<u8>, PatchError>)
    ensures
        r matches Ok(v) ==> (forall|t: Seq<u8>|
            delta@ == #[trigger] delta_of(source@, t) ==> v@ == t),
        (exists|t: Seq<u8>| delta@ == #[trigger] delta_of(source@, t)) ==> r is Ok,
        r matches Err(e) ==> e == PatchError::ApplyFailed,
{
    let mut reader = delta;
    let mut target = Vec::new();
    match bsdiff::patch(source, &mut reader, &mut target) {
        Ok(()) => Ok(target),
        Err(_) => Err(PatchError::ApplyFailed),
    }
}

/// Relies on `bzip2::bufread::BzEncoder`: compresses the whole input buffer
/// at the highest compression level.  Its only error path is the underlying
/// reader, and a byte slice never fails one (the encoder treats its own
/// status codes as unfailing), so compressing from memory always succeeds.
#[verifier::external_body]
pub(crate) fn compress_bytes(data: &[u8]) -> (r: Result<Vec<u8>, PatchError>)
    ensures
        r is Ok,
        r matches Ok(v) ==> v@ == compressed_of(data@),
{
    let mut encoder = bzip2::bufread::BzEncoder::new(data, bzip2::Compression::best());
    let mut out = Vec::new();
    match std::io::Read::read_to_end(&mut encoder, &mut out) {
        Ok(_) => Ok(out),
        Err(_) => Err(PatchError::CompressFailed),
    }
}

/// Relies on `bzip2::bufread::BzDecoder`: decompression is lossless, so on
/// the output of compression it succeeds and returns the original input; on
/// malformed input it reports an error or returns unspecified bytes.
#[verifier::external_body]
pub(crate) fn decompress_bytes(data: &[u8]) -> (r: Result<Vec<u8>, PatchError>)
    ensures
        r matches Ok(v) ==> (forall|d: Seq<u8>|
            data@ == #[trigger] compressed_of(d) ==> v@ == d),
        (exists|d: Seq<u8>| data@ == #[trigger] compressed_of(d)) ==> r is Ok,
        r matches Err(e) ==> e == PatchError::DecompressFailed,
{
    let mut decoder = bzip2::bufread::BzDecoder::new(data);
    let mut out = Vec::new();
    match std::io::Read::read_to_end(&mut decoder, &mut out) {
        Ok(_) => Ok(out),
        Err(_) => Err(PatchError::DecompressFailed),
    }
}

} // verus!
