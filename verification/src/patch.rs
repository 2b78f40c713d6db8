//! The patch value type: an immutable compressed binary delta between two
//! byte buffers, plus the stable content key used as its storage address.

use vstd::prelude::*;

use crate::codec;
use crate::hashing;

verus! {

/// A codec primitive failed: computing or applying a delta, or compressing
/// or decompressing a buffer.
#[derive(Debug, Clone, Copy, PartialEq, Eq, Structural)]
pub enum PatchError {
    /// Computing the delta between two buffers failed.
    DiffFailed,
    /// Compressing a computed delta failed.
    CompressFailed,
    /// The stored bytes are not a valid compressed buffer.
    DecompressFailed,
    /// The delta does not fit the buffer it was applied to.
    ApplyFailed,
}

/// The bytes a patch built from `source` and `target` holds: the compressed
/// delta between the two buffers.
pub open spec fn patch_data_of(source: Seq<u8>, target: Seq<u8>) -> Seq<u8> {
    codec::compressed_of(codec::delta_of(source, target))
}

/// An immutable compressed delta between two byte buffers.  Applying it to
/// the source buffer it was built from reconstructs the target buffer.
#[derive(Debug, PartialEq, Eq, Clone)]
pub struct Patch {
    data: Vec<u8>,
}

impl View for Patch {
    type V = Seq<u8>;

    closed spec fn view(&self) -> Seq<u8> {
        self.data@
    }
}

impl Patch {
    /// Builds the patch that reconstructs `target` out of `source`: computes
    /// the delta between the two buffers, then compresses it.  Both codec
    /// primitives work purely in memory, so building a patch always succeeds.
    pub fn new(source: &[u8], target: &[u8]) -> (r: Result<Self, PatchError>)
        ensures
            r is Ok,
            r matches Ok(p) ==> p@ == patch_data_of(source@, target@),
    {
        let delta = match codec::diff_bytes(source, target) {
            Ok(d) => d,
            Err(e) => {
                return Err(e);
            },
        };
        let compressed = match codec::compress_bytes(delta.as_slice()) {
            Ok(c) => c,
            Err(e) => {
                return Err(e);
            },
        };
        Ok(Patch { data: compressed })
    }

    /// Reconstructs a target buffer from `source`: decompresses the stored
    /// delta, then applies it.  Succeeds whenever this patch was built from
    /// `source` and some target, and then returns exactly that target.
    pub fn apply(&self, source: &[u8]) -> (r: Result<Vec<u8>, PatchError>)
        ensures
            r matches Ok(v) ==> (forall|t: Seq<u8>|
                self@ == #[trigger] patch_data_of(source@, t) ==> v@ == t),
            (exists|t: Seq<u8>| self@ == #[trigger] patch_data_of(source@, t)) ==> r is Ok,
    {
        let delta = match codec::decompress_bytes(self.data.as_slice()) {
            Ok(d) => d,
            Err(e) => {
                return Err(e);
            },
        };
        match codec::apply_delta(source, delta.as_slice()) {
            Ok(v) => Ok(v),
            Err(e) => Err(e),
        }
    }

    /// The stored bytes of this patch, exactly as they are persisted.
    pub fn data(&self) -> (r: &[u8])
        ensures
            r@ == self@,
    {
        self.data.as_slice()
    }

    /// The content key of this patch, used as its storage address.
    pub fn id(&self) -> (r: u64)
        ensures
            r == hashing::bytes_key(self@),
    {
        hashing::hash(self.data.as_slice())
    }

    /// The number of stored bytes.
    pub fn len(&self) -> (r: usize)
        ensures
            r == self@.len(),
    {
        self.data.len()
    }

    /// Whether the patch holds no bytes at all.
    pub fn is_empty(&self) -> (r: bool)
        ensures
            r == (self@.len() == 0),
    {
        self.data.is_empty()
    }

    /// Wraps already-persisted patch bytes back into a patch value.
    pub fn from_data(data: &[u8]) -> (r: Self)
        ensures
            r@ == data@,
    {
        Patch { data: vstd::slice::slice_to_vec(data) }
    }

    /// Reads a patch back from a byte stream already drawn into memory.
    pub fn read_from(reader: &[u8]) -> (r: Self)
        ensures
            r@ == reader@,
    {
        Patch::from_data(reader)
    }

    /// Appends the patch's raw bytes to a byte stream; no framing is added.
    pub fn write_to(&self, writer: &mut Vec<u8>)
        ensures
            final(writer)@ == old(writer)@ + self@,
    {
        writer.extend_from_slice(self.data.as_slice());
    }
}

} // verus!
