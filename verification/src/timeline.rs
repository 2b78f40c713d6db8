//! An ordered, content-addressed chain of patches rooted at the implicit
//! empty buffer.
//!
//! The timeline owns a blob store keyed by content: each distinct patch is
//! stored once under its 64-bit content key, however many chain positions
//! reference it, and a blob is dropped as soon as the last reference to its
//! key leaves the chain.  A pushed patch whose key matches a stored blob with
//! different bytes is refused (`VersionError::KeyCollision`), so the store
//! never silently conflates two distinct patches.
//!
//! The view of a timeline is the sequence of patch byte buffers its chain
//! stands for, and [`encodes`] says when that sequence is the patch chain of
//! a sequence of committed contents; [`Timeline::reconstruct`] then replays
//! the chain and returns the content at any index.

use std::collections::HashMap;
use vstd::prelude::*;

use crate::hashing;
use crate::patch::{patch_data_of, Patch, PatchError};

verus! {

broadcast use vstd::std_specs::hash::group_hash_axioms;

/// Why a versioning operation failed.
#[derive(Debug, Clone, Copy, PartialEq, Eq, Structural)]
pub enum VersionError {
    /// A codec primitive failed while building or applying a patch.
    Patch(PatchError),
    /// The given version index lies beyond the chain.
    IndexOutOfRange(usize),
    /// The operation needs at least one version and the chain has none.
    NoVersionsAvailable,
    /// A pushed patch's content key matches a stored blob with different
    /// bytes; storing it would corrupt the other chain entries under that
    /// key, so the push is refused.
    KeyCollision(u64),
}

/// The content that precedes position `i` in a chain of committed contents:
/// the previous content, or the empty buffer at the very start.
pub open spec fn content_before(contents: Seq<Seq<u8>>, i: int) -> Seq<u8> {
    if i == 0 {
        Seq::empty()
    } else {
        contents[i - 1]
    }
}

/// Whether `patches` is exactly the patch chain of the committed contents
/// `contents`: entry `i` is the patch from the content before `i` (the empty
/// buffer at the start) to content `i`.
pub open spec fn encodes(patches: Seq<Seq<u8>>, contents: Seq<Seq<u8>>) -> bool {
    &&& patches.len() == contents.len()
    &&& forall|i: int|
        0 <= i < patches.len() ==> #[trigger] patches[i] == patch_data_of(
            content_before(contents, i),
            contents[i],
        )
}

/// The byte buffers a vector of byte vectors holds, as a sequence of views.
pub open spec fn byte_views(buffers: Seq<Vec<u8>>) -> Seq<Seq<u8>> {
    buffers.map_values(|b: Vec<u8>| b@)
}

/// The patch chain that committing `contents` one after another builds:
/// entry `i` is the patch from the content before `i` to content `i`.
pub open spec fn chain_of(contents: Seq<Seq<u8>>) -> Seq<Seq<u8>> {
    Seq::new(contents.len(), |i: int| patch_data_of(content_before(contents, i), contents[i]))
}

/// Round-trip law of the chain: the patch chain built by committing a
/// sequence of contents encodes exactly those contents, so replaying it from
/// the empty buffer reconstructs every one of them ([`Timeline::reconstruct`]
/// returns content `i` of any chain that encodes it).
pub proof fn lemma_chain_round_trip(contents: Seq<Seq<u8>>)
    ensures
        encodes(chain_of(contents), contents),
{
}

/// A chain that encodes some contents keeps encoding every prefix of them.
pub proof fn lemma_encodes_prefix(patches: Seq<Seq<u8>>, contents: Seq<Seq<u8>>, n: int)
    requires
        encodes(patches, contents),
        0 <= n <= patches.len(),
    ensures
        encodes(patches.take(n), contents.take(n)),
{
    assert forall|i: int| 0 <= i < n implies #[trigger] patches.take(n)[i] == patch_data_of(
        content_before(contents.take(n), i),
        contents.take(n)[i],
    ) by {
        assert(patches[i] == patch_data_of(content_before(contents, i), contents[i]));
    }
}

/// An ordered, disk-layout-compatible chain of patch references, together
/// with the content-addressed blobs the references point into.
#[derive(Debug, PartialEq, Eq, Clone)]
pub struct Timeline {
    /// The patch directory this timeline is rooted at, as a plain path
    /// string; the embedding program mirrors the blobs under it.
    root: String,
    /// One stored blob per distinct content key.
    blobs: HashMap<u64, Vec<u8>>,
    /// The chain: the content key of each version's patch, oldest first.
    chain: Vec<u64>,
}

impl View for Timeline {
    type V = Seq<Seq<u8>>;

    /// The patch bytes the chain stands for, oldest first.
    closed spec fn view(&self) -> Seq<Seq<u8>> {
        Seq::new(self.chain@.len(), |i: int| self.blobs@[self.chain@[i]]@)
    }
}

impl Timeline {
    /// The blob store: each stored content key and the bytes under it.
    pub closed spec fn store(&self) -> Map<u64, Seq<u8>> {
        self.blobs@.map_values(|v: Vec<u8>| v@)
    }

    /// The chain of content keys, oldest first.
    pub closed spec fn chain_keys(&self) -> Seq<u64> {
        self.chain@
    }

    /// The patch directory this timeline is rooted at.
    pub closed spec fn root_str(&self) -> Seq<char> {
        self.root@
    }

    /// How many distinct blobs the store holds.
    pub closed spec fn spec_blob_count(&self) -> nat {
        self.store().dom().len()
    }

    /// The store is sound: the chain references exactly the stored keys, and
    /// every blob sits under the content key of its own bytes.
    pub closed spec fn wf(&self) -> bool {
        &&& forall|i: int|
            0 <= i < self.chain@.len() ==> self.blobs@.contains_key(#[trigger] self.chain@[i])
        &&& forall|h: u64| #[trigger] self.blobs@.contains_key(h) ==> self.chain@.contains(h)
        &&& forall|h: u64|
            #[trigger] self.blobs@.contains_key(h) ==> hashing::bytes_key(self.blobs@[h]@) == h
    }

    /// A fresh timeline rooted at the given patch directory, with an empty
    /// chain and an empty store.
    pub fn new(patch_dir: &str) -> (t: Self)
        ensures
            t.wf(),
            t@ == Seq::<Seq<u8>>::empty(),
            t.chain_keys() == Seq::<u64>::empty(),
            t.store() == Map::<u64, Seq<u8>>::empty(),
            t.root_str() == patch_dir@,
    {
        let t = Timeline { root: patch_dir.to_owned(), blobs: HashMap::new(), chain: Vec::new() };
        proof {
            assert(t@ =~= Seq::<Seq<u8>>::empty());
            assert(t.store() =~= Map::<u64, Seq<u8>>::empty());
        }
        t
    }

    /// The number of versions in the chain.
    pub fn len(&self) -> (r: usize)
        ensures
            r == self@.len(),
    {
        self.chain.len()
    }

    /// Whether the chain holds no versions.
    pub fn is_empty(&self) -> (r: bool)
        ensures
            r == (self@.len() == 0),
    {
        self.chain.is_empty()
    }

    /// The patch directory this timeline is rooted at.
    pub fn patch_dir(&self) -> (r: &String)
        ensures
            r@ == self.root_str(),
    {
        &self.root
    }

    /// The chain of content keys, oldest first; entry `i` addresses the blob
    /// of version `i`'s patch.
    pub fn patch_keys(&self) -> (r: &Vec<u64>)
        ensures
            r@ == self.chain_keys(),
    {
        &self.chain
    }

    /// How many distinct blobs the store holds.  Pushing a patch whose bytes
    /// duplicate a stored blob reuses it, so this can be smaller than the
    /// chain length.
    pub fn blob_count(&self) -> (r: usize)
        requires
            self.wf(),
        ensures
            r == self.spec_blob_count(),
    {
        proof {
            assert(self.store().dom() =~= self.blobs@.dom());
        }
        self.blobs.len()
    }

    /// Appends the patch to the chain.  If no blob is stored under the
    /// patch's content key, one is written; if the stored blob already holds
    /// exactly these bytes, it is reused and the store does not grow; if it
    /// holds different bytes, the push is refused unchanged.
    pub fn push(&mut self, patch: &Patch) -> (r: Result<(), VersionError>)
        requires
            old(self).wf(),
        ensures
            final(self).wf(),
            final(self).root_str() == old(self).root_str(),
            ({
                let h = hashing::bytes_key(patch@);
                if old(self).store().contains_key(h) && old(self).store()[h] != patch@ {
                    &&& r == Err::<(), VersionError>(VersionError::KeyCollision(h))
                    &&& *final(self) == *old(self)
                } else {
                    &&& r == Ok::<(), VersionError>(())
                    &&& final(self)@ == old(self)@.push(patch@)
                    &&& final(self).chain_keys() == old(self).chain_keys().push(h)
                    &&& final(self).store() == old(self).store().insert(h, patch@)
                    &&& final(self).spec_blob_count() == if old(self).store().contains_key(h) {
                        old(self).spec_blob_count()
                    } else {
                        old(self).spec_blob_count() + 1
                    }
                }
            }),
    {
        let h = patch.id();
        let is_new: bool;
        match self.blobs.get(&h) {
            Some(stored) => {
                if !bytes_eq(stored.as_slice(), patch.data()) {
                    return Err(VersionError::KeyCollision(h));
                }
                is_new = false;
            },
            None => {
                is_new = true;
            },
        }
        if is_new {
            self.blobs.insert(h, vstd::slice::slice_to_vec(patch.data()));
        }
        self.chain.push(h);
        proof {
            let h = hashing::bytes_key(patch@);
            assert(self.store() =~= old(self).store().insert(h, patch@));
            assert(self@ =~= old(self)@.push(patch@));
            assert forall|k: u64| #[trigger] self.blobs@.contains_key(k) implies self.chain@.contains(
                k,
            ) by {
                if k == h {
                    assert(self.chain@[self.chain@.len() - 1] == k);
                } else {
                    let i = choose|i: int|
                        0 <= i < old(self).chain@.len() && old(self).chain@[i] == k;
                    assert(self.chain@[i] == k);
                }
            }
            if is_new {
                assert(self.store().dom() =~= old(self).store().dom().insert(h));
                vstd::std_specs::hash::axiom_hashmap_view_finite_dom(old(self).blobs);
                assert(old(self).store().dom() =~= old(self).blobs@.dom());
                vstd::set::axiom_set_insert_len(old(self).store().dom(), h);
            } else {
                assert(self.store().dom() =~= old(self).store().dom());
            }
        }
        Ok(())
    }

    /// Removes the last version from the chain.  If its content key no
    /// longer occurs anywhere in the remaining chain, its blob is dropped
    /// from the store.
    pub fn pop(&mut self) -> (r: Result<(), VersionError>)
        requires
            old(self).wf(),
        ensures
            final(self).wf(),
            final(self).root_str() == old(self).root_str(),
            old(self)@.len() == 0 ==> r == Err::<(), VersionError>(
                VersionError::NoVersionsAvailable,
            ) && *final(self) == *old(self),
            old(self)@.len() > 0 ==> {
                &&& r == Ok::<(), VersionError>(())
                &&& final(self)@ == old(self)@.drop_last()
                &&& final(self).chain_keys() == old(self).chain_keys().drop_last()
                &&& final(self).store() == if final(self).chain_keys().contains(
                    old(self).chain_keys().last(),
                ) {
                    old(self).store()
                } else {
                    old(self).store().remove(old(self).chain_keys().last())
                }
            },
    {
        if self.chain.len() == 0 {
            return Err(VersionError::NoVersionsAvailable);
        }
        let h = match self.chain.pop() {
            Some(h) => h,
            None => {
                proof {
                    assert(false);
                }
                return Err(VersionError::NoVersionsAvailable);
            },
        };
        let still_referenced = contains_key(&self.chain, h);
        if !still_referenced {
            self.blobs.remove(&h);
        }
        proof {
            assert(self.chain@ =~= old(self).chain@.drop_last());
            if !still_referenced {
                assert(self.store() =~= old(self).store().remove(h));
            } else {
                assert(self.store() =~= old(self).store());
            }
            assert(self@ =~= old(self)@.drop_last());
            assert forall|k: u64| #[trigger] self.blobs@.contains_key(k) implies self.chain@.contains(
                k,
            ) by {
                let i = choose|i: int| 0 <= i < old(self).chain@.len() && old(self).chain@[i] == k;
                if i < old(self).chain@.len() - 1 {
                    assert(self.chain@[i] == k);
                } else {
                    assert(k == h);
                }
            }
        }
        Ok(())
    }

    /// Pops versions until only the first `index` remain.  Refused when
    /// `index` lies beyond the current chain.
    pub fn truncate(&mut self, index: usize) -> (r: Result<(), VersionError>)
        requires
            old(self).wf(),
        ensures
            final(self).wf(),
            final(self).root_str() == old(self).root_str(),
            index > old(self)@.len() ==> r == Err::<(), VersionError>(
                VersionError::IndexOutOfRange(index),
            ) && *final(self) == *old(self),
            index <= old(self)@.len() ==> {
                &&& r == Ok::<(), VersionError>(())
                &&& final(self)@ == old(self)@.take(index as int)
                &&& final(self).chain_keys() == old(self).chain_keys().take(index as int)
            },
    {
        if index > self.chain.len() {
            return Err(VersionError::IndexOutOfRange(index));
        }
        while self.chain.len() > index
            invariant
                self.wf(),
                index <= self@.len() <= old(self)@.len(),
                self.root_str() == old(self).root_str(),
                self@ == old(self)@.take(self@.len() as int),
                self.chain_keys() == old(self).chain_keys().take(self@.len() as int),
            decreases self@.len(),
        {
            let ghost prev = *self;
            let res = self.pop();
            proof {
                assert(res is Ok);
                assert(self@ =~= old(self)@.take(self@.len() as int));
                assert(self.chain_keys() =~= old(self).chain_keys().take(self@.len() as int));
            }
        }
        Ok(())
    }

    /// Reads the patch at the given index back out of the store.  Succeeds
    /// exactly on indices inside the chain.
    pub fn get(&self, index: usize) -> (r: Result<Patch, VersionError>)
        requires
            self.wf(),
        ensures
            index < self@.len() ==> (r matches Ok(p) && p@ == self@[index as int]),
            index >= self@.len() ==> r == Err::<Patch, VersionError>(
                VersionError::IndexOutOfRange(index),
            ),
    {
        if index >= self.chain.len() {
            return Err(VersionError::IndexOutOfRange(index));
        }
        let h = self.chain[index];
        match self.blobs.get(&h) {
            Some(bytes) => Ok(Patch::from_data(bytes.as_slice())),
            None => {
                proof {
                    assert(false);
                }
                Err(VersionError::IndexOutOfRange(index))
            },
        }
    }

    /// Replays the chain from the empty buffer up to and including `index`
    /// and returns the reconstructed content.  On a chain that encodes a
    /// sequence of committed contents, this returns exactly content `index`.
    pub fn reconstruct(&self, index: usize) -> (r: Result<Vec<u8>, VersionError>)
        requires
            self.wf(),
        ensures
            self@.len() == 0 ==> r == Err::<Vec<u8>, VersionError>(
                VersionError::NoVersionsAvailable,
            ),
            self@.len() > 0 && index >= self@.len() ==> r == Err::<Vec<u8>, VersionError>(
                VersionError::IndexOutOfRange(index),
            ),
            index < self@.len() ==> (forall|contents: Seq<Seq<u8>>|
                #[trigger] encodes(self@, contents) ==> (r matches Ok(v) && v@ == contents[
                    index as int
                ])),
    {
        if self.chain.len() == 0 {
            return Err(VersionError::NoVersionsAvailable);
        }
        if index >= self.chain.len() {
            return Err(VersionError::IndexOutOfRange(index));
        }
        let mut buffer: Vec<u8> = Vec::new();
        let count = index + 1;
        let mut i: usize = 0;
        while i < count
            invariant
                self.wf(),
                count == index + 1,
                0 <= i <= count,
                index < self@.len(),
                forall|contents: Seq<Seq<u8>>|
                    #[trigger] encodes(self@, contents) ==> buffer@ == content_before(
                        contents,
                        i as int,
                    ),
            decreases count - i,
        {
            let patch = match self.get(i) {
                Ok(p) => p,
                Err(e) => {
                    proof {
                        assert(false);
                    }
                    return Err(e);
                },
            };
            buffer = match patch.apply(buffer.as_slice()) {
                Ok(v) => v,
                Err(e) => {
                    proof {
                        assert forall|contents: Seq<Seq<u8>>| !encodes(self@, contents) by {
                            if encodes(self@, contents) {
                                assert(patch@ == patch_data_of(
                                    content_before(contents, i as int),
                                    contents[i as int],
                                ));
                            }
                        }
                    }
                    return Err(VersionError::Patch(e));
                },
            };
            proof {
                assert forall|contents: Seq<Seq<u8>>| #[trigger]
                    encodes(self@, contents) implies buffer@ == content_before(
                    contents,
                    i + 1,
                ) by {
                    assert(patch@ == patch_data_of(
                        content_before(contents, i as int),
                        contents[i as int],
                    ));
                }
            }
            i = i + 1;
        }
        Ok(buffer)
    }
}

/// A sound timeline with an empty chain stores no blobs at all.
pub proof fn lemma_empty_timeline_store(t: Timeline)
    requires
        t.wf(),
        t@.len() == 0,
    ensures
        t.store() == Map::<u64, Seq<u8>>::empty(),
{
    assert forall|h: u64| !(#[trigger] t.store().contains_key(h)) by {
        if t.blobs@.contains_key(h) {
            assert(t.chain@.contains(h));
        }
    }
    assert(t.store() =~= Map::<u64, Seq<u8>>::empty());
}

/// Whether the byte slices hold the same bytes.
fn bytes_eq(a: &[u8], b: &[u8]) -> (r: bool)
    ensures
        r == (a@ == b@),
{
    if a.len() != b.len() {
        assert(a@ != b@);
        return false;
    }
    let mut i: usize = 0;
    while i < a.len()
        invariant
            i <= a@.len() == b@.len(),
            forall|j: int| 0 <= j < i ==> a@[j] == b@[j],
        decreases a@.len() - i,
    {
        if *vstd::slice::slice_index_get(a, i) != *vstd::slice::slice_index_get(b, i) {
            return false;
        }
        i = i + 1;
    }
    proof {
        assert(a@ =~= b@);
    }
    true
}

/// Whether the key occurs anywhere in the chain.
fn contains_key(chain: &Vec<u64>, h: u64) -> (r: bool)
    ensures
        r == chain@.contains(h),
{
    let mut i: usize = 0;
    while i < chain.len()
        invariant
            i <= chain@.len(),
            forall|j: int| 0 <= j < i ==> chain@[j] != h,
        decreases chain@.len() - i,
    {
        if chain[i] == h {
            return true;
        }
        i = i + 1;
    }
    false
}

} // verus!
