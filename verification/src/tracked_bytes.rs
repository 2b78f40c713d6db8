//! The in-memory byte-history underlying every tracked item: a timeline of
//! patches together with the sequence of committed contents it encodes.
//!
//! The view of a `TrackedBytes` is that sequence of committed contents,
//! oldest first.  Saving diffs the new content against the latest committed
//! one (or the empty buffer at the start) and appends one patch; loading
//! replays the chain and returns the content at the given index.

use vstd::prelude::*;

use crate::hashing::bytes_key;
use crate::patch::{patch_data_of, Patch};
use crate::timeline::{
    content_before, encodes, lemma_empty_timeline_store, lemma_encodes_prefix, Timeline,
    VersionError,
};

verus! {

/// A versioned byte buffer: each saved content is kept as one patch in a
/// content-addressed timeline and can be reconstructed by replay.
#[derive(Clone)]
pub struct TrackedBytes {
    timeline: Timeline,
    /// The committed contents the timeline encodes, oldest first.
    history: Ghost<Seq<Seq<u8>>>,
}

impl View for TrackedBytes {
    type V = Seq<Seq<u8>>;

    /// The committed contents, oldest first.
    closed spec fn view(&self) -> Seq<Seq<u8>> {
        self.history@
    }
}

impl TrackedBytes {
    /// The timeline is sound and its chain is exactly the patch chain of the
    /// committed contents.
    pub closed spec fn wf(&self) -> bool {
        &&& self.timeline.wf()
        &&& encodes(self.timeline@, self.history@)
    }

    /// The underlying timeline, as a spec-level value.
    pub closed spec fn spec_timeline(&self) -> Timeline {
        self.timeline
    }

    /// The patch directory the underlying timeline is rooted at.
    pub open spec fn patch_dir_str(&self) -> Seq<char> {
        self.spec_timeline().root_str()
    }

    /// The bytes of the patch that saving `target` next would push: the
    /// compressed delta from the latest committed content (or the empty
    /// buffer) to `target`.
    pub open spec fn next_patch_data(&self, target: Seq<u8>) -> Seq<u8> {
        patch_data_of(content_before(self@, self@.len() as int), target)
    }

    /// Whether saving `target` next would be refused: the store already
    /// holds a blob under the new patch's content key with different bytes.
    pub open spec fn save_collides(&self, target: Seq<u8>) -> bool {
        let data = self.next_patch_data(target);
        &&& self.spec_timeline().store().contains_key(bytes_key(data))
        &&& self.spec_timeline().store()[bytes_key(data)] != data
    }

    /// A fresh history with no versions, rooted at the given patch directory.
    pub fn new(patch_dir: &str) -> (r: Self)
        ensures
            r.wf(),
            r@ == Seq::<Seq<u8>>::empty(),
            r.patch_dir_str() == patch_dir@,
    {
        TrackedBytes { timeline: Timeline::new(patch_dir), history: Ghost(Seq::empty()) }
    }

    /// The number of saved versions.
    pub fn len(&self) -> (r: usize)
        requires
            self.wf(),
        ensures
            r == self@.len(),
    {
        proof {
            assert(self.timeline@.len() == self@.len());
        }
        self.timeline.len()
    }

    /// Whether no version has been saved yet.
    pub fn is_empty(&self) -> (r: bool)
        requires
            self.wf(),
        ensures
            r == (self@.len() == 0),
    {
        proof {
            assert(self.timeline@.len() == self@.len());
        }
        self.timeline.is_empty()
    }

    /// The underlying timeline.
    pub fn timeline(&self) -> (r: &Timeline)
        ensures
            *r == self.spec_timeline(),
    {
        &self.timeline
    }

    /// Saves `target` as the next version: diffs it against the latest
    /// committed content (or the empty buffer if none exists) and pushes the
    /// resulting patch.  Succeeds exactly when the new patch's content key
    /// does not collide with a stored blob of different bytes.
    pub fn save(&mut self, target: &[u8]) -> (r: Result<(), VersionError>)
        requires
            old(self).wf(),
        ensures
            final(self).wf(),
            final(self).patch_dir_str() == old(self).patch_dir_str(),
            !old(self).save_collides(target@) ==> r == Ok::<(), VersionError>(()) && final(self)@
                == old(self)@.push(target@),
            old(self).save_collides(target@) ==> r == Err::<(), VersionError>(
                VersionError::KeyCollision(bytes_key(old(self).next_patch_data(target@))),
            ) && *final(self) == *old(self),
    {
        let ghost contents = self.history@;
        let source: Vec<u8> = if self.timeline.is_empty() {
            Vec::new()
        } else {
            proof {
                assert(encodes(self.timeline@, contents));
            }
            match self.timeline.reconstruct(self.timeline.len() - 1) {
                Ok(v) => v,
                Err(e) => {
                    proof {
                        assert(false);
                    }
                    return Err(e);
                },
            }
        };
        assert(source@ == content_before(contents, contents.len() as int));
        let patch = match Patch::new(source.as_slice(), target) {
            Ok(p) => p,
            Err(e) => {
                proof {
                    assert(false);
                }
                return Err(VersionError::Patch(e));
            },
        };
        match self.timeline.push(&patch) {
            Ok(()) => {
                proof {
                    self.history@ = contents.push(target@);
                    assert forall|i: int| 0 <= i < self.timeline@.len() implies #[trigger] self.timeline@[i]
                        == patch_data_of(
                        content_before(self.history@, i),
                        self.history@[i],
                    ) by {
                        if i < contents.len() {
                            assert(old(self).timeline@[i] == patch_data_of(
                                content_before(contents, i),
                                contents[i],
                            ));
                        }
                    }
                }
                Ok(())
            },
            Err(e) => Err(e),
        }
    }

    /// Replays the history and returns the content saved at `index`.
    /// Succeeds exactly on indices inside the history; on an empty history
    /// every load reports `NoVersionsAvailable`.
    pub fn load(&self, index: usize) -> (r: Result<Vec<u8>, VersionError>)
        requires
            self.wf(),
        ensures
            self@.len() == 0 ==> r == Err::<Vec<u8>, VersionError>(
                VersionError::NoVersionsAvailable,
            ),
            self@.len() > 0 && index >= self@.len() ==> r == Err::<Vec<u8>, VersionError>(
                VersionError::IndexOutOfRange(index),
            ),
            index < self@.len() ==> (r matches Ok(v) && v@ == self@[index as int]),
    {
        proof {
            assert(encodes(self.timeline@, self.history@));
        }
        self.timeline.reconstruct(index)
    }

    /// A sound history with no versions stores no blobs at all, so its next
    /// save can never collide.
    pub proof fn lemma_fresh_store(self)
        requires
            self.wf(),
            self@.len() == 0,
        ensures
            self.spec_timeline().store() == Map::<u64, Seq<u8>>::empty(),
    {
        lemma_empty_timeline_store(self.timeline);
    }

    /// Drops every version at or above `index`, keeping exactly the first
    /// `index` of them.  Refused when `index` lies beyond the history.
    pub fn truncate(&mut self, index: usize) -> (r: Result<(), VersionError>)
        requires
            old(self).wf(),
        ensures
            final(self).wf(),
            final(self).patch_dir_str() == old(self).patch_dir_str(),
            index > old(self)@.len() ==> r == Err::<(), VersionError>(
                VersionError::IndexOutOfRange(index),
            ) && final(self)@ == old(self)@,
            index <= old(self)@.len() ==> r == Ok::<(), VersionError>(()) && final(self)@ == old(
                self,
            )@.take(index as int),
    {
        let ghost contents = self.history@;
        let r = self.timeline.truncate(index);
        proof {
            if index <= contents.len() {
                lemma_encodes_prefix(old(self).timeline@, contents, index as int);
                self.history@ = contents.take(index as int);
            }
        }
        r
    }
}

} // verus!
