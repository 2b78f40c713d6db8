//! A tracked file: one filesystem path bound to one patch timeline.
//!
//! The engine never touches the filesystem itself; the embedding program
//! reads the live file and hands its bytes to [`TrackedFile::commit`], and
//! writes back the bytes that [`TrackedFile::load_version`] and
//! [`TrackedFile::delete_version`] return.  The view of a tracked file is the
//! sequence of committed contents, oldest first.
//!
//! A file's blobs are namespaced under a key of its path, so unrelated files
//! that happen to produce identical delta bytes never share a blob store.

use vstd::prelude::*;

use crate::hashing;
use crate::hashing::bytes_key;
use crate::patch::{patch_data_of, Patch};
use crate::timeline::{byte_views, content_before, encodes, Timeline, VersionError};
use crate::tracked_bytes::TrackedBytes;

verus! {

/// One filesystem path under version control, with its own patch timeline.
#[derive(Clone)]
pub struct TrackedFile {
    /// The path of the live file, as a plain string.
    path: String,
    /// The key of `path`: the blob store of this file lives under
    /// `<patch_dir>/<store_key>` on disk.
    store_key: u64,
    /// The versioned contents of the file.
    bytes: TrackedBytes,
}

impl View for TrackedFile {
    type V = Seq<Seq<u8>>;

    /// The committed contents of the file, oldest first.
    closed spec fn view(&self) -> Seq<Seq<u8>> {
        self.bytes@
    }
}

impl TrackedFile {
    /// The underlying history is sound and the store key is the key of the
    /// file's path.
    pub closed spec fn wf(&self) -> bool {
        &&& self.bytes.wf()
        &&& self.store_key == hashing::path_key_of(self.path@)
    }

    /// The path of the live file.
    pub closed spec fn path_str(&self) -> Seq<char> {
        self.path@
    }

    /// The key the file's blob store is namespaced under.
    pub closed spec fn spec_store_key(&self) -> u64 {
        self.store_key
    }

    /// The underlying timeline, as a spec-level value.
    pub closed spec fn spec_timeline(&self) -> Timeline {
        self.bytes.spec_timeline()
    }

    /// The patch directory the file's timeline is rooted at.
    pub open spec fn patch_dir_str(&self) -> Seq<char> {
        self.spec_timeline().root_str()
    }

    /// The bytes of the patch that committing `target` next would push.
    pub open spec fn next_patch_data(&self, target: Seq<u8>) -> Seq<u8> {
        patch_data_of(content_before(self@, self@.len() as int), target)
    }

    /// Whether committing `target` next would be refused: the file's store
    /// already holds a blob under the new patch's content key with different
    /// bytes.
    pub open spec fn commit_collides(&self, target: Seq<u8>) -> bool {
        let data = self.next_patch_data(target);
        &&& self.spec_timeline().store().contains_key(bytes_key(data))
        &&& self.spec_timeline().store()[bytes_key(data)] != data
    }

    /// Whether two tracked files bind the same path to the same patch
    /// directory.
    pub open spec fn same_identity(&self, other: &Self) -> bool {
        &&& self.path_str() == other.path_str()
        &&& self.spec_store_key() == other.spec_store_key()
        &&& self.patch_dir_str() == other.patch_dir_str()
    }

    /// Binds the file at `path` to a fresh timeline rooted under `patch_dir`,
    /// namespaced by the key of the path.  A freshly constructed file has no
    /// versions.
    pub fn new(path: &str, patch_dir: &str) -> (r: Self)
        ensures
            r.wf(),
            r@ == Seq::<Seq<u8>>::empty(),
            r.path_str() == path@,
            r.spec_store_key() == hashing::path_key_of(path@),
            r.patch_dir_str() == patch_dir@,
    {
        TrackedFile {
            path: path.to_owned(),
            store_key: hashing::path_key(path),
            bytes: TrackedBytes::new(patch_dir),
        }
    }

    /// The path of the live file.
    pub fn path(&self) -> (r: &String)
        ensures
            r@ == self.path_str(),
    {
        &self.path
    }

    /// The key the file's blob store is namespaced under.
    pub fn store_key(&self) -> (r: u64)
        ensures
            r == self.spec_store_key(),
    {
        self.store_key
    }

    /// The underlying timeline.
    pub fn timeline(&self) -> (r: &Timeline)
        ensures
            *r == self.spec_timeline(),
    {
        self.bytes.timeline()
    }

    /// Commits `target` — the current bytes of the live file — as the next
    /// version: diffs it against the latest committed content (or the empty
    /// buffer for the first commit) and appends one patch to the chain.
    /// Succeeds exactly when the new patch's content key does not collide
    /// with a stored blob of different bytes.
    pub fn commit(&mut self, target: &[u8]) -> (r: Result<(), VersionError>)
        requires
            old(self).wf(),
        ensures
            final(self).wf(),
            final(self).same_identity(old(self)),
            !old(self).commit_collides(target@) ==> r == Ok::<(), VersionError>(()) && final(self)@ == old(self)@.push(target@),
            old(self).commit_collides(target@) ==> r == Err::<(), VersionError>(
                VersionError::KeyCollision(bytes_key(old(self).next_patch_data(target@))),
            ) && final(self)@ == old(self)@ && final(self).spec_timeline() == old(self).spec_timeline(),
    {
        self.bytes.save(target)
    }

    /// A sound file with no versions yet stores no blobs, so its first
    /// commit can never collide.
    pub proof fn lemma_fresh_file_never_collides(self, target: Seq<u8>)
        requires
            self.wf(),
            self@.len() == 0,
        ensures
            !self.commit_collides(target),
    {
        self.bytes.lemma_fresh_store();
    }

    /// Replays the chain and returns the content committed at `index`.
    /// Succeeds exactly on indices inside the history; on a file with no
    /// versions every index reports `NoVersionsAvailable`.
    pub fn apply(&self, index: usize) -> (r: Result<Vec<u8>, VersionError>)
        requires
            self.wf(),
        ensures
            self@.len() == 0 ==> r == Err::<Vec<u8>, VersionError>(
                VersionError::NoVersionsAvailable,
            ),
            self@.len() > 0 && index >= self@.len() ==> r == Err::<Vec<u8>, VersionError>(
                VersionError::IndexOutOfRange(index),
            ),
            index < self@.len() ==> (r matches Ok(v) && v@ == self@[index as int]),
    {
        self.bytes.load(index)
    }

    /// The bytes the live file is to hold for version `index`; the embedding
    /// program writes them back to the file's path.
    pub fn load_version(&self, index: usize) -> (r: Result<Vec<u8>, VersionError>)
        requires
            self.wf(),
        ensures
            self@.len() == 0 ==> r == Err::<Vec<u8>, VersionError>(
                VersionError::NoVersionsAvailable,
            ),
            self@.len() > 0 && index >= self@.len() ==> r == Err::<Vec<u8>, VersionError>(
                VersionError::IndexOutOfRange(index),
            ),
            index < self@.len() ==> (r matches Ok(v) && v@ == self@[index as int]),
    {
        self.apply(index)
    }

    /// Deletes version `index` and everything after it, keeping exactly the
    /// versions before `index`.  Returns the bytes the live file is left
    /// holding: the content at `index - 1`, or the empty buffer when the
    /// whole history goes.
    pub fn delete_version(&mut self, index: usize) -> (r: Result<Vec<u8>, VersionError>)
        requires
            old(self).wf(),
        ensures
            final(self).wf(),
            final(self).same_identity(old(self)),
            old(self)@.len() == 0 ==> r == Err::<Vec<u8>, VersionError>(
                VersionError::NoVersionsAvailable,
            ) && final(self)@ == old(self)@,
            old(self)@.len() > 0 && index > old(self)@.len() ==> r == Err::<Vec<u8>, VersionError>(
                VersionError::IndexOutOfRange(index),
            ) && final(self)@ == old(self)@,
            old(self)@.len() > 0 && index <= old(self)@.len() ==> (r matches Ok(v) && final(self)@
                == old(self)@.take(index as int) && v@ == content_before(old(self)@, index as int)),
    {
        if self.bytes.is_empty() {
            return Err(VersionError::NoVersionsAvailable);
        }
        if index > self.bytes.len() {
            return Err(VersionError::IndexOutOfRange(index));
        }
        let live: Vec<u8> = if index == 0 {
            Vec::new()
        } else {
            match self.bytes.load(index - 1) {
                Ok(v) => v,
                Err(e) => {
                    proof {
                        assert(false);
                    }
                    return Err(e);
                },
            }
        };
        match self.bytes.truncate(index) {
            Ok(()) => Ok(live),
            Err(e) => {
                proof {
                    assert(false);
                }
                Err(e)
            },
        }
    }

    /// The number of committed versions.
    pub fn version_count(&self) -> (r: usize)
        requires
            self.wf(),
        ensures
            r == self@.len(),
    {
        self.bytes.len()
    }

    /// Whether no version has been committed yet.
    pub fn is_empty(&self) -> (r: bool)
        requires
            self.wf(),
        ensures
            r == (self@.len() == 0),
    {
        self.bytes.is_empty()
    }

    /// The index of the latest version, if any version exists.
    pub fn latest_version_index(&self) -> (r: Option<usize>)
        requires
            self.wf(),
        ensures
            r == if self@.len() == 0 {
                None::<usize>
            } else {
                Some((self@.len() - 1) as usize)
            },
    {
        let count = self.version_count();
        if count == 0 {
            None
        } else {
            Some(count - 1)
        }
    }

    /// The bytes of the latest committed version.
    pub fn load_latest(&self) -> (r: Result<Vec<u8>, VersionError>)
        requires
            self.wf(),
        ensures
            self@.len() == 0 ==> r == Err::<Vec<u8>, VersionError>(
                VersionError::NoVersionsAvailable,
            ),
            self@.len() > 0 ==> (r matches Ok(v) && v@ == self@.last()),
    {
        let count = self.version_count();
        if count == 0 {
            Err(VersionError::NoVersionsAvailable)
        } else {
            self.load_version(count - 1)
        }
    }

    /// Deletes the latest version; the live file is left holding the version
    /// before it (or the empty buffer when the only version goes).
    pub fn delete_latest(&mut self) -> (r: Result<Vec<u8>, VersionError>)
        requires
            old(self).wf(),
        ensures
            final(self).wf(),
            final(self).same_identity(old(self)),
            old(self)@.len() == 0 ==> r == Err::<Vec<u8>, VersionError>(
                VersionError::NoVersionsAvailable,
            ) && final(self)@ == old(self)@,
            old(self)@.len() > 0 ==> (r matches Ok(v) && final(self)@ == old(self)@.drop_last()
                && v@ == content_before(old(self)@, old(self)@.len() - 1)),
    {
        let count = self.version_count();
        if count == 0 {
            Err(VersionError::NoVersionsAvailable)
        } else {
            let r = self.delete_version(count - 1);
            proof {
                assert(self@ =~= old(self)@.drop_last());
            }
            r
        }
    }

    /// Replaces the latest version with `target`: deletes it, then commits
    /// `target`.  Not atomic: when the commit fails, the old latest version
    /// is already gone.
    pub fn replace_latest(&mut self, target: &[u8]) -> (r: Result<(), VersionError>)
        requires
            old(self).wf(),
        ensures
            final(self).wf(),
            final(self).same_identity(old(self)),
            old(self)@.len() == 0 ==> r == Err::<(), VersionError>(
                VersionError::NoVersionsAvailable,
            ) && final(self)@ == old(self)@,
            old(self)@.len() > 0 && r is Ok ==> final(self)@ == old(self)@.drop_last().push(
                target@,
            ),
            old(self)@.len() > 0 && r is Err ==> final(self)@ == old(self)@.drop_last(),
    {
        match self.delete_latest() {
            Ok(_) => self.commit(target),
            Err(e) => Err(e),
        }
    }

    /// The bytes that restore the live file to the latest committed version.
    pub fn revert(&self) -> (r: Result<Vec<u8>, VersionError>)
        requires
            self.wf(),
        ensures
            self@.len() == 0 ==> r == Err::<Vec<u8>, VersionError>(
                VersionError::NoVersionsAvailable,
            ),
            self@.len() > 0 ==> (r matches Ok(v) && v@ == self@.last()),
    {
        self.load_latest()
    }

    /// Deletes every committed version; the file keeps its identity but its
    /// history becomes empty.
    pub fn clear_versions(&mut self) -> (r: Result<(), VersionError>)
        requires
            old(self).wf(),
        ensures
            final(self).wf(),
            final(self).same_identity(old(self)),
            r is Ok,
            final(self)@ == Seq::<Seq<u8>>::empty(),
    {
        let r = self.bytes.truncate(0);
        proof {
            assert(self@ =~= Seq::<Seq<u8>>::empty());
        }
        r
    }

    /// A new tracked file over the same path whose history starts afresh
    /// from `current` — the bytes the live file holds right now.  The fork
    /// commits into a fresh store, which never collides, so forking always
    /// succeeds; it has exactly one version and its chain is independent of
    /// this one.
    pub fn fork(&self, current: &[u8]) -> (r: Result<Self, VersionError>)
        requires
            self.wf(),
        ensures
            r is Ok,
            r matches Ok(f) ==> {
                &&& f.wf()
                &&& f@ == Seq::<Seq<u8>>::empty().push(current@)
                &&& f.same_identity(self)
            },
    {
        let dir = self.bytes.timeline().patch_dir().clone();
        let mut forked = TrackedFile::new(self.path.as_str(), dir.as_str());
        proof {
            forked.lemma_fresh_file_never_collides(current@);
        }
        match forked.commit(current) {
            Ok(()) => Ok(forked),
            Err(e) => {
                proof {
                    assert(false);
                }
                Err(e)
            },
        }
    }
}

impl TrackedFile {
    /// Rebuilds a tracked file from its persisted identity and the patch
    /// blobs of its chain, oldest first: the chain is replayed from the
    /// empty buffer and each reconstructed content is committed afresh.  On
    /// a chain that encodes a sequence of contents this restores exactly
    /// that history; on corrupt blobs it reports the codec error instead.
    pub fn restore(path: &str, patch_dir: &str, patches: &Vec<Vec<u8>>) -> (r: Result<
        Self,
        VersionError,
    >)
        ensures
            r matches Ok(f) ==> {
                &&& f.wf()
                &&& f.path_str() == path@
                &&& f.patch_dir_str() == patch_dir@
                &&& f@.len() == patches@.len()
                &&& (forall|contents: Seq<Seq<u8>>|
                    #[trigger] encodes(byte_views(patches@), contents) ==> f@ == contents)
            },
    {
        let ghost chain = byte_views(patches@);
        let mut file = TrackedFile::new(path, patch_dir);
        let mut current: Vec<u8> = Vec::new();
        let n = patches.len();
        let mut i: usize = 0;
        while i < n
            invariant
                0 <= i <= n,
                n == patches@.len(),
                chain == byte_views(patches@),
                file.wf(),
                file.path_str() == path@,
                file.patch_dir_str() == patch_dir@,
                file@.len() == i,
                forall|contents: Seq<Seq<u8>>|
                    #[trigger] encodes(chain, contents) ==> file@ == contents.take(i as int)
                        && current@ == content_before(contents, i as int),
            decreases n - i,
        {
            let patch = Patch::from_data(patches[i].as_slice());
            current = match patch.apply(current.as_slice()) {
                Ok(v) => v,
                Err(e) => {
                    return Err(VersionError::Patch(e));
                },
            };
            proof {
                assert forall|contents: Seq<Seq<u8>>| #[trigger]
                    encodes(chain, contents) implies current@ == contents[i as int] by {
                    assert(chain[i as int] == crate::patch::patch_data_of(
                        content_before(contents, i as int),
                        contents[i as int],
                    ));
                }
            }
            match file.commit(current.as_slice()) {
                Ok(()) => {},
                Err(e) => {
                    return Err(e);
                },
            }
            proof {
                assert forall|contents: Seq<Seq<u8>>| #[trigger]
                    encodes(chain, contents) implies file@ == contents.take(i + 1) && current@
                    == content_before(contents, i + 1) by {
                    assert(contents.take(i + 1) =~= contents.take(i as int).push(
                        contents[i as int],
                    ));
                }
            }
            i = i + 1;
        }
        proof {
            assert forall|contents: Seq<Seq<u8>>| #[trigger]
                encodes(chain, contents) implies file@ == contents by {
                assert(contents.take(n as int) =~= contents);
            }
        }
        Ok(file)
    }
}


} // verus!
