//! A saved project: one tracked item bound to a patch directory, plus the
//! list of descriptions for the versions saved through it.
//!
//! The project layer consumes the core strictly through the versioning
//! surface; it never inspects timelines or patches.  The embedding program
//! walks the real path into a tree description, reads the live contents, and
//! persists the project itself.

use vstd::prelude::*;

use crate::timeline::VersionError;
use crate::tracked_folder::{
    lemma_item_files, leaves_committed, node_layout, node_leaf_count, same_shape, PathNode,
    TrackedItem,
};

verus! {

/// A display name and optional description for one saved version.
#[derive(Debug, Clone, PartialEq, Eq)]
pub struct VersionInfo {
    name: String,
    description: Option<String>,
}

impl VersionInfo {
    /// The display name of the version.
    pub closed spec fn spec_name(&self) -> Seq<char> {
        self.name@
    }

    /// The description of the version, if one was given.
    pub closed spec fn spec_description(&self) -> Option<Seq<char>> {
        match self.description {
            Some(d) => Some(d@),
            None => None,
        }
    }

    /// Describes a version by name, with an optional longer description.
    pub fn new(name: &str, description: Option<&str>) -> (r: Self)
        ensures
            r.spec_name() == name@,
            description matches Some(d) ==> r.spec_description() == Some(d@),
            description is None ==> r.spec_description() is None,
    {
        let description_owned: Option<String> = match description {
            Some(d) => Some(d.to_owned()),
            None => None,
        };
        VersionInfo { name: name.to_owned(), description: description_owned }
    }

    /// The display name of the version.
    pub fn name(&self) -> (r: &str)
        ensures
            r@ == self.spec_name(),
    {
        self.name.as_str()
    }

    /// The description of the version, if one was given.
    pub fn description(&self) -> (r: Option<&str>)
        ensures
            self.spec_description() is Some <==> (r matches Some(d) && self.spec_description()
                == Some(d@)),
            self.spec_description() is None <==> r is None,
    {
        match &self.description {
            Some(d) => Some(d.as_str()),
            None => None,
        }
    }
}

/// Whether `p` is a freshly built project for the tree `node`: its item has
/// the tree's shape, every leaf holds exactly one version — the contents at
/// construction time — and no version description is stored yet.
pub open spec fn initial_project(p: Project, node: PathNode, contents: Seq<Vec<u8>>) -> bool {
    &&& p.wf()
    &&& p.spec_item().layout() == node_layout(node)
    &&& p.spec_item().leaves().len() == node_leaf_count(node)
    &&& (forall|t: int|
        0 <= t < contents.len() ==> #[trigger] p.spec_item().leaves()[t] == seq![contents[t]@])
    &&& p.spec_versions() == Seq::<VersionInfo>::empty()
}

/// One versioned path: a tracked item rooted under a patch directory, and a
/// list of version descriptions.  Construction commits the initial state, so
/// a fresh project already holds one version; the description list stays
/// empty until the first explicit save records one.
pub struct Project {
    patch_dir: String,
    tracked_item: TrackedItem,
    version_infos: Vec<VersionInfo>,
}

impl Project {
    /// The tracked item the project versions.
    pub closed spec fn spec_item(&self) -> TrackedItem {
        self.tracked_item
    }

    /// The patch directory the project's blobs live under.
    pub closed spec fn patch_dir_str(&self) -> Seq<char> {
        self.patch_dir@
    }

    /// The stored version descriptions, in order.
    pub closed spec fn spec_versions(&self) -> Seq<VersionInfo> {
        self.version_infos@
    }

    /// The underlying tracked item is sound.
    pub open spec fn wf(&self) -> bool {
        self.spec_item().wf()
    }

    /// Builds the project for the tree at `node`, rooted under `patch_dir`,
    /// and commits the current contents as the initial version.  The initial
    /// commit goes into fresh stores, which never collide, so construction
    /// always succeeds.
    pub fn with_patch_dir(node: &PathNode, patch_dir: &str, contents: &Vec<Vec<u8>>) -> (r: Result<
        Self,
        VersionError,
    >)
        requires
            contents@.len() == node_leaf_count(*node),
        ensures
            r is Ok,
            r matches Ok(p) ==> initial_project(p, *node, contents@) && p.patch_dir_str()
                == patch_dir@,
    {
        let mut item = TrackedItem::from_node(node, patch_dir);
        let ghost fresh = item.leaves();
        proof {
            lemma_item_files(item);
            assert forall|t: int| 0 <= t < item.files().len() implies !(
            #[trigger] item.files()[t]).commit_collides(contents@[t]@) by {
                assert(item.files()[t]@ == item.leaves()[t]);
                assert(item.leaves()[t] == Seq::<Seq<u8>>::empty());
                item.files()[t].lemma_fresh_file_never_collides(contents@[t]@);
            }
        }
        match item.commit(contents) {
            Ok(()) => {
                proof {
                    assert forall|t: int| 0 <= t < contents@.len() implies #[trigger] item.leaves()[t]
                        == seq![contents@[t]@] by {
                        assert(item.leaves()[t] == fresh[t].push(contents@[t]@));
                        assert(fresh[t] == Seq::<Seq<u8>>::empty());
                        assert(Seq::<Seq<u8>>::empty().push(contents@[t]@) =~= seq![contents@[t]@]);
                    }
                }
                Ok(
                    Project {
                        patch_dir: patch_dir.to_owned(),
                        tracked_item: item,
                        version_infos: Vec::new(),
                    },
                )
            },
            Err(e) => {
                proof {
                    assert(false);
                }
                Err(e)
            },
        }
    }

    /// Builds the project under the default patch directory; as with an
    /// explicit patch directory, construction always succeeds.
    pub fn new(node: &PathNode, contents: &Vec<Vec<u8>>) -> (r: Result<Self, VersionError>)
        requires
            contents@.len() == node_leaf_count(*node),
        ensures
            r is Ok,
            r matches Ok(p) ==> initial_project(p, *node, contents@),
    {
        Project::with_patch_dir(node, "test-data/project/patches", contents)
    }

    /// The patch directory the project's blobs live under.
    pub fn patch_dir(&self) -> (r: &String)
        ensures
            r@ == self.patch_dir_str(),
    {
        &self.patch_dir
    }

    /// The tracked item the project versions.
    pub fn tracked_item(&self) -> (r: &TrackedItem)
        ensures
            *r == self.spec_item(),
    {
        &self.tracked_item
    }

    /// The stored version descriptions, in order.
    pub fn versions(&self) -> (r: &Vec<VersionInfo>)
        ensures
            r@ == self.spec_versions(),
    {
        &self.version_infos
    }

    /// Saves the current contents as the next version and records its
    /// description.  Succeeds whenever no leaf's new patch collides with a
    /// stored blob of different bytes; on a failed save nothing is recorded
    /// and a prefix of the leaves can still have committed, as the tracked
    /// item's contract says.
    pub fn save(&mut self, version_info: VersionInfo, contents: &Vec<Vec<u8>>) -> (r: Result<
        (),
        VersionError,
    >)
        requires
            old(self).wf(),
            contents@.len() == old(self).spec_item().leaves().len(),
        ensures
            final(self).wf(),
            final(self).patch_dir_str() == old(self).patch_dir_str(),
            same_shape(old(self).spec_item(), final(self).spec_item()),
            (forall|t: int|
                0 <= t < old(self).spec_item().files().len() ==> !(#[trigger] old(
                    self,
                ).spec_item().files()[t]).commit_collides(contents@[t]@)) ==> r is Ok,
            r matches Err(e) ==> e is KeyCollision,
            r is Ok ==> leaves_committed(
                old(self).spec_item().leaves(),
                final(self).spec_item().leaves(),
                contents@,
                0,
                old(self).spec_item().leaves().len() as int,
            ) && final(self).spec_versions() == old(self).spec_versions().push(version_info),
            r is Err ==> final(self).spec_versions() == old(self).spec_versions() && (exists|k: int|
                0 <= k <= old(self).spec_item().leaves().len() && leaves_committed(
                    old(self).spec_item().leaves(),
                    final(self).spec_item().leaves(),
                    contents@,
                    0,
                    k,
                )),
    {
        match self.tracked_item.commit(contents) {
            Ok(()) => {
                self.version_infos.push(version_info);
                Ok(())
            },
            Err(e) => Err(e),
        }
    }

    /// The bytes every live leaf file is to hold for the given version.
    pub fn load(&self, version: usize) -> (r: Result<Vec<Vec<u8>>, VersionError>)
        requires
            self.wf(),
        ensures
            (forall|t: int|
                0 <= t < self.spec_item().leaves().len() ==> version < (
                #[trigger] self.spec_item().leaves()[t]).len()) ==> r is Ok,
            r matches Ok(v) ==> v@.len() == self.spec_item().leaves().len() && (forall|t: int|
                0 <= t < self.spec_item().leaves().len() ==> version < (
                #[trigger] self.spec_item().leaves()[t]).len() && v@[t]@
                    == self.spec_item().leaves()[t][version as int]),
            r matches Err(e) ==> (e is NoVersionsAvailable || e is IndexOutOfRange),
    {
        self.tracked_item.load_version(version)
    }
}

impl Project {
    /// Reassembles a project from its persisted parts, for reloading across
    /// process restarts.
    pub fn from_parts(patch_dir: &str, tracked_item: TrackedItem, version_infos: Vec<
        VersionInfo,
    >) -> (r: Self)
        requires
            tracked_item.wf(),
        ensures
            r.wf(),
            r.patch_dir_str() == patch_dir@,
            r.spec_item() == tracked_item,
            r.spec_versions() == version_infos@,
    {
        Project { patch_dir: patch_dir.to_owned(), tracked_item, version_infos }
    }
}


} // verus!
