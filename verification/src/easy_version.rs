//! The multi-project registry: saved projects keyed by the path they track,
//! and a cursor naming the project currently worked on.
//!
//! One path can hold several saved projects (one per registration), in
//! registration order.  Persisting the registry to the configuration
//! directory is the embedding program's job; the registry itself is plain
//! state over the project layer.

use vstd::prelude::*;

use crate::project::{initial_project, Project};
use crate::timeline::VersionError;
use crate::tracked_folder::{node_leaf_count, PathNode};

verus! {

/// The registry of saved projects and the cursor on the current one.
pub struct EasyVersion {
    /// One entry per tracked path: the path and its saved projects, oldest
    /// first.  No path occurs twice.
    projects: Vec<(String, Vec<Project>)>,
    /// The path and position of the project currently worked on, if any.
    current_project: Option<(String, usize)>,
}

impl EasyVersion {
    /// The number of tracked paths.
    pub closed spec fn entry_count(&self) -> nat {
        self.projects@.len()
    }

    /// The path of entry `i`.
    pub closed spec fn key_at(&self, i: int) -> Seq<char> {
        self.projects@[i].0@
    }

    /// The saved projects of entry `i`, oldest first.
    pub closed spec fn projects_at(&self, i: int) -> Seq<Project> {
        self.projects@[i].1@
    }

    /// The cursor: the path and position of the current project, if any.
    pub closed spec fn spec_current(&self) -> Option<(Seq<char>, usize)> {
        match self.current_project {
            Some((path, index)) => Some((path@, index)),
            None => None,
        }
    }

    /// No path occurs twice and every saved project is sound.
    pub open spec fn wf(&self) -> bool {
        &&& forall|i: int, j: int|
            0 <= i < self.entry_count() && 0 <= j < self.entry_count() && i != j ==> self.key_at(i)
                != self.key_at(j)
        &&& forall|i: int, k: int|
            0 <= i < self.entry_count() && 0 <= k < self.projects_at(i).len() ==> (
            #[trigger] self.projects_at(i)[k]).wf()
    }

    /// An empty registry with no current project.
    pub fn new() -> (r: Self)
        ensures
            r.wf(),
            r.entry_count() == 0,
            r.spec_current() is None,
    {
        EasyVersion { projects: Vec::new(), current_project: None }
    }

    /// The position of the entry tracking `path`, if one exists.
    fn position_of_key(&self, path: &String) -> (r: Option<usize>)
        ensures
            r matches Some(i) ==> 0 <= i < self.entry_count() && self.key_at(i as int) == path@,
            r is None ==> (forall|i: int| 0 <= i < self.entry_count() ==> self.key_at(i) != path@),
    {
        let n = self.projects.len();
        let mut i: usize = 0;
        while i < n
            invariant
                0 <= i <= n,
                n == self.entry_count(),
                forall|j: int| 0 <= j < i ==> self.key_at(j) != path@,
            decreases n - i,
        {
            if self.projects[i].0 == *path {
                return Some(i);
            }
            i = i + 1;
        }
        None
    }

    /// Registers a new project for `path`, built from the walked tree `node`
    /// and the current contents, and makes it the current project; this
    /// always succeeds, since the new project commits into fresh stores.  A
    /// path registered before gains one more saved project; a new path gains
    /// its first.
    pub fn new_project(&mut self, path: &str, node: &PathNode, contents: &Vec<Vec<u8>>) -> (r:
        Result<(), VersionError>)
        requires
            old(self).wf(),
            contents@.len() == node_leaf_count(*node),
        ensures
            final(self).wf(),
            r is Ok,
            r is Ok ==> {
                let known = exists|i: int|
                    0 <= i < old(self).entry_count() && #[trigger] old(self).key_at(i) == path@;
                &&& final(self).entry_count() == old(self).entry_count() + if known {
                    0int
                } else {
                    1int
                }
                &&& (forall|j: int|
                    0 <= j < old(self).entry_count() ==> final(self).key_at(j) == old(self).key_at(
                        j,
                    ))
                &&& (forall|j: int|
                    0 <= j < old(self).entry_count() && old(self).key_at(j) != path@
                        ==> final(self).projects_at(j) == old(self).projects_at(j))
                &&& (forall|j: int|
                    0 <= j < old(self).entry_count() && #[trigger] old(self).key_at(j) == path@
                        ==> {
                        &&& final(self).projects_at(j).len() == old(self).projects_at(j).len() + 1
                        &&& final(self).projects_at(j).take(old(self).projects_at(j).len() as int)
                            == old(self).projects_at(j)
                        &&& initial_project(final(self).projects_at(j).last(), *node, contents@)
                        &&& final(self).spec_current() == Some(
                            (path@, old(self).projects_at(j).len() as usize),
                        )
                    })
                &&& (!known ==> {
                    &&& final(self).key_at(old(self).entry_count() as int) == path@
                    &&& final(self).projects_at(old(self).entry_count() as int).len() == 1
                    &&& initial_project(
                        final(self).projects_at(old(self).entry_count() as int)[0],
                        *node,
                        contents@,
                    )
                    &&& final(self).spec_current() == Some((path@, 0usize))
                })
            },
    {
        let project = match Project::new(node, contents) {
            Ok(p) => p,
            Err(e) => {
                proof {
                    assert(false);
                }
                return Err(e);
            },
        };
        let path_owned = path.to_owned();
        let ghost p = project;
        match self.position_of_key(&path_owned) {
            Some(i) => {
                let entry = &mut self.projects[i];
                let ghost old_list = entry.1@;
                entry.1.push(project);
                let count = entry.1.len();
                self.current_project = Some((path_owned, count - 1));
                proof {
                    assert(self.projects@.len() == old(self).projects@.len());
                    assert(forall|j: int|
                        0 <= j < old(self).entry_count() && j != i ==> self.projects@[j] == old(
                            self,
                        ).projects@[j]);
                    assert(self.projects@[i as int].0@ == old(self).projects@[i as int].0@);
                    assert(self.projects_at(i as int) == old_list.push(p));
                    assert(self.projects_at(i as int).take(old_list.len() as int) =~= old_list);
                    assert forall|j: int|
                        0 <= j < self.entry_count() implies self.key_at(j) == old(self).key_at(
                        j,
                    ) by {
                        if j != i {
                            assert(self.projects@[j] == old(self).projects@[j]);
                        }
                    }
                    assert forall|ii: int, jj: int|
                        0 <= ii < self.entry_count() && 0 <= jj < self.entry_count() && ii
                            != jj implies self.key_at(ii) != self.key_at(jj) by {
                        assert(self.key_at(ii) == old(self).key_at(ii));
                        assert(self.key_at(jj) == old(self).key_at(jj));
                        assert(old(self).key_at(ii) != old(self).key_at(jj));
                    }
                    assert forall|ii: int, kk: int|
                        0 <= ii < self.entry_count() && 0 <= kk < self.projects_at(
                            ii,
                        ).len() implies (#[trigger] self.projects_at(ii)[kk]).wf() by {
                        if ii == i {
                            if kk < old_list.len() {
                                assert(self.projects_at(ii)[kk] == old(self).projects_at(ii)[kk]);
                                assert(old(self).projects_at(ii)[kk].wf());
                            } else {
                                assert(self.projects_at(ii)[kk] == p);
                            }
                        } else {
                            assert(self.projects_at(ii)[kk] == old(self).projects_at(ii)[kk]);
                            assert(old(self).projects_at(ii)[kk].wf());
                        }
                    }
                }
                Ok(())
            },
            None => {
                let ghost old_count = self.entry_count();
                let mut list: Vec<Project> = Vec::new();
                list.push(project);
                self.projects.push((path_owned.clone(), list));
                self.current_project = Some((path_owned, 0));
                proof {
                    assert(self.projects@.len() == old(self).projects@.len() + 1);
                    assert(forall|j: int|
                        0 <= j < old(self).entry_count() ==> self.projects@[j] == old(
                            self,
                        ).projects@[j]);
                    assert(self.key_at(old_count as int) == path@);
                    assert(self.projects_at(old_count as int) =~= seq![p]);
                    assert forall|ii: int, jj: int|
                        0 <= ii < self.entry_count() && 0 <= jj < self.entry_count() && ii
                            != jj implies self.key_at(ii) != self.key_at(jj) by {
                        if ii < old(self).entry_count() && jj < old(self).entry_count() {
                            assert(self.key_at(ii) == old(self).key_at(ii));
                            assert(self.key_at(jj) == old(self).key_at(jj));
                            assert(old(self).key_at(ii) != old(self).key_at(jj));
                        } else if ii < old(self).entry_count() {
                            assert(self.key_at(ii) == old(self).key_at(ii));
                            assert(old(self).key_at(ii) != path@);
                        } else {
                            assert(self.key_at(jj) == old(self).key_at(jj));
                            assert(old(self).key_at(jj) != path@);
                        }
                    }
                    assert forall|ii: int, kk: int|
                        0 <= ii < self.entry_count() && 0 <= kk < self.projects_at(
                            ii,
                        ).len() implies (#[trigger] self.projects_at(ii)[kk]).wf() by {
                        if ii < old(self).entry_count() {
                            assert(self.projects_at(ii)[kk] == old(self).projects_at(ii)[kk]);
                            assert(old(self).projects_at(ii)[kk].wf());
                        } else {
                            assert(self.projects_at(ii)[kk] == p);
                        }
                    }
                }
                Ok(())
            },
        }
    }

    /// The project the cursor names, if the cursor is set and points at a
    /// registered project.
    pub fn get_current_project(&self) -> (r: Option<&Project>)
        requires
            self.wf(),
        ensures
            r matches Some(p) ==> (self.spec_current() matches Some((key, idx)) && (exists|i: int|
                0 <= i < self.entry_count() && #[trigger] self.key_at(i) == key && idx
                    < self.projects_at(i).len() && *p == self.projects_at(i)[idx as int])),
            r is None ==> (self.spec_current() is None || (self.spec_current() matches Some(
                (key, idx),
            ) && (forall|i: int|
                0 <= i < self.entry_count() ==> #[trigger] self.key_at(i) != key
                    || self.projects_at(i).len() <= idx))),
    {
        let (path, index) = match &self.current_project {
            Some((path, index)) => (path, *index),
            None => {
                return None;
            },
        };
        match self.position_of_key(path) {
            Some(i) => {
                if index < self.projects[i].1.len() {
                    Some(&self.projects[i].1[index])
                } else {
                    None
                }
            },
            None => None,
        }
    }

    /// A mutable handle on the project the cursor names, if the cursor is
    /// set and points at a registered project.
    pub fn get_current_project_mut(&mut self) -> (r: Option<&mut Project>)
        requires
            old(self).wf(),
        ensures
            r matches Some(p) ==> (old(self).spec_current() matches Some((key, idx)) && (exists|
                i: int,
            |
                {
                    &&& 0 <= i < old(self).entry_count()
                    &&& #[trigger] old(self).key_at(i) == key
                    &&& idx < old(self).projects_at(i).len()
                    &&& *p == old(self).projects_at(i)[idx as int]
                    &&& final(self).entry_count() == old(self).entry_count()
                    &&& final(self).spec_current() == old(self).spec_current()
                    &&& (forall|j: int|
                        0 <= j < old(self).entry_count() ==> final(self).key_at(j) == old(
                            self,
                        ).key_at(j))
                    &&& (forall|j: int|
                        0 <= j < old(self).entry_count() && j != i ==> final(self).projects_at(j)
                            == old(self).projects_at(j))
                    &&& final(self).projects_at(i) == old(self).projects_at(i).update(
                        idx as int,
                        *final(p),
                    )
                })),
            r is None ==> *final(self) == *old(self) && (old(self).spec_current() is None || (old(
                self,
            ).spec_current() matches Some((key, idx)) && (forall|i: int|
                0 <= i < old(self).entry_count() ==> #[trigger] old(self).key_at(i) != key || old(
                    self,
                ).projects_at(i).len() <= idx))),
    {
        let (path, index) = match &self.current_project {
            Some((path, index)) => (path.clone(), *index),
            None => {
                return None;
            },
        };
        match self.position_of_key(&path) {
            Some(i) => {
                if index < self.projects[i].1.len() {
                    let entry = &mut self.projects[i];
                    Some(&mut entry.1[index])
                } else {
                    None
                }
            },
            None => None,
        }
    }

    /// Points the cursor at the project at `index` under `path`.
    pub fn set_current_project(&mut self, path: &str, index: usize)
        ensures
            final(self).spec_current() == Some((path@, index)),
            final(self).entry_count() == old(self).entry_count(),
            forall|i: int|
                0 <= i < old(self).entry_count() ==> final(self).key_at(i) == old(self).key_at(i)
                    && final(self).projects_at(i) == old(self).projects_at(i),
    {
        self.current_project = Some((path.to_owned(), index));
    }
}

impl EasyVersion {
    /// The registered entries: each tracked path with its saved projects.
    pub fn entries(&self) -> (r: &Vec<(String, Vec<Project>)>)
        ensures
            r@.len() == self.entry_count(),
            forall|i: int|
                0 <= i < self.entry_count() ==> (#[trigger] r@[i]).0@ == self.key_at(i)
                    && r@[i].1@ == self.projects_at(i),
    {
        &self.projects
    }

    /// The cursor value: the path and position of the current project, if
    /// any.
    pub fn current_project(&self) -> (r: &Option<(String, usize)>)
        ensures
            r is Some <==> self.spec_current() is Some,
            r matches Some((path, index)) ==> self.spec_current() == Some((path@, *index)),
    {
        &self.current_project
    }

    /// Reassembles a registry from its persisted parts, for reloading across
    /// process restarts.
    pub fn from_entries(
        projects: Vec<(String, Vec<Project>)>,
        current_project: Option<(String, usize)>,
    ) -> (r: Self)
        requires
            forall|i: int, j: int|
                0 <= i < projects@.len() && 0 <= j < projects@.len() && i != j ==> (
                #[trigger] projects@[i]).0@ != (#[trigger] projects@[j]).0@,
            forall|i: int, k: int|
                0 <= i < projects@.len() && 0 <= k < projects@[i].1@.len() ==> (
                #[trigger] projects@[i].1@[k]).wf(),
        ensures
            r.wf(),
            r.entry_count() == projects@.len(),
            forall|i: int|
                0 <= i < projects@.len() ==> r.key_at(i) == (#[trigger] projects@[i]).0@
                    && r.projects_at(i) == projects@[i].1@,
    {
        EasyVersion { projects, current_project }
    }
}


} // verus!
