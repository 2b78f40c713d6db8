//! A tracked folder: a directory tree mirrored as an ordered collection of
//! tracked children, with files and sub-folders behind one uniform handle.
//!
//! The structure — which children exist, in what order, under which paths —
//! is frozen when the tree description is turned into tracked items; later
//! changes to the real directory are invisible until a new description is
//! walked.  Every operation fans out over the children in order and stops at
//! the first error, so a failed multi-step operation leaves the children
//! processed so far mutated and the rest untouched; the contracts state that
//! partial outcome exactly.
//!
//! Contents flow in and out as one byte buffer per leaf file, in traversal
//! order: the embedding program reads the live files into such a vector
//! before a commit and writes the returned vectors back after a load.

use vstd::prelude::*;

use crate::timeline::{content_before, VersionError};
use crate::tracked_file::TrackedFile;

verus! {

/// A description of a directory tree as walked by the embedding program:
/// each entry is a file path or a sub-directory with its own entries, in the
/// order the walk produced them.
pub enum PathNode {
    /// A plain file at the given path.
    File { path: String },
    /// A directory at the given path with the given entries.
    Folder { path: String, entries: Vec<PathNode> },
}

/// The frozen shape of a tracked tree: the variant and path of every node,
/// in order, without any version state.
pub enum Layout {
    /// A tracked file and the path it watches.
    File { path: Seq<char> },
    /// A tracked directory, its path, and the layouts of its children.
    Folder { path: Seq<char>, entries: Seq<Layout> },
}

/// The layout a path node describes.
pub open spec fn node_layout(node: PathNode) -> Layout
    decreases node,
{
    match node {
        PathNode::File { path } => Layout::File { path: path@ },
        PathNode::Folder { path, entries } => Layout::Folder {
            path: path@,
            entries: nodes_layout(entries@),
        },
    }
}

/// The layouts of a sequence of path nodes, in order.
pub open spec fn nodes_layout(nodes: Seq<PathNode>) -> Seq<Layout>
    decreases nodes,
{
    if nodes.len() == 0 {
        Seq::empty()
    } else {
        seq![node_layout(nodes[0])] + nodes_layout(nodes.drop_first())
    }
}

/// A file or directory under version control: the closed sum over the two
/// tracked variants, giving both one uniform handle.
pub enum TrackedItem {
    /// A single tracked file.
    File(TrackedFile),
    /// A recursively tracked directory.
    Folder(TrackedFolder),
}

/// A directory bound to an ordered collection of tracked children.
pub struct TrackedFolder {
    /// The path of the tracked directory.
    path: String,
    /// The patch directory every leaf's timeline is rooted under.
    patch_dir: String,
    /// The tracked children, frozen at construction time.
    tracked_items: Vec<TrackedItem>,
}

impl TrackedItem {
    /// The histories of this item's leaf files, in traversal order; each
    /// history is the leaf's committed contents, oldest first.
    pub closed spec fn leaves(self) -> Seq<Seq<Seq<u8>>>
        decreases self,
    {
        match self {
            TrackedItem::File(f) => seq![f@],
            TrackedItem::Folder(folder) => folder.leaves(),
        }
    }

    /// The frozen shape of this item.
    pub closed spec fn layout(self) -> Layout
        decreases self,
    {
        match self {
            TrackedItem::File(f) => Layout::File { path: f.path_str() },
            TrackedItem::Folder(folder) => folder.layout(),
        }
    }

    /// Every leaf timeline of this item is rooted under `dir`.
    pub closed spec fn rooted_at(self, dir: Seq<char>) -> bool
        decreases self,
    {
        match self {
            TrackedItem::File(f) => f.patch_dir_str() == dir,
            TrackedItem::Folder(folder) => folder.patch_dir_str() == dir,
        }
    }

    /// Every tracked file in this item is well formed.
    pub closed spec fn wf(self) -> bool
        decreases self,
    {
        match self {
            TrackedItem::File(f) => f.wf(),
            TrackedItem::Folder(folder) => folder.wf(),
        }
    }

    /// A structural size measure used for termination of the recursive
    /// operations.
    pub closed spec fn size(self) -> nat
        decreases self,
    {
        match self {
            TrackedItem::File(_) => 1,
            TrackedItem::Folder(folder) => 1 + items_size(folder.items_seq()),
        }
    }
}

/// The concatenated leaf histories of a sequence of items.
pub closed spec fn items_leaves(items: Seq<TrackedItem>) -> Seq<Seq<Seq<u8>>>
    decreases items,
{
    if items.len() == 0 {
        Seq::empty()
    } else {
        items[0].leaves() + items_leaves(items.drop_first())
    }
}

/// Whether every item in the sequence is well formed.
pub closed spec fn items_wf(items: Seq<TrackedItem>) -> bool
    decreases items,
{
    forall|i: int| 0 <= i < items.len() ==> (#[trigger] items[i]).wf()
}

/// Whether every item in the sequence is rooted under `dir`.
pub closed spec fn items_rooted_at(items: Seq<TrackedItem>, dir: Seq<char>) -> bool
    decreases items,
{
    forall|i: int| 0 <= i < items.len() ==> (#[trigger] items[i]).rooted_at(dir)
}

/// The layouts of a sequence of items, in order.
pub closed spec fn items_layout(items: Seq<TrackedItem>) -> Seq<Layout>
    decreases items,
{
    if items.len() == 0 {
        Seq::empty()
    } else {
        seq![items[0].layout()] + items_layout(items.drop_first())
    }
}

/// The summed structural size of a sequence of items.
pub closed spec fn items_size(items: Seq<TrackedItem>) -> nat
    decreases items,
{
    if items.len() == 0 {
        0
    } else {
        items[0].size() + items_size(items.drop_first())
    }
}

impl TrackedFolder {
    /// The tracked children, as a spec-level sequence.
    pub closed spec fn items_seq(self) -> Seq<TrackedItem> {
        self.tracked_items@
    }

    /// The path of the tracked directory.
    pub closed spec fn path_str(self) -> Seq<char> {
        self.path@
    }

    /// The patch directory every leaf's timeline is rooted under.
    pub closed spec fn patch_dir_str(self) -> Seq<char> {
        self.patch_dir@
    }

    /// The histories of the folder's leaf files, in traversal order.
    pub closed spec fn leaves(self) -> Seq<Seq<Seq<u8>>>
        decreases self,
    {
        items_leaves(self.items_seq())
    }

    /// The frozen shape of the folder.
    pub closed spec fn layout(self) -> Layout
        decreases self,
    {
        Layout::Folder { path: self.path@, entries: items_layout(self.items_seq()) }
    }

    /// Every child is well formed and rooted under this folder's patch
    /// directory.
    pub closed spec fn wf(self) -> bool
        decreases self,
    {
        &&& items_wf(self.items_seq())
        &&& items_rooted_at(self.items_seq(), self.patch_dir@)
    }
}

/// The number of leaf files a path node describes.
pub open spec fn node_leaf_count(node: PathNode) -> nat
    decreases node,
{
    match node {
        PathNode::File { .. } => 1,
        PathNode::Folder { entries, .. } => nodes_leaf_count(entries@),
    }
}

/// The summed leaf count of a sequence of path nodes.
pub open spec fn nodes_leaf_count(nodes: Seq<PathNode>) -> nat
    decreases nodes,
{
    if nodes.len() == 0 {
        0
    } else {
        node_leaf_count(nodes[0]) + nodes_leaf_count(nodes.drop_first())
    }
}

/// Whether every leaf history in the sequence is still empty.
pub open spec fn all_empty(leaves: Seq<Seq<Seq<u8>>>) -> bool {
    forall|i: int| 0 <= i < leaves.len() ==> #[trigger] leaves[i] == Seq::<Seq<u8>>::empty()
}

/// Appending an item appends its layout.
proof fn lemma_items_layout_push(items: Seq<TrackedItem>, x: TrackedItem)
    ensures
        items_layout(items.push(x)) == items_layout(items) + seq![x.layout()],
    decreases items.len(),
{
    if items.len() == 0 {
        assert(items.push(x).drop_first() =~= items);
        assert(items_layout(items.push(x)) =~= items_layout(items) + seq![x.layout()]);
    } else {
        assert(items.push(x).drop_first() =~= items.drop_first().push(x));
        lemma_items_layout_push(items.drop_first(), x);
        assert(items_layout(items.push(x)) =~= items_layout(items) + seq![x.layout()]);
    }
}

/// Appending an item appends its leaf histories.
proof fn lemma_items_leaves_push(items: Seq<TrackedItem>, x: TrackedItem)
    ensures
        items_leaves(items.push(x)) == items_leaves(items) + x.leaves(),
    decreases items.len(),
{
    if items.len() == 0 {
        assert(items.push(x).drop_first() =~= items);
        assert(items_leaves(items.push(x)) =~= items_leaves(items) + x.leaves());
    } else {
        assert(items.push(x).drop_first() =~= items.drop_first().push(x));
        lemma_items_leaves_push(items.drop_first(), x);
        assert(items_leaves(items.push(x)) =~= items_leaves(items) + x.leaves());
    }
}

/// Appending a node appends its layout.
proof fn lemma_nodes_layout_push(nodes: Seq<PathNode>, x: PathNode)
    ensures
        nodes_layout(nodes.push(x)) == nodes_layout(nodes) + seq![node_layout(x)],
    decreases nodes.len(),
{
    if nodes.len() == 0 {
        assert(nodes.push(x).drop_first() =~= nodes);
        assert(nodes_layout(nodes.push(x)) =~= nodes_layout(nodes) + seq![node_layout(x)]);
    } else {
        assert(nodes.push(x).drop_first() =~= nodes.drop_first().push(x));
        lemma_nodes_layout_push(nodes.drop_first(), x);
        assert(nodes_layout(nodes.push(x)) =~= nodes_layout(nodes) + seq![node_layout(x)]);
    }
}

/// Appending a node adds its leaf count.
proof fn lemma_nodes_leaf_count_push(nodes: Seq<PathNode>, x: PathNode)
    ensures
        nodes_leaf_count(nodes.push(x)) == nodes_leaf_count(nodes) + node_leaf_count(x),
    decreases nodes.len(),
{
    if nodes.len() == 0 {
        assert(nodes.push(x).drop_first() =~= nodes);
    } else {
        assert(nodes.push(x).drop_first() =~= nodes.drop_first().push(x));
        lemma_nodes_leaf_count_push(nodes.drop_first(), x);
    }
}

impl TrackedItem {
    /// Builds the tracked item a path node describes: a tracked file per
    /// file entry and a recursively tracked folder per directory entry, all
    /// rooted under the given patch directory, with no versions yet.
    pub fn from_node(node: &PathNode, patch_dir: &str) -> (r: Self)
        ensures
            r.wf(),
            r.layout() == node_layout(*node),
            r.rooted_at(patch_dir@),
            r.leaves().len() == node_leaf_count(*node),
            all_empty(r.leaves()),
            r.spec_version_count() == 0,
        decreases *node,
    {
        match node {
            PathNode::File { path } => TrackedItem::File(
                TrackedFile::new(path.as_str(), patch_dir),
            ),
            PathNode::Folder { path, entries } => TrackedItem::Folder(
                TrackedFolder::new(path.as_str(), entries, patch_dir),
            ),
        }
    }

    /// The tracked file behind this handle, if it is a file.
    pub fn file(&self) -> (r: Option<&TrackedFile>)
        ensures
            self is File <==> (r matches Some(f) && *self == TrackedItem::File(*f)),
            self is Folder <==> r is None,
    {
        match self {
            TrackedItem::File(f) => Some(f),
            TrackedItem::Folder(_) => None,
        }
    }

    /// The tracked folder behind this handle, if it is a folder.
    pub fn folder(&self) -> (r: Option<&TrackedFolder>)
        ensures
            self is Folder <==> (r matches Some(f) && *self == TrackedItem::Folder(*f)),
            self is File <==> r is None,
    {
        match self {
            TrackedItem::Folder(f) => Some(f),
            TrackedItem::File(_) => None,
        }
    }
}

impl TrackedFolder {
    /// Builds the tracked folder for a directory at `path` whose walked
    /// entries are `entries`, every leaf rooted under `patch_dir`, with no
    /// versions yet.
    pub fn new(path: &str, entries: &Vec<PathNode>, patch_dir: &str) -> (r: Self)
        ensures
            r.wf(),
            r.layout() == (Layout::Folder { path: path@, entries: nodes_layout(entries@) }),
            r.path_str() == path@,
            r.patch_dir_str() == patch_dir@,
            r.leaves().len() == nodes_leaf_count(entries@),
            all_empty(r.leaves()),
            r.spec_version_count() == 0,
        decreases entries@,
    {
        let mut items: Vec<TrackedItem> = Vec::new();
        let mut i: usize = 0;
        while i < entries.len()
            invariant
                0 <= i <= entries@.len(),
                items_wf(items@),
                items_rooted_at(items@, patch_dir@),
                items_layout(items@) == nodes_layout(entries@.take(i as int)),
                items_leaves(items@).len() == nodes_leaf_count(entries@.take(i as int)),
                all_empty(items_leaves(items@)),
                i > 0 ==> items@[0].spec_version_count() == 0,
            decreases entries@.len() - i,
        {
            let ghost prev_items = items@;
            let ghost prev_taken = entries@.take(i as int);
            let child = TrackedItem::from_node(&entries[i], patch_dir);
            items.push(child);
            proof {
                lemma_items_layout_push(prev_items, child);
                lemma_items_leaves_push(prev_items, child);
                lemma_nodes_layout_push(prev_taken, entries@[i as int]);
                lemma_nodes_leaf_count_push(prev_taken, entries@[i as int]);
                assert(entries@.take(i + 1) =~= prev_taken.push(entries@[i as int]));
                assert(items_layout(items@) =~= nodes_layout(entries@.take(i + 1)));
            }
            i = i + 1;
        }
        proof {
            assert(entries@.take(entries@.len() as int) =~= entries@);
        }
        TrackedFolder {
            path: path.to_owned(),
            patch_dir: patch_dir.to_owned(),
            tracked_items: items,
        }
    }

    /// The path of the tracked directory.
    pub fn path(&self) -> (r: &String)
        ensures
            r@ == self.path_str(),
    {
        &self.path
    }

    /// The tracked children, in their frozen order.
    pub fn items(&self) -> (r: &Vec<TrackedItem>)
        ensures
            r@ == self.items_seq(),
    {
        &self.tracked_items
    }

    /// The number of direct children.
    pub fn len(&self) -> (r: usize)
        ensures
            r == self.items_seq().len(),
    {
        self.tracked_items.len()
    }

    /// Whether the folder has no tracked children.
    pub fn is_empty(&self) -> (r: bool)
        ensures
            r == (self.items_seq().len() == 0),
    {
        self.tracked_items.is_empty()
    }
}



/// A sequence of leaf histories splits at any point.
proof fn lemma_items_leaves_split(items: Seq<TrackedItem>, i: int)
    requires
        0 <= i <= items.len(),
    ensures
        items_leaves(items) == items_leaves(items.take(i)) + items_leaves(items.skip(i)),
    decreases i,
{
    if i == 0 {
        assert(items.take(0) =~= Seq::empty());
        assert(items.skip(0) =~= items);
        assert(items_leaves(items) =~= items_leaves(items.take(0)) + items_leaves(items.skip(0)));
    } else {
        lemma_items_leaves_split(items, i - 1);
        lemma_items_leaves_push(items.take(i - 1), items[i - 1]);
        assert(items.take(i) =~= items.take(i - 1).push(items[i - 1]));
        assert(items.skip(i - 1)[0] == items[i - 1]);
        assert(items.skip(i - 1).drop_first() =~= items.skip(i));
        assert(items_leaves(items.skip(i - 1)) == items[i - 1].leaves() + items_leaves(
            items.skip(i),
        ));
        assert(items_leaves(items) =~= items_leaves(items.take(i)) + items_leaves(items.skip(i)));
    }
}

/// A sequence of leaf histories decomposes around any one item.
proof fn lemma_items_leaves_decompose(items: Seq<TrackedItem>, i: int)
    requires
        0 <= i < items.len(),
    ensures
        items_leaves(items) == items_leaves(items.take(i)) + items[i].leaves() + items_leaves(
            items.skip(i + 1),
        ),
{
    lemma_items_leaves_split(items, i);
    assert(items.skip(i)[0] == items[i]);
    assert(items.skip(i).drop_first() =~= items.skip(i + 1));
    assert(items_leaves(items.skip(i)) == items[i].leaves() + items_leaves(items.skip(i + 1)));
    assert(items_leaves(items) =~= items_leaves(items.take(i)) + items[i].leaves() + items_leaves(
        items.skip(i + 1),
    ));
}

/// No item is larger than the whole sequence it sits in.
proof fn lemma_item_size_le(items: Seq<TrackedItem>, i: int)
    requires
        0 <= i < items.len(),
    ensures
        items[i].size() <= items_size(items),
    decreases items.len(),
{
    if i > 0 {
        lemma_item_size_le(items.drop_first(), i - 1);
        assert(items.drop_first()[i - 1] == items[i]);
    }
}

/// Sequences of items with pointwise equally many leaves hold equally many
/// leaves in total.
proof fn lemma_items_leaves_len_pointwise(a: Seq<TrackedItem>, b: Seq<TrackedItem>)
    requires
        a.len() == b.len(),
        forall|j: int| 0 <= j < a.len() ==> (#[trigger] a[j]).leaves().len() == b[j].leaves().len(),
    ensures
        items_leaves(a).len() == items_leaves(b).len(),
    decreases a.len(),
{
    if a.len() > 0 {
        assert(a[0].leaves().len() == b[0].leaves().len());
        assert(forall|j: int|
            0 <= j < a.drop_first().len() ==> (#[trigger] a.drop_first()[j]) == a[j + 1]
                && b.drop_first()[j] == b[j + 1]);
        lemma_items_leaves_len_pointwise(a.drop_first(), b.drop_first());
    }
}

/// Sequences of items with pointwise equal layouts have equal layouts.
proof fn lemma_items_layout_pointwise(a: Seq<TrackedItem>, b: Seq<TrackedItem>)
    requires
        a.len() == b.len(),
        forall|j: int| 0 <= j < a.len() ==> (#[trigger] a[j]).layout() == b[j].layout(),
    ensures
        items_layout(a) == items_layout(b),
    decreases a.len(),
{
    if a.len() > 0 {
        assert(a[0].layout() == b[0].layout());
        assert(forall|j: int|
            0 <= j < a.drop_first().len() ==> (#[trigger] a.drop_first()[j]) == a[j + 1]
                && b.drop_first()[j] == b[j + 1]);
        lemma_items_layout_pointwise(a.drop_first(), b.drop_first());
        assert(items_layout(a) =~= items_layout(b));
    }
}

/// The leaves `[0, k)` have each committed their buffer from `contents` —
/// leaf `t` the buffer at `start + t` — while the leaves from `k` on are
/// untouched.
pub open spec fn leaves_committed(
    before: Seq<Seq<Seq<u8>>>,
    after: Seq<Seq<Seq<u8>>>,
    contents: Seq<Vec<u8>>,
    start: int,
    k: int,
) -> bool {
    &&& after.len() == before.len()
    &&& forall|t: int| 0 <= t < k ==> #[trigger] after[t] == before[t].push(contents[start + t]@)
    &&& forall|t: int| k <= t < before.len() ==> #[trigger] after[t] == before[t]
}

/// An item's frozen identity is kept: its shape, its leaf count and the
/// patch directories it is rooted under never change.
pub open spec fn same_shape(before: TrackedItem, after: TrackedItem) -> bool {
    &&& after.layout() == before.layout()
    &&& after.leaves().len() == before.leaves().len()
    &&& forall|dir: Seq<char>| before.rooted_at(dir) ==> #[trigger] after.rooted_at(dir)
}

impl TrackedItem {
    /// Commits one content buffer per leaf, drawn from `contents` starting
    /// at `start`, and returns the position just after this item's slice.
    /// On an error a prefix of the leaves has committed and the rest, the
    /// failing leaf included, are untouched.
    pub fn commit_from(&mut self, contents: &Vec<Vec<u8>>, start: usize) -> (r: Result<
        usize,
        VersionError,
    >)
        requires
            old(self).wf(),
            start + old(self).leaves().len() <= contents@.len(),
        ensures
            final(self).wf(),
            same_shape(*old(self), *final(self)),
            r matches Ok(next) ==> next == start + old(self).leaves().len() && leaves_committed(
                old(self).leaves(),
                final(self).leaves(),
                contents@,
                start as int,
                old(self).leaves().len() as int,
            ),
            r matches Err(e) ==> e is KeyCollision,
            (forall|t: int|
                0 <= t < old(self).files().len() ==> !(#[trigger] old(self).files()[t]).commit_collides(
                    contents@[start + t]@,
                )) ==> r is Ok,
            r is Err ==> (exists|k: int|
                0 <= k <= old(self).leaves().len() && leaves_committed(
                    old(self).leaves(),
                    final(self).leaves(),
                    contents@,
                    start as int,
                    k,
                )),
        decreases old(self).size(), 0nat,
    {
        proof {
            assert(contents.len() == contents@.len());
        }
        match self {
            TrackedItem::File(f) => {
                let ghost pre_file = *f;
                proof {
                    assert(*old(self) is File);
                    assert(pre_file == old(self)->File_0);
                    assert(old(self).files() =~= seq![pre_file]);
                }
                match f.commit(contents[start].as_slice()) {
                    Ok(()) => {
                        proof {
                            assert(self.leaves() =~= seq![old(self).leaves()[0].push(
                                contents@[start as int]@,
                            )]);
                        }
                        Ok(start + 1)
                    },
                    Err(e) => {
                        proof {
                            assert(self.leaves() =~= old(self).leaves());
                            assert(leaves_committed(
                                old(self).leaves(),
                                self.leaves(),
                                contents@,
                                start as int,
                                0,
                            ));
                            assert(pre_file.commit_collides(contents@[start as int]@));
                            assert(old(self).files()[0].commit_collides(contents@[start + 0]@));
                        }
                        Err(e)
                    },
                }
            },
            TrackedItem::Folder(folder) => {
                let ghost pre_child = *folder;
                proof {
                    assert(*old(self) is Folder);
                    assert(pre_child == old(self)->Folder_0);
                    assert(old(self).files() == pre_child.files());
                }
                let r = folder.commit_from(contents, start);
                proof {
                    if r is Err {
                        assert(exists|t: int|
                            0 <= t < pre_child.files().len() && (#[trigger] pre_child.files()[t]).commit_collides(
                                contents@[start + t]@,
                            )) by {
                            if forall|t: int|
                                0 <= t < pre_child.files().len() ==> !(
                                #[trigger] pre_child.files()[t]).commit_collides(
                                    contents@[start + t]@,
                                ) {
                                assert(r is Ok);
                            }
                        }
                        let tt = choose|t: int|
                            0 <= t < pre_child.files().len() && (#[trigger] pre_child.files()[t]).commit_collides(
                                contents@[start + t]@,
                            );
                        assert(old(self).files()[tt].commit_collides(contents@[start + tt]@));
                    }
                }
                r
            },
        }
    }
}

impl TrackedFolder {
    /// Commits every child in order, handing each its slice of `contents`.
    /// The first child error aborts the walk: the children before it have
    /// committed, the failing child stops part-way through its own leaves,
    /// and everything after is untouched.
    pub fn commit_from(&mut self, contents: &Vec<Vec<u8>>, start: usize) -> (r: Result<
        usize,
        VersionError,
    >)
        requires
            old(self).wf(),
            start + old(self).leaves().len() <= contents@.len(),
        ensures
            final(self).wf(),
            same_shape(TrackedItem::Folder(*old(self)), TrackedItem::Folder(*final(self))),
            final(self).path_str() == old(self).path_str(),
            final(self).patch_dir_str() == old(self).patch_dir_str(),
            r matches Ok(next) ==> next == start + old(self).leaves().len() && leaves_committed(
                old(self).leaves(),
                final(self).leaves(),
                contents@,
                start as int,
                old(self).leaves().len() as int,
            ),
            r matches Err(e) ==> e is KeyCollision,
            (forall|t: int|
                0 <= t < old(self).files().len() ==> !(#[trigger] old(self).files()[t]).commit_collides(
                    contents@[start + t]@,
                )) ==> r is Ok,
            r is Err ==> (exists|k: int|
                0 <= k <= old(self).leaves().len() && leaves_committed(
                    old(self).leaves(),
                    final(self).leaves(),
                    contents@,
                    start as int,
                    k,
                )),
        decreases items_size(old(self).items_seq()), 1nat,
    {
        let ghost orig = old(self).items_seq();
        let ghost flat = items_leaves(orig);
        proof {
            assert(contents.len() == contents@.len());
        }
        let n = self.tracked_items.len();
        let mut i: usize = 0;
        let mut offset: usize = start;
        while i < n
            invariant
                0 <= i <= n,
                n == orig.len(),
                orig == old(self).items_seq(),
                self.items_seq().len() == n,
                self.path@ == old(self).path@,
                self.patch_dir@ == old(self).patch_dir@,
                flat == items_leaves(orig),
                items_wf(orig),
                items_rooted_at(orig, self.patch_dir@),
                start + flat.len() <= contents@.len(),
                contents@.len() <= usize::MAX,
                forall|j: int| i <= j < n ==> #[trigger] self.items_seq()[j] == orig[j],
                forall|j: int|
                    0 <= j < n ==> (#[trigger] self.items_seq()[j]).wf() && same_shape(
                        orig[j],
                        self.items_seq()[j],
                    ),
                start <= offset <= start + flat.len(),
                offset == start + items_leaves(orig.take(i as int)).len(),
                leaves_committed(
                    flat,
                    items_leaves(self.items_seq()),
                    contents@,
                    start as int,
                    offset - start,
                ),
            decreases n - i,
        {
            let ghost snap = self.items_seq();
            let ghost d = offset - start;
            proof {
                lemma_item_size_le(orig, i as int);
                lemma_items_leaves_decompose(orig, i as int);
                lemma_items_leaves_decompose(snap, i as int);
                lemma_items_leaves_len_pointwise(snap.take(i as int), orig.take(i as int));
                lemma_items_leaves_push(orig.take(i as int), orig[i as int]);
                assert(orig.take(i + 1) =~= orig.take(i as int).push(orig[i as int]));
                assert(items_leaves(snap.take(i as int)).len() == d);
            }
            let child = &mut self.tracked_items[i];
            let res = child.commit_from(contents, offset);
            let ghost cur = self.items_seq();
            let ghost cleaves = orig[i as int].leaves();
            proof {
                assert(cur == snap.update(i as int, cur[i as int]));
                assert(cur.take(i as int) =~= snap.take(i as int));
                assert(cur.skip(i + 1) =~= snap.skip(i + 1));
                lemma_items_leaves_decompose(cur, i as int);
                assert(items_leaves(cur) == items_leaves(snap.take(i as int)) + cur[
                    i as int
                ].leaves() + items_leaves(snap.skip(i + 1)));
            }
            match res {
                Ok(next) => {
                    proof {
                        assert(cur[i as int].leaves().len() == cleaves.len());
                        assert forall|t: int| 0 <= t < next - start implies #[trigger] items_leaves(
                            cur,
                        )[t] == flat[t].push(contents@[start + t]@) by {
                            if t < d {
                                assert(items_leaves(cur)[t] == items_leaves(snap)[t]);
                            } else {
                                assert(items_leaves(cur)[t] == cur[i as int].leaves()[t - d]);
                                assert(flat[t] == cleaves[t - d]);
                                assert(cur[i as int].leaves()[t - d] == cleaves[t - d].push(
                                    contents@[offset + (t - d)]@,
                                ));
                            }
                        }
                        assert forall|t: int|
                            next - start <= t < flat.len() implies #[trigger] items_leaves(cur)[t]
                            == flat[t] by {
                            assert(items_leaves(cur)[t] == items_leaves(snap)[t]);
                        }
                        assert(items_leaves(cur).len() == flat.len());
                    }
                    offset = next;
                },
                Err(e) => {
                    proof {
                        let kk = choose|k: int|
                            0 <= k <= cleaves.len() && leaves_committed(
                                cleaves,
                                cur[i as int].leaves(),
                                contents@,
                                offset as int,
                                k,
                            );
                        assert forall|t: int| 0 <= t < d + kk implies #[trigger] items_leaves(cur)[t]
                            == flat[t].push(contents@[start + t]@) by {
                            if t < d {
                                assert(items_leaves(cur)[t] == items_leaves(snap)[t]);
                            } else {
                                assert(items_leaves(cur)[t] == cur[i as int].leaves()[t - d]);
                                assert(flat[t] == cleaves[t - d]);
                            }
                        }
                        assert forall|t: int| d + kk <= t < flat.len() implies #[trigger] items_leaves(
                            cur,
                        )[t] == flat[t] by {
                            if t < d + cleaves.len() {
                                assert(items_leaves(cur)[t] == cur[i as int].leaves()[t - d]);
                                assert(flat[t] == cleaves[t - d]);
                            } else {
                                assert(items_leaves(cur)[t] == items_leaves(snap)[t]);
                            }
                        }
                        assert(items_leaves(cur).len() == flat.len());
                        assert(leaves_committed(
                            flat,
                            items_leaves(cur),
                            contents@,
                            start as int,
                            d + kk,
                        ));
                        assert(0 <= d + kk <= flat.len());
                        assert(items_wf(cur));
                        lemma_items_layout_pointwise(cur, orig);
                        assert(items_rooted_at(cur, self.patch_dir@));
                        assert(old(self).leaves() == flat);
                        assert(self.leaves() == items_leaves(cur));
                        assert(leaves_committed(
                            old(self).leaves(),
                            self.leaves(),
                            contents@,
                            start as int,
                            d + kk,
                        ));
                        assert(exists|k: int|
                            0 <= k <= old(self).leaves().len() && leaves_committed(
                                old(self).leaves(),
                                self.leaves(),
                                contents@,
                                start as int,
                                k,
                            ));
                        let child_old = orig[i as int];
                        assert(exists|t: int|
                            0 <= t < child_old.files().len() && (#[trigger] child_old.files()[t]).commit_collides(
                                contents@[offset + t]@,
                            )) by {
                            if forall|t: int|
                                0 <= t < child_old.files().len() ==> !(
                                #[trigger] child_old.files()[t]).commit_collides(
                                    contents@[offset + t]@,
                                ) {
                                assert(res is Ok);
                            }
                        }
                        let tt = choose|t: int|
                            0 <= t < child_old.files().len() && (#[trigger] child_old.files()[t]).commit_collides(
                                contents@[offset + t]@,
                            );
                        lemma_items_files_decompose(orig, i as int);
                        lemma_items_files(orig.take(i as int));
                        lemma_items_leaves_split(orig, i as int);
                        assert(items_files(orig.take(i as int)).len() == d);
                        assert(old(self).files()[d + tt] == child_old.files()[tt]);
                        assert(old(self).files()[d + tt].commit_collides(
                            contents@[start + (d + tt)]@,
                        ));
                    }
                    return Err(e);
                },
            }
            i = i + 1;
        }
        proof {
            assert(orig.take(n as int) =~= orig);
            lemma_items_layout_pointwise(self.items_seq(), orig);
            assert(items_wf(self.items_seq()));
            assert(items_rooted_at(self.items_seq(), self.patch_dir@));
        }
        Ok(offset)
    }
}


/// The leaves `[0, k)` were each truncated to their first `index` versions
/// while the leaves from `k` on are untouched.
pub open spec fn leaves_deleted(
    before: Seq<Seq<Seq<u8>>>,
    after: Seq<Seq<Seq<u8>>>,
    index: int,
    k: int,
) -> bool {
    &&& after.len() == before.len()
    &&& forall|t: int| 0 <= t < k ==> #[trigger] after[t] == before[t].take(index)
    &&& forall|t: int| k <= t < before.len() ==> #[trigger] after[t] == before[t]
}

impl TrackedItem {
    /// Loads version `index` of every leaf, appending one buffer per leaf to
    /// `out` in traversal order.  The first leaf that cannot serve the index
    /// aborts the walk.
    pub fn load_into(&self, index: usize, out: &mut Vec<Vec<u8>>) -> (r: Result<(), VersionError>)
        requires
            self.wf(),
        ensures
            forall|j: int| 0 <= j < old(out)@.len() ==> final(out)@[j] == #[trigger] old(out)@[j],
            r is Ok ==> final(out)@.len() == old(out)@.len() + self.leaves().len() && (forall|t: int|
                0 <= t < self.leaves().len() ==> index < (#[trigger] self.leaves()[t]).len()
                    && final(out)@[old(out)@.len() + t]@ == self.leaves()[t][index as int]),
            r matches Err(e) ==> (e is NoVersionsAvailable || e is IndexOutOfRange) && (exists|t: int|
                0 <= t < self.leaves().len() && ((#[trigger] self.leaves()[t]).len() == 0 || index
                    >= self.leaves()[t].len())),
        decreases self.size(), 0nat,
    {
        match self {
            TrackedItem::File(f) => {
                match f.load_version(index) {
                    Ok(v) => {
                        out.push(v);
                        Ok(())
                    },
                    Err(e) => {
                        proof {
                            assert(self.leaves()[0] == f@);
                        }
                        Err(e)
                    },
                }
            },
            TrackedItem::Folder(folder) => folder.load_into(index, out),
        }
    }
}

impl TrackedFolder {
    /// Loads version `index` of every leaf of every child in order,
    /// appending the buffers to `out`.  The first leaf that cannot serve the
    /// index aborts the walk.
    pub fn load_into(&self, index: usize, out: &mut Vec<Vec<u8>>) -> (r: Result<(), VersionError>)
        requires
            self.wf(),
        ensures
            forall|j: int| 0 <= j < old(out)@.len() ==> final(out)@[j] == #[trigger] old(out)@[j],
            r is Ok ==> final(out)@.len() == old(out)@.len() + self.leaves().len() && (forall|t: int|
                0 <= t < self.leaves().len() ==> index < (#[trigger] self.leaves()[t]).len()
                    && final(out)@[old(out)@.len() + t]@ == self.leaves()[t][index as int]),
            r matches Err(e) ==> (e is NoVersionsAvailable || e is IndexOutOfRange) && (exists|t: int|
                0 <= t < self.leaves().len() && ((#[trigger] self.leaves()[t]).len() == 0 || index
                    >= self.leaves()[t].len())),
        decreases items_size(self.items_seq()), 1nat,
    {
        let ghost flat = self.leaves();
        let ghost base = out@.len();
        let n = self.tracked_items.len();
        let mut i: usize = 0;
        while i < n
            invariant
                0 <= i <= n,
                n == self.items_seq().len(),
                flat == self.leaves(),
                base == old(out)@.len(),
                self.wf(),
                forall|j: int| 0 <= j < base ==> out@[j] == #[trigger] old(out)@[j],
                out@.len() == base + items_leaves(self.items_seq().take(i as int)).len(),
                forall|t: int|
                    0 <= t < out@.len() - base ==> index < (#[trigger] flat[t]).len() && out@[base
                        + t]@ == flat[t][index as int],
            decreases n - i,
        {
            let ghost d = out@.len() - base;
            proof {
                lemma_item_size_le(self.items_seq(), i as int);
                lemma_items_leaves_decompose(self.items_seq(), i as int);
                lemma_items_leaves_push(self.items_seq().take(i as int), self.items_seq()[i as int]);
                assert(self.items_seq().take(i + 1) =~= self.items_seq().take(i as int).push(
                    self.items_seq()[i as int],
                ));
                assert(items_wf(self.items_seq()));
                assert(self.items_seq()[i as int].wf());
            }
            let child = &self.tracked_items[i];
            match child.load_into(index, out) {
                Ok(()) => {},
                Err(e) => {
                    proof {
                        let tt = choose|t: int|
                            0 <= t < child.leaves().len() && ((#[trigger] child.leaves()[t]).len()
                                == 0 || index >= child.leaves()[t].len());
                        assert(flat[d + tt] == child.leaves()[tt]);
                        assert(0 <= d + tt < flat.len());
                    }
                    return Err(e);
                },
            }
            i = i + 1;
        }
        proof {
            assert(self.items_seq().take(n as int) =~= self.items_seq());
        }
        Ok(())
    }
}

impl TrackedItem {
    /// Deletes version `index` and everything after it on every leaf,
    /// appending to `out` the bytes each live file is left holding.  The
    /// first leaf that cannot delete aborts the walk: the leaves before it
    /// are truncated, it and everything after are untouched.
    pub fn delete_from(&mut self, index: usize, out: &mut Vec<Vec<u8>>) -> (r: Result<
        (),
        VersionError,
    >)
        requires
            old(self).wf(),
        ensures
            final(self).wf(),
            same_shape(*old(self), *final(self)),
            forall|j: int| 0 <= j < old(out)@.len() ==> final(out)@[j] == #[trigger] old(out)@[j],
            r is Ok ==> final(out)@.len() == old(out)@.len() + old(self).leaves().len() && (forall|
                t: int,
            |
                0 <= t < old(self).leaves().len() ==> {
                    &&& 0 < (#[trigger] old(self).leaves()[t]).len()
                    &&& index <= old(self).leaves()[t].len()
                    &&& final(self).leaves()[t] == old(self).leaves()[t].take(index as int)
                    &&& final(out)@[old(out)@.len() + t]@ == content_before(
                        old(self).leaves()[t],
                        index as int,
                    )
                }),
            r matches Err(e) ==> (e is NoVersionsAvailable || e is IndexOutOfRange) && (exists|
                k: int,
            |
                0 <= k < old(self).leaves().len() && leaves_deleted(
                    old(self).leaves(),
                    final(self).leaves(),
                    index as int,
                    k,
                ) && ((#[trigger] old(self).leaves()[k]).len() == 0 || index > old(
                    self,
                ).leaves()[k].len())),
        decreases old(self).size(), 0nat,
    {
        match self {
            TrackedItem::File(f) => {
                match f.delete_version(index) {
                    Ok(live) => {
                        out.push(live);
                        proof {
                            assert(self.leaves() =~= seq![old(self).leaves()[0].take(index as int)]);
                        }
                        Ok(())
                    },
                    Err(e) => {
                        proof {
                            assert(self.leaves() =~= old(self).leaves());
                            assert(leaves_deleted(
                                old(self).leaves(),
                                self.leaves(),
                                index as int,
                                0,
                            ));
                            assert(old(self).leaves()[0].len() == 0 || index > old(
                                self,
                            ).leaves()[0].len());
                            assert(exists|k: int|
                                0 <= k < old(self).leaves().len() && leaves_deleted(
                                    old(self).leaves(),
                                    self.leaves(),
                                    index as int,
                                    k,
                                ) && ((#[trigger] old(self).leaves()[k]).len() == 0 || index > old(
                                    self,
                                ).leaves()[k].len()));
                        }
                        Err(e)
                    },
                }
            },
            TrackedItem::Folder(folder) => folder.delete_from(index, out),
        }
    }
}

impl TrackedFolder {
    /// Deletes version `index` and everything after it on every leaf of
    /// every child in order, appending the live bytes to `out`.  The first
    /// leaf that cannot delete aborts the walk, leaving the leaves before it
    /// truncated and the rest untouched.
    pub fn delete_from(&mut self, index: usize, out: &mut Vec<Vec<u8>>) -> (r: Result<
        (),
        VersionError,
    >)
        requires
            old(self).wf(),
        ensures
            final(self).wf(),
            same_shape(TrackedItem::Folder(*old(self)), TrackedItem::Folder(*final(self))),
            final(self).path_str() == old(self).path_str(),
            final(self).patch_dir_str() == old(self).patch_dir_str(),
            forall|j: int| 0 <= j < old(out)@.len() ==> final(out)@[j] == #[trigger] old(out)@[j],
            r is Ok ==> final(out)@.len() == old(out)@.len() + old(self).leaves().len() && (forall|
                t: int,
            |
                0 <= t < old(self).leaves().len() ==> {
                    &&& 0 < (#[trigger] old(self).leaves()[t]).len()
                    &&& index <= old(self).leaves()[t].len()
                    &&& final(self).leaves()[t] == old(self).leaves()[t].take(index as int)
                    &&& final(out)@[old(out)@.len() + t]@ == content_before(
                        old(self).leaves()[t],
                        index as int,
                    )
                }),
            r matches Err(e) ==> (e is NoVersionsAvailable || e is IndexOutOfRange) && (exists|
                k: int,
            |
                0 <= k < old(self).leaves().len() && leaves_deleted(
                    old(self).leaves(),
                    final(self).leaves(),
                    index as int,
                    k,
                ) && ((#[trigger] old(self).leaves()[k]).len() == 0 || index > old(
                    self,
                ).leaves()[k].len())),
        decreases items_size(old(self).items_seq()), 1nat,
    {
        let ghost orig = old(self).items_seq();
        let ghost flat = items_leaves(orig);
        let ghost base = out@.len();
        let n = self.tracked_items.len();
        let mut i: usize = 0;
        while i < n
            invariant
                0 <= i <= n,
                n == orig.len(),
                orig == old(self).items_seq(),
                self.items_seq().len() == n,
                self.path@ == old(self).path@,
                self.patch_dir@ == old(self).patch_dir@,
                flat == items_leaves(orig),
                base == old(out)@.len(),
                items_wf(orig),
                items_rooted_at(orig, self.patch_dir@),
                forall|j: int| i <= j < n ==> #[trigger] self.items_seq()[j] == orig[j],
                forall|j: int|
                    0 <= j < n ==> (#[trigger] self.items_seq()[j]).wf() && same_shape(
                        orig[j],
                        self.items_seq()[j],
                    ),
                forall|j: int| 0 <= j < base ==> out@[j] == #[trigger] old(out)@[j],
                out@.len() == base + items_leaves(orig.take(i as int)).len(),
                out@.len() - base <= flat.len(),
                leaves_deleted(
                    flat,
                    items_leaves(self.items_seq()),
                    index as int,
                    out@.len() - base,
                ),
                forall|t: int|
                    0 <= t < out@.len() - base ==> {
                        &&& 0 < (#[trigger] flat[t]).len()
                        &&& index <= flat[t].len()
                        &&& out@[base + t]@ == content_before(flat[t], index as int)
                    },
            decreases n - i,
        {
            let ghost snap = self.items_seq();
            let ghost d = out@.len() - base;
            proof {
                lemma_item_size_le(orig, i as int);
                lemma_items_leaves_decompose(orig, i as int);
                lemma_items_leaves_decompose(snap, i as int);
                lemma_items_leaves_len_pointwise(snap.take(i as int), orig.take(i as int));
                lemma_items_leaves_push(orig.take(i as int), orig[i as int]);
                assert(orig.take(i + 1) =~= orig.take(i as int).push(orig[i as int]));
                assert(items_leaves(snap.take(i as int)).len() == d);
            }
            let child = &mut self.tracked_items[i];
            let res = child.delete_from(index, out);
            let ghost cur = self.items_seq();
            let ghost cleaves = orig[i as int].leaves();
            proof {
                assert(cur == snap.update(i as int, cur[i as int]));
                assert(cur.take(i as int) =~= snap.take(i as int));
                assert(cur.skip(i + 1) =~= snap.skip(i + 1));
                lemma_items_leaves_decompose(cur, i as int);
                assert(items_leaves(cur) == items_leaves(snap.take(i as int)) + cur[
                    i as int
                ].leaves() + items_leaves(snap.skip(i + 1)));
            }
            match res {
                Ok(()) => {
                    proof {
                        assert(cur[i as int].leaves().len() == cleaves.len());
                        assert forall|t: int| 0 <= t < d + cleaves.len() implies #[trigger] items_leaves(
                            cur,
                        )[t] == flat[t].take(index as int) by {
                            if t < d {
                                assert(items_leaves(cur)[t] == items_leaves(snap)[t]);
                            } else {
                                assert(items_leaves(cur)[t] == cur[i as int].leaves()[t - d]);
                                assert(flat[t] == cleaves[t - d]);
                            }
                        }
                        assert forall|t: int|
                            d + cleaves.len() <= t < flat.len() implies #[trigger] items_leaves(
                            cur,
                        )[t] == flat[t] by {
                            assert(items_leaves(cur)[t] == items_leaves(snap)[t]);
                        }
                        assert(items_leaves(cur).len() == flat.len());
                    }
                },
                Err(e) => {
                    proof {
                        let kk = choose|k: int|
                            0 <= k < cleaves.len() && leaves_deleted(
                                cleaves,
                                cur[i as int].leaves(),
                                index as int,
                                k,
                            ) && ((#[trigger] cleaves[k]).len() == 0 || index > cleaves[k].len());
                        assert forall|t: int| 0 <= t < d + kk implies #[trigger] items_leaves(cur)[t]
                            == flat[t].take(index as int) by {
                            if t < d {
                                assert(items_leaves(cur)[t] == items_leaves(snap)[t]);
                            } else {
                                assert(items_leaves(cur)[t] == cur[i as int].leaves()[t - d]);
                                assert(flat[t] == cleaves[t - d]);
                            }
                        }
                        assert forall|t: int| d + kk <= t < flat.len() implies #[trigger] items_leaves(
                            cur,
                        )[t] == flat[t] by {
                            if t < d + cleaves.len() {
                                assert(items_leaves(cur)[t] == cur[i as int].leaves()[t - d]);
                                assert(flat[t] == cleaves[t - d]);
                            } else {
                                assert(items_leaves(cur)[t] == items_leaves(snap)[t]);
                            }
                        }
                        assert(items_leaves(cur).len() == flat.len());
                        assert(items_wf(cur));
                        lemma_items_layout_pointwise(cur, orig);
                        assert(items_rooted_at(cur, self.patch_dir@));
                        assert(flat[d + kk] == cleaves[kk]);
                        assert(leaves_deleted(
                            old(self).leaves(),
                            self.leaves(),
                            index as int,
                            d + kk,
                        ));
                        assert(0 <= d + kk < flat.len());
                        assert(exists|k: int|
                            0 <= k < old(self).leaves().len() && leaves_deleted(
                                old(self).leaves(),
                                self.leaves(),
                                index as int,
                                k,
                            ) && ((#[trigger] old(self).leaves()[k]).len() == 0 || index > old(
                                self,
                            ).leaves()[k].len()));
                    }
                    return Err(e);
                },
            }
            i = i + 1;
        }
        proof {
            assert(orig.take(n as int) =~= orig);
            lemma_items_layout_pointwise(self.items_seq(), orig);
        }
        Ok(())
    }
}


/// Every leaf history holds exactly `n` versions.
pub open spec fn synchronized(leaves: Seq<Seq<Seq<u8>>>, n: nat) -> bool {
    forall|t: int| 0 <= t < leaves.len() ==> (#[trigger] leaves[t]).len() == n
}

/// Folder synchronization law: a commit that reaches every leaf of a tree
/// whose leaves all hold `n` versions leaves every leaf holding `n + 1`.
pub proof fn lemma_commit_synchronizes(
    before: Seq<Seq<Seq<u8>>>,
    after: Seq<Seq<Seq<u8>>>,
    contents: Seq<Vec<u8>>,
    start: int,
    n: nat,
)
    requires
        leaves_committed(before, after, contents, start, before.len() as int),
        synchronized(before, n),
    ensures
        synchronized(after, n + 1),
{
    assert forall|t: int| 0 <= t < after.len() implies (#[trigger] after[t]).len() == n + 1 by {
        assert(after[t] == before[t].push(contents[start + t]@));
    }
}

/// Truncation law: deleting version `index` everywhere leaves every leaf of
/// a tree synchronized at `n >= index` versions holding exactly `index`.
pub proof fn lemma_delete_synchronizes(
    before: Seq<Seq<Seq<u8>>>,
    after: Seq<Seq<Seq<u8>>>,
    index: int,
    n: nat,
)
    requires
        leaves_deleted(before, after, index, before.len() as int),
        synchronized(before, n),
        0 <= index <= n,
    ensures
        synchronized(after, index as nat),
{
    assert forall|t: int| 0 <= t < after.len() implies (#[trigger] after[t]).len() == index by {
        assert(after[t] == before[t].take(index));
    }
}

impl TrackedItem {
    /// The number of versions this item reports: a file's chain length, a
    /// folder's first child's count, or zero for a childless folder.
    pub closed spec fn spec_version_count(self) -> nat
        decreases self,
    {
        match self {
            TrackedItem::File(f) => f@.len(),
            TrackedItem::Folder(folder) => folder.spec_version_count(),
        }
    }

    /// The number of versions this item reports.  After any fully successful
    /// operation it agrees with every leaf; after a partial failure the
    /// leaves can disagree and this reports the first leaf's view of things.
    pub fn version_count(&self) -> (r: usize)
        requires
            self.wf(),
        ensures
            r == self.spec_version_count(),
        decreases self.size(), 0nat,
    {
        match self {
            TrackedItem::File(f) => f.version_count(),
            TrackedItem::Folder(folder) => folder.version_count(),
        }
    }

    /// Whether this item reports no versions.
    pub fn is_empty(&self) -> (r: bool)
        requires
            self.wf(),
        ensures
            r == (self.spec_version_count() == 0),
    {
        self.version_count() == 0
    }

    /// The index of the latest version this item reports, if any.
    pub fn latest_version_index(&self) -> (r: Option<usize>)
        requires
            self.wf(),
        ensures
            r == if self.spec_version_count() == 0 {
                None::<usize>
            } else {
                Some((self.spec_version_count() - 1) as usize)
            },
    {
        let count = self.version_count();
        if count == 0 {
            None
        } else {
            Some(count - 1)
        }
    }

    /// Commits one content buffer per leaf, in traversal order.  On an error
    /// a prefix of the leaves has committed and the rest are untouched.
    pub fn commit(&mut self, contents: &Vec<Vec<u8>>) -> (r: Result<(), VersionError>)
        requires
            old(self).wf(),
            contents@.len() == old(self).leaves().len(),
        ensures
            final(self).wf(),
            same_shape(*old(self), *final(self)),
            r is Ok ==> (forall|n: nat|
                #[trigger] synchronized(old(self).leaves(), n) && layout_populated(
                    old(self).layout(),
                ) ==> final(self).spec_version_count() == n + 1),
            r is Ok ==> leaves_committed(
                old(self).leaves(),
                final(self).leaves(),
                contents@,
                0,
                old(self).leaves().len() as int,
            ),
            r matches Err(e) ==> e is KeyCollision,
            (forall|t: int|
                0 <= t < old(self).files().len() ==> !(#[trigger] old(self).files()[t]).commit_collides(
                    contents@[t]@,
                )) ==> r is Ok,
            r is Err ==> (exists|k: int|
                0 <= k <= old(self).leaves().len() && leaves_committed(
                    old(self).leaves(),
                    final(self).leaves(),
                    contents@,
                    0,
                    k,
                )),
    {
        match self.commit_from(contents, 0) {
            Ok(_) => {
                proof {
                    assert forall|n: nat|
                        synchronized(old(self).leaves(), n) && layout_populated(
                            old(self).layout(),
                        ) implies self.spec_version_count() == n + 1 by {
                        lemma_commit_synchronizes(
                            old(self).leaves(),
                            self.leaves(),
                            contents@,
                            0,
                            n,
                        );
                        lemma_synchronized_count(*self, n + 1);
                    }
                }
                Ok(())
            },
            Err(e) => Err(e),
        }
    }

    /// The bytes every live leaf file is to hold for version `index`, one
    /// buffer per leaf in traversal order.
    pub fn load_version(&self, index: usize) -> (r: Result<Vec<Vec<u8>>, VersionError>)
        requires
            self.wf(),
        ensures
            (forall|t: int|
                0 <= t < self.leaves().len() ==> index < (#[trigger] self.leaves()[t]).len())
                ==> r is Ok,
            r matches Ok(v) ==> v@.len() == self.leaves().len() && (forall|t: int|
                0 <= t < self.leaves().len() ==> index < (#[trigger] self.leaves()[t]).len()
                    && v@[t]@ == self.leaves()[t][index as int]),
            r matches Err(e) ==> (e is NoVersionsAvailable || e is IndexOutOfRange) && (exists|t: int|
                0 <= t < self.leaves().len() && ((#[trigger] self.leaves()[t]).len() == 0 || index
                    >= self.leaves()[t].len())),
    {
        let mut out: Vec<Vec<u8>> = Vec::new();
        match self.load_into(index, &mut out) {
            Ok(()) => Ok(out),
            Err(e) => Err(e),
        }
    }

    /// Deletes version `index` and everything after it on every leaf and
    /// returns the bytes each live file is left holding.  On an error a
    /// prefix of the leaves is truncated and the rest are untouched.
    pub fn delete_version(&mut self, index: usize) -> (r: Result<Vec<Vec<u8>>, VersionError>)
        requires
            old(self).wf(),
        ensures
            final(self).wf(),
            same_shape(*old(self), *final(self)),
            r is Ok ==> (forall|n: nat|
                #[trigger] synchronized(old(self).leaves(), n) && layout_populated(
                    old(self).layout(),
                ) && index <= n ==> final(self).spec_version_count() == index),
            (forall|t: int|
                0 <= t < old(self).leaves().len() ==> 0 < (#[trigger] old(self).leaves()[t]).len()
                    && index <= old(self).leaves()[t].len()) ==> r is Ok,
            r matches Ok(v) ==> v@.len() == old(self).leaves().len() && (forall|t: int|
                0 <= t < old(self).leaves().len() ==> {
                    &&& final(self).leaves()[t] == (#[trigger] old(self).leaves()[t]).take(
                        index as int,
                    )
                    &&& v@[t]@ == content_before(old(self).leaves()[t], index as int)
                }),
            r matches Err(e) ==> (e is NoVersionsAvailable || e is IndexOutOfRange) && (exists|
                k: int,
            |
                0 <= k < old(self).leaves().len() && leaves_deleted(
                    old(self).leaves(),
                    final(self).leaves(),
                    index as int,
                    k,
                ) && ((#[trigger] old(self).leaves()[k]).len() == 0 || index > old(
                    self,
                ).leaves()[k].len())),
    {
        let mut out: Vec<Vec<u8>> = Vec::new();
        match self.delete_from(index, &mut out) {
            Ok(()) => {
                proof {
                    assert forall|n: nat|
                        synchronized(old(self).leaves(), n) && layout_populated(
                            old(self).layout(),
                        ) && index <= n implies self.spec_version_count() == index by {
                        assert(leaves_deleted(
                            old(self).leaves(),
                            self.leaves(),
                            index as int,
                            old(self).leaves().len() as int,
                        ));
                        lemma_delete_synchronizes(
                            old(self).leaves(),
                            self.leaves(),
                            index as int,
                            n,
                        );
                        lemma_synchronized_count(*self, index as nat);
                    }
                }
                Ok(out)
            },
            Err(e) => Err(e),
        }
    }

    /// A fresh copy of this item with the same frozen structure and no
    /// versions.
    fn cleared(&self) -> (r: Self)
        requires
            self.wf(),
        ensures
            r.wf(),
            r.layout() == self.layout(),
            r.leaves().len() == self.leaves().len(),
            all_empty(r.leaves()),
            forall|dir: Seq<char>| self.rooted_at(dir) ==> #[trigger] r.rooted_at(dir),
        decreases self.size(), 0nat,
    {
        match self {
            TrackedItem::File(f) => {
                let fresh = TrackedFile::new(f.path().as_str(), f.timeline().patch_dir().as_str());
                proof {
                    assert(TrackedItem::File(fresh).leaves() =~= seq![fresh@]);
                }
                TrackedItem::File(fresh)
            },
            TrackedItem::Folder(folder) => TrackedItem::Folder(folder.cleared()),
        }
    }

    /// A new item with the same structure whose history starts afresh from
    /// `contents` — the bytes the live leaf files hold right now.  The fork
    /// commits into fresh stores, which never collide, so forking always
    /// succeeds; every leaf of the fork holds exactly one version and its
    /// chains are independent of this item's.
    pub fn fork(&self, contents: &Vec<Vec<u8>>) -> (r: Result<Self, VersionError>)
        requires
            self.wf(),
            contents@.len() == self.leaves().len(),
        ensures
            r is Ok,
            r matches Ok(f) ==> {
                &&& f.wf()
                &&& f.layout() == self.layout()
                &&& f.leaves().len() == self.leaves().len()
                &&& (forall|t: int|
                    0 <= t < self.leaves().len() ==> #[trigger] f.leaves()[t] == seq![
                        contents@[t]@,
                    ])
                &&& (forall|dir: Seq<char>| self.rooted_at(dir) ==> #[trigger] f.rooted_at(dir))
            },
    {
        let mut copy = self.cleared();
        let ghost fresh = copy.leaves();
        proof {
            lemma_item_files(copy);
            assert forall|t: int| 0 <= t < copy.files().len() implies !(
            #[trigger] copy.files()[t]).commit_collides(contents@[0 + t]@) by {
                assert(copy.files()[t]@ == copy.leaves()[t]);
                assert(copy.leaves()[t] == Seq::<Seq<u8>>::empty());
                copy.files()[t].lemma_fresh_file_never_collides(contents@[0 + t]@);
            }
        }
        match copy.commit_from(contents, 0) {
            Ok(_) => {
                proof {
                    assert forall|t: int| 0 <= t < self.leaves().len() implies #[trigger] copy.leaves()[t]
                        == seq![contents@[t]@] by {
                        assert(copy.leaves()[t] == fresh[t].push(contents@[t]@));
                        assert(fresh[t] == Seq::<Seq<u8>>::empty());
                        assert(Seq::<Seq<u8>>::empty().push(contents@[t]@) =~= seq![contents@[t]@]);
                    }
                }
                Ok(copy)
            },
            Err(e) => {
                proof {
                    assert(false);
                }
                Err(e)
            },
        }
    }
}

impl TrackedFolder {
    /// The number of versions the folder reports: its first child's count,
    /// or zero when it has no children.
    pub closed spec fn spec_version_count(self) -> nat
        decreases self,
    {
        if self.items_seq().len() == 0 {
            0
        } else {
            self.items_seq()[0].spec_version_count()
        }
    }

    /// The number of versions the folder reports.  By the synchronization
    /// invariant every child agrees after a fully successful operation; a
    /// disagreement marks a partial failure a caller has yet to reconcile.
    pub fn version_count(&self) -> (r: usize)
        requires
            self.wf(),
        ensures
            r == self.spec_version_count(),
        decreases items_size(self.items_seq()), 1nat,
    {
        if self.tracked_items.len() == 0 {
            0
        } else {
            proof {
                lemma_item_size_le(self.items_seq(), 0);
                assert(items_wf(self.items_seq()));
                assert(self.items_seq()[0].wf());
            }
            self.tracked_items[0].version_count()
        }
    }

    /// Commits one content buffer per leaf, in traversal order.  The first
    /// child error aborts the walk: the children before it have committed
    /// and the rest are untouched.
    pub fn commit(&mut self, contents: &Vec<Vec<u8>>) -> (r: Result<(), VersionError>)
        requires
            old(self).wf(),
            contents@.len() == old(self).leaves().len(),
        ensures
            final(self).wf(),
            same_shape(TrackedItem::Folder(*old(self)), TrackedItem::Folder(*final(self))),
            final(self).path_str() == old(self).path_str(),
            final(self).patch_dir_str() == old(self).patch_dir_str(),
            r is Ok ==> leaves_committed(
                old(self).leaves(),
                final(self).leaves(),
                contents@,
                0,
                old(self).leaves().len() as int,
            ),
            r is Ok ==> (forall|n: nat|
                synchronized(old(self).leaves(), n) ==> #[trigger] synchronized(
                    final(self).leaves(),
                    n + 1,
                )),
            r is Ok ==> (forall|n: nat|
                #[trigger] synchronized(old(self).leaves(), n) && layout_populated(
                    old(self).layout(),
                ) ==> final(self).spec_version_count() == n + 1 && (forall|j: int|
                    0 <= j < final(self).items_seq().len() ==> (
                    #[trigger] final(self).items_seq()[j]).spec_version_count() == n + 1)),
            r matches Err(e) ==> e is KeyCollision,
            (forall|t: int|
                0 <= t < old(self).files().len() ==> !(#[trigger] old(self).files()[t]).commit_collides(
                    contents@[t]@,
                )) ==> r is Ok,
            r is Err ==> (exists|k: int|
                0 <= k <= old(self).leaves().len() && leaves_committed(
                    old(self).leaves(),
                    final(self).leaves(),
                    contents@,
                    0,
                    k,
                )),
    {
        let r = self.commit_from(contents, 0);
        match r {
            Ok(_) => {
                proof {
                    assert forall|n: nat| synchronized(old(self).leaves(), n) implies #[trigger] synchronized(
                        self.leaves(),
                        n + 1,
                    ) by {
                        lemma_commit_synchronizes(
                            old(self).leaves(),
                            self.leaves(),
                            contents@,
                            0,
                            n,
                        );
                    }
                    assert forall|n: nat|
                        synchronized(old(self).leaves(), n) && layout_populated(
                            old(self).layout(),
                        ) implies self.spec_version_count() == n + 1 && (forall|j: int|
                        0 <= j < self.items_seq().len() ==> (
                        #[trigger] self.items_seq()[j]).spec_version_count() == n + 1) by {
                        lemma_commit_synchronizes(
                            old(self).leaves(),
                            self.leaves(),
                            contents@,
                            0,
                            n,
                        );
                        lemma_folder_synchronized_count(*self, n + 1);
                    }
                }
                Ok(())
            },
            Err(e) => Err(e),
        }
    }

    /// The bytes every live leaf file is to hold for version `index`, one
    /// buffer per leaf in traversal order.
    pub fn load_version(&self, index: usize) -> (r: Result<Vec<Vec<u8>>, VersionError>)
        requires
            self.wf(),
        ensures
            (forall|t: int|
                0 <= t < self.leaves().len() ==> index < (#[trigger] self.leaves()[t]).len())
                ==> r is Ok,
            r matches Ok(v) ==> v@.len() == self.leaves().len() && (forall|t: int|
                0 <= t < self.leaves().len() ==> index < (#[trigger] self.leaves()[t]).len()
                    && v@[t]@ == self.leaves()[t][index as int]),
            r matches Err(e) ==> (e is NoVersionsAvailable || e is IndexOutOfRange) && (exists|t: int|
                0 <= t < self.leaves().len() && ((#[trigger] self.leaves()[t]).len() == 0 || index
                    >= self.leaves()[t].len())),
    {
        let mut out: Vec<Vec<u8>> = Vec::new();
        match self.load_into(index, &mut out) {
            Ok(()) => Ok(out),
            Err(e) => Err(e),
        }
    }

    /// Deletes version `index` and everything after it on every leaf and
    /// returns the bytes each live file is left holding.  The first child
    /// error aborts the walk, leaving the children before it truncated and
    /// the rest untouched.
    pub fn delete_version(&mut self, index: usize) -> (r: Result<Vec<Vec<u8>>, VersionError>)
        requires
            old(self).wf(),
        ensures
            final(self).wf(),
            same_shape(TrackedItem::Folder(*old(self)), TrackedItem::Folder(*final(self))),
            r is Ok ==> (forall|n: nat|
                #[trigger] synchronized(old(self).leaves(), n) && layout_populated(
                    old(self).layout(),
                ) && index <= n ==> final(self).spec_version_count() == index && (forall|j: int|
                    0 <= j < final(self).items_seq().len() ==> (
                    #[trigger] final(self).items_seq()[j]).spec_version_count() == index)),
            final(self).path_str() == old(self).path_str(),
            final(self).patch_dir_str() == old(self).patch_dir_str(),
            (forall|t: int|
                0 <= t < old(self).leaves().len() ==> 0 < (#[trigger] old(self).leaves()[t]).len()
                    && index <= old(self).leaves()[t].len()) ==> r is Ok,
            r matches Ok(v) ==> v@.len() == old(self).leaves().len() && (forall|t: int|
                0 <= t < old(self).leaves().len() ==> {
                    &&& final(self).leaves()[t] == (#[trigger] old(self).leaves()[t]).take(
                        index as int,
                    )
                    &&& v@[t]@ == content_before(old(self).leaves()[t], index as int)
                }),
            r matches Err(e) ==> (e is NoVersionsAvailable || e is IndexOutOfRange) && (exists|
                k: int,
            |
                0 <= k < old(self).leaves().len() && leaves_deleted(
                    old(self).leaves(),
                    final(self).leaves(),
                    index as int,
                    k,
                ) && ((#[trigger] old(self).leaves()[k]).len() == 0 || index > old(
                    self,
                ).leaves()[k].len())),
    {
        let mut out: Vec<Vec<u8>> = Vec::new();
        match self.delete_from(index, &mut out) {
            Ok(()) => {
                proof {
                    assert forall|n: nat|
                        synchronized(old(self).leaves(), n) && layout_populated(
                            old(self).layout(),
                        ) && index <= n implies self.spec_version_count() == index && (forall|
                        j: int,
                    |
                        0 <= j < self.items_seq().len() ==> (
                        #[trigger] self.items_seq()[j]).spec_version_count() == index) by {
                        assert(leaves_deleted(
                            old(self).leaves(),
                            self.leaves(),
                            index as int,
                            old(self).leaves().len() as int,
                        ));
                        lemma_delete_synchronizes(
                            old(self).leaves(),
                            self.leaves(),
                            index as int,
                            n,
                        );
                        lemma_folder_synchronized_count(*self, index as nat);
                    }
                }
                Ok(out)
            },
            Err(e) => Err(e),
        }
    }

    /// A fresh copy of this folder with the same frozen structure and no
    /// versions.
    fn cleared(&self) -> (r: Self)
        requires
            self.wf(),
        ensures
            r.wf(),
            r.layout() == self.layout(),
            r.path_str() == self.path_str(),
            r.patch_dir_str() == self.patch_dir_str(),
            r.leaves().len() == self.leaves().len(),
            all_empty(r.leaves()),
        decreases items_size(self.items_seq()), 1nat,
    {
        let n = self.tracked_items.len();
        let mut items: Vec<TrackedItem> = Vec::new();
        let mut i: usize = 0;
        while i < n
            invariant
                0 <= i <= n,
                n == self.items_seq().len(),
                self.wf(),
                items@.len() == i,
                items_wf(items@),
                items_rooted_at(items@, self.patch_dir@),
                items_layout(items@) == items_layout(self.items_seq().take(i as int)),
                items_leaves(items@).len() == items_leaves(self.items_seq().take(i as int)).len(),
                all_empty(items_leaves(items@)),
            decreases n - i,
        {
            let ghost prev_items = items@;
            let ghost prev_taken = self.items_seq().take(i as int);
            proof {
                lemma_item_size_le(self.items_seq(), i as int);
                assert(items_wf(self.items_seq()));
                assert(self.items_seq()[i as int].wf());
                assert(items_rooted_at(self.items_seq(), self.patch_dir@));
                assert(self.items_seq()[i as int].rooted_at(self.patch_dir@));
            }
            let child = self.tracked_items[i].cleared();
            items.push(child);
            proof {
                lemma_items_layout_push(prev_items, child);
                lemma_items_leaves_push(prev_items, child);
                lemma_items_layout_push(prev_taken, self.items_seq()[i as int]);
                lemma_items_leaves_push(prev_taken, self.items_seq()[i as int]);
                assert(self.items_seq().take(i + 1) =~= prev_taken.push(
                    self.items_seq()[i as int],
                ));
                assert(items_layout(items@) =~= items_layout(self.items_seq().take(i + 1)));
                assert forall|t: int| 0 <= t < items_leaves(items@).len() implies #[trigger] items_leaves(
                    items@,
                )[t] == Seq::<Seq<u8>>::empty() by {
                    if t < items_leaves(prev_items).len() {
                        assert(items_leaves(items@)[t] == items_leaves(prev_items)[t]);
                    } else {
                        assert(items_leaves(items@)[t] == child.leaves()[t - items_leaves(
                            prev_items,
                        ).len()]);
                    }
                }
            }
            i = i + 1;
        }
        proof {
            assert(self.items_seq().take(n as int) =~= self.items_seq());
        }
        TrackedFolder {
            path: self.path.clone(),
            patch_dir: self.patch_dir.clone(),
            tracked_items: items,
        }
    }

    /// A new folder with the same structure whose history starts afresh from
    /// `contents` — the bytes the live leaf files hold right now.  The fork
    /// commits into fresh stores, which never collide, so forking always
    /// succeeds; every leaf of the fork holds exactly one version and its
    /// chains are independent of this folder's.
    pub fn fork(&self, contents: &Vec<Vec<u8>>) -> (r: Result<Self, VersionError>)
        requires
            self.wf(),
            contents@.len() == self.leaves().len(),
        ensures
            r is Ok,
            r matches Ok(f) ==> {
                &&& f.wf()
                &&& f.layout() == self.layout()
                &&& f.path_str() == self.path_str()
                &&& f.patch_dir_str() == self.patch_dir_str()
                &&& f.leaves().len() == self.leaves().len()
                &&& (forall|t: int|
                    0 <= t < self.leaves().len() ==> #[trigger] f.leaves()[t] == seq![
                        contents@[t]@,
                    ])
            },
    {
        let mut copy = self.cleared();
        let ghost fresh = copy.leaves();
        proof {
            lemma_items_files(copy.items_seq());
            assert forall|t: int| 0 <= t < copy.files().len() implies !(
            #[trigger] copy.files()[t]).commit_collides(contents@[0 + t]@) by {
                assert(copy.files()[t] == items_files(copy.items_seq())[t]);
                assert(copy.files()[t]@ == copy.leaves()[t]);
                assert(copy.leaves()[t] == Seq::<Seq<u8>>::empty());
                assert(copy.files()[t].wf());
                copy.files()[t].lemma_fresh_file_never_collides(contents@[0 + t]@);
            }
        }
        match copy.commit_from(contents, 0) {
            Ok(_) => {
                proof {
                    assert forall|t: int| 0 <= t < self.leaves().len() implies #[trigger] copy.leaves()[t]
                        == seq![contents@[t]@] by {
                        assert(copy.leaves()[t] == fresh[t].push(contents@[t]@));
                        assert(fresh[t] == Seq::<Seq<u8>>::empty());
                        assert(Seq::<Seq<u8>>::empty().push(contents@[t]@) =~= seq![contents@[t]@]);
                    }
                }
                Ok(copy)
            },
            Err(e) => {
                proof {
                    assert(false);
                }
                Err(e)
            },
        }
    }
}


impl TrackedItem {
    /// The bytes of every leaf's latest version, per the count this item
    /// reports.
    pub fn load_latest(&self) -> (r: Result<Vec<Vec<u8>>, VersionError>)
        requires
            self.wf(),
        ensures
            self.spec_version_count() == 0 ==> r == Err::<Vec<Vec<u8>>, VersionError>(
                VersionError::NoVersionsAvailable,
            ),
            r matches Ok(v) ==> self.spec_version_count() > 0 && v@.len() == self.leaves().len()
                && (forall|t: int|
                0 <= t < self.leaves().len() ==> self.spec_version_count() - 1 < (
                #[trigger] self.leaves()[t]).len() && v@[t]@ == self.leaves()[t][
                    self.spec_version_count() - 1
                ]),
    {
        let count = self.version_count();
        if count == 0 {
            Err(VersionError::NoVersionsAvailable)
        } else {
            self.load_version(count - 1)
        }
    }

    /// Deletes every leaf's latest version, per the count this item reports,
    /// and returns the bytes each live file is left holding.
    pub fn delete_latest(&mut self) -> (r: Result<Vec<Vec<u8>>, VersionError>)
        requires
            old(self).wf(),
        ensures
            final(self).wf(),
            same_shape(*old(self), *final(self)),
            old(self).spec_version_count() == 0 ==> r == Err::<Vec<Vec<u8>>, VersionError>(
                VersionError::NoVersionsAvailable,
            ) && *final(self) == *old(self),
            r matches Ok(v) ==> old(self).spec_version_count() > 0 && v@.len() == old(
                self,
            ).leaves().len() && (forall|t: int|
                0 <= t < old(self).leaves().len() ==> #[trigger] final(self).leaves()[t] == old(
                    self,
                ).leaves()[t].take(old(self).spec_version_count() - 1)),
            r is Err && old(self).spec_version_count() > 0 ==> (forall|t: int|
                0 <= t < old(self).leaves().len() ==> #[trigger] final(self).leaves()[t] == old(
                    self,
                ).leaves()[t] || final(self).leaves()[t] == old(self).leaves()[t].take(
                    old(self).spec_version_count() - 1,
                )),
            old(self).spec_version_count() > 0 && (forall|t: int|
                0 <= t < old(self).leaves().len() ==> 0 < (#[trigger] old(self).leaves()[t]).len()
                    && old(self).spec_version_count() - 1 <= old(self).leaves()[t].len())
                ==> r is Ok,
    {
        let count = self.version_count();
        if count == 0 {
            Err(VersionError::NoVersionsAvailable)
        } else {
            let r = self.delete_version(count - 1);
            proof {
                if r is Err {
                    let kk = choose|k: int|
                        0 <= k < old(self).leaves().len() && leaves_deleted(
                            old(self).leaves(),
                            self.leaves(),
                            count - 1,
                            k,
                        ) && ((#[trigger] old(self).leaves()[k]).len() == 0 || count - 1 > old(
                            self,
                        ).leaves()[k].len());
                    assert(leaves_deleted(old(self).leaves(), self.leaves(), count - 1, kk));
                }
            }
            r
        }
    }

    /// The bytes that restore every live leaf file to its latest version.
    pub fn revert(&self) -> (r: Result<Vec<Vec<u8>>, VersionError>)
        requires
            self.wf(),
        ensures
            self.spec_version_count() == 0 ==> r == Err::<Vec<Vec<u8>>, VersionError>(
                VersionError::NoVersionsAvailable,
            ),
            r matches Ok(v) ==> self.spec_version_count() > 0 && v@.len() == self.leaves().len()
                && (forall|t: int|
                0 <= t < self.leaves().len() ==> self.spec_version_count() - 1 < (
                #[trigger] self.leaves()[t]).len() && v@[t]@ == self.leaves()[t][
                    self.spec_version_count() - 1
                ]),
    {
        self.load_latest()
    }

    /// Deletes every version of every leaf.  An item that already reports no
    /// versions is left as it is.
    pub fn clear_versions(&mut self) -> (r: Result<(), VersionError>)
        requires
            old(self).wf(),
        ensures
            final(self).wf(),
            same_shape(*old(self), *final(self)),
            old(self).spec_version_count() == 0 ==> r is Ok && *final(self) == *old(self),
            (forall|t: int|
                0 <= t < old(self).leaves().len() ==> 0 < (#[trigger] old(self).leaves()[t]).len())
                ==> r is Ok,
            r matches Err(e) ==> (e is NoVersionsAvailable || e is IndexOutOfRange),
            r is Ok && old(self).spec_version_count() > 0 ==> (forall|t: int|
                0 <= t < old(self).leaves().len() ==> #[trigger] final(self).leaves()[t]
                    == Seq::<Seq<u8>>::empty()),
    {
        let count = self.version_count();
        if count == 0 {
            return Ok(());
        }
        match self.delete_version(0) {
            Ok(_) => {
                proof {
                    assert forall|t: int| 0 <= t < old(self).leaves().len() implies #[trigger] self.leaves()[t]
                        == Seq::<Seq<u8>>::empty() by {
                        assert(self.leaves()[t] == old(self).leaves()[t].take(0));
                        assert(old(self).leaves()[t].take(0) =~= Seq::<Seq<u8>>::empty());
                    }
                }
                Ok(())
            },
            Err(e) => Err(e),
        }
    }
}

impl TrackedFolder {
    /// Whether the folder reports no versions.
    pub fn has_versions(&self) -> (r: bool)
        requires
            self.wf(),
        ensures
            r == (self.spec_version_count() > 0),
    {
        self.version_count() > 0
    }

    /// The index of the latest version the folder reports, if any.
    pub fn latest_version_index(&self) -> (r: Option<usize>)
        requires
            self.wf(),
        ensures
            r == if self.spec_version_count() == 0 {
                None::<usize>
            } else {
                Some((self.spec_version_count() - 1) as usize)
            },
    {
        let count = self.version_count();
        if count == 0 {
            None
        } else {
            Some(count - 1)
        }
    }

    /// The bytes of every leaf's latest version, per the count this folder
    /// reports.
    pub fn load_latest(&self) -> (r: Result<Vec<Vec<u8>>, VersionError>)
        requires
            self.wf(),
        ensures
            self.spec_version_count() == 0 ==> r == Err::<Vec<Vec<u8>>, VersionError>(
                VersionError::NoVersionsAvailable,
            ),
            r matches Ok(v) ==> self.spec_version_count() > 0 && v@.len() == self.leaves().len()
                && (forall|t: int|
                0 <= t < self.leaves().len() ==> self.spec_version_count() - 1 < (
                #[trigger] self.leaves()[t]).len() && v@[t]@ == self.leaves()[t][
                    self.spec_version_count() - 1
                ]),
    {
        let count = self.version_count();
        if count == 0 {
            Err(VersionError::NoVersionsAvailable)
        } else {
            self.load_version(count - 1)
        }
    }

    /// Deletes every leaf's latest version, per the count this folder
    /// reports, and returns the bytes each live file is left holding.
    pub fn delete_latest(&mut self) -> (r: Result<Vec<Vec<u8>>, VersionError>)
        requires
            old(self).wf(),
        ensures
            final(self).wf(),
            same_shape(TrackedItem::Folder(*old(self)), TrackedItem::Folder(*final(self))),
            final(self).path_str() == old(self).path_str(),
            final(self).patch_dir_str() == old(self).patch_dir_str(),
            old(self).spec_version_count() == 0 ==> r == Err::<Vec<Vec<u8>>, VersionError>(
                VersionError::NoVersionsAvailable,
            ) && *final(self) == *old(self),
            r matches Ok(v) ==> old(self).spec_version_count() > 0 && v@.len() == old(
                self,
            ).leaves().len() && (forall|t: int|
                0 <= t < old(self).leaves().len() ==> #[trigger] final(self).leaves()[t] == old(
                    self,
                ).leaves()[t].take(old(self).spec_version_count() - 1)),
            r is Err && old(self).spec_version_count() > 0 ==> (forall|t: int|
                0 <= t < old(self).leaves().len() ==> #[trigger] final(self).leaves()[t] == old(
                    self,
                ).leaves()[t] || final(self).leaves()[t] == old(self).leaves()[t].take(
                    old(self).spec_version_count() - 1,
                )),
            old(self).spec_version_count() > 0 && (forall|t: int|
                0 <= t < old(self).leaves().len() ==> 0 < (#[trigger] old(self).leaves()[t]).len()
                    && old(self).spec_version_count() - 1 <= old(self).leaves()[t].len())
                ==> r is Ok,
    {
        let count = self.version_count();
        if count == 0 {
            Err(VersionError::NoVersionsAvailable)
        } else {
            let r = self.delete_version(count - 1);
            proof {
                if r is Err {
                    let kk = choose|k: int|
                        0 <= k < old(self).leaves().len() && leaves_deleted(
                            old(self).leaves(),
                            self.leaves(),
                            count - 1,
                            k,
                        ) && ((#[trigger] old(self).leaves()[k]).len() == 0 || count - 1 > old(
                            self,
                        ).leaves()[k].len());
                    assert(leaves_deleted(old(self).leaves(), self.leaves(), count - 1, kk));
                }
            }
            r
        }
    }

    /// The bytes that restore every live leaf file to its latest version.
    pub fn revert(&self) -> (r: Result<Vec<Vec<u8>>, VersionError>)
        requires
            self.wf(),
        ensures
            self.spec_version_count() == 0 ==> r == Err::<Vec<Vec<u8>>, VersionError>(
                VersionError::NoVersionsAvailable,
            ),
            r matches Ok(v) ==> self.spec_version_count() > 0 && v@.len() == self.leaves().len()
                && (forall|t: int|
                0 <= t < self.leaves().len() ==> self.spec_version_count() - 1 < (
                #[trigger] self.leaves()[t]).len() && v@[t]@ == self.leaves()[t][
                    self.spec_version_count() - 1
                ]),
    {
        self.load_latest()
    }

    /// Deletes every version of every leaf.  A folder that already reports
    /// no versions is left as it is.
    pub fn clear_versions(&mut self) -> (r: Result<(), VersionError>)
        requires
            old(self).wf(),
        ensures
            final(self).wf(),
            same_shape(TrackedItem::Folder(*old(self)), TrackedItem::Folder(*final(self))),
            final(self).path_str() == old(self).path_str(),
            final(self).patch_dir_str() == old(self).patch_dir_str(),
            old(self).spec_version_count() == 0 ==> r is Ok && *final(self) == *old(self),
            (forall|t: int|
                0 <= t < old(self).leaves().len() ==> 0 < (#[trigger] old(self).leaves()[t]).len())
                ==> r is Ok,
            r matches Err(e) ==> (e is NoVersionsAvailable || e is IndexOutOfRange),
            r is Ok && old(self).spec_version_count() > 0 ==> (forall|t: int|
                0 <= t < old(self).leaves().len() ==> #[trigger] final(self).leaves()[t]
                    == Seq::<Seq<u8>>::empty()),
    {
        let count = self.version_count();
        if count == 0 {
            return Ok(());
        }
        match self.delete_version(0) {
            Ok(_) => {
                proof {
                    assert forall|t: int| 0 <= t < old(self).leaves().len() implies #[trigger] self.leaves()[t]
                        == Seq::<Seq<u8>>::empty() by {
                        assert(self.leaves()[t] == old(self).leaves()[t].take(0));
                        assert(old(self).leaves()[t].take(0) =~= Seq::<Seq<u8>>::empty());
                    }
                }
                Ok(())
            },
            Err(e) => Err(e),
        }
    }
}


impl TrackedFolder {
    /// Reassembles a tracked folder from already-restored children, for
    /// reloading a tree across process restarts without rewalking the
    /// directory.
    pub fn from_items(path: &str, patch_dir: &str, items: Vec<TrackedItem>) -> (r: Self)
        requires
            items_wf(items@),
            items_rooted_at(items@, patch_dir@),
        ensures
            r.wf(),
            r.path_str() == path@,
            r.patch_dir_str() == patch_dir@,
            r.items_seq() == items@,
    {
        TrackedFolder {
            path: path.to_owned(),
            patch_dir: patch_dir.to_owned(),
            tracked_items: items,
        }
    }
}


impl TrackedItem {
    /// Replaces the latest version with the given contents: deletes it, then
    /// commits.  Not atomic: on a failure each leaf is left unchanged, or
    /// with its latest version deleted, or already recommitted.
    pub fn replace_latest(&mut self, contents: &Vec<Vec<u8>>) -> (r: Result<(), VersionError>)
        requires
            old(self).wf(),
            contents@.len() == old(self).leaves().len(),
        ensures
            final(self).wf(),
            same_shape(*old(self), *final(self)),
            old(self).spec_version_count() == 0 ==> r == Err::<(), VersionError>(
                VersionError::NoVersionsAvailable,
            ) && *final(self) == *old(self),
            r is Ok ==> old(self).spec_version_count() > 0 && (forall|t: int|
                0 <= t < old(self).leaves().len() ==> #[trigger] final(self).leaves()[t] == old(
                    self,
                ).leaves()[t].take(old(self).spec_version_count() - 1).push(contents@[t]@)),
            r is Err ==> (forall|t: int|
                0 <= t < old(self).leaves().len() ==> {
                    let cut = old(self).leaves()[t].take(old(self).spec_version_count() - 1);
                    ||| #[trigger] final(self).leaves()[t] == old(self).leaves()[t]
                    ||| final(self).leaves()[t] == cut
                    ||| final(self).leaves()[t] == cut.push(contents@[t]@)
                }),
            old(self).spec_version_count() > 0 && (forall|t: int|
                0 <= t < old(self).leaves().len() ==> 0 < (#[trigger] old(self).leaves()[t]).len()
                    && old(self).spec_version_count() - 1 <= old(self).leaves()[t].len()) ==> (
            r matches Err(e) ==> e is KeyCollision) && (forall|t: int|
                0 <= t < old(self).leaves().len() ==> {
                    let cut = (#[trigger] old(self).leaves()[t]).take(
                        old(self).spec_version_count() - 1,
                    );
                    final(self).leaves()[t] == cut || final(self).leaves()[t] == cut.push(
                        contents@[t]@,
                    )
                }),
    {
        match self.delete_latest() {
            Ok(_) => {
                let ghost deleted = *self;
                let r = self.commit(contents);
                proof {
                    if r is Err {
                        assert forall|t: int| 0 <= t < old(self).leaves().len() implies {
                            let cut = old(self).leaves()[t].take(
                                old(self).spec_version_count() - 1,
                            );
                            &&& (self.leaves()[t] == old(self).leaves()[t] || self.leaves()[t]
                                == cut || self.leaves()[t] == cut.push(contents@[t]@))
                            &&& (#[trigger] self.leaves()[t] == cut || self.leaves()[t]
                                == cut.push(contents@[t]@))
                        } by {
                            assert(deleted.leaves()[t] == old(self).leaves()[t].take(
                                old(self).spec_version_count() - 1,
                            ));
                        }
                    }
                }
                r
            },
            Err(e) => Err(e),
        }
    }
}

impl TrackedFolder {
    /// Replaces the latest version with the given contents: deletes it, then
    /// commits.  Not atomic: on a failure each leaf is left unchanged, or
    /// with its latest version deleted, or already recommitted.
    pub fn replace_latest(&mut self, contents: &Vec<Vec<u8>>) -> (r: Result<(), VersionError>)
        requires
            old(self).wf(),
            contents@.len() == old(self).leaves().len(),
        ensures
            final(self).wf(),
            same_shape(TrackedItem::Folder(*old(self)), TrackedItem::Folder(*final(self))),
            final(self).path_str() == old(self).path_str(),
            final(self).patch_dir_str() == old(self).patch_dir_str(),
            old(self).spec_version_count() == 0 ==> r == Err::<(), VersionError>(
                VersionError::NoVersionsAvailable,
            ) && *final(self) == *old(self),
            r is Ok ==> old(self).spec_version_count() > 0 && (forall|t: int|
                0 <= t < old(self).leaves().len() ==> #[trigger] final(self).leaves()[t] == old(
                    self,
                ).leaves()[t].take(old(self).spec_version_count() - 1).push(contents@[t]@)),
            r is Err ==> (forall|t: int|
                0 <= t < old(self).leaves().len() ==> {
                    let cut = old(self).leaves()[t].take(old(self).spec_version_count() - 1);
                    ||| #[trigger] final(self).leaves()[t] == old(self).leaves()[t]
                    ||| final(self).leaves()[t] == cut
                    ||| final(self).leaves()[t] == cut.push(contents@[t]@)
                }),
            old(self).spec_version_count() > 0 && (forall|t: int|
                0 <= t < old(self).leaves().len() ==> 0 < (#[trigger] old(self).leaves()[t]).len()
                    && old(self).spec_version_count() - 1 <= old(self).leaves()[t].len()) ==> (
            r matches Err(e) ==> e is KeyCollision) && (forall|t: int|
                0 <= t < old(self).leaves().len() ==> {
                    let cut = (#[trigger] old(self).leaves()[t]).take(
                        old(self).spec_version_count() - 1,
                    );
                    final(self).leaves()[t] == cut || final(self).leaves()[t] == cut.push(
                        contents@[t]@,
                    )
                }),
    {
        match self.delete_latest() {
            Ok(_) => {
                let ghost deleted = *self;
                let r = self.commit(contents);
                proof {
                    if r is Err {
                        assert forall|t: int| 0 <= t < old(self).leaves().len() implies {
                            let cut = old(self).leaves()[t].take(
                                old(self).spec_version_count() - 1,
                            );
                            &&& (self.leaves()[t] == old(self).leaves()[t] || self.leaves()[t]
                                == cut || self.leaves()[t] == cut.push(contents@[t]@))
                            &&& (#[trigger] self.leaves()[t] == cut || self.leaves()[t]
                                == cut.push(contents@[t]@))
                        } by {
                            assert(deleted.leaves()[t] == old(self).leaves()[t].take(
                                old(self).spec_version_count() - 1,
                            ));
                        }
                    }
                }
                r
            },
            Err(e) => Err(e),
        }
    }
}


/// The leaf files of a sequence of items, in traversal order.
pub closed spec fn items_files(items: Seq<TrackedItem>) -> Seq<TrackedFile>
    decreases items,
{
    if items.len() == 0 {
        Seq::empty()
    } else {
        items[0].files() + items_files(items.drop_first())
    }
}

impl TrackedItem {
    /// The leaf files of this item, in traversal order; file `t` owns leaf
    /// history `t`.
    pub closed spec fn files(self) -> Seq<TrackedFile>
        decreases self,
    {
        match self {
            TrackedItem::File(f) => seq![f],
            TrackedItem::Folder(folder) => folder.files(),
        }
    }
}

impl TrackedFolder {
    /// The leaf files of this folder, in traversal order.
    pub closed spec fn files(self) -> Seq<TrackedFile>
        decreases self,
    {
        items_files(self.items_seq())
    }
}

/// An item's leaf files line up with its leaf histories: there is one file
/// per leaf, file `t`'s committed contents are leaf history `t`, and on a
/// well-formed item every leaf file is well formed.
pub proof fn lemma_item_files(item: TrackedItem)
    ensures
        item.files().len() == item.leaves().len(),
        forall|t: int|
            0 <= t < item.files().len() ==> (#[trigger] item.files()[t])@ == item.leaves()[t],
        item.wf() ==> (forall|t: int|
            0 <= t < item.files().len() ==> (#[trigger] item.files()[t]).wf()),
    decreases item.size(), 0nat,
{
    match item {
        TrackedItem::File(f) => {
            assert(item.files() =~= seq![f]);
            assert(item.leaves() =~= seq![f@]);
        },
        TrackedItem::Folder(folder) => {
            lemma_items_files(folder.items_seq());
        },
    }
}

/// The sequence form of [`lemma_item_files`].
proof fn lemma_items_files(items: Seq<TrackedItem>)
    ensures
        items_files(items).len() == items_leaves(items).len(),
        forall|t: int|
            0 <= t < items_files(items).len() ==> (#[trigger] items_files(items)[t])@
                == items_leaves(items)[t],
        items_wf(items) ==> (forall|t: int|
            0 <= t < items_files(items).len() ==> (#[trigger] items_files(items)[t]).wf()),
    decreases items_size(items), 1nat,
{
    if items.len() > 0 {
        lemma_item_size_le(items, 0);
        lemma_item_files(items[0]);
        assert(forall|j: int|
            0 <= j < items.drop_first().len() ==> #[trigger] items.drop_first()[j] == items[j + 1]);
        assert(items_wf(items) ==> items_wf(items.drop_first()));
        lemma_items_files(items.drop_first());
        assert(items_files(items) == items[0].files() + items_files(items.drop_first()));
        assert(items_leaves(items) == items[0].leaves() + items_leaves(items.drop_first()));
    }
}

/// Leaf files split at any point, in step with the leaf histories.
proof fn lemma_items_files_decompose(items: Seq<TrackedItem>, i: int)
    requires
        0 <= i < items.len(),
    ensures
        items_files(items) == items_files(items.take(i)) + items[i].files() + items_files(
            items.skip(i + 1),
        ),
    decreases i,
{
    if i == 0 {
        assert(items.take(0) =~= Seq::empty());
        assert(items.skip(0) =~= items);
        assert(items.skip(0).drop_first() =~= items.skip(1));
        assert(items_files(items) =~= items_files(items.take(0)) + items[0].files() + items_files(
            items.skip(1),
        ));
    } else {
        lemma_items_files_decompose(items.drop_first(), i - 1);
        assert(items.drop_first().take(i - 1) =~= items.take(i).drop_first());
        assert(items.drop_first()[i - 1] == items[i]);
        assert(items.drop_first().skip(i) =~= items.skip(i + 1));
        assert(items_files(items) == items[0].files() + items_files(items.drop_first()));
        assert(items_files(items.take(i)) == items.take(i)[0].files() + items_files(
            items.take(i).drop_first(),
        ));
        assert(items.take(i)[0] == items[0]);
        assert(items_files(items) =~= items_files(items.take(i)) + items[i].files() + items_files(
            items.skip(i + 1),
        ));
    }
}

/// Every directory in a shape with this property has at least one entry, so
/// every node's reported version count is grounded in some leaf history.
pub open spec fn layout_populated(l: Layout) -> bool
    decreases l,
{
    match l {
        Layout::File { .. } => true,
        Layout::Folder { entries, .. } => entries.len() > 0 && layouts_populated(entries),
    }
}

/// Whether every layout in the sequence is populated.
pub open spec fn layouts_populated(ls: Seq<Layout>) -> bool
    decreases ls,
{
    forall|j: int| 0 <= j < ls.len() ==> layout_populated(#[trigger] ls[j])
}

/// A sequence's layouts index pointwise.
proof fn lemma_items_layout_index(items: Seq<TrackedItem>)
    ensures
        items_layout(items).len() == items.len(),
        forall|j: int|
            0 <= j < items.len() ==> #[trigger] items_layout(items)[j] == items[j].layout(),
    decreases items.len(),
{
    if items.len() > 0 {
        lemma_items_layout_index(items.drop_first());
        assert(forall|j: int|
            0 <= j < items.drop_first().len() ==> #[trigger] items.drop_first()[j] == items[j + 1]);
        assert(items_layout(items) == seq![items[0].layout()] + items_layout(items.drop_first()));
    }
}

/// Count law: in a tree whose shape is populated and whose leaves all hold
/// `n` versions, the tree reports exactly `n` versions — the reported count
/// of a populated, synchronized tree is the shared leaf count.
pub proof fn lemma_synchronized_count(item: TrackedItem, n: nat)
    requires
        layout_populated(item.layout()),
        synchronized(item.leaves(), n),
    ensures
        item.spec_version_count() == n,
        item.leaves().len() > 0,
    decreases item.size(), 0nat,
{
    match item {
        TrackedItem::File(f) => {
            assert(item.leaves()[0] == f@);
        },
        TrackedItem::Folder(folder) => {
            lemma_folder_synchronized_count(folder, n);
        },
    }
}

/// Count law at folder level: a populated folder whose leaves all hold `n`
/// versions reports `n`, and so does each of its children.
pub proof fn lemma_folder_synchronized_count(folder: TrackedFolder, n: nat)
    requires
        layout_populated(folder.layout()),
        synchronized(folder.leaves(), n),
    ensures
        folder.spec_version_count() == n,
        folder.leaves().len() > 0,
        forall|j: int|
            0 <= j < folder.items_seq().len() ==> (#[trigger] folder.items_seq()[j]).spec_version_count()
                == n,
    decreases items_size(folder.items_seq()), 1nat,
{
    let items = folder.items_seq();
    lemma_items_layout_index(items);
    assert(items.len() > 0);
    assert forall|j: int| 0 <= j < items.len() implies (#[trigger] items[j]).spec_version_count()
        == n && items[j].leaves().len() > 0 by {
        lemma_item_size_le(items, j);
        lemma_items_leaves_decompose(items, j);
        assert(layouts_populated(items_layout(items)));
        assert(layout_populated(items_layout(items)[j]));
        assert(items_layout(items)[j] == items[j].layout());
        assert forall|t: int|
            0 <= t < items[j].leaves().len() implies (#[trigger] items[j].leaves()[t]).len()
            == n by {
            assert(items[j].leaves()[t] == folder.leaves()[items_leaves(items.take(j)).len() + t]);
        }
        lemma_synchronized_count(items[j], n);
    }
    lemma_items_leaves_decompose(items, 0);
}


impl TrackedItem {
    /// The number of leaf files under this item — the number of content
    /// buffers a commit takes and a load returns.
    pub fn leaf_count(&self) -> (r: usize)
        requires
            self.wf(),
            self.leaves().len() <= usize::MAX,
        ensures
            r == self.leaves().len(),
        decreases self.size(), 0nat,
    {
        match self {
            TrackedItem::File(_) => {
                proof {
                    assert(self.leaves().len() == 1);
                }
                1
            },
            TrackedItem::Folder(folder) => folder.leaf_count(),
        }
    }
}

impl TrackedFolder {
    /// The number of leaf files under this folder — the number of content
    /// buffers a commit takes and a load returns.
    pub fn leaf_count(&self) -> (r: usize)
        requires
            self.wf(),
            self.leaves().len() <= usize::MAX,
        ensures
            r == self.leaves().len(),
        decreases items_size(self.items_seq()), 1nat,
    {
        let n = self.tracked_items.len();
        let mut acc: usize = 0;
        let mut i: usize = 0;
        while i < n
            invariant
                0 <= i <= n,
                n == self.items_seq().len(),
                self.wf(),
                self.leaves().len() <= usize::MAX,
                acc == items_leaves(self.items_seq().take(i as int)).len(),
                acc <= self.leaves().len(),
            decreases n - i,
        {
            proof {
                lemma_item_size_le(self.items_seq(), i as int);
                lemma_items_leaves_decompose(self.items_seq(), i as int);
                lemma_items_leaves_push(self.items_seq().take(i as int), self.items_seq()[i as int]);
                assert(self.items_seq().take(i + 1) =~= self.items_seq().take(i as int).push(
                    self.items_seq()[i as int],
                ));
                assert(items_wf(self.items_seq()));
                assert(self.items_seq()[i as int].wf());
                assert(items_leaves(self.items_seq().take(i + 1)).len() <= self.leaves().len()) by {
                    lemma_items_leaves_split(self.items_seq(), i + 1);
                }
            }
            let child = &self.tracked_items[i];
            let c = child.leaf_count();
            acc = acc + c;
            i = i + 1;
        }
        proof {
            assert(self.items_seq().take(n as int) =~= self.items_seq());
        }
        acc
    }
}


} // verus!
