//! The staging tree: a site's files and directories, held in memory while
//! a deployment is assembled.
//!
//! The tree keeps one entry for each node and finds a node by looking at
//! the entries in turn.

use vstd::prelude::*;
use crate::error::SiteError;
use crate::path::{is_plain_segment, is_safe_path, strings_view, SanitizedPath};

verus! {

/// What a tree holds at one path.
pub enum NodeView {
    Directory,
    File(Seq<u8>),
}

/// One node of a tree: where it is, and the content if it is a file.
#[derive(Debug)]
pub struct TreeEntry {
    /// Segments of the node's path, outermost first.
    pub path: Vec<String>,
    /// The bytes of a file; `None` for a directory.
    pub content: Option<Vec<u8>>,
}

impl TreeEntry {
    /// The node's path.
    pub open spec fn path_view(&self) -> Seq<Seq<char>> {
        strings_view(self.path@)
    }

    /// What the node is.
    pub open spec fn node(&self) -> NodeView {
        match self.content {
            None => NodeView::Directory,
            Some(bytes) => NodeView::File(bytes@),
        }
    }

    /// The bytes that the node takes up.
    pub open spec fn size(&self) -> nat {
        match self.content {
            None => 0,
            Some(bytes) => bytes@.len(),
        }
    }
}

/// Whether some entry of `entries` lies at `path`.
pub open spec fn has_path(entries: Seq<TreeEntry>, path: Seq<Seq<char>>) -> bool {
    exists|i: int| 0 <= i < entries.len() && (#[trigger] entries[i]).path_view() == path
}

/// The place in `entries` of an entry at `path`.
pub open spec fn position_of(entries: Seq<TreeEntry>, path: Seq<Seq<char>>) -> int {
    choose|i: int| 0 <= i < entries.len() && (#[trigger] entries[i]).path_view() == path
}

/// The nodes of `entries`, by path.
pub open spec fn nodes_of(entries: Seq<TreeEntry>) -> Map<Seq<Seq<char>>, NodeView> {
    Map::new(
        |path: Seq<Seq<char>>| has_path(entries, path),
        |path: Seq<Seq<char>>| entries[position_of(entries, path)].node(),
    )
}

/// No two entries share a path.
pub open spec fn distinct_paths(entries: Seq<TreeEntry>) -> bool {
    forall|i: int, j: int|
        0 <= i < j < entries.len() ==> (#[trigger] entries[i]).path_view() != (
        #[trigger] entries[j]).path_view()
}

/// Every path is a non-empty list of plain names.
pub open spec fn plain_paths(entries: Seq<TreeEntry>) -> bool {
    forall|i: int|
        0 <= i < entries.len() ==> (#[trigger] entries[i]).path_view().len() > 0 && is_safe_path(
            entries[i].path_view(),
        )
}

/// Whether the node at `path` is at the top level or has a directory
/// above it.
pub open spec fn parent_is_directory(
    nodes: Map<Seq<Seq<char>>, NodeView>,
    path: Seq<Seq<char>>,
) -> bool {
    path.len() > 1 ==> nodes.contains_key(path.drop_last()) && nodes[path.drop_last()] is Directory
}

/// Every node below the top level has its parent in the tree, as a
/// directory.
pub open spec fn parents_are_directories(nodes: Map<Seq<Seq<char>>, NodeView>) -> bool {
    forall|path: Seq<Seq<char>>|
        nodes.contains_key(path) ==> #[trigger] parent_is_directory(nodes, path)
}

/// The bytes that the files of `entries` take up together.
pub open spec fn total_size(entries: Seq<TreeEntry>) -> nat
    decreases entries.len(),
{
    if entries.len() == 0 {
        0
    } else {
        total_size(entries.drop_last()) + entries.last().size()
    }
}

/// With distinct paths, each entry is the node at its own path.
pub proof fn lemma_node_at_entry(entries: Seq<TreeEntry>, i: int)
    requires
        distinct_paths(entries),
        0 <= i < entries.len(),
    ensures
        nodes_of(entries).contains_key(entries[i].path_view()),
        nodes_of(entries)[entries[i].path_view()] == entries[i].node(),
        position_of(entries, entries[i].path_view()) == i,
{
    let path = entries[i].path_view();
    assert(has_path(entries, path));
    let j = position_of(entries, path);
    assert(0 <= j < entries.len() && entries[j].path_view() == path);
    if j < i {
        assert(entries[j].path_view() != entries[i].path_view());
    } else if i < j {
        assert(entries[i].path_view() != entries[j].path_view());
    }
}

/// Adding an entry at a fresh path adds its node and nothing else.
#[verifier::rlimit(40)]
pub proof fn lemma_nodes_after_push(entries: Seq<TreeEntry>, entry: TreeEntry)
    requires
        distinct_paths(entries),
        !has_path(entries, entry.path_view()),
    ensures
        distinct_paths(entries.push(entry)),
        nodes_of(entries.push(entry)) == nodes_of(entries).insert(entry.path_view(), entry.node()),
        total_size(entries.push(entry)) == total_size(entries) + entry.size(),
{
    let after = entries.push(entry);
    assert forall|i: int, j: int| 0 <= i < j < after.len() implies (#[trigger] after[i]).path_view()
        != (#[trigger] after[j]).path_view() by {
        if j == entries.len() {
            assert(after[i] == entries[i]);
            if entries[i].path_view() == entry.path_view() {
                assert(has_path(entries, entry.path_view()));
            }
        } else {
            assert(after[i] == entries[i] && after[j] == entries[j]);
        }
    }
    let expected = nodes_of(entries).insert(entry.path_view(), entry.node());
    assert forall|path: Seq<Seq<char>>| nodes_of(after).contains_key(path) == expected.contains_key(
        path,
    ) by {
        if has_path(after, path) {
            let k = position_of(after, path);
            if k < entries.len() {
                assert(entries[k].path_view() == path);
            }
        }
        if has_path(entries, path) {
            let k = position_of(entries, path);
            assert(after[k].path_view() == path);
        }
        if path == entry.path_view() {
            assert(after[entries.len() as int].path_view() == path);
        }
    }
    assert forall|path: Seq<Seq<char>>| nodes_of(after).contains_key(path) implies nodes_of(
        after,
    )[path] == expected[path] by {
        let k = position_of(after, path);
        lemma_node_at_entry(after, k);
        if k < entries.len() {
            assert(after[k] == entries[k]);
            lemma_node_at_entry(entries, k);
        }
    }
    assert(nodes_of(after) =~= expected);
    assert(after.drop_last() =~= entries);
}

/// Replacing an entry by another at the same path replaces its node and
/// nothing else.
#[verifier::rlimit(40)]
pub proof fn lemma_nodes_after_update(entries: Seq<TreeEntry>, i: int, entry: TreeEntry)
    requires
        distinct_paths(entries),
        0 <= i < entries.len(),
        entry.path_view() == entries[i].path_view(),
    ensures
        distinct_paths(entries.update(i, entry)),
        nodes_of(entries.update(i, entry)) == nodes_of(entries).insert(
            entry.path_view(),
            entry.node(),
        ),
        total_size(entries.update(i, entry)) + entries[i].size() == total_size(entries)
            + entry.size(),
{
    let after = entries.update(i, entry);
    assert forall|a: int, b: int| 0 <= a < b < after.len() implies (#[trigger] after[a]).path_view()
        != (#[trigger] after[b]).path_view() by {
        assert(after[a].path_view() == entries[a].path_view());
        assert(after[b].path_view() == entries[b].path_view());
    }
    let expected = nodes_of(entries).insert(entry.path_view(), entry.node());
    assert forall|path: Seq<Seq<char>>| nodes_of(after).contains_key(path) == expected.contains_key(
        path,
    ) by {
        if has_path(after, path) {
            let k = position_of(after, path);
            assert(entries[k].path_view() == path);
        }
        if has_path(entries, path) {
            let k = position_of(entries, path);
            assert(after[k].path_view() == path);
        }
        if path == entry.path_view() {
            assert(after[i].path_view() == path);
            assert(entries[i].path_view() == path);
        }
    }
    assert forall|path: Seq<Seq<char>>| nodes_of(after).contains_key(path) implies nodes_of(
        after,
    )[path] == expected[path] by {
        let k = position_of(after, path);
        lemma_node_at_entry(after, k);
        if k != i {
            assert(after[k] == entries[k]);
            lemma_node_at_entry(entries, k);
            assert(entries[k].path_view() != entries[i].path_view()) by {
                if k < i {
                    assert(entries[k].path_view() != entries[i].path_view());
                } else {
                    assert(entries[i].path_view() != entries[k].path_view());
                }
            }
        }
    }
    assert(nodes_of(after) =~= expected);
    lemma_total_size_update(entries, i, entry);
}

/// How replacing one entry changes the total size.
pub proof fn lemma_total_size_update(entries: Seq<TreeEntry>, i: int, entry: TreeEntry)
    requires
        0 <= i < entries.len(),
    ensures
        total_size(entries.update(i, entry)) + entries[i].size() == total_size(entries)
            + entry.size(),
    decreases entries.len(),
{
    let after = entries.update(i, entry);
    if i == entries.len() - 1 {
        assert(after.drop_last() =~= entries.drop_last());
    } else {
        assert(after.drop_last() =~= entries.drop_last().update(i, entry));
        lemma_total_size_update(entries.drop_last(), i, entry);
    }
}

/// One entry's size is part of the total.
pub proof fn lemma_size_within_total(entries: Seq<TreeEntry>, i: int)
    requires
        0 <= i < entries.len(),
    ensures
        entries[i].size() <= total_size(entries),
    decreases entries.len(),
{
    if i < entries.len() - 1 {
        lemma_size_within_total(entries.drop_last(), i);
    }
}

/// Whether `place` is one of the first `upto` ancestors-or-self of `path`:
/// a non-empty initial part of it, at most `upto` segments long.
pub open spec fn leads_to(path: Seq<Seq<char>>, upto: int, place: Seq<Seq<char>>) -> bool {
    0 < place.len() <= upto && upto <= path.len() && path.take(place.len() as int) == place
}

/// Whether a file stands where one of the first `upto` directories of
/// `path` would have to be.
pub open spec fn blocked_by_file(
    nodes: Map<Seq<Seq<char>>, NodeView>,
    path: Seq<Seq<char>>,
    upto: int,
) -> bool {
    exists|k: int|
        1 <= k <= upto && nodes.contains_key(#[trigger] path.take(k)) && nodes[path.take(k)] is File
}

/// `nodes` with the first `upto` directories of `path` added where they
/// are missing.
pub open spec fn with_directories(
    nodes: Map<Seq<Seq<char>>, NodeView>,
    path: Seq<Seq<char>>,
    upto: int,
) -> Map<Seq<Seq<char>>, NodeView> {
    Map::new(
        |place: Seq<Seq<char>>| nodes.contains_key(place) || leads_to(path, upto, place),
        |place: Seq<Seq<char>>|
            if nodes.contains_key(place) {
                nodes[place]
            } else {
                NodeView::Directory
            },
    )
}

/// The bytes of the file at `path`, or 0 where there is none.
pub open spec fn size_at(nodes: Map<Seq<Seq<char>>, NodeView>, path: Seq<Seq<char>>) -> nat {
    if nodes.contains_key(path) {
        match nodes[path] {
            NodeView::File(bytes) => bytes.len(),
            NodeView::Directory => 0,
        }
    } else {
        0
    }
}

/// Whether the file at `path` cannot be written: the path is the root, a
/// file stands in place of one of its directories, a directory stands at
/// the path itself, or the tree's size would no longer fit in 64 bits.
pub open spec fn write_refused(
    nodes: Map<Seq<Seq<char>>, NodeView>,
    total: nat,
    path: Seq<Seq<char>>,
    len: nat,
) -> bool {
    ||| path.len() == 0
    ||| blocked_by_file(nodes, path, path.len() - 1)
    ||| (nodes.contains_key(path) && nodes[path] is Directory)
    ||| total - size_at(nodes, path) + len > u64::MAX
}

/// `nodes` after the file at `path` was written with `bytes`: the missing
/// directories above it are added, and the file is created or replaced.
pub open spec fn with_file(
    nodes: Map<Seq<Seq<char>>, NodeView>,
    path: Seq<Seq<char>>,
    bytes: Seq<u8>,
) -> Map<Seq<Seq<char>>, NodeView> {
    with_directories(nodes, path, path.len() - 1).insert(path, NodeView::File(bytes))
}

/// Below a missing directory nothing exists.
pub proof fn lemma_nothing_below_missing(
    nodes: Map<Seq<Seq<char>>, NodeView>,
    path: Seq<Seq<char>>,
    k: int,
    j: int,
)
    requires
        parents_are_directories(nodes),
        1 <= k <= j <= path.len(),
        !nodes.contains_key(path.take(k)),
    ensures
        !nodes.contains_key(path.take(j)),
    decreases j - k,
{
    if j > k {
        lemma_nothing_below_missing(nodes, path, k, j - 1);
        if nodes.contains_key(path.take(j)) {
            assert(parent_is_directory(nodes, path.take(j)));
            assert(path.take(j).drop_last() =~= path.take(j - 1));
        }
    }
}

/// Adding directories that are all there already changes nothing.
pub proof fn lemma_directories_present(
    nodes: Map<Seq<Seq<char>>, NodeView>,
    path: Seq<Seq<char>>,
    upto: int,
)
    requires
        0 <= upto <= path.len(),
        forall|j: int| 1 <= j <= upto ==> nodes.contains_key(#[trigger] path.take(j)),
    ensures
        with_directories(nodes, path, upto) == nodes,
{
    assert(with_directories(nodes, path, upto) =~= nodes);
}

/// Adding one directory more is an insertion.
pub proof fn lemma_directories_step(
    nodes: Map<Seq<Seq<char>>, NodeView>,
    path: Seq<Seq<char>>,
    upto: int,
)
    requires
        0 <= upto < path.len(),
        !nodes.contains_key(path.take(upto + 1)),
    ensures
        with_directories(nodes, path, upto + 1) == with_directories(nodes, path, upto).insert(
            path.take(upto + 1),
            NodeView::Directory,
        ),
{
    let target = path.take(upto + 1);
    let lhs = with_directories(nodes, path, upto + 1);
    let rhs = with_directories(nodes, path, upto).insert(target, NodeView::Directory);
    assert forall|place: Seq<Seq<char>>| lhs.contains_key(place) == rhs.contains_key(place) by {
        if leads_to(path, upto + 1, place) && !leads_to(path, upto, place) {
            assert(place.len() == upto + 1);
            assert(place == target);
        }
        if place == target {
            assert(path.take(target.len() as int) =~= target);
        }
    }
    assert(lhs =~= rhs);
}

/// Adding directories above a path keeps every parent a directory, as long
/// as no file blocks them.
pub proof fn lemma_directories_keep_parents(
    nodes: Map<Seq<Seq<char>>, NodeView>,
    path: Seq<Seq<char>>,
    upto: int,
)
    requires
        parents_are_directories(nodes),
        0 <= upto <= path.len(),
        !blocked_by_file(nodes, path, upto),
    ensures
        parents_are_directories(with_directories(nodes, path, upto)),
{
    let after = with_directories(nodes, path, upto);
    assert forall|place: Seq<Seq<char>>| after.contains_key(place) implies #[trigger]
        parent_is_directory(after, place) by {
        let parent = place.drop_last();
        if place.len() <= 1 {
        } else if nodes.contains_key(place) {
            assert(parent_is_directory(nodes, place));
        } else {
            assert(leads_to(path, upto, place));
            assert(path.take(parent.len() as int) =~= parent);
            assert(leads_to(path, upto, parent));
            if nodes.contains_key(parent) {
                assert(path.take(parent.len() as int) == parent);
                if nodes[parent] is File {
                    assert(blocked_by_file(nodes, path, upto));
                }
            }
        }
    }
}

/// Writing a file keeps every parent a directory, as long as a directory
/// stands above the file and none stands at its own path.
pub proof fn lemma_file_keeps_parents(
    nodes: Map<Seq<Seq<char>>, NodeView>,
    path: Seq<Seq<char>>,
    bytes: Seq<u8>,
)
    requires
        parents_are_directories(nodes),
        path.len() > 0,
        parent_is_directory(nodes, path),
        !(nodes.contains_key(path) && nodes[path] is Directory),
    ensures
        parents_are_directories(nodes.insert(path, NodeView::File(bytes))),
{
    let after = nodes.insert(path, NodeView::File(bytes));
    assert forall|place: Seq<Seq<char>>| after.contains_key(place) implies #[trigger]
        parent_is_directory(after, place) by {
        if place.len() > 1 {
            let parent = place.drop_last();
            if place == path {
                assert(parent.len() != path.len());
            } else {
                assert(parent_is_directory(nodes, place));
            }
        }
    }
}

/// Whether the directory `name` is all that the top level holds.
pub open spec fn is_only_top_directory(
    nodes: Map<Seq<Seq<char>>, NodeView>,
    name: Seq<char>,
) -> bool {
    &&& nodes.contains_key(seq![name])
    &&& nodes[seq![name]] is Directory
    &&& forall|path: Seq<Seq<char>>| #[trigger]
        nodes.contains_key(path) && path.len() == 1 ==> path == seq![name]
}

/// Whether the top level holds exactly one entry, and that a directory.
pub open spec fn has_single_root(nodes: Map<Seq<Seq<char>>, NodeView>) -> bool {
    exists|name: Seq<char>| is_only_top_directory(nodes, name)
}

/// What lies below the top-level directory `name`, moved up one level.
pub open spec fn lifted(nodes: Map<Seq<Seq<char>>, NodeView>, name: Seq<char>) -> Map<
    Seq<Seq<char>>,
    NodeView,
> {
    Map::new(
        |place: Seq<Seq<char>>| place.len() > 0 && nodes.contains_key(seq![name] + place),
        |place: Seq<Seq<char>>| nodes[seq![name] + place],
    )
}

/// The tree with a single wrapping directory removed, if it has one.
pub open spec fn flattened(nodes: Map<Seq<Seq<char>>, NodeView>) -> Map<
    Seq<Seq<char>>,
    NodeView,
> {
    if has_single_root(nodes) {
        lifted(nodes, choose|name: Seq<char>| is_only_top_directory(nodes, name))
    } else {
        nodes
    }
}

/// A tree has at most one wrapping directory.
pub proof fn lemma_single_root_is_unique(
    nodes: Map<Seq<Seq<char>>, NodeView>,
    a: Seq<char>,
    b: Seq<char>,
)
    requires
        is_only_top_directory(nodes, a),
        is_only_top_directory(nodes, b),
    ensures
        a == b,
{
    assert(nodes.contains_key(seq![a]) && seq![a].len() == 1);
    assert(seq![a] == seq![b]);
    assert(seq![a][0] == seq![b][0]);
}

/// Every node has all of its ancestors in the tree.
pub proof fn lemma_ancestors_present(
    nodes: Map<Seq<Seq<char>>, NodeView>,
    path: Seq<Seq<char>>,
    j: int,
)
    requires
        parents_are_directories(nodes),
        nodes.contains_key(path),
        1 <= j <= path.len(),
    ensures
        nodes.contains_key(path.take(j)),
        j < path.len() ==> nodes[path.take(j)] is Directory,
    decreases path.len() - j,
{
    if j == path.len() {
        assert(path.take(j) =~= path);
    } else {
        lemma_ancestors_present(nodes, path, j + 1);
        assert(parent_is_directory(nodes, path.take(j + 1)));
        assert(path.take(j + 1).drop_last() =~= path.take(j));
    }
}

/// Lifting keeps every parent a directory.
pub proof fn lemma_lifted_keeps_parents(nodes: Map<Seq<Seq<char>>, NodeView>, name: Seq<char>)
    requires
        parents_are_directories(nodes),
    ensures
        parents_are_directories(lifted(nodes, name)),
{
    let after = lifted(nodes, name);
    assert forall|place: Seq<Seq<char>>| after.contains_key(place) implies #[trigger]
        parent_is_directory(after, place) by {
        if place.len() > 1 {
            let below = seq![name] + place;
            assert(parent_is_directory(nodes, below));
            assert(below.drop_last() =~= seq![name] + place.drop_last());
        }
    }
}

/// A staged site: directories and files by path, with everything that a
/// directory tree guarantees.
#[derive(Debug)]
pub struct StagingTree {
    entries: Vec<TreeEntry>,
    bytes: u64,
}

impl View for StagingTree {
    type V = Map<Seq<Seq<char>>, NodeView>;

    closed spec fn view(&self) -> Map<Seq<Seq<char>>, NodeView> {
        nodes_of(self.entries@)
    }
}

/// Whether the first `upto` strings of `wanted` are the segments of `path`.
fn same_path(path: &Vec<String>, wanted: &Vec<String>, upto: usize) -> (r: bool)
    requires
        upto <= wanted.len(),
    ensures
        r == (strings_view(path@) == strings_view(wanted@).take(upto as int)),
{
    if path.len() != upto {
        assert(strings_view(path@).len() != strings_view(wanted@).take(upto as int).len());
        return false;
    }
    let ghost a = strings_view(path@);
    let ghost b = strings_view(wanted@).take(upto as int);
    let mut i: usize = 0;
    while i < upto
        invariant
            i <= upto,
            upto == path.len(),
            upto <= wanted.len(),
            a == strings_view(path@),
            b == strings_view(wanted@).take(upto as int),
            forall|j: int| 0 <= j < i ==> a[j] == b[j],
        decreases upto - i,
    {
        if !path[i].eq(&wanted[i]) {
            assert(a[i as int] != b[i as int]);
            return false;
        }
        i += 1;
    }
    assert(a =~= b);
    true
}

/// A copy of the first `upto` strings of `segments`.
fn copy_prefix(segments: &Vec<String>, upto: usize) -> (r: Vec<String>)
    requires
        upto <= segments.len(),
    ensures
        strings_view(r@) == strings_view(segments@).take(upto as int),
{
    let mut out: Vec<String> = Vec::new();
    let mut i: usize = 0;
    while i < upto
        invariant
            i <= upto <= segments.len(),
            out.len() == i,
            forall|j: int| 0 <= j < i ==> out@[j]@ == segments@[j]@,
        decreases upto - i,
    {
        out.push(segments[i].clone());
        i += 1;
    }
    assert(strings_view(out@) =~= strings_view(segments@).take(upto as int));
    out
}

/// The place of the entry at the first `upto` segments of `wanted`.
fn find(entries: &Vec<TreeEntry>, wanted: &Vec<String>, upto: usize) -> (r: Option<usize>)
    requires
        upto <= wanted.len(),
    ensures
        match r {
            Some(i) => i < entries.len() && entries@[i as int].path_view() == strings_view(
                wanted@,
            ).take(upto as int),
            None => !has_path(entries@, strings_view(wanted@).take(upto as int)),
        },
{
    let mut i: usize = 0;
    while i < entries.len()
        invariant
            i <= entries.len(),
            upto <= wanted.len(),
            forall|j: int|
                0 <= j < i ==> (#[trigger] entries@[j]).path_view() != strings_view(wanted@).take(
                    upto as int,
                ),
        decreases entries.len() - i,
    {
        if same_path(&entries[i].path, wanted, upto) {
            return Some(i);
        }
        i += 1;
    }
    None
}

impl StagingTree {
    /// What every staging tree guarantees: one node per path, plain names
    /// only, a directory above every node, and a size that fits in 64 bits.
    pub closed spec fn wf(&self) -> bool {
        &&& distinct_paths(self.entries@)
        &&& plain_paths(self.entries@)
        &&& parents_are_directories(nodes_of(self.entries@))
        &&& self.bytes == total_size(self.entries@)
    }

    /// The bytes that the files of the tree take up together.
    pub closed spec fn total_bytes(&self) -> nat {
        total_size(self.entries@)
    }

    /// The nodes as a list, in the order in which the tree holds them.
    pub closed spec fn entries_view(&self) -> Seq<TreeEntry> {
        self.entries@
    }

    /// In a well-formed tree no node lies at the root, every name is plain
    /// and every node below the top level has a directory above it.
    pub proof fn lemma_wf(&self)
        requires
            self.wf(),
        ensures
            parents_are_directories(self@),
            forall|path: Seq<Seq<char>>| #[trigger]
                self@.contains_key(path) ==> path.len() > 0 && is_safe_path(path),
            self.total_bytes() <= u64::MAX,
            self@ == nodes_of(self.entries_view()),
            distinct_paths(self.entries_view()),
            plain_paths(self.entries_view()),
            self.total_bytes() == total_size(self.entries_view()),
    {
        assert forall|path: Seq<Seq<char>>| #[trigger] self@.contains_key(path) implies path.len()
            > 0 && is_safe_path(path) by {
            let i = position_of(self.entries@, path);
            assert(self.entries@[i].path_view() == path);
        }
    }

    /// The empty tree.
    pub fn new() -> (r: StagingTree)
        ensures
            r.wf(),
            r@ == Map::<Seq<Seq<char>>, NodeView>::empty(),
            r.total_bytes() == 0,
    {
        let r = StagingTree { entries: Vec::new(), bytes: 0 };
        assert(r@ =~= Map::<Seq<Seq<char>>, NodeView>::empty());
        r
    }

    /// The nodes of the tree, one entry for each path.
    pub fn entries(&self) -> (r: &Vec<TreeEntry>)
        ensures
            r@ == self.entries_view(),
    {
        &self.entries
    }

    /// The nodes of the tree, handed over.
    pub fn into_entries(self) -> (r: Vec<TreeEntry>)
        ensures
            r@ == self.entries_view(),
    {
        self.entries
    }

    /// The bytes that the files of the tree take up together.
    pub fn disk_usage(&self) -> (r: u64)
        requires
            self.wf(),
        ensures
            r == self.total_bytes(),
    {
        self.bytes
    }

    /// How many of the first `upto` directories of `segments` exist, counted
    /// from the top. Fails when a file stands in place of one of them.
    #[verifier::rlimit(40)]
    fn count_present(&self, segments: &Vec<String>, upto: usize) -> (r: Result<usize, SiteError>)
        requires
            self.wf(),
            upto <= segments.len(),
        ensures
            match r {
                Ok(n) => {
                    &&& n <= upto
                    &&& forall|j: int|
                        1 <= j <= n ==> self@.contains_key(
                            #[trigger] strings_view(segments@).take(j),
                        ) && self@[strings_view(segments@).take(j)] is Directory
                    &&& n < upto ==> !self@.contains_key(strings_view(segments@).take(n + 1))
                    &&& !blocked_by_file(self@, strings_view(segments@), upto as int)
                },
                Err(e) => e == SiteError::IOFailure && blocked_by_file(
                    self@,
                    strings_view(segments@),
                    upto as int,
                ),
            },
    {
        let ghost path = strings_view(segments@);
        let mut n: usize = 0;
        while n < upto
            invariant
                n <= upto <= segments.len(),
                self.wf(),
                path == strings_view(segments@),
                forall|j: int|
                    1 <= j <= n ==> self@.contains_key(#[trigger] path.take(j)) && self@[path.take(
                        j,
                    )] is Directory,
            decreases upto - n,
        {
            match find(&self.entries, segments, n + 1) {
                Some(i) => {
                    proof {
                        lemma_node_at_entry(self.entries@, i as int);
                    }
                    if self.entries[i].content.is_some() {
                        assert(self@[path.take(n + 1)] is File);
                        return Err(SiteError::IOFailure);
                    }
                },
                None => {
                    proof {
                        assert(!self@.contains_key(path.take(n + 1)));
                        assert forall|j: int| 1 <= j <= upto implies !(self@.contains_key(
                            #[trigger] path.take(j),
                        ) && self@[path.take(j)] is File) by {
                            if j > n {
                                lemma_nothing_below_missing(self@, path, n + 1, j);
                            }
                        }
                    }
                    return Ok(n);
                },
            }
            n += 1;
        }
        Ok(n)
    }

    /// Adds the directories of `segments` from number `present + 1` to
    /// number `upto`, none of which exists yet.
    #[verifier::rlimit(40)]
    fn add_directories(&mut self, segments: &Vec<String>, present: usize, upto: usize)
        requires
            old(self).wf(),
            present <= upto <= segments.len(),
            is_safe_path(strings_view(segments@)),
            !blocked_by_file(old(self)@, strings_view(segments@), upto as int),
            forall|j: int|
                1 <= j <= present ==> old(self)@.contains_key(
                    #[trigger] strings_view(segments@).take(j),
                ),
            present < upto ==> !old(self)@.contains_key(
                strings_view(segments@).take(present + 1),
            ),
        ensures
            final(self).wf(),
            final(self)@ == with_directories(old(self)@, strings_view(segments@), upto as int),
            final(self).total_bytes() == old(self).total_bytes(),
    {
        let ghost path = strings_view(segments@);
        let ghost before = self@;
        proof {
            lemma_directories_present(before, path, present as int);
        }
        let mut n: usize = present;
        while n < upto
            invariant
                present <= n <= upto <= segments.len(),
                path == strings_view(segments@),
                is_safe_path(path),
                before == old(self)@,
                parents_are_directories(before),
                present < upto ==> !before.contains_key(path.take(present + 1)),
                distinct_paths(self.entries@),
                plain_paths(self.entries@),
                self.bytes == total_size(self.entries@),
                self.bytes == old(self).bytes,
                total_size(self.entries@) == total_size(old(self).entries@),
                self@ == with_directories(before, path, n as int),
            decreases upto - n,
        {
            let entry = TreeEntry { path: copy_prefix(segments, n + 1), content: None };
            proof {
                let target = path.take(n + 1);
                assert(entry.path_view() == target);
                lemma_nothing_below_missing(before, path, present + 1, n + 1);
                assert(!before.contains_key(target));
                assert(!leads_to(path, n as int, target));
                assert(!self@.contains_key(target));
                assert(!has_path(self.entries@, target));
                lemma_nodes_after_push(self.entries@, entry);
                lemma_directories_step(before, path, n as int);
                assert(is_safe_path(target)) by {
                    assert forall|i: int| 0 <= i < target.len() implies is_plain_segment(
                        #[trigger] target[i],
                    ) by {
                        assert(target[i] == path[i]);
                        assert(is_plain_segment(path[i]));
                    }
                }
                let after = self.entries@.push(entry);
                assert forall|i: int| 0 <= i < after.len() implies (#[trigger] after[i]).path_view().len()
                    > 0 && is_safe_path(after[i].path_view()) by {
                    if i < self.entries@.len() {
                        assert(after[i] == self.entries@[i]);
                    }
                }
            }
            self.entries.push(entry);
            n += 1;
        }
        proof {
            lemma_directories_keep_parents(before, path, upto as int);
        }
    }

    /// Creates the directory at `path` and every directory above it that is
    /// missing. Fails, and changes nothing, when a file stands in the way.
    pub fn create_dir_all(&mut self, path: &SanitizedPath) -> (r: Result<(), SiteError>)
        requires
            old(self).wf(),
        ensures
            final(self).wf(),
            final(self).total_bytes() == old(self).total_bytes(),
            match r {
                Ok(_) => !blocked_by_file(old(self)@, path@, path@.len() as int) && final(self)@
                    == with_directories(old(self)@, path@, path@.len() as int),
                Err(e) => e == SiteError::IOFailure && blocked_by_file(
                    old(self)@,
                    path@,
                    path@.len() as int,
                ) && final(self)@ == old(self)@,
            },
    {
        let segments = path.segments();
        match self.count_present(segments, segments.len()) {
            Ok(present) => {
                self.add_directories(segments, present, segments.len());
                Ok(())
            },
            Err(e) => Err(e),
        }
    }

    /// Writes the file at `path`, creating the directories above it that
    /// are missing and replacing a file that is there already. Fails, and
    /// changes nothing, when the write is refused.
    #[verifier::rlimit(40)]
    pub fn write_file(&mut self, path: &SanitizedPath, content: Vec<u8>) -> (r: Result<
        (),
        SiteError,
    >)
        requires
            old(self).wf(),
        ensures
            final(self).wf(),
            match r {
                Ok(_) => {
                    &&& !write_refused(
                        old(self)@,
                        old(self).total_bytes(),
                        path@,
                        content@.len(),
                    )
                    &&& final(self)@ == with_file(old(self)@, path@, content@)
                    &&& final(self).total_bytes() == old(self).total_bytes() - size_at(
                        old(self)@,
                        path@,
                    ) + content@.len()
                },
                Err(e) => {
                    &&& e == SiteError::IOFailure
                    &&& write_refused(old(self)@, old(self).total_bytes(), path@, content@.len())
                    &&& final(self)@ == old(self)@
                    &&& final(self).total_bytes() == old(self).total_bytes()
                },
            },
    {
        let segments = path.segments();
        let depth = segments.len();
        if depth == 0 {
            return Err(SiteError::IOFailure);
        }
        let ghost target = strings_view(segments@);
        let ghost before = self@;
        let present = match self.count_present(segments, depth - 1) {
            Ok(n) => n,
            Err(e) => {
                return Err(e);
            },
        };
        let len = content.len() as u64;
        proof {
            assert(target.take(depth as int) =~= target);
        }
        match find(&self.entries, segments, depth) {
            Some(i) => {
                proof {
                    lemma_node_at_entry(self.entries@, i as int);
                    lemma_size_within_total(self.entries@, i as int);
                }
                let old_len = match &self.entries[i].content {
                    None => {
                        return Err(SiteError::IOFailure);
                    },
                    Some(bytes) => bytes.len() as u64,
                };
                let base = self.bytes - old_len;
                if len > u64::MAX - base {
                    return Err(SiteError::IOFailure);
                }
                let entry = TreeEntry { path: copy_prefix(segments, depth), content: Some(content) };
                proof {
                    if present < depth - 1 {
                        lemma_nothing_below_missing(before, target, present + 1, depth as int);
                    }
                    lemma_directories_present(before, target, depth - 1);
                    lemma_nodes_after_update(self.entries@, i as int, entry);
                    assert(parent_is_directory(before, target));
                    lemma_file_keeps_parents(before, target, content@);
                    let after = self.entries@.update(i as int, entry);
                    assert forall|k: int| 0 <= k < after.len() implies (
                    #[trigger] after[k]).path_view().len() > 0 && is_safe_path(
                        after[k].path_view(),
                    ) by {
                        if k != i {
                            assert(after[k] == self.entries@[k]);
                        } else {
                            assert(self.entries@[k].path_view() == after[k].path_view());
                        }
                    }
                }
                self.entries.set(i, entry);
                self.bytes = base + len;
                Ok(())
            },
            None => {
                if len > u64::MAX - self.bytes {
                    return Err(SiteError::IOFailure);
                }
                self.add_directories(segments, present, depth - 1);
                let entry = TreeEntry { path: copy_prefix(segments, depth), content: Some(content) };
                proof {
                    let staged = self@;
                    assert(!before.contains_key(target));
                    assert(!leads_to(target, depth - 1, target));
                    assert(!staged.contains_key(target));
                    assert(!has_path(self.entries@, target));
                    lemma_nodes_after_push(self.entries@, entry);
                    assert(parent_is_directory(staged, target)) by {
                        if depth > 1 {
                            let parent = target.drop_last();
                            assert(target.take(parent.len() as int) =~= parent);
                            assert(leads_to(target, depth - 1, parent));
                            if before.contains_key(parent) && before[parent] is File {
                                assert(target.take(depth - 1) =~= parent);
                                assert(blocked_by_file(before, target, depth - 1));
                            }
                        }
                    }
                    lemma_file_keeps_parents(staged, target, content@);
                    let after = self.entries@.push(entry);
                    assert forall|k: int| 0 <= k < after.len() implies (
                    #[trigger] after[k]).path_view().len() > 0 && is_safe_path(
                        after[k].path_view(),
                    ) by {
                        if k < self.entries@.len() {
                            assert(after[k] == self.entries@[k]);
                        }
                    }
                }
                self.entries.push(entry);
                self.bytes = self.bytes + len;
                Ok(())
            },
        }
    }

    /// The place of the only top-level entry, if the top level holds
    /// exactly one.
    #[verifier::rlimit(40)]
    fn only_top_entry(&self) -> (r: Option<usize>)
        requires
            self.wf(),
        ensures
            match r {
                Some(f) => {
                    &&& f < self.entries@.len()
                    &&& self.entries@[f as int].path_view().len() == 1
                    &&& forall|i: int|
                        0 <= i < self.entries@.len() && (
                        #[trigger] self.entries@[i]).path_view().len() == 1 ==> i == f
                },
                None => !has_single_root(self@),
            },
    {
        let mut first: Option<usize> = None;
        let mut i: usize = 0;
        while i < self.entries.len()
            invariant
                i <= self.entries.len(),
                self.wf(),
                match first {
                    Some(f) => {
                        &&& f < i
                        &&& self.entries@[f as int].path_view().len() == 1
                        &&& forall|k: int|
                            0 <= k < i && (#[trigger] self.entries@[k]).path_view().len() == 1
                                ==> k == f
                    },
                    None => forall|k: int|
                        0 <= k < i ==> (#[trigger] self.entries@[k]).path_view().len() != 1,
                },
            decreases self.entries.len() - i,
        {
            if self.entries[i].path.len() == 1 {
                match first {
                    Some(f) => {
                        proof {
                            let a = self.entries@[f as int].path_view();
                            let b = self.entries@[i as int].path_view();
                            lemma_node_at_entry(self.entries@, f as int);
                            lemma_node_at_entry(self.entries@, i as int);
                            if has_single_root(self@) {
                                let name = choose|name: Seq<char>|
                                    is_only_top_directory(self@, name);
                                assert(self@.contains_key(a) && a.len() == 1);
                                assert(self@.contains_key(b) && b.len() == 1);
                                assert(a == b);
                            }
                        }
                        return None;
                    },
                    None => {
                        first = Some(i);
                    },
                }
            }
            i += 1;
        }
        proof {
            if first is None && has_single_root(self@) {
                let name = choose|name: Seq<char>| is_only_top_directory(self@, name);
                let k = position_of(self.entries@, seq![name]);
                assert(self.entries@[k].path_view() == seq![name]);
            }
        }
        first
    }

    /// Removes a single wrapping directory: when the top level holds
    /// exactly one entry and that is a directory, everything below it moves
    /// up one level and the directory itself goes. Otherwise nothing
    /// changes. Tells whether the tree was flattened.
    #[verifier::rlimit(40)]
    pub fn flatten_single_root(&mut self) -> (r: bool)
        requires
            old(self).wf(),
        ensures
            final(self).wf(),
            r == has_single_root(old(self)@),
            final(self)@ == flattened(old(self)@),
            final(self).total_bytes() == old(self).total_bytes(),
    {
        let top = match self.only_top_entry() {
            Some(f) => f,
            None => {
                return false;
            },
        };
        let ghost before = self.entries@;
        let ghost name = before[top as int].path_view()[0];
        if self.entries[top].content.is_some() {
            proof {
                lemma_top_file_is_no_root(before, top as int);
            }
            return false;
        }
        proof {
            lemma_top_directory_is_root(before, top as int);
        }
        let mut rest: Vec<TreeEntry> = Vec::new();
        core::mem::swap(&mut self.entries, &mut rest);
        let mut moved: Vec<TreeEntry> = Vec::new();
        while rest.len() > 0
            invariant
                rest@ == before.take(rest@.len() as int),
                rest@.len() <= before.len(),
                0 <= top < before.len(),
                lifting(before, top as int, name),
                lifted_so_far(before, moved@, name, rest@.len() as int),
            decreases rest@.len(),
        {
            let ghost m = rest@.len() - 1;
            let entry = rest.pop().unwrap();
            proof {
                assert(rest@ =~= before.take(m));
                assert(entry == before[m]);
            }
            let TreeEntry { path, content } = entry;
            let mut path = path;
            if path.len() > 1 {
                let ghost full = strings_view(path@);
                let _ = path.remove(0);
                let lifted_entry = TreeEntry { path, content };
                proof {
                    assert(lifted_entry.path_view() =~= full.skip(1));
                    lemma_lift_one(before, moved@, name, top as int, m, lifted_entry);
                }
                moved.push(lifted_entry);
            } else {
                proof {
                    lemma_skip_wrapper(before, moved@, name, top as int, m);
                }
            }
        }
        proof {
            assert(rest@ =~= Seq::<TreeEntry>::empty());
            lemma_all_lifted(before, moved@, name, top as int);
        }
        self.entries = moved;
        true
    }
}

/// What holds of a tree whose only top-level entry is the directory `name`,
/// at place `top`.
#[verifier::opaque]
pub open spec fn lifting(before: Seq<TreeEntry>, top: int, name: Seq<char>) -> bool {
    &&& distinct_paths(before)
    &&& plain_paths(before)
    &&& parents_are_directories(nodes_of(before))
    &&& 0 <= top < before.len()
    &&& before[top].path_view() == seq![name]
    &&& before[top].content is None
    &&& forall|i: int|
        0 <= i < before.len() && (#[trigger] before[i]).path_view().len() == 1 ==> i == top
}

/// What holds while the entries from place `from` on have been moved up.
#[verifier::opaque]
pub open spec fn lifted_so_far(
    before: Seq<TreeEntry>,
    moved: Seq<TreeEntry>,
    name: Seq<char>,
    from: int,
) -> bool {
    &&& distinct_paths(moved)
    &&& plain_paths(moved)
    &&& 0 <= from <= before.len()
    &&& total_size(moved) + total_size(before.take(from)) == total_size(before)
    &&& forall|j: int|
        0 <= j < moved.len() ==> stems_from(before, from, name, (#[trigger] moved[j]).path_view())
            && moved[j].node() == nodes_of(before)[seq![name] + moved[j].path_view()]
    &&& forall|i: int|
        from <= i < before.len() && (#[trigger] before[i]).path_view().len() > 1 ==> has_path(
            moved,
            before[i].path_view().skip(1),
        )
}

/// A file as the only top-level entry is no wrapping directory.
proof fn lemma_top_file_is_no_root(before: Seq<TreeEntry>, top: int)
    requires
        distinct_paths(before),
        0 <= top < before.len(),
        before[top].path_view().len() == 1,
        before[top].content is Some,
        forall|i: int|
            0 <= i < before.len() && (#[trigger] before[i]).path_view().len() == 1 ==> i == top,
    ensures
        !has_single_root(nodes_of(before)),
{
    let nodes = nodes_of(before);
    lemma_node_at_entry(before, top);
    if has_single_root(nodes) {
        let other = choose|other: Seq<char>| is_only_top_directory(nodes, other);
        let k = position_of(before, seq![other]);
        assert(before[k].path_view() == seq![other]);
        assert(k == top);
    }
}

/// A directory as the only top-level entry is the wrapping directory.
proof fn lemma_top_directory_is_root(before: Seq<TreeEntry>, top: int)
    requires
        distinct_paths(before),
        plain_paths(before),
        parents_are_directories(nodes_of(before)),
        0 <= top < before.len(),
        before[top].path_view().len() == 1,
        before[top].content is None,
        forall|i: int|
            0 <= i < before.len() && (#[trigger] before[i]).path_view().len() == 1 ==> i == top,
    ensures
        lifting(before, top, before[top].path_view()[0]),
        is_only_top_directory(nodes_of(before), before[top].path_view()[0]),
        has_single_root(nodes_of(before)),
        flattened(nodes_of(before)) == lifted(nodes_of(before), before[top].path_view()[0]),
        lifted_so_far(before, Seq::<TreeEntry>::empty(), before[top].path_view()[0], before.len() as int),
{
    reveal(lifting);
    reveal(lifted_so_far);
    let nodes = nodes_of(before);
    let name = before[top].path_view()[0];
    lemma_node_at_entry(before, top);
    assert(before[top].path_view() =~= seq![name]);
    assert forall|path: Seq<Seq<char>>| #[trigger]
        nodes.contains_key(path) && path.len() == 1 implies path == seq![name] by {
        let k = position_of(before, path);
        assert(before[k].path_view() == path);
    }
    assert(is_only_top_directory(nodes, name));
    let chosen = choose|other: Seq<char>| is_only_top_directory(nodes, other);
    lemma_single_root_is_unique(nodes, name, chosen);
    assert(before.take(before.len() as int) =~= before);
}

/// Moving entry `m` up one level keeps what holds of the moved entries.
#[verifier::rlimit(40)]
proof fn lemma_lift_one(
    before: Seq<TreeEntry>,
    moved: Seq<TreeEntry>,
    name: Seq<char>,
    top: int,
    m: int,
    entry: TreeEntry,
)
    requires
        lifting(before, top, name),
        lifted_so_far(before, moved, name, m + 1),
        0 <= m < before.len(),
        before[m].path_view().len() > 1,
        entry.path_view() == before[m].path_view().skip(1),
        entry.content == before[m].content,
    ensures
        lifted_so_far(before, moved.push(entry), name, m),
{
    reveal(lifting);
    reveal(lifted_so_far);
    let nodes = nodes_of(before);
    let full = before[m].path_view();
    let short = entry.path_view();
    lemma_node_at_entry(before, m);
    lemma_ancestors_present(nodes, full, 1);
    assert(full.take(1).len() == 1);
    let k = position_of(before, full.take(1));
    assert(before[k].path_view() == full.take(1));
    assert(k == top);
    assert(full[0] == full.take(1)[0]);
    assert(seq![name] + short =~= full);
    assert(is_safe_path(short)) by {
        assert forall|k: int| 0 <= k < short.len() implies is_plain_segment(#[trigger] short[k]) by {
            assert(short[k] == full[k + 1]);
            assert(is_plain_segment(full[k + 1]));
        }
    }
    assert(!has_path(moved, short)) by {
        if has_path(moved, short) {
            let j = position_of(moved, short);
            assert(moved[j].path_view() == short);
            lemma_stems_from_another(before, m, name, short);
        }
    }
    lemma_nodes_after_push(moved, entry);
    let after = moved.push(entry);
    assert forall|k: int| 0 <= k < after.len() implies (#[trigger] after[k]).path_view().len() > 0
        && is_safe_path(after[k].path_view()) by {
        if k < moved.len() {
            assert(after[k] == moved[k]);
        }
    }
    assert forall|j: int| 0 <= j < after.len() implies stems_from(
        before,
        m,
        name,
        (#[trigger] after[j]).path_view(),
    ) && after[j].node() == nodes[seq![name] + after[j].path_view()] by {
        if j < moved.len() {
            assert(after[j] == moved[j]);
            let i = choose|i: int|
                m + 1 <= i < before.len() && (#[trigger] before[i]).path_view() == seq![name]
                    + moved[j].path_view();
            assert(before[i].path_view() == seq![name] + after[j].path_view());
        } else {
            assert(before[m].path_view() == seq![name] + after[j].path_view());
        }
    }
    assert forall|i: int|
        m <= i < before.len() && (#[trigger] before[i]).path_view().len() > 1 implies has_path(
        after,
        before[i].path_view().skip(1),
    ) by {
        if i == m {
            assert(after[moved.len() as int].path_view() == short);
        } else {
            let j = position_of(moved, before[i].path_view().skip(1));
            assert(after[j] == moved[j]);
        }
    }
    assert(before.take(m + 1).drop_last() =~= before.take(m));
    assert(before.take(m + 1).last() == before[m]);
    assert(entry.size() == before[m].size());
}

/// Leaving the wrapping directory out keeps what holds of the moved
/// entries.
proof fn lemma_skip_wrapper(
    before: Seq<TreeEntry>,
    moved: Seq<TreeEntry>,
    name: Seq<char>,
    top: int,
    m: int,
)
    requires
        lifting(before, top, name),
        lifted_so_far(before, moved, name, m + 1),
        0 <= m < before.len(),
        before[m].path_view().len() <= 1,
    ensures
        lifted_so_far(before, moved, name, m),
{
    reveal(lifting);
    reveal(lifted_so_far);
    assert(before[m].path_view().len() > 0);
    assert(m == top);
    assert(before[m].size() == 0);
    assert(before.take(m + 1).drop_last() =~= before.take(m));
    assert(before.take(m + 1).last() == before[m]);
    assert forall|j: int| 0 <= j < moved.len() implies stems_from(
        before,
        m,
        name,
        (#[trigger] moved[j]).path_view(),
    ) by {
        let i = choose|i: int|
            m + 1 <= i < before.len() && (#[trigger] before[i]).path_view() == seq![name]
                + moved[j].path_view();
        assert(before[i].path_view() == seq![name] + moved[j].path_view());
    }
}

/// Once every entry was looked at, the moved entries are the flattened
/// tree.
#[verifier::rlimit(40)]
proof fn lemma_all_lifted(before: Seq<TreeEntry>, moved: Seq<TreeEntry>, name: Seq<char>, top: int)
    requires
        lifting(before, top, name),
        lifted_so_far(before, moved, name, 0),
    ensures
        nodes_of(moved) == lifted(nodes_of(before), name),
        parents_are_directories(nodes_of(moved)),
        total_size(moved) == total_size(before),
        distinct_paths(moved),
        plain_paths(moved),
{
    reveal(lifting);
    reveal(lifted_so_far);
    let nodes = nodes_of(before);
    let target = lifted(nodes, name);
    assert forall|place: Seq<Seq<char>>| nodes_of(moved).contains_key(place) == target.contains_key(
        place,
    ) by {
        if has_path(moved, place) {
            let j = position_of(moved, place);
            assert(moved[j].path_view() == place);
            assert(stems_from(before, 0, name, place));
            let i = choose|i: int|
                0 <= i < before.len() && (#[trigger] before[i]).path_view() == seq![name] + place;
            assert(has_path(before, seq![name] + place));
        }
        if place.len() > 0 && nodes.contains_key(seq![name] + place) {
            let below = seq![name] + place;
            let i = position_of(before, below);
            assert(before[i].path_view() == below);
            assert(below.skip(1) =~= place);
        }
    }
    assert forall|place: Seq<Seq<char>>| nodes_of(moved).contains_key(place) implies nodes_of(
        moved,
    )[place] == target[place] by {
        let j = position_of(moved, place);
        assert(moved[j].path_view() == place);
        lemma_node_at_entry(moved, j);
    }
    assert(nodes_of(moved) =~= target);
    lemma_lifted_keeps_parents(nodes, name);
    assert(before.take(0) =~= Seq::<TreeEntry>::empty());
}

/// Whether some entry of `before`, at place `from` or later, lies at
/// `path` below the directory `name`.
pub open spec fn stems_from(
    before: Seq<TreeEntry>,
    from: int,
    name: Seq<char>,
    path: Seq<Seq<char>>,
) -> bool {
    exists|i: int|
        from <= i < before.len() && (#[trigger] before[i]).path_view() == seq![name] + path
}

/// What stems from a later entry does not lie at the path of an earlier
/// one.
proof fn lemma_stems_from_another(
    before: Seq<TreeEntry>,
    m: int,
    name: Seq<char>,
    path: Seq<Seq<char>>,
)
    requires
        distinct_paths(before),
        0 <= m < before.len(),
        stems_from(before, m + 1, name, path),
    ensures
        before[m].path_view() != seq![name] + path,
{
    let i = choose|i: int|
        m + 1 <= i < before.len() && (#[trigger] before[i]).path_view() == seq![name] + path;
    assert(before[m].path_view() != before[i].path_view());
}

} // verus!
