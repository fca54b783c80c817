//! Listing the files of a tree: sorted by path, with their total size.

use vstd::prelude::*;
use vstd::seq_lib::{to_multiset_build, to_multiset_insert};
use crate::error::SiteError;
use crate::path::{render_path, render_segments};
use crate::path_laws::lemma_render_is_injective;
use crate::text::{chars_of, concat};
use crate::tree::{
    distinct_paths, lemma_node_at_entry, nodes_of, plain_paths, position_of, total_size, NodeView,
    StagingTree, TreeEntry,
};

verus! {

/// One file of a site: its path relative to the site's root, and its size.
#[derive(Debug)]
pub struct FileEntry {
    pub path: String,
    pub size: u64,
}

/// What a user is told about their site.
#[derive(Debug)]
pub struct SiteInfo {
    pub username: String,
    pub disk_usage_bytes: u64,
    pub quota_bytes: u64,
    pub files: Vec<FileEntry>,
    pub site_url: String,
}

/// Lexicographic order on texts, character by character: `a` comes before
/// `b` or equals it.
pub open spec fn text_le(a: Seq<char>, b: Seq<char>) -> bool
    decreases a.len(),
{
    if a.len() == 0 {
        true
    } else if b.len() == 0 {
        false
    } else if a[0] != b[0] {
        (a[0] as int) < (b[0] as int)
    } else {
        text_le(a.drop_first(), b.drop_first())
    }
}

/// Whether `files` is in ascending order of path.
pub open spec fn sorted_by_path(files: Seq<FileEntry>) -> bool {
    forall|i: int, j: int|
        0 <= i < j < files.len() ==> text_le((#[trigger] files[i]).path@, (#[trigger] files[j]).path@)
}

/// The sizes of `files` added up.
pub open spec fn sum_of_sizes(files: Seq<FileEntry>) -> nat
    decreases files.len(),
{
    if files.len() == 0 {
        0
    } else {
        sum_of_sizes(files.drop_last()) + files.last().size as nat
    }
}

/// Of two texts, one comes before the other or equals it.
pub proof fn lemma_text_le_total(a: Seq<char>, b: Seq<char>)
    ensures
        text_le(a, b) || text_le(b, a),
    decreases a.len(),
{
    if a.len() > 0 && b.len() > 0 && a[0] == b[0] {
        lemma_text_le_total(a.drop_first(), b.drop_first());
    }
}

/// The order is transitive.
pub proof fn lemma_text_le_transitive(a: Seq<char>, b: Seq<char>, c: Seq<char>)
    requires
        text_le(a, b),
        text_le(b, c),
    ensures
        text_le(a, c),
    decreases a.len(),
{
    if a.len() > 0 && b.len() > 0 && c.len() > 0 {
        if a[0] == b[0] && b[0] == c[0] {
            lemma_text_le_transitive(a.drop_first(), b.drop_first(), c.drop_first());
        }
    }
}

/// Two texts that come before each other are the same.
pub proof fn law_text_order_is_antisymmetric(a: Seq<char>, b: Seq<char>)
    requires
        text_le(a, b),
        text_le(b, a),
    ensures
        a == b,
    decreases a.len(),
{
    if a.len() == 0 {
        assert(b.len() == 0);
        assert(a =~= b);
    } else {
        assert(b.len() > 0);
        assert(a[0] == b[0]);
        let ta = a.drop_first();
        let tb = b.drop_first();
        law_text_order_is_antisymmetric(ta, tb);
        assert(a.len() == b.len());
        assert forall|i: int| 0 <= i < a.len() implies a[i] == b[i] by {
            if i > 0 {
                assert(a[i] == ta[i - 1]);
                assert(b[i] == tb[i - 1]);
            }
        }
        assert(a =~= b);
    }
}

/// Whether `a` comes before `b` or equals it.
pub fn chars_le(a: &Vec<char>, b: &Vec<char>) -> (r: bool)
    ensures
        r == text_le(a@, b@),
{
    let mut i: usize = 0;
    assert(a@.skip(0) =~= a@ && b@.skip(0) =~= b@);
    while i < a.len() && i < b.len()
        invariant
            i <= a.len(),
            i <= b.len(),
            text_le(a@, b@) == text_le(a@.skip(i as int), b@.skip(i as int)),
        decreases a.len() - i,
    {
        let ghost ra = a@.skip(i as int);
        let ghost rb = b@.skip(i as int);
        assert(ra[0] == a@[i as int] && rb[0] == b@[i as int]);
        if a[i] != b[i] {
            return a[i] < b[i];
        }
        assert(ra.drop_first() =~= a@.skip(i + 1));
        assert(rb.drop_first() =~= b@.skip(i + 1));
        i += 1;
    }
    i == a.len()
}

/// Adding an entry at any place adds its size to the sum.
pub proof fn lemma_sum_after_insert(files: Seq<FileEntry>, pos: int, entry: FileEntry)
    requires
        0 <= pos <= files.len(),
    ensures
        sum_of_sizes(files.insert(pos, entry)) == sum_of_sizes(files) + entry.size,
    decreases files.len(),
{
    let after = files.insert(pos, entry);
    if pos == files.len() {
        assert(after.drop_last() =~= files);
    } else {
        assert(after.drop_last() =~= files.drop_last().insert(pos, entry));
        assert(after.last() == files.last());
        lemma_sum_after_insert(files.drop_last(), pos, entry);
    }
}

/// The sum of the first entries is part of the whole sum.
pub proof fn lemma_sum_of_prefix(files: Seq<FileEntry>, i: int)
    requires
        0 <= i <= files.len(),
    ensures
        sum_of_sizes(files.take(i)) <= sum_of_sizes(files),
    decreases files.len() - i,
{
    if i < files.len() {
        lemma_sum_of_prefix(files, i + 1);
        assert(files.take(i + 1).drop_last() =~= files.take(i));
    } else {
        assert(files.take(i) =~= files);
    }
}

/// The sizes of `files` added up, or `None` when the sum does not fit in
/// 64 bits.
pub fn total_size_of(files: &Vec<FileEntry>) -> (r: Option<u64>)
    ensures
        match r {
            Some(total) => total == sum_of_sizes(files@),
            None => sum_of_sizes(files@) > u64::MAX,
        },
{
    let mut total: u64 = 0;
    let mut i: usize = 0;
    while i < files.len()
        invariant
            i <= files.len(),
            total == sum_of_sizes(files@.take(i as int)),
        decreases files.len() - i,
    {
        proof {
            assert(files@.take(i + 1).drop_last() =~= files@.take(i as int));
            assert(files@.take(i + 1).last() == files@[i as int]);
            lemma_sum_of_prefix(files@, i + 1);
        }
        if files[i].size > u64::MAX - total {
            return None;
        }
        total = total + files[i].size;
        i += 1;
    }
    assert(files@.take(files.len() as int) =~= files@);
    Some(total)
}

/// The test that an entry passes when it has the given path.
pub open spec fn has_path_text(path: Seq<char>) -> spec_fn(FileEntry) -> bool {
    |file: FileEntry| file.path@ == path
}

/// Whether the entries of each path come in `sorted` in the order in which
/// they come in `files`.
pub open spec fn keeps_order_of(sorted: Seq<FileEntry>, files: Seq<FileEntry>) -> bool {
    forall|path: Seq<char>|
        #[trigger] sorted.filter(has_path_text(path)) == files.filter(has_path_text(path))
}

/// Every text comes before itself or equals it.
pub proof fn lemma_text_le_reflexive(a: Seq<char>)
    ensures
        text_le(a, a),
    decreases a.len(),
{
    if a.len() > 0 {
        lemma_text_le_reflexive(a.drop_first());
    }
}

/// Inserting an entry before entries of other paths only appends it to the
/// entries of its own path, and leaves those of every other path alone.
pub proof fn lemma_insert_keeps_order(
    sorted: Seq<FileEntry>,
    pos: int,
    entry: FileEntry,
    path: Seq<char>,
)
    requires
        0 <= pos <= sorted.len(),
        forall|k: int| pos <= k < sorted.len() ==> (#[trigger] sorted[k]).path@ != entry.path@,
    ensures
        sorted.insert(pos, entry).filter(has_path_text(path)) == sorted.filter(
            has_path_text(path),
        ).push(entry).filter(has_path_text(path)),
        sorted.push(entry).filter(has_path_text(path)) == if entry.path@ == path {
            sorted.filter(has_path_text(path)).push(entry)
        } else {
            sorted.filter(has_path_text(path))
        },
{
    let pred = has_path_text(path);
    let head = sorted.take(pos);
    let tail = sorted.skip(pos);
    assert(sorted =~= head + tail);
    assert(sorted.insert(pos, entry) =~= head.push(entry) + tail);
    Seq::filter_distributes_over_add(head, tail, pred);
    Seq::filter_distributes_over_add(head.push(entry), tail, pred);
    head.lemma_filter_push(entry, pred);
    sorted.lemma_filter_push(entry, pred);
    sorted.filter(pred).lemma_filter_push(entry, pred);
    if pred(entry) {
        assert(tail.all(|x: FileEntry| !pred(x))) by {
            assert forall|k: int| 0 <= k < tail.len() implies !pred(#[trigger] tail[k]) by {
                assert(tail[k] == sorted[pos + k]);
            }
        }
        tail.lemma_all_neg_filter_empty(pred);
        assert(head.filter(pred).push(entry) + tail.filter(pred) =~= head.filter(pred).push(
            entry,
        ));
        assert(head.filter(pred) + tail.filter(pred) =~= head.filter(pred));
    }
    assert(sorted.filter(pred).filter(pred) =~= sorted.filter(pred)) by {
        lemma_filter_twice(sorted, pred);
    }
}

/// Filtering what was filtered changes nothing.
pub proof fn lemma_filter_twice(s: Seq<FileEntry>, pred: spec_fn(FileEntry) -> bool)
    ensures
        s.filter(pred).filter(pred) == s.filter(pred),
    decreases s.len(),
{
    reveal(Seq::filter);
    if s.len() > 0 {
        lemma_filter_twice(s.drop_last(), pred);
        if pred(s.last()) {
            s.drop_last().filter(pred).lemma_filter_push(s.last(), pred);
        }
    }
}

/// The entries of `files`, last first.
fn reversed(files: Vec<FileEntry>) -> (r: Vec<FileEntry>)
    ensures
        r@ == files@.reverse(),
{
    let ghost input = files@;
    let mut rest = files;
    let mut out: Vec<FileEntry> = Vec::new();
    while rest.len() > 0
        invariant
            rest@ == input.take(rest@.len() as int),
            rest@.len() <= input.len(),
            out@.len() + rest@.len() == input.len(),
            forall|k: int| 0 <= k < out@.len() ==> out@[k] == input[input.len() - 1 - k],
        decreases rest@.len(),
    {
        let ghost n = rest@.len();
        let entry = rest.pop().unwrap();
        proof {
            assert(entry == input[n - 1]);
            assert(rest@ =~= input.take(n - 1));
        }
        out.push(entry);
    }
    assert(out@ =~= input.reverse());
    out
}

/// The entries of `files` in ascending order of path. Entries with the
/// same path keep the order that they came in.
#[verifier::rlimit(40)]
pub fn sort_by_path(files: Vec<FileEntry>) -> (r: Vec<FileEntry>)
    ensures
        sorted_by_path(r@),
        keeps_order_of(r@, files@),
        r@.to_multiset() == files@.to_multiset(),
        r@.len() == files@.len(),
        sum_of_sizes(r@) == sum_of_sizes(files@),
{
    let ghost input = files@;
    let mut pending = reversed(files);
    let mut sorted: Vec<FileEntry> = Vec::new();
    let mut keys: Vec<Vec<char>> = Vec::new();
    proof {
        assert(input.take(0) =~= Seq::<FileEntry>::empty());
        assert(sorted@ =~= input.take(0));
    }
    while pending.len() > 0
        invariant
            pending@.len() <= input.len(),
            forall|k: int|
                0 <= k < pending@.len() ==> pending@[k] == input[input.len() - 1 - k],
            sorted_by_path(sorted@),
            keys@.len() == sorted@.len(),
            forall|k: int| 0 <= k < sorted@.len() ==> (#[trigger] keys@[k])@ == sorted@[k].path@,
            sorted@.len() + pending@.len() == input.len(),
            sorted@.to_multiset() == input.take(sorted@.len() as int).to_multiset(),
            sum_of_sizes(sorted@) == sum_of_sizes(input.take(sorted@.len() as int)),
            keeps_order_of(sorted@, input.take(sorted@.len() as int)),
        decreases pending@.len(),
    {
        let ghost done = sorted@.len() as int;
        let entry = pending.pop().unwrap();
        let key = chars_of(entry.path.as_str());
        proof {
            assert(entry == input[done]);
            assert(input.take(done + 1) =~= input.take(done).push(entry));
        }
        let mut pos: usize = sorted.len();
        while pos > 0 && !chars_le(&keys[pos - 1], &key)
            invariant
                pos <= sorted@.len(),
                keys@.len() == sorted@.len(),
                key@ == entry.path@,
                forall|k: int|
                    0 <= k < sorted@.len() ==> (#[trigger] keys@[k])@ == sorted@[k].path@,
                forall|k: int|
                    pos <= k < sorted@.len() ==> !text_le(
                        (#[trigger] sorted@[k]).path@,
                        entry.path@,
                    ),
            decreases pos,
        {
            pos -= 1;
        }
        proof {
            let after = sorted@.insert(pos as int, entry);
            assert forall|k: int| pos <= k < sorted@.len() implies text_le(
                entry.path@,
                (#[trigger] sorted@[k]).path@,
            ) && sorted@[k].path@ != entry.path@ by {
                lemma_text_le_total(sorted@[k].path@, entry.path@);
                lemma_text_le_reflexive(entry.path@);
            }
            assert forall|i: int, j: int| 0 <= i < j < after.len() implies text_le(
                (#[trigger] after[i]).path@,
                (#[trigger] after[j]).path@,
            ) by {
                if j < pos {
                    assert(after[i] == sorted@[i] && after[j] == sorted@[j]);
                } else if j == pos {
                    assert(after[i] == sorted@[i]);
                    assert(text_le(sorted@[pos - 1].path@, entry.path@));
                    if i < pos - 1 {
                        assert(text_le(sorted@[i].path@, sorted@[pos - 1].path@));
                        lemma_text_le_transitive(
                            sorted@[i].path@,
                            sorted@[pos - 1].path@,
                            entry.path@,
                        );
                    }
                } else if i < pos {
                    assert(after[i] == sorted@[i] && after[j] == sorted@[j - 1]);
                    if j - 1 > i {
                        assert(text_le(sorted@[i].path@, sorted@[j - 1].path@));
                    }
                } else if i == pos {
                    assert(after[j] == sorted@[j - 1]);
                } else {
                    assert(after[i] == sorted@[i - 1] && after[j] == sorted@[j - 1]);
                }
            }
            to_multiset_insert(sorted@, pos as int, entry);
            to_multiset_build(input.take(done), entry);
            lemma_sum_after_insert(sorted@, pos as int, entry);
            assert(input.take(done + 1).drop_last() =~= input.take(done));
            let keys_after = keys@.insert(pos as int, key);
            assert forall|k: int| 0 <= k < after.len() implies (#[trigger] keys_after[k])@
                == after[k].path@ by {
                if k < pos {
                    assert(keys_after[k] == keys@[k]);
                } else if k > pos {
                    assert(keys_after[k] == keys@[k - 1]);
                }
            }
            assert forall|path: Seq<char>|
                #[trigger] after.filter(has_path_text(path)) == input.take(done + 1).filter(
                    has_path_text(path),
                ) by {
                lemma_insert_keeps_order(sorted@, pos as int, entry, path);
                lemma_insert_keeps_order(input.take(done), done, entry, path);
                assert(sorted@.filter(has_path_text(path)) == input.take(done).filter(
                    has_path_text(path),
                ));
                sorted@.filter(has_path_text(path)).lemma_filter_push(entry, has_path_text(path));
                lemma_filter_twice(sorted@, has_path_text(path));
            }
        }
        sorted.insert(pos, entry);
        keys.insert(pos, key);
    }
    proof {
        assert(input.take(input.len() as int) =~= input);
    }
    sorted
}

/// No two entries of `files` have the same path.
pub open spec fn paths_are_distinct(files: Seq<FileEntry>) -> bool {
    forall|i: int, j: int|
        0 <= i < j < files.len() ==> (#[trigger] files[i]).path@ != (#[trigger] files[j]).path@
}

/// Reordering keeps the entries, and keeps their paths distinct.
pub proof fn lemma_reordered_listing(raw: Seq<FileEntry>, sorted: Seq<FileEntry>)
    requires
        raw.to_multiset() == sorted.to_multiset(),
        paths_are_distinct(raw),
    ensures
        paths_are_distinct(sorted),
        forall|file: FileEntry| raw.contains(file) <==> sorted.contains(file),
{
    assert forall|file: FileEntry| raw.contains(file) <==> sorted.contains(file) by {
        vstd::seq_lib::to_multiset_contains(raw, file);
        vstd::seq_lib::to_multiset_contains(sorted, file);
    }
    assert(raw.no_duplicates()) by {
        assert forall|i: int, j: int| 0 <= i < raw.len() && 0 <= j < raw.len() && i != j implies raw[i]
            != raw[j] by {
            if i < j {
                assert(raw[i].path@ != raw[j].path@);
            } else {
                assert(raw[j].path@ != raw[i].path@);
            }
        }
    }
    raw.lemma_multiset_has_no_duplicates();
    sorted.lemma_multiset_has_no_duplicates_conv();
    assert forall|i: int, j: int| 0 <= i < j < sorted.len() implies (#[trigger] sorted[i]).path@ != (
    #[trigger] sorted[j]).path@ by {
        assert(sorted.contains(sorted[i]) && sorted.contains(sorted[j]));
        let a = choose|a: int| 0 <= a < raw.len() && raw[a] == sorted[i];
        let b = choose|b: int| 0 <= b < raw.len() && raw[b] == sorted[j];
        assert(sorted[i] != sorted[j]);
        if a < b {
            assert(raw[a].path@ != raw[b].path@);
        } else {
            assert(raw[b].path@ != raw[a].path@);
        }
    }
}

/// Whether `file` stands for the file at `path` in `nodes`: it carries the
/// path's text and the length of the content.
pub open spec fn describes(
    file: FileEntry,
    nodes: Map<Seq<Seq<char>>, NodeView>,
    path: Seq<Seq<char>>,
) -> bool {
    &&& nodes.contains_key(path)
    &&& nodes[path] matches NodeView::File(bytes)
    &&& file.path@ == render_path(path)
    &&& file.size == bytes.len()
}

/// Whether `file` stands for one of the files of `nodes`.
pub open spec fn stands_for_a_file(file: FileEntry, nodes: Map<Seq<Seq<char>>, NodeView>) -> bool {
    exists|path: Seq<Seq<char>>| #[trigger] describes(file, nodes, path)
}

/// Whether `files` lists the files of `nodes`: every entry stands for a
/// file, every file has its entry, and no path comes twice. Directories
/// are not listed.
pub open spec fn is_listing_of(files: Seq<FileEntry>, nodes: Map<Seq<Seq<char>>, NodeView>) -> bool {
    &&& forall|i: int| 0 <= i < files.len() ==> stands_for_a_file(#[trigger] files[i], nodes)
    &&& forall|path: Seq<Seq<char>>| #[trigger]
        nodes.contains_key(path) && nodes[path] is File ==> exists|i: int|
            0 <= i < files.len() && #[trigger] describes(files[i], nodes, path)
    &&& paths_are_distinct(files)
}

/// Whether `file` was made from the tree entry `entry`.
pub open spec fn made_from(file: FileEntry, entry: TreeEntry) -> bool {
    &&& entry.content is Some
    &&& file.path@ == render_path(entry.path_view())
    &&& file.size == entry.size()
}

/// The files of the first `upto` entries, as `raw` holds them: `origin`
/// gives, for each, the entry that it was made from.
pub open spec fn collected(
    entries: Seq<TreeEntry>,
    upto: int,
    raw: Seq<FileEntry>,
    origin: Seq<int>,
) -> bool {
    &&& origin.len() == raw.len()
    &&& forall|j: int|
        0 <= j < raw.len() ==> 0 <= #[trigger] origin[j] < upto && made_from(
            raw[j],
            entries[origin[j]],
        )
    &&& forall|a: int, b: int| 0 <= a < b < raw.len() ==> #[trigger] origin[a] < #[trigger] origin[b]
    &&& forall|i: int|
        0 <= i < upto && (#[trigger] entries[i]).content is Some ==> exists|j: int|
            0 <= j < raw.len() && #[trigger] origin[j] == i
}

/// What was collected from all entries of a tree, in any order, lists the
/// tree's files.
#[verifier::rlimit(40)]
pub proof fn lemma_collected_is_listing(
    entries: Seq<TreeEntry>,
    raw: Seq<FileEntry>,
    origin: Seq<int>,
    sorted: Seq<FileEntry>,
)
    requires
        distinct_paths(entries),
        plain_paths(entries),
        collected(entries, entries.len() as int, raw, origin),
        raw.to_multiset() == sorted.to_multiset(),
    ensures
        is_listing_of(sorted, nodes_of(entries)),
{
    let nodes = nodes_of(entries);
    assert(paths_are_distinct(raw)) by {
        assert forall|a: int, b: int| 0 <= a < b < raw.len() implies (#[trigger] raw[a]).path@ != (
        #[trigger] raw[b]).path@ by {
            let i = origin[a];
            let k = origin[b];
            assert(i < k);
            assert(entries[i].path_view() != entries[k].path_view());
            if raw[a].path@ == raw[b].path@ {
                lemma_render_is_injective(entries[i].path_view(), entries[k].path_view());
            }
        }
    }
    lemma_reordered_listing(raw, sorted);
    assert forall|i: int| 0 <= i < sorted.len() implies stands_for_a_file(
        #[trigger] sorted[i],
        nodes,
    ) by {
        assert(sorted.contains(sorted[i]));
        let j = choose|j: int| 0 <= j < raw.len() && raw[j] == sorted[i];
        let k = origin[j];
        lemma_node_at_entry(entries, k);
        assert(describes(sorted[i], nodes, entries[k].path_view()));
    }
    assert forall|path: Seq<Seq<char>>| #[trigger]
        nodes.contains_key(path) && nodes[path] is File implies exists|i: int|
        0 <= i < sorted.len() && #[trigger] describes(sorted[i], nodes, path) by {
        let k = position_of(entries, path);
        assert(entries[k].path_view() == path);
        lemma_node_at_entry(entries, k);
        let j = choose|j: int| 0 <= j < raw.len() && #[trigger] origin[j] == k;
        assert(raw.contains(raw[j]));
        let i = choose|i: int| 0 <= i < sorted.len() && sorted[i] == raw[j];
        assert(describes(sorted[i], nodes, path));
    }
}

/// The list of a staged tree's files, in ascending order of path, and the
/// bytes that they take up together.
#[verifier::rlimit(40)]
pub fn list_files(tree: &StagingTree) -> (r: (Vec<FileEntry>, u64))
    requires
        tree.wf(),
    ensures
        sorted_by_path(r.0@),
        is_listing_of(r.0@, tree@),
        r.1 == sum_of_sizes(r.0@),
        r.1 == tree.total_bytes(),
{
    let entries = tree.entries();
    proof {
        tree.lemma_wf();
    }
    let mut raw: Vec<FileEntry> = Vec::new();
    let ghost mut origin: Seq<int> = Seq::empty();
    let mut i: usize = 0;
    while i < entries.len()
        invariant
            i <= entries.len(),
            collected(entries@, i as int, raw@, origin),
            sum_of_sizes(raw@) == total_size(entries@.take(i as int)),
            total_size(entries@) <= u64::MAX,
        decreases entries.len() - i,
    {
        proof {
            assert(entries@.take(i + 1).drop_last() =~= entries@.take(i as int));
            assert(entries@.take(i + 1).last() == entries@[i as int]);
            lemma_total_of_prefix(entries@, i + 1);
        }
        match &entries[i].content {
            Some(bytes) => {
                let file = FileEntry {
                    path: render_segments(&entries[i].path),
                    size: bytes.len() as u64,
                };
                proof {
                    let ghost_raw = raw@.push(file);
                    let ghost_origin = origin.push(i as int);
                    assert(ghost_raw.drop_last() =~= raw@);
                    assert forall|j: int| 0 <= j < ghost_raw.len() implies 0 <= #[trigger] ghost_origin[j]
                        < i + 1 && made_from(ghost_raw[j], entries@[ghost_origin[j]]) by {
                        if j < raw@.len() {
                            assert(ghost_origin[j] == origin[j]);
                            assert(ghost_raw[j] == raw@[j]);
                        }
                    }
                    assert forall|a: int, b: int| 0 <= a < b < ghost_raw.len() implies #[trigger] ghost_origin[a]
                        < #[trigger] ghost_origin[b] by {
                        assert(ghost_origin[a] == origin[a]);
                        if b < raw@.len() {
                            assert(ghost_origin[b] == origin[b]);
                        }
                    }
                    assert forall|k: int|
                        0 <= k < i + 1 && (#[trigger] entries@[k]).content is Some implies exists|
                        j: int,
                    | 0 <= j < ghost_raw.len() && #[trigger] ghost_origin[j] == k by {
                        if k < i {
                            let j = choose|j: int| 0 <= j < raw@.len() && #[trigger] origin[j] == k;
                            assert(ghost_origin[j] == k);
                        } else {
                            assert(ghost_origin[raw@.len() as int] == k);
                        }
                    }
                    origin = ghost_origin;
                }
                raw.push(file);
            },
            None => {},
        }
        i += 1;
    }
    proof {
        assert(entries@.take(entries.len() as int) =~= entries@);
    }
    let total = tree.disk_usage();
    let sorted = sort_by_path(raw);
    proof {
        lemma_collected_is_listing(entries@, raw@, origin, sorted@);
    }
    (sorted, total)
}

/// The size of the first entries is part of the whole size.
pub proof fn lemma_total_of_prefix(entries: Seq<TreeEntry>, i: int)
    requires
        0 <= i <= entries.len(),
    ensures
        total_size(entries.take(i)) <= total_size(entries),
    decreases entries.len() - i,
{
    if i < entries.len() {
        lemma_total_of_prefix(entries, i + 1);
        assert(entries.take(i + 1).drop_last() =~= entries.take(i));
    } else {
        assert(entries.take(i) =~= entries);
    }
}

/// Orders a list of files by path and adds up their sizes. Fails when the
/// sum does not fit in 64 bits.
pub fn summarize_files(found: Vec<FileEntry>) -> (r: Result<(Vec<FileEntry>, u64), SiteError>)
    ensures
        match r {
            Ok((files, total)) => {
                &&& sorted_by_path(files@)
                &&& keeps_order_of(files@, found@)
                &&& files@.to_multiset() == found@.to_multiset()
                &&& total == sum_of_sizes(found@)
            },
            Err(e) => e == SiteError::IOFailure && sum_of_sizes(found@) > u64::MAX,
        },
{
    match total_size_of(&found) {
        Some(total) => Ok((sort_by_path(found), total)),
        None => Err(SiteError::IOFailure),
    }
}

/// The public path prefix of a user's site: `/`, the name, `/`.
pub open spec fn site_url_of(username: Seq<char>) -> Seq<char> {
    seq!['/'] + username + seq!['/']
}

/// The public path prefix of a user's site.
pub fn site_url(username: &str) -> (r: String)
    ensures
        r@ == site_url_of(username@),
{
    let mut out = concat("/", username);
    out.push('/');
    proof {
        reveal_strlit("/");
        assert("/"@ =~= seq!['/']);
        assert(out@ =~= site_url_of(username@));
    }
    out
}

/// What a user is told about their site: its files, its size, the quota
/// and where it is served.
pub fn site_info(username: &str, files: Vec<FileEntry>, disk_usage_bytes: u64, quota_bytes: u64) -> (r:
    SiteInfo)
    ensures
        r.username@ == username@,
        r.disk_usage_bytes == disk_usage_bytes,
        r.quota_bytes == quota_bytes,
        r.files == files,
        r.site_url@ == site_url_of(username@),
{
    SiteInfo {
        username: username.to_owned(),
        disk_usage_bytes,
        quota_bytes,
        files,
        site_url: site_url(username),
    }
}

} // verus!
