//! Decoding of uploaded archives into a staging tree.
//!
//! Two container formats are read, the one by the `zip` crate and the other
//! by `tar` over `flate2`. What those crates return is believed, not
//! proved; what is done with it is verified here.

use vstd::prelude::*;
use crate::error::SiteError;
use crate::path::{sanitize_archive_path, sanitize_spec};
use crate::text::{chars_end_with, chars_of, is_suffix_of};
use crate::tree::{
    blocked_by_file, flattened, size_at, with_directories, with_file, write_refused, NodeView,
    StagingTree,
};

verus! {

/// The container formats that can be deployed.
#[derive(Clone, Copy, Debug, PartialEq, Eq, Structural)]
pub enum ArchiveFormat {
    Zip,
    TarGz,
}

/// The format that a file name selects by its suffix: `.zip`, or one of
/// `.tar.gz` and `.tgz`.
pub open spec fn format_of(filename: Seq<char>) -> Option<ArchiveFormat> {
    if is_suffix_of(".zip"@, filename) {
        Some(ArchiveFormat::Zip)
    } else if is_suffix_of(".tar.gz"@, filename) || is_suffix_of(".tgz"@, filename) {
        Some(ArchiveFormat::TarGz)
    } else {
        None
    }
}

/// Selects the decoder for an upload by the suffix of its file name.
pub fn archive_format(filename: &str) -> (r: Option<ArchiveFormat>)
    ensures
        r == format_of(filename@),
{
    let name = chars_of(filename);
    if chars_end_with(&name, &chars_of(".zip")) {
        Some(ArchiveFormat::Zip)
    } else if chars_end_with(&name, &chars_of(".tar.gz")) || chars_end_with(
        &name,
        &chars_of(".tgz"),
    ) {
        Some(ArchiveFormat::TarGz)
    } else {
        None
    }
}

/// What an archive entry is.
#[derive(Clone, Copy, Debug, PartialEq, Eq, Structural)]
pub enum EntryKind {
    File,
    Directory,
    /// A symbolic link, a device or anything else that is neither a regular
    /// file nor a directory.
    Other,
}

/// One item decoded from an archive.
#[derive(Debug)]
pub struct ArchiveEntry {
    /// The path as the archive gives it; not to be trusted.
    pub path: String,
    pub kind: EntryKind,
    /// The decoded bytes; `None` where they could not be decoded.
    pub content: Option<Vec<u8>>,
}

/// An archive entry as plain data.
pub struct ArchiveEntryView {
    pub path: Seq<char>,
    pub kind: EntryKind,
    pub content: Option<Seq<u8>>,
}

impl View for ArchiveEntry {
    type V = ArchiveEntryView;

    open spec fn view(&self) -> ArchiveEntryView {
        ArchiveEntryView {
            path: self.path@,
            kind: self.kind,
            content: match self.content {
                Some(bytes) => Some(bytes@),
                None => None,
            },
        }
    }
}

/// A staging tree as plain data: its nodes and the bytes of its files.
pub struct Staged {
    pub nodes: Map<Seq<Seq<char>>, NodeView>,
    pub total: nat,
}

/// The tree before anything is staged.
pub open spec fn nothing_staged() -> Staged {
    Staged { nodes: Map::empty(), total: 0 }
}

/// What staging one entry does to a tree. The path is sanitized first,
/// whatever the entry is. A directory is created with those above it, a
/// file is written below its directories, and anything else is skipped.
pub open spec fn stage_one(staged: Staged, entry: ArchiveEntryView) -> Result<Staged, SiteError> {
    match sanitize_spec(entry.path) {
        Err(reason) => Err(SiteError::UnsafePath(reason)),
        Ok(path) => match entry.kind {
            EntryKind::Directory => if blocked_by_file(staged.nodes, path, path.len() as int) {
                Err(SiteError::IOFailure)
            } else {
                Ok(
                    Staged {
                        nodes: with_directories(staged.nodes, path, path.len() as int),
                        total: staged.total,
                    },
                )
            },
            EntryKind::File => match entry.content {
                None => Err(SiteError::CorruptArchive),
                Some(bytes) => if write_refused(staged.nodes, staged.total, path, bytes.len()) {
                    Err(SiteError::IOFailure)
                } else {
                    Ok(
                        Staged {
                            nodes: with_file(staged.nodes, path, bytes),
                            total: (staged.total - size_at(staged.nodes, path) + bytes.len()) as nat,
                        },
                    )
                },
            },
            EntryKind::Other => Ok(staged),
        },
    }
}

/// What staging a list of items does, in archive order. An item that could
/// not be decoded (`None`) is a corrupt archive. The first failure ends the
/// staging.
pub open spec fn stage_all(staged: Staged, items: Seq<Option<ArchiveEntryView>>) -> Result<
    Staged,
    SiteError,
>
    decreases items.len(),
{
    if items.len() == 0 {
        Ok(staged)
    } else {
        match stage_all(staged, items.drop_last()) {
            Err(e) => Err(e),
            Ok(so_far) => match items.last() {
                None => Err(SiteError::CorruptArchive),
                Some(entry) => stage_one(so_far, entry),
            },
        }
    }
}

/// The site that a decoded archive stages: all items staged into an empty
/// tree, and a single wrapping directory removed.
pub open spec fn staged_site(items: Seq<Option<ArchiveEntryView>>) -> Result<Staged, SiteError> {
    match stage_all(nothing_staged(), items) {
        Err(e) => Err(e),
        Ok(staged) => Ok(Staged { nodes: flattened(staged.nodes), total: staged.total }),
    }
}

/// Whether `tree` holds exactly what `staged` describes.
pub open spec fn holds(tree: StagingTree, staged: Staged) -> bool {
    tree.wf() && tree@ == staged.nodes && tree.total_bytes() == staged.total
}

/// Whether the result `r` is what `expected` describes: the same failure,
/// or a tree that holds what was staged.
pub open spec fn is_outcome(r: Result<StagingTree, SiteError>, expected: Result<Staged, SiteError>) -> bool {
    match r {
        Ok(tree) => match expected {
            Ok(staged) => holds(tree, staged),
            Err(_) => false,
        },
        Err(e) => expected == Err::<Staged, SiteError>(e),
    }
}

/// A failure among the first items is the failure of the whole list.
pub proof fn lemma_failure_is_final(
    staged: Staged,
    items: Seq<Option<ArchiveEntryView>>,
    upto: int,
)
    requires
        0 <= upto <= items.len(),
        stage_all(staged, items.take(upto)) is Err,
    ensures
        stage_all(staged, items) == stage_all(staged, items.take(upto)),
    decreases items.len() - upto,
{
    if upto < items.len() {
        assert(items.take(upto + 1).drop_last() =~= items.take(upto));
        lemma_failure_is_final(staged, items, upto + 1);
    } else {
        assert(items.take(upto) =~= items);
    }
}

/// Stages one entry into `tree`.
pub fn stage_entry(tree: &mut StagingTree, entry: ArchiveEntry) -> (r: Result<(), SiteError>)
    requires
        old(tree).wf(),
    ensures
        final(tree).wf(),
        ({
            let before = Staged { nodes: old(tree)@, total: old(tree).total_bytes() };
            match r {
                Ok(_) => match stage_one(before, entry@) {
                    Ok(staged) => holds(*final(tree), staged),
                    Err(_) => false,
                },
                Err(e) => stage_one(before, entry@) == Err::<Staged, SiteError>(e) && holds(
                    *final(tree),
                    before,
                ),
            }
        }),
{
    let path = match sanitize_archive_path(entry.path.as_str()) {
        Ok(path) => path,
        Err(reason) => {
            return Err(SiteError::UnsafePath(reason));
        },
    };
    match entry.kind {
        EntryKind::Directory => tree.create_dir_all(&path),
        EntryKind::File => match entry.content {
            None => Err(SiteError::CorruptArchive),
            Some(bytes) => tree.write_file(&path, bytes),
        },
        EntryKind::Other => Ok(()),
    }
}

/// The views of `items`, in order.
pub open spec fn items_view(items: Seq<Option<ArchiveEntry>>) -> Seq<Option<ArchiveEntryView>> {
    Seq::new(
        items.len(),
        |i: int|
            match items[i] {
                Some(entry) => Some(entry@),
                None => None,
            },
    )
}

/// Stages a decoded archive: every item in order into an empty tree, then
/// a single wrapping directory is removed. An item that could not be
/// decoded is given as `None`.
#[verifier::rlimit(40)]
pub fn stage_entries(items: Vec<Option<ArchiveEntry>>) -> (r: Result<StagingTree, SiteError>)
    ensures
        is_outcome(r, staged_site(items_view(items@))),
{
    let ghost all = items_view(items@);
    let mut pending = items;
    let mut queue: Vec<Option<ArchiveEntry>> = Vec::new();
    // Turn the list round, so that its items can be taken in order.
    while pending.len() > 0
        invariant
            pending@.len() + queue@.len() == all.len(),
            forall|k: int|
                0 <= k < pending@.len() ==> (#[trigger] items_view(pending@)[k]) == all[k],
            forall|k: int|
                0 <= k < queue@.len() ==> (#[trigger] items_view(queue@)[k]) == all[all.len() - 1
                    - k],
        decreases pending@.len(),
    {
        let ghost longer = pending@;
        let item = pending.pop().unwrap();
        proof {
            assert forall|k: int| 0 <= k < pending@.len() implies (#[trigger] items_view(
                pending@,
            )[k]) == all[k] by {
                assert(pending@[k] == longer[k]);
                assert(items_view(longer)[k] == all[k]);
            }
            let grown = queue@.push(item);
            assert forall|k: int| 0 <= k < grown.len() implies (#[trigger] items_view(grown)[k])
                == all[all.len() - 1 - k] by {
                if k < queue@.len() {
                    assert(grown[k] == queue@[k]);
                    assert(items_view(queue@)[k] == all[all.len() - 1 - k]);
                } else {
                    assert(grown[k] == longer[longer.len() - 1]);
                    assert(items_view(longer)[longer.len() - 1] == all[longer.len() - 1]);
                }
            }
        }
        queue.push(item);
    }
    let mut tree = StagingTree::new();
    let ghost mut done: int = 0;
    proof {
        assert(all.take(0) =~= Seq::<Option<ArchiveEntryView>>::empty());
    }
    while queue.len() > 0
        invariant
            all == items_view(items@),
            done + queue@.len() == all.len(),
            0 <= done,
            forall|k: int|
                0 <= k < queue@.len() ==> (#[trigger] items_view(queue@)[k]) == all[all.len() - 1
                    - k],
            tree.wf(),
            stage_all(nothing_staged(), all.take(done)) == Ok::<Staged, SiteError>(
                Staged { nodes: tree@, total: tree.total_bytes() },
            ),
        decreases queue@.len(),
    {
        let ghost longer = queue@;
        let item = queue.pop().unwrap();
        proof {
            assert(items_view(longer)[longer.len() - 1] == all[done]);
            assert(longer[longer.len() - 1] == item);
            assert(all[done] == match item {
                Some(entry) => Some(entry@),
                None => None::<ArchiveEntryView>,
            });
            assert(all.take(done + 1).drop_last() =~= all.take(done));
            assert(all.take(done + 1).last() == all[done]);
            assert forall|k: int| 0 <= k < queue@.len() implies (#[trigger] items_view(
                queue@,
            )[k]) == all[all.len() - 1 - k] by {
                assert(queue@[k] == longer[k]);
                assert(items_view(longer)[k] == all[all.len() - 1 - k]);
            }
        }
        let staged = match item {
            None => Err(SiteError::CorruptArchive),
            Some(entry) => stage_entry(&mut tree, entry),
        };
        match staged {
            Ok(_) => {},
            Err(e) => {
                proof {
                    assert(stage_all(nothing_staged(), all.take(done + 1)) == Err::<
                        Staged,
                        SiteError,
                    >(e));
                    lemma_failure_is_final(nothing_staged(), all, done + 1);
                }
                return Err(e);
            },
        }
        proof {
            done = done + 1;
        }
    }
    proof {
        assert(all.take(done) =~= all);
    }
    tree.flatten_single_root();
    Ok(tree)
}

} // verus!
