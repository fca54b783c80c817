//! The archive decoders.
//!
//! The `zip`, `tar` and `flate2` crates do the decoding. Their results are
//! taken on trust: each call stands in a small function whose contract
//! says what the call returns, and the staging that follows is verified
//! against those contracts.

use vstd::prelude::*;
use crate::archive::{
    is_outcome, lemma_failure_is_final, nothing_staged, stage_all, stage_entry, staged_site,
    ArchiveEntry, ArchiveEntryView, ArchiveFormat, EntryKind, Staged,
};
use crate::error::SiteError;
use crate::tree::StagingTree;

verus! {

/// The reader of `zip`, opaque here.
#[verifier::external_type_specification]
#[verifier::external_body]
#[verifier::reject_recursive_types(R)]
pub struct ExZipArchive<R>(zip::ZipArchive<R>);

/// The error of `zip`, opaque here.
#[verifier::external_type_specification]
#[verifier::external_body]
pub struct ExZipError(zip::result::ZipError);

/// The in-memory reader of std, opaque here.
#[verifier::external_type_specification]
#[verifier::external_body]
#[verifier::reject_recursive_types(T)]
pub struct ExCursor<T>(std::io::Cursor<T>);

/// The I/O error of std, opaque here.
#[verifier::external_type_specification]
#[verifier::external_body]
pub struct ExIoError(std::io::Error);

/// A `tar` archive over a gzip stream over bytes in memory.
#[verifier::external_body]
pub struct TarReader {
    archive: tar::Archive<flate2::read::GzDecoder<std::io::Cursor<Vec<u8>>>>,
}

/// The entries of a `TarReader` that have not been read yet.
#[verifier::external_body]
pub struct TarEntries<'a> {
    entries: tar::Entries<'a, flate2::read::GzDecoder<std::io::Cursor<Vec<u8>>>>,
}

/// What a decoder reports of one entry.
#[derive(Debug)]
pub struct RawEntry {
    /// The entry's path; `None` where the decoder could not give one.
    pub name: Option<String>,
    /// Whether the decoder calls the entry a directory.
    pub is_dir: bool,
    /// Whether the decoder calls the entry a regular file.
    pub is_file: bool,
    /// The entry's bytes; `None` where reading them failed.
    pub content: Option<Vec<u8>>,
}

/// A decoder's report of one entry, as plain data.
pub struct RawEntryView {
    pub name: Option<Seq<char>>,
    pub is_dir: bool,
    pub is_file: bool,
    pub content: Option<Seq<u8>>,
}

impl View for RawEntry {
    type V = RawEntryView;

    open spec fn view(&self) -> RawEntryView {
        RawEntryView {
            name: match self.name {
                Some(name) => Some(name@),
                None => None,
            },
            is_dir: self.is_dir,
            is_file: self.is_file,
            content: match self.content {
                Some(bytes) => Some(bytes@),
                None => None,
            },
        }
    }
}

/// What `zip::ZipArchive::new` makes of `data`: `None` where it fails,
/// else one item for each entry of the archive's directory, in order. An
/// item is `None` where the entry cannot be opened.
pub uninterp spec fn zip_directory(data: Seq<u8>) -> Option<Seq<Option<RawEntryView>>>;

/// The items of an opened zip archive.
pub uninterp spec fn zip_entries(archive: zip::ZipArchive<std::io::Cursor<Vec<u8>>>) -> Seq<
    Option<RawEntryView>,
>;

/// What `tar::Archive::new` over `flate2::read::GzDecoder::new` makes of
/// `data`: `None` where the entries cannot be listed, else one item for
/// each entry in stream order. An item is `None` where the entry cannot be
/// read; nothing follows such an item.
pub uninterp spec fn tar_listing(data: Seq<u8>) -> Option<Seq<Option<RawEntryView>>>;

/// What listing the entries of a tar archive would give, in its present
/// state.
pub uninterp spec fn tar_pending(archive: TarReader) -> Option<Seq<Option<RawEntryView>>>;

/// The items that a tar entry iterator has yet to give.
pub uninterp spec fn tar_remaining(entries: TarEntries<'_>) -> Seq<Option<RawEntryView>>;

/// Calls `zip::ZipArchive::new` on the bytes. It reads the archive's
/// central directory and fails where that is missing or malformed; the
/// result depends on the bytes alone.
#[verifier::external_body]
fn zip_open(data: Vec<u8>) -> (r: Result<
    zip::ZipArchive<std::io::Cursor<Vec<u8>>>,
    zip::result::ZipError,
>)
    ensures
        match r {
            Ok(archive) => zip_directory(data@) == Some(zip_entries(archive)),
            Err(_) => zip_directory(data@) is None,
        },
{
    zip::ZipArchive::new(std::io::Cursor::new(data))
}

/// Calls `zip::ZipArchive::len`: the number of entries in the archive's
/// directory.
#[verifier::external_body]
fn zip_len(archive: &zip::ZipArchive<std::io::Cursor<Vec<u8>>>) -> (n: usize)
    ensures
        n == zip_entries(*archive).len(),
{
    archive.len()
}

/// Calls `zip::ZipArchive::by_index` and reads the entry that it opens:
/// its name, whether `is_dir` and `is_file` hold of it, and its bytes by
/// `read_to_end`. The entries themselves stay as they are.
#[verifier::external_body]
fn zip_entry(archive: &mut zip::ZipArchive<std::io::Cursor<Vec<u8>>>, index: usize) -> (r: Result<
    RawEntry,
    zip::result::ZipError,
>)
    ensures
        zip_entries(*final(archive)) == zip_entries(*old(archive)),
        index < zip_entries(*old(archive)).len() ==> match r {
            Ok(entry) => zip_entries(*old(archive))[index as int] == Some(entry@),
            Err(_) => zip_entries(*old(archive))[index as int] is None,
        },
{
    let mut file = archive.by_index(index)?;
    let mut bytes = Vec::new();
    let read = std::io::Read::read_to_end(&mut file, &mut bytes);
    let name = Some(file.name().to_string());
    let content = read.ok().map(|_| bytes);
    Ok(RawEntry { name, is_dir: file.is_dir(), is_file: file.is_file(), content })
}

/// Calls `tar::Archive::new` on a `flate2::read::GzDecoder` over the
/// bytes. Neither call fails; what the archive will list depends on the
/// bytes alone.
#[verifier::external_body]
fn tar_open(data: Vec<u8>) -> (archive: TarReader)
    ensures
        tar_pending(archive) == tar_listing(data@),
{
    TarReader {
        archive: tar::Archive::new(flate2::read::GzDecoder::new(std::io::Cursor::new(data))),
    }
}

/// Calls `tar::Archive::entries`, which gives an iterator over the
/// archive's entries or fails.
#[verifier::external_body]
fn tar_entries<'a>(archive: &'a mut TarReader) -> (r: Result<TarEntries<'a>, std::io::Error>)
    ensures
        match r {
            Ok(entries) => tar_pending(*old(archive)) == Some(tar_remaining(entries)),
            Err(_) => tar_pending(*old(archive)) is None,
        },
{
    archive.archive.entries().map(|entries| TarEntries { entries })
}

/// Calls `next` on the iterator of `tar::Archive::entries` and reads the
/// entry that it gives: its path as text, whether its type `is_dir` and
/// `is_file`, and its bytes by `read_to_end`. Each call takes the first of
/// the remaining items; `None` comes when none remains.
#[verifier::external_body]
fn tar_next(entries: &mut TarEntries<'_>) -> (r: Option<Result<RawEntry, std::io::Error>>)
    ensures
        match r {
            None => tar_remaining(*old(entries)).len() == 0,
            Some(item) => {
                &&& tar_remaining(*old(entries)).len() > 0
                &&& tar_remaining(*final(entries)) == tar_remaining(*old(entries)).drop_first()
                &&& match item {
                    Ok(entry) => tar_remaining(*old(entries))[0] == Some(entry@),
                    Err(_) => tar_remaining(*old(entries))[0] is None,
                }
            },
        },
{
    let mut entry = match entries.entries.next()? {
        Ok(entry) => entry,
        Err(e) => return Some(Err(e)),
    };
    let mut bytes = Vec::new();
    let read = std::io::Read::read_to_end(&mut entry, &mut bytes);
    let name = entry.path().ok().map(|p| p.to_string_lossy().to_string());
    let kind = entry.header().entry_type();
    let content = read.ok().map(|_| bytes);
    Some(Ok(RawEntry { name, is_dir: kind.is_dir(), is_file: kind.is_file(), content }))
}

/// The archive entry that a decoder's report stands for: none without a
/// path; a directory where the decoder says so, else a file where it says
/// so, else something other.
pub open spec fn entry_of_spec(raw: RawEntryView) -> Option<ArchiveEntryView> {
    match raw.name {
        None => None,
        Some(path) => Some(
            ArchiveEntryView {
                path,
                kind: if raw.is_dir {
                    EntryKind::Directory
                } else if raw.is_file {
                    EntryKind::File
                } else {
                    EntryKind::Other
                },
                content: raw.content,
            },
        ),
    }
}

/// The archive entry that a decoder's report stands for.
pub fn entry_of(raw: RawEntry) -> (r: Option<ArchiveEntry>)
    ensures
        match r {
            Some(entry) => entry_of_spec(raw@) == Some(entry@),
            None => entry_of_spec(raw@) is None,
        },
{
    let RawEntry { name, is_dir, is_file, content } = raw;
    match name {
        None => None,
        Some(path) => {
            let kind = if is_dir {
                EntryKind::Directory
            } else if is_file {
                EntryKind::File
            } else {
                EntryKind::Other
            };
            Some(ArchiveEntry { path, kind, content })
        },
    }
}

/// The archive entries that a decoder's items stand for. An item that
/// could not be read stays unreadable.
pub open spec fn decoded(items: Seq<Option<RawEntryView>>) -> Seq<Option<ArchiveEntryView>> {
    Seq::new(
        items.len(),
        |i: int|
            match items[i] {
                Some(raw) => entry_of_spec(raw),
                None => None,
            },
    )
}

/// The site that the zip archive `data` stages.
pub open spec fn extracted_zip(data: Seq<u8>) -> Result<Staged, SiteError> {
    match zip_directory(data) {
        None => Err(SiteError::CorruptArchive),
        Some(items) => staged_site(decoded(items)),
    }
}

/// The site that the gzip-compressed tar archive `data` stages.
pub open spec fn extracted_tar_gz(data: Seq<u8>) -> Result<Staged, SiteError> {
    match tar_listing(data) {
        None => Err(SiteError::CorruptArchive),
        Some(items) => staged_site(decoded(items)),
    }
}

/// The archive entry that a decoder's item stands for.
pub open spec fn item_view(item: Option<RawEntry>) -> Option<ArchiveEntryView> {
    match item {
        Some(raw) => entry_of_spec(raw@),
        None => None,
    }
}

/// Stages one decoded item, or fails where there is none.
fn stage_item(tree: &mut StagingTree, item: Option<RawEntry>) -> (r: Result<(), SiteError>)
    requires
        old(tree).wf(),
    ensures
        final(tree).wf(),
        ({
            let before = Staged { nodes: old(tree)@, total: old(tree).total_bytes() };
            let items = seq![item_view(item)];
            match r {
                Ok(_) => stage_all(before, items) == Ok::<Staged, SiteError>(
                    Staged { nodes: final(tree)@, total: final(tree).total_bytes() },
                ),
                Err(e) => stage_all(before, items) == Err::<Staged, SiteError>(e),
            }
        }),
{
    proof {
        let view = item_view(item);
        reveal_with_fuel(stage_all, 2);
        assert(seq![view].drop_last() =~= Seq::<Option<ArchiveEntryView>>::empty());
        assert(seq![view].last() == view);
    }
    let entry = match item {
        None => {
            return Err(SiteError::CorruptArchive);
        },
        Some(raw) => entry_of(raw),
    };
    match entry {
        None => Err(SiteError::CorruptArchive),
        Some(entry) => stage_entry(tree, entry),
    }
}

/// Staging one more item continues the staging of those before it.
proof fn lemma_stage_next(
    items: Seq<Option<ArchiveEntryView>>,
    done: int,
    so_far: Staged,
)
    requires
        0 <= done < items.len(),
        stage_all(nothing_staged(), items.take(done)) == Ok::<Staged, SiteError>(so_far),
    ensures
        stage_all(nothing_staged(), items.take(done + 1)) == stage_all(so_far, seq![items[done]]),
{
    reveal_with_fuel(stage_all, 2);
    assert(items.take(done + 1).drop_last() =~= items.take(done));
    assert(items.take(done + 1).last() == items[done]);
    assert(seq![items[done]].drop_last() =~= Seq::<Option<ArchiveEntryView>>::empty());
    assert(seq![items[done]].last() == items[done]);
}

/// Extracts a zip archive into a staging tree: each entry of its directory
/// in order, then a single wrapping directory is removed.
#[verifier::rlimit(40)]
pub fn extract_zip(data: Vec<u8>) -> (r: Result<StagingTree, SiteError>)
    ensures
        is_outcome(r, extracted_zip(data@)),
{
    let ghost bytes = data@;
    let mut archive = match zip_open(data) {
        Ok(archive) => archive,
        Err(_) => {
            return Err(SiteError::CorruptArchive);
        },
    };
    let ghost raw_items = zip_entries(archive);
    let ghost items = decoded(raw_items);
    let count = zip_len(&archive);
    let mut tree = StagingTree::new();
    let mut index: usize = 0;
    proof {
        assert(items.take(0) =~= Seq::<Option<ArchiveEntryView>>::empty());
    }
    while index < count
        invariant
            index <= count,
            bytes == data@,
            count == raw_items.len(),
            zip_entries(archive) == raw_items,
            zip_directory(bytes) == Some(raw_items),
            items == decoded(raw_items),
            tree.wf(),
            stage_all(nothing_staged(), items.take(index as int)) == Ok::<Staged, SiteError>(
                Staged { nodes: tree@, total: tree.total_bytes() },
            ),
        decreases count - index,
    {
        let item = match zip_entry(&mut archive, index) {
            Ok(raw) => Some(raw),
            Err(_) => None,
        };
        proof {
            assert(items[index as int] == item_view(item));
            lemma_stage_next(
                items,
                index as int,
                Staged { nodes: tree@, total: tree.total_bytes() },
            );
        }
        match stage_item(&mut tree, item) {
            Ok(_) => {},
            Err(e) => {
                proof {
                    lemma_failure_is_final(nothing_staged(), items, index + 1);
                }
                return Err(e);
            },
        }
        index += 1;
    }
    proof {
        assert(items.take(index as int) =~= items);
    }
    tree.flatten_single_root();
    Ok(tree)
}

/// Extracts a gzip-compressed tar archive into a staging tree: each entry
/// of the stream in order, then a single wrapping directory is removed.
#[verifier::rlimit(40)]
pub fn extract_tar_gz(data: Vec<u8>) -> (r: Result<StagingTree, SiteError>)
    ensures
        is_outcome(r, extracted_tar_gz(data@)),
{
    let ghost bytes = data@;
    let mut archive = tar_open(data);
    let mut entries = match tar_entries(&mut archive) {
        Ok(entries) => entries,
        Err(_) => {
            return Err(SiteError::CorruptArchive);
        },
    };
    let ghost raw_items = tar_remaining(entries);
    let ghost items = decoded(raw_items);
    let ghost mut done: int = 0;
    let mut tree = StagingTree::new();
    proof {
        assert(items.take(0) =~= Seq::<Option<ArchiveEntryView>>::empty());
        assert(raw_items.skip(0) =~= raw_items);
    }
    loop
        invariant_except_break
            0 <= done <= raw_items.len(),
            bytes == data@,
            tar_listing(bytes) == Some(raw_items),
            tar_remaining(entries) == raw_items.skip(done),
            items == decoded(raw_items),
            tree.wf(),
            stage_all(nothing_staged(), items.take(done)) == Ok::<Staged, SiteError>(
                Staged { nodes: tree@, total: tree.total_bytes() },
            ),
        ensures
            done == raw_items.len(),
            bytes == data@,
            tar_listing(bytes) == Some(raw_items),
            items == decoded(raw_items),
            tree.wf(),
            stage_all(nothing_staged(), items.take(done)) == Ok::<Staged, SiteError>(
                Staged { nodes: tree@, total: tree.total_bytes() },
            ),
        decreases raw_items.len() - done,
    {
        let item = match tar_next(&mut entries) {
            None => {
                break;
            },
            Some(Ok(raw)) => Some(raw),
            Some(Err(_)) => None,
        };
        proof {
            assert(raw_items.skip(done)[0] == raw_items[done]);
            assert(raw_items.skip(done).drop_first() =~= raw_items.skip(done + 1));
            assert(items[done] == item_view(item));
            lemma_stage_next(items, done, Staged { nodes: tree@, total: tree.total_bytes() });
        }
        match stage_item(&mut tree, item) {
            Ok(_) => {},
            Err(e) => {
                proof {
                    lemma_failure_is_final(nothing_staged(), items, done + 1);
                }
                return Err(e);
            },
        }
        proof {
            done = done + 1;
        }
    }
    proof {
        assert(items.take(done) =~= items);
    }
    tree.flatten_single_root();
    Ok(tree)
}

/// The site that an upload stages, by its format.
pub open spec fn extracted(format: ArchiveFormat, data: Seq<u8>) -> Result<Staged, SiteError> {
    match format {
        ArchiveFormat::Zip => extracted_zip(data),
        ArchiveFormat::TarGz => extracted_tar_gz(data),
    }
}

/// Extracts an upload of the given format into a staging tree.
pub fn extract(format: ArchiveFormat, data: Vec<u8>) -> (r: Result<StagingTree, SiteError>)
    ensures
        is_outcome(r, extracted(format, data@)),
{
    match format {
        ArchiveFormat::Zip => extract_zip(data),
        ArchiveFormat::TarGz => extract_tar_gz(data),
    }
}

} // verus!
