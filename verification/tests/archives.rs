use std::io::Write;

use simple_pages::archive::{
    archive_format, stage_entries, stage_entry, ArchiveEntry, ArchiveFormat, EntryKind,
};
use simple_pages::decoders::{entry_of, extract, extract_tar_gz, extract_zip, RawEntry};
use simple_pages::error::{SiteError, UnsafePath};
use simple_pages::inspect::list_files;
use simple_pages::tree::StagingTree;

fn stored() -> zip::write::SimpleFileOptions {
    zip::write::SimpleFileOptions::default().compression_method(zip::CompressionMethod::Stored)
}

fn deflated() -> zip::write::SimpleFileOptions {
    zip::write::SimpleFileOptions::default().compression_method(zip::CompressionMethod::Deflated)
}

fn zip_of(files: &[(&str, &[u8])]) -> Vec<u8> {
    let mut writer = zip::ZipWriter::new(std::io::Cursor::new(Vec::new()));
    for (name, data) in files {
        if name.ends_with('/') {
            writer.add_directory(*name, stored()).unwrap();
        } else {
            writer.start_file(*name, deflated()).unwrap();
            writer.write_all(data).unwrap();
        }
    }
    writer.finish().unwrap().into_inner()
}

fn tar_header(name: &[u8], size: u64, kind: tar::EntryType) -> tar::Header {
    let mut header = tar::Header::new_gnu();
    header.as_old_mut().name[..name.len()].copy_from_slice(name);
    header.set_size(size);
    header.set_mode(0o644);
    header.set_entry_type(kind);
    header.set_cksum();
    header
}

fn tar_gz_of(entries: &[(&str, &[u8], tar::EntryType)]) -> Vec<u8> {
    let encoder = flate2::write::GzEncoder::new(Vec::new(), flate2::Compression::default());
    let mut builder = tar::Builder::new(encoder);
    for (name, data, kind) in entries {
        let header = tar_header(name.as_bytes(), data.len() as u64, *kind);
        builder.append(&header, *data).unwrap();
    }
    builder.into_inner().unwrap().finish().unwrap()
}

fn listing(tree: &StagingTree) -> Vec<(String, u64)> {
    list_files(tree).0.into_iter().map(|f| (f.path, f.size)).collect()
}

fn content_of(tree: &StagingTree, path: &str) -> Option<Vec<u8>> {
    tree.entries().iter().find(|e| e.path.join("/") == path).and_then(|e| e.content.clone())
}

fn file(path: &str, data: &[u8]) -> Option<ArchiveEntry> {
    Some(ArchiveEntry { path: path.to_string(), kind: EntryKind::File, content: Some(data.to_vec()) })
}

fn dir(path: &str) -> Option<ArchiveEntry> {
    Some(ArchiveEntry { path: path.to_string(), kind: EntryKind::Directory, content: None })
}

#[test]
fn format_is_selected_by_suffix() {
    assert_eq!(archive_format("site.zip"), Some(ArchiveFormat::Zip));
    assert_eq!(archive_format("site.tar.gz"), Some(ArchiveFormat::TarGz));
    assert_eq!(archive_format("site.tgz"), Some(ArchiveFormat::TarGz));
    assert_eq!(archive_format(".zip"), Some(ArchiveFormat::Zip));
    assert_eq!(archive_format("site.ZIP"), None);
    assert_eq!(archive_format("site.tar"), None);
    assert_eq!(archive_format("site.gz"), None);
    assert_eq!(archive_format("site.zip.txt"), None);
    assert_eq!(archive_format("upload"), None);
    assert_eq!(archive_format(""), None);
    assert_eq!(archive_format("zip"), None);
}

#[test]
fn zip_round_trip_of_one_file() {
    let tree = extract_zip(zip_of(&[("a/b.txt", b"hi")])).unwrap();
    assert_eq!(listing(&tree), vec![("b.txt".to_string(), 2)]);
    assert_eq!(content_of(&tree, "b.txt"), Some(b"hi".to_vec()));
}

#[test]
fn zip_with_two_top_level_entries_is_not_flattened() {
    let tree = extract_zip(zip_of(&[("a/b.txt", b"hi"), ("index.html", b"<p>")])).unwrap();
    assert_eq!(listing(&tree), vec![("a/b.txt".to_string(), 2), ("index.html".to_string(), 3)]);
    assert_eq!(content_of(&tree, "a/b.txt"), Some(b"hi".to_vec()));
    assert_eq!(tree.disk_usage(), 5);
}

#[test]
fn zip_wrapper_directory_is_flattened() {
    let tree = extract_zip(zip_of(&[
        ("site/", b""),
        ("site/index.html", b"<h1>home</h1>"),
        ("site/img/", b""),
        ("site/img/logo.svg", b"<svg/>"),
    ]))
    .unwrap();
    assert_eq!(
        listing(&tree),
        vec![("img/logo.svg".to_string(), 6), ("index.html".to_string(), 13)]
    );
    assert!(tree.entries().iter().all(|e| e.path[0] != "site"));
}

#[test]
fn zip_that_is_no_zip_is_corrupt() {
    assert_eq!(extract_zip(b"this is not an archive".to_vec()).unwrap_err(), SiteError::CorruptArchive);
    assert_eq!(extract_zip(Vec::new()).unwrap_err(), SiteError::CorruptArchive);
}

#[test]
fn zip_with_damaged_content_is_corrupt() {
    let mut data = zip_of(&[("index.html", &[b'x'; 4096][..])]);
    // Flip bytes in the compressed stream, which follows the local header.
    for i in 50..60 {
        data[i] ^= 0xff;
    }
    assert_eq!(extract_zip(data).unwrap_err(), SiteError::CorruptArchive);
}

#[test]
fn zip_with_unsafe_paths_is_refused() {
    assert_eq!(
        extract_zip(zip_of(&[("ok.txt", b"1"), ("../evil.txt", b"2")])).unwrap_err(),
        SiteError::UnsafePath(UnsafePath::PathTraversal)
    );
    assert_eq!(
        extract_zip(zip_of(&[("/etc/passwd", b"2")])).unwrap_err(),
        SiteError::UnsafePath(UnsafePath::AbsolutePath)
    );
    assert_eq!(
        extract_zip(zip_of(&[("site/.htaccess", b"2")])).unwrap_err(),
        SiteError::UnsafePath(UnsafePath::HiddenEntry)
    );
}

#[test]
fn zip_symlinks_are_skipped() {
    let mut writer = zip::ZipWriter::new(std::io::Cursor::new(Vec::new()));
    writer.start_file("index.html", stored()).unwrap();
    writer.write_all(b"home").unwrap();
    writer.add_symlink("secret", "/etc/passwd", stored()).unwrap();
    let data = writer.finish().unwrap().into_inner();
    let tree = extract_zip(data).unwrap();
    assert_eq!(listing(&tree), vec![("index.html".to_string(), 4)]);
    assert_eq!(tree.entries().len(), 1);
}

#[test]
fn tar_gz_round_trip_of_one_file() {
    let data = tar_gz_of(&[("a/b.txt", b"hi", tar::EntryType::Regular)]);
    let tree = extract_tar_gz(data).unwrap();
    assert_eq!(listing(&tree), vec![("b.txt".to_string(), 2)]);
    assert_eq!(content_of(&tree, "b.txt"), Some(b"hi".to_vec()));
}

#[test]
fn tar_gz_wrapper_directory_is_flattened() {
    let data = tar_gz_of(&[
        ("./", b"", tar::EntryType::Directory),
        ("./site/", b"", tar::EntryType::Directory),
        ("./site/index.html", b"<h1>", tar::EntryType::Regular),
        ("./site/js/app.js", b"let x;", tar::EntryType::Regular),
    ]);
    let tree = extract(ArchiveFormat::TarGz, data).unwrap();
    assert_eq!(listing(&tree), vec![("index.html".to_string(), 4), ("js/app.js".to_string(), 6)]);
}

#[test]
fn tar_gz_special_entries_are_skipped_but_their_paths_are_checked() {
    let data = tar_gz_of(&[
        ("index.html", b"home", tar::EntryType::Regular),
        ("link", b"", tar::EntryType::Symlink),
        ("pipe", b"", tar::EntryType::Fifo),
        ("other.txt", b"x", tar::EntryType::Regular),
    ]);
    let tree = extract_tar_gz(data).unwrap();
    assert_eq!(listing(&tree), vec![("index.html".to_string(), 4), ("other.txt".to_string(), 1)]);

    let unsafe_link = tar_gz_of(&[("../link", b"", tar::EntryType::Symlink)]);
    assert_eq!(
        extract_tar_gz(unsafe_link).unwrap_err(),
        SiteError::UnsafePath(UnsafePath::PathTraversal)
    );
}

#[test]
fn tar_gz_with_unsafe_paths_is_refused() {
    assert_eq!(
        extract_tar_gz(tar_gz_of(&[("a/../../x", b"1", tar::EntryType::Regular)])).unwrap_err(),
        SiteError::UnsafePath(UnsafePath::PathTraversal)
    );
    assert_eq!(
        extract_tar_gz(tar_gz_of(&[("/abs", b"1", tar::EntryType::Regular)])).unwrap_err(),
        SiteError::UnsafePath(UnsafePath::AbsolutePath)
    );
    assert_eq!(
        extract_tar_gz(tar_gz_of(&[("ok", b"1", tar::EntryType::Regular), (".env", b"1", tar::EntryType::Regular)]))
            .unwrap_err(),
        SiteError::UnsafePath(UnsafePath::HiddenEntry)
    );
}

#[test]
fn tar_gz_that_is_no_gzip_is_corrupt() {
    assert_eq!(extract_tar_gz(b"plain text, no gzip".to_vec()).unwrap_err(), SiteError::CorruptArchive);
}

#[test]
fn tar_gz_cut_short_is_corrupt() {
    let mut data = tar_gz_of(&[("big.bin", &[7u8; 100_000][..], tar::EntryType::Regular)]);
    data.truncate(data.len() / 2);
    assert_eq!(extract_tar_gz(data).unwrap_err(), SiteError::CorruptArchive);
}

#[test]
fn empty_tar_gz_gives_an_empty_tree() {
    let tree = extract_tar_gz(tar_gz_of(&[])).unwrap();
    assert!(tree.entries().is_empty());
    assert_eq!(tree.disk_usage(), 0);
}

#[test]
fn extract_dispatches_by_format() {
    let zipped = zip_of(&[("x.txt", b"zip"), ("y.txt", b"!")]);
    let tarred = tar_gz_of(&[("x.txt", b"tar", tar::EntryType::Regular), ("y.txt", b"!", tar::EntryType::Regular)]);
    let a = extract(ArchiveFormat::Zip, zipped.clone()).unwrap();
    let b = extract(ArchiveFormat::TarGz, tarred.clone()).unwrap();
    assert_eq!(content_of(&a, "x.txt"), Some(b"zip".to_vec()));
    assert_eq!(content_of(&b, "x.txt"), Some(b"tar".to_vec()));
    assert_eq!(extract(ArchiveFormat::TarGz, zipped).unwrap_err(), SiteError::CorruptArchive);
    assert_eq!(extract(ArchiveFormat::Zip, tarred).unwrap_err(), SiteError::CorruptArchive);
}

#[test]
fn entry_of_classifies_a_report() {
    let raw = |name: Option<&str>, is_dir, is_file| RawEntry {
        name: name.map(|n| n.to_string()),
        is_dir,
        is_file,
        content: Some(vec![1, 2]),
    };
    assert_eq!(entry_of(raw(Some("a"), true, false)).unwrap().kind, EntryKind::Directory);
    assert_eq!(entry_of(raw(Some("a"), true, true)).unwrap().kind, EntryKind::Directory);
    assert_eq!(entry_of(raw(Some("a"), false, true)).unwrap().kind, EntryKind::File);
    assert_eq!(entry_of(raw(Some("a"), false, false)).unwrap().kind, EntryKind::Other);
    assert!(entry_of(raw(None, false, true)).is_none());
    let kept = entry_of(raw(Some("p/q"), false, true)).unwrap();
    assert_eq!(kept.path, "p/q");
    assert_eq!(kept.content, Some(vec![1, 2]));
}

#[test]
fn stage_entries_stages_in_order_and_flattens() {
    let tree = stage_entries(vec![dir("site/"), file("site/index.html", b"one"), file("site/index.html", b"three")])
        .unwrap();
    assert_eq!(listing(&tree), vec![("index.html".to_string(), 5)]);
    assert_eq!(content_of(&tree, "index.html"), Some(b"three".to_vec()));
}

#[test]
fn stage_entries_stops_at_the_first_failure() {
    assert_eq!(
        stage_entries(vec![file("ok", b"1"), None, file("../x", b"2")]).unwrap_err(),
        SiteError::CorruptArchive
    );
    assert_eq!(
        stage_entries(vec![file("ok", b"1"), file("../x", b"2"), None]).unwrap_err(),
        SiteError::UnsafePath(UnsafePath::PathTraversal)
    );
    assert_eq!(
        stage_entries(vec![file("a", b"1"), file("a/b", b"2")]).unwrap_err(),
        SiteError::IOFailure
    );
    let unreadable = Some(ArchiveEntry { path: "f".to_string(), kind: EntryKind::File, content: None });
    assert_eq!(stage_entries(vec![unreadable]).unwrap_err(), SiteError::CorruptArchive);
    let unreadable_but_unsafe =
        Some(ArchiveEntry { path: "/f".to_string(), kind: EntryKind::File, content: None });
    assert_eq!(
        stage_entries(vec![unreadable_but_unsafe]).unwrap_err(),
        SiteError::UnsafePath(UnsafePath::AbsolutePath)
    );
}

#[test]
fn stage_entry_skips_other_kinds() {
    let mut tree = StagingTree::new();
    let link = ArchiveEntry { path: "link".to_string(), kind: EntryKind::Other, content: Some(vec![1]) };
    stage_entry(&mut tree, link).unwrap();
    assert!(tree.entries().is_empty());
    let hidden = ArchiveEntry { path: ".link".to_string(), kind: EntryKind::Other, content: None };
    assert_eq!(stage_entry(&mut tree, hidden).unwrap_err(), SiteError::UnsafePath(UnsafePath::HiddenEntry));
}

#[test]
fn empty_archive_of_entries_gives_an_empty_tree() {
    let tree = stage_entries(Vec::new()).unwrap();
    assert!(tree.entries().is_empty());
}

#[test]
fn archive_with_many_entries_is_staged() {
    let mut entries: Vec<(String, Vec<u8>)> = Vec::new();
    for d in 0..40 {
        for f in 0..50 {
            entries.push((format!("site/dir{d:02}/sub/file{f:02}.txt"), format!("{d}-{f}").into_bytes()));
        }
    }
    let borrowed: Vec<(&str, &[u8], tar::EntryType)> =
        entries.iter().map(|(n, b)| (n.as_str(), b.as_slice(), tar::EntryType::Regular)).collect();
    let tree = extract_tar_gz(tar_gz_of(&borrowed)).unwrap();
    let (files, total) = list_files(&tree);
    assert_eq!(files.len(), 2000);
    assert_eq!(files[0].path, "dir00/sub/file00.txt");
    assert_eq!(files[1999].path, "dir39/sub/file49.txt");
    assert!(files.windows(2).all(|w| w[0].path < w[1].path));
    assert_eq!(total, entries.iter().map(|(_, b)| b.len() as u64).sum::<u64>());
    assert_eq!(tree.entries().len(), 2000 + 80);
}
