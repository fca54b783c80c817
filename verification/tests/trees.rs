use simple_pages::error::SiteError;
use simple_pages::inspect::{list_files, sort_by_path, summarize_files, total_size_of, FileEntry};
use simple_pages::path::sanitize_archive_path;
use simple_pages::tree::StagingTree;

fn path(raw: &str) -> simple_pages::path::SanitizedPath {
    sanitize_archive_path(raw).unwrap()
}

fn listing(tree: &StagingTree) -> Vec<(String, u64)> {
    list_files(tree).0.into_iter().map(|f| (f.path, f.size)).collect()
}

fn node_paths(tree: &StagingTree) -> Vec<String> {
    let mut out: Vec<String> = tree.entries().iter().map(|e| e.path.join("/")).collect();
    out.sort();
    out
}

#[test]
fn empty_tree_lists_nothing() {
    let tree = StagingTree::new();
    let (files, total) = list_files(&tree);
    assert!(files.is_empty());
    assert_eq!(total, 0);
    assert_eq!(tree.disk_usage(), 0);
}

#[test]
fn write_file_creates_the_directories_above() {
    let mut tree = StagingTree::new();
    tree.write_file(&path("a/b/c.txt"), b"hello".to_vec()).unwrap();
    assert_eq!(node_paths(&tree), vec!["a", "a/b", "a/b/c.txt"]);
    assert_eq!(listing(&tree), vec![("a/b/c.txt".to_string(), 5)]);
    assert_eq!(tree.disk_usage(), 5);
}

#[test]
fn write_file_replaces_an_existing_file() {
    let mut tree = StagingTree::new();
    tree.write_file(&path("a.txt"), b"first".to_vec()).unwrap();
    tree.write_file(&path("a.txt"), b"second!".to_vec()).unwrap();
    assert_eq!(listing(&tree), vec![("a.txt".to_string(), 7)]);
    assert_eq!(tree.disk_usage(), 7);
    let entry = tree.entries().iter().find(|e| e.path == vec!["a.txt".to_string()]).unwrap();
    assert_eq!(entry.content.as_deref(), Some(&b"second!"[..]));
}

#[test]
fn write_file_at_the_root_is_refused() {
    let mut tree = StagingTree::new();
    assert_eq!(tree.write_file(&path("."), b"x".to_vec()), Err(SiteError::IOFailure));
    assert!(tree.entries().is_empty());
}

#[test]
fn write_file_over_a_directory_is_refused() {
    let mut tree = StagingTree::new();
    tree.create_dir_all(&path("a/b")).unwrap();
    assert_eq!(tree.write_file(&path("a/b"), b"x".to_vec()), Err(SiteError::IOFailure));
    assert_eq!(node_paths(&tree), vec!["a", "a/b"]);
    assert_eq!(tree.disk_usage(), 0);
}

#[test]
fn write_file_below_a_file_is_refused() {
    let mut tree = StagingTree::new();
    tree.write_file(&path("a"), b"x".to_vec()).unwrap();
    assert_eq!(tree.write_file(&path("a/b.txt"), b"y".to_vec()), Err(SiteError::IOFailure));
    assert_eq!(tree.create_dir_all(&path("a/b")), Err(SiteError::IOFailure));
    assert_eq!(node_paths(&tree), vec!["a"]);
    assert_eq!(tree.disk_usage(), 1);
}

#[test]
fn create_dir_all_is_idempotent_and_accepts_the_root() {
    let mut tree = StagingTree::new();
    tree.create_dir_all(&path(".")).unwrap();
    assert!(tree.entries().is_empty());
    tree.create_dir_all(&path("x/y")).unwrap();
    tree.create_dir_all(&path("x/y")).unwrap();
    tree.create_dir_all(&path("x")).unwrap();
    assert_eq!(node_paths(&tree), vec!["x", "x/y"]);
    let (files, total) = list_files(&tree);
    assert!(files.is_empty());
    assert_eq!(total, 0);
}

#[test]
fn flatten_removes_a_single_wrapping_directory() {
    let mut tree = StagingTree::new();
    tree.write_file(&path("site/index.html"), b"<h1>".to_vec()).unwrap();
    tree.write_file(&path("site/css/main.css"), b"body{}".to_vec()).unwrap();
    assert!(tree.flatten_single_root());
    assert_eq!(node_paths(&tree), vec!["css", "css/main.css", "index.html"]);
    assert_eq!(
        listing(&tree),
        vec![("css/main.css".to_string(), 6), ("index.html".to_string(), 4)]
    );
    assert_eq!(tree.disk_usage(), 10);
}

#[test]
fn flatten_is_applied_once_only() {
    let mut tree = StagingTree::new();
    tree.write_file(&path("outer/inner/index.html"), b"x".to_vec()).unwrap();
    assert!(tree.flatten_single_root());
    assert_eq!(node_paths(&tree), vec!["inner", "inner/index.html"]);
}

#[test]
fn flatten_leaves_other_trees_alone() {
    let mut two = StagingTree::new();
    two.write_file(&path("a/index.html"), b"x".to_vec()).unwrap();
    two.write_file(&path("b.txt"), b"y".to_vec()).unwrap();
    assert!(!two.flatten_single_root());
    assert_eq!(node_paths(&two), vec!["a", "a/index.html", "b.txt"]);

    let mut single_file = StagingTree::new();
    single_file.write_file(&path("index.html"), b"x".to_vec()).unwrap();
    assert!(!single_file.flatten_single_root());
    assert_eq!(node_paths(&single_file), vec!["index.html"]);

    let mut empty = StagingTree::new();
    assert!(!empty.flatten_single_root());
    assert!(empty.entries().is_empty());
}

#[test]
fn flatten_of_an_empty_wrapper_leaves_an_empty_tree() {
    let mut tree = StagingTree::new();
    tree.create_dir_all(&path("site")).unwrap();
    assert!(tree.flatten_single_root());
    assert!(tree.entries().is_empty());
}

#[test]
fn listing_is_sorted_by_path_text() {
    let mut tree = StagingTree::new();
    for (p, data) in [("b.txt", "22"), ("a/z.txt", "1"), ("a.b", "333"), ("a/a.txt", ""), ("B.txt", "4444")] {
        tree.write_file(&path(p), data.as_bytes().to_vec()).unwrap();
    }
    let (files, total) = list_files(&tree);
    let got: Vec<(String, u64)> = files.into_iter().map(|f| (f.path, f.size)).collect();
    let mut expected = vec![
        ("b.txt".to_string(), 2),
        ("a/z.txt".to_string(), 1),
        ("a.b".to_string(), 3),
        ("a/a.txt".to_string(), 0),
        ("B.txt".to_string(), 4),
    ];
    expected.sort_by(|x, y| x.0.cmp(&y.0));
    assert_eq!(got, expected);
    assert_eq!(got[0].0, "B.txt");
    assert_eq!(got[1].0, "a.b");
    assert_eq!(total, 10);
}

#[test]
fn sort_by_path_agrees_with_the_order_of_strings() {
    let names = ["z", "a/b", "a.b", "a", "", "é", "e\u{301}", "Z", "a/", "a\u{10000}", "a\u{ffff}", "10", "9"];
    let files: Vec<FileEntry> =
        names.iter().enumerate().map(|(i, n)| FileEntry { path: n.to_string(), size: i as u64 }).collect();
    let sorted: Vec<String> = sort_by_path(files).into_iter().map(|f| f.path).collect();
    let mut expected: Vec<String> = names.iter().map(|n| n.to_string()).collect();
    expected.sort();
    assert_eq!(sorted, expected);
}

#[test]
fn sort_by_path_keeps_equal_paths_in_order() {
    let files = vec![
        FileEntry { path: "same".to_string(), size: 1 },
        FileEntry { path: "other".to_string(), size: 9 },
        FileEntry { path: "same".to_string(), size: 2 },
        FileEntry { path: "same".to_string(), size: 3 },
    ];
    let sorted: Vec<(String, u64)> = sort_by_path(files).into_iter().map(|f| (f.path, f.size)).collect();
    assert_eq!(
        sorted,
        vec![
            ("other".to_string(), 9),
            ("same".to_string(), 1),
            ("same".to_string(), 2),
            ("same".to_string(), 3)
        ]
    );
}

#[test]
fn summarize_files_sorts_and_adds_up() {
    let found = vec![
        FileEntry { path: "img/b.png".to_string(), size: 300 },
        FileEntry { path: "index.html".to_string(), size: 12 },
        FileEntry { path: "img/a.png".to_string(), size: 8 },
    ];
    let (files, total) = summarize_files(found).unwrap();
    let got: Vec<(String, u64)> = files.into_iter().map(|f| (f.path, f.size)).collect();
    assert_eq!(
        got,
        vec![("img/a.png".to_string(), 8), ("img/b.png".to_string(), 300), ("index.html".to_string(), 12)]
    );
    assert_eq!(total, 320);
}

#[test]
fn summarize_files_of_a_missing_tree_is_empty() {
    let (files, total) = summarize_files(Vec::new()).unwrap();
    assert!(files.is_empty());
    assert_eq!(total, 0);
}

#[test]
fn summarize_files_fails_when_the_sum_overflows() {
    let found = vec![
        FileEntry { path: "a".to_string(), size: u64::MAX },
        FileEntry { path: "b".to_string(), size: 1 },
    ];
    assert_eq!(total_size_of(&found), None);
    assert_eq!(summarize_files(found).unwrap_err(), SiteError::IOFailure);
    let fits = vec![
        FileEntry { path: "a".to_string(), size: u64::MAX - 1 },
        FileEntry { path: "b".to_string(), size: 1 },
    ];
    assert_eq!(total_size_of(&fits), Some(u64::MAX));
}
