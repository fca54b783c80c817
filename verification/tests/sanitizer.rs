use simple_pages::error::UnsafePath;
use simple_pages::path::{join_relative, sanitize_archive_path, split_text};

fn segments_of(raw: &str) -> Vec<String> {
    sanitize_archive_path(raw).unwrap().segments().clone()
}

#[test]
fn sanitize_keeps_plain_segments() {
    let p = sanitize_archive_path("a/b.txt").unwrap();
    assert_eq!(p.to_path_string(), "a/b.txt");
    assert_eq!(p.segments().clone(), vec!["a".to_string(), "b.txt".to_string()]);
    assert!(!p.is_root());
}

#[test]
fn sanitize_drops_current_dir_and_empty_segments() {
    assert_eq!(segments_of("./a//b/./c/"), vec!["a", "b", "c"]);
    assert_eq!(segments_of("a/."), vec!["a"]);
}

#[test]
fn sanitize_empty_result_is_the_root() {
    for raw in ["", ".", "./", "./.", ".//."] {
        let p = sanitize_archive_path(raw).unwrap();
        assert!(p.is_root(), "{raw:?}");
        assert_eq!(p.to_path_string(), ".");
        assert_eq!(p.segments().len(), 0);
    }
}

#[test]
fn sanitize_refuses_traversal() {
    assert_eq!(sanitize_archive_path("a/../b").unwrap_err(), UnsafePath::PathTraversal);
    assert_eq!(sanitize_archive_path("..").unwrap_err(), UnsafePath::PathTraversal);
    assert_eq!(sanitize_archive_path("../etc/passwd").unwrap_err(), UnsafePath::PathTraversal);
    assert_eq!(sanitize_archive_path("a/b/..").unwrap_err(), UnsafePath::PathTraversal);
}

#[test]
fn sanitize_refuses_absolute_paths() {
    assert_eq!(sanitize_archive_path("/etc/passwd").unwrap_err(), UnsafePath::AbsolutePath);
    assert_eq!(sanitize_archive_path("/").unwrap_err(), UnsafePath::AbsolutePath);
    assert_eq!(sanitize_archive_path("//a").unwrap_err(), UnsafePath::AbsolutePath);
}

#[test]
fn sanitize_refuses_hidden_segments_at_any_level() {
    assert_eq!(sanitize_archive_path(".git/config").unwrap_err(), UnsafePath::HiddenEntry);
    assert_eq!(sanitize_archive_path("a/.hidden/b").unwrap_err(), UnsafePath::HiddenEntry);
    assert_eq!(sanitize_archive_path("a/b/.env").unwrap_err(), UnsafePath::HiddenEntry);
    assert_eq!(sanitize_archive_path("a/...").unwrap_err(), UnsafePath::HiddenEntry);
    assert_eq!(sanitize_archive_path("..a").unwrap_err(), UnsafePath::HiddenEntry);
}

#[test]
fn sanitize_reports_the_first_offending_segment() {
    assert_eq!(sanitize_archive_path(".git/../x").unwrap_err(), UnsafePath::HiddenEntry);
    assert_eq!(sanitize_archive_path("../.git").unwrap_err(), UnsafePath::PathTraversal);
    assert_eq!(sanitize_archive_path("/../.git").unwrap_err(), UnsafePath::AbsolutePath);
}

#[test]
fn sanitize_accepts_dots_inside_names() {
    assert_eq!(segments_of("a.b/c..d/e."), vec!["a.b", "c..d", "e."]);
    assert_eq!(segments_of("back\\slash/x"), vec!["back\\slash", "x"]);
}

#[test]
fn sanitize_handles_non_ascii_names() {
    assert_eq!(segments_of("bilder/grüße.txt"), vec!["bilder", "grüße.txt"]);
}

#[test]
fn sanitized_paths_stay_below_any_root() {
    let raws = ["a/b.txt", "./x//y/", "", "deep/er/still/file", "a.b/c"];
    let roots = ["/srv/sites/alice", "/srv/sites/alice/", "relative/root", "", "/"];
    for raw in raws {
        let p = sanitize_archive_path(raw).unwrap();
        for root in roots {
            let joined = join_relative(root, &p.to_path_string());
            let root_pieces: Vec<String> = resolve(root);
            let joined_pieces: Vec<String> = resolve(&joined);
            assert!(joined_pieces.len() >= root_pieces.len());
            assert_eq!(joined_pieces[..root_pieces.len()], root_pieces[..]);
            assert_eq!(joined_pieces[root_pieces.len()..], p.segments()[..]);
        }
    }
}

fn resolve(path: &str) -> Vec<String> {
    let mut out: Vec<String> = Vec::new();
    for piece in split_text(path) {
        let piece: String = piece.into_iter().collect();
        if piece.is_empty() || piece == "." {
            continue;
        }
        if piece == ".." {
            out.pop();
        } else {
            out.push(piece);
        }
    }
    out
}

#[test]
fn sanitizing_twice_changes_nothing() {
    for raw in ["a/b.txt", "./x//y/", "", "one"] {
        let once = sanitize_archive_path(raw).unwrap();
        let twice = sanitize_archive_path(&once.to_path_string()).unwrap();
        assert_eq!(once.segments(), twice.segments());
    }
}

#[test]
fn join_relative_adds_one_separator() {
    assert_eq!(join_relative("/data", "sites"), "/data/sites");
    assert_eq!(join_relative("/data/", "sites"), "/data/sites");
    assert_eq!(join_relative("", "sites"), "sites");
    assert_eq!(join_relative("/data", ""), "/data/");
}

#[test]
fn split_text_keeps_empty_pieces() {
    let pieces: Vec<String> = split_text("/a//b/").into_iter().map(|p| p.into_iter().collect()).collect();
    assert_eq!(pieces, vec!["", "a", "", "b", ""]);
    assert_eq!(split_text("").len(), 1);
}
