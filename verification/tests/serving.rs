use std::io::Write;

use simple_pages::decoders::extract_zip;
use simple_pages::error::SiteError;
use simple_pages::serve::{
    components, only_username_chars, serve_user_site, serve_user_site_index, starts_with, Opening,
    Served,
};
use simple_pages::tree::StagingTree;

/// A filesystem in memory: files, directories and symbolic links by
/// absolute path.
struct Disk {
    files: Vec<(String, Vec<u8>)>,
    dirs: Vec<String>,
    links: Vec<(String, String)>,
}

impl Disk {
    fn new() -> Disk {
        Disk { files: Vec::new(), dirs: vec!["/".to_string()], links: Vec::new() }
    }

    fn add_dir(&mut self, path: &str) {
        let mut at = String::new();
        for piece in path.split('/').filter(|p| !p.is_empty()) {
            at.push('/');
            at.push_str(piece);
            if !self.dirs.contains(&at) {
                self.dirs.push(at.clone());
            }
        }
    }

    fn add_file(&mut self, path: &str, data: &[u8]) {
        let parent = &path[..path.rfind('/').unwrap()];
        self.add_dir(parent);
        self.files.push((path.to_string(), data.to_vec()));
    }

    fn publish(&mut self, root: &str, tree: &StagingTree) {
        self.add_dir(root);
        for entry in tree.entries() {
            let path = format!("{root}/{}", entry.path.join("/"));
            match &entry.content {
                Some(bytes) => self.add_file(&path, bytes),
                None => self.add_dir(&path),
            }
        }
    }

    fn is_dir(&self, path: &str) -> bool {
        self.dirs.iter().any(|d| d == path)
    }

    fn read(&self, path: &str) -> Option<Vec<u8>> {
        self.files.iter().find(|(p, _)| p == path).map(|(_, data)| data.clone())
    }

    /// The canonical form of a path: links followed, `.` and `..` resolved,
    /// and `None` where nothing is there.
    fn canonicalize(&self, path: &str) -> Option<String> {
        let mut at: Vec<String> = Vec::new();
        let mut rest: Vec<String> = path.split('/').rev().map(|p| p.to_string()).collect();
        let mut hops = 0;
        while let Some(piece) = rest.pop() {
            if piece.is_empty() || piece == "." {
                continue;
            }
            if piece == ".." {
                at.pop();
                continue;
            }
            at.push(piece);
            let here = format!("/{}", at.join("/"));
            if let Some((_, target)) = self.links.iter().find(|(from, _)| *from == here) {
                hops += 1;
                if hops > 16 {
                    return None;
                }
                if target.starts_with('/') {
                    at.clear();
                } else {
                    at.pop();
                }
                for p in target.split('/').rev() {
                    rest.push(p.to_string());
                }
                continue;
            }
            if !self.is_dir(&here) && self.read(&here).is_none() {
                return None;
            }
        }
        Some(format!("/{}", at.join("/")))
    }
}

/// Answers a request as a caller of the library does.
fn serve(disk: &Disk, sites_dir: &str, username: &str, path: Option<&str>) -> Result<Served, SiteError> {
    let request = match path {
        Some(path) => serve_user_site(sites_dir, username, path)?,
        None => serve_user_site_index(sites_dir, username)?,
    };
    let root = disk.canonicalize(request.sites_dir());
    let target = disk.canonicalize(request.target());
    let located = request.located(root, target)?;
    let is_dir = disk.is_dir(located.file());
    let readable = match located.open(is_dir) {
        Opening::Read(readable) => readable,
        Opening::Index(index) => {
            let target = disk.canonicalize(index.target());
            index.located(target)?
        }
    };
    let content = disk.read(readable.file());
    readable.served(content)
}

fn zip_of(files: &[(&str, &[u8])]) -> Vec<u8> {
    let options =
        zip::write::SimpleFileOptions::default().compression_method(zip::CompressionMethod::Deflated);
    let mut writer = zip::ZipWriter::new(std::io::Cursor::new(Vec::new()));
    for (name, data) in files {
        writer.start_file(*name, options).unwrap();
        writer.write_all(data).unwrap();
    }
    writer.finish().unwrap().into_inner()
}

fn two_sites() -> Disk {
    let mut disk = Disk::new();
    disk.add_file("/srv/sites/alice/index.html", b"<h1>alice</h1>");
    disk.add_file("/srv/sites/alice/docs/index.html", b"docs");
    disk.add_file("/srv/sites/alice/docs/guide.md", b"# guide");
    disk.add_dir("/srv/sites/alice/empty");
    disk.add_file("/srv/sites/other/secret.txt", b"secret");
    disk.add_file("/srv/sites/alice2/x.txt", b"neighbour");
    disk.add_file("/etc/passwd", b"root:x");
    disk
}

#[test]
fn extracted_file_is_served_with_its_content_type() {
    let tree = extract_zip(zip_of(&[("a/b.txt", b"hi"), ("index.html", b"<p>home</p>")])).unwrap();
    let mut disk = Disk::new();
    disk.publish("/srv/sites/alice", &tree);
    let served = serve(&disk, "/srv/sites", "alice", Some("a/b.txt")).unwrap();
    assert_eq!(served.body, b"hi");
    assert_eq!(served.content_type, "text/plain; charset=utf-8");
}

#[test]
fn single_wrapping_directory_is_not_part_of_the_served_path() {
    let tree = extract_zip(zip_of(&[("a/b.txt", b"hi")])).unwrap();
    let mut disk = Disk::new();
    disk.publish("/srv/sites/alice", &tree);
    let served = serve(&disk, "/srv/sites", "alice", Some("b.txt")).unwrap();
    assert_eq!(served.body, b"hi");
    assert_eq!(served.content_type, "text/plain; charset=utf-8");
    assert_eq!(serve(&disk, "/srv/sites", "alice", Some("a/b.txt")).unwrap_err(), SiteError::NotFound);
}

#[test]
fn index_is_served_for_the_site_root() {
    let disk = two_sites();
    let served = serve(&disk, "/srv/sites", "alice", None).unwrap();
    assert_eq!(served.body, b"<h1>alice</h1>");
    assert_eq!(served.content_type, "text/html; charset=utf-8");
}

#[test]
fn missing_index_is_not_found() {
    let mut disk = Disk::new();
    disk.add_file("/srv/sites/bob/page.html", b"page");
    assert_eq!(serve(&disk, "/srv/sites", "bob", None).unwrap_err(), SiteError::NotFound);
    assert_eq!(serve(&disk, "/srv/sites", "bob", Some("")).unwrap_err(), SiteError::NotFound);
}

#[test]
fn directory_is_answered_with_its_index() {
    let disk = two_sites();
    let served = serve(&disk, "/srv/sites", "alice", Some("docs")).unwrap();
    assert_eq!(served.body, b"docs");
    assert_eq!(served.content_type, "text/html; charset=utf-8");
    let slash = serve(&disk, "/srv/sites", "alice", Some("docs/")).unwrap();
    assert_eq!(slash.body, b"docs");
    let root = serve(&disk, "/srv/sites", "alice", Some("")).unwrap();
    assert_eq!(root.body, b"<h1>alice</h1>");
}

#[test]
fn directory_without_index_is_not_found() {
    let disk = two_sites();
    assert_eq!(serve(&disk, "/srv/sites", "alice", Some("empty")).unwrap_err(), SiteError::NotFound);
}

#[test]
fn missing_file_is_not_found() {
    let disk = two_sites();
    assert_eq!(serve(&disk, "/srv/sites", "alice", Some("nope.txt")).unwrap_err(), SiteError::NotFound);
    assert_eq!(serve(&disk, "/srv/sites", "nobody", Some("index.html")).unwrap_err(), SiteError::NotFound);
}

#[test]
fn traversal_to_another_site_is_forbidden() {
    let disk = two_sites();
    assert_eq!(
        serve(&disk, "/srv/sites", "alice", Some("../other/secret.txt")).unwrap_err(),
        SiteError::Forbidden
    );
    assert_eq!(
        serve(&disk, "/srv/sites", "alice", Some("docs/../../other/secret.txt")).unwrap_err(),
        SiteError::Forbidden
    );
    assert_eq!(serve(&disk, "/srv/sites", "alice", Some("..")).unwrap_err(), SiteError::Forbidden);
    assert_eq!(serve(&disk, "/srv/sites", "alice", Some("/etc/passwd")).unwrap_err(), SiteError::Forbidden);
}

#[test]
fn a_neighbour_whose_name_starts_alike_is_forbidden() {
    let disk = two_sites();
    assert_eq!(
        serve(&disk, "/srv/sites", "alice", Some("../alice2/x.txt")).unwrap_err(),
        SiteError::Forbidden
    );
}

#[test]
fn traversal_that_stays_inside_is_served() {
    let disk = two_sites();
    let served = serve(&disk, "/srv/sites", "alice", Some("docs/../docs/guide.md")).unwrap();
    assert_eq!(served.body, b"# guide");
    assert_eq!(served.content_type, "text/plain; charset=utf-8");
}

#[test]
fn symbolic_link_out_of_the_site_is_forbidden() {
    let mut disk = two_sites();
    disk.links.push(("/srv/sites/alice/leak".to_string(), "/etc/passwd".to_string()));
    disk.links.push(("/srv/sites/alice/peek".to_string(), "../other".to_string()));
    assert_eq!(serve(&disk, "/srv/sites", "alice", Some("leak")).unwrap_err(), SiteError::Forbidden);
    assert_eq!(
        serve(&disk, "/srv/sites", "alice", Some("peek/secret.txt")).unwrap_err(),
        SiteError::Forbidden
    );
}

#[test]
fn symbolic_link_as_index_out_of_the_site_is_forbidden() {
    let mut disk = two_sites();
    disk.add_dir("/srv/sites/alice/trap");
    disk.links.push(("/srv/sites/alice/trap/index.html".to_string(), "/etc/passwd".to_string()));
    assert_eq!(serve(&disk, "/srv/sites", "alice", Some("trap")).unwrap_err(), SiteError::Forbidden);
}

#[test]
fn symbolic_link_within_the_site_is_served() {
    let mut disk = two_sites();
    disk.links.push(("/srv/sites/alice/manual".to_string(), "docs/guide.md".to_string()));
    let served = serve(&disk, "/srv/sites", "alice", Some("manual")).unwrap();
    assert_eq!(served.body, b"# guide");
}

#[test]
fn sandbox_root_behind_a_link_is_resolved() {
    let mut disk = two_sites();
    disk.links.push(("/data".to_string(), "/srv".to_string()));
    let served = serve(&disk, "/data/sites", "alice", Some("docs/guide.md")).unwrap();
    assert_eq!(served.body, b"# guide");
}

#[test]
fn malformed_user_name_is_not_found() {
    let disk = two_sites();
    for name in ["..", "al ice", "alice/..", "a.b", "ålice", "alice\n", "%2e%2e"] {
        assert_eq!(
            serve(&disk, "/srv/sites", name, Some("index.html")).unwrap_err(),
            SiteError::NotFound,
            "{name:?}"
        );
    }
}

#[test]
fn unreadable_file_is_not_found() {
    let request = serve_user_site("/srv/sites", "alice", "index.html").unwrap();
    assert_eq!(request.target(), "/srv/sites/alice/index.html");
    let located = request
        .located(Some("/srv/sites".to_string()), Some("/srv/sites/alice/index.html".to_string()))
        .unwrap();
    let readable = match located.open(false) {
        Opening::Read(readable) => readable,
        Opening::Index(_) => panic!("a file was taken for a directory"),
    };
    assert_eq!(readable.file(), "/srv/sites/alice/index.html");
    assert_eq!(readable.served(None).unwrap_err(), SiteError::NotFound);
}

#[test]
fn target_without_canonical_form_is_not_found_before_containment_is_checked() {
    let request = serve_user_site("/srv/sites", "alice", "../other/gone").unwrap();
    assert_eq!(request.located(Some("/srv/sites".to_string()), None).unwrap_err(), SiteError::NotFound);
}

#[test]
fn configured_root_is_used_where_it_has_no_canonical_form() {
    let request = serve_user_site("/srv/sites", "alice", "x").unwrap();
    assert!(request.located(None, Some("/srv/sites/alice/x".to_string())).is_ok());
    let request = serve_user_site("/srv/sites", "alice", "x").unwrap();
    assert_eq!(
        request.located(None, Some("/mnt/sites/alice/x".to_string())).unwrap_err(),
        SiteError::Forbidden
    );
}

#[test]
fn index_request_names_index_html_in_the_directory() {
    let request = serve_user_site("/srv/sites", "alice", "docs").unwrap();
    let located = request
        .located(Some("/srv/sites".to_string()), Some("/srv/sites/alice/docs".to_string()))
        .unwrap();
    assert_eq!(located.file(), "/srv/sites/alice/docs");
    match located.open(true) {
        Opening::Index(index) => {
            assert_eq!(index.target(), "/srv/sites/alice/docs/index.html");
            assert_eq!(index.located(None).unwrap_err(), SiteError::NotFound);
        }
        Opening::Read(_) => panic!("a directory was taken for a file"),
    }
}

#[test]
fn request_target_joins_root_user_and_path() {
    assert_eq!(serve_user_site("/srv/sites", "alice", "a/b").unwrap().target(), "/srv/sites/alice/a/b");
    assert_eq!(serve_user_site("/srv/sites/", "alice", "").unwrap().target(), "/srv/sites/alice/");
    assert_eq!(serve_user_site("/srv/sites", "alice", "/abs").unwrap().target(), "/abs");
    assert_eq!(serve_user_site_index("/srv/sites", "bob").unwrap().target(), "/srv/sites/bob/index.html");
    assert_eq!(serve_user_site("sites", "", "x").unwrap().target(), "sites/x");
}

#[test]
fn user_name_characters() {
    assert!(only_username_chars("alice"));
    assert!(only_username_chars("Alice-99_x"));
    assert!(only_username_chars(""));
    assert!(!only_username_chars("a.b"));
    assert!(!only_username_chars("a b"));
    assert!(!only_username_chars("a/b"));
    assert!(!only_username_chars("é"));
    assert!(!only_username_chars("{"));
    assert!(!only_username_chars("@"));
    assert!(!only_username_chars("["));
    assert!(!only_username_chars("`"));
    assert!(!only_username_chars(":"));
}

fn texts(pieces: Vec<Vec<char>>) -> Vec<String> {
    pieces.into_iter().map(|p| p.into_iter().collect()).collect()
}

#[test]
fn components_follow_the_rules_of_paths() {
    assert_eq!(texts(components("/srv//sites/./alice/")), vec!["/", "srv", "sites", "alice"]);
    assert_eq!(texts(components("a/./b")), vec!["a", "b"]);
    assert_eq!(texts(components("./a/b")), vec![".", "a", "b"]);
    assert_eq!(texts(components("a/../b")), vec!["a", "..", "b"]);
    assert_eq!(texts(components("")), Vec::<String>::new());
    assert_eq!(texts(components("/")), vec!["/"]);
    assert_eq!(texts(components(".")), vec!["."]);
}

#[test]
fn starts_with_compares_whole_components() {
    let cases = [
        ("/srv/sites/alice/x", "/srv/sites/alice"),
        ("/srv/sites/alice", "/srv/sites/alice"),
        ("/srv/sites/alice2", "/srv/sites/alice"),
        ("/srv/sites/alice/", "/srv/sites/alice"),
        ("/srv/sites", "/srv/sites/alice"),
        ("srv/sites/alice", "/srv/sites/alice"),
        ("/a/b", "/"),
        ("a/b", ""),
        ("/a//b/c", "/a/b"),
        ("./a", "a"),
    ];
    for (path, base) in cases {
        assert_eq!(
            starts_with(path, base),
            std::path::Path::new(path).starts_with(base),
            "{path:?} {base:?}"
        );
    }
    assert!(starts_with("/srv/sites/alice/x", "/srv/sites/alice"));
    assert!(!starts_with("/srv/sites/alice2", "/srv/sites/alice"));
}
