//! Resolving a request to a file of a user's published site.
//!
//! Resolution alternates with questions to the filesystem. Each step here
//! takes the answer to the last question and hands out the next: a value
//! whose type says what is to be asked. A file can only be read through a
//! `Readable`, and a `Readable` is only made for a place that was found to
//! lie within the user's own tree.

use vstd::prelude::*;
use crate::error::SiteError;
use crate::mime::{content_type_of, extension_of, mime_of_lowercase};
use crate::path::{
    chars_view, is_absolute, is_current_dir, is_kept, is_parent_dir, join_paths, join_relative,
    kept_segments, kept_segments_push, split_path, split_text,
};
use crate::path_laws::{
    is_within, lemma_first_piece, lemma_split_nonempty, lemma_split_pieces_hold_no_separator,
    resolve_path, resolve_segments,
};
use crate::text::{chars_of, lowercase_of};

verus! {

/// A character that user names are made of: an ASCII letter or digit, `-`
/// or `_`.
pub open spec fn is_username_char(c: char) -> bool {
    ('a' <= c && c <= 'z') || ('A' <= c && c <= 'Z') || ('0' <= c && c <= '9') || c == '-' || c
        == '_'
}

/// Whether a text holds nothing but characters of user names.
pub open spec fn has_username_chars(name: Seq<char>) -> bool {
    forall|i: int| 0 <= i < name.len() ==> is_username_char(#[trigger] name[i])
}

/// Whether a text holds nothing but characters of user names.
pub fn only_username_chars(name: &str) -> (r: bool)
    ensures
        r == has_username_chars(name@),
{
    let chars = chars_of(name);
    let mut i: usize = 0;
    while i < chars.len()
        invariant
            i <= chars.len(),
            chars@ == name@,
            forall|k: int| 0 <= k < i ==> is_username_char(#[trigger] chars@[k]),
        decreases chars.len() - i,
    {
        let c = chars[i];
        let ok = ('a' <= c && c <= 'z') || ('A' <= c && c <= 'Z') || ('0' <= c && c <= '9') || c
            == '-' || c == '_';
        if !ok {
            assert(!is_username_char(chars@[i as int]));
            return false;
        }
        i += 1;
    }
    true
}

/// The components that a path is compared by: a `/` for the root of an
/// absolute path or a `.` for a relative path that starts with one, then
/// every segment that is neither empty nor `.`.
pub open spec fn components_of(path: Seq<char>) -> Seq<Seq<char>> {
    let kept = kept_segments(split_path(path));
    if is_absolute(path) {
        seq![seq!['/']] + kept
    } else if is_current_dir(split_path(path)[0]) {
        seq![seq!['.']] + kept
    } else {
        kept
    }
}

/// Whether `path` lies at or below `base`, component by component.
pub open spec fn path_starts_with(path: Seq<char>, base: Seq<char>) -> bool {
    let whole = components_of(path);
    let start = components_of(base);
    start.len() <= whole.len() && whole.take(start.len() as int) == start
}

/// Whether no segment of `path` is `..`.
pub open spec fn has_no_parent_dir(path: Seq<char>) -> bool {
    forall|i: int| 0 <= i < split_path(path).len() ==> !is_parent_dir(#[trigger] split_path(path)[i])
}

/// Without `..` there is nothing to resolve but what is dropped.
pub proof fn lemma_resolve_without_parent_dir(segs: Seq<Seq<char>>)
    requires
        forall|i: int| 0 <= i < segs.len() ==> !is_parent_dir(#[trigger] segs[i]),
    ensures
        resolve_segments(segs) == kept_segments(segs),
    decreases segs.len(),
{
    reveal(Seq::filter);
    if segs.len() > 0 {
        assert forall|i: int| 0 <= i < segs.drop_last().len() implies !is_parent_dir(
            #[trigger] segs.drop_last()[i],
        ) by {
            assert(segs.drop_last()[i] == segs[i]);
        }
        lemma_resolve_without_parent_dir(segs.drop_last());
        assert(!is_parent_dir(segs[segs.len() - 1]));
    }
}

/// No kept segment is a marker of the root or of the current directory.
pub proof fn lemma_kept_segment_is_no_marker(path: Seq<char>, i: int)
    requires
        0 <= i < kept_segments(split_path(path)).len(),
    ensures
        kept_segments(split_path(path))[i] != seq!['/'],
        kept_segments(split_path(path))[i] != seq!['.'],
{
    let segs = split_path(path);
    let kept = kept_segments(segs);
    segs.lemma_filter_pred(is_kept(), i);
    assert(kept.contains(kept[i]));
    segs.lemma_filter_contains_rev(is_kept(), kept[i]);
    let k = choose|k: int| 0 <= k < segs.len() && segs[k] == kept[i];
    lemma_split_pieces_hold_no_separator(path, k);
    if kept[i] == seq!['/'] {
        assert(kept[i][0] == '/');
    }
    if kept[i] == seq!['.'] {
        assert(is_current_dir(kept[i]));
    }
}

/// A place that starts with the user's directory, component by component,
/// lies at or below it once both are resolved, as long as neither holds a
/// `..`: which canonical forms never do.
#[verifier::rlimit(40)]
pub proof fn law_contained_place_lies_below_root(file: Seq<char>, root: Seq<char>)
    requires
        path_starts_with(file, root),
        has_no_parent_dir(file),
        has_no_parent_dir(root),
    ensures
        is_within(resolve_path(root), resolve_path(file)),
{
    lemma_resolve_without_parent_dir(split_path(file));
    lemma_resolve_without_parent_dir(split_path(root));
    let whole = components_of(file);
    let start = components_of(root);
    let kept_file = kept_segments(split_path(file));
    let kept_root = kept_segments(split_path(root));
    let lead_file = whole.len() - kept_file.len();
    let lead_root = start.len() - kept_root.len();
    assert(whole.take(start.len() as int) == start);
    if kept_root.len() > 0 {
        // The first kept segment of the root is no marker, so the markers
        // of both paths are the same.
        if lead_root < lead_file {
            assert(start[0] == kept_root[0]);
            assert(whole.take(start.len() as int)[0] == whole[0]);
            lemma_kept_segment_is_no_marker(root, 0);
        } else if lead_file < lead_root {
            assert(whole.take(start.len() as int)[0] == whole[0]);
            assert(whole[0] == kept_file[0]);
            lemma_kept_segment_is_no_marker(file, 0);
        }
        assert(lead_file == lead_root);
        assert forall|k: int| 0 <= k < kept_root.len() implies kept_file[k] == kept_root[k] by {
            assert(whole.take(start.len() as int)[k + lead_root] == whole[k + lead_root]);
            assert(start[k + lead_root] == kept_root[k]);
            assert(whole[k + lead_file] == kept_file[k]);
        }
        assert(kept_file.take(kept_root.len() as int) =~= kept_root);
    } else {
        assert(kept_file.take(0) =~= kept_root);
    }
}

/// The components of `path`.
#[verifier::rlimit(40)]
pub fn components(path: &str) -> (r: Vec<Vec<char>>)
    ensures
        chars_view(r@) == components_of(path@),
{
    let pieces = split_text(path);
    let ghost all = chars_view(pieces@);
    let mut out: Vec<Vec<char>> = Vec::new();
    proof {
        lemma_split_nonempty(path@);
        lemma_first_piece(path@);
    }
    let first = &pieces[0];
    if first.len() == 0 && pieces.len() > 1 {
        let mut root: Vec<char> = Vec::new();
        root.push('/');
        out.push(root);
    } else if first.len() == 1 && first[0] == '.' {
        let mut dot: Vec<char> = Vec::new();
        dot.push('.');
        out.push(dot);
    }
    let ghost lead = chars_view(out@);
    let mut i: usize = 0;
    proof {
        reveal(Seq::filter);
        assert(all.take(0) =~= Seq::<Seq<char>>::empty());
        assert(lead + kept_segments(all.take(0)) =~= lead);
        if is_absolute(path@) {
            assert(lead =~= seq![seq!['/']]);
        } else if is_current_dir(all[0]) {
            assert(lead =~= seq![seq!['.']]);
        } else {
            assert(lead =~= Seq::<Seq<char>>::empty());
        }
    }
    while i < pieces.len()
        invariant
            i <= pieces.len(),
            all == chars_view(pieces@),
            chars_view(out@) == lead + kept_segments(all.take(i as int)),
        decreases pieces.len() - i,
    {
        proof {
            assert(all.take(i + 1) =~= all.take(i as int).push(all[i as int]));
            kept_segments_push(all.take(i as int), all[i as int]);
        }
        let piece = &pieces[i];
        if !(piece.len() == 0 || (piece.len() == 1 && piece[0] == '.')) {
            let copy = copy_chars(piece);
            proof {
                assert(chars_view(out@.push(copy)) =~= chars_view(out@).push(all[i as int]));
                assert((lead + kept_segments(all.take(i as int))).push(all[i as int]) =~= lead
                    + kept_segments(all.take(i as int)).push(all[i as int]));
            }
            out.push(copy);
        }
        i += 1;
    }
    proof {
        assert(all.take(pieces.len() as int) =~= all);
        assert(lead + kept_segments(all) =~= components_of(path@));
    }
    out
}

/// A copy of `chars`.
fn copy_chars(chars: &Vec<char>) -> (r: Vec<char>)
    ensures
        r@ == chars@,
{
    let mut out: Vec<char> = Vec::new();
    let mut i: usize = 0;
    while i < chars.len()
        invariant
            i <= chars.len(),
            out@ == chars@.take(i as int),
        decreases chars.len() - i,
    {
        out.push(chars[i]);
        assert(chars@.take(i + 1) =~= chars@.take(i as int).push(chars@[i as int]));
        i += 1;
    }
    assert(chars@.take(chars.len() as int) =~= chars@);
    out
}

/// Whether `path` lies at or below `base`, component by component.
pub fn starts_with(path: &str, base: &str) -> (r: bool)
    ensures
        r == path_starts_with(path@, base@),
{
    let whole = components(path);
    let start = components(base);
    if start.len() > whole.len() {
        return false;
    }
    let ghost a = chars_view(whole@);
    let ghost b = chars_view(start@);
    let mut i: usize = 0;
    while i < start.len()
        invariant
            i <= start.len() <= whole.len(),
            a == chars_view(whole@),
            b == chars_view(start@),
            a == components_of(path@),
            b == components_of(base@),
            forall|k: int| 0 <= k < i ==> a[k] == b[k],
        decreases start.len() - i,
    {
        if !crate::text::chars_eq(&whole[i], &start[i]) {
            assert(a[i as int] == whole@[i as int]@);
            assert(b[i as int] == start@[i as int]@);
            assert(a.take(b.len() as int)[i as int] == a[i as int]);
            assert(components_of(path@).take(components_of(base@).len() as int)[i as int]
                != components_of(base@)[i as int]);
            return false;
        }
        assert(a[i as int] == whole@[i as int]@);
        assert(b[i as int] == start@[i as int]@);
        i += 1;
    }
    assert(a.take(b.len() as int) =~= b);
    true
}

/// The name of the file that is served for a directory.
pub open spec fn index_name() -> Seq<char> {
    "index.html"@
}

/// The directory of a user's site below the sandbox root.
pub open spec fn user_root_of(sites_dir: Seq<char>, username: Seq<char>) -> Seq<char> {
    join_paths(sites_dir, username)
}

/// The place that a request names before links and `..` are resolved: the
/// request path joined to the user's directory, or the request path itself
/// where that is absolute.
pub open spec fn request_target(
    sites_dir: Seq<char>,
    username: Seq<char>,
    path: Seq<char>,
) -> Seq<char> {
    if is_absolute(path) {
        path
    } else {
        join_paths(user_root_of(sites_dir, username), path)
    }
}

/// A request whose user name was accepted. The caller resolves the
/// sandbox root and the target to their canonical forms and calls
/// `located`.
#[derive(Debug)]
pub struct Request {
    sites_dir: String,
    username: String,
    target: String,
}

/// A place within the user's tree. The caller finds out whether it is a
/// directory and calls `open`.
#[derive(Debug)]
pub struct Located {
    root: String,
    file: String,
}

/// The index file of a directory within the user's tree, yet to be
/// resolved. The caller resolves the target to its canonical form and
/// calls `located`.
#[derive(Debug)]
pub struct IndexRequest {
    root: String,
    target: String,
}

/// A file within the user's tree. The caller reads it and calls `served`.
#[derive(Debug)]
pub struct Readable {
    root: String,
    file: String,
}

/// What is to be done with a located place.
#[derive(Debug)]
pub enum Opening {
    /// It is a file: read it.
    Read(Readable),
    /// It is a directory: resolve its index file.
    Index(IndexRequest),
}

/// The answer to a request: the file's bytes and their content type.
#[derive(Debug)]
pub struct Served {
    pub body: Vec<u8>,
    pub content_type: &'static str,
}

/// Starts the resolution of a request for `path` in the site of
/// `username`. A user name with any other character than those that names
/// are made of is answered as not found, whether or not such a user
/// exists.
pub fn serve_user_site(sites_dir: &str, username: &str, path: &str) -> (r: Result<
    Request,
    SiteError,
>)
    ensures
        match r {
            Ok(request) => has_username_chars(username@) && request.sites_dir_view() == sites_dir@
                && request.username_view() == username@ && request.target_view()
                == request_target(sites_dir@, username@, path@),
            Err(e) => e == SiteError::NotFound && !has_username_chars(username@),
        },
{
    if !only_username_chars(username) {
        return Err(SiteError::NotFound);
    }
    let user_root = join_relative(sites_dir, username);
    let absolute = {
        let chars = chars_of(path);
        chars.len() > 0 && chars[0] == '/'
    };
    let target = if absolute {
        path.to_owned()
    } else {
        join_relative(user_root.as_str(), path)
    };
    Ok(Request { sites_dir: sites_dir.to_owned(), username: username.to_owned(), target })
}

/// Starts the resolution of a request for the index of a user's site: the
/// file `index.html` at the root of the tree.
pub fn serve_user_site_index(sites_dir: &str, username: &str) -> (r: Result<Request, SiteError>)
    ensures
        match r {
            Ok(request) => has_username_chars(username@) && request.sites_dir_view() == sites_dir@
                && request.username_view() == username@ && request.target_view()
                == request_target(sites_dir@, username@, index_name()),
            Err(e) => e == SiteError::NotFound && !has_username_chars(username@),
        },
{
    serve_user_site(sites_dir, username, "index.html")
}

impl Request {
    /// The sandbox root as configured.
    pub closed spec fn sites_dir_view(&self) -> Seq<char> {
        self.sites_dir@
    }

    /// The user whose site is asked for.
    pub closed spec fn username_view(&self) -> Seq<char> {
        self.username@
    }

    /// The place that the request names, unresolved.
    pub closed spec fn target_view(&self) -> Seq<char> {
        self.target@
    }

    /// The sandbox root, to be resolved to its canonical form.
    pub fn sites_dir(&self) -> (r: &String)
        ensures
            r@ == self.sites_dir_view(),
    {
        &self.sites_dir
    }

    /// The target, to be resolved to its canonical form.
    pub fn target(&self) -> (r: &String)
        ensures
            r@ == self.target_view(),
    {
        &self.target
    }

    /// The directory that the answer has to lie in: the user's directory
    /// below the canonical sandbox root, or below the configured root
    /// where that has no canonical form.
    pub open spec fn sandbox(&self, canonical_root: Option<String>) -> Seq<char> {
        user_root_of(
            match canonical_root {
                Some(root) => root@,
                None => self.sites_dir_view(),
            },
            self.username_view(),
        )
    }

    /// Takes in the canonical forms of the sandbox root and of the target,
    /// each `None` where the filesystem has none. A target without a
    /// canonical form is not found. One that lies outside the user's
    /// directory is forbidden, however it came to lie there.
    pub fn located(self, canonical_root: Option<String>, canonical_file: Option<String>) -> (r:
        Result<Located, SiteError>)
        ensures
            match canonical_file {
                None => r matches Err(e) && e == SiteError::NotFound,
                Some(file) => if path_starts_with(file@, self.sandbox(canonical_root)) {
                    r matches Ok(located) && located.file_view() == file@ && located.root_view()
                        == self.sandbox(canonical_root)
                } else {
                    r matches Err(e) && e == SiteError::Forbidden
                },
            },
    {
        let Request { sites_dir, username, target: _ } = self;
        let file = match canonical_file {
            Some(file) => file,
            None => {
                return Err(SiteError::NotFound);
            },
        };
        let base = match canonical_root {
            Some(root) => root,
            None => sites_dir,
        };
        let root = join_relative(base.as_str(), username.as_str());
        if !starts_with(file.as_str(), root.as_str()) {
            return Err(SiteError::Forbidden);
        }
        Ok(Located { root, file })
    }
}

impl Located {
    #[verifier::type_invariant]
    spec fn within_sandbox(self) -> bool {
        path_starts_with(self.file@, self.root@)
    }

    /// The user's directory.
    pub closed spec fn root_view(&self) -> Seq<char> {
        self.root@
    }

    /// The place, in canonical form.
    pub closed spec fn file_view(&self) -> Seq<char> {
        self.file@
    }

    /// The place, of which the caller finds out whether it is a directory.
    /// It lies within the user's directory.
    pub fn file(&self) -> (r: &String)
        ensures
            r@ == self.file_view(),
            path_starts_with(r@, self.root_view()),
    {
        proof {
            use_type_invariant(self);
        }
        &self.file
    }

    /// Takes in whether the place is a directory. A file is to be read; of
    /// a directory the index file is to be resolved.
    pub fn open(self, is_dir: bool) -> (r: Opening)
        ensures
            match r {
                Opening::Read(readable) => !is_dir && readable.file_view() == self.file_view()
                    && readable.root_view() == self.root_view(),
                Opening::Index(index) => is_dir && index.root_view() == self.root_view()
                    && index.target_view() == join_paths(self.file_view(), index_name()),
            },
    {
        proof {
            use_type_invariant(&self);
        }
        let Located { root, file } = self;
        if is_dir {
            let target = join_relative(file.as_str(), "index.html");
            Opening::Index(IndexRequest { root, target })
        } else {
            Opening::Read(Readable { root, file })
        }
    }
}

impl IndexRequest {
    /// The user's directory.
    pub closed spec fn root_view(&self) -> Seq<char> {
        self.root@
    }

    /// The index file, unresolved.
    pub closed spec fn target_view(&self) -> Seq<char> {
        self.target@
    }

    /// The index file, to be resolved to its canonical form.
    pub fn target(&self) -> (r: &String)
        ensures
            r@ == self.target_view(),
    {
        &self.target
    }

    /// Takes in the canonical form of the index file, `None` where the
    /// filesystem has none. A missing index is not found; one that
    /// resolves to a place outside the user's directory is forbidden.
    pub fn located(self, canonical_file: Option<String>) -> (r: Result<Readable, SiteError>)
        ensures
            match canonical_file {
                None => r matches Err(e) && e == SiteError::NotFound,
                Some(file) => if path_starts_with(file@, self.root_view()) {
                    r matches Ok(readable) && readable.file_view() == file@
                        && readable.root_view() == self.root_view()
                } else {
                    r matches Err(e) && e == SiteError::Forbidden
                },
            },
    {
        let IndexRequest { root, target: _ } = self;
        let file = match canonical_file {
            Some(file) => file,
            None => {
                return Err(SiteError::NotFound);
            },
        };
        if !starts_with(file.as_str(), root.as_str()) {
            return Err(SiteError::Forbidden);
        }
        Ok(Readable { root, file })
    }
}

impl Readable {
    #[verifier::type_invariant]
    spec fn within_sandbox(self) -> bool {
        path_starts_with(self.file@, self.root@)
    }

    /// The user's directory.
    pub closed spec fn root_view(&self) -> Seq<char> {
        self.root@
    }

    /// The file, in canonical form.
    pub closed spec fn file_view(&self) -> Seq<char> {
        self.file@
    }

    /// The file to read. It lies within the user's directory.
    pub fn file(&self) -> (r: &String)
        ensures
            r@ == self.file_view(),
            path_starts_with(r@, self.root_view()),
    {
        proof {
            use_type_invariant(self);
        }
        &self.file
    }

    /// Takes in the bytes of the file, `None` where it could not be read.
    /// A file that cannot be read is not found; the bytes of one that can
    /// are served with the content type of its extension.
    pub fn served(self, content: Option<Vec<u8>>) -> (r: Result<Served, SiteError>)
        ensures
            match content {
                None => r matches Err(e) && e == SiteError::NotFound,
                Some(bytes) => r matches Ok(served) && served.body == bytes
                    && served.content_type@ == mime_of_lowercase(
                    lowercase_of(extension_of(self.file_view())),
                ),
            },
    {
        match content {
            None => Err(SiteError::NotFound),
            Some(body) => {
                let content_type = content_type_of(self.file.as_str());
                Ok(Served { body, content_type })
            },
        }
    }
}

} // verus!
