//! Sanitizing of archive-internal paths.
//!
//! A raw path is split on `/`. Empty pieces and `.` are dropped, `..` and
//! every other piece that starts with a dot are refused, and what is left
//! forms a relative path whose segments are all plain names.

use vstd::prelude::*;
use crate::error::UnsafePath;
use crate::text::{chars_of, string_of};

verus! {

/// The pieces of `s` between occurrences of `sep`, empty pieces included.
pub open spec fn split_on(s: Seq<char>, sep: char) -> Seq<Seq<char>>
    decreases s.len(),
{
    if s.len() == 0 {
        seq![Seq::<char>::empty()]
    } else {
        let before = split_on(s.drop_last(), sep);
        if s.last() == sep {
            before.push(Seq::<char>::empty())
        } else {
            before.drop_last().push(before.last().push(s.last()))
        }
    }
}

/// The pieces of `s` between its path separators, empty pieces included.
pub open spec fn split_path(s: Seq<char>) -> Seq<Seq<char>> {
    split_on(s, '/')
}

/// The segment `.`.
pub open spec fn is_current_dir(seg: Seq<char>) -> bool {
    seg.len() == 1 && seg[0] == '.'
}

/// The segment `..`.
pub open spec fn is_parent_dir(seg: Seq<char>) -> bool {
    seg.len() == 2 && seg[0] == '.' && seg[1] == '.'
}

/// A segment that contributes nothing: empty, or `.`.
pub open spec fn is_dropped(seg: Seq<char>) -> bool {
    seg.len() == 0 || is_current_dir(seg)
}

/// A dot-prefixed segment other than `.` and `..`.
pub open spec fn is_hidden(seg: Seq<char>) -> bool {
    seg.len() > 0 && seg[0] == '.' && !is_current_dir(seg) && !is_parent_dir(seg)
}

/// Why a single segment is refused, if it is.
pub open spec fn segment_violation(seg: Seq<char>) -> Option<UnsafePath> {
    if is_parent_dir(seg) {
        Some(UnsafePath::PathTraversal)
    } else if is_hidden(seg) {
        Some(UnsafePath::HiddenEntry)
    } else {
        None
    }
}

/// The violation of the first refused segment, in path order.
pub open spec fn first_violation(segs: Seq<Seq<char>>) -> Option<UnsafePath>
    decreases segs.len(),
{
    if segs.len() == 0 {
        None
    } else {
        match first_violation(segs.drop_last()) {
            Some(v) => Some(v),
            None => segment_violation(segs.last()),
        }
    }
}

/// The test that a segment passes when it is not dropped.
pub open spec fn is_kept() -> spec_fn(Seq<char>) -> bool {
    |seg: Seq<char>| !is_dropped(seg)
}

/// The segments that remain once the dropped ones are left out.
pub open spec fn kept_segments(segs: Seq<Seq<char>>) -> Seq<Seq<char>> {
    segs.filter(is_kept())
}

/// A path that starts at the root.
pub open spec fn is_absolute(raw: Seq<char>) -> bool {
    raw.len() > 0 && raw[0] == '/'
}

/// What sanitizing `raw` yields: its kept segments, or the first violation.
pub open spec fn sanitize_spec(raw: Seq<char>) -> Result<Seq<Seq<char>>, UnsafePath> {
    if is_absolute(raw) {
        Err(UnsafePath::AbsolutePath)
    } else {
        match first_violation(split_path(raw)) {
            Some(v) => Err(v),
            None => Ok(kept_segments(split_path(raw))),
        }
    }
}

/// A name that is safe as one path segment: not empty, not dot-prefixed,
/// and free of separators.
pub open spec fn is_plain_segment(seg: Seq<char>) -> bool {
    seg.len() > 0 && seg[0] != '.' && !seg.contains('/')
}

/// Every segment of `p` is plain.
pub open spec fn is_safe_path(p: Seq<Seq<char>>) -> bool {
    forall|i: int| 0 <= i < p.len() ==> is_plain_segment(#[trigger] p[i])
}

/// The views of the strings of `v`, in order.
pub open spec fn strings_view(v: Seq<String>) -> Seq<Seq<char>> {
    Seq::new(v.len(), |i: int| v[i]@)
}

/// `segs` joined by single separators.
pub open spec fn join_segments(segs: Seq<Seq<char>>) -> Seq<char>
    decreases segs.len(),
{
    if segs.len() == 0 {
        Seq::<char>::empty()
    } else if segs.len() == 1 {
        segs[0]
    } else {
        join_segments(segs.drop_last()).push('/') + segs.last()
    }
}

/// The text of a relative path: its segments joined by `/`, or `.` for the
/// path without segments.
pub open spec fn render_path(p: Seq<Seq<char>>) -> Seq<char> {
    if p.len() == 0 {
        seq!['.']
    } else {
        join_segments(p)
    }
}

/// `base` joined with the relative path `rel`: a separator goes between
/// them unless `base` is empty or already ends in one.
pub open spec fn join_paths(base: Seq<char>, rel: Seq<char>) -> Seq<char> {
    if base.len() == 0 {
        rel
    } else if base.last() == '/' {
        base + rel
    } else {
        base.push('/') + rel
    }
}

/// Joins the relative path `rel` to `base`.
pub fn join_relative(base: &str, rel: &str) -> (r: String)
    ensures
        r@ == join_paths(base@, rel@),
{
    let head = chars_of(base);
    let tail = chars_of(rel);
    let mut out = string_of(&head);
    if head.len() > 0 && head[head.len() - 1] != '/' {
        out.push('/');
    }
    let ghost start = out@;
    let mut i: usize = 0;
    while i < tail.len()
        invariant
            i <= tail.len(),
            out@ == start + tail@.take(i as int),
        decreases tail.len() - i,
    {
        out.push(tail[i]);
        assert(tail@.take(i + 1) =~= tail@.take(i as int).push(tail@[i as int]));
        i += 1;
    }
    assert(tail@.take(tail.len() as int) =~= tail@);
    assert(out@ =~= join_paths(base@, rel@));
    out
}

/// A relative path whose segments are all plain names.
#[derive(Debug)]
pub struct SanitizedPath {
    segments: Vec<String>,
}

impl View for SanitizedPath {
    type V = Seq<Seq<char>>;

    closed spec fn view(&self) -> Seq<Seq<char>> {
        strings_view(self.segments@)
    }
}

impl SanitizedPath {
    #[verifier::type_invariant]
    spec fn well_formed(self) -> bool {
        is_safe_path(strings_view(self.segments@))
    }

    /// The segments, outermost first.
    pub fn segments(&self) -> (r: &Vec<String>)
        ensures
            strings_view(r@) == self@,
            is_safe_path(self@),
    {
        proof {
            use_type_invariant(self);
        }
        &self.segments
    }

    /// Whether the path names the root of the tree it is joined to.
    pub fn is_root(&self) -> (r: bool)
        ensures
            r == (self@.len() == 0),
    {
        self.segments.len() == 0
    }

    /// The path as text: `a/b/c`, or `.` for the root.
    pub fn to_path_string(&self) -> (r: String)
        ensures
            r@ == render_path(self@),
    {
        render_segments(&self.segments)
    }
}

/// The text of the relative path with the given segments: `a/b/c`, or `.`
/// when there is none.
pub fn render_segments(segments: &Vec<String>) -> (r: String)
    ensures
        r@ == render_path(strings_view(segments@)),
{
    let mut out = String::new();
    if segments.len() == 0 {
        out.push('.');
        assert(out@ =~= seq!['.']);
        return out;
    }
    let mut i: usize = 0;
    while i < segments.len()
        invariant
            i <= segments.len(),
            out@ == join_segments(strings_view(segments@).take(i as int)),
        decreases segments.len() - i,
    {
        let ghost before = strings_view(segments@).take(i as int);
        let ghost after = strings_view(segments@).take(i + 1);
        assert(after.drop_last() =~= before);
        assert(after.last() == segments@[i as int]@);
        if i > 0 {
            out.push('/');
        }
        let seg = chars_of(segments[i].as_str());
        let mut j: usize = 0;
        while j < seg.len()
            invariant
                j <= seg.len(),
                seg@ == after.last(),
                out@ == (if i > 0 {
                    join_segments(before).push('/')
                } else {
                    Seq::<char>::empty()
                }) + seg@.take(j as int),
            decreases seg.len() - j,
        {
            out.push(seg[j]);
            assert(seg@.take(j + 1) =~= seg@.take(j as int).push(seg@[j as int]));
            j += 1;
        }
        assert(seg@.take(seg.len() as int) =~= seg@);
        assert(out@ =~= join_segments(after));
        i += 1;
    }
    assert(strings_view(segments@).take(segments.len() as int) =~= strings_view(segments@));
    out
}

/// The views of the character lists of `v`, in order.
pub open spec fn chars_view(v: Seq<Vec<char>>) -> Seq<Seq<char>> {
    Seq::new(v.len(), |i: int| v[i]@)
}

/// The pieces of `text` between occurrences of `sep`, empty pieces
/// included.
pub fn split_text_on(text: &str, sep: char) -> (r: Vec<Vec<char>>)
    ensures
        chars_view(r@) == split_on(text@, sep),
{
    let chars = chars_of(text);
    let mut pieces: Vec<Vec<char>> = Vec::new();
    let mut current: Vec<char> = Vec::new();
    let mut i: usize = 0;
    while i < chars.len()
        invariant
            i <= chars.len(),
            split_on(chars@.take(i as int), sep) == chars_view(pieces@).push(current@),
        decreases chars.len() - i,
    {
        let c = chars[i];
        let ghost done = chars_view(pieces@);
        proof {
            let prefix = chars@.take(i + 1);
            assert(prefix.drop_last() =~= chars@.take(i as int));
            assert(prefix.last() == c);
            assert(done.push(current@).last() == current@);
            assert(done.push(current@).drop_last() =~= done);
        }
        if c == sep {
            proof {
                assert(chars_view(pieces@.push(current)) =~= done.push(current@));
            }
            pieces.push(current);
            current = Vec::new();
        } else {
            proof {
                assert(split_on(chars@.take(i + 1), sep) =~= done.push(current@.push(c)));
            }
            current.push(c);
        }
        i += 1;
    }
    proof {
        assert(chars@.take(chars.len() as int) =~= chars@);
        assert(chars_view(pieces@.push(current)) =~= chars_view(pieces@).push(current@));
    }
    pieces.push(current);
    pieces
}

/// The pieces of `text` between its path separators, empty pieces
/// included.
pub fn split_text(text: &str) -> (r: Vec<Vec<char>>)
    ensures
        chars_view(r@) == split_path(text@),
{
    split_text_on(text, '/')
}

/// Why `seg` is refused, if it is.
fn violation_of(seg: &Vec<char>) -> (r: Option<UnsafePath>)
    ensures
        r == segment_violation(seg@),
{
    if seg.len() == 0 || seg[0] != '.' || seg.len() == 1 {
        None
    } else if seg.len() == 2 && seg[1] == '.' {
        Some(UnsafePath::PathTraversal)
    } else {
        Some(UnsafePath::HiddenEntry)
    }
}

/// Whether `seg` is left out of the result.
fn dropped(seg: &Vec<char>) -> (r: bool)
    ensures
        r == is_dropped(seg@),
{
    seg.len() == 0 || (seg.len() == 1 && seg[0] == '.')
}

/// A segment that is neither dropped nor refused, and holds no separator,
/// is plain.
proof fn lemma_accepted_is_plain(seg: Seq<char>)
    requires
        !is_dropped(seg),
        segment_violation(seg) is None,
        !seg.contains('/'),
    ensures
        is_plain_segment(seg),
{
}

/// Turns the raw path of an archive entry into a safe relative path.
///
/// An absolute path is refused outright. Otherwise the first segment that is
/// `..` or hidden decides the error; when there is none, the result holds
/// the segments that are neither empty nor `.`, in order.
pub fn sanitize_archive_path(raw: &str) -> (r: Result<SanitizedPath, UnsafePath>)
    ensures
        match r {
            Ok(p) => sanitize_spec(raw@) == Ok::<Seq<Seq<char>>, UnsafePath>(p@),
            Err(e) => sanitize_spec(raw@) == Err::<Seq<Seq<char>>, UnsafePath>(e),
        },
{
    let chars = chars_of(raw);
    if chars.len() > 0 && chars[0] == '/' {
        return Err(UnsafePath::AbsolutePath);
    }
    let mut segments: Vec<String> = Vec::new();
    let mut current: Vec<char> = Vec::new();
    let mut violation: Option<UnsafePath> = None;
    let ghost mut done: Seq<Seq<char>> = Seq::empty();
    let mut i: usize = 0;
    while i < chars.len()
        invariant
            i <= chars.len(),
            split_path(chars@.take(i as int)) == done.push(current@),
            !current@.contains('/'),
            violation == first_violation(done),
            violation is None ==> strings_view(segments@) == kept_segments(done),
            is_safe_path(strings_view(segments@)),
        decreases chars.len() - i,
    {
        let c = chars[i];
        proof {
            let prefix = chars@.take(i + 1);
            assert(prefix.drop_last() =~= chars@.take(i as int));
            assert(prefix.last() == c);
            assert(done.push(current@).last() == current@);
            assert(done.push(current@).drop_last() =~= done);
        }
        if c == '/' {
            let ghost finished = done.push(current@);
            proof {
                assert(finished.drop_last() =~= done);
                assert(finished.last() == current@);
                kept_segments_push(done, current@);
            }
            if violation.is_none() {
                violation = violation_of(&current);
                if violation.is_none() && !dropped(&current) {
                    let name = string_of(&current);
                    proof {
                        lemma_accepted_is_plain(current@);
                        assert(strings_view(segments@.push(name)) =~= strings_view(
                            segments@,
                        ).push(current@));
                    }
                    segments.push(name);
                }
            }
            current = Vec::new();
            proof {
                done = finished;
                assert(split_path(chars@.take(i + 1)) == done.push(current@));
            }
        } else {
            proof {
                assert(current@.push(c).contains('/') ==> current@.contains('/')) by {
                    if current@.push(c).contains('/') {
                        let k = choose|k: int|
                            0 <= k < current@.push(c).len() && current@.push(c)[k] == '/';
                        assert(current@[k] == '/');
                    }
                }
                assert(split_path(chars@.take(i + 1)) =~= done.push(current@.push(c)));
            }
            current.push(c);
        }
        i += 1;
    }
    let ghost all = done.push(current@);
    proof {
        assert(chars@.take(chars.len() as int) =~= chars@);
        assert(all.drop_last() =~= done);
        assert(all.last() == current@);
        kept_segments_push(done, current@);
    }
    if violation.is_none() {
        violation = violation_of(&current);
        if violation.is_none() && !dropped(&current) {
            let name = string_of(&current);
            proof {
                lemma_accepted_is_plain(current@);
                assert(strings_view(segments@.push(name)) =~= strings_view(segments@).push(
                    current@,
                ));
            }
            segments.push(name);
        }
    }
    match violation {
        Some(v) => Err(v),
        None => Ok(SanitizedPath { segments }),
    }
}

/// Appending a segment extends the kept segments by it, unless it is dropped.
pub proof fn kept_segments_push(segs: Seq<Seq<char>>, seg: Seq<char>)
    ensures
        kept_segments(segs.push(seg)) == if is_dropped(seg) {
            kept_segments(segs)
        } else {
            kept_segments(segs).push(seg)
        },
{
    reveal(Seq::filter);
    assert(segs.push(seg).drop_last() =~= segs);
    assert(segs.push(seg).last() == seg);
}

} // verus!
