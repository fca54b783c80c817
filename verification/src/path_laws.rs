//! What holds of every sanitized path.

use vstd::prelude::*;
use crate::error::UnsafePath;
use crate::path::{
    first_violation, is_absolute, is_current_dir, is_dropped, is_hidden, is_parent_dir,
    is_kept, is_plain_segment, is_safe_path, join_paths, join_segments, kept_segments, render_path, sanitize_spec,
    segment_violation, split_path,
};

verus! {

/// Lexical resolution of a list of segments: empty segments and `.` are
/// skipped, and `..` steps back to the parent, staying put at the top.
pub open spec fn resolve_segments(segs: Seq<Seq<char>>) -> Seq<Seq<char>>
    decreases segs.len(),
{
    if segs.len() == 0 {
        Seq::empty()
    } else {
        let before = resolve_segments(segs.drop_last());
        let seg = segs.last();
        if is_dropped(seg) {
            before
        } else if is_parent_dir(seg) {
            if before.len() > 0 {
                before.drop_last()
            } else {
                before
            }
        } else {
            before.push(seg)
        }
    }
}

/// The place that the text `path` names, as a list of plain steps from the
/// top.
pub open spec fn resolve_path(path: Seq<char>) -> Seq<Seq<char>> {
    resolve_segments(split_path(path))
}

/// Whether `place` lies at or below `root`.
pub open spec fn is_within(root: Seq<Seq<char>>, place: Seq<Seq<char>>) -> bool {
    root.len() <= place.len() && place.take(root.len() as int) == root
}

/// A split always yields at least one piece.
pub proof fn lemma_split_nonempty(s: Seq<char>)
    ensures
        split_path(s).len() >= 1,
    decreases s.len(),
{
    if s.len() > 0 {
        lemma_split_nonempty(s.drop_last());
    }
}

/// The first piece of a split is empty exactly when the text starts with a
/// separator or is empty; an absolute path has more than one piece.
pub proof fn lemma_first_piece(s: Seq<char>)
    ensures
        split_path(s).len() >= 1,
        is_absolute(s) ==> split_path(s)[0].len() == 0 && split_path(s).len() > 1,
        !is_absolute(s) && s.len() > 0 ==> split_path(s)[0].len() > 0 && split_path(s)[0][0]
            == s[0],
        s.len() == 0 ==> split_path(s).len() == 1 && split_path(s)[0].len() == 0,
    decreases s.len(),
{
    if s.len() > 0 {
        lemma_first_piece(s.drop_last());
        let before = split_path(s.drop_last());
        if s.len() == 1 {
            assert(s.drop_last().len() == 0);
            assert(s.last() == s[0]);
        } else {
            assert(s.drop_last()[0] == s[0]);
        }
    }
}

/// No piece of a split holds a separator.
pub proof fn lemma_split_pieces_hold_no_separator(s: Seq<char>, i: int)
    requires
        0 <= i < split_path(s).len(),
    ensures
        !split_path(s)[i].contains('/'),
    decreases s.len(),
{
    if s.len() > 0 {
        let before = split_path(s.drop_last());
        lemma_split_nonempty(s.drop_last());
        if s.last() == '/' {
            if i < before.len() {
                lemma_split_pieces_hold_no_separator(s.drop_last(), i);
            }
        } else {
            if i < before.len() - 1 {
                lemma_split_pieces_hold_no_separator(s.drop_last(), i);
            } else {
                lemma_split_pieces_hold_no_separator(s.drop_last(), before.len() - 1);
                let piece = before.last().push(s.last());
                if piece.contains('/') {
                    let k = choose|k: int| 0 <= k < piece.len() && piece[k] == '/';
                    assert(before.last()[k] == '/');
                }
            }
        }
    }
}

/// Joining the pieces of a split by separators gives the text back.
pub proof fn law_join_of_split(s: Seq<char>)
    ensures
        join_segments(split_path(s)) == s,
    decreases s.len(),
{
    if s.len() == 0 {
        assert(join_segments(split_path(s)) =~= s);
    } else {
        let before = split_path(s.drop_last());
        lemma_split_nonempty(s.drop_last());
        law_join_of_split(s.drop_last());
        if s.last() == '/' {
            let all = before.push(Seq::<char>::empty());
            assert(all.drop_last() =~= before);
            assert(join_segments(all) =~= s.drop_last().push('/'));
            assert(s.drop_last().push('/') =~= s);
        } else {
            let piece = before.last().push(s.last());
            let all = before.drop_last().push(piece);
            assert(all.drop_last() =~= before.drop_last());
            if before.len() == 1 {
                assert(join_segments(before) == before[0]);
                assert(join_segments(all) =~= s.drop_last().push(s.last()));
            } else {
                assert(join_segments(before) == join_segments(before.drop_last()).push('/')
                    + before.last());
                assert(join_segments(all) =~= join_segments(before).push(s.last()));
            }
            assert(s.drop_last().push(s.last()) =~= s);
        }
    }
}

/// Splitting distributes over a separator: the pieces of `a/b` are those of
/// `a` followed by those of `b`.
pub proof fn lemma_split_around_separator(a: Seq<char>, b: Seq<char>)
    ensures
        split_path(a.push('/') + b) == split_path(a) + split_path(b),
    decreases b.len(),
{
    let whole = a.push('/') + b;
    if b.len() == 0 {
        assert(whole =~= a.push('/'));
        assert(whole.drop_last() =~= a);
        assert(split_path(a).push(Seq::<char>::empty()) =~= split_path(a) + split_path(b));
    } else {
        assert(whole.drop_last() =~= a.push('/') + b.drop_last());
        assert(whole.last() == b.last());
        lemma_split_around_separator(a, b.drop_last());
        lemma_split_nonempty(b.drop_last());
        let left = split_path(a);
        let right = split_path(b.drop_last());
        if b.last() == '/' {
            assert((left + right).push(Seq::<char>::empty()) =~= left + right.push(
                Seq::<char>::empty(),
            ));
        } else {
            assert((left + right).last() == right.last());
            assert((left + right).drop_last() =~= left + right.drop_last());
            assert((left + right.drop_last()).push(right.last().push(b.last())) =~= left
                + right.drop_last().push(right.last().push(b.last())));
        }
    }
}

/// A text without separators is its own single piece.
pub proof fn lemma_split_of_segment(seg: Seq<char>)
    requires
        !seg.contains('/'),
    ensures
        split_path(seg) == seq![seg],
    decreases seg.len(),
{
    if seg.len() == 0 {
        assert(seg =~= Seq::<char>::empty());
    } else {
        assert(!seg.drop_last().contains('/')) by {
            if seg.drop_last().contains('/') {
                let k = choose|k: int| 0 <= k < seg.drop_last().len() && seg.drop_last()[k] == '/';
                assert(seg[k] == '/');
            }
        }
        lemma_split_of_segment(seg.drop_last());
        assert(seg.last() != '/') by {
            if seg.last() == '/' {
                assert(seg[seg.len() - 1] == '/');
            }
        }
        let before = seq![seg.drop_last()];
        assert(before.drop_last() =~= Seq::<Seq<char>>::empty());
        assert(before.last() == seg.drop_last());
        assert(seg.drop_last().push(seg.last()) =~= seg);
        assert(before.drop_last().push(before.last().push(seg.last())) =~= seq![seg]);
    }
}

/// Splitting the join of separator-free segments gives the segments back.
pub proof fn lemma_split_of_join(segs: Seq<Seq<char>>)
    requires
        segs.len() > 0,
        forall|i: int| 0 <= i < segs.len() ==> !(#[trigger] segs[i]).contains('/'),
    ensures
        split_path(join_segments(segs)) == segs,
    decreases segs.len(),
{
    if segs.len() == 1 {
        lemma_split_of_segment(segs[0]);
        assert(seq![segs[0]] =~= segs);
    } else {
        lemma_split_of_join(segs.drop_last());
        lemma_split_around_separator(join_segments(segs.drop_last()), segs.last());
        lemma_split_of_segment(segs.last());
        assert(segs.drop_last() + seq![segs.last()] =~= segs);
    }
}

/// Two safe paths with the same text are the same path.
pub proof fn lemma_render_is_injective(p: Seq<Seq<char>>, q: Seq<Seq<char>>)
    requires
        is_safe_path(p),
        is_safe_path(q),
        p.len() > 0,
        q.len() > 0,
        render_path(p) == render_path(q),
    ensures
        p == q,
{
    assert forall|i: int| 0 <= i < p.len() implies !(#[trigger] p[i]).contains('/') by {
        assert(is_plain_segment(p[i]));
    }
    assert forall|i: int| 0 <= i < q.len() implies !(#[trigger] q[i]).contains('/') by {
        assert(is_plain_segment(q[i]));
    }
    lemma_split_of_join(p);
    lemma_split_of_join(q);
}

/// A list of plain segments holds no violation and drops nothing.
pub proof fn lemma_safe_path_is_accepted(p: Seq<Seq<char>>)
    requires
        is_safe_path(p),
    ensures
        first_violation(p) is None,
        kept_segments(p) == p,
    decreases p.len(),
{
    reveal(Seq::filter);
    if p.len() == 0 {
        assert(kept_segments(p) =~= p);
    } else {
        lemma_safe_path_is_accepted(p.drop_last());
        assert(is_plain_segment(p[p.len() - 1]));
        assert(p.drop_last().push(p.last()) =~= p);
    }
}

/// Resolving a path that ends in plain segments keeps those segments.
pub proof fn lemma_resolve_keeps_plain_tail(head: Seq<Seq<char>>, tail: Seq<Seq<char>>)
    requires
        is_safe_path(tail),
    ensures
        resolve_segments(head + tail) == resolve_segments(head) + tail,
    decreases tail.len(),
{
    if tail.len() == 0 {
        assert(head + tail =~= head);
        assert(resolve_segments(head) + tail =~= resolve_segments(head));
    } else {
        assert((head + tail).drop_last() =~= head + tail.drop_last());
        assert((head + tail).last() == tail.last());
        assert(is_plain_segment(tail[tail.len() - 1]));
        lemma_resolve_keeps_plain_tail(head, tail.drop_last());
        assert((resolve_segments(head) + tail.drop_last()).push(tail.last())
            =~= resolve_segments(head) + tail);
    }
}

/// The first violation of a list is that of its first refused segment.
proof fn lemma_first_violation_at(segs: Seq<Seq<char>>, i: int)
    requires
        0 <= i < segs.len(),
        segment_violation(segs[i]) is Some,
        forall|j: int| 0 <= j < i ==> segment_violation(#[trigger] segs[j]) is None,
    ensures
        first_violation(segs) == segment_violation(segs[i]),
    decreases segs.len(),
{
    if i == segs.len() - 1 {
        lemma_no_violation(segs.drop_last());
    } else {
        lemma_first_violation_at(segs.drop_last(), i);
    }
}

/// A list without refused segments has no violation.
proof fn lemma_no_violation(segs: Seq<Seq<char>>)
    requires
        forall|j: int| 0 <= j < segs.len() ==> segment_violation(#[trigger] segs[j]) is None,
    ensures
        first_violation(segs) is None,
    decreases segs.len(),
{
    if segs.len() > 0 {
        lemma_no_violation(segs.drop_last());
    }
}

/// A list with a violation holds a refused segment.
proof fn lemma_violation_has_witness(segs: Seq<Seq<char>>) -> (i: int)
    requires
        first_violation(segs) is Some,
    ensures
        0 <= i < segs.len(),
        segment_violation(segs[i]) is Some,
    decreases segs.len(),
{
    if first_violation(segs.drop_last()) is Some {
        lemma_violation_has_witness(segs.drop_last())
    } else {
        segs.len() - 1
    }
}

/// Every absolute path is refused as such.
pub proof fn law_absolute_path_is_refused(raw: Seq<char>)
    requires
        is_absolute(raw),
    ensures
        sanitize_spec(raw) == Err::<Seq<Seq<char>>, UnsafePath>(UnsafePath::AbsolutePath),
{
}

/// A relative path with a `..` segment is refused as a traversal, unless a
/// hidden segment comes before it.
pub proof fn law_parent_segment_is_refused(raw: Seq<char>, i: int)
    requires
        !is_absolute(raw),
        0 <= i < split_path(raw).len(),
        is_parent_dir(split_path(raw)[i]),
        forall|j: int| 0 <= j < i ==> !is_hidden(#[trigger] split_path(raw)[j]),
    ensures
        sanitize_spec(raw) == Err::<Seq<Seq<char>>, UnsafePath>(UnsafePath::PathTraversal),
{
    let segs = split_path(raw);
    let first = choose|k: int|
        0 <= k <= i && is_parent_dir(#[trigger] segs[k]) && forall|j: int|
            0 <= j < k ==> !is_parent_dir(#[trigger] segs[j]);
    assert(exists|k: int|
        0 <= k <= i && is_parent_dir(#[trigger] segs[k]) && forall|j: int|
            0 <= j < k ==> !is_parent_dir(#[trigger] segs[j])) by {
        lemma_first_parent(segs, i);
    }
    assert forall|j: int| 0 <= j < first implies segment_violation(#[trigger] segs[j]) is None by {
        assert(!is_hidden(segs[j]));
    }
    lemma_first_violation_at(segs, first);
}

/// Among the segments up to a `..`, there is a first `..`.
proof fn lemma_first_parent(segs: Seq<Seq<char>>, i: int)
    requires
        0 <= i < segs.len(),
        is_parent_dir(segs[i]),
    ensures
        exists|k: int|
            0 <= k <= i && is_parent_dir(#[trigger] segs[k]) && forall|j: int|
                0 <= j < k ==> !is_parent_dir(#[trigger] segs[j]),
    decreases i,
{
    if exists|j: int| 0 <= j < i && is_parent_dir(#[trigger] segs[j]) {
        let j = choose|j: int| 0 <= j < i && is_parent_dir(#[trigger] segs[j]);
        lemma_first_parent(segs, j);
    } else {
        assert(is_parent_dir(segs[i]));
    }
}

/// Among the segments up to a hidden one, there is a first hidden one.
proof fn lemma_first_hidden(segs: Seq<Seq<char>>, i: int)
    requires
        0 <= i < segs.len(),
        is_hidden(segs[i]),
    ensures
        exists|k: int|
            0 <= k <= i && is_hidden(#[trigger] segs[k]) && forall|j: int|
                0 <= j < k ==> !is_hidden(#[trigger] segs[j]),
    decreases i,
{
    if exists|j: int| 0 <= j < i && is_hidden(#[trigger] segs[j]) {
        let j = choose|j: int| 0 <= j < i && is_hidden(#[trigger] segs[j]);
        lemma_first_hidden(segs, j);
    } else {
        assert(is_hidden(segs[i]));
    }
}

/// A relative path with a hidden segment is refused as hidden, unless a
/// `..` segment comes before it.
pub proof fn law_hidden_segment_is_refused(raw: Seq<char>, i: int)
    requires
        !is_absolute(raw),
        0 <= i < split_path(raw).len(),
        is_hidden(split_path(raw)[i]),
        forall|j: int| 0 <= j < i ==> !is_parent_dir(#[trigger] split_path(raw)[j]),
    ensures
        sanitize_spec(raw) == Err::<Seq<Seq<char>>, UnsafePath>(UnsafePath::HiddenEntry),
{
    let segs = split_path(raw);
    lemma_first_hidden(segs, i);
    let first = choose|k: int|
        0 <= k <= i && is_hidden(#[trigger] segs[k]) && forall|j: int|
            0 <= j < k ==> !is_hidden(#[trigger] segs[j]);
    assert forall|j: int| 0 <= j < first implies segment_violation(#[trigger] segs[j]) is None by {
        assert(!is_parent_dir(segs[j]));
    }
    lemma_first_violation_at(segs, first);
}

/// A path is accepted exactly when it is relative and none of its segments
/// is `..` or hidden.
pub proof fn law_accepted_iff_clean(raw: Seq<char>)
    ensures
        sanitize_spec(raw) is Ok <==> (!is_absolute(raw) && forall|i: int|
            0 <= i < split_path(raw).len() ==> !is_parent_dir(#[trigger] split_path(raw)[i])
                && !is_hidden(split_path(raw)[i])),
{
    let segs = split_path(raw);
    if !is_absolute(raw) {
        if first_violation(segs) is Some {
            let i = lemma_violation_has_witness(segs);
            assert(is_parent_dir(segs[i]) || is_hidden(segs[i]));
        } else {
            assert forall|i: int| 0 <= i < segs.len() implies !is_parent_dir(#[trigger] segs[i])
                && !is_hidden(segs[i]) by {
                if segment_violation(segs[i]) is Some {
                    lemma_first_parent_or_hidden(segs, i);
                }
            }
        }
        if forall|i: int|
            0 <= i < segs.len() ==> !is_parent_dir(#[trigger] segs[i]) && !is_hidden(segs[i]) {
            assert forall|j: int| 0 <= j < segs.len() implies segment_violation(
                #[trigger] segs[j],
            ) is None by {
                assert(!is_parent_dir(segs[j]) && !is_hidden(segs[j]));
            }
            lemma_no_violation(segs);
        }
    }
}

/// A refused segment gives the whole list a violation.
proof fn lemma_first_parent_or_hidden(segs: Seq<Seq<char>>, i: int)
    requires
        0 <= i < segs.len(),
        segment_violation(segs[i]) is Some,
    ensures
        first_violation(segs) is Some,
    decreases segs.len(),
{
    if i < segs.len() - 1 {
        lemma_first_parent_or_hidden(segs.drop_last(), i);
    }
}

/// The segments of an accepted path are all plain.
pub proof fn law_accepted_path_is_safe(raw: Seq<char>)
    requires
        sanitize_spec(raw) is Ok,
    ensures
        is_safe_path(sanitize_spec(raw)->Ok_0),
{
    let segs = split_path(raw);
    let pred = is_kept();
    let kept = kept_segments(segs);
    law_accepted_iff_clean(raw);
    assert forall|k: int| 0 <= k < kept.len() implies is_plain_segment(#[trigger] kept[k]) by {
        segs.lemma_filter_pred(pred, k);
        assert(kept.contains(kept[k]));
        segs.lemma_filter_contains_rev(pred, kept[k]);
        let i = choose|i: int| 0 <= i < segs.len() && segs[i] == kept[k];
        lemma_split_pieces_hold_no_separator(raw, i);
        assert(!is_parent_dir(segs[i]) && !is_hidden(segs[i]));
        assert(pred(kept[k]));
    }
}

/// Sanitizing the text of a safe path gives that path back.
pub proof fn law_sanitize_is_idempotent(p: Seq<Seq<char>>)
    requires
        is_safe_path(p),
    ensures
        sanitize_spec(render_path(p)) == Ok::<Seq<Seq<char>>, UnsafePath>(p),
{
    if p.len() == 0 {
        let dot = seq!['.'];
        lemma_dot_is_dropped();
        assert(kept_segments(seq![dot]) =~= p);
    } else {
        assert forall|i: int| 0 <= i < p.len() implies !(#[trigger] p[i]).contains('/') by {
            assert(is_plain_segment(p[i]));
        }
        lemma_split_of_join(p);
        lemma_safe_path_is_accepted(p);
        lemma_join_starts_plain(p);
    }
}

/// The text `.` is one piece, which is dropped and never refused.
proof fn lemma_dot_is_dropped()
    ensures
        split_path(seq!['.']) == seq![seq!['.']],
        first_violation(seq![seq!['.']]) is None,
        kept_segments(seq![seq!['.']]) == Seq::<Seq<char>>::empty(),
        resolve_segments(seq![seq!['.']]) == Seq::<Seq<char>>::empty(),
{
    let dot = seq!['.'];
    assert(!dot.contains('/')) by {
        if dot.contains('/') {
            let k = choose|k: int| 0 <= k < dot.len() && dot[k] == '/';
            assert(dot[k] == '.');
        }
    }
    lemma_split_of_segment(dot);
    reveal_with_fuel(first_violation, 2);
    reveal_with_fuel(resolve_segments, 2);
    reveal_with_fuel(Seq::filter, 2);
    assert(seq![dot].drop_last() =~= Seq::<Seq<char>>::empty());
    assert(seq![dot].last() == dot);
    assert(is_current_dir(dot));
    assert(kept_segments(seq![dot]) =~= Seq::<Seq<char>>::empty());
    assert(resolve_segments(seq![dot]) =~= Seq::<Seq<char>>::empty());
}

/// The join of plain segments starts with the first character of the first.
proof fn lemma_join_starts_plain(p: Seq<Seq<char>>)
    requires
        p.len() > 0,
        is_safe_path(p),
    ensures
        join_segments(p).len() > 0,
        join_segments(p)[0] == p[0][0],
    decreases p.len(),
{
    assert(is_plain_segment(p[0]));
    if p.len() > 1 {
        assert(is_safe_path(p.drop_last())) by {
            assert forall|i: int| 0 <= i < p.drop_last().len() implies is_plain_segment(
                #[trigger] p.drop_last()[i],
            ) by {
                assert(is_plain_segment(p[i]));
            }
        }
        lemma_join_starts_plain(p.drop_last());
    }
}

/// Joining a sanitized path to any root resolves to a place at or below
/// that root: the root's own place, followed by the path's segments.
pub proof fn law_sanitized_path_stays_within_root(root: Seq<char>, raw: Seq<char>)
    requires
        sanitize_spec(raw) is Ok,
    ensures
        resolve_path(join_paths(root, render_path(sanitize_spec(raw)->Ok_0))) == resolve_path(root)
            + sanitize_spec(raw)->Ok_0,
        is_within(
            resolve_path(root),
            resolve_path(join_paths(root, render_path(sanitize_spec(raw)->Ok_0))),
        ),
{
    let p = sanitize_spec(raw)->Ok_0;
    law_accepted_path_is_safe(raw);
    lemma_safe_path_resolves_below(root, p);
}

/// Joining the text of a safe path to any root resolves to the root's place
/// followed by the path's segments.
pub proof fn lemma_safe_path_resolves_below(root: Seq<char>, p: Seq<Seq<char>>)
    requires
        is_safe_path(p),
    ensures
        resolve_path(join_paths(root, render_path(p))) == resolve_path(root) + p,
        is_within(resolve_path(root), resolve_path(join_paths(root, render_path(p)))),
{
    let rel = render_path(p);
    // The relative text resolves to the path's own segments.
    assert(resolve_segments(split_path(rel)) == p) by {
        if p.len() == 0 {
            lemma_dot_is_dropped();
            assert(resolve_segments(seq![seq!['.']]) =~= p);
        } else {
            assert forall|i: int| 0 <= i < p.len() implies !(#[trigger] p[i]).contains('/') by {
                assert(is_plain_segment(p[i]));
            }
            lemma_split_of_join(p);
            lemma_resolve_keeps_plain_tail(Seq::empty(), p);
            assert(Seq::<Seq<char>>::empty() + p =~= p);
        }
    }
    let empty_piece = Seq::<char>::empty();
    assert(resolve_segments(seq![empty_piece]) =~= Seq::<Seq<char>>::empty()) by {
        reveal_with_fuel(resolve_segments, 2);
        assert(seq![empty_piece].drop_last() =~= Seq::<Seq<char>>::empty());
    }
    assert forall|i: int| 0 <= i < split_path(rel).len() implies !is_parent_dir(
        #[trigger] split_path(rel)[i],
    ) by {
        if p.len() == 0 {
            lemma_dot_is_dropped();
        } else {
            assert forall|k: int| 0 <= k < p.len() implies !(#[trigger] p[k]).contains('/') by {
                assert(is_plain_segment(p[k]));
            }
            lemma_split_of_join(p);
            assert(is_plain_segment(p[i]));
        }
    }
    if root.len() == 0 {
        assert(split_path(root) =~= seq![empty_piece]);
        assert(resolve_path(root) + p =~= p);
    } else if root.last() == '/' {
        let stem = root.drop_last();
        assert(stem.push('/') =~= root);
        lemma_split_around_separator(stem, rel);
        assert(split_path(root) == split_path(stem).push(empty_piece));
        assert(split_path(stem).push(empty_piece).drop_last() =~= split_path(stem));
        assert(resolve_path(root) == resolve_segments(split_path(stem)));
        lemma_resolve_over_concat(split_path(stem), split_path(rel), p);
    } else {
        lemma_split_around_separator(root, rel);
        lemma_resolve_over_concat(split_path(root), split_path(rel), p);
    }
    assert((resolve_path(root) + p).take(resolve_path(root).len() as int) =~= resolve_path(root));
}

/// Resolution of a list whose tail resolves, on its own, to plain segments
/// without ever stepping back.
proof fn lemma_resolve_over_concat(head: Seq<Seq<char>>, tail: Seq<Seq<char>>, p: Seq<Seq<char>>)
    requires
        is_safe_path(p),
        resolve_segments(tail) == p,
        forall|i: int| 0 <= i < tail.len() ==> !is_parent_dir(#[trigger] tail[i]),
    ensures
        resolve_segments(head + tail) == resolve_segments(head) + p,
    decreases tail.len(),
{
    if tail.len() == 0 {
        assert(head + tail =~= head);
        assert(resolve_segments(head) + p =~= resolve_segments(head));
    } else {
        assert((head + tail).drop_last() =~= head + tail.drop_last());
        assert((head + tail).last() == tail.last());
        assert(!is_parent_dir(tail[tail.len() - 1]));
        let before = resolve_segments(tail.drop_last());
        assert forall|i: int| 0 <= i < tail.drop_last().len() implies !is_parent_dir(
            #[trigger] tail.drop_last()[i],
        ) by {
            assert(!is_parent_dir(tail[i]));
        }
        if is_dropped(tail.last()) {
            lemma_resolve_over_concat(head, tail.drop_last(), p);
        } else {
            assert(p == before.push(tail.last()));
            assert(p.drop_last() =~= before);
            assert(is_safe_path(before)) by {
                assert forall|i: int| 0 <= i < before.len() implies is_plain_segment(
                    #[trigger] before[i],
                ) by {
                    assert(is_plain_segment(p[i]));
                }
            }
            lemma_resolve_over_concat(head, tail.drop_last(), before);
            assert((resolve_segments(head) + before).push(tail.last()) =~= resolve_segments(head)
                + p);
        }
    }
}

} // verus!
