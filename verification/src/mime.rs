//! Content types by file extension.

use vstd::prelude::*;
use crate::path::{chars_view, is_parent_dir, kept_segments, split_path, split_text};
use crate::text::{lowercase_of, str_eq, string_of, to_lowercase};

verus! {

/// The content type of each known extension, written in lowercase; the
/// generic binary type for every other text.
pub open spec fn mime_of_lowercase(ext: Seq<char>) -> Seq<char> {
    if ext == "html"@ || ext == "htm"@ {
        "text/html; charset=utf-8"@
    } else if ext == "css"@ {
        "text/css; charset=utf-8"@
    } else if ext == "js"@ || ext == "mjs"@ {
        "application/javascript; charset=utf-8"@
    } else if ext == "json"@ {
        "application/json"@
    } else if ext == "png"@ {
        "image/png"@
    } else if ext == "jpg"@ || ext == "jpeg"@ {
        "image/jpeg"@
    } else if ext == "gif"@ {
        "image/gif"@
    } else if ext == "svg"@ {
        "image/svg+xml"@
    } else if ext == "ico"@ {
        "image/x-icon"@
    } else if ext == "woff"@ {
        "font/woff"@
    } else if ext == "woff2"@ {
        "font/woff2"@
    } else if ext == "ttf"@ {
        "font/ttf"@
    } else if ext == "otf"@ {
        "font/otf"@
    } else if ext == "webp"@ {
        "image/webp"@
    } else if ext == "avif"@ {
        "image/avif"@
    } else if ext == "mp4"@ {
        "video/mp4"@
    } else if ext == "webm"@ {
        "video/webm"@
    } else if ext == "pdf"@ {
        "application/pdf"@
    } else if ext == "xml"@ {
        "application/xml"@
    } else if ext == "txt"@ || ext == "md"@ {
        "text/plain; charset=utf-8"@
    } else if ext == "wasm"@ {
        "application/wasm"@
    } else {
        "application/octet-stream"@
    }
}

/// The content type for an extension that is already in lowercase.
pub fn mime_for_lowercase(ext: &str) -> (r: &'static str)
    ensures
        r@ == mime_of_lowercase(ext@),
{
    if str_eq(ext, "html") || str_eq(ext, "htm") {
        "text/html; charset=utf-8"
    } else if str_eq(ext, "css") {
        "text/css; charset=utf-8"
    } else if str_eq(ext, "js") || str_eq(ext, "mjs") {
        "application/javascript; charset=utf-8"
    } else if str_eq(ext, "json") {
        "application/json"
    } else if str_eq(ext, "png") {
        "image/png"
    } else if str_eq(ext, "jpg") || str_eq(ext, "jpeg") {
        "image/jpeg"
    } else if str_eq(ext, "gif") {
        "image/gif"
    } else if str_eq(ext, "svg") {
        "image/svg+xml"
    } else if str_eq(ext, "ico") {
        "image/x-icon"
    } else if str_eq(ext, "woff") {
        "font/woff"
    } else if str_eq(ext, "woff2") {
        "font/woff2"
    } else if str_eq(ext, "ttf") {
        "font/ttf"
    } else if str_eq(ext, "otf") {
        "font/otf"
    } else if str_eq(ext, "webp") {
        "image/webp"
    } else if str_eq(ext, "avif") {
        "image/avif"
    } else if str_eq(ext, "mp4") {
        "video/mp4"
    } else if str_eq(ext, "webm") {
        "video/webm"
    } else if str_eq(ext, "pdf") {
        "application/pdf"
    } else if str_eq(ext, "xml") {
        "application/xml"
    } else if str_eq(ext, "txt") || str_eq(ext, "md") {
        "text/plain; charset=utf-8"
    } else if str_eq(ext, "wasm") {
        "application/wasm"
    } else {
        "application/octet-stream"
    }
}

/// The content type for a file extension, whatever its case.
pub fn mime_from_extension(ext: &str) -> (r: &'static str)
    ensures
        r@ == mime_of_lowercase(lowercase_of(ext@)),
{
    let lower = to_lowercase(ext);
    mime_for_lowercase(lower.as_str())
}

/// The place of the last dot in `name`, or -1 where it holds none.
pub open spec fn last_dot(name: Seq<char>) -> int
    decreases name.len(),
{
    if name.len() == 0 {
        -1
    } else if name.last() == '.' {
        name.len() - 1
    } else {
        last_dot(name.drop_last())
    }
}

/// The extension of a file name: what follows its last dot, unless that
/// dot is the name's first character or the name holds no dot at all.
pub open spec fn extension_of_name(name: Seq<char>) -> Seq<char> {
    if last_dot(name) > 0 {
        name.skip(last_dot(name) + 1)
    } else {
        Seq::empty()
    }
}

/// The name of the file that a path ends in: its last segment that is
/// neither empty nor `.`, unless that is `..`.
pub open spec fn file_name_of(path: Seq<char>) -> Seq<char> {
    let kept = kept_segments(split_path(path));
    if kept.len() == 0 || is_parent_dir(kept.last()) {
        Seq::empty()
    } else {
        kept.last()
    }
}

/// The extension of the file that a path ends in, or the empty text.
pub open spec fn extension_of(path: Seq<char>) -> Seq<char> {
    extension_of_name(file_name_of(path))
}

/// The last dot of a text lies within it, and no dot follows it.
pub proof fn law_last_dot_is_last(name: Seq<char>)
    ensures
        -1 <= last_dot(name) < name.len(),
        last_dot(name) >= 0 ==> name[last_dot(name)] == '.',
        forall|i: int| last_dot(name) < i < name.len() ==> name[i] != '.',
    decreases name.len(),
{
    if name.len() > 0 && name.last() != '.' {
        law_last_dot_is_last(name.drop_last());
        assert forall|i: int| last_dot(name) < i < name.len() implies name[i] != '.' by {
            if i < name.len() - 1 {
                assert(name.drop_last()[i] == name[i]);
            }
        }
    }
}

/// The extension of the file that `path` ends in, or the empty text when
/// it has none.
pub fn file_extension(path: &str) -> (r: String)
    ensures
        r@ == extension_of(path@),
{
    let pieces = split_text(path);
    let ghost all = chars_view(pieces@);
    let mut last: Option<usize> = None;
    let mut i: usize = 0;
    proof {
        assert(all.take(0) =~= Seq::<Seq<char>>::empty());
        reveal(Seq::filter);
    }
    while i < pieces.len()
        invariant
            i <= pieces.len(),
            all == chars_view(pieces@),
            match last {
                Some(k) => k < i && kept_segments(all.take(i as int)).len() > 0 && kept_segments(
                    all.take(i as int),
                ).last() == all[k as int],
                None => kept_segments(all.take(i as int)).len() == 0,
            },
        decreases pieces.len() - i,
    {
        proof {
            assert(all.take(i + 1) =~= all.take(i as int).push(all[i as int]));
            crate::path::kept_segments_push(all.take(i as int), all[i as int]);
        }
        let piece = &pieces[i];
        if !(piece.len() == 0 || (piece.len() == 1 && piece[0] == '.')) {
            last = Some(i);
        }
        i += 1;
    }
    proof {
        assert(all.take(pieces.len() as int) =~= all);
    }
    let name = match last {
        None => {
            let empty = String::new();
            assert(extension_of_name(Seq::<char>::empty()) =~= Seq::<char>::empty());
            return empty;
        },
        Some(k) => &pieces[k],
    };
    if name.len() == 2 && name[0] == '.' && name[1] == '.' {
        let empty = String::new();
        assert(extension_of_name(Seq::<char>::empty()) =~= Seq::<char>::empty());
        return empty;
    }
    // The last dot of the name.
    let mut dot: usize = name.len();
    assert(name@.take(name.len() as int) =~= name@);
    while dot > 0 && name[dot - 1] != '.'
        invariant
            dot <= name.len(),
            last_dot(name@) == last_dot(name@.take(dot as int)),
        decreases dot,
    {
        proof {
            assert(name@.take(dot as int).drop_last() =~= name@.take(dot - 1));
        }
        dot -= 1;
    }
    proof {
        assert(name@.take(name.len() as int) =~= name@);
        if dot > 0 {
            assert(name@.take(dot as int).last() == '.');
        }
    }
    if dot <= 1 {
        // No dot at all (0), or the only dot comes first (1).
        let empty = String::new();
        assert(empty@ =~= extension_of_name(name@));
        return empty;
    }
    let mut ext: Vec<char> = Vec::new();
    let mut j: usize = dot;
    while j < name.len()
        invariant
            dot <= j <= name.len(),
            ext@ == name@.subrange(dot as int, j as int),
        decreases name.len() - j,
    {
        ext.push(name[j]);
        assert(name@.subrange(dot as int, j + 1) =~= name@.subrange(dot as int, j as int).push(
            name@[j as int],
        ));
        j += 1;
    }
    assert(ext@ =~= name@.skip(dot as int));
    string_of(&ext)
}

/// The content type that a file at `path` is served with.
pub fn content_type_of(path: &str) -> (r: &'static str)
    ensures
        r@ == mime_of_lowercase(lowercase_of(extension_of(path@))),
{
    let ext = file_extension(path);
    mime_from_extension(ext.as_str())
}

} // verus!
