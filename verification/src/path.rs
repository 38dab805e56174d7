//! Short forms of file paths.

use crate::search::{
    last_occurrence, law_last_is_found, law_last_occurrence, law_occurs_at, occurs_at, replace,
    replaced, rfind,
};
use vstd::prelude::*;
use vstd::string::*;

verus! {

/// The path with `/` for every `\`.
pub open spec fn with_slashes(path: Seq<char>) -> Seq<char> {
    replaced(path, '\\', '/')
}

/// The part of a path that a report shows: from the last directory `pkg` on; where there is
/// none, from the last `cmd` on, or else the last `internal`; where there is none of them, the
/// bare file name. Such a directory counts only where a `/` stands before it and behind it.
pub open spec fn compacted(path: Seq<char>) -> Seq<char> {
    let p = with_slashes(path);
    match last_occurrence(p, "/pkg/"@) {
        Some(i) => "pkg/"@ + p.skip(i + 5),
        None => match last_occurrence(p, "/cmd/"@) {
            Some(i) => "cmd/"@ + p.skip(i + 5),
            None => match last_occurrence(p, "/internal/"@) {
                Some(i) => "internal/"@ + p.skip(i + 10),
                None => match last_occurrence(p, "/"@) {
                    Some(i) => p.skip(i + 1),
                    None => p,
                },
            },
        },
    }
}

/// `directory` and what stands behind position `from` of a path.
fn from_directory(directory: &str, path: &str, from: usize) -> (result: String)
    requires
        from <= path@.len(),
    ensures
        result@ == directory@ + path@.skip(from as int),
{
    let mut result = String::new();
    result.append(directory);
    result.append(path.substring_char(from, path.unicode_len()));
    assert(result@ =~= directory@ + path@.skip(from as int));
    result
}

/// Shortens a file path for a report.
pub fn compact_path(path: &str) -> (result: String)
    ensures
        result@ == compacted(path@),
{
    let slashed = replace(path, '\\', '/');
    let p = slashed.as_str();
    // Every position in the path fits in a `usize`.
    let length = p.unicode_len();
    proof {
        assert(length == p@.len());
        law_last_occurrence(p@, "/pkg/"@);
        law_last_occurrence(p@, "/cmd/"@);
        law_last_occurrence(p@, "/internal/"@);
        law_last_occurrence(p@, "/"@);
        reveal_strlit("/pkg/");
        reveal_strlit("/cmd/");
        reveal_strlit("/internal/");
        reveal_strlit("/");
        reveal_strlit("");
    }
    if let Some(i) = rfind(p, "/pkg/") {
        from_directory("pkg/", p, i + 5)
    } else if let Some(i) = rfind(p, "/cmd/") {
        from_directory("cmd/", p, i + 5)
    } else if let Some(i) = rfind(p, "/internal/") {
        from_directory("internal/", p, i + 10)
    } else if let Some(i) = rfind(p, "/") {
        let name = from_directory("", p, i + 1);
        assert(name@ =~= p@.skip(i + 1));
        name
    } else {
        slashed
    }
}

/// What is shown of a path is a tail of it, cut behind a slash or not cut at all.
pub proof fn law_compacted_is_a_tail(path: Seq<char>) -> (from: int)
    ensures
        0 <= from <= path.len(),
        compacted(path) == with_slashes(path).skip(from),
        from == 0 || with_slashes(path)[from - 1] == '/',
{
    let p = with_slashes(path);
    reveal_strlit("/pkg/");
    reveal_strlit("/cmd/");
    reveal_strlit("/internal/");
    reveal_strlit("/");
    reveal_strlit("pkg/");
    reveal_strlit("cmd/");
    reveal_strlit("internal/");
    law_last_occurrence(p, "/pkg/"@);
    law_last_occurrence(p, "/cmd/"@);
    law_last_occurrence(p, "/internal/"@);
    law_last_occurrence(p, "/"@);
    if let Some(i) = last_occurrence(p, "/pkg/"@) {
        lemma_directory_is_a_tail(p, "/pkg/"@, "pkg/"@, i);
        i + 1
    } else if let Some(i) = last_occurrence(p, "/cmd/"@) {
        lemma_directory_is_a_tail(p, "/cmd/"@, "cmd/"@, i);
        i + 1
    } else if let Some(i) = last_occurrence(p, "/internal/"@) {
        lemma_directory_is_a_tail(p, "/internal/"@, "internal/"@, i);
        i + 1
    } else if let Some(i) = last_occurrence(p, "/"@) {
        assert(p.subrange(i, i + 1)[0] == '/');
        i + 1
    } else {
        assert(p.skip(0) =~= p);
        0
    }
}

proof fn lemma_directory_is_a_tail(
    p: Seq<char>,
    marker: Seq<char>,
    directory: Seq<char>,
    at: int,
)
    requires
        occurs_at(p, marker, at),
        marker.len() > 0,
        marker[0] == '/',
        directory =~= marker.skip(1),
    ensures
        directory + p.skip(at + marker.len()) == p.skip(at + 1),
        p[at] == '/',
{
    let found = p.subrange(at, at + marker.len());
    assert(found[0] == p[at]);
    assert forall|i: int| 0 <= i < directory.len() implies directory[i] == p[at + 1 + i] by {
        assert(found[i + 1] == p[at + 1 + i]);
    }
    assert(directory + p.skip(at + marker.len()) =~= p.skip(at + 1));
}

/// Both kinds of slash count the same, and what is shown holds no `\\`.
pub proof fn law_slashes_count_the_same(path: Seq<char>)
    ensures
        compacted(with_slashes(path)) == compacted(path),
        !compacted(path).contains('\\'),
{
    assert(with_slashes(with_slashes(path)) =~= with_slashes(path));
    let from = law_compacted_is_a_tail(path);
    if compacted(path).contains('\\') {
        let i = choose|i: int| 0 <= i < compacted(path).len() && compacted(path)[i] == '\\';
        assert(compacted(path)[i] == with_slashes(path)[from + i]);
    }
}

/// Of a path with none of the known directories only the file name is shown.
pub proof fn law_bare_file_name(path: Seq<char>)
    requires
        forall|i: int|
            !occurs_at(with_slashes(path), "/pkg/"@, i) && !occurs_at(
                with_slashes(path),
                "/cmd/"@,
                i,
            ) && !(#[trigger] occurs_at(with_slashes(path), "/internal/"@, i)),
    ensures
        !compacted(path).contains('/'),
{
    let p = with_slashes(path);
    law_last_occurrence(p, "/pkg/"@);
    law_last_occurrence(p, "/cmd/"@);
    law_last_occurrence(p, "/internal/"@);
    law_last_occurrence(p, "/"@);
    reveal_strlit("/");
    if let Some(i) = last_occurrence(p, "/pkg/"@) {
        assert(!occurs_at(p, "/internal/"@, i));
    }
    if let Some(i) = last_occurrence(p, "/cmd/"@) {
        assert(!occurs_at(p, "/internal/"@, i));
    }
    if compacted(path).contains('/') {
        let i = choose|i: int| 0 <= i < compacted(path).len() && compacted(path)[i] == '/';
        let k = i + p.len() - compacted(path).len();
        assert(p[k] == '/');
        assert(p.subrange(k, k + 1) =~= "/"@);
        assert(occurs_at(p, "/"@, k));
    }
}

/// Every backslash becomes a slash, and every other character stays in its place.
pub proof fn law_with_slashes(path: Seq<char>)
    ensures
        with_slashes(path).len() == path.len(),
        forall|i: int|
            0 <= i < path.len() ==> #[trigger] with_slashes(path)[i] == if path[i] == '\\' {
                '/'
            } else {
                path[i]
            },
{
}

/// A path is shown from its last directory `pkg` on, however long it is and whatever else stands
/// in it.
pub proof fn law_shown_from_pkg(path: Seq<char>, i: int)
    requires
        occurs_at(with_slashes(path), "/pkg/"@, i),
        forall|j: int| j > i ==> !occurs_at(with_slashes(path), "/pkg/"@, j),
    ensures
        compacted(path) == with_slashes(path).skip(i + 1),
{
    reveal_strlit("/pkg/");
    reveal_strlit("pkg/");
    law_last_is_found(with_slashes(path), "/pkg/"@, i);
    lemma_directory_is_a_tail(with_slashes(path), "/pkg/"@, "pkg/"@, i);
}

/// A path without a directory `pkg` is shown from its last directory `cmd` on.
pub proof fn law_shown_from_cmd(path: Seq<char>, i: int)
    requires
        forall|j: int| !occurs_at(with_slashes(path), "/pkg/"@, j),
        occurs_at(with_slashes(path), "/cmd/"@, i),
        forall|j: int| j > i ==> !occurs_at(with_slashes(path), "/cmd/"@, j),
    ensures
        compacted(path) == with_slashes(path).skip(i + 1),
{
    reveal_strlit("/cmd/");
    reveal_strlit("cmd/");
    law_last_occurrence(with_slashes(path), "/pkg/"@);
    law_last_is_found(with_slashes(path), "/cmd/"@, i);
    lemma_directory_is_a_tail(with_slashes(path), "/cmd/"@, "cmd/"@, i);
}

/// A path with neither `pkg` nor `cmd` is shown from its last directory `internal` on.
pub proof fn law_shown_from_internal(path: Seq<char>, i: int)
    requires
        forall|j: int| !occurs_at(with_slashes(path), "/pkg/"@, j),
        forall|j: int| !occurs_at(with_slashes(path), "/cmd/"@, j),
        occurs_at(with_slashes(path), "/internal/"@, i),
        forall|j: int| j > i ==> !occurs_at(with_slashes(path), "/internal/"@, j),
    ensures
        compacted(path) == with_slashes(path).skip(i + 1),
{
    reveal_strlit("/internal/");
    reveal_strlit("internal/");
    law_last_occurrence(with_slashes(path), "/pkg/"@);
    law_last_occurrence(with_slashes(path), "/cmd/"@);
    law_last_is_found(with_slashes(path), "/internal/"@, i);
    lemma_directory_is_a_tail(with_slashes(path), "/internal/"@, "internal/"@, i);
}

/// Of a path with none of the known directories all that stands behind `from` is shown, where
/// `from` is behind the last slash, or the beginning where there is no slash.
pub proof fn law_shown_from_last_slash(path: Seq<char>, from: int)
    requires
        forall|j: int| !occurs_at(with_slashes(path), "/pkg/"@, j),
        forall|j: int| !occurs_at(with_slashes(path), "/cmd/"@, j),
        forall|j: int| !occurs_at(with_slashes(path), "/internal/"@, j),
        0 <= from <= path.len(),
        from > 0 ==> with_slashes(path)[from - 1] == '/',
        forall|j: int| from <= j < path.len() ==> (#[trigger] with_slashes(path)[j]) != '/',
    ensures
        compacted(path) == with_slashes(path).skip(from),
{
    let p = with_slashes(path);
    reveal_strlit("/");
    law_last_occurrence(p, "/pkg/"@);
    law_last_occurrence(p, "/cmd/"@);
    law_last_occurrence(p, "/internal/"@);
    law_last_occurrence(p, "/"@);
    assert forall|j: int| j >= from implies !occurs_at(p, "/"@, j) by {
        law_occurs_at(p, "/"@, j);
        if occurs_at(p, "/"@, j) {
            assert(p[j + 0] == "/"@[0]);
        }
    }
    if from > 0 {
        assert(p.subrange(from - 1, from) =~= "/"@);
        assert(occurs_at(p, "/"@, from - 1));
        law_last_is_found(p, "/"@, from - 1);
    } else {
        assert(p.skip(0) =~= p);
        if let Some(k) = last_occurrence(p, "/"@) {
            assert(occurs_at(p, "/"@, k));
        }
    }
}

} // verus!
