//! Comparing texts and finding one text inside another.

use crate::text::chars_of;
use vstd::prelude::*;
use vstd::string::*;

verus! {

/// Whether `pattern` stands in `s` at position `i`.
pub open spec fn occurs_at(s: Seq<char>, pattern: Seq<char>, i: int) -> bool {
    0 <= i && i + pattern.len() <= s.len() && s.subrange(i, i + pattern.len()) == pattern
}

/// The first position at or after `i` where `pattern` stands in `s`.
pub open spec fn first_from(s: Seq<char>, pattern: Seq<char>, i: int) -> Option<int>
    decreases s.len() - i + 1,
{
    if i + pattern.len() > s.len() {
        None
    } else if occurs_at(s, pattern, i) {
        Some(i)
    } else {
        first_from(s, pattern, i + 1)
    }
}

/// The first position where `pattern` stands in `s`.
pub open spec fn first_occurrence(s: Seq<char>, pattern: Seq<char>) -> Option<int> {
    first_from(s, pattern, 0)
}

/// The last position at or before `i` where `pattern` stands in `s`.
pub open spec fn last_upto(s: Seq<char>, pattern: Seq<char>, i: int) -> Option<int>
    decreases i + 1,
{
    if i < 0 {
        None
    } else if occurs_at(s, pattern, i) {
        Some(i)
    } else {
        last_upto(s, pattern, i - 1)
    }
}

/// The last position where `pattern` stands in `s`.
pub open spec fn last_occurrence(s: Seq<char>, pattern: Seq<char>) -> Option<int> {
    last_upto(s, pattern, s.len() - pattern.len())
}

proof fn lemma_first_from(s: Seq<char>, pattern: Seq<char>, i: int)
    requires
        0 <= i,
    ensures
        match first_from(s, pattern, i) {
            Some(k) => i <= k && occurs_at(s, pattern, k) && forall|j: int|
                i <= j < k ==> !occurs_at(s, pattern, j),
            None => forall|j: int| i <= j ==> !occurs_at(s, pattern, j),
        },
    decreases s.len() - i + 1,
{
    if i + pattern.len() <= s.len() && !occurs_at(s, pattern, i) {
        lemma_first_from(s, pattern, i + 1);
    }
}

proof fn lemma_last_upto(s: Seq<char>, pattern: Seq<char>, i: int)
    ensures
        match last_upto(s, pattern, i) {
            Some(k) => k <= i && occurs_at(s, pattern, k) && forall|j: int|
                k < j <= i ==> !occurs_at(s, pattern, j),
            None => forall|j: int| j <= i ==> !occurs_at(s, pattern, j),
        },
    decreases i + 1,
{
    if i >= 0 && !occurs_at(s, pattern, i) {
        lemma_last_upto(s, pattern, i - 1);
    }
}

/// The first occurrence is an occurrence and none stands before it; where there is no first
/// occurrence there is none at all.
pub proof fn law_first_occurrence(s: Seq<char>, pattern: Seq<char>)
    ensures
        match first_occurrence(s, pattern) {
            Some(k) => occurs_at(s, pattern, k) && forall|j: int|
                j < k ==> !occurs_at(s, pattern, j),
            None => forall|j: int| !occurs_at(s, pattern, j),
        },
{
    lemma_first_from(s, pattern, 0);
}

/// The last occurrence is an occurrence and none stands after it; where there is no last
/// occurrence there is none at all.
pub proof fn law_last_occurrence(s: Seq<char>, pattern: Seq<char>)
    ensures
        match last_occurrence(s, pattern) {
            Some(k) => occurs_at(s, pattern, k) && forall|j: int|
                j > k ==> !occurs_at(s, pattern, j),
            None => forall|j: int| !occurs_at(s, pattern, j),
        },
{
    lemma_last_upto(s, pattern, s.len() - pattern.len());
}

/// Whether `pattern` stands in `chars` at position `at`.
fn stands_at(chars: &Vec<char>, pattern: &Vec<char>, at: usize) -> (answer: bool)
    requires
        at + pattern@.len() <= chars@.len(),
    ensures
        answer == occurs_at(chars@, pattern@, at as int),
{
    let total = chars.len();
    let mut i: usize = 0;
    while i < pattern.len()
        invariant
            i <= pattern@.len(),
            total == chars@.len(),
            at + pattern@.len() <= total,
            forall|j: int| 0 <= j < i ==> chars@[at + j] == #[trigger] pattern@[j],
        decreases pattern@.len() - i,
    {
        if chars[at + i] != pattern[i] {
            assert(chars@.subrange(at as int, at + pattern@.len())[i as int] != pattern@[i as int]);
            return false;
        }
        i = i + 1;
    }
    assert(chars@.subrange(at as int, at + pattern@.len()) =~= pattern@);
    true
}

/// The position of the first occurrence of `pattern`, counted in characters.
pub fn find(text: &str, pattern: &str) -> (position: Option<usize>)
    ensures
        match position {
            Some(i) => first_occurrence(text@, pattern@) == Some(i as int),
            None => first_occurrence(text@, pattern@) is None,
        },
{
    let chars = chars_of(text);
    let wanted = chars_of(pattern);
    let mut i: usize = 0;
    while wanted.len() <= chars.len() - i
        invariant
            i <= chars@.len(),
            chars@ == text@,
            wanted@ == pattern@,
            first_occurrence(text@, pattern@) == first_from(text@, pattern@, i as int),
        decreases chars@.len() - i,
    {
        if stands_at(&chars, &wanted, i) {
            return Some(i);
        }
        if i == chars.len() {
            assert(first_from(text@, pattern@, i + 1) is None);
            return None;
        }
        i = i + 1;
    }
    None
}

/// The position of the last occurrence of `pattern`, counted in characters.
pub fn rfind(text: &str, pattern: &str) -> (position: Option<usize>)
    ensures
        match position {
            Some(i) => last_occurrence(text@, pattern@) == Some(i as int),
            None => last_occurrence(text@, pattern@) is None,
        },
{
    let chars = chars_of(text);
    let wanted = chars_of(pattern);
    if wanted.len() > chars.len() {
        return None;
    }
    let mut i: usize = chars.len() - wanted.len();
    loop
        invariant
            i + wanted@.len() <= chars@.len(),
            chars@ == text@,
            wanted@ == pattern@,
            last_occurrence(text@, pattern@) == last_upto(text@, pattern@, i as int),
        decreases i,
    {
        if stands_at(&chars, &wanted, i) {
            return Some(i);
        }
        if i == 0 {
            assert(last_upto(text@, pattern@, -1) is None);
            return None;
        }
        i = i - 1;
    }
}

/// Whether a text begins with `prefix`.
pub fn starts_with(text: &str, prefix: &str) -> (answer: bool)
    ensures
        answer == prefix@.is_prefix_of(text@),
{
    let chars = chars_of(text);
    let wanted = chars_of(prefix);
    wanted.len() <= chars.len() && stands_at(&chars, &wanted, 0)
}

/// Whether two texts are the same.
pub fn same_text(a: &str, b: &str) -> (answer: bool)
    ensures
        answer == (a@ == b@),
{
    let left = chars_of(a);
    let right = chars_of(b);
    if left.len() != right.len() {
        return false;
    }
    let answer = stands_at(&left, &right, 0);
    assert(left@.subrange(0, right@.len() as int) =~= left@);
    answer
}

/// The text with every `from` turned into `to`.
pub open spec fn replaced(s: Seq<char>, from: char, to: char) -> Seq<char> {
    s.map_values(
        |c: char|
            if c == from {
                to
            } else {
                c
            },
    )
}

/// Turns every `from` in a text into `to`.
pub fn replace(text: &str, from: char, to: char) -> (result: String)
    ensures
        result@ == replaced(text@, from, to),
{
    let chars = chars_of(text);
    let mut result = String::new();
    let mut i: usize = 0;
    while i < chars.len()
        invariant
            i <= chars@.len(),
            chars@ == text@,
            result@ == replaced(text@, from, to).take(i as int),
        decreases chars@.len() - i,
    {
        if chars[i] == from {
            result.push(to);
        } else {
            result.push(chars[i]);
        }
        i = i + 1;
        assert(result@ =~= replaced(text@, from, to).take(i as int));
    }
    assert(result@ =~= replaced(text@, from, to));
    result
}

/// A pattern stands at a position where it fits and all of its characters agree.
pub proof fn law_occurs_at(s: Seq<char>, pattern: Seq<char>, i: int)
    ensures
        occurs_at(s, pattern, i) <==> 0 <= i && i + pattern.len() <= s.len() && forall|j: int|
            0 <= j < pattern.len() ==> s[i + j] == #[trigger] pattern[j],
{
    if 0 <= i && i + pattern.len() <= s.len() {
        let found = s.subrange(i, i + pattern.len());
        if forall|j: int| 0 <= j < pattern.len() ==> s[i + j] == #[trigger] pattern[j] {
            assert(found =~= pattern);
        }
        if found == pattern {
            assert forall|j: int| 0 <= j < pattern.len() implies s[i + j]
                == #[trigger] pattern[j] by {
                assert(found[j] == s[i + j]);
            }
        }
    }
}

/// Replacing keeps every character in its place, but for those that are replaced.
pub proof fn law_replaced(s: Seq<char>, from: char, to: char)
    ensures
        replaced(s, from, to).len() == s.len(),
        forall|i: int|
            0 <= i < s.len() && s[i] == from ==> #[trigger] replaced(s, from, to)[i] == to,
        forall|i: int|
            0 <= i < s.len() && s[i] != from ==> #[trigger] replaced(s, from, to)[i] == s[i],
{
}

/// A position with a pattern after which there is none is the last occurrence.
pub proof fn law_last_is_found(s: Seq<char>, pattern: Seq<char>, i: int)
    requires
        occurs_at(s, pattern, i),
        forall|j: int| j > i ==> !occurs_at(s, pattern, j),
    ensures
        last_occurrence(s, pattern) == Some(i),
{
    law_last_occurrence(s, pattern);
}

/// A position with a pattern before which there is none is the first occurrence.
pub proof fn law_first_is_found(s: Seq<char>, pattern: Seq<char>, i: int)
    requires
        occurs_at(s, pattern, i),
        forall|j: int| j < i ==> !occurs_at(s, pattern, j),
    ensures
        first_occurrence(s, pattern) == Some(i),
{
    law_first_occurrence(s, pattern);
}

} // verus!
