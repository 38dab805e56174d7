//! Plain operations on text, stated over sequences of characters.

use vstd::prelude::*;
use vstd::string::*;

verus! {

/// `String::push` appends one character to the end of the text.
pub assume_specification[ String::push ](text: &mut String, c: char)
    ensures
        final(text)@ == old(text)@.push(c),
;

/// The texts that some strings hold.
pub open spec fn texts(strings: Seq<String>) -> Seq<Seq<char>> {
    strings.map_values(|s: String| s@)
}

/// The characters with the Unicode property `White_Space`.
pub open spec fn white_space(c: char) -> bool {
    ||| '\u{9}' <= c <= '\u{d}'
    ||| c == '\u{20}'
    ||| c == '\u{85}'
    ||| c == '\u{a0}'
    ||| c == '\u{1680}'
    ||| '\u{2000}' <= c <= '\u{200a}'
    ||| c == '\u{2028}'
    ||| c == '\u{2029}'
    ||| c == '\u{202f}'
    ||| c == '\u{205f}'
    ||| c == '\u{3000}'
}

/// Whether a character is white space.
pub fn is_whitespace(c: char) -> (answer: bool)
    ensures
        answer == white_space(c),
{
    ('\u{9}' <= c && c <= '\u{d}') || c == '\u{20}' || c == '\u{85}' || c == '\u{a0}' || c
        == '\u{1680}' || ('\u{2000}' <= c && c <= '\u{200a}') || c == '\u{2028}' || c == '\u{2029}'
        || c == '\u{202f}' || c == '\u{205f}' || c == '\u{3000}'
}

/// The characters of a text, in order.
pub fn chars_of(text: &str) -> (chars: Vec<char>)
    ensures
        chars@ == text@,
{
    let mut chars: Vec<char> = Vec::new();
    for c in it: text.chars()
        invariant
            chars@ == it.seq().take(it.index()),
            it.seq() == text@,
    {
        chars.push(c);
    }
    chars
}

/// The text without its leading white space.
pub open spec fn trim_start(s: Seq<char>) -> Seq<char>
    decreases s.len(),
{
    if s.len() > 0 && white_space(s[0]) {
        trim_start(s.skip(1))
    } else {
        s
    }
}

/// The text without its trailing white space.
pub open spec fn trim_end(s: Seq<char>) -> Seq<char>
    decreases s.len(),
{
    if s.len() > 0 && white_space(s.last()) {
        trim_end(s.drop_last())
    } else {
        s
    }
}

/// The text without white space at either end.
pub open spec fn trimmed(s: Seq<char>) -> Seq<char> {
    trim_end(trim_start(s))
}

/// Skipping all of the leading white space, and no more, is `trim_start`.
pub(crate) proof fn lemma_trim_start(s: Seq<char>, k: int)
    requires
        0 <= k <= s.len(),
        forall|i: int| 0 <= i < k ==> white_space(#[trigger] s[i]),
        k < s.len() ==> !white_space(s[k]),
    ensures
        trim_start(s) == s.skip(k),
    decreases k,
{
    if k > 0 {
        let rest = s.skip(1);
        assert forall|i: int| 0 <= i < k - 1 implies white_space(#[trigger] rest[i]) by {
            assert(rest[i] == s[i + 1]);
        }
        assert(white_space(s[0]));
        lemma_trim_start(rest, k - 1);
        assert(rest.skip(k - 1) =~= s.skip(k));
    } else {
        assert(s.skip(0) =~= s);
    }
}

/// Dropping all of the trailing white space, and no more, is `trim_end`.
pub(crate) proof fn lemma_trim_end(s: Seq<char>, k: int)
    requires
        0 <= k <= s.len(),
        forall|i: int| k <= i < s.len() ==> white_space(#[trigger] s[i]),
        k > 0 ==> !white_space(s[k - 1]),
    ensures
        trim_end(s) == s.take(k),
    decreases s.len() - k,
{
    if k < s.len() {
        let front = s.drop_last();
        assert forall|i: int| k <= i < front.len() implies white_space(#[trigger] front[i]) by {
            assert(front[i] == s[i]);
        }
        assert(white_space(s[s.len() - 1]));
        lemma_trim_end(front, k);
        assert(front.take(k) =~= s.take(k));
    } else {
        assert(s.take(k) =~= s);
    }
}

/// How many leading characters are white space.
fn leading_white_space(chars: &Vec<char>) -> (start: usize)
    ensures
        start <= chars@.len(),
        forall|i: int| 0 <= i < start ==> white_space(#[trigger] chars@[i]),
        start < chars@.len() ==> !white_space(chars@[start as int]),
        trim_start(chars@) == chars@.skip(start as int),
{
    let mut start: usize = 0;
    while start < chars.len() && is_whitespace(chars[start])
        invariant
            start <= chars@.len(),
            forall|i: int| 0 <= i < start ==> white_space(#[trigger] chars@[i]),
        decreases chars@.len() - start,
    {
        start = start + 1;
    }
    proof {
        lemma_trim_start(chars@, start as int);
    }
    start
}

/// Removes white space from both ends of a text.
pub fn trim(text: &str) -> (result: &str)
    ensures
        result@ == trimmed(text@),
{
    let chars = chars_of(text);
    let start = leading_white_space(&chars);
    let mut end: usize = chars.len();
    let ghost front = chars@.skip(start as int);
    while end > start && is_whitespace(chars[end - 1])
        invariant
            start <= end <= chars@.len(),
            front == chars@.skip(start as int),
            forall|i: int| end - start <= i < front.len() ==> white_space(#[trigger] front[i]),
        decreases end,
    {
        assert(front[end - 1 - start] == chars@[end - 1]);
        end = end - 1;
    }
    proof {
        if end > start {
            assert(front[end - start - 1] == chars@[end - 1]);
        }
        lemma_trim_end(front, end - start);
        assert(front.take(end - start) =~= text@.subrange(start as int, end as int));
    }
    text.substring_char(start, end)
}

/// The longest front part of a text that holds no character where `stop` holds.
pub open spec fn head_until(s: Seq<char>, stop: spec_fn(char) -> bool) -> Seq<char>
    decreases s.len(),
{
    if s.len() == 0 || stop(s[0]) {
        Seq::empty()
    } else {
        seq![s[0]] + head_until(s.skip(1), stop)
    }
}

/// Taking the characters up to the first stop is `head_until`.
pub(crate) proof fn lemma_head_until(s: Seq<char>, stop: spec_fn(char) -> bool, k: int)
    requires
        0 <= k <= s.len(),
        forall|i: int| 0 <= i < k ==> !stop(#[trigger] s[i]),
        k < s.len() ==> stop(s[k]),
    ensures
        head_until(s, stop) == s.take(k),
    decreases k,
{
    if k > 0 {
        let rest = s.skip(1);
        assert forall|i: int| 0 <= i < k - 1 implies !stop(#[trigger] rest[i]) by {
            assert(rest[i] == s[i + 1]);
        }
        assert(!stop(s[0]));
        lemma_head_until(rest, stop, k - 1);
        assert(seq![s[0]] + rest.take(k - 1) =~= s.take(k));
    } else {
        assert(s.take(0) =~= Seq::<char>::empty());
    }
}

/// The first of the words that white space separates; empty where there is none.
pub open spec fn first_word_of(s: Seq<char>) -> Seq<char> {
    head_until(trim_start(s), |c: char| white_space(c))
}

/// Finds the first word of a text.
pub fn first_word(text: &str) -> (word: &str)
    ensures
        word@ == first_word_of(text@),
{
    let chars = chars_of(text);
    let start = leading_white_space(&chars);
    let mut end: usize = start;
    let ghost rest = chars@.skip(start as int);
    while end < chars.len() && !is_whitespace(chars[end])
        invariant
            start <= end <= chars@.len(),
            rest == chars@.skip(start as int),
            forall|i: int| 0 <= i < end - start ==> !white_space(#[trigger] rest[i]),
        decreases chars@.len() - end,
    {
        assert(rest[end - start] == chars@[end as int]);
        end = end + 1;
    }
    proof {
        if end < chars@.len() {
            assert(rest[end - start] == chars@[end as int]);
        }
        lemma_head_until(rest, |c: char| white_space(c), end - start);
        assert(rest.take(end - start) =~= text@.subrange(start as int, end as int));
    }
    text.substring_char(start, end)
}

/// What stands before the first `.` of a text; all of it where there is none.
pub open spec fn before_dot_of(s: Seq<char>) -> Seq<char> {
    head_until(s, |c: char| c == '.')
}

/// Cuts a text at its first `.`.
pub fn before_dot(text: &str) -> (head: &str)
    ensures
        head@ == before_dot_of(text@),
{
    let chars = chars_of(text);
    let mut end: usize = 0;
    while end < chars.len() && chars[end] != '.'
        invariant
            end <= chars@.len(),
            forall|i: int| 0 <= i < end ==> (#[trigger] chars@[i]) != '.',
        decreases chars@.len() - end,
    {
        end = end + 1;
    }
    proof {
        lemma_head_until(text@, |c: char| c == '.', end as int);
    }
    text.substring_char(0, end)
}

/// The text where it has at most `max_len` characters; otherwise its front part with `...`
/// behind it, `max_len` characters in all. Below three characters only the `...` is left.
pub open spec fn truncated(s: Seq<char>, max_len: nat) -> Seq<char> {
    if s.len() <= max_len {
        s
    } else if max_len < 3 {
        "..."@
    } else {
        s.take(max_len - 3) + "..."@
    }
}

/// Shortens a text that has more than `max_len` characters: to exactly `max_len`, the last three
/// of them `...`, or to `...` alone where `max_len` is below three.
pub fn truncate(text: &str, max_len: usize) -> (result: String)
    ensures
        result@ == truncated(text@, max_len as nat),
{
    let length = text.unicode_len();
    if length <= max_len {
        return text.to_owned();
    }
    let mut result = String::new();
    if max_len >= 3 {
        result.append(text.substring_char(0, max_len - 3));
    }
    result.append("...");
    assert(result@ =~= truncated(text@, max_len as nat));
    result
}

/// Texts in a row, with `separator` between each two.
pub open spec fn joined(parts: Seq<Seq<char>>, separator: Seq<char>) -> Seq<char>
    decreases parts.len(),
{
    if parts.len() == 0 {
        Seq::empty()
    } else if parts.len() == 1 {
        parts[0]
    } else {
        joined(parts.drop_last(), separator) + separator + parts.last()
    }
}

/// Joins texts, with `separator` between each two.
pub fn join(parts: &[String], separator: &str) -> (result: String)
    ensures
        result@ == joined(texts(parts@), separator@),
{
    let mut result = String::new();
    let mut i: usize = 0;
    while i < parts.len()
        invariant
            i <= parts@.len(),
            result@ == joined(texts(parts@).take(i as int), separator@),
        decreases parts@.len() - i,
    {
        let ghost longer = texts(parts@).take(i + 1);
        assert(longer.drop_last() =~= texts(parts@).take(i as int));
        assert(longer.last() == parts@[i as int]@);
        if i > 0 {
            result.append(separator);
        }
        result.append(parts[i].as_str());
        i = i + 1;
        assert(result@ =~= joined(longer, separator@));
    }
    assert(texts(parts@).take(parts@.len() as int) =~= texts(parts@));
    result
}

/// Trimming takes white space off both ends and nothing else: what is left has none at its ends,
/// and what was taken off is white space only.
pub proof fn law_trimmed(s: Seq<char>) -> (range: (int, int))
    ensures
        0 <= range.0 <= range.1 <= s.len(),
        trimmed(s) == s.subrange(range.0, range.1),
        forall|i: int|
            0 <= i < range.0 || range.1 <= i < s.len() ==> white_space(#[trigger] s[i]),
        trimmed(s).len() > 0 ==> !white_space(trimmed(s)[0]) && !white_space(trimmed(s).last()),
        trimmed(trimmed(s)) == trimmed(s),
{
    let start = lemma_some_trim_start(s);
    let rest = s.skip(start);
    lemma_trim_start(s, start);
    let length = lemma_some_trim_end(rest);
    lemma_trim_end(rest, length);
    let result = rest.take(length);
    assert(result =~= s.subrange(start, start + length));
    assert forall|i: int|
        0 <= i < start || start + length <= i < s.len() implies white_space(#[trigger] s[i]) by {
        if i >= start {
            assert(rest[i - start] == s[i]);
        }
    }
    if length > 0 {
        assert(result[0] == rest[0]);
        assert(result.last() == rest[length - 1]);
        if white_space(rest[0]) {
            assert(s[start] == rest[0]);
        }
    }
    lemma_trim_start(result, 0);
    assert(result.skip(0) =~= result);
    (start, start + length)
}

proof fn lemma_some_trim_start(s: Seq<char>) -> (k: int)
    ensures
        0 <= k <= s.len(),
        forall|i: int| 0 <= i < k ==> white_space(#[trigger] s[i]),
        k < s.len() ==> !white_space(s[k]),
    decreases s.len(),
{
    if s.len() > 0 && white_space(s[0]) {
        let rest = s.skip(1);
        let k = lemma_some_trim_start(rest);
        assert forall|i: int| 0 <= i < k + 1 implies white_space(#[trigger] s[i]) by {
            if i > 0 {
                assert(rest[i - 1] == s[i]);
            }
        }
        k + 1
    } else {
        0
    }
}

proof fn lemma_some_trim_end(s: Seq<char>) -> (k: int)
    ensures
        0 <= k <= s.len(),
        forall|i: int| k <= i < s.len() ==> white_space(#[trigger] s[i]),
        k > 0 ==> !white_space(s[k - 1]),
    decreases s.len(),
{
    if s.len() > 0 && white_space(s.last()) {
        let front = s.drop_last();
        let k = lemma_some_trim_end(front);
        assert forall|i: int| k <= i < s.len() implies white_space(#[trigger] s[i]) by {
            if i < front.len() {
                assert(front[i] == s[i]);
            }
        }
        k
    } else {
        s.len() as int
    }
}

/// A text that was shortened to at least three characters has at most that many, and it is the
/// text itself or begins as the text does and ends in `...`.
pub proof fn law_truncated(s: Seq<char>, max_len: nat)
    requires
        max_len >= 3,
    ensures
        truncated(s, max_len).len() <= max_len,
        s.len() <= max_len ==> truncated(s, max_len) == s,
        s.len() > max_len ==> truncated(s, max_len).len() == max_len && truncated(s, max_len).take(
            max_len - 3,
        ) == s.take(max_len - 3) && "..."@.is_suffix_of(truncated(s, max_len)),
{
    reveal_strlit("...");
    if s.len() > max_len {
        let t = truncated(s, max_len);
        assert(t.take(max_len - 3) =~= s.take(max_len - 3));
        assert(t.skip(max_len - 3) =~= "..."@);
    }
}

/// Whatever stands in the strings, there is one text for each, in their order.
pub proof fn law_texts(strings: Seq<String>)
    ensures
        texts(strings).len() == strings.len(),
        forall|i: int| 0 <= i < strings.len() ==> #[trigger] texts(strings)[i] == strings[i]@,
{
}

/// The first word is the stretch without white space that follows the leading white space and
/// reaches to the next white space or to the end.
pub proof fn law_first_word(s: Seq<char>, from: int, to: int)
    requires
        0 <= from <= to <= s.len(),
        forall|i: int| 0 <= i < from ==> white_space(#[trigger] s[i]),
        forall|i: int| from <= i < to ==> !white_space(#[trigger] s[i]),
        to < s.len() ==> white_space(s[to]),
        from == to ==> to == s.len(),
    ensures
        first_word_of(s) == s.subrange(from, to),
{
    let rest = s.skip(from);
    let stop = |c: char| white_space(c);
    lemma_trim_start(s, from);
    assert forall|i: int| 0 <= i < to - from implies !stop(#[trigger] rest[i]) by {
        assert(rest[i] == s[from + i]);
    }
    if to < s.len() {
        assert(rest[to - from] == s[to]);
    }
    lemma_head_until(rest, stop, to - from);
    assert(rest.take(to - from) =~= s.subrange(from, to));
}

/// Cutting at the first dot leaves what stands before it, and the whole text where there is no
/// dot.
pub proof fn law_before_dot(s: Seq<char>, dot: int)
    requires
        0 <= dot <= s.len(),
        forall|i: int| 0 <= i < dot ==> (#[trigger] s[i]) != '.',
        dot < s.len() ==> s[dot] == '.',
    ensures
        before_dot_of(s) == s.take(dot),
{
    lemma_head_until(s, |c: char| c == '.', dot);
}

/// A text that is too long for a limit below three is shortened to `...`; one that is not too
/// long is kept.
pub proof fn law_truncated_to_dots(s: Seq<char>, max_len: nat)
    requires
        max_len < 3,
    ensures
        s.len() <= max_len ==> truncated(s, max_len) == s,
        s.len() > max_len ==> truncated(s, max_len) == "..."@,
{
}

/// Joining nothing gives nothing, and joining one text gives that text, whatever the separator.
pub proof fn law_joined_at_most_one(part: Seq<char>, separator: Seq<char>)
    ensures
        joined(Seq::empty(), separator) == Seq::<char>::empty(),
        joined(seq![part], separator) == part,
{
}

/// Joining two rows of texts at once is joining each and the results, with one separator between
/// them.
pub proof fn law_joined_in_parts(a: Seq<Seq<char>>, b: Seq<Seq<char>>, separator: Seq<char>)
    requires
        a.len() > 0,
        b.len() > 0,
    ensures
        joined(a + b, separator) == joined(a, separator) + separator + joined(b, separator),
    decreases b.len(),
{
    assert((a + b).drop_last() =~= a + b.drop_last());
    assert((a + b).last() == b.last());
    if b.len() == 1 {
        assert(a + b.drop_last() =~= a);
    } else {
        law_joined_in_parts(a, b.drop_last(), separator);
    }
    assert(joined(a + b, separator) =~= joined(a, separator) + separator + joined(b, separator));
}

/// White space by its codes: the ASCII controls 9 to 13 and the blank, and beyond ASCII the next
/// line, the spaces of fixed width and the two separators.
pub proof fn law_white_space(c: char)
    ensures
        c as int <= 127 ==> (white_space(c) <==> 9 <= c as int <= 13 || c as int == 32),
        c as int > 127 ==> (white_space(c) <==> seq![
            0x85int,
            0xa0,
            0x1680,
            0x2000,
            0x2001,
            0x2002,
            0x2003,
            0x2004,
            0x2005,
            0x2006,
            0x2007,
            0x2008,
            0x2009,
            0x200a,
            0x2028,
            0x2029,
            0x202f,
            0x205f,
            0x3000,
        ].contains(c as int)),
{
    let codes = seq![
        0x85int,
        0xa0,
        0x1680,
        0x2000,
        0x2001,
        0x2002,
        0x2003,
        0x2004,
        0x2005,
        0x2006,
        0x2007,
        0x2008,
        0x2009,
        0x200a,
        0x2028,
        0x2029,
        0x202f,
        0x205f,
        0x3000,
    ];
    assert(codes[0] == 0x85 && codes[1] == 0xa0 && codes[2] == 0x1680 && codes[14] == 0x2028
        && codes[15] == 0x2029 && codes[16] == 0x202f && codes[17] == 0x205f && codes[18]
        == 0x3000);
    assert forall|i: int| 3 <= i <= 13 implies #[trigger] codes[i] == 0x2000 + (i - 3) by {}
    if 0x2000 <= c as int <= 0x200a {
        assert(codes[3 + (c as int - 0x2000)] == c as int);
    }
}

} // verus!
