//! The major version of `golangci-lint`.

use crate::decode::{decode_lossy, utf8_lossy};
use crate::number::{decimal, is_digit, law_decimal_reads_back, parse_u8, parsed_u8};
use crate::search::{
    find, first_occurrence, law_first_is_found, law_first_occurrence, occurs_at,
};
use crate::text::{
    before_dot, before_dot_of, first_word, first_word_of, law_before_dot, law_first_word,
    law_trimmed, lemma_head_until, lemma_trim_end, lemma_trim_start, trim, trimmed, white_space,
};
use vstd::prelude::*;
use vstd::string::*;
use vstd::utf8::{decode_utf8, valid_utf8};

verus! {

/// The part of the version output that holds the version: the first word behind the first
/// `version `, or the whole trimmed output where `version ` does not occur.
pub open spec fn version_text(output: Seq<char>) -> Seq<char> {
    match first_occurrence(output, "version "@) {
        Some(i) => first_word_of(output.skip(i + 8)),
        None => trimmed(output),
    }
}

/// The major version that the version output names; 2 where it names none.
pub open spec fn major_version(output: Seq<char>) -> u8 {
    match parsed_u8(before_dot_of(version_text(output))) {
        Some(n) => n,
        None => 2,
    }
}

/// Parses the major version from version output, both from `2.11.3` and from
/// `golangci-lint has version 2.11.3 built with ...`.
pub fn detect_major_version(output: &str) -> (major: u8)
    ensures
        major == major_version(output@),
{
    let length = output.unicode_len();
    let version = if let Some(i) = find(output, "version ") {
        proof {
            law_first_occurrence(output@, "version "@);
            reveal_strlit("version ");
        }
        let rest = output.substring_char(i + 8, length);
        assert(rest@ =~= output@.skip(i + 8));
        first_word(rest)
    } else {
        trim(output)
    };
    match parse_u8(before_dot(version)) {
        Some(n) => n,
        None => 2,
    }
}

/// The version whose command line the installed binary takes, from what `golangci-lint version`
/// wrote, or from `None` where it could not be run: 1 for version 1, and else 2.
pub open spec fn installed_major(output: Option<Seq<char>>) -> u8 {
    match output {
        Some(text) => if major_version(text) == 1 {
            1
        } else {
            2
        },
        None => 2,
    }
}

/// Tells the installed version from the version output, or from `None` where the binary could
/// not be run. Returns 1 or 2; 2, the current mainstream, stands for all that is not version 1.
pub fn installed_major_version(output: Option<&str>) -> (major: u8)
    ensures
        major == 1 || major == 2,
        major == installed_major(
            match output {
                Some(text) => Some(text@),
                None => None,
            },
        ),
{
    match output {
        Some(text) => if detect_major_version(text) == 1 {
            1
        } else {
            2
        },
        None => 2,
    }
}

/// Tells the installed version from the bytes that `golangci-lint version` wrote to standard
/// output, or from `None` where the binary could not be run. Returns 1 or 2.
pub fn detect_major_version_from_binary(stdout: Option<&[u8]>) -> (major: u8)
    ensures
        major == 1 || major == 2,
        major == installed_major(
            match stdout {
                Some(bytes) => Some(utf8_lossy(bytes@)),
                None => None,
            },
        ),
        stdout matches Some(bytes) ==> valid_utf8(bytes@) ==> major == installed_major(
            Some(decode_utf8(bytes@)),
        ),
{
    match stdout {
        Some(bytes) => installed_major_version(Some(decode_lossy(bytes).as_str())),
        None => installed_major_version(None),
    }
}

/// The long and the short format name the same version: a version behind the first `version `
/// and any white space counts as it does alone.
pub proof fn law_formats_agree(
    lead: Seq<char>,
    space: Seq<char>,
    version: Seq<char>,
    tail: Seq<char>,
)
    requires
        forall|i: int| 0 <= i < space.len() ==> white_space(#[trigger] space[i]),
        version.len() > 0,
        forall|i: int| 0 <= i < version.len() ==> !white_space(#[trigger] version[i]),
        tail.len() > 0 ==> white_space(tail[0]),
        first_occurrence(lead + "version "@ + space + version + tail, "version "@) == Some(
            lead.len() as int,
        ),
    ensures
        major_version(lead + "version "@ + space + version + tail) == major_version(version),
{
    reveal_strlit("version ");
    let output = lead + "version "@ + space + version + tail;
    let behind = space + version + tail;
    let rest = version + tail;
    let stop = |c: char| white_space(c);
    assert(output.skip(lead.len() as int + 8) =~= behind);
    assert forall|i: int| 0 <= i < space.len() implies white_space(#[trigger] behind[i]) by {
        assert(behind[i] == space[i]);
    }
    assert(behind[space.len() as int] == version[0]);
    lemma_trim_start(behind, space.len() as int);
    assert(behind.skip(space.len() as int) =~= rest);
    assert forall|i: int| 0 <= i < version.len() implies !stop(#[trigger] rest[i]) by {
        assert(rest[i] == version[i]);
    }
    lemma_head_until(rest, stop, version.len() as int);
    assert(rest.take(version.len() as int) =~= version);

    law_first_occurrence(version, "version "@);
    if let Some(k) = first_occurrence(version, "version "@) {
        assert(version.subrange(k, k + 8)[7] == ' ');
        assert(white_space(version[k + 7]));
    }
    lemma_trim_start(version, 0);
    assert(version.skip(0) =~= version);
    lemma_trim_end(version, version.len() as int);
    assert(version.take(version.len() as int) =~= version);
}

/// In the short format the number before the first dot is read. White space in front of it does
/// not count, and neither does white space behind it where no dot follows.
pub proof fn law_major_is_read(space: Seq<char>, major: nat, rest: Seq<char>)
    requires
        forall|i: int| 0 <= i < space.len() ==> white_space(#[trigger] space[i]),
        major <= 255,
        (rest.len() > 0 && rest[0] == '.') || (forall|i: int|
            0 <= i < rest.len() ==> white_space(#[trigger] rest[i])),
        first_occurrence(space + decimal(major) + rest, "version "@) is None,
    ensures
        major_version(space + decimal(major) + rest) == major,
{
    law_decimal_reads_back(major);
    let output = space + decimal(major) + rest;
    let digits = decimal(major).len() as int;
    let from = space.len() as int;
    let stop = |c: char| c == '.';
    let version = trimmed(output);
    let (start, end) = law_trimmed(output);
    assert forall|i: int| 0 <= i < digits implies output[from + i] == decimal(major)[i]
        && !white_space(#[trigger] output[from + i]) && !stop(output[from + i]) by {
        assert(is_digit(decimal(major)[i]));
    }
    assert(!white_space(output[from + 0]));
    assert(!white_space(output[from + (digits - 1)]));
    assert(version[0] == output[start]);
    if start < from {
        assert(output[start] == space[start]);
    }
    assert(version.last() == output[end - 1]);
    assert forall|i: int| 0 <= i < digits implies !stop(#[trigger] version[i]) by {
        assert(version[i] == output[from + i]);
    }
    if rest.len() > 0 && rest[0] == '.' {
        assert(output[from + digits] == '.');
        assert(version[digits] == '.');
    } else if end > from + digits {
        assert(output[end - 1] == rest[end - 1 - from - digits]);
    }
    lemma_head_until(version, stop, digits);
    assert(version.take(digits) =~= decimal(major));
}

/// In the long format the first word behind the first `version ` decides, by what stands before
/// its first dot; what is no number up to 255 counts as 2.
pub proof fn law_long_format(output: Seq<char>, at: int, from: int, dot: int, to: int)
    requires
        occurs_at(output, "version "@, at),
        forall|j: int| j < at ==> !occurs_at(output, "version "@, j),
        at + 8 <= from <= dot <= to <= output.len(),
        forall|i: int| at + 8 <= i < from ==> white_space(#[trigger] output[i]),
        forall|i: int| from <= i < to ==> !white_space(#[trigger] output[i]),
        to < output.len() ==> white_space(output[to]),
        from == to ==> to == output.len(),
        forall|i: int| from <= i < dot ==> (#[trigger] output[i]) != '.',
        dot < to ==> output[dot] == '.',
    ensures
        parsed_u8(output.subrange(from, dot)) matches Some(n) ==> major_version(output) == n,
        parsed_u8(output.subrange(from, dot)) is None ==> major_version(output) == 2,
{
    reveal_strlit("version ");
    law_first_is_found(output, "version "@, at);
    let rest = output.skip(at + 8);
    let start = from - (at + 8);
    let stop = to - (at + 8);
    assert forall|i: int| 0 <= i < start implies white_space(#[trigger] rest[i]) by {
        assert(rest[i] == output[at + 8 + i]);
    }
    assert forall|i: int| start <= i < stop implies !white_space(#[trigger] rest[i]) by {
        assert(rest[i] == output[at + 8 + i]);
    }
    if to < output.len() {
        assert(rest[stop] == output[to]);
    }
    law_first_word(rest, start, stop);
    let word = rest.subrange(start, stop);
    assert(word =~= output.subrange(from, to));
    assert forall|i: int| 0 <= i < dot - from implies (#[trigger] word[i]) != '.' by {
        assert(word[i] == output[from + i]);
    }
    if dot < to {
        assert(word[dot - from] == output[dot]);
    }
    law_before_dot(word, dot - from);
    assert(word.take(dot - from) =~= output.subrange(from, dot));
}

/// In output without `version ` what stands before the first dot decides, white space at the ends
/// aside; what is no number up to 255 counts as 2.
pub proof fn law_short_format(output: Seq<char>, from: int, dot: int, to: int)
    requires
        forall|j: int| !occurs_at(output, "version "@, j),
        0 <= from <= dot <= to <= output.len(),
        forall|i: int| 0 <= i < from ==> white_space(#[trigger] output[i]),
        forall|i: int| to <= i < output.len() ==> white_space(#[trigger] output[i]),
        from < to ==> !white_space(output[from]) && !white_space(output[to - 1]),
        from == to ==> to == output.len(),
        forall|i: int| from <= i < dot ==> (#[trigger] output[i]) != '.',
        dot < to ==> output[dot] == '.',
    ensures
        parsed_u8(output.subrange(from, dot)) matches Some(n) ==> major_version(output) == n,
        parsed_u8(output.subrange(from, dot)) is None ==> major_version(output) == 2,
{
    law_first_occurrence(output, "version "@);
    let rest = output.skip(from);
    lemma_trim_start(output, from);
    assert forall|i: int| to - from <= i < rest.len() implies white_space(#[trigger] rest[i]) by {
        assert(rest[i] == output[from + i]);
    }
    if from < to {
        assert(rest[to - from - 1] == output[to - 1]);
    }
    lemma_trim_end(rest, to - from);
    let word = rest.take(to - from);
    assert(word =~= output.subrange(from, to));
    assert forall|i: int| 0 <= i < dot - from implies (#[trigger] word[i]) != '.' by {
        assert(word[i] == output[from + i]);
    }
    if dot < to {
        assert(word[dot - from] == output[dot]);
    }
    law_before_dot(word, dot - from);
    assert(word.take(dot - from) =~= output.subrange(from, dot));
}

/// The installed version counts as 1 exactly where the output names major version 1, and as 2
/// in every other case, also where there is no output.
pub proof fn law_installed_major(output: Seq<char>)
    ensures
        installed_major(Some(output)) == 1 <==> major_version(output) == 1,
        installed_major(Some(output)) == 2 <==> major_version(output) != 1,
        installed_major(None) == 2,
{
}

proof fn lemma_word_end(s: Seq<char>, from: int) -> (to: int)
    requires
        0 <= from <= s.len(),
    ensures
        from <= to <= s.len(),
        forall|i: int| from <= i < to ==> !white_space(#[trigger] s[i]),
        to < s.len() ==> white_space(s[to]),
    decreases s.len() - from,
{
    if from < s.len() && !white_space(s[from]) {
        lemma_word_end(s, from + 1)
    } else {
        from
    }
}

/// In the long format the number between the first `version ` and a dot is the major version,
/// and nothing behind that dot has a say in it.
pub proof fn law_number_behind_version(lead: Seq<char>, major: nat, rest: Seq<char>)
    requires
        major <= 255,
        forall|j: int|
            j < lead.len() ==> !occurs_at(
                lead + "version "@ + decimal(major) + "."@ + rest,
                "version "@,
                j,
            ),
    ensures
        major_version(lead + "version "@ + decimal(major) + "."@ + rest) == major,
        installed_major(Some(lead + "version "@ + decimal(major) + "."@ + rest)) == if major == 1 {
            1u8
        } else {
            2u8
        },
{
    reveal_strlit("version ");
    reveal_strlit(".");
    law_decimal_reads_back(major);
    let output = lead + "version "@ + decimal(major) + "."@ + rest;
    let at = lead.len() as int;
    let from = at + 8;
    let dot = from + decimal(major).len();
    assert(output.subrange(at, at + 8) =~= "version "@);
    assert(occurs_at(output, "version "@, at));
    assert(output[dot] == '.');
    assert forall|i: int| from <= i < dot implies !white_space(#[trigger] output[i]) && output[i]
        != '.' by {
        assert(output[i] == decimal(major)[i - from]);
        assert(is_digit(decimal(major)[i - from]));
    }
    let to = lemma_word_end(output, dot);
    assert(to > dot);
    law_long_format(output, at, from, dot, to);
    assert(output.subrange(from, dot) =~= decimal(major));
}

} // verus!
