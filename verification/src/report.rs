//! The report on the issues of a lint run.

use crate::number::{decimal, push_decimal};
use crate::path::{compact_path, compacted};
use crate::ranking::{
    count_of, law_counts_add_up, law_each_name_once, law_ranking, rank, ranking, total, views, Entry,
};
use crate::search::occurs_at;
use crate::text::{
    law_truncated, lemma_trim_end, lemma_trim_start, texts, trim, trimmed, truncate, truncated,
    white_space,
};
use vstd::prelude::*;
use vstd::string::*;

verus! {

/// Where an issue was found.
#[derive(Debug)]
pub struct Position {
    pub filename: String,
    pub line: usize,
    pub column: usize,
}

/// One finding of a linter.
#[derive(Debug)]
pub struct Issue {
    pub from_linter: String,
    pub text: String,
    pub pos: Position,
}

/// The findings of a lint run.
#[derive(Debug)]
pub struct GolangciOutput {
    pub issues: Vec<Issue>,
}

/// The linters that found the issues, one for each issue.
pub open spec fn linters_of(issues: Seq<Issue>) -> Seq<Seq<char>> {
    issues.map_values(|issue: Issue| issue.from_linter@)
}

/// The files in which the issues were found, one for each issue.
pub open spec fn files_of(issues: Seq<Issue>) -> Seq<Seq<char>> {
    issues.map_values(|issue: Issue| issue.pos.filename@)
}

/// The issues in one file.
pub open spec fn issues_in(issues: Seq<Issue>, file: Seq<char>) -> Seq<Issue> {
    issues.filter(|issue: Issue| issue.pos.filename@ == file)
}

/// The first entries of a ranking, at most `limit`.
pub open spec fn top(entries: Seq<(Seq<char>, nat)>, limit: int) -> Seq<(Seq<char>, nat)> {
    if entries.len() <= limit {
        entries
    } else {
        entries.take(limit)
    }
}

/// The line on one of the top linters.
pub open spec fn linter_line(entry: (Seq<char>, nat)) -> Seq<char> {
    "  "@ + entry.0 + " ("@ + decimal(entry.1) + "x)\n"@
}

/// The line on one of the top linters of a file.
pub open spec fn file_linter_line(entry: (Seq<char>, nat)) -> Seq<char> {
    "    "@ + entry.0 + " ("@ + decimal(entry.1) + ")\n"@
}

/// The line on one of the top files.
pub open spec fn file_line(entry: (Seq<char>, nat)) -> Seq<char> {
    "  "@ + compacted(entry.0) + " ("@ + decimal(entry.1) + " issues)\n"@
}

/// The lines on the top three linters of a file.
pub open spec fn file_linter_lines(issues: Seq<Issue>, file: Seq<char>) -> Seq<char> {
    top(ranking(linters_of(issues_in(issues, file))), 3).flat_map(
        |entry: (Seq<char>, nat)| file_linter_line(entry),
    )
}

/// All lines on one of the top files.
pub open spec fn file_lines(issues: Seq<Issue>, entry: (Seq<char>, nat)) -> Seq<char> {
    file_line(entry) + file_linter_lines(issues, entry.0)
}

/// The numbers of issues and of files, and a rule below them.
pub open spec fn heading(issues: Seq<Issue>) -> Seq<char> {
    "golangci-lint: "@ + decimal(issues.len()) + " issues in "@ + decimal(
        ranking(files_of(issues)).len(),
    ) + " files\n"@ + "═══════════════════════════════════════\n"@
}

/// The lines on the top ten linters.
pub open spec fn linter_section(issues: Seq<Issue>) -> Seq<char> {
    "Top linters:\n"@ + top(ranking(linters_of(issues)), 10).flat_map(
        |entry: (Seq<char>, nat)| linter_line(entry),
    ) + "\n"@
}

/// The lines on the top ten files.
pub open spec fn file_section(issues: Seq<Issue>) -> Seq<char> {
    "Top files:\n"@ + top(ranking(files_of(issues)), 10).flat_map(
        |entry: (Seq<char>, nat)| file_lines(issues, entry),
    )
}

/// The number of files beyond the top ten; nothing where there are no more.
pub open spec fn more_files(issues: Seq<Issue>) -> Seq<char> {
    let files = ranking(files_of(issues)).len();
    if files > 10 {
        "\n... +"@ + decimal((files - 10) as nat) + " more files\n"@
    } else {
        Seq::empty()
    }
}

/// The lines of the report on some issues.
pub open spec fn report_lines(issues: Seq<Issue>) -> Seq<char> {
    heading(issues) + linter_section(issues) + file_section(issues) + more_files(issues)
}

/// What is said of a run without issues.
pub open spec fn no_issues() -> Seq<char> {
    "✓ golangci-lint: No issues found"@
}

/// What is shown of the JSON output of a lint run. `parsed` holds the issues that the trimmed
/// output denotes, or `None` where it is not the JSON of a lint run. Empty output means a clean
/// run, and so does an empty list of issues; issues are reported; anything else is passed
/// through, at most 2000 characters of it.
pub open spec fn filtered(output: Seq<char>, parsed: Option<Seq<Issue>>) -> Seq<char> {
    if trimmed(output).len() == 0 {
        no_issues()
    } else {
        match parsed {
            None => truncated(trimmed(output), 2000),
            Some(issues) => if issues.len() == 0 {
                no_issues()
            } else {
                trimmed(report_lines(issues))
            },
        }
    }
}

/// Appends `indent`, a name, its count in round brackets and a line break.
fn push_line(out: &mut String, indent: &str, name: &str, count: usize, tail: &str)
    ensures
        final(out)@ == old(out)@ + (indent@ + name@ + " ("@ + decimal(count as nat) + tail@),
{
    out.append(indent);
    out.append(name);
    out.append(" (");
    push_decimal(out, count as u64);
    out.append(tail);
    assert(out@ =~= old(out)@ + (indent@ + name@ + " ("@ + decimal(count as nat) + tail@));
}

/// The number of entries that are shown of `length`, where `limit` is the most.
fn shown(length: usize, limit: usize) -> (number: usize)
    ensures
        number == if length <= limit {
            length
        } else {
            limit
        },
{
    if length <= limit {
        length
    } else {
        limit
    }
}

/// Appends a line for each of the first entries, at most `limit`.
fn push_top(out: &mut String, ranked: &Vec<Entry>, limit: usize, indent: &str, tail: &str)
    ensures
        final(out)@ == old(out)@ + top(views(ranked@), limit as int).flat_map(
            |entry: (Seq<char>, nat)| indent@ + entry.0 + " ("@ + decimal(entry.1) + tail@,
        ),
{
    let ghost f = |entry: (Seq<char>, nat)|
        indent@ + entry.0 + " ("@ + decimal(entry.1) + tail@;
    let ghost entries = top(views(ranked@), limit as int);
    let number = shown(ranked.len(), limit);
    let mut i: usize = 0;
    assert(entries.take(0).flat_map(f) =~= Seq::<char>::empty());
    while i < number
        invariant
            i <= number <= ranked@.len(),
            number == entries.len(),
            entries == top(views(ranked@), limit as int),
            f == (|entry: (Seq<char>, nat)|
                indent@ + entry.0 + " ("@ + decimal(entry.1) + tail@),
            out@ == old(out)@ + entries.take(i as int).flat_map(f),
        decreases number - i,
    {
        push_line(out, indent, ranked[i].name.as_str(), ranked[i].count, tail);
        proof {
            entries.lemma_flat_map_take_append(f, i as int);
            assert(entries[i as int] == ranked@[i as int]@);
        }
        i = i + 1;
        assert(out@ =~= old(out)@ + entries.take(i as int).flat_map(f));
    }
    assert(entries.take(number as int) =~= entries);
}

/// Collects the linters that found the issues.
fn collect_linters(issues: &Vec<Issue>) -> (linters: Vec<String>)
    ensures
        texts(linters@) == linters_of(issues@),
{
    let mut linters: Vec<String> = Vec::new();
    let mut i: usize = 0;
    while i < issues.len()
        invariant
            i <= issues@.len(),
            texts(linters@) == linters_of(issues@).take(i as int),
        decreases issues@.len() - i,
    {
        let ghost before = texts(linters@);
        linters.push(issues[i].from_linter.clone());
        assert(texts(linters@) =~= before.push(linters_of(issues@)[i as int]));
        i = i + 1;
        assert(texts(linters@) =~= linters_of(issues@).take(i as int));
    }
    assert(linters_of(issues@).take(i as int) =~= linters_of(issues@));
    linters
}

/// Collects the files in which the issues were found.
fn collect_files(issues: &Vec<Issue>) -> (files: Vec<String>)
    ensures
        texts(files@) == files_of(issues@),
{
    let mut files: Vec<String> = Vec::new();
    let mut i: usize = 0;
    while i < issues.len()
        invariant
            i <= issues@.len(),
            texts(files@) == files_of(issues@).take(i as int),
        decreases issues@.len() - i,
    {
        let ghost before = texts(files@);
        files.push(issues[i].pos.filename.clone());
        assert(texts(files@) =~= before.push(files_of(issues@)[i as int]));
        i = i + 1;
        assert(texts(files@) =~= files_of(issues@).take(i as int));
    }
    assert(files_of(issues@).take(i as int) =~= files_of(issues@));
    files
}

/// Collects the linters that found the issues in one file.
fn collect_linters_in(issues: &Vec<Issue>, file: &String) -> (linters: Vec<String>)
    ensures
        texts(linters@) == linters_of(issues_in(issues@, file@)),
{
    let ghost in_file = |issue: Issue| issue.pos.filename@ == file@;
    let mut linters: Vec<String> = Vec::new();
    let mut i: usize = 0;
    assert(texts(linters@) =~= linters_of(issues_in(issues@.take(0), file@)));
    while i < issues.len()
        invariant
            i <= issues@.len(),
            in_file == (|issue: Issue| issue.pos.filename@ == file@),
            texts(linters@) == linters_of(issues_in(issues@.take(i as int), file@)),
        decreases issues@.len() - i,
    {
        let ghost before = issues@.take(i as int);
        proof {
            before.lemma_filter_push(issues@[i as int], in_file);
            assert(issues@.take(i + 1) =~= before.push(issues@[i as int]));
        }
        let ghost found = texts(linters@);
        if issues[i].pos.filename == *file {
            linters.push(issues[i].from_linter.clone());
            assert(texts(linters@) =~= found.push(issues@[i as int].from_linter@));
        }
        i = i + 1;
        assert(texts(linters@) =~= linters_of(issues_in(issues@.take(i as int), file@)));
    }
    assert(issues@.take(i as int) =~= issues@);
    linters
}

/// Appends the lines on one of the top files.
fn push_file(out: &mut String, issues: &Vec<Issue>, entry: &Entry)
    ensures
        final(out)@ == old(out)@ + file_lines(issues@, entry@),
{
    let path = compact_path(entry.name.as_str());
    push_line(out, "  ", path.as_str(), entry.count, " issues)\n");
    let linters = rank(&collect_linters_in(issues, &entry.name));
    push_top(out, &linters, 3, "    ", ")\n");
    proof {
        let entries = top(ranking(linters_of(issues_in(issues@, entry@.0))), 3);
        let f = |entry: (Seq<char>, nat)|
            "    "@ + entry.0 + " ("@ + decimal(entry.1) + ")\n"@;
        let g = |entry: (Seq<char>, nat)| file_linter_line(entry);
        assert(entries.map_values(f) =~= entries.map_values(g));
    }
    assert(out@ =~= old(out)@ + file_lines(issues@, entry@));
}

/// Writes the report on some issues.
fn write_report(issues: &Vec<Issue>) -> (result: String)
    ensures
        result@ == report_lines(issues@),
{
    let files = rank(&collect_files(issues));
    let linters = rank(&collect_linters(issues));
    let mut result = String::new();

    result.append("golangci-lint: ");
    push_decimal(&mut result, issues.len() as u64);
    result.append(" issues in ");
    push_decimal(&mut result, files.len() as u64);
    result.append(" files\n");
    result.append("═══════════════════════════════════════\n");
    proof {
        assert(views(files@).len() == files@.len());
    }
    assert(result@ =~= heading(issues@));

    result.append("Top linters:\n");
    push_top(&mut result, &linters, 10, "  ", "x)\n");
    result.append("\n");
    proof {
        let entries = top(ranking(linters_of(issues@)), 10);
        let f = |entry: (Seq<char>, nat)| "  "@ + entry.0 + " ("@ + decimal(entry.1) + "x)\n"@;
        let g = |entry: (Seq<char>, nat)| linter_line(entry);
        assert(entries.map_values(f) =~= entries.map_values(g));
    }
    assert(result@ =~= heading(issues@) + linter_section(issues@));

    result.append("Top files:\n");
    let ghost before = heading(issues@) + linter_section(issues@) + "Top files:\n"@;
    let ghost f = |entry: (Seq<char>, nat)| file_lines(issues@, entry);
    let ghost entries = top(ranking(files_of(issues@)), 10);
    let number = shown(files.len(), 10);
    let mut i: usize = 0;
    assert(entries.take(0).flat_map(f) =~= Seq::<char>::empty());
    while i < number
        invariant
            i <= number <= files@.len(),
            number == entries.len(),
            views(files@) == ranking(files_of(issues@)),
            entries == top(ranking(files_of(issues@)), 10),
            f == (|entry: (Seq<char>, nat)| file_lines(issues@, entry)),
            result@ == before + entries.take(i as int).flat_map(f),
        decreases number - i,
    {
        push_file(&mut result, issues, &files[i]);
        proof {
            entries.lemma_flat_map_take_append(f, i as int);
            assert(entries[i as int] == views(files@)[i as int]);
        }
        i = i + 1;
        assert(result@ =~= before + entries.take(i as int).flat_map(f));
    }
    assert(entries.take(number as int) =~= entries);
    assert(result@ =~= heading(issues@) + linter_section(issues@) + file_section(issues@));

    if files.len() > 10 {
        result.append("\n... +");
        push_decimal(&mut result, (files.len() - 10) as u64);
        result.append(" more files\n");
    }
    assert(result@ =~= report_lines(issues@));
    result
}

/// Filters the JSON output of a lint run, grouped by linter and by file. `parsed` is what the
/// trimmed output denotes, or `None` where it is not the JSON of a lint run.
pub fn filter_golangci_json(output: &str, parsed: Option<GolangciOutput>) -> (result: String)
    ensures
        result@ == filtered(
            output@,
            match parsed {
                Some(lint) => Some(lint.issues@),
                None => None,
            },
        ),
{
    let trimmed_output = trim(output);
    if trimmed_output.is_empty() {
        return "✓ golangci-lint: No issues found".to_owned();
    }
    match parsed {
        None => truncate(trimmed_output, 2000),
        Some(lint) => {
            if lint.issues.len() == 0 {
                return "✓ golangci-lint: No issues found".to_owned();
            }
            let lines = write_report(&lint.issues);
            trim(lines.as_str()).to_owned()
        },
    }
}

/// Output that is not the JSON of a lint run is passed through: as it is, without white space at
/// its ends, where it is short enough, and never more than 2000 characters.
pub proof fn law_passed_through(output: Seq<char>)
    ensures
        filtered(output, None).len() <= 2000,
        0 < trimmed(output).len() <= 2000 ==> filtered(output, None) == trimmed(output),
{
    reveal_strlit("✓ golangci-lint: No issues found");
    law_truncated(trimmed(output), 2000);
}

/// The number of files that the report gives is the number of different files.
pub proof fn law_files_are_counted_once(issues: Seq<Issue>)
    ensures
        ranking(files_of(issues)).len() == files_of(issues).to_set().len(),
{
    law_each_name_once(files_of(issues));
}

/// Every issue counts once in the ranking of the linters and once in that of the files.
pub proof fn law_every_issue_counts(issues: Seq<Issue>)
    ensures
        total(ranking(linters_of(issues))) == issues.len(),
        total(ranking(files_of(issues))) == issues.len(),
{
    law_counts_add_up(linters_of(issues));
    law_counts_add_up(files_of(issues));
}

/// The linters of a file account for all of its issues.
pub proof fn law_file_linters_add_up(issues: Seq<Issue>, file: Seq<char>)
    ensures
        total(ranking(linters_of(issues_in(issues, file)))) == count_of(files_of(issues), file),
{
    law_counts_add_up(linters_of(issues_in(issues, file)));
    lemma_issues_in(issues, file);
}

proof fn lemma_issues_in(issues: Seq<Issue>, file: Seq<char>)
    ensures
        issues_in(issues, file).len() == count_of(files_of(issues), file),
    decreases issues.len(),
{
    reveal(Seq::filter);
    if issues.len() > 0 {
        lemma_issues_in(issues.drop_last(), file);
        assert(files_of(issues).drop_last() =~= files_of(issues.drop_last()));
        assert(files_of(issues).last() == issues.last().pos.filename@);
    }
}

/// Whether a text ends in a line break that follows something visible.
spec fn ends_line(s: Seq<char>) -> bool {
    s.len() >= 2 && s.last() == '\n' && !white_space(s[s.len() - 2])
}

proof fn lemma_flat_map_last(
    entries: Seq<(Seq<char>, nat)>,
    f: spec_fn((Seq<char>, nat)) -> Seq<char>,
)
    requires
        entries.len() > 0,
    ensures
        entries.flat_map(f) == entries.drop_last().flat_map(f) + f(entries.last()),
{
    let last = entries.len() - 1;
    entries.lemma_flat_map_take_append(f, last);
    assert(entries.take(last + 1) =~= entries);
    assert(entries.take(last) =~= entries.drop_last());
}

proof fn lemma_some_file(issues: Seq<Issue>)
    requires
        issues.len() > 0,
    ensures
        ranking(files_of(issues)).len() > 0,
{
    let files = files_of(issues);
    law_ranking(files);
    assert(files.contains(files[0]));
}

proof fn lemma_file_lines_end(issues: Seq<Issue>, entry: (Seq<char>, nat))
    ensures
        ends_line(file_lines(issues, entry)),
{
    reveal_strlit(" issues)\n");
    reveal_strlit(")\n");
    let lines = file_lines(issues, entry);
    let entries = top(ranking(linters_of(issues_in(issues, entry.0))), 3);
    let f = |entry: (Seq<char>, nat)| file_linter_line(entry);
    if entries.len() == 0 {
        assert(entries.flat_map(f) =~= Seq::<char>::empty());
        assert(lines =~= file_line(entry));
        assert(lines.last() == '\n');
        assert(lines[lines.len() - 2] == ')');
    } else {
        lemma_flat_map_last(entries, f);
        assert(lines.last() == '\n');
        assert(lines[lines.len() - 2] == ')');
    }
}

/// The report on some issues is its lines without the last line break.
pub proof fn law_report_is_its_lines(issues: Seq<Issue>)
    requires
        issues.len() > 0,
    ensures
        trimmed(report_lines(issues)) == report_lines(issues).drop_last(),
        report_lines(issues).len() > 0,
        report_lines(issues).last() == '\n',
{
    let lines = report_lines(issues);
    let files = top(ranking(files_of(issues)), 10);
    let f = |entry: (Seq<char>, nat)| file_lines(issues, entry);
    lemma_some_file(issues);
    lemma_flat_map_last(files, f);
    lemma_file_lines_end(issues, files.last());
    reveal_strlit("golangci-lint: ");
    reveal_strlit(" more files\n");
    assert(lines[0] == 'g');
    if ranking(files_of(issues)).len() > 10 {
        let more = more_files(issues);
        assert(more.last() == '\n');
        assert(more[more.len() - 2] == 's');
        assert(lines.last() == '\n');
        assert(lines[lines.len() - 2] == 's');
    } else {
        let section = file_section(issues);
        let last = file_lines(issues, files.last());
        assert(section.last() == last.last());
        assert(section[section.len() - 2] == last[last.len() - 2]);
        assert(lines.last() == section.last());
        assert(lines[lines.len() - 2] == section[section.len() - 2]);
    }
    lemma_trim_start(lines, 0);
    assert(lines.skip(0) =~= lines);
    lemma_trim_end(lines, lines.len() - 1);
    assert(lines.take(lines.len() - 1) =~= lines.drop_last());
}

/// A piece of `a` or of `b` stands in `a + b` too.
proof fn lemma_occurs_in_sum(a: Seq<char>, b: Seq<char>, piece: Seq<char>, at: int)
    ensures
        occurs_at(a, piece, at) ==> occurs_at(a + b, piece, at),
        occurs_at(b, piece, at) ==> occurs_at(a + b, piece, a.len() + at),
{
    if occurs_at(a, piece, at) {
        assert((a + b).subrange(at, at + piece.len()) =~= a.subrange(at, at + piece.len()));
    }
    if occurs_at(b, piece, at) {
        assert((a + b).subrange(a.len() + at, a.len() + at + piece.len()) =~= b.subrange(
            at,
            at + piece.len(),
        ));
    }
}

/// Where the text of one entry stands among those of all entries.
proof fn lemma_flat_map_piece(
    entries: Seq<(Seq<char>, nat)>,
    f: spec_fn((Seq<char>, nat)) -> Seq<char>,
    i: int,
) -> (at: int)
    requires
        0 <= i < entries.len(),
    ensures
        occurs_at(entries.flat_map(f), f(entries[i]), at),
    decreases entries.len(),
{
    let front = entries.drop_last();
    lemma_flat_map_last(entries, f);
    if i == entries.len() - 1 {
        let piece = f(entries[i]);
        assert(piece.subrange(0, piece.len() as int) =~= piece);
        assert(occurs_at(piece, piece, 0));
        lemma_occurs_in_sum(front.flat_map(f), piece, piece, 0);
        front.flat_map(f).len() as int
    } else {
        let at = lemma_flat_map_piece(front, f, i);
        lemma_occurs_in_sum(front.flat_map(f), f(entries.last()), f(entries[i]), at);
        at
    }
}

/// A line of the report stands in it, its line break aside.
proof fn lemma_line_shown(issues: Seq<Issue>, line: Seq<char>, at: int)
    requires
        issues.len() > 0,
        line.len() > 0,
        occurs_at(report_lines(issues), line, at),
    ensures
        occurs_at(trimmed(report_lines(issues)), line.drop_last(), at),
{
    let lines = report_lines(issues);
    law_report_is_its_lines(issues);
    assert(lines.drop_last().subrange(at, at + line.len() - 1) =~= lines.subrange(
        at,
        at + line.len(),
    ).drop_last());
}

/// Each of the top ten linters is shown, with its count.
pub proof fn law_top_linters_are_shown(issues: Seq<Issue>, i: int) -> (at: int)
    requires
        0 <= i < top(ranking(linters_of(issues)), 10).len(),
        issues.len() > 0,
    ensures
        occurs_at(
            trimmed(report_lines(issues)),
            linter_line(top(ranking(linters_of(issues)), 10)[i]).drop_last(),
            at,
        ),
{
    let entries = top(ranking(linters_of(issues)), 10);
    let f = |entry: (Seq<char>, nat)| linter_line(entry);
    let line = linter_line(entries[i]);
    let all = entries.flat_map(f);
    let k = lemma_flat_map_piece(entries, f, i);
    let before = heading(issues) + "Top linters:\n"@;
    let after = "\n"@ + file_section(issues) + more_files(issues);
    lemma_occurs_in_sum(all, after, line, k);
    lemma_occurs_in_sum(before, all + after, line, k);
    assert(before + (all + after) =~= report_lines(issues));
    lemma_line_shown(issues, line, before.len() + k);
    before.len() + k
}

/// Each of the top ten files is shown by its short path, with its count.
pub proof fn law_top_files_are_shown(issues: Seq<Issue>, i: int) -> (at: int)
    requires
        0 <= i < top(ranking(files_of(issues)), 10).len(),
        issues.len() > 0,
    ensures
        occurs_at(
            trimmed(report_lines(issues)),
            file_line(top(ranking(files_of(issues)), 10)[i]).drop_last(),
            at,
        ),
{
    let entries = top(ranking(files_of(issues)), 10);
    let f = |entry: (Seq<char>, nat)| file_lines(issues, entry);
    let line = file_line(entries[i]);
    let all = entries.flat_map(f);
    let k = lemma_flat_map_piece(entries, f, i);
    let before = heading(issues) + linter_section(issues) + "Top files:\n"@;
    let after = more_files(issues);
    assert(file_lines(issues, entries[i]).subrange(0, line.len() as int) =~= line);
    assert(all.subrange(k, k + line.len()) =~= all.subrange(
        k,
        k + file_lines(issues, entries[i]).len(),
    ).subrange(0, line.len() as int));
    assert(occurs_at(all, line, k));
    lemma_occurs_in_sum(all, after, line, k);
    lemma_occurs_in_sum(before, all + after, line, k);
    assert(before + (all + after) =~= report_lines(issues));
    lemma_line_shown(issues, line, before.len() + k);
    before.len() + k
}

/// The report begins with the numbers of issues and of files.
pub proof fn law_heading_is_shown(issues: Seq<Issue>)
    requires
        issues.len() > 0,
    ensures
        heading(issues).is_prefix_of(trimmed(report_lines(issues))),
{
    law_report_is_its_lines(issues);
    reveal_strlit("Top files:\n");
    assert(report_lines(issues).drop_last().take(heading(issues).len() as int) =~= heading(
        issues,
    ));
}

/// Where there are more than ten files, the report ends with the number of those left out.
pub proof fn law_more_files_are_counted(issues: Seq<Issue>)
    requires
        ranking(files_of(issues)).len() > 10,
        issues.len() > 0,
    ensures
        ("\n... +"@ + decimal((ranking(files_of(issues)).len() - 10) as nat)
            + " more files"@).is_suffix_of(trimmed(report_lines(issues))),
{
    law_report_is_its_lines(issues);
    reveal_strlit(" more files\n");
    reveal_strlit(" more files");
    let tail = "\n... +"@ + decimal((ranking(files_of(issues)).len() - 10) as nat)
        + " more files"@;
    let lines = report_lines(issues);
    assert(" more files\n"@.drop_last() =~= " more files"@);
    assert(more_files(issues).drop_last() =~= tail);
    assert(lines.drop_last().skip(lines.len() - 1 - tail.len()) =~= tail);
}

/// Of each of the top ten files the top three linters are shown, with their counts.
pub proof fn law_file_linters_are_shown(issues: Seq<Issue>, i: int, j: int) -> (at: int)
    requires
        issues.len() > 0,
        0 <= i < top(ranking(files_of(issues)), 10).len(),
        0 <= j < top(
            ranking(linters_of(issues_in(issues, top(ranking(files_of(issues)), 10)[i].0))),
            3,
        ).len(),
    ensures
        occurs_at(
            trimmed(report_lines(issues)),
            file_linter_line(
                top(
                    ranking(linters_of(issues_in(issues, top(ranking(files_of(issues)), 10)[i].0))),
                    3,
                )[j],
            ).drop_last(),
            at,
        ),
{
    let entries = top(ranking(files_of(issues)), 10);
    let linters = top(ranking(linters_of(issues_in(issues, entries[i].0))), 3);
    let f = |entry: (Seq<char>, nat)| file_lines(issues, entry);
    let g = |entry: (Seq<char>, nat)| file_linter_line(entry);
    let line = file_linter_line(linters[j]);
    let lines = file_lines(issues, entries[i]);
    let all = entries.flat_map(f);
    let before = heading(issues) + linter_section(issues) + "Top files:\n"@;
    let after = more_files(issues);
    let m = lemma_flat_map_piece(linters, g, j);
    lemma_occurs_in_sum(file_line(entries[i]), linters.flat_map(g), line, m);
    let n = file_line(entries[i]).len() + m;
    let k = lemma_flat_map_piece(entries, f, i);
    assert(all.subrange(k + n, k + n + line.len()) =~= all.subrange(k, k + lines.len()).subrange(
        n,
        n + line.len(),
    ));
    assert(occurs_at(all, line, k + n));
    lemma_occurs_in_sum(all, after, line, k + n);
    lemma_occurs_in_sum(before, all + after, line, k + n);
    assert(before + (all + after) =~= report_lines(issues));
    lemma_line_shown(issues, line, before.len() + k + n);
    before.len() + k + n
}

/// Each issue gives its linter and its file, in the order of the issues.
pub proof fn law_issue_names(issues: Seq<Issue>)
    ensures
        linters_of(issues).len() == issues.len(),
        files_of(issues).len() == issues.len(),
        forall|i: int|
            0 <= i < issues.len() ==> #[trigger] linters_of(issues)[i] == issues[i].from_linter@,
        forall|i: int|
            0 <= i < issues.len() ==> #[trigger] files_of(issues)[i] == issues[i].pos.filename@,
{
}

/// The issues in a file are those in each part of a list, in its order.
pub proof fn law_issues_in_parts(a: Seq<Issue>, b: Seq<Issue>, file: Seq<char>)
    ensures
        issues_in(a + b, file) == issues_in(a, file) + issues_in(b, file),
{
    let in_file = |issue: Issue| issue.pos.filename@ == file;
    Seq::filter_distributes_over_add(a, b, in_file);
}

/// An issue is in its own file and in no other.
pub proof fn law_issue_in_its_file(found: Issue, file: Seq<char>)
    ensures
        found.pos.filename@ == file ==> issues_in(seq![found], file) == seq![found],
        found.pos.filename@ != file ==> issues_in(seq![found], file) == Seq::<Issue>::empty(),
{
    reveal(Seq::filter);
    let one = seq![found];
    let none = Seq::<Issue>::empty();
    assert(one.drop_last() =~= none);
    assert(issues_in(none, file) =~= none);
    assert(none.push(found) =~= one);
    if found.pos.filename@ == file {
        assert(issues_in(one, file) == issues_in(one.drop_last(), file).push(found));
    } else {
        assert(issues_in(one, file) == issues_in(one.drop_last(), file));
    }
}

} // verus!
