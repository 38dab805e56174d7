//! What the report looks like, character by character.

use crate::number::decimal;
use crate::path::compacted;
use crate::ranking::{law_each_name_once, ranking};
use crate::report::{
    file_line, file_lines, file_linter_line, file_linter_lines, file_section, files_of, filtered,
    heading, issues_in, law_heading_is_shown, law_report_is_its_lines, linter_line, linter_section,
    linters_of, more_files, report_lines, top, Issue,
};
use crate::text::trimmed;
use vstd::prelude::*;

verus! {

/// The lines and groups of lines of a report.
pub struct Pieces {
    /// A line for each of the top linters.
    pub linters: Seq<Seq<char>>,
    /// For each of the top files a line for each of its top linters.
    pub file_linters: Seq<Seq<Seq<char>>>,
    /// For each of the top files all of its lines.
    pub files: Seq<Seq<char>>,
}

/// The smaller of two numbers.
spec fn at_most(n: nat, limit: nat) -> nat {
    if n <= limit {
        n
    } else {
        limit
    }
}

/// The linter lines of one file.
spec fn file_linter_pieces(issues: Seq<Issue>, file: Seq<char>) -> Seq<Seq<char>> {
    top(ranking(linters_of(issues_in(issues, file))), 3).map_values(
        |entry: (Seq<char>, nat)| file_linter_line(entry),
    )
}

/// The report on some issues, put together from its pieces. With a line break at its end it is
/// the number of issues and that of different files, a rule, a line for each of the ten most
/// frequent linters, and for each of the ten most frequent files a line and a line for each of
/// its three most frequent linters; where there are more files, their number follows.
pub proof fn law_report_layout(output: Seq<char>, issues: Seq<Issue>) -> (pieces: Pieces)
    requires
        trimmed(output).len() > 0,
        issues.len() > 0,
    ensures
        pieces.linters.len() == if linters_of(issues).to_set().len() <= 10 {
            linters_of(issues).to_set().len()
        } else {
            10
        },
        forall|i: int|
            0 <= i < pieces.linters.len() ==> #[trigger] pieces.linters[i] == "  "@ + ranking(
                linters_of(issues),
            )[i].0 + " ("@ + decimal(ranking(linters_of(issues))[i].1) + "x)\n"@,
        pieces.files.len() == if files_of(issues).to_set().len() <= 10 {
            files_of(issues).to_set().len()
        } else {
            10
        },
        pieces.file_linters.len() == pieces.files.len(),
        forall|i: int|
            0 <= i < pieces.files.len() ==> #[trigger] pieces.files[i] == "  "@ + compacted(
                ranking(files_of(issues))[i].0,
            ) + " ("@ + decimal(ranking(files_of(issues))[i].1) + " issues)\n"@
                + pieces.file_linters[i].flatten(),
        forall|i: int|
            0 <= i < pieces.files.len() ==> (#[trigger] pieces.file_linters[i]).len() == if linters_of(
                issues_in(issues, ranking(files_of(issues))[i].0),
            ).to_set().len() <= 3 {
                linters_of(issues_in(issues, ranking(files_of(issues))[i].0)).to_set().len()
            } else {
                3
            },
        forall|i: int, j: int|
            0 <= i < pieces.files.len() && 0 <= j < pieces.file_linters[i].len()
                ==> #[trigger] pieces.file_linters[i][j] == "    "@ + ranking(
                linters_of(issues_in(issues, ranking(files_of(issues))[i].0)),
            )[j].0 + " ("@ + decimal(
                ranking(linters_of(issues_in(issues, ranking(files_of(issues))[i].0)))[j].1,
            ) + ")\n"@,
        filtered(output, Some(issues)) + "\n"@ == "golangci-lint: "@ + decimal(issues.len())
            + " issues in "@ + decimal(files_of(issues).to_set().len()) + " files\n"@
            + "═══════════════════════════════════════\n"@ + "Top linters:\n"@
            + pieces.linters.flatten() + "\n"@ + "Top files:\n"@ + pieces.files.flatten() + if files_of(
            issues,
        ).to_set().len() > 10 {
            "\n... +"@ + decimal((files_of(issues).to_set().len() - 10) as nat) + " more files\n"@
        } else {
            Seq::empty()
        },
{
    let by_linter = top(ranking(linters_of(issues)), 10);
    let by_file = top(ranking(files_of(issues)), 10);
    let f = |entry: (Seq<char>, nat)| linter_line(entry);
    let g = |entry: (Seq<char>, nat)| file_lines(issues, entry);
    let h = |entry: (Seq<char>, nat)| file_linter_pieces(issues, entry.0);
    let pieces = Pieces {
        linters: by_linter.map_values(f),
        file_linters: by_file.map_values(h),
        files: by_file.map_values(g),
    };
    law_each_name_once(linters_of(issues));
    law_each_name_once(files_of(issues));
    assert forall|i: int| 0 <= i < pieces.files.len() implies #[trigger] pieces.files[i] == "  "@
        + compacted(ranking(files_of(issues))[i].0) + " ("@ + decimal(
        ranking(files_of(issues))[i].1,
    ) + " issues)\n"@ + pieces.file_linters[i].flatten() by {
        let entry = ranking(files_of(issues))[i];
        assert(by_file[i] == entry);
        assert(pieces.files[i] == file_line(entry) + file_linter_lines(issues, entry.0));
        assert(pieces.file_linters[i] == file_linter_pieces(issues, entry.0));
    }
    assert forall|i: int|
        0 <= i < pieces.files.len() implies (#[trigger] pieces.file_linters[i]).len() == at_most(
        linters_of(issues_in(issues, ranking(files_of(issues))[i].0)).to_set().len(),
        3,
    ) by {
        assert(by_file[i] == ranking(files_of(issues))[i]);
        law_each_name_once(linters_of(issues_in(issues, by_file[i].0)));
    }
    assert forall|i: int, j: int|
        0 <= i < pieces.files.len() && 0 <= j
            < pieces.file_linters[i].len() implies #[trigger] pieces.file_linters[i][j] == "    "@
        + ranking(linters_of(issues_in(issues, ranking(files_of(issues))[i].0)))[j].0 + " ("@
        + decimal(
        ranking(linters_of(issues_in(issues, ranking(files_of(issues))[i].0)))[j].1,
    ) + ")\n"@ by {
        assert(by_file[i] == ranking(files_of(issues))[i]);
        let linters = top(ranking(linters_of(issues_in(issues, by_file[i].0))), 3);
        assert(pieces.file_linters[i][j] == file_linter_line(linters[j]));
    }
    law_report_is_its_lines(issues);
    reveal_strlit("\n");
    let lines = report_lines(issues);
    assert(lines.drop_last() + "\n"@ =~= lines);
    assert(linter_section(issues) == "Top linters:\n"@ + pieces.linters.flatten() + "\n"@);
    assert(file_section(issues) == "Top files:\n"@ + pieces.files.flatten());
    assert(lines =~= "golangci-lint: "@ + decimal(issues.len()) + " issues in "@ + decimal(
        files_of(issues).to_set().len(),
    ) + " files\n"@ + "═══════════════════════════════════════\n"@ + "Top linters:\n"@
        + pieces.linters.flatten() + "\n"@ + "Top files:\n"@ + pieces.files.flatten()
        + more_files(issues));
    pieces
}

/// What is shown of any issues begins with their number, all of them counted, and the number of
/// the different files that they are in.
pub proof fn law_report_begins_with_totals(output: Seq<char>, issues: Seq<Issue>)
    requires
        trimmed(output).len() > 0,
        issues.len() > 0,
    ensures
        ("golangci-lint: "@ + decimal(issues.len()) + " issues in "@ + decimal(
            files_of(issues).to_set().len(),
        ) + " files\n"@).is_prefix_of(filtered(output, Some(issues))),
{
    let start = "golangci-lint: "@ + decimal(issues.len()) + " issues in "@ + decimal(
        files_of(issues).to_set().len(),
    ) + " files\n"@;
    let shown = filtered(output, Some(issues));
    law_each_name_once(files_of(issues));
    law_heading_is_shown(issues);
    assert(heading(issues).subrange(0, start.len() as int) =~= start);
    assert(shown.subrange(0, heading(issues).len() as int) == heading(issues));
    assert(shown.subrange(0, start.len() as int) =~= heading(issues).subrange(
        0,
        start.len() as int,
    ));
}

/// Output without anything but white space is a clean run, whatever was parsed, and so is any
/// output that denotes no issues.
pub proof fn law_clean_run(output: Seq<char>, parsed: Option<Seq<Issue>>)
    ensures
        trimmed(output).len() == 0 ==> filtered(output, parsed)
            == "✓ golangci-lint: No issues found"@,
        filtered(output, Some(Seq::empty())) == "✓ golangci-lint: No issues found"@,
{
}

/// Output that is not the JSON of a lint run is shown without white space at its ends: up to 2000
/// characters all of it, otherwise its first 1997 characters and `...`.
pub proof fn law_other_output(output: Seq<char>)
    requires
        trimmed(output).len() > 0,
    ensures
        trimmed(output).len() <= 2000 ==> filtered(output, None) == trimmed(output),
        trimmed(output).len() > 2000 ==> filtered(output, None) == trimmed(output).take(1997)
            + "..."@,
{
}

} // verus!
