//! What the report depends on, and what has no influence on it.

use crate::ranking::{count_of, law_untied_ranking, ranking, untied};
use crate::report::{
    file_lines, file_linter_lines, files_of, filtered, issues_in, linters_of, report_lines, top,
    Issue,
};
use crate::text::{law_trimmed, trimmed};
use vstd::prelude::*;
use vstd::seq_lib::{to_multiset_build, to_multiset_len};

verus! {

/// The linter and the file of each issue.
pub open spec fn findings_of(issues: Seq<Issue>) -> Seq<(Seq<char>, Seq<char>)> {
    issues.map_values(|issue: Issue| (issue.from_linter@, issue.pos.filename@))
}

/// Whether no two linters found equally many issues, no two files have equally many, and no two
/// linters found equally many within one file.
pub open spec fn untied_issues(issues: Seq<Issue>) -> bool {
    &&& untied(linters_of(issues))
    &&& untied(files_of(issues))
    &&& forall|file: Seq<char>| untied(linters_of(#[trigger] issues_in(issues, file)))
}

/// Filtering and forgetting the order may be done in either order.
pub(crate) proof fn lemma_filter_to_multiset<A>(s: Seq<A>, p: spec_fn(A) -> bool)
    ensures
        s.filter(p).to_multiset() == s.to_multiset().filter(p),
    decreases s.len(),
{
    broadcast use vstd::multiset::group_multiset_axioms;

    reveal(Seq::filter);
    if s.len() == 0 {
        assert(s.filter(p) =~= s);
        s.to_multiset_ensures();
        assert(s.to_multiset().filter(p) =~= s.to_multiset());
    } else {
        let front = s.drop_last();
        lemma_filter_to_multiset(front, p);
        assert(front.push(s.last()) =~= s);
        to_multiset_build(front, s.last());
        to_multiset_build(front.filter(p), s.last());
        assert(s.filter(p).to_multiset() =~= s.to_multiset().filter(p));
    }
}

/// The number of elements with a property does not depend on their order.
proof fn lemma_filter_len<A>(s: Seq<A>, t: Seq<A>, p: spec_fn(A) -> bool)
    requires
        s.to_multiset() == t.to_multiset(),
    ensures
        s.filter(p).len() == t.filter(p).len(),
{
    lemma_filter_to_multiset(s, p);
    lemma_filter_to_multiset(t, p);
    to_multiset_len(s.filter(p));
    to_multiset_len(t.filter(p));
}

/// All counts of a report are counts of findings.
proof fn lemma_counts(issues: Seq<Issue>, linter: Seq<char>, file: Seq<char>)
    ensures
        count_of(linters_of(issues), linter) == findings_of(issues).filter(
            |f: (Seq<char>, Seq<char>)| f.0 == linter,
        ).len(),
        count_of(files_of(issues), file) == findings_of(issues).filter(
            |f: (Seq<char>, Seq<char>)| f.1 == file,
        ).len(),
        count_of(linters_of(issues_in(issues, file)), linter) == findings_of(issues).filter(
            |f: (Seq<char>, Seq<char>)| f.0 == linter && f.1 == file,
        ).len(),
    decreases issues.len(),
{
    reveal(Seq::filter);
    if issues.len() > 0 {
        let front = issues.drop_last();
        let last = issues.last();
        lemma_counts(front, linter, file);
        assert(findings_of(issues).drop_last() =~= findings_of(front));
        assert(linters_of(issues).drop_last() =~= linters_of(front));
        assert(files_of(issues).drop_last() =~= files_of(front));
        assert(findings_of(issues).last() == (last.from_linter@, last.pos.filename@));
        assert(linters_of(issues).last() == last.from_linter@);
        assert(files_of(issues).last() == last.pos.filename@);
        if last.pos.filename@ == file {
            assert(issues_in(issues, file) == issues_in(front, file).push(last));
            let longer = linters_of(issues_in(issues, file));
            assert(longer.drop_last() =~= linters_of(issues_in(front, file)));
            assert(longer.last() == last.from_linter@);
        } else {
            assert(issues_in(issues, file) == issues_in(front, file));
        }
    }
}

/// Reports are the same where all of their rankings are.
proof fn lemma_same_rankings(a: Seq<Issue>, b: Seq<Issue>)
    requires
        a.len() == b.len(),
        ranking(linters_of(a)) == ranking(linters_of(b)),
        ranking(files_of(a)) == ranking(files_of(b)),
        forall|file: Seq<char>|
            ranking(linters_of(#[trigger] issues_in(a, file))) == ranking(
                linters_of(issues_in(b, file)),
            ),
    ensures
        report_lines(a) == report_lines(b),
{
    let files = top(ranking(files_of(a)), 10);
    let f = |entry: (Seq<char>, nat)| file_lines(a, entry);
    let g = |entry: (Seq<char>, nat)| file_lines(b, entry);
    assert forall|i: int| 0 <= i < files.len() implies f(#[trigger] files[i]) == g(files[i]) by {
        let file = files[i].0;
        assert(ranking(linters_of(issues_in(a, file))) == ranking(linters_of(issues_in(b, file))));
        assert(file_linter_lines(a, file) == file_linter_lines(b, file));
    }
    assert(files.map_values(f) =~= files.map_values(g));
}

/// Texts, lines and columns of the issues have no influence on the report, and neither has
/// anything else but their linters and files.
pub proof fn law_linters_and_files_decide(a: Seq<Issue>, b: Seq<Issue>)
    requires
        findings_of(a) == findings_of(b),
    ensures
        report_lines(a) == report_lines(b),
{
    assert(findings_of(a).len() == a.len() && findings_of(b).len() == b.len());
    assert forall|i: int| 0 <= i < a.len() implies (#[trigger] a[i]).from_linter@
        == b[i].from_linter@ && a[i].pos.filename@ == b[i].pos.filename@ by {
        assert(findings_of(a)[i] == findings_of(b)[i]);
    }
    assert(linters_of(a) =~= linters_of(b));
    assert(files_of(a) =~= files_of(b));
    assert forall|file: Seq<char>|
        ranking(linters_of(#[trigger] issues_in(a, file))) == ranking(
            linters_of(issues_in(b, file)),
        ) by {
        lemma_same_linters_in(a, b, file);
    }
    lemma_same_rankings(a, b);
}

proof fn lemma_same_linters_in(a: Seq<Issue>, b: Seq<Issue>, file: Seq<char>)
    requires
        a.len() == b.len(),
        forall|i: int|
            0 <= i < a.len() ==> (#[trigger] a[i]).from_linter@ == b[i].from_linter@
                && a[i].pos.filename@ == b[i].pos.filename@,
    ensures
        linters_of(issues_in(a, file)) == linters_of(issues_in(b, file)),
    decreases a.len(),
{
    reveal(Seq::filter);
    if a.len() > 0 {
        let x = a.drop_last();
        let y = b.drop_last();
        assert forall|i: int| 0 <= i < x.len() implies (#[trigger] x[i]).from_linter@
            == y[i].from_linter@ && x[i].pos.filename@ == y[i].pos.filename@ by {
            assert(x[i] == a[i] && y[i] == b[i]);
        }
        lemma_same_linters_in(x, y, file);
        assert(a.last() == a[a.len() - 1] && b.last() == b[a.len() - 1]);
        if a.last().pos.filename@ == file {
            assert(linters_of(issues_in(a, file)) =~= linters_of(issues_in(x, file)).push(
                a.last().from_linter@,
            ));
            assert(linters_of(issues_in(b, file)) =~= linters_of(issues_in(y, file)).push(
                b.last().from_linter@,
            ));
        }
    }
}

/// Where there are no ties, the order of the issues has no influence on the report either: two
/// lists with the same findings, each as often, give the same report.
pub proof fn law_order_has_no_influence(a: Seq<Issue>, b: Seq<Issue>)
    requires
        findings_of(a).to_multiset() == findings_of(b).to_multiset(),
        untied_issues(a),
    ensures
        untied_issues(b),
        report_lines(a) == report_lines(b),
{
    to_multiset_len(findings_of(a));
    to_multiset_len(findings_of(b));
    assert(findings_of(a).len() == a.len() && findings_of(b).len() == b.len());
    assert forall|linter: Seq<char>| #[trigger]
        count_of(linters_of(a), linter) == count_of(linters_of(b), linter) by {
        lemma_same_counts(a, b, linter, linter);
    }
    assert forall|file: Seq<char>| #[trigger]
        count_of(files_of(a), file) == count_of(files_of(b), file) by {
        lemma_same_counts(a, b, file, file);
    }
    law_untied_ranking(linters_of(a), linters_of(b));
    law_untied_ranking(files_of(a), files_of(b));
    assert forall|file: Seq<char>|
        untied(linters_of(#[trigger] issues_in(b, file))) && ranking(
            linters_of(issues_in(a, file)),
        ) == ranking(linters_of(issues_in(b, file))) by {
        let x = linters_of(issues_in(a, file));
        let y = linters_of(issues_in(b, file));
        assert forall|linter: Seq<char>| #[trigger]
            count_of(x, linter) == count_of(y, linter) by {
            lemma_same_counts(a, b, linter, file);
        }
        law_untied_ranking(x, y);
    }
    assert forall|file: Seq<char>|
        ranking(linters_of(#[trigger] issues_in(a, file))) == ranking(
            linters_of(issues_in(b, file)),
        ) by {
        assert(untied(linters_of(issues_in(b, file))));
    }
    lemma_same_rankings(a, b);
}

proof fn lemma_same_counts(a: Seq<Issue>, b: Seq<Issue>, linter: Seq<char>, file: Seq<char>)
    requires
        findings_of(a).to_multiset() == findings_of(b).to_multiset(),
    ensures
        count_of(linters_of(a), linter) == count_of(linters_of(b), linter),
        count_of(files_of(a), file) == count_of(files_of(b), file),
        count_of(linters_of(issues_in(a, file)), linter) == count_of(
            linters_of(issues_in(b, file)),
            linter,
        ),
{
    lemma_counts(a, linter, file);
    lemma_counts(b, linter, file);
    let s = findings_of(a);
    let t = findings_of(b);
    lemma_filter_len(s, t, |f: (Seq<char>, Seq<char>)| f.0 == linter);
    lemma_filter_len(s, t, |f: (Seq<char>, Seq<char>)| f.1 == file);
    lemma_filter_len(s, t, |f: (Seq<char>, Seq<char>)| f.0 == linter && f.1 == file);
}

/// Two outputs show the same where the issues that they denote are the same findings without
/// ties: neither the order of the issues, nor their texts, lines and columns, nor how the output
/// is written has an influence.
pub proof fn law_same_findings_show_the_same(
    output: Seq<char>,
    issues: Seq<Issue>,
    other_output: Seq<char>,
    other_issues: Seq<Issue>,
)
    requires
        trimmed(output).len() > 0,
        trimmed(other_output).len() > 0,
        findings_of(issues).to_multiset() == findings_of(other_issues).to_multiset(),
        untied_issues(issues),
    ensures
        filtered(output, Some(issues)) == filtered(other_output, Some(other_issues)),
{
    law_order_has_no_influence(issues, other_issues);
    to_multiset_len(findings_of(issues));
    to_multiset_len(findings_of(other_issues));
    assert(findings_of(issues).len() == issues.len());
    assert(findings_of(other_issues).len() == other_issues.len());
}

/// White space at the ends of the output has no influence.
pub proof fn law_surrounding_white_space(
    output: Seq<char>,
    other_output: Seq<char>,
    parsed: Option<Seq<Issue>>,
)
    requires
        trimmed(output) == trimmed(other_output),
    ensures
        filtered(output, parsed) == filtered(other_output, parsed),
        filtered(trimmed(output), parsed) == filtered(output, parsed),
{
    law_trimmed(output);
}

} // verus!
