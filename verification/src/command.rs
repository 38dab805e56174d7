//! Which command line was given.

use crate::search::{same_text, starts_with};
use crate::text::texts;
use vstd::prelude::*;

verus! {

/// The subcommands of `golangci-lint`, versions 1 and 2, other than `run`.
pub open spec fn non_run_subcommands() -> Seq<Seq<char>> {
    seq![
        "cache"@,
        "completion"@,
        "config"@,
        "custom"@,
        "fmt"@,
        "formatters"@,
        "help"@,
        "linters"@,
        "migrate"@,
        "version"@,
    ]
}

/// Whether a first argument is a flag or a path.
pub open spec fn flag_or_path(arg: Seq<char>) -> bool {
    "-"@.is_prefix_of(arg) || "."@.is_prefix_of(arg) || "/"@.is_prefix_of(arg)
}

/// Whether the arguments ask for a lint run: there are none, or the first is `run`, or the first
/// is a flag or a path and no other subcommand.
pub open spec fn asks_for_run(args: Seq<Seq<char>>) -> bool {
    args.len() == 0 || args[0] == "run"@ || (!non_run_subcommands().contains(args[0])
        && flag_or_path(args[0]))
}

/// Whether a word is a subcommand other than `run`.
fn is_non_run_subcommand(word: &str) -> (answer: bool)
    ensures
        answer == non_run_subcommands().contains(word@),
{
    let answer = same_text(word, "cache") || same_text(word, "completion") || same_text(
        word,
        "config",
    ) || same_text(word, "custom") || same_text(word, "fmt") || same_text(word, "formatters")
        || same_text(word, "help") || same_text(word, "linters") || same_text(word, "migrate")
        || same_text(word, "version");
    proof {
        let all = non_run_subcommands();
        assert(all[0] == "cache"@ && all[1] == "completion"@ && all[2] == "config"@ && all[3]
            == "custom"@ && all[4] == "fmt"@ && all[5] == "formatters"@ && all[6] == "help"@
            && all[7] == "linters"@ && all[8] == "migrate"@ && all[9] == "version"@);
    }
    answer
}

/// Determines whether the arguments ask for a lint run.
pub fn is_run_subcommand(args: &[String]) -> (answer: bool)
    ensures
        answer == asks_for_run(texts(args@)),
{
    if args.len() == 0 {
        return true;
    }
    let first = args[0].as_str();
    assert(texts(args@)[0] == first@);
    if same_text(first, "run") {
        return true;
    }
    if is_non_run_subcommand(first) {
        return false;
    }
    starts_with(first, "-") || starts_with(first, ".") || starts_with(first, "/")
}

/// Whether an argument chooses an output format, in the style of version 1 or of version 2.
pub open spec fn format_flag(arg: Seq<char>) -> bool {
    arg == "--out-format"@ || "--out-format="@.is_prefix_of(arg) || "--output."@.is_prefix_of(arg)
}

/// Whether some argument chooses an output format.
pub open spec fn chooses_format(args: Seq<Seq<char>>) -> bool {
    exists|i: int| 0 <= i < args.len() && format_flag(#[trigger] args[i])
}

/// Checks whether the user already chose an output format.
pub fn has_user_format_flag(args: &[String]) -> (answer: bool)
    ensures
        answer == chooses_format(texts(args@)),
{
    let mut i: usize = 0;
    while i < args.len()
        invariant
            i <= args@.len(),
            forall|j: int| 0 <= j < i ==> !format_flag(#[trigger] texts(args@)[j]),
        decreases args@.len() - i,
    {
        let arg = args[i].as_str();
        assert(texts(args@)[i as int] == arg@);
        if same_text(arg, "--out-format") || starts_with(arg, "--out-format=") || starts_with(
            arg,
            "--output.",
        ) {
            assert(format_flag(texts(args@)[i as int]));
            return true;
        }
        i = i + 1;
    }
    false
}

/// A known subcommand other than `run` is never taken for a lint run, whatever follows it.
pub proof fn law_other_subcommands(args: Seq<Seq<char>>)
    requires
        args.len() > 0,
        non_run_subcommands().contains(args[0]),
    ensures
        !asks_for_run(args),
{
    reveal_strlit("run");
    reveal_strlit("cache");
    reveal_strlit("completion");
    reveal_strlit("config");
    reveal_strlit("custom");
    reveal_strlit("fmt");
    reveal_strlit("formatters");
    reveal_strlit("help");
    reveal_strlit("linters");
    reveal_strlit("migrate");
    reveal_strlit("version");
    let i = choose|i: int|
        0 <= i < non_run_subcommands().len() && non_run_subcommands()[i] == args[0];
    assert("run"@[0] == 'r');
    assert(args[0][0] != 'r');
}

/// A lint run is a call without arguments, or one whose first argument is `run` or begins like a
/// flag or a path; nothing that follows the first argument counts.
pub proof fn law_first_argument_decides(args: Seq<Seq<char>>)
    ensures
        args.len() == 0 ==> asks_for_run(args),
        args.len() > 0 && args[0] == "run"@ ==> asks_for_run(args),
        args.len() > 0 && args[0].len() > 0 && (args[0][0] == '-' || args[0][0] == '.'
            || args[0][0] == '/') ==> asks_for_run(args),
        args.len() > 0 && args[0] != "run"@ && (args[0].len() == 0 || (args[0][0] != '-'
            && args[0][0] != '.' && args[0][0] != '/')) ==> !asks_for_run(args),
{
    if args.len() > 0 {
        let first = args[0];
        lemma_begins_with(first, '-', "-"@);
        lemma_begins_with(first, '.', "."@);
        lemma_begins_with(first, '/', "/"@);
        reveal_strlit("-");
        reveal_strlit(".");
        reveal_strlit("/");
        reveal_strlit("cache");
        reveal_strlit("completion");
        reveal_strlit("config");
        reveal_strlit("custom");
        reveal_strlit("fmt");
        reveal_strlit("formatters");
        reveal_strlit("help");
        reveal_strlit("linters");
        reveal_strlit("migrate");
        reveal_strlit("version");
        if non_run_subcommands().contains(first) {
            let i = choose|i: int|
                0 <= i < non_run_subcommands().len() && non_run_subcommands()[i] == first;
            assert(first[0] != '-' && first[0] != '.' && first[0] != '/');
        }
    }
}

proof fn lemma_begins_with(s: Seq<char>, c: char, prefix: Seq<char>)
    ensures
        prefix.len() == 1 && prefix[0] == c ==> (prefix.is_prefix_of(s) <==> s.len() > 0 && s[0]
            == c),
{
    if prefix.len() == 1 && s.len() > 0 {
        assert(s.subrange(0, 1)[0] == s[0]);
        if s[0] == prefix[0] {
            assert(s.subrange(0, 1) =~= prefix);
        }
    }
}

/// None of the ten subcommands beside `run` is a lint run, whatever follows it.
pub proof fn law_each_other_subcommand(rest: Seq<Seq<char>>)
    ensures
        !asks_for_run(seq!["cache"@] + rest),
        !asks_for_run(seq!["completion"@] + rest),
        !asks_for_run(seq!["config"@] + rest),
        !asks_for_run(seq!["custom"@] + rest),
        !asks_for_run(seq!["fmt"@] + rest),
        !asks_for_run(seq!["formatters"@] + rest),
        !asks_for_run(seq!["help"@] + rest),
        !asks_for_run(seq!["linters"@] + rest),
        !asks_for_run(seq!["migrate"@] + rest),
        !asks_for_run(seq!["version"@] + rest),
{
    let all = non_run_subcommands();
    assert forall|i: int| 0 <= i < all.len() implies !asks_for_run(seq![#[trigger] all[i]] + rest)
    by {
        let args = seq![all[i]] + rest;
        assert(all.contains(all[i]));
        law_other_subcommands(args);
    }
    assert(all[0] == "cache"@ && all[1] == "completion"@ && all[2] == "config"@ && all[3]
        == "custom"@ && all[4] == "fmt"@ && all[5] == "formatters"@ && all[6] == "help"@ && all[7]
        == "linters"@ && all[8] == "migrate"@ && all[9] == "version"@);
}

/// A format is chosen where one of the arguments chooses it, wherever it stands.
pub proof fn law_any_argument_chooses(a: Seq<Seq<char>>, b: Seq<Seq<char>>)
    ensures
        !chooses_format(Seq::empty()),
        chooses_format(a + b) <==> chooses_format(a) || chooses_format(b),
{
    if chooses_format(a) {
        let i = choose|i: int| 0 <= i < a.len() && format_flag(#[trigger] a[i]);
        assert(format_flag((a + b)[i]));
    }
    if chooses_format(b) {
        let i = choose|i: int| 0 <= i < b.len() && format_flag(#[trigger] b[i]);
        assert(format_flag((a + b)[a.len() + i]));
    }
    if chooses_format(a + b) {
        let i = choose|i: int| 0 <= i < (a + b).len() && format_flag(#[trigger] (a + b)[i]);
        if i < a.len() {
            assert(format_flag(a[i]));
        } else {
            assert(format_flag(b[i - a.len()]));
        }
    }
}

/// The arguments that choose a format: `--out-format` itself, `--out-format=` with anything
/// behind it, and `--output.` with anything behind it.
pub proof fn law_format_arguments(value: Seq<char>)
    ensures
        chooses_format(seq!["--out-format"@]),
        chooses_format(seq!["--out-format="@ + value]),
        chooses_format(seq!["--output."@ + value]),
{
    let a = seq!["--out-format"@];
    let b = seq!["--out-format="@ + value];
    let c = seq!["--output."@ + value];
    assert(format_flag(a[0]));
    assert(b[0].subrange(0, "--out-format="@.len() as int) =~= "--out-format="@);
    assert(format_flag(b[0]));
    assert(c[0].subrange(0, "--output."@.len() as int) =~= "--output."@);
    assert(format_flag(c[0]));
}

/// No other argument chooses a format.
pub proof fn law_no_other_format_arguments(arg: Seq<char>)
    requires
        arg != "--out-format"@,
        forall|value: Seq<char>| arg != #[trigger] ("--out-format="@ + value),
        forall|value: Seq<char>| arg != #[trigger] ("--output."@ + value),
    ensures
        !chooses_format(seq![arg]),
{
    if "--out-format="@.is_prefix_of(arg) {
        let n = "--out-format="@.len() as int;
        assert(arg =~= arg.subrange(0, n) + arg.skip(n));
        assert(arg == "--out-format="@ + arg.skip(n));
    }
    if "--output."@.is_prefix_of(arg) {
        let n = "--output."@.len() as int;
        assert(arg =~= arg.subrange(0, n) + arg.skip(n));
        assert(arg == "--output."@ + arg.skip(n));
    }
    assert(!format_flag(arg));
}

} // verus!
