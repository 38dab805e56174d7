//! The decisions of one `golangci-lint` call: what is executed, and what is made of the outcome.

use crate::command::{
    asks_for_run, chooses_format, format_flag, has_user_format_flag, is_run_subcommand,
};
use crate::decode::{decode_lossy, utf8_lossy};
use crate::invariance::{law_surrounding_white_space, lemma_filter_to_multiset};
use crate::layout::law_clean_run;
use crate::number::{decimal, push_decimal};
use crate::report::{filter_golangci_json, filtered, GolangciOutput, Issue};
use crate::search::same_text;
use crate::text::{join, joined, law_trimmed, texts, trim, trimmed, white_space};
use vstd::prelude::*;
use vstd::string::*;
use vstd::utf8::{decode_utf8, valid_utf8};

verus! {

/// Where the JSON of a lint run is found.
#[derive(Debug, Clone, Copy, PartialEq, Eq, Structural)]
pub enum ReportSource {
    /// There is none: the call is no lint run.
    Absent,
    /// On standard output.
    Stdout,
    /// In the report file.
    File,
}

/// What is executed.
#[derive(Debug)]
pub struct Invocation {
    /// The arguments of `golangci-lint`.
    pub arguments: Vec<String>,
    /// Where the JSON will be found.
    pub source: ReportSource,
    /// What is said on standard error before the call.
    pub notice: Option<String>,
}

/// How a call ended.
#[derive(Debug)]
pub struct Execution {
    pub stdout: String,
    pub stderr: String,
    /// The exit code; `None` where a signal ended the process.
    pub status: Option<i32>,
}

/// How the program ends.
#[derive(Debug)]
pub enum Ending {
    Success,
    /// Exit with `code`, after `message` on standard error.
    Failure { code: i32, message: Option<String> },
}

impl View for Ending {
    type V = Option<(i32, Option<Seq<char>>)>;

    open spec fn view(&self) -> Option<(i32, Option<Seq<char>>)> {
        match *self {
            Ending::Success => None,
            Ending::Failure { code, message } => Some((code, text_of(message))),
        }
    }
}

/// What is made of the outcome of a call.
#[derive(Debug)]
pub struct Conclusion {
    /// What is shown on standard output.
    pub shown: String,
    /// What is shown on standard error.
    pub warning: Option<String>,
    /// The call as the user would have made it without this program.
    pub command: String,
    /// The call as the user made it.
    pub rtk_command: String,
    /// All that the call wrote, standard output first.
    pub raw: String,
    pub ending: Ending,
}

/// The text that an optional string holds.
pub open spec fn text_of(string: Option<String>) -> Option<Seq<char>> {
    match string {
        Some(s) => Some(s@),
        None => None,
    }
}

/// The text that an optional string slice holds.
pub open spec fn str_of(string: Option<&str>) -> Option<Seq<char>> {
    match string {
        Some(s) => Some(s@),
        None => None,
    }
}

/// Whether the output format depends on the version that is installed.
pub open spec fn version_matters(args: Seq<Seq<char>>) -> bool {
    asks_for_run(args) && !chooses_format(args)
}

/// Whether the version that is installed must be known before the call.
pub fn needs_version(args: &[String]) -> (answer: bool)
    ensures
        answer == version_matters(texts(args@)),
{
    is_run_subcommand(args) && !has_user_format_flag(args)
}

/// The name of the report file of a process.
pub fn report_file_name(process_id: u32) -> (name: String)
    ensures
        name@ == "rtk_golangci_"@ + decimal(process_id as nat) + ".json"@,
{
    let mut name = String::new();
    name.append("rtk_golangci_");
    push_decimal(&mut name, process_id as u64);
    name.append(".json");
    assert(name@ =~= "rtk_golangci_"@ + decimal(process_id as nat) + ".json"@);
    name
}

/// The argument that makes version 2 write JSON to `report_path`.
pub open spec fn report_path_flag(report_path: Seq<char>) -> Seq<char> {
    "--output.json.path="@ + report_path
}

/// The argument that asks for JSON, unless the user chose a format.
pub open spec fn format_arguments(
    args: Seq<Seq<char>>,
    major: u8,
    report_path: Seq<char>,
) -> Seq<Seq<char>> {
    if chooses_format(args) {
        Seq::empty()
    } else if major == 1 {
        seq!["--out-format=json"@]
    } else {
        seq![report_path_flag(report_path)]
    }
}

/// The arguments other than `run`, in order.
pub open spec fn without_run(args: Seq<Seq<char>>) -> Seq<Seq<char>> {
    args.filter(|arg: Seq<char>| arg != "run"@)
}

/// The arguments that `golangci-lint` is called with: for a lint run `run`, the argument that
/// asks for JSON, and the user's arguments; otherwise the user's arguments as they are.
pub open spec fn planned_arguments(
    args: Seq<Seq<char>>,
    major: u8,
    report_path: Seq<char>,
) -> Seq<Seq<char>> {
    if asks_for_run(args) {
        seq!["run"@] + format_arguments(args, major, report_path) + without_run(args)
    } else {
        args
    }
}

/// Where the JSON will be found: version 2 writes it to the report file, where it does not mix
/// with the text summary.
pub open spec fn planned_source(args: Seq<Seq<char>>, major: u8) -> ReportSource {
    if !asks_for_run(args) {
        ReportSource::Absent
    } else if !chooses_format(args) && major != 1 {
        ReportSource::File
    } else {
        ReportSource::Stdout
    }
}

/// What is said before the call, where the user asked for it.
pub open spec fn planned_notice(
    args: Seq<Seq<char>>,
    major: u8,
    report_path: Seq<char>,
) -> Seq<char> {
    if !asks_for_run(args) {
        "Running: golangci-lint "@ + joined(args, " "@)
    } else if chooses_format(args) {
        "Running: golangci-lint run (user format flag detected)"@
    } else if major == 1 {
        "Running: golangci-lint run --out-format=json (v1)"@
    } else {
        "Running: golangci-lint run --output.json.path="@ + report_path + " (v2)"@
    }
}

/// Two texts in a row.
fn concatenate(a: &str, b: &str) -> (result: String)
    ensures
        result@ == a@ + b@,
{
    let mut result = String::new();
    result.append(a);
    result.append(b);
    assert(result@ =~= a@ + b@);
    result
}

/// Appends the arguments other than `run`.
fn push_without_run(out: &mut Vec<String>, args: &[String])
    ensures
        texts(final(out)@) == texts(old(out)@) + without_run(texts(args@)),
{
    let ghost kept = |arg: Seq<char>| arg != "run"@;
    let mut i: usize = 0;
    assert(texts(out@) =~= texts(old(out)@) + without_run(texts(args@).take(0)));
    while i < args.len()
        invariant
            i <= args@.len(),
            kept == (|arg: Seq<char>| arg != "run"@),
            texts(out@) == texts(old(out)@) + without_run(texts(args@).take(i as int)),
        decreases args@.len() - i,
    {
        let ghost front = texts(args@).take(i as int);
        let ghost before = texts(out@);
        proof {
            front.lemma_filter_push(args@[i as int]@, kept);
            assert(texts(args@).take(i + 1) =~= front.push(args@[i as int]@));
        }
        if !same_text(args[i].as_str(), "run") {
            out.push(args[i].clone());
            assert(texts(out@) =~= before.push(args@[i as int]@));
        }
        i = i + 1;
        assert(texts(out@) =~= texts(old(out)@) + without_run(texts(args@).take(i as int)));
    }
    assert(texts(args@).take(i as int) =~= texts(args@));
}

/// Copies some arguments.
fn copy_arguments(args: &[String]) -> (copy: Vec<String>)
    ensures
        texts(copy@) == texts(args@),
{
    let mut copy: Vec<String> = Vec::new();
    let mut i: usize = 0;
    while i < args.len()
        invariant
            i <= args@.len(),
            texts(copy@) == texts(args@).take(i as int),
        decreases args@.len() - i,
    {
        let ghost before = texts(copy@);
        copy.push(args[i].clone());
        assert(texts(copy@) =~= before.push(texts(args@)[i as int]));
        i = i + 1;
        assert(texts(copy@) =~= texts(args@).take(i as int));
    }
    assert(texts(args@).take(i as int) =~= texts(args@));
    copy
}

/// Plans the call. `major` is the version that is installed and `report_path` the path of the
/// report file; both count only where [`needs_version`] holds. `verbose` above zero asks for a
/// notice.
pub fn plan_invocation(args: &[String], major: u8, report_path: &str, verbose: u8) -> (plan:
    Invocation)
    ensures
        texts(plan.arguments@) == planned_arguments(texts(args@), major, report_path@),
        plan.source == planned_source(texts(args@), major),
        text_of(plan.notice) == if verbose > 0 {
            Some(planned_notice(texts(args@), major, report_path@))
        } else {
            None
        },
{
    if !is_run_subcommand(args) {
        let notice = concatenate("Running: golangci-lint ", join(args, " ").as_str());
        return Invocation {
            arguments: copy_arguments(args),
            source: ReportSource::Absent,
            notice: if verbose > 0 {
                Some(notice)
            } else {
                None
            },
        };
    }
    let mut arguments: Vec<String> = Vec::new();
    arguments.push("run".to_owned());
    let source: ReportSource;
    let notice: String;
    if has_user_format_flag(args) {
        source = ReportSource::Stdout;
        notice = "Running: golangci-lint run (user format flag detected)".to_owned();
    } else if major == 1 {
        arguments.push("--out-format=json".to_owned());
        source = ReportSource::Stdout;
        notice = "Running: golangci-lint run --out-format=json (v1)".to_owned();
    } else {
        arguments.push(concatenate("--output.json.path=", report_path));
        source = ReportSource::File;
        let opening = concatenate(
            "Running: golangci-lint run --output.json.path=",
            report_path,
        );
        notice = concatenate(opening.as_str(), " (v2)");
    }
    assert(texts(arguments@) =~= seq!["run"@] + format_arguments(
        texts(args@),
        major,
        report_path@,
    ));
    push_without_run(&mut arguments, args);
    Invocation {
        arguments,
        source,
        notice: if verbose > 0 {
            Some(notice)
        } else {
            None
        },
    }
}

/// Reads what a call wrote as text; invalid UTF-8 is replaced by U+FFFD.
pub fn read_execution(stdout: &[u8], stderr: &[u8], status: Option<i32>) -> (execution: Execution)
    ensures
        execution.stdout@ == utf8_lossy(stdout@),
        valid_utf8(stdout@) ==> execution.stdout@ == decode_utf8(stdout@),
        !valid_utf8(stdout@) ==> execution.stdout@.contains('\u{fffd}'),
        execution.stderr@ == utf8_lossy(stderr@),
        valid_utf8(stderr@) ==> execution.stderr@ == decode_utf8(stderr@),
        !valid_utf8(stderr@) ==> execution.stderr@.contains('\u{fffd}'),
        execution.status == status,
{
    Execution { stdout: decode_lossy(stdout), stderr: decode_lossy(stderr), status }
}

/// The JSON of a lint run: what was read from the report file, where nothing counts as empty,
/// or else standard output; `None` where the call is no lint run.
pub open spec fn json_of(
    source: ReportSource,
    stdout: Seq<char>,
    report_file: Option<Seq<char>>,
) -> Option<Seq<char>> {
    match source {
        ReportSource::Absent => None,
        ReportSource::Stdout => Some(stdout),
        ReportSource::File => match report_file {
            Some(content) => Some(content),
            None => Some(Seq::empty()),
        },
    }
}

/// Chooses the JSON of a lint run. `report_file` is the content of the report file, or `None`
/// where it could not be read.
pub fn json_text(source: ReportSource, stdout: &str, report_file: Option<&str>) -> (json: Option<
    String,
>)
    ensures
        text_of(json) == json_of(source, stdout@, str_of(report_file)),
{
    match source {
        ReportSource::Absent => None,
        ReportSource::Stdout => Some(stdout.to_owned()),
        ReportSource::File => match report_file {
            Some(content) => Some(content.to_owned()),
            None => Some(String::new()),
        },
    }
}

/// The text that is parsed as the JSON of a lint run: the JSON without white space at its ends;
/// `None` where the call is no lint run.
pub open spec fn document_of(
    source: ReportSource,
    stdout: Seq<char>,
    report_file: Option<Seq<char>>,
) -> Option<Seq<char>> {
    match json_of(source, stdout, report_file) {
        Some(json) => Some(trimmed(json)),
        None => None,
    }
}

/// Gives the text that is to be parsed as the JSON of a lint run.
pub fn json_document(source: ReportSource, stdout: &str, report_file: Option<&str>) -> (document:
    Option<String>)
    ensures
        text_of(document) == document_of(source, stdout@, str_of(report_file)),
{
    match json_text(source, stdout, report_file) {
        Some(json) => Some(trim(json.as_str()).to_owned()),
        None => None,
    }
}

/// What is said on standard error: what the call wrote there, where it wrote anything.
pub open spec fn complaint(stderr: Seq<char>) -> Option<Seq<char>> {
    if trimmed(stderr).len() > 0 {
        Some(trimmed(stderr))
    } else {
        None
    }
}

/// How the program ends. Exit code 0 means clean code and 1 means issues; a higher code is an
/// error of configuration or build, and a signal is fatal.
pub open spec fn ending_of(status: Option<i32>, stderr: Seq<char>) -> Option<
    (i32, Option<Seq<char>>),
> {
    match status {
        Some(code) => if code == 0 || code == 1 {
            None
        } else {
            Some((code, complaint(stderr)))
        },
        None => Some((130, Some("golangci-lint: killed by signal"@))),
    }
}

/// The complaint in `stderr`.
fn complaint_in(stderr: &str) -> (result: Option<String>)
    ensures
        text_of(result) == complaint(stderr@),
{
    let text = trim(stderr);
    if text.is_empty() {
        None
    } else {
        Some(text.to_owned())
    }
}

/// Decides how the program ends.
pub fn ending(status: Option<i32>, stderr: &str) -> (result: Ending)
    ensures
        result@ == ending_of(status, stderr@),
{
    match status {
        Some(code) => if code == 0 || code == 1 {
            Ending::Success
        } else {
            Ending::Failure { code, message: complaint_in(stderr) }
        },
        None => Ending::Failure {
            code: 130,
            message: Some("golangci-lint: killed by signal".to_owned()),
        },
    }
}

/// What is shown of a call: of a lint run what its JSON says, of any other call what it wrote to
/// standard output, without white space at the ends.
pub open spec fn shown_text(
    source: ReportSource,
    stdout: Seq<char>,
    report_file: Option<Seq<char>>,
    parsed: Option<Seq<Issue>>,
) -> Seq<char> {
    match json_of(source, stdout, report_file) {
        Some(json) => filtered(json, parsed),
        None => trimmed(stdout),
    }
}

/// Makes the conclusion of a call. `source` is where the plan expects the JSON, `report_file` the
/// content of the report file, or `None` where there is none to be read, and `parsed` what the
/// text that [`json_document`] gives denotes.
pub fn conclude(
    args: &[String],
    verbose: u8,
    source: ReportSource,
    execution: &Execution,
    report_file: Option<&str>,
    parsed: Option<GolangciOutput>,
) -> (conclusion: Conclusion)
    ensures
        conclusion.shown@ == shown_text(
            source,
            execution.stdout@,
            str_of(report_file),
            match parsed {
                Some(lint) => Some(lint.issues@),
                None => None,
            },
        ),
        text_of(conclusion.warning) == if verbose > 0 {
            complaint(execution.stderr@)
        } else {
            None
        },
        conclusion.command@ == "golangci-lint "@ + joined(texts(args@), " "@),
        conclusion.rtk_command@ == "rtk golangci-lint "@ + joined(texts(args@), " "@),
        conclusion.raw@ == execution.stdout@ + "\n"@ + execution.stderr@,
        conclusion.ending@ == ending_of(execution.status, execution.stderr@),
{
    let stdout = execution.stdout.as_str();
    let stderr = execution.stderr.as_str();
    let shown = match json_text(source, stdout, report_file) {
        Some(text) => filter_golangci_json(text.as_str(), parsed),
        None => trim(stdout).to_owned(),
    };
    let warning = if verbose > 0 {
        complaint_in(stderr)
    } else {
        None
    };
    let line = join(args, " ");
    let opening = concatenate(stdout, "\n");
    Conclusion {
        shown,
        warning,
        command: concatenate("golangci-lint ", line.as_str()),
        rtk_command: concatenate("rtk golangci-lint ", line.as_str()),
        raw: concatenate(opening.as_str(), stderr),
        ending: ending(execution.status, stderr),
    }
}

/// A call that is no lint run is made with the user's arguments as they are, and a lint run
/// names `run` first and nowhere else.
pub proof fn law_run_is_named_once(args: Seq<Seq<char>>, major: u8, report_path: Seq<char>)
    ensures
        !asks_for_run(args) ==> planned_arguments(args, major, report_path) == args,
        asks_for_run(args) ==> planned_arguments(args, major, report_path)[0] == "run"@ && forall|
            i: int,
        |
            0 < i < planned_arguments(args, major, report_path).len() ==> (
            #[trigger] planned_arguments(args, major, report_path)[i]) != "run"@,
{
    let planned = planned_arguments(args, major, report_path);
    let kept = |arg: Seq<char>| arg != "run"@;
    let flags = format_arguments(args, major, report_path);
    if asks_for_run(args) {
        reveal_strlit("run");
        reveal_strlit("--out-format=json");
        reveal_strlit("--output.json.path=");
        assert(report_path_flag(report_path)[0] == '-');
        assert("--out-format=json"@[0] == '-');
        assert("run"@[0] == 'r');
        assert forall|i: int| 0 < i < planned.len() implies (#[trigger] planned[i]) != "run"@ by {
            if i - 1 < flags.len() {
                assert(planned[i] == flags[i - 1]);
            } else {
                let k = i - 1 - flags.len();
                assert(planned[i] == without_run(args)[k]);
                args.lemma_filter_pred(kept, k);
            }
        }
    }
}

/// No argument is lost and none changes its place: apart from the word `run` and the argument
/// that asks for JSON, a call has the user's arguments.
pub proof fn law_arguments_are_kept(args: Seq<Seq<char>>, major: u8, report_path: Seq<char>)
    ensures
        asks_for_run(args) ==> without_run(planned_arguments(args, major, report_path))
            == format_arguments(args, major, report_path) + without_run(args),
{
    if asks_for_run(args) {
        let kept = |arg: Seq<char>| arg != "run"@;
        let planned = planned_arguments(args, major, report_path);
        let rest = format_arguments(args, major, report_path) + without_run(args);
        law_run_is_named_once(args, major, report_path);
        assert(planned =~= seq!["run"@] + rest);
        Seq::filter_distributes_over_add(seq!["run"@], rest, kept);
        lemma_filter_none(seq!["run"@], kept);
        assert forall|i: int| 0 <= i < rest.len() implies kept(#[trigger] rest[i]) by {
            assert(rest[i] == planned[i + 1]);
        }
        lemma_filter_all(rest, kept);
        assert(without_run(planned) =~= rest);
    }
}

proof fn lemma_filter_all(s: Seq<Seq<char>>, kept: spec_fn(Seq<char>) -> bool)
    requires
        forall|i: int| 0 <= i < s.len() ==> kept(#[trigger] s[i]),
    ensures
        s.filter(kept) == s,
    decreases s.len(),
{
    reveal(Seq::filter);
    if s.len() > 0 {
        let front = s.drop_last();
        assert forall|i: int| 0 <= i < front.len() implies kept(#[trigger] front[i]) by {
            assert(front[i] == s[i]);
        }
        lemma_filter_all(front, kept);
        assert(kept(s[s.len() - 1]));
        assert(front.push(s.last()) =~= s);
    }
}

proof fn lemma_filter_none(s: Seq<Seq<char>>, kept: spec_fn(Seq<char>) -> bool)
    requires
        forall|i: int| 0 <= i < s.len() ==> !kept(#[trigger] s[i]),
    ensures
        s.filter(kept) == Seq::<Seq<char>>::empty(),
    decreases s.len(),
{
    reveal(Seq::filter);
    if s.len() > 0 {
        let front = s.drop_last();
        assert forall|i: int| 0 <= i < front.len() implies !kept(#[trigger] front[i]) by {
            assert(front[i] == s[i]);
        }
        lemma_filter_none(front, kept);
        assert(!kept(s[s.len() - 1]));
    }
}

/// A planned lint run is a lint run, and its output format is chosen.
pub proof fn law_planned_run_chooses_format(
    args: Seq<Seq<char>>,
    major: u8,
    report_path: Seq<char>,
)
    requires
        asks_for_run(args),
    ensures
        asks_for_run(planned_arguments(args, major, report_path)),
        chooses_format(planned_arguments(args, major, report_path)),
{
    let planned = planned_arguments(args, major, report_path);
    assert(planned[0] == "run"@);
    reveal_strlit("--out-format=json");
    reveal_strlit("--out-format=");
    reveal_strlit("--output.json.path=");
    reveal_strlit("--output.");
    reveal_strlit("run");
    reveal_strlit("--out-format");
    if chooses_format(args) {
        let i = choose|i: int| 0 <= i < args.len() && format_flag(#[trigger] args[i]);
        let kept = |arg: Seq<char>| arg != "run"@;
        assert(args[i] != "run"@) by {
            assert("run"@[0] == 'r');
            if "--out-format="@.is_prefix_of(args[i]) {
                assert(args[i].subrange(0, 13)[0] == '-');
            } else if "--output."@.is_prefix_of(args[i]) {
                assert(args[i].subrange(0, 9)[0] == '-');
            }
            assert(args[i][0] == '-');
        }
        args.lemma_filter_contains(kept, i);
        let k = choose|k: int| 0 <= k < without_run(args).len() && without_run(args)[k] == args[i];
        assert(planned[1 + k] == args[i]);
    } else if major == 1 {
        assert(planned[1] == "--out-format=json"@);
        assert("--out-format="@.is_prefix_of("--out-format=json"@)) by {
            assert("--out-format=json"@.take(13) =~= "--out-format="@);
        }
        assert(format_flag(planned[1]));
    } else {
        let flag = report_path_flag(report_path);
        assert(planned[1] == flag);
        assert("--output."@.is_prefix_of(flag)) by {
            assert(flag.take(9) =~= "--output."@);
        }
        assert(format_flag(planned[1]));
    }
}

/// Planning a planned call changes nothing, whatever version and path it is planned for.
pub proof fn law_planning_is_idempotent(
    args: Seq<Seq<char>>,
    major: u8,
    report_path: Seq<char>,
    other_major: u8,
    other_path: Seq<char>,
)
    ensures
        planned_arguments(planned_arguments(args, major, report_path), other_major, other_path)
            == planned_arguments(args, major, report_path),
{
    if asks_for_run(args) {
        let planned = planned_arguments(args, major, report_path);
        law_planned_run_chooses_format(args, major, report_path);
        law_arguments_are_kept(args, major, report_path);
        assert(planned_arguments(planned, other_major, other_path) =~= planned);
    }
}

/// Where the version does not matter, neither it nor the report path has a say in the plan.
pub proof fn law_version_matters(
    args: Seq<Seq<char>>,
    major: u8,
    report_path: Seq<char>,
    other_major: u8,
    other_path: Seq<char>,
)
    requires
        !version_matters(args),
    ensures
        planned_arguments(args, major, report_path) == planned_arguments(
            args,
            other_major,
            other_path,
        ),
        planned_source(args, major) == planned_source(args, other_major),
        planned_notice(args, major, report_path) == planned_notice(args, other_major, other_path),
        planned_source(args, major) != ReportSource::File,
{
}

/// What is shown of a lint run depends on its JSON only through the text that is parsed, and
/// what is shown of another call does not depend on anything parsed.
pub proof fn law_document_decides(
    source: ReportSource,
    stdout: Seq<char>,
    report_file: Option<Seq<char>>,
    parsed: Option<Seq<Issue>>,
)
    ensures
        shown_text(source, stdout, report_file, parsed) == match document_of(
            source,
            stdout,
            report_file,
        ) {
            Some(document) => filtered(document, parsed),
            None => trimmed(stdout),
        },
{
    if let Some(json) = json_of(source, stdout, report_file) {
        law_surrounding_white_space(json, json, parsed);
    }
}

/// Where the elements that are kept stand.
proof fn lemma_filter_position(s: Seq<Seq<char>>, kept: spec_fn(Seq<char>) -> bool, i: int)
    requires
        0 <= i < s.len(),
        kept(s[i]),
    ensures
        s.take(i).filter(kept).len() < s.filter(kept).len(),
        s.filter(kept)[s.take(i).filter(kept).len() as int] == s[i],
    decreases s.len(),
{
    reveal(Seq::filter);
    let front = s.drop_last();
    if i == s.len() - 1 {
        assert(s.take(i) =~= front);
    } else {
        assert(front.take(i) =~= s.take(i));
        assert(front[i] == s[i]);
        lemma_filter_position(front, kept, i);
    }
}

/// A call that is no lint run is made with exactly the user's arguments.
pub proof fn law_other_calls_are_unchanged(
    args: Seq<Seq<char>>,
    major: u8,
    report_path: Seq<char>,
)
    requires
        !asks_for_run(args),
    ensures
        planned_arguments(args, major, report_path) == args,
        planned_source(args, major) == ReportSource::Absent,
        planned_notice(args, major, report_path) == "Running: golangci-lint "@ + joined(
            args,
            " "@,
        ),
{
}

/// A lint run for which the user chose a format is called with `run` and all arguments of the
/// user but `run`, each as often as it was given and in the order in which they were given.
pub proof fn law_run_with_chosen_format(args: Seq<Seq<char>>, major: u8, report_path: Seq<char>)
    requires
        asks_for_run(args),
        chooses_format(args),
    ensures
        planned_source(args, major) == ReportSource::Stdout,
        planned_notice(args, major, report_path)
            == "Running: golangci-lint run (user format flag detected)"@,
        user_arguments_follow(
            args,
            planned_arguments(args, major, report_path),
            seq!["run"@],
        ),
{
    lemma_user_arguments(args, planned_arguments(args, major, report_path), seq!["run"@]);
}

/// A lint run of version 1 without a format of the user is called with `run`, the flag that
/// makes version 1 write JSON to standard output, and all arguments of the user but `run`.
pub proof fn law_run_of_version_1(args: Seq<Seq<char>>, report_path: Seq<char>)
    requires
        asks_for_run(args),
        !chooses_format(args),
    ensures
        planned_source(args, 1) == ReportSource::Stdout,
        planned_notice(args, 1, report_path)
            == "Running: golangci-lint run --out-format=json (v1)"@,
        user_arguments_follow(
            args,
            planned_arguments(args, 1, report_path),
            seq!["run"@, "--out-format=json"@],
        ),
{
    let planned = planned_arguments(args, 1, report_path);
    assert(seq!["run"@] + seq!["--out-format=json"@] =~= seq!["run"@, "--out-format=json"@]);
    lemma_user_arguments(args, planned, seq!["run"@, "--out-format=json"@]);
}

/// A lint run of any other version without a format of the user is called with `run`, the flag
/// that makes version 2 write JSON to the report file, and all arguments of the user but `run`.
pub proof fn law_run_of_version_2(args: Seq<Seq<char>>, major: u8, report_path: Seq<char>)
    requires
        asks_for_run(args),
        !chooses_format(args),
        major != 1,
    ensures
        planned_source(args, major) == ReportSource::File,
        planned_notice(args, major, report_path)
            == "Running: golangci-lint run --output.json.path="@ + report_path + " (v2)"@,
        user_arguments_follow(
            args,
            planned_arguments(args, major, report_path),
            seq!["run"@, "--output.json.path="@ + report_path],
        ),
{
    let planned = planned_arguments(args, major, report_path);
    let flag = "--output.json.path="@ + report_path;
    assert(seq!["run"@] + seq![flag] =~= seq!["run"@, flag]);
    lemma_user_arguments(args, planned, seq!["run"@, flag]);
}

/// Whether `planned` is `start` and then the arguments other than `run`: each stands behind
/// `start` and those before it, and there are no others.
pub open spec fn user_arguments_follow(
    args: Seq<Seq<char>>,
    planned: Seq<Seq<char>>,
    start: Seq<Seq<char>>,
) -> bool {
    &&& start.is_prefix_of(planned)
    &&& planned.len() == start.len() + args.filter(|arg: Seq<char>| arg != "run"@).len()
    &&& forall|i: int|
        #![trigger args[i]]
        0 <= i < args.len() && args[i] != "run"@ ==> args.take(i).filter(
            |arg: Seq<char>| arg != "run"@,
        ).len() < planned.len() - start.len() && planned[start.len() as int + args.take(i).filter(
            |arg: Seq<char>| arg != "run"@,
        ).len()] == args[i]
    &&& forall|arg: Seq<char>|
        arg != "run"@ ==> #[trigger] planned.skip(start.len() as int).to_multiset().count(arg)
            == args.to_multiset().count(arg)
}

proof fn lemma_user_arguments(
    args: Seq<Seq<char>>,
    planned: Seq<Seq<char>>,
    start: Seq<Seq<char>>,
)
    requires
        planned == start + without_run(args),
    ensures
        user_arguments_follow(args, planned, start),
{
    broadcast use vstd::multiset::group_multiset_axioms;

    let kept = |arg: Seq<char>| arg != "run"@;
    assert(planned.take(start.len() as int) =~= start);
    assert(planned.skip(start.len() as int) =~= without_run(args));
    lemma_filter_to_multiset(args, kept);
    assert forall|i: int|
        #![trigger args[i]]
        0 <= i < args.len() && args[i] != "run"@ implies args.take(i).filter(kept).len()
        < planned.len() - start.len() && planned[start.len() as int + args.take(i).filter(
            kept,
        ).len()] == args[i] by {
        lemma_filter_position(args, kept, i);
    }
    assert forall|arg: Seq<char>|
        arg != "run"@ implies #[trigger] planned.skip(start.len() as int).to_multiset().count(arg)
        == args.to_multiset().count(arg) by {
        assert(args.to_multiset().filter(kept).count(arg) == args.to_multiset().count(arg));
    }
}

/// Every argument of the user but `run` is among those of the call, behind those that the user
/// gave before it, and the call has no more than these, `run` and at most one flag.
pub proof fn law_no_argument_is_dropped(
    args: Seq<Seq<char>>,
    major: u8,
    report_path: Seq<char>,
)
    requires
        asks_for_run(args),
    ensures
        forall|i: int|
            0 <= i < args.len() && (#[trigger] args[i]) != "run"@ ==> planned_arguments(
                args,
                major,
                report_path,
            ).contains(args[i]),
        forall|i: int|
            0 <= i < args.len() && (#[trigger] args[i]) != "run"@ ==> planned_arguments(
                args,
                major,
                report_path,
            )[args.take(i).filter(|arg: Seq<char>| arg != "run"@).len() + if chooses_format(args) {
                1int
            } else {
                2int
            }] == args[i],
        planned_arguments(args, major, report_path).len() == args.filter(
            |arg: Seq<char>| arg != "run"@,
        ).len() + if chooses_format(args) {
            1int
        } else {
            2int
        },
{
    let planned = planned_arguments(args, major, report_path);
    let kept = |arg: Seq<char>| arg != "run"@;
    let flags = format_arguments(args, major, report_path);
    assert forall|i: int| 0 <= i < args.len() && (
    #[trigger] args[i]) != "run"@ implies planned.contains(args[i]) && planned[args.take(i).filter(
        kept,
    ).len() + (1 + flags.len()) as int] == args[i] by {
        lemma_filter_position(args, kept, i);
        let k = args.take(i).filter(kept).len() + (1 + flags.len()) as int;
        assert(planned[k] == args[i]);
    }
}

/// The version must be known exactly for a lint run without a format of the user, and there it
/// makes a difference.
pub proof fn law_version_makes_a_difference(args: Seq<Seq<char>>, report_path: Seq<char>)
    ensures
        version_matters(args) <==> asks_for_run(args) && !chooses_format(args),
        version_matters(args) <==> planned_arguments(args, 1, report_path) != planned_arguments(
            args,
            2,
            report_path,
        ),
        version_matters(args) <==> planned_source(args, 2) == ReportSource::File,
{
    if version_matters(args) {
        reveal_strlit("--out-format=json");
        reveal_strlit("--output.json.path=");
        let one = planned_arguments(args, 1, report_path);
        let two = planned_arguments(args, 2, report_path);
        assert(one[1] == "--out-format=json"@);
        assert(two[1] == report_path_flag(report_path));
        assert("--out-format=json"@[5] == '-');
        assert(report_path_flag(report_path)[5] == 'p');
    } else {
        law_version_matters(args, 1, report_path, 2, report_path);
    }
}

/// The JSON comes from where the plan expects it: not at all, from standard output, or from the
/// report file, where no content counts as empty.
pub proof fn law_json_of(stdout: Seq<char>, content: Seq<char>, report_file: Option<Seq<char>>)
    ensures
        json_of(ReportSource::Absent, stdout, report_file) is None,
        json_of(ReportSource::Stdout, stdout, report_file) == Some(stdout),
        json_of(ReportSource::File, stdout, Some(content)) == Some(content),
        json_of(ReportSource::File, stdout, None) == Some(Seq::<char>::empty()),
{
}

/// The text that is parsed is the JSON without white space at its ends, and there is one exactly
/// where there is JSON.
pub proof fn law_document_of(
    source: ReportSource,
    stdout: Seq<char>,
    report_file: Option<Seq<char>>,
)
    ensures
        json_of(source, stdout, report_file) is None <==> document_of(
            source,
            stdout,
            report_file,
        ) is None,
        json_of(source, stdout, report_file) matches Some(json) ==> document_of(
            source,
            stdout,
            report_file,
        ) == Some(trimmed(json)),
{
}

/// Standard error is passed on where anything but white space stands in it, without the white
/// space at its ends.
pub proof fn law_complaint(stderr: Seq<char>)
    ensures
        complaint(stderr) is None <==> forall|i: int|
            0 <= i < stderr.len() ==> white_space(#[trigger] stderr[i]),
        complaint(stderr) is Some ==> complaint(stderr) == Some(trimmed(stderr)),
{
    let (start, end) = law_trimmed(stderr);
    if trimmed(stderr).len() > 0 {
        assert(trimmed(stderr)[0] == stderr[start]);
    }
}

/// Only the exit codes 0 and 1 are a success. Any other code is handed on, with what stands on
/// standard error; a signal gives 130 and says so.
pub proof fn law_ending(code: i32, stderr: Seq<char>)
    ensures
        ending_of(Some(code), stderr) is None <==> code == 0 || code == 1,
        code != 0 && code != 1 ==> ending_of(Some(code), stderr) == Some(
            (code, complaint(stderr)),
        ),
        ending_of(None, stderr) == Some((130i32, Some("golangci-lint: killed by signal"@))),
{
}

/// The view of an ending holds its code and its message.
pub proof fn law_ending_view(ending: Ending)
    ensures
        ending is Success <==> ending@ is None,
        ending matches Ending::Failure { code, message } ==> ending@ == Some(
            (
                code,
                match message {
                    Some(text) => Some(text@),
                    None => None,
                },
            ),
        ),
{
}

/// An optional string holds a text exactly where it holds a string, and then the string's.
pub proof fn law_optional_texts(string: Option<String>, slice: Option<&str>)
    ensures
        string is None <==> text_of(string) is None,
        string matches Some(s) ==> text_of(string) == Some(s@),
        slice is None <==> str_of(slice) is None,
        slice matches Some(s) ==> str_of(slice) == Some(s@),
{
}

/// What a lint run shows is what is made of its JSON; any other call shows its standard output,
/// without white space at its ends.
pub proof fn law_shown_text(
    source: ReportSource,
    stdout: Seq<char>,
    report_file: Option<Seq<char>>,
    parsed: Option<Seq<Issue>>,
)
    ensures
        source == ReportSource::Absent ==> shown_text(source, stdout, report_file, parsed)
            == trimmed(stdout),
        source == ReportSource::Stdout ==> shown_text(source, stdout, report_file, parsed)
            == filtered(stdout, parsed),
        source == ReportSource::File && report_file is None ==> shown_text(
            source,
            stdout,
            report_file,
            parsed,
        ) == "✓ golangci-lint: No issues found"@,
        source == ReportSource::File ==> (report_file matches Some(content) ==> shown_text(
            source,
            stdout,
            report_file,
            parsed,
        ) == filtered(content, parsed)),
{
    law_clean_run(Seq::empty(), parsed);
}

} // verus!
