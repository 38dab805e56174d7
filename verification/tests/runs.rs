use golangci_cmd::report::{GolangciOutput, Issue, Position};
use golangci_cmd::run::{
    conclude, ending, json_document, json_text, needs_version, plan_invocation, read_execution, report_file_name,
    Ending, Execution, ReportSource,
};
use golangci_cmd::version::{
    detect_major_version, detect_major_version_from_binary, installed_major_version,
};

fn args(words: &[&str]) -> Vec<String> {
    words.iter().map(|word| word.to_string()).collect()
}

fn execution(stdout: &str, stderr: &str, status: Option<i32>) -> Execution {
    Execution {
        stdout: stdout.to_string(),
        stderr: stderr.to_string(),
        status,
    }
}

#[test]
fn version_is_needed_for_a_run_without_format() {
    assert!(needs_version(&args(&[])));
    assert!(needs_version(&args(&["run", "./..."])));
    assert!(!needs_version(&args(&["run", "--out-format", "tab"])));
    assert!(!needs_version(&args(&["linters"])));
}

#[test]
fn name_of_the_report_file() {
    assert_eq!(report_file_name(4711), "rtk_golangci_4711.json");
    assert_eq!(report_file_name(0), "rtk_golangci_0.json");
}

#[test]
fn plan_for_version_1() {
    let plan = plan_invocation(&args(&["run", "--fix", "./..."]), 1, "/tmp/r.json", 1);
    assert_eq!(plan.arguments, args(&["run", "--out-format=json", "--fix", "./..."]));
    assert_eq!(plan.source, ReportSource::Stdout);
    assert_eq!(
        plan.notice.as_deref(),
        Some("Running: golangci-lint run --out-format=json (v1)")
    );
}

#[test]
fn plan_for_version_2() {
    let plan = plan_invocation(&args(&["./...", "run"]), 2, "/tmp/r.json", 3);
    assert_eq!(plan.arguments, args(&["run", "--output.json.path=/tmp/r.json", "./..."]));
    assert_eq!(plan.source, ReportSource::File);
    assert_eq!(
        plan.notice.as_deref(),
        Some("Running: golangci-lint run --output.json.path=/tmp/r.json (v2)")
    );
    let quiet = plan_invocation(&args(&[]), 2, "r", 0);
    assert_eq!(quiet.arguments, args(&["run", "--output.json.path=r"]));
    assert_eq!(quiet.notice, None);
}

#[test]
fn plan_with_a_format_of_the_user() {
    for major in [1, 2] {
        let plan = plan_invocation(&args(&["run", "--out-format=tab", "a"]), major, "r", 1);
        assert_eq!(plan.arguments, args(&["run", "--out-format=tab", "a"]));
        assert_eq!(plan.source, ReportSource::Stdout);
        assert_eq!(
            plan.notice.as_deref(),
            Some("Running: golangci-lint run (user format flag detected)")
        );
    }
}

#[test]
fn plan_of_another_subcommand() {
    let plan = plan_invocation(&args(&["cache", "run", "clean"]), 1, "r", 1);
    assert_eq!(plan.arguments, args(&["cache", "run", "clean"]));
    assert_eq!(plan.source, ReportSource::Absent);
    assert_eq!(plan.notice.as_deref(), Some("Running: golangci-lint cache run clean"));
    assert_eq!(plan_invocation(&args(&["help"]), 1, "r", 0).notice, None);
}

#[test]
fn planning_twice_changes_nothing() {
    let once = plan_invocation(&args(&["-v", "run", "./..."]), 2, "r", 0).arguments;
    assert_eq!(plan_invocation(&once, 1, "other", 0).arguments, once);
}

#[test]
fn bytes_become_text() {
    let read = read_execution(b"a\xffb", "é✓".as_bytes(), Some(3));
    assert_eq!(read.stdout, "a\u{fffd}b");
    assert_eq!(read.stderr, "é✓");
    assert_eq!(read.status, Some(3));
}

#[test]
fn where_the_json_is() {
    let file = Some("from file");
    assert_eq!(json_text(ReportSource::Absent, "out", file), None);
    assert_eq!(json_text(ReportSource::Stdout, "out", file).as_deref(), Some("out"));
    assert_eq!(json_text(ReportSource::File, "out", file).as_deref(), file);
    assert_eq!(json_text(ReportSource::File, "out", None).as_deref(), Some(""));
}

#[test]
fn what_is_parsed() {
    let file = Some("\n{\"Issues\":[]} ");
    assert_eq!(json_document(ReportSource::Absent, " out ", file), None);
    assert_eq!(json_document(ReportSource::Stdout, " out\n", file).as_deref(), Some("out"));
    assert_eq!(
        json_document(ReportSource::File, "out", file).as_deref(),
        Some("{\"Issues\":[]}")
    );
    assert_eq!(json_document(ReportSource::File, "out", None).as_deref(), Some(""));
}

#[test]
fn endings() {
    assert!(matches!(ending(Some(0), "noise"), Ending::Success));
    assert!(matches!(ending(Some(1), "noise"), Ending::Success));
    match ending(Some(3), " bad config \n") {
        Ending::Failure { code, message } => {
            assert_eq!(code, 3);
            assert_eq!(message.as_deref(), Some("bad config"));
        }
        Ending::Success => panic!("exit code 3"),
    }
    match ending(Some(-1), " \n") {
        Ending::Failure { code, message } => {
            assert_eq!(code, -1);
            assert_eq!(message, None);
        }
        Ending::Success => panic!("exit code -1"),
    }
    match ending(None, "ignored") {
        Ending::Failure { code, message } => {
            assert_eq!(code, 130);
            assert_eq!(message.as_deref(), Some("golangci-lint: killed by signal"));
        }
        Ending::Success => panic!("killed"),
    }
}

#[test]
fn conclusion_of_a_lint_run() {
    let parsed = Some(GolangciOutput {
        issues: vec![Issue {
            from_linter: "errcheck".to_string(),
            text: "finding".to_string(),
            pos: Position {
                filename: "pkg/main.go".to_string(),
                line: 42,
                column: 5,
            },
        }],
    });
    let end = conclude(
        &args(&["run", "./..."]),
        1,
        ReportSource::File,
        &execution("out", " level=warning \n", Some(1)),
        Some("{}"),
        parsed,
    );
    assert!(end.shown.starts_with("golangci-lint: 1 issues in 1 files\n"));
    assert!(end.shown.ends_with("  main.go (1 issues)\n    errcheck (1)"));
    assert_eq!(end.warning.as_deref(), Some("level=warning"));
    assert_eq!(end.command, "golangci-lint run ./...");
    assert_eq!(end.rtk_command, "rtk golangci-lint run ./...");
    assert_eq!(end.raw, "out\n level=warning \n");
    assert!(matches!(end.ending, Ending::Success));
}

#[test]
fn conclusion_of_another_subcommand() {
    let end = conclude(
        &args(&["linters"]),
        0,
        ReportSource::Absent,
        &execution("  enabled:\n errcheck\n\n", "trouble", Some(2)),
        None,
        None,
    );
    assert_eq!(end.shown, "enabled:\n errcheck");
    assert_eq!(end.warning, None);
    assert!(matches!(end.ending, Ending::Failure { code: 2, .. }));
    let quiet = execution("text summary", "\n", Some(0));
    let silent = conclude(&args(&[]), 2, ReportSource::File, &quiet, None, None);
    assert_eq!(silent.shown, "✓ golangci-lint: No issues found");
    assert_eq!(silent.warning, None);
    assert_eq!(silent.command, "golangci-lint ");
    let text = conclude(&args(&["run"]), 0, ReportSource::Stdout, &quiet, None, None);
    assert_eq!(text.shown, "text summary");
}

#[test]
fn versions() {
    assert_eq!(detect_major_version("3.0.0\n"), 3);
    assert_eq!(detect_major_version("version "), 2);
    assert_eq!(detect_major_version("version  v1.2 x"), 2);
    assert_eq!(detect_major_version("version \t1 x version 2"), 1);
    assert_eq!(detect_major_version("256.0"), 2);
    assert_eq!(detect_major_version("+1.5"), 1);
    assert_eq!(detect_major_version(" \n\t1.62.2 \n"), 1);
    assert_eq!(detect_major_version("\u{3000}1\n"), 1);
    assert_eq!(detect_major_version("has version  \n1.5"), 1);
    let version = "1.55.0";
    assert_eq!(
        detect_major_version(&format!("golangci-lint has version {} built", version)),
        detect_major_version(version)
    );
}

#[test]
fn installed_version_is_1_or_2() {
    assert_eq!(detect_major_version_from_binary(None), 2);
    assert_eq!(detect_major_version_from_binary(Some(b"1.62.2\n")), 1);
    assert_eq!(detect_major_version_from_binary(Some(b"\xff version 1.62.2 \xff")), 1);
    assert_eq!(detect_major_version_from_binary(Some(b"\xff1.62.2")), 2);
    assert_eq!(detect_major_version_from_binary(Some(b"3.0.0")), 2);
    assert_eq!(installed_major_version(Some("1.0")), 1);
    assert_eq!(installed_major_version(Some("0.9")), 2);
    assert_eq!(installed_major_version(None), 2);
}
