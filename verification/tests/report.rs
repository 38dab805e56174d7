use golangci_cmd::report::{filter_golangci_json, GolangciOutput, Issue, Position};
use serde_json::Value;

fn text(value: &Value, key: &str) -> Option<String> {
    Some(value.get(key)?.as_str()?.to_string())
}

fn number(value: &Value, key: &str) -> Option<usize> {
    Some(value.get(key)?.as_u64()? as usize)
}

fn issue(value: &Value) -> Option<Issue> {
    let pos = value.get("Pos")?;
    Some(Issue {
        from_linter: text(value, "FromLinter")?,
        text: text(value, "Text")?,
        pos: Position {
            filename: text(pos, "Filename")?,
            line: number(pos, "Line")?,
            column: number(pos, "Column")?,
        },
    })
}

fn parse(output: &str) -> Option<GolangciOutput> {
    let value: Value = serde_json::from_str(output.trim()).ok()?;
    let mut issues = Vec::new();
    for entry in value.get("Issues")?.as_array()? {
        issues.push(issue(entry)?);
    }
    Some(GolangciOutput { issues })
}

fn filter(output: &str) -> String {
    filter_golangci_json(output, parse(output))
}

fn found(linter: &str, file: &str) -> Issue {
    Issue {
        from_linter: linter.to_string(),
        text: "finding".to_string(),
        pos: Position {
            filename: file.to_string(),
            line: 1,
            column: 1,
        },
    }
}

fn report(issues: Vec<Issue>) -> String {
    filter_golangci_json("{}", Some(GolangciOutput { issues }))
}

#[test]
fn test_filter_golangci_json_empty_string() {
    let result = filter("");
    assert!(result.contains("✓ golangci-lint"));
    assert!(result.contains("No issues found"));
}

#[test]
fn test_filter_golangci_json_non_json_fallback() {
    let result = filter("golangci-lint has version 1.55.0");
    assert!(!result.contains("JSON parse failed"));
}

#[test]
fn test_filter_golangci_no_issues() {
    let output = r#"{"Issues":[]}"#;
    let result = filter(output);
    assert!(result.contains("✓ golangci-lint"));
    assert!(result.contains("No issues found"));
}

#[test]
fn test_filter_golangci_with_issues() {
    let output = r#"{
  "Issues": [
    {
      "FromLinter": "errcheck",
      "Text": "Error return value not checked",
      "Pos": {"Filename": "main.go", "Line": 42, "Column": 5}
    },
    {
      "FromLinter": "errcheck",
      "Text": "Error return value not checked",
      "Pos": {"Filename": "main.go", "Line": 50, "Column": 10}
    },
    {
      "FromLinter": "gosimple",
      "Text": "Should use strings.Contains",
      "Pos": {"Filename": "utils.go", "Line": 15, "Column": 2}
    }
  ]
}"#;

    let result = filter(output);
    assert!(result.contains("3 issues"));
    assert!(result.contains("2 files"));
    assert!(result.contains("errcheck"));
    assert!(result.contains("gosimple"));
    assert!(result.contains("main.go"));
    assert!(result.contains("utils.go"));
}

#[test]
fn test_filter_golangci_with_v2_extra_fields() {
    let output = r#"{"Issues":[{"FromLinter":"errcheck","Text":"Error return value not checked","Severity":"","SourceLines":[],"Pos":{"Filename":"main.go","Offset":0,"Line":42,"Column":5},"ExpectNoLint":false,"ExpectedNoLintLinter":""}],"Report":{"Linters":[]}}"#;
    let result = filter(output);
    assert!(result.contains("1 issues"));
    assert!(result.contains("errcheck"));
}

#[test]
fn white_space_means_a_clean_run() {
    let clean = "✓ golangci-lint: No issues found";
    assert_eq!(filter(" \n\t\u{3000}"), clean);
    let issues = vec![found("errcheck", "main.go")];
    assert_eq!(
        filter_golangci_json("\n", Some(GolangciOutput { issues })),
        clean
    );
    assert_eq!(
        filter_golangci_json("{}", Some(GolangciOutput { issues: vec![] })),
        clean
    );
}

#[test]
fn unparsed_output_is_passed_through() {
    assert_eq!(filter("  level=error msg=typechecking \n"), "level=error msg=typechecking");
    let limit = "é".repeat(2000);
    assert_eq!(filter(&limit), limit);
    let long = "é".repeat(2001);
    assert_eq!(filter(&long), format!("{}...", "é".repeat(1997)));
    assert_eq!(filter(&long).chars().count(), 2000);
}

#[test]
fn whole_report() {
    let result = report(vec![
        found("gosimple", "/home/me/app/internal/db/conn.go"),
        found("errcheck", "/home/me/app/cmd/main.go"),
        found("errcheck", "/home/me/app/internal/db/conn.go"),
        found("govet", "/home/me/app/internal/db/conn.go"),
        found("errcheck", "/home/me/app/internal/db/conn.go"),
        found("unused", "/home/me/app/internal/db/conn.go"),
    ]);
    assert_eq!(
        result,
        "golangci-lint: 6 issues in 2 files\n\
         ═══════════════════════════════════════\n\
         Top linters:\n  errcheck (3x)\n  gosimple (1x)\n  govet (1x)\n  unused (1x)\n\
         \n\
         Top files:\n  internal/db/conn.go (5 issues)\n    errcheck (2)\n    gosimple (1)\n    govet (1)\n  cmd/main.go (1 issues)\n    errcheck (1)"
    );
}

#[test]
fn only_the_top_ten_are_listed() {
    let mut issues = Vec::new();
    for i in 0..12 {
        for _ in 0..(20 - i) {
            issues.push(found(&format!("linter{}", i), &format!("file{}.go", i)));
        }
    }
    let total = issues.len();
    let result = report(issues);
    assert!(result.starts_with(&format!("golangci-lint: {} issues in 12 files\n", total)));
    assert!(result.contains("  linter9 (11x)\n"));
    assert!(!result.contains("linter10"));
    assert!(result.contains("  file9.go (11 issues)\n"));
    assert!(!result.contains("file10.go"));
    assert!(result.ends_with("    linter9 (11)\n\n... +2 more files"));
}

#[test]
fn ten_files_leave_none_out() {
    let mut issues = Vec::new();
    for i in 0..10 {
        issues.push(found("errcheck", &format!("file{}.go", i)));
    }
    let result = report(issues);
    assert!(result.ends_with("  file9.go (1 issues)\n    errcheck (1)"));
}

#[test]
fn equal_files_with_different_spelling_stay_apart() {
    let result = report(vec![found("a", "x\\main.go"), found("b", "x/main.go")]);
    assert!(result.starts_with("golangci-lint: 2 issues in 2 files\n"));
    assert!(result.ends_with(
        "Top files:\n  main.go (1 issues)\n    a (1)\n  main.go (1 issues)\n    b (1)"
    ));
}

#[test]
fn without_ties_the_order_has_no_influence() {
    let issues = vec![
        found("errcheck", "a.go"),
        found("errcheck", "a.go"),
        found("errcheck", "a.go"),
        found("govet", "a.go"),
        found("govet", "a.go"),
        found("unused", "b.go"),
    ];
    let first = report(issues);
    let mut shuffled = vec![
        found("unused", "b.go"),
        found("govet", "a.go"),
        found("errcheck", "a.go"),
        found("govet", "a.go"),
        found("errcheck", "a.go"),
        found("errcheck", "a.go"),
    ];
    for (i, issue) in shuffled.iter_mut().enumerate() {
        issue.text = format!("another text {}", i);
        issue.pos.line = 100 + i;
        issue.pos.column = 7 * i;
    }
    let second = filter_golangci_json(" {} \n", Some(GolangciOutput { issues: shuffled }));
    assert_eq!(first, second);
}
