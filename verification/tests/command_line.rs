use golangci_cmd::command::{has_user_format_flag, is_run_subcommand};
use golangci_cmd::version::detect_major_version;

#[test]
fn test_is_run_subcommand_explicit_run() {
    let args: Vec<String> = vec!["run".into(), "./...".into()];
    assert!(is_run_subcommand(&args));
}

#[test]
fn test_is_run_subcommand_no_args_implies_run() {
    let args: Vec<String> = vec![];
    assert!(is_run_subcommand(&args));
}

#[test]
fn test_is_run_subcommand_flags_only_implies_run() {
    let args: Vec<String> = vec!["--fix".into(), "--fast".into()];
    assert!(is_run_subcommand(&args));
}

#[test]
fn test_is_run_subcommand_path_only_implies_run() {
    let args: Vec<String> = vec!["./...".into()];
    assert!(is_run_subcommand(&args));
}

#[test]
fn test_is_run_subcommand_version() {
    let args: Vec<String> = vec!["version".into()];
    assert!(!is_run_subcommand(&args));
}

#[test]
fn test_is_run_subcommand_linters() {
    let args: Vec<String> = vec!["linters".into()];
    assert!(!is_run_subcommand(&args));
}

#[test]
fn test_is_run_subcommand_cache_clean() {
    let args: Vec<String> = vec!["cache".into(), "clean".into()];
    assert!(!is_run_subcommand(&args));
}

#[test]
fn test_is_run_subcommand_help() {
    let args: Vec<String> = vec!["help".into()];
    assert!(!is_run_subcommand(&args));
}

#[test]
fn test_is_run_subcommand_config() {
    let args: Vec<String> = vec!["config".into()];
    assert!(!is_run_subcommand(&args));
}

// v1+v2: custom
#[test]
fn test_is_run_subcommand_custom() {
    let args: Vec<String> = vec!["custom".into()];
    assert!(!is_run_subcommand(&args));
}

// v2-only subcommands
#[test]
fn test_is_run_subcommand_fmt() {
    let args: Vec<String> = vec!["fmt".into()];
    assert!(!is_run_subcommand(&args));
}

#[test]
fn test_is_run_subcommand_formatters() {
    let args: Vec<String> = vec!["formatters".into()];
    assert!(!is_run_subcommand(&args));
}

#[test]
fn test_is_run_subcommand_migrate() {
    let args: Vec<String> = vec!["migrate".into()];
    assert!(!is_run_subcommand(&args));
}

#[test]
fn test_detect_major_version_v1_short() {
    assert_eq!(detect_major_version("1.62.2"), 1);
}

#[test]
fn test_detect_major_version_v2_short() {
    assert_eq!(detect_major_version("2.11.3"), 2);
}

#[test]
fn test_detect_major_version_v1_long() {
    assert_eq!(
        detect_major_version(
            "golangci-lint has version 1.62.2 built with go1.23.3 from 89476e7a on 2024-11-25T14:16:01Z"
        ),
        1
    );
}

#[test]
fn test_detect_major_version_v2_long() {
    assert_eq!(
        detect_major_version(
            "golangci-lint has version 2.11.3 built with go1.26.1 from 6008b81b on 2026-03-10T10:25:44Z"
        ),
        2
    );
}

#[test]
fn test_detect_major_version_unknown_defaults_to_2() {
    assert_eq!(detect_major_version(""), 2);
    assert_eq!(detect_major_version("garbage"), 2);
}

#[test]
fn test_has_user_format_flag_v1() {
    let args = vec!["--out-format=text".to_string()];
    assert!(has_user_format_flag(&args));
}

#[test]
fn test_has_user_format_flag_v2_output_dot() {
    let args = vec!["--output.text.path=stdout".to_string()];
    assert!(has_user_format_flag(&args));
}

#[test]
fn test_has_user_format_flag_none() {
    let args = vec!["--fix".to_string(), "./...".to_string()];
    assert!(!has_user_format_flag(&args));
}
