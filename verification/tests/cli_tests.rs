use cmdmind::cli::{auto_execute_enabled, execution_status, parse_args, CliCommand};

fn args(v: &[&str]) -> Vec<String> {
    v.iter().map(|s| s.to_string()).collect()
}

#[test]
fn test_no_arguments_prints_usage() {
    assert_eq!(parse_args(&args(&[])), CliCommand::Usage);
    assert_eq!(parse_args(&args(&["--dry-run"])), CliCommand::Usage);
    assert_eq!(parse_args(&args(&["  ", ""])), CliCommand::Usage);
}

#[test]
fn test_request_words_are_joined_and_trimmed() {
    assert_eq!(
        parse_args(&args(&["find", "all", "pdf", "files"])),
        CliCommand::Run { request: "find all pdf files".to_string(), dry_run: false }
    );
    assert_eq!(
        parse_args(&args(&[" find all pdf files "])),
        CliCommand::Run { request: "find all pdf files".to_string(), dry_run: false }
    );
}

#[test]
fn test_dry_run_flag_anywhere() {
    assert_eq!(
        parse_args(&args(&["git", "--dry-run", "status"])),
        CliCommand::Run { request: "git status".to_string(), dry_run: true }
    );
    assert_eq!(
        parse_args(&args(&["--dry-run", "find all pdf files"])),
        CliCommand::Run { request: "find all pdf files".to_string(), dry_run: true }
    );
}

#[test]
fn test_history_version_and_help_commands() {
    assert_eq!(parse_args(&args(&["history"])), CliCommand::History);
    assert_eq!(parse_args(&args(&["HiStOrY"])), CliCommand::History);
    assert_eq!(parse_args(&args(&["--version"])), CliCommand::Version);
    assert_eq!(parse_args(&args(&["-V"])), CliCommand::Version);
    assert_eq!(parse_args(&args(&["-v"])), CliCommand::Version);
    assert_eq!(parse_args(&args(&["--help"])), CliCommand::Help);
    assert_eq!(parse_args(&args(&["-h"])), CliCommand::Help);
    assert_eq!(parse_args(&args(&["help"])), CliCommand::Help);
    assert_eq!(
        parse_args(&args(&["HELP"])),
        CliCommand::Run { request: "HELP".to_string(), dry_run: false }
    );
}

#[test]
fn test_auto_execute_setting() {
    assert!(!auto_execute_enabled(true, None));
    assert!(!auto_execute_enabled(true, Some("1")));
    assert!(auto_execute_enabled(false, None));
    assert!(auto_execute_enabled(false, Some("1")));
    assert!(auto_execute_enabled(false, Some("")));
    assert!(!auto_execute_enabled(false, Some("0")));
    assert!(!auto_execute_enabled(false, Some("false")));
    assert!(!auto_execute_enabled(false, Some("FaLsE")));
    assert!(auto_execute_enabled(false, Some("no")));
}

#[test]
fn test_execution_status_labels() {
    assert_eq!(execution_status(true), "executed");
    assert_eq!(execution_status(false), "failed");
}
