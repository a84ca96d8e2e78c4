use cmdmind::executor::{execute_with_runner, CommandRunner, ExecutionError, ExecutionResult, MockCommandRunner};
use cmdmind::intent::{CommandPlan, CommandSource};
use cmdmind::security::{validate, ValidatedPlan};

fn make_validated(cmd: &str) -> ValidatedPlan {
    let plan = CommandPlan::new(cmd, "Test command", CommandSource::Tier1);
    validate(plan).expect("command should be valid")
}

#[test]
fn test_mock_executor_receives_structured_args_for_ls() {
    let mut runner = MockCommandRunner::new();
    let plan = make_validated("ls");
    let res = execute_with_runner(&plan, &mut runner).unwrap();

    assert!(res.success);
    assert_eq!(res.exit_code, Some(0));
    assert_eq!(runner.call_count(), 1);

    let calls = runner.get_calls();
    assert_eq!(calls[0].0, "ls");
    assert!(calls[0].1.is_empty());
}

#[test]
fn test_mock_executor_receives_structured_args_for_git_status() {
    let mut runner = MockCommandRunner::new();
    let plan = make_validated("git status");
    let res = execute_with_runner(&plan, &mut runner).unwrap();

    assert!(res.success);
    assert_eq!(runner.call_count(), 1);

    let calls = runner.get_calls();
    assert_eq!(calls[0].0, "git");
    assert_eq!(calls[0].1, vec!["status".to_string()]);
}

#[test]
fn test_mock_executor_receives_structured_args_for_find_pdf() {
    let mut runner = MockCommandRunner::new();
    let plan = make_validated("find . -type f -name '*.pdf'");
    let res = execute_with_runner(&plan, &mut runner).unwrap();

    assert!(res.success);
    assert_eq!(runner.call_count(), 1);

    let calls = runner.get_calls();
    assert_eq!(calls[0].0, "find");
    assert_eq!(
        calls[0].1,
        vec![
            ".".to_string(),
            "-type".to_string(),
            "f".to_string(),
            "-name".to_string(),
            "*.pdf".to_string(),
        ]
    );
}

#[test]
fn test_mock_executor_receives_quoted_arguments_with_spaces() {
    let mut runner = MockCommandRunner::new();
    let plan = make_validated("find \"my folder\" -name 'my file.txt'");
    let res = execute_with_runner(&plan, &mut runner).unwrap();

    assert!(res.success);
    assert_eq!(runner.call_count(), 1);

    let calls = runner.get_calls();
    assert_eq!(calls[0].0, "find");
    assert_eq!(
        calls[0].1,
        vec![
            "my folder".to_string(),
            "-name".to_string(),
            "my file.txt".to_string(),
        ]
    );
}

#[test]
fn test_mock_executor_preserves_non_zero_exit_code() {
    let mut runner = MockCommandRunner::with_result(Ok(ExecutionResult::new(Some(42))));
    let plan = make_validated("ls");
    let res = execute_with_runner(&plan, &mut runner).unwrap();

    assert!(!res.success);
    assert_eq!(res.exit_code, Some(42));
}

#[test]
fn test_mock_executor_propagates_command_not_found_error() {
    let mut runner = MockCommandRunner::with_result(Err(ExecutionError::CommandNotFound(
        "nonexistent_bin".to_string(),
    )));
    let plan = make_validated("ls");
    let err = execute_with_runner(&plan, &mut runner).unwrap_err();

    match err {
        ExecutionError::CommandNotFound(cmd) => assert_eq!(cmd, "nonexistent_bin"),
        other => panic!("Expected CommandNotFound, got {:?}", other),
    }
}

#[test]
fn test_mock_executor_propagates_permission_denied_error() {
    let mut runner = MockCommandRunner::with_result(Err(ExecutionError::PermissionDenied(
        "restricted_bin".to_string(),
    )));
    let plan = make_validated("ls");
    let err = execute_with_runner(&plan, &mut runner).unwrap_err();

    match err {
        ExecutionError::PermissionDenied(cmd) => assert_eq!(cmd, "restricted_bin"),
        other => panic!("Expected PermissionDenied, got {:?}", other),
    }
}

#[test]
fn test_execution_result_new_reports_success_only_for_zero() {
    assert!(ExecutionResult::new(Some(0)).success);
    assert!(!ExecutionResult::new(Some(1)).success);
    assert!(!ExecutionResult::new(None).success);
    assert_eq!(ExecutionResult::new(None).exit_code, None);
}

#[test]
fn test_mock_records_every_call_in_order() {
    let mut runner = MockCommandRunner::default();
    let first = make_validated("ls -la docs");
    let second = make_validated("git status");
    execute_with_runner(&first, &mut runner).unwrap();
    execute_with_runner(&second, &mut runner).unwrap();
    assert_eq!(runner.call_count(), 2);
    let calls = runner.get_calls();
    assert_eq!(calls[0].0, "ls");
    assert_eq!(calls[0].1, vec!["-la".to_string(), "docs".to_string()]);
    assert_eq!(calls[1].0, "git");
    assert_eq!(calls[1].1, vec!["status".to_string()]);
}

#[test]
fn test_mock_with_error_result_still_records_call() {
    let mut runner =
        MockCommandRunner::with_result(Err(ExecutionError::ProcessFailed("boom".to_string())));
    let plan = make_validated("git status");
    let err = execute_with_runner(&plan, &mut runner).unwrap_err();
    assert_eq!(err, ExecutionError::ProcessFailed("boom".to_string()));
    assert_eq!(runner.call_count(), 1);
}

#[test]
fn test_execution_error_messages() {
    assert_eq!(ExecutionError::EmptyCommand.message(), "Execution failed: empty command.");
    assert_eq!(
        ExecutionError::StructuredParseError("bad".to_string()).message(),
        "Structured command parsing failed: bad"
    );
    assert_eq!(
        ExecutionError::CommandNotFound("foo".to_string()).message(),
        "Command not found: 'foo'"
    );
    assert_eq!(
        ExecutionError::PermissionDenied("foo".to_string()).message(),
        "Permission denied executing: 'foo'"
    );
    assert_eq!(
        ExecutionError::ProcessFailed("io".to_string()).message(),
        "Process execution failed: io"
    );
}

#[test]
fn test_runner_words_hold_no_shell_control() {
    let commands = [
        "ls -la docs",
        "git status",
        "find . -type f -name '*.pdf'",
        "find \"my folder\" -name 'my file.txt'",
        "cat formal_document.txt",
    ];
    for cmd in commands {
        let mut runner = MockCommandRunner::new();
        execute_with_runner(&make_validated(cmd), &mut runner).unwrap();
        for (program, args) in runner.get_calls() {
            let all = std::iter::once(program).chain(args.into_iter());
            for word in all {
                assert!(!word.contains(|c| ";&|$`<>".contains(c)), "control char in {}", word);
            }
        }
    }
}

#[test]
fn test_mock_run_records_any_call() {
    let mut runner = MockCommandRunner::new();
    let res = runner.run("rm", &["-rf".to_string(), "x".to_string()]);
    assert_eq!(res, Ok(ExecutionResult::new(Some(0))));
    let calls = runner.get_calls();
    assert_eq!(calls.len(), 1);
    assert_eq!(calls[0].0, "rm");
    assert_eq!(calls[0].1, vec!["-rf".to_string(), "x".to_string()]);
}
