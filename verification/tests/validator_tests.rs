use cmdmind::intent::{CommandPlan, CommandSource};
use cmdmind::security::{tokenize_command, validate, SecurityError, ValidatedPlan, MAX_COMMAND_LENGTH};

fn make_plan(command: &str) -> CommandPlan {
    CommandPlan::new(command, "Test explanation", CommandSource::Tier1)
}

#[test]
fn test_safe_ls_command() {
    let plan = make_plan("ls");
    let validated = validate(plan).expect("ls should be valid");
    assert_eq!(validated.command(), "ls");
}

#[test]
fn test_safe_git_status() {
    let plan = make_plan("git status");
    let validated = validate(plan).expect("git status should be valid");
    assert_eq!(validated.command(), "git status");
}

#[test]
fn test_safe_find_pdf() {
    let plan = make_plan("find . -type f -name '*.pdf'");
    let validated = validate(plan).expect("find pdf should be valid");
    assert_eq!(validated.command(), "find . -type f -name '*.pdf'");
}

#[test]
fn test_safe_find_python_mtime() {
    let plan = make_plan("find . -type f -name '*.py' -mtime -2");
    let validated = validate(plan).expect("find python should be valid");
    assert_eq!(validated.command(), "find . -type f -name '*.py' -mtime -2");
}

#[test]
fn test_safe_command_with_substring_words() {
    let plan = make_plan("cat formal_document.txt");
    assert!(validate(plan).is_ok());

    let plan2 = make_plan("find . -type f -name '*middle*'");
    assert!(validate(plan2).is_ok());

    let plan3 = make_plan("ls remove_old.py");
    assert!(validate(plan3).is_ok());

    let plan4 = make_plan("find ./src -name '*.rs'");
    assert!(validate(plan4).is_ok());
}

#[test]
fn test_reject_rm() {
    let plan = make_plan("rm -rf my_folder");
    let err = validate(plan).unwrap_err();
    match err {
        SecurityError::DangerousCommand(cmd) => assert_eq!(cmd, "rm"),
        other => panic!("expected DangerousCommand, got {:?}", other),
    }
}

#[test]
fn test_reject_sudo() {
    let plan = make_plan("sudo apt update");
    let err = validate(plan).unwrap_err();
    match err {
        SecurityError::DangerousCommand(cmd) => assert_eq!(cmd, "sudo"),
        other => panic!("expected DangerousCommand, got {:?}", other),
    }
}

#[test]
fn test_reject_case_variation_dangerous_command() {
    let plan = make_plan("RM -rf /tmp");
    assert!(matches!(
        validate(plan),
        Err(SecurityError::DangerousCommand(_))
    ));

    let plan2 = make_plan("SUDO ls");
    assert!(matches!(
        validate(plan2),
        Err(SecurityError::DangerousCommand(_))
    ));
}

#[test]
fn test_reject_other_dangerous_commands() {
    let prohibited = [
        "mkfs /dev/sda1",
        "dd if=/dev/zero of=/dev/null",
        "shutdown -h now",
        "reboot",
        "poweroff",
        "halt",
        "fdisk /dev/sda",
        "diskutil eraseDisk",
    ];

    for cmd in prohibited {
        let plan = make_plan(cmd);
        assert!(
            matches!(validate(plan), Err(SecurityError::DangerousCommand(_))),
            "command should be rejected: {}",
            cmd
        );
    }
}

#[test]
fn test_reject_subcommand_in_find_exec() {
    let plan = make_plan("find . -exec rm {} +");
    let err = validate(plan).unwrap_err();
    assert!(matches!(err, SecurityError::DangerousCommand(_)));
}

#[test]
fn test_reject_semicolon_chaining() {
    let plan = make_plan("ls; rm something");
    let err = validate(plan).unwrap_err();
    assert!(matches!(err, SecurityError::ShellControlConstruct(_)));
}

#[test]
fn test_reject_logical_operators() {
    let plan1 = make_plan("ls && rm something");
    assert!(matches!(
        validate(plan1),
        Err(SecurityError::ShellControlConstruct(_))
    ));

    let plan2 = make_plan("ls || rm something");
    assert!(matches!(
        validate(plan2),
        Err(SecurityError::ShellControlConstruct(_))
    ));
}

#[test]
fn test_reject_pipe_operator() {
    let plan = make_plan("ls | grep something");
    assert!(matches!(
        validate(plan),
        Err(SecurityError::ShellControlConstruct(_))
    ));
}

#[test]
fn test_reject_command_substitution() {
    let plan1 = make_plan("echo $(whoami)");
    assert!(matches!(
        validate(plan1),
        Err(SecurityError::ShellControlConstruct(_))
    ));

    let plan2 = make_plan("echo `whoami`");
    assert!(matches!(
        validate(plan2),
        Err(SecurityError::ShellControlConstruct(_))
    ));
}

#[test]
fn test_reject_redirections() {
    let plan1 = make_plan("cat file > out.txt");
    assert!(matches!(
        validate(plan1),
        Err(SecurityError::ShellControlConstruct(_))
    ));

    let plan2 = make_plan("cat file >> out.txt");
    assert!(matches!(
        validate(plan2),
        Err(SecurityError::ShellControlConstruct(_))
    ));

    let plan3 = make_plan("cat < in.txt");
    assert!(matches!(
        validate(plan3),
        Err(SecurityError::ShellControlConstruct(_))
    ));

    let plan4 = make_plan("cmd 2> err.log");
    assert!(matches!(
        validate(plan4),
        Err(SecurityError::ShellControlConstruct(_))
    ));
}

#[test]
fn test_reject_root_target() {
    let plan = make_plan("ls /");
    let err = validate(plan).unwrap_err();
    assert!(matches!(err, SecurityError::DangerousPath(_)));

    let plan2 = make_plan("ls /*");
    assert!(matches!(
        validate(plan2),
        Err(SecurityError::DangerousPath(_))
    ));
}

#[test]
fn test_reject_directory_traversal() {
    let plan = make_plan("cat ../secret.txt");
    let err = validate(plan).unwrap_err();
    assert!(matches!(err, SecurityError::DangerousPath(_)));

    let plan2 = make_plan("ls ..");
    assert!(matches!(
        validate(plan2),
        Err(SecurityError::DangerousPath(_))
    ));
}

#[test]
fn test_reject_system_directory_paths() {
    let targets = [
        "cat /etc/passwd",
        "ls /System/Library",
        "find /Library/Preferences",
        "ls /bin",
        "ls /sbin",
        "find /usr/local",
        "cat /var/log/syslog",
    ];

    for cmd in targets {
        let plan = make_plan(cmd);
        let result = validate(plan);
        assert!(
            matches!(result, Err(SecurityError::DangerousPath(_))),
            "path should be rejected: {}",
            cmd
        );
    }
}

#[test]
fn test_reject_empty_and_whitespace() {
    let plan1 = make_plan("");
    assert!(matches!(validate(plan1), Err(SecurityError::EmptyCommand)));

    let plan2 = make_plan("     ");
    assert!(matches!(validate(plan2), Err(SecurityError::EmptyCommand)));
}

#[test]
fn test_reject_command_too_long() {
    let long_cmd = "a".repeat(MAX_COMMAND_LENGTH + 1);
    let plan = make_plan(&long_cmd);
    assert!(matches!(
        validate(plan),
        Err(SecurityError::CommandTooLong { .. })
    ));
}

fn mock_executor(validated: &ValidatedPlan) -> String {
    format!("Executing verified command: {}", validated.command())
}

#[test]
fn test_type_state_boundary_enforcement() {
    let raw_plan = make_plan("ls");
    let validated_plan = validate(raw_plan).expect("ls must validate");
    let execution_result = mock_executor(&validated_plan);
    assert_eq!(execution_result, "Executing verified command: ls");
}

#[test]
fn test_validated_plan_keeps_explanation_and_source() {
    let plan = CommandPlan::new("git status", "Check it", CommandSource::Ollama);
    let validated = validate(plan).unwrap();
    assert_eq!(validated.explanation(), "Check it");
    assert_eq!(validated.source(), &CommandSource::Ollama);
    assert_eq!(validated.as_plan().command, "git status");
    let inner = validated.clone().into_inner();
    assert_eq!(inner, CommandPlan::new("git status", "Check it", CommandSource::Ollama));
}

#[test]
fn test_revalidating_a_validated_plan_accepts_it() {
    let validated = validate(make_plan("find ./src -name '*.rs'")).unwrap();
    let again = validate(validated.clone().into_inner()).expect("still valid");
    assert_eq!(again, validated);
}

#[test]
fn test_length_limit_is_exactly_max() {
    let at_max = "a".repeat(MAX_COMMAND_LENGTH);
    assert!(validate(make_plan(&at_max)).is_ok());
    let over = "a".repeat(MAX_COMMAND_LENGTH + 1);
    assert_eq!(
        validate(make_plan(&over)),
        Err(SecurityError::CommandTooLong { length: 1001, max: 1000 })
    );
}

#[test]
fn test_length_is_counted_in_characters() {
    let accented = format!("ls {}", "é".repeat(600));
    assert!(validate(make_plan(&accented)).is_ok());
    let at_max = format!("ls {}", "é".repeat(997));
    assert!(validate(make_plan(&at_max)).is_ok());
    let over = format!("ls {}", "é".repeat(998));
    assert_eq!(
        validate(make_plan(&over)),
        Err(SecurityError::CommandTooLong { length: 1001, max: 1000 })
    );
}

#[test]
fn test_unmatched_quote_is_unsupported_format() {
    assert!(matches!(
        validate(make_plan("find . -name 'unmatched")),
        Err(SecurityError::UnsupportedCommandFormat(_))
    ));
    assert!(matches!(
        validate(make_plan("find . -name \"unmatched")),
        Err(SecurityError::UnsupportedCommandFormat(_))
    ));
}

#[test]
fn test_tokenize_command_words_and_quotes() {
    assert_eq!(
        tokenize_command("find \"my folder\" -name 'my file.txt'").unwrap(),
        vec!["find".to_string(), "my folder".to_string(), "-name".to_string(), "my file.txt".to_string()]
    );
    assert_eq!(tokenize_command("  ls   -la  ").unwrap(), vec!["ls".to_string(), "-la".to_string()]);
    assert_eq!(tokenize_command("").unwrap(), Vec::<String>::new());
    assert!(matches!(
        tokenize_command("echo 'open"),
        Err(SecurityError::UnsupportedCommandFormat(_))
    ));
}

#[test]
fn test_security_error_messages() {
    assert_eq!(
        SecurityError::DangerousCommand("rm".to_string()).message(),
        "Dangerous command detected: 'rm' is prohibited by security policy."
    );
    assert_eq!(
        SecurityError::CommandTooLong { length: 1001, max: 1000 }.message(),
        "Command length (1001 characters) exceeds maximum allowed limit of 1000 characters."
    );
}

#[test]
fn test_each_control_character_is_a_control_construct() {
    for c in [';', '&', '|', '$', '`', '>', '<'] {
        let cmd = format!("ls a{}b", c);
        assert!(
            matches!(validate(make_plan(&cmd)), Err(SecurityError::ShellControlConstruct(_))),
            "expected control construct for {}",
            cmd
        );
    }
    assert!(validate(make_plan("ls a-b")).is_ok());
}
