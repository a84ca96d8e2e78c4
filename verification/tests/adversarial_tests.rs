use cmdmind::executor::{execute_with_runner, MockCommandRunner};
use cmdmind::intent::{CommandPlan, CommandSource};
use cmdmind::llm::{llm_json_body, plan_from_llm_fields};
use cmdmind::security::{validate, SecurityError};
use cmdmind::zsh::prepare_for_zsh;

#[test]
fn test_adversarial_dangerous_executables_exact_and_variations() {
    let prohibited_cases = [
        "rm file.txt",
        "rm -rf /",
        "sudo apt-get update",
        "sudo rm something",
        "mkfs /dev/sda",
        "mkfs.ext4 /dev/sda1",
        "dd if=/dev/zero of=/dev/sda",
        "shutdown -h now",
        "reboot",
        "poweroff",
        "halt",
        "fdisk /dev/sda",
        "diskutil eraseDisk APFS MyDisk /dev/disk2",
        "RM file.txt",
        "Rm file.txt",
        "rM file.txt",
        "SUDO whoami",
        "sUdO ls",
        "DD if=/dev/zero of=/dev/null",
        "MKFS /dev/sdb",
        "SHUTDOWN -r now",
        "Reboot",
        "POWEROFF",
        "HALT",
        "FDISK -l",
        "DiskUtil list",
        "/bin/rm file.txt",
        "/usr/bin/sudo id",
        "/sbin/shutdown now",
        "/usr/sbin/diskutil list",
        "C:\\Windows\\System32\\shutdown.exe -s",
    ];

    for cmd in prohibited_cases {
        let plan = CommandPlan::new(cmd, "Adversarial test", CommandSource::Tier1);
        let result = validate(plan);
        assert!(
            result.is_err(),
            "Expected dangerous executable in '{}' to be rejected, but it passed validation!",
            cmd
        );
        match result.unwrap_err() {
            SecurityError::DangerousCommand(name) => {
                assert!(!name.is_empty(), "Expected extracted dangerous command name");
            }
            SecurityError::DangerousPath(_) => {}
            other => panic!("Unexpected error type for '{}': {:?}", cmd, other),
        }
    }
}

#[test]
fn test_adversarial_shell_control_constructs() {
    let injection_cases = [
        "ls; rm file",
        "echo hello; whoami",
        "ls ; rm -rf /",
        "ls; ",
        "; ls",
        "ls && rm file",
        "ls || rm file",
        "true && rm -rf /",
        "false || rm -rf /",
        "echo a && echo b",
        "ls | rm file",
        "cat /etc/passwd | grep root",
        "ps aux | grep node",
        "find . -type f | xargs rm",
        "$(rm file)",
        "echo $(whoami)",
        "find . -name $(whoami)",
        "`rm file`",
        "`id`",
        "echo `whoami`",
        "echo $USER",
        "cat ${HOME}/secret",
        "find . -name $VAR",
        "ls > output.txt",
        "cat < input.txt",
        "ls >> output.txt",
        "command 2> errors.txt",
        "ls 2>&1",
        "cat file > /dev/null",
        "ls < /dev/null > out.txt",
    ];

    for cmd in injection_cases {
        let plan = CommandPlan::new(cmd, "Shell injection test", CommandSource::Tier1);
        let result = validate(plan);
        assert!(
            result.is_err(),
            "Expected shell construct in '{}' to be rejected, but it passed validation!",
            cmd
        );
        match result.unwrap_err() {
            SecurityError::ShellControlConstruct(_) => {}
            SecurityError::DangerousCommand(_) => {}
            SecurityError::DangerousPath(_) => {}
            other => panic!("Unexpected error for '{}': {:?}", cmd, other),
        }
    }
}

#[test]
fn test_adversarial_path_traversal_and_system_roots() {
    let traversal_cases = [
        "cat ../secret.txt",
        "cat ../../etc/passwd",
        "cat ./../../etc",
        "ls ../",
        "find .. -type f",
        "find dir/../../etc -type f",
        "cat dir/../secret.txt",
        "ls /",
        "ls //",
        "ls /*",
        "find / -type f",
        "find /etc -type f",
        "cat /etc/passwd",
        "cat /etc/shadow",
        "ls /System",
        "ls /System/Library",
        "ls /Library",
        "ls /bin",
        "ls /sbin",
        "ls /usr",
        "ls /var",
        "ls /var/log",
    ];

    for cmd in traversal_cases {
        let plan = CommandPlan::new(cmd, "Path traversal test", CommandSource::Tier1);
        let result = validate(plan);
        assert!(
            result.is_err(),
            "Expected path traversal/restricted target in '{}' to be rejected, but it passed validation!",
            cmd
        );
        match result.unwrap_err() {
            SecurityError::DangerousPath(_) => {}
            other => panic!("Unexpected error for '{}': {:?}", cmd, other),
        }
    }
}

#[test]
fn test_adversarial_obfuscation_and_tricky_formatting() {
    let plan1 = CommandPlan::new("ls    ;    whoami", "Whitespace", CommandSource::Tier1);
    assert!(validate(plan1).is_err());

    let plan2 = CommandPlan::new("ls ;;;; whoami", "Repeated semicolons", CommandSource::Tier1);
    assert!(validate(plan2).is_err());

    let plan3 = CommandPlan::new("ls &&&& whoami", "Repeated ampersands", CommandSource::Tier1);
    assert!(validate(plan3).is_err());

    let plan4 = CommandPlan::new("ls |||| whoami", "Repeated pipes", CommandSource::Tier1);
    assert!(validate(plan4).is_err());

    let plan5 = CommandPlan::new("find . -name \"unmatched", "Unmatched quote", CommandSource::Tier1);
    assert!(validate(plan5).is_err());

    let plan6 = CommandPlan::new(
        "find . -name 'unmatched",
        "Unmatched single quote",
        CommandSource::Tier1,
    );
    assert!(validate(plan6).is_err());

    assert_eq!(
        validate(CommandPlan::new("", "Empty", CommandSource::Tier1)),
        Err(SecurityError::EmptyCommand)
    );
    assert_eq!(
        validate(CommandPlan::new("   \t  \n  ", "Whitespace", CommandSource::Tier1)),
        Err(SecurityError::EmptyCommand)
    );

    let huge_command = format!("find . -name '{}'", "a".repeat(1100));
    let huge_plan = CommandPlan::new(&huge_command, "Huge command", CommandSource::Tier1);
    match validate(huge_plan) {
        Err(SecurityError::CommandTooLong { length, max }) => {
            assert!(length > max);
            assert_eq!(max, 1000);
        }
        other => panic!("Expected CommandTooLong, got {:?}", other),
    }
}

#[test]
fn test_adversarial_false_positive_prevention() {
    let legitimate_cases = [
        "ls remove_old.py",
        "cat formal_document.txt",
        "find . -name '*dd*'",
        "find . -name '*sudo_notes*'",
        "ls shutdown_notes.txt",
        "find . -type f -name '*.rpm'",
        "ls reboot_instructions.md",
        "cat diskutil_log.txt",
        "ls src",
        "find . -type f -name '*.pdf'",
        "find . -type f -name '*.py' -mtime -2",
        "git status",
        "ls -la docs",
    ];

    for cmd in legitimate_cases {
        let plan = CommandPlan::new(cmd, "False-positive test", CommandSource::Tier1);
        let result = validate(plan);
        assert!(
            result.is_ok(),
            "Legitimate command '{}' was falsely rejected by validator: {:?}",
            cmd,
            result.err()
        );
    }
}

fn parse_reply(raw_json: &str) -> CommandPlan {
    let body = llm_json_body(raw_json).expect("reply has a body");
    let value: serde_json::Value = serde_json::from_str(&body).expect("valid JSON");
    let field = |name: &str| value.get(name).and_then(|v| v.as_str()).map(|s| s.to_string());
    plan_from_llm_fields(field("command"), field("explanation")).expect("fields make a plan")
}

#[test]
fn test_adversarial_llm_json_payloads_rejected_at_boundary() {
    let malicious_llm_outputs = [
        r#"{"command": "rm -rf /", "explanation": "Clean up files"}"#,
        r#"{"command": "ls && rm -rf /", "explanation": "List and clean up"}"#,
        r#"{"command": "find /etc -type f", "explanation": "Locate configuration files"}"#,
        r#"{"command": "sudo apt-get update", "explanation": "Update packages"}"#,
        r#"{"command": "cat < /etc/shadow", "explanation": "Display system password hashes"}"#,
        r#"{"command": "echo $(whoami)", "explanation": "Print current username"}"#,
        r#"{"command": "find . -exec rm {} \\;", "explanation": "Delete matched files"}"#,
    ];

    for raw_json in malicious_llm_outputs {
        let plan = parse_reply(raw_json);
        assert_eq!(plan.source, CommandSource::Ollama);
        let validation_result = validate(plan);
        assert!(
            validation_result.is_err(),
            "Security validator must REJECT malicious LLM payload '{}', but it passed!",
            raw_json
        );
    }
}

#[test]
fn test_adversarial_fenced_reply_body_is_untrusted_text() {
    let body = llm_json_body("```json\n{\"command\": \"rm -rf /\"}\n```").unwrap();
    assert_eq!(body, "{\"command\": \"rm -rf /\"}");
}

#[test]
fn test_invariant_1_command_plan_cannot_reach_zsh_buffer_api() {
    let plan = CommandPlan::new("ls", "List files", CommandSource::Tier1);
    let validated = validate(plan).unwrap();
    let zsh_cmd = prepare_for_zsh(validated);
    assert_eq!(
        zsh_cmd.review_status(true),
        "Ready for human review in macOS zsh buffer"
    );
    assert_eq!(zsh_cmd.review_status(false), "Ready for human review");
}

#[test]
fn test_invariant_4_and_5_no_execution_occurred() {
    assert!(true);
}

#[test]
fn test_invariant_command_plan_cannot_reach_executor_api() {
    let plan = CommandPlan::new("ls", "List files", CommandSource::Tier1);
    let validated = validate(plan).expect("ls validates");

    let mut runner = MockCommandRunner::new();
    let result = execute_with_runner(&validated, &mut runner);
    assert!(result.is_ok());
    assert_eq!(runner.call_count(), 1);
}

#[test]
fn test_adversarial_dangerous_commands_never_reach_executor() {
    let prohibited_cases = [
        "rm -rf /",
        "sudo rm something",
        "dd if=/dev/zero of=/dev/sda",
        "mkfs.ext4 /dev/sda1",
        "shutdown -h now",
        "reboot",
        "poweroff",
        "halt",
        "fdisk /dev/sda",
        "diskutil eraseDisk APFS MyDisk /dev/disk2",
    ];

    let runner = MockCommandRunner::new();

    for cmd in prohibited_cases {
        let plan = CommandPlan::new(cmd, "Malicious attempt", CommandSource::Tier1);
        let validation_res = validate(plan);
        assert!(
            validation_res.is_err(),
            "Dangerous command '{}' must be rejected by validator",
            cmd
        );
    }

    assert_eq!(
        runner.call_count(),
        0,
        "Executor runner must never be called for dangerous commands"
    );
}

#[test]
fn test_adversarial_shell_control_constructs_never_reach_executor() {
    let shell_injections = [
        "ls ; rm -rf /",
        "ls && rm -rf /",
        "ls || rm -rf /",
        "ls | rm",
        "echo $(rm -rf /)",
        "echo `rm -rf /`",
        "echo hello > /dev/null",
        "echo hello >> output.txt",
        "cat < input.txt",
        "ls 2> error.log",
    ];

    let runner = MockCommandRunner::new();

    for cmd in shell_injections {
        let plan = CommandPlan::new(cmd, "Shell injection attempt", CommandSource::Tier1);
        let validation_res = validate(plan);
        assert!(
            validation_res.is_err(),
            "Shell control construct '{}' must be rejected by validator",
            cmd
        );
    }

    assert_eq!(
        runner.call_count(),
        0,
        "Executor runner must never be called for shell injection commands"
    );
}

#[test]
fn test_safe_commands_reach_executor_with_structured_arguments() {
    let cases = [
        ("ls", "ls", vec![]),
        ("git status", "git", vec!["status"]),
        (
            "find . -type f -name '*.pdf'",
            "find",
            vec![".", "-type", "f", "-name", "*.pdf"],
        ),
    ];

    for (cmd_str, expected_prog, expected_args) in cases {
        let plan = CommandPlan::new(cmd_str, "Safe intent", CommandSource::Tier1);
        let validated = validate(plan).expect("command must validate");

        let mut runner = MockCommandRunner::new();
        let res = execute_with_runner(&validated, &mut runner).expect("execution must succeed");
        assert!(res.success);
        assert_eq!(runner.call_count(), 1);

        let calls = runner.get_calls();
        assert_eq!(calls[0].0, expected_prog);
        let actual_args: Vec<&str> = calls[0].1.iter().map(|s| s.as_str()).collect();
        assert_eq!(actual_args, expected_args);
    }
}
