use cmdmind::intent::{CommandPlan, CommandSource};
use cmdmind::security::{validate, ValidatedPlan};
use cmdmind::zsh::{prepare_for_zsh, ZshBufferCommand};

fn create_validated_plan(cmd: &str) -> ValidatedPlan {
    let plan = CommandPlan::new(cmd, "Test explanation", CommandSource::Tier1);
    validate(plan).expect("command should be valid")
}

#[test]
fn test_validated_ls_to_zsh_buffer() {
    let validated = create_validated_plan("ls");
    let buffer_cmd = prepare_for_zsh(validated);

    assert_eq!(buffer_cmd.command(), "ls");
    assert_eq!(buffer_cmd.explanation(), "Test explanation");
    assert_eq!(buffer_cmd.source(), &CommandSource::Tier1);
    assert_eq!(buffer_cmd.to_print_z_statement(), "print -z 'ls'");
}

#[test]
fn test_validated_find_pdf_to_zsh_buffer() {
    let validated = create_validated_plan("find . -type f -name '*.pdf'");
    let buffer_cmd = prepare_for_zsh(validated);

    assert_eq!(buffer_cmd.command(), "find . -type f -name '*.pdf'");
    assert_eq!(
        buffer_cmd.to_print_z_statement(),
        r#"print -z 'find . -type f -name '\''*.pdf'\'''"#
    );
}

#[test]
fn test_preserves_command_contents_exactly() {
    let original_command = "find . -type f -name '*.py' -mtime -2";
    let plan = CommandPlan::new(
        original_command,
        "Find recent Python files",
        CommandSource::Ollama,
    );
    let validated = validate(plan).expect("plan must validate");

    let buffer_cmd = prepare_for_zsh(validated);

    assert_eq!(buffer_cmd.command(), original_command);
    assert_eq!(buffer_cmd.source(), &CommandSource::Ollama);
}

#[test]
fn test_to_print_z_statement_escaping() {
    let plan = CommandPlan::new(
        "git commit -m 'initial commit'",
        "Git commit",
        CommandSource::Tier1,
    );
    let validated = validate(plan).expect("plan must validate");
    let buffer_cmd = prepare_for_zsh(validated);

    assert_eq!(
        buffer_cmd.to_print_z_statement(),
        r#"print -z 'git commit -m '\''initial commit'\'''"#
    );
}

#[test]
fn test_review_status_is_available() {
    let validated = create_validated_plan("git status");
    let buffer_cmd = prepare_for_zsh(validated);
    assert!(!buffer_cmd.review_status(true).is_empty());
    assert!(!buffer_cmd.review_status(false).is_empty());
}

fn mock_zsh_buffer_consumer(cmd: &ZshBufferCommand) -> String {
    format!("Loaded into ZLE buffer: {}", cmd.command())
}

#[test]
fn test_type_state_boundary_prevents_raw_plan() {
    let raw_plan = CommandPlan::new("ls", "List files", CommandSource::Tier1);
    let validated = validate(raw_plan).expect("validates successfully");
    let zsh_cmd = prepare_for_zsh(validated);

    let result = mock_zsh_buffer_consumer(&zsh_cmd);
    assert_eq!(result, "Loaded into ZLE buffer: ls");
}

#[test]
fn test_review_status_per_platform() {
    let zsh_cmd = prepare_for_zsh(create_validated_plan("ls"));
    assert_eq!(zsh_cmd.review_status(false), "Ready for human review");
    assert_eq!(
        zsh_cmd.review_status(true),
        "Ready for human review in macOS zsh buffer"
    );
}

#[test]
fn test_from_validated_equals_prepare_for_zsh() {
    let a = ZshBufferCommand::from_validated(create_validated_plan("ls -la docs"));
    let b = prepare_for_zsh(create_validated_plan("ls -la docs"));
    assert_eq!(a.command(), b.command());
    assert_eq!(a.explanation(), b.explanation());
    assert_eq!(a.to_print_z_statement(), "print -z 'ls -la docs'");
}

#[test]
fn test_print_z_round_trip_example() {
    let zsh_cmd = prepare_for_zsh(create_validated_plan("echo 'a' \"b\" 'it'"));
    let stmt = zsh_cmd.to_print_z_statement();
    assert_eq!(stmt, r#"print -z 'echo '\''a'\'' "b" '\''it'\'''"#);
    let quoted = &stmt["print -z ".len()..];
    let mut out = String::new();
    let mut in_quote = false;
    let chars: Vec<char> = quoted.chars().collect();
    let mut i = 0;
    while i < chars.len() {
        let c = chars[i];
        if in_quote {
            if c == '\'' {
                in_quote = false;
            } else {
                out.push(c);
            }
        } else if c == '\'' {
            in_quote = true;
        } else if c == '\\' {
            out.push(chars[i + 1]);
            i += 1;
        }
        i += 1;
    }
    assert_eq!(out, zsh_cmd.command());
}
