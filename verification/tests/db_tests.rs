use cmdmind::db::{custom_db_path, DbError, HistoryEntry, DEFAULT_DB_FILENAME};
use cmdmind::executor::{launch_error, ExecutionError, LaunchFailure};
use cmdmind::intent::{CommandPlan, CommandSource};
use cmdmind::security::validate;

#[test]
fn test_history_entry_new_is_validated() {
    let e = HistoryEntry::new(7, "list files", "ls", "List files", "Tier-1", "2024-01-01T00:00:00Z");
    assert_eq!(e.id, 7);
    assert_eq!(e.request, "list files");
    assert_eq!(e.command, "ls");
    assert_eq!(e.explanation, "List files");
    assert_eq!(e.source, "Tier-1");
    assert_eq!(e.created_at, "2024-01-01T00:00:00Z");
    assert_eq!(e.status, "validated");
}

#[test]
fn test_history_entry_with_status() {
    let e = HistoryEntry::with_status(1, "r", "git status", "x", "Ollama", "t", "executed");
    assert_eq!(e.status, "executed");
    assert_eq!(e.source, "Ollama");
}

#[test]
fn test_history_entry_for_plan_records_validated_command() {
    let plan = validate(CommandPlan::new("git status", "Check git status", CommandSource::Ollama))
        .unwrap();
    let e = HistoryEntry::for_plan(3, "check git status", &plan, "now", "failed");
    assert_eq!(e.id, 3);
    assert_eq!(e.request, "check git status");
    assert_eq!(e.command, "git status");
    assert_eq!(e.explanation, "Check git status");
    assert_eq!(e.source, "Ollama");
    assert_eq!(e.created_at, "now");
    assert_eq!(e.status, "failed");
}

#[test]
fn test_custom_db_path_setting() {
    assert_eq!(custom_db_path(None), None);
    assert_eq!(custom_db_path(Some("   ")), None);
    assert_eq!(custom_db_path(Some(" /tmp/h.db \n")), Some("/tmp/h.db".to_string()));
    assert_eq!(DEFAULT_DB_FILENAME, "cmdmind.db");
}

#[test]
fn test_db_error_messages() {
    assert_eq!(
        DbError::Connection("x".to_string()).message(),
        "Failed to connect to SQLite database: x"
    );
    assert_eq!(DbError::Query("y".to_string()).message(), "SQLite query execution failed: y");
    assert_eq!(DbError::Io("z".to_string()).message(), "Database filesystem I/O error: z");
}

#[test]
fn test_launch_error_kinds() {
    assert_eq!(
        launch_error(LaunchFailure::NotFound, "nonexistent_bin", "no such file"),
        ExecutionError::CommandNotFound("nonexistent_bin".to_string())
    );
    assert_eq!(
        launch_error(LaunchFailure::PermissionDenied, "restricted_bin", "denied"),
        ExecutionError::PermissionDenied("restricted_bin".to_string())
    );
    assert_eq!(
        launch_error(LaunchFailure::Other, "ls", "broken pipe"),
        ExecutionError::ProcessFailed("broken pipe".to_string())
    );
}
