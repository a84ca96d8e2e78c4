//! Records of the command history.
use vstd::prelude::*;

use crate::intent::tier1::source_label;
use crate::security::validator::{is_accepted, ValidatedPlan};
use crate::text::{chars_of, string_from_chars, trim, trim_chars};

verus! {

/// A persisted command history record.
#[derive(Debug, Clone, PartialEq, Eq)]
pub struct HistoryEntry {
    /// Row id in the history table.
    pub id: i64,
    /// The user's original natural-language request.
    pub request: String,
    /// The validated shell command.
    pub command: String,
    /// Human-readable explanation.
    pub explanation: String,
    /// Engine label (`Tier-1` or `Ollama`).
    pub source: String,
    /// RFC 3339 timestamp of the record.
    pub created_at: String,
    /// Execution status (`validated`, `executed`, `failed`, ...).
    pub status: String,
}

impl HistoryEntry {
    /// A history entry with status `validated`.
    pub fn new(
        id: i64,
        request: &str,
        command: &str,
        explanation: &str,
        source: &str,
        created_at: &str,
    ) -> (r: Self)
        ensures
            r.id == id,
            r.request@ == request@,
            r.command@ == command@,
            r.explanation@ == explanation@,
            r.source@ == source@,
            r.created_at@ == created_at@,
            r.status@ == "validated"@,
    {
        Self::with_status(id, request, command, explanation, source, created_at, "validated")
    }

    /// A history entry with an explicit status.
    pub fn with_status(
        id: i64,
        request: &str,
        command: &str,
        explanation: &str,
        source: &str,
        created_at: &str,
        status: &str,
    ) -> (r: Self)
        ensures
            r.id == id,
            r.request@ == request@,
            r.command@ == command@,
            r.explanation@ == explanation@,
            r.source@ == source@,
            r.created_at@ == created_at@,
            r.status@ == status@,
    {
        HistoryEntry {
            id,
            request: String::from_str(request),
            command: String::from_str(command),
            explanation: String::from_str(explanation),
            source: String::from_str(source),
            created_at: String::from_str(created_at),
            status: String::from_str(status),
        }
    }

    /// The entry recording a validated plan: only validated commands enter history.
    pub fn for_plan(
        id: i64,
        request: &str,
        plan: &ValidatedPlan,
        created_at: &str,
        status: &str,
    ) -> (r: Self)
        ensures
            r.id == id,
            r.request@ == request@,
            r.command@ == plan@.command,
            is_accepted(r.command@),
            r.explanation@ == plan@.explanation,
            r.source@ == source_label(plan@.source),
            r.created_at@ == created_at@,
            r.status@ == status@,
    {
        Self::with_status(
            id,
            request,
            plan.command(),
            plan.explanation(),
            plan.source().label(),
            created_at,
            status,
        )
    }
}

/// Standard database filename.
pub const DEFAULT_DB_FILENAME: &'static str = "cmdmind.db";

/// The database path that a `CMDMIND_DB_PATH` setting overrides the default with: the
/// trimmed setting, unless it is absent or blank.
pub fn custom_db_path(setting: Option<&str>) -> (r: Option<String>)
    ensures
        match setting {
            Some(s) => if trim(s@).len() > 0 {
                r matches Some(p) && p@ == trim(s@)
            } else {
                r is None
            },
            None => r is None,
        },
{
    match setting {
        Some(s) => {
            let t = trim_chars(&chars_of(s));
            if t.len() > 0 {
                Some(string_from_chars(&t))
            } else {
                None
            }
        },
        None => None,
    }
}

/// The abstract content of a [`DbError`].
pub enum DbFailure {
    Connection(Seq<char>),
    Query(Seq<char>),
    Io(Seq<char>),
}

/// Errors of the history database.
#[derive(Debug, Clone, PartialEq, Eq)]
pub enum DbError {
    Connection(String),
    Query(String),
    Io(String),
}

impl View for DbError {
    type V = DbFailure;

    open spec fn view(&self) -> DbFailure {
        match self {
            DbError::Connection(m) => DbFailure::Connection(m@),
            DbError::Query(m) => DbFailure::Query(m@),
            DbError::Io(m) => DbFailure::Io(m@),
        }
    }
}

/// The human-readable description of a database failure.
pub open spec fn db_failure_message(f: DbFailure) -> Seq<char> {
    match f {
        DbFailure::Connection(m) => "Failed to connect to SQLite database: "@ + m,
        DbFailure::Query(m) => "SQLite query execution failed: "@ + m,
        DbFailure::Io(m) => "Database filesystem I/O error: "@ + m,
    }
}

impl DbError {
    /// The human-readable description of this error.
    pub fn message(&self) -> (r: String)
        ensures
            r@ == db_failure_message(self@),
    {
        let (mut s, m) = match self {
            DbError::Connection(m) => (String::from_str("Failed to connect to SQLite database: "), m),
            DbError::Query(m) => (String::from_str("SQLite query execution failed: "), m),
            DbError::Io(m) => (String::from_str("Database filesystem I/O error: "), m),
        };
        s.append(m.as_str());
        s
    }
}

} // verus!
