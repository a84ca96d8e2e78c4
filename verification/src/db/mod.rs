pub mod models;

pub use models::{custom_db_path, DbError, HistoryEntry, DEFAULT_DB_FILENAME};
