pub mod validator;

pub use validator::validate;
pub use validator::{tokenize_command, SecurityError, ValidatedPlan, MAX_COMMAND_LENGTH};
