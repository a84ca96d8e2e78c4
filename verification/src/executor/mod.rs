pub mod executor;

pub use executor::{
    execute_with_runner, launch_error, CommandRunner, LaunchFailure, ExecutionError, ExecutionResult, MockCommandRunner,
};
