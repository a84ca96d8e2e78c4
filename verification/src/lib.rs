pub mod cli;
pub mod db;
pub mod executor;
pub mod intent;
pub mod llm;
pub mod resolver;
pub mod security;
pub mod text;
pub mod zsh;
