pub mod buffer;

pub use buffer::{prepare_for_zsh, ZshBufferCommand};
