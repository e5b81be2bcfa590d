//! Pick a shell command from history and tweak its tokens.

pub mod text;
pub mod tokens;
pub mod roundtrip;
pub mod state;
pub mod state_laws;
pub mod history;
pub mod suggestions;
pub mod tui;
