//! Verified core logic of the Helix editor's terminal, view, log and debug-adapter layers.
pub mod compositor;
pub mod graphics;
pub mod log;
pub mod multibuffer;
pub mod picker;
pub mod profile;
pub mod table;
pub mod terminal;
pub mod progress;
pub mod text;
