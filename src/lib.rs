//! Editing core of a terminal text editor: positions, the line store, edits,
//! undo/redo, word navigation and the viewport mapping.

pub mod boundary;
pub mod buffer;
pub mod edit;
pub mod keys;
pub mod movement;
pub mod pos;
pub mod rope_buffer;
pub mod stats;
pub mod text;
pub mod types;
pub mod utils;
pub mod viewport;
