//! Core of a client/server terminal text editor: rope-backed buffers with
//! line/column addressing, interval algebra for multi-cursor selections,
//! streaming substring search, and the editor state machine that turns input
//! events into buffer/view mutations and styled render frames.

pub mod buffer;
pub mod editor;
pub mod error;
pub mod header;
pub mod keymap;
pub mod path;
pub mod project;
pub mod position;
pub mod region;
pub mod render;
pub mod search;
pub mod selection;
pub mod selection_set;
pub mod text;
pub mod view;
pub mod window;
