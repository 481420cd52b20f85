//! Ring-buffer I/O.

pub mod buf;
pub mod reader;
pub mod settings;
