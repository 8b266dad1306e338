//! The graph view: its note graph, its mouse handling, and its settings
//! dialog and font picker.

pub mod input_handler;
pub mod processing;
pub mod settings;
