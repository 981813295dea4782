//! `ar` archives: flat, with GNU and BSD long names.

pub mod emit;
pub mod forms;
pub mod laws;
pub mod scan;
