//! The data a recorded macro is made of.

pub mod macro_def;
