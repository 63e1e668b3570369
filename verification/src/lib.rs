//! Screen automation: capture, vision, input replay and the overlays that
//! drive them, with their integer logic verified.

pub mod arith;
pub mod hardware;
pub mod logbuf;
pub mod models;
pub mod text;
