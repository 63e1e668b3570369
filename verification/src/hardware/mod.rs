//! Everything that touches pixels or input events.

pub mod capture;
pub mod input;
pub mod ocr;
pub mod overlay;
pub mod picker;
pub mod player;
pub mod preview;
pub mod recorder;
pub mod regions;
pub mod reliable_input;
pub mod snap;
pub mod surgical;
pub mod vision;
pub mod window;
