//! A layered terminal compositor: windows of styled characters are stacked
//! by depth, flattened into one frame, and only the cells that changed since
//! the last frame are turned into print commands.

pub mod style;
pub mod grid;
pub mod window;
pub mod area;
pub mod compose;
pub mod clear;
pub mod frame;
pub mod engine;
pub mod laws;

pub use engine::Engine;
