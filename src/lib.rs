//! Keyboard remapping engine: binding tables, SOCD resolution with echo
//! suppression, and analog-axis priority resolution.
pub mod binding;
pub mod tables;
pub mod axis;
pub mod engine;
pub mod laws;
