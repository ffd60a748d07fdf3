//! Input devices.
pub mod keyboard;
