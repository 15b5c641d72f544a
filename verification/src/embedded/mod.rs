//! Firmware-side building blocks.

pub mod chronicle;
