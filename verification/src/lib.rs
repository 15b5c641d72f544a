//! Portable Bluetooth Low Energy observation tracking and Windows event text
//! extraction, with machine-checked contracts.

pub mod text;
pub mod keyed;
pub mod events;
pub mod report;
pub mod ble;
pub mod embedded;
pub mod adapter;
pub mod recorder;
pub mod diagnostic;
