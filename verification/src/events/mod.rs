//! Windows event records.

pub mod xml;
