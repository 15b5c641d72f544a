//! Portable Bluetooth Low Energy observations, history and risk evidence.
//!
//! A platform or firmware adapter supplies advertisements through
//! [`Collector`]; this module supplies normalized models, protocol-aware
//! identity fingerprints and stateful detectors.
//!
//! RSSI is signal evidence, not a distance measurement. Generic private
//! addresses can rotate, so only decoded protocol identities or
//! caller-supplied identities are treated as strong enough for clone
//! detection.

pub mod model;
pub mod fingerprint;
pub mod findings;
pub mod tracker;
pub mod laws;

pub use model::{
    AddressType, Advertisement, Collector, DeviceHistory, Finding, Identity, IdentityConfidence,
    ManufacturerData, Observation, ObservationResult, RiskKind, RiskSeverity, SensorContext,
    ServiceData, Snapshot, TrackerPolicy,
};
pub use fingerprint::{identify, payload_hash};
pub use tracker::Tracker;
