//! The chaos harness: network pathologies for tests.
//!
//! Nothing in here feeds production telemetry. It simulates latency, jitter,
//! loss, reordering, bandwidth limits, resets and outages.

pub mod pipeline;
pub mod profile;

pub use crate::chaos::pipeline::{PacketRecord, PacketResult, PipelineState};
pub use crate::chaos::profile::{ChaosProfile, FailureMode};
