//! Resiliency and adaptive routing for a mobile network optimizer.
//!
//! Nothing here opens a socket: each decision is a function of measured
//! inputs, and no measurement is made up along the way.
use vstd::prelude::*;

pub mod boundary;
pub mod chaos;
pub mod circuit;
pub mod compression;
pub mod conduct;
pub mod control;
pub mod delta;
pub mod demo;
pub mod detect;
pub mod dice;
pub mod double;
pub mod edges;
pub mod engine;
pub mod events;
pub mod fallback;
pub mod health;
pub mod hysteresis;
pub mod identifier;
pub mod json;
pub mod keepalive;
pub mod layout;
pub mod metrics;
pub mod migration;
pub mod model;
pub mod octets;
pub mod order;
pub mod persistence;
pub mod probe;
pub mod ranking;
pub mod ratio;
pub mod reading;
pub mod retry;
pub mod root;
pub mod scoring;
pub mod search;
pub mod security;
pub mod server;
pub mod session;
pub mod state;
pub mod sync;
pub mod table;
pub mod telemetry;
pub mod text;
pub mod transport;
pub mod tunnel;
pub mod views;

pub use crate::model::{
    BatteryState, DataPlanePolicy, EdgeHealth, EdgeInfo, Measured, MeasuredSource, MetricsSnapshot,
    NetworkType, RouteCandidate, TransportKind, VpnState,
};

verus! {

/// Epoch milliseconds, UTC.
pub type TimestampMs = u64;

/// What can go wrong, as callers see it.
#[derive(Debug)]
pub enum Error {
    InvalidInput(String),
    StateConflict(String),
    UnknownTransport(String),
    UnknownEdge(String),
    Storage(String),
    Serde(String),
}

pub enum ErrorView {
    InvalidInput(Seq<char>),
    StateConflict(Seq<char>),
    UnknownTransport(Seq<char>),
    UnknownEdge(Seq<char>),
    Storage(Seq<char>),
    Serde(Seq<char>),
}

impl View for Error {
    type V = ErrorView;

    open spec fn view(&self) -> ErrorView {
        match *self {
            Error::InvalidInput(s) => ErrorView::InvalidInput(s@),
            Error::StateConflict(s) => ErrorView::StateConflict(s@),
            Error::UnknownTransport(s) => ErrorView::UnknownTransport(s@),
            Error::UnknownEdge(s) => ErrorView::UnknownEdge(s@),
            Error::Storage(s) => ErrorView::Storage(s@),
            Error::Serde(s) => ErrorView::Serde(s@),
        }
    }
}

impl ErrorView {
    /// The message shown to a user.
    pub open spec fn message(self) -> Seq<char> {
        match self {
            ErrorView::InvalidInput(s) => "invalid input: "@ + s,
            ErrorView::StateConflict(s) => "state conflict: "@ + s,
            ErrorView::UnknownTransport(s) => "unknown transport: "@ + s,
            ErrorView::UnknownEdge(s) => "unknown edge: "@ + s,
            ErrorView::Storage(s) => "storage: "@ + s,
            ErrorView::Serde(s) => "serialization: "@ + s,
        }
    }
}

impl Error {
    pub fn message(&self) -> (r: String)
        ensures
            r@ == self@.message(),
    {
        let (kind, detail) = match self {
            Error::InvalidInput(s) => ("invalid input: ", s),
            Error::StateConflict(s) => ("state conflict: ", s),
            Error::UnknownTransport(s) => ("unknown transport: ", s),
            Error::UnknownEdge(s) => ("unknown edge: ", s),
            Error::Storage(s) => ("storage: ", s),
            Error::Serde(s) => ("serialization: ", s),
        };
        let mut r = kind.to_owned();
        r.append(detail);
        r
    }
}

pub type Result<T> = core::result::Result<T, Error>;

} // verus!
