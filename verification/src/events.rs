//! Structured events under a fixed vocabulary of names.
use vstd::prelude::*;

use crate::model::{MetricsSnapshot, NetworkType, TransportKind};
use crate::views::view_of;
use crate::TimestampMs;

verus! {

#[derive(Clone, Copy, Debug, PartialEq, Eq, Hash, Structural)]
pub enum EventKind {
    NetworkChanged,
    EdgeSelected,
    EdgeDegraded,
    EdgeFailed,
    EdgeRecovered,
    TransportChanged,
    VpnConnected,
    VpnDisconnected,
    RouteChanged,
    DnsFailure,
    HandshakeFailure,
    PacketLossSpike,
    JitterSpike,
    LatencySpike,
    CircuitOpen,
    CircuitClosed,
    SessionResumed,
    NetworkMigration,
    TransportFallback,
    SyncCompleted,
}

impl EventKind {
    pub open spec fn name(self) -> Seq<char> {
        match self {
            EventKind::NetworkChanged => "NETWORK_CHANGED"@,
            EventKind::EdgeSelected => "EDGE_SELECTED"@,
            EventKind::EdgeDegraded => "EDGE_DEGRADED"@,
            EventKind::EdgeFailed => "EDGE_FAILED"@,
            EventKind::EdgeRecovered => "EDGE_RECOVERED"@,
            EventKind::TransportChanged => "TRANSPORT_CHANGED"@,
            EventKind::VpnConnected => "VPN_CONNECTED"@,
            EventKind::VpnDisconnected => "VPN_DISCONNECTED"@,
            EventKind::RouteChanged => "ROUTE_CHANGED"@,
            EventKind::DnsFailure => "DNS_FAILURE"@,
            EventKind::HandshakeFailure => "HANDSHAKE_FAILURE"@,
            EventKind::PacketLossSpike => "PACKET_LOSS_SPIKE"@,
            EventKind::JitterSpike => "JITTER_SPIKE"@,
            EventKind::LatencySpike => "LATENCY_SPIKE"@,
            EventKind::CircuitOpen => "CIRCUIT_OPEN"@,
            EventKind::CircuitClosed => "CIRCUIT_CLOSED"@,
            EventKind::SessionResumed => "SESSION_RESUMED"@,
            EventKind::NetworkMigration => "NETWORK_MIGRATION"@,
            EventKind::TransportFallback => "TRANSPORT_FALLBACK"@,
            EventKind::SyncCompleted => "SYNC_COMPLETED"@,
        }
    }

    pub fn as_str(self) -> (r: &'static str)
        ensures
            r@ == self.name(),
    {
        match self {
            EventKind::NetworkChanged => "NETWORK_CHANGED",
            EventKind::EdgeSelected => "EDGE_SELECTED",
            EventKind::EdgeDegraded => "EDGE_DEGRADED",
            EventKind::EdgeFailed => "EDGE_FAILED",
            EventKind::EdgeRecovered => "EDGE_RECOVERED",
            EventKind::TransportChanged => "TRANSPORT_CHANGED",
            EventKind::VpnConnected => "VPN_CONNECTED",
            EventKind::VpnDisconnected => "VPN_DISCONNECTED",
            EventKind::RouteChanged => "ROUTE_CHANGED",
            EventKind::DnsFailure => "DNS_FAILURE",
            EventKind::HandshakeFailure => "HANDSHAKE_FAILURE",
            EventKind::PacketLossSpike => "PACKET_LOSS_SPIKE",
            EventKind::JitterSpike => "JITTER_SPIKE",
            EventKind::LatencySpike => "LATENCY_SPIKE",
            EventKind::CircuitOpen => "CIRCUIT_OPEN",
            EventKind::CircuitClosed => "CIRCUIT_CLOSED",
            EventKind::SessionResumed => "SESSION_RESUMED",
            EventKind::NetworkMigration => "NETWORK_MIGRATION",
            EventKind::TransportFallback => "TRANSPORT_FALLBACK",
            EventKind::SyncCompleted => "SYNC_COMPLETED",
        }
    }
}

#[derive(Clone, Copy, Debug, PartialEq, Eq, Structural)]
pub enum Severity {
    Info,
    Warning,
    Critical,
}

impl Default for Severity {
    fn default() -> (r: Self)
        ensures
            r == Severity::Info,
    {
        Severity::Info
    }
}

#[derive(Debug)]
pub struct Event {
    pub kind: EventKind,
    pub timestamp: TimestampMs,
    pub network: NetworkType,
    pub route: Option<String>,
    pub transport: Option<TransportKind>,
    pub metrics: Option<MetricsSnapshot>,
    pub reason: String,
    /// A hint for dashboards.
    pub severity: Severity,
}

#[verifier::ext_equal]
pub struct EventView {
    pub kind: EventKind,
    pub timestamp: TimestampMs,
    pub network: NetworkType,
    pub route: Option<Seq<char>>,
    pub transport: Option<TransportKind>,
    pub metrics: Option<MetricsSnapshot>,
    pub reason: Seq<char>,
    pub severity: Severity,
}

impl View for Event {
    type V = EventView;

    open spec fn view(&self) -> EventView {
        EventView {
            kind: self.kind,
            timestamp: self.timestamp,
            network: self.network,
            route: view_of(self.route),
            transport: self.transport,
            metrics: self.metrics,
            reason: self.reason@,
            severity: self.severity,
        }
    }
}

impl Clone for Event {
    fn clone(&self) -> (r: Self)
        ensures
            r@ == self@,
    {
        Event {
            kind: self.kind,
            timestamp: self.timestamp,
            network: self.network,
            route: match &self.route {
                Some(s) => Some(s.clone()),
                None => None,
            },
            transport: self.transport,
            metrics: self.metrics,
            reason: self.reason.clone(),
            severity: self.severity,
        }
    }
}

impl EventView {
    pub open spec fn bare(kind: EventKind, now: TimestampMs) -> EventView {
        EventView {
            kind,
            timestamp: now,
            network: NetworkType::Unknown,
            route: None,
            transport: None,
            metrics: None,
            reason: seq![],
            severity: Severity::Info,
        }
    }
}

impl Event {
    pub fn new(kind: EventKind, now: TimestampMs) -> (r: Self)
        ensures
            r@ == EventView::bare(kind, now),
    {
        Event {
            kind,
            timestamp: now,
            network: NetworkType::Unknown,
            route: None,
            transport: None,
            metrics: None,
            reason: String::new(),
            severity: Severity::Info,
        }
    }

    pub fn with_network(self, n: NetworkType) -> (r: Self)
        ensures
            r@ == (EventView { network: n, ..self@ }),
    {
        let mut e = self;
        e.network = n;
        e
    }

    pub fn with_route(self, route: &str) -> (r: Self)
        ensures
            r@ == (EventView { route: Some(route@), ..self@ }),
    {
        let mut e = self;
        e.route = Some(route.to_owned());
        e
    }

    pub fn with_transport(self, t: TransportKind) -> (r: Self)
        ensures
            r@ == (EventView { transport: Some(t), ..self@ }),
    {
        let mut e = self;
        e.transport = Some(t);
        e
    }

    pub fn with_metrics(self, m: MetricsSnapshot) -> (r: Self)
        ensures
            r@ == (EventView { metrics: Some(m), ..self@ }),
    {
        let mut e = self;
        e.metrics = Some(m);
        e
    }

    pub fn with_reason(self, reason: &str) -> (r: Self)
        ensures
            r@ == (EventView { reason: reason@, ..self@ }),
    {
        let mut e = self;
        e.reason = reason.to_owned();
        e
    }

    pub fn with_severity(self, s: Severity) -> (r: Self)
        ensures
            r@ == (EventView { severity: s, ..self@ }),
    {
        let mut e = self;
        e.severity = s;
        e
    }
}

pub open spec fn is_warning(kind: EventKind) -> bool {
    match kind {
        EventKind::CircuitOpen => true,
        EventKind::EdgeFailed => true,
        EventKind::DnsFailure => true,
        EventKind::HandshakeFailure => true,
        EventKind::PacketLossSpike => true,
        EventKind::JitterSpike => true,
        EventKind::LatencySpike => true,
        EventKind::EdgeDegraded => true,
        EventKind::TransportFallback => true,
        EventKind::VpnDisconnected => true,
        _ => false,
    }
}

pub open spec fn severity_of(kind: EventKind) -> Severity {
    if is_warning(kind) {
        Severity::Warning
    } else {
        Severity::Info
    }
}

/// The severity of an event where the caller does not pick one.
pub fn default_severity(kind: EventKind) -> (r: Severity)
    ensures
        r == severity_of(kind),
{
    match kind {
        EventKind::CircuitOpen
        | EventKind::EdgeFailed
        | EventKind::DnsFailure
        | EventKind::HandshakeFailure
        | EventKind::PacketLossSpike
        | EventKind::JitterSpike
        | EventKind::LatencySpike
        | EventKind::EdgeDegraded
        | EventKind::TransportFallback
        | EventKind::VpnDisconnected => Severity::Warning,
        _ => Severity::Info,
    }
}

/// Two kinds of event have the same text only where they are the same.
pub proof fn law_names_differ(a: EventKind, b: EventKind)
    ensures
        a.name() == b.name() <==> a == b,
{
    lemma_mark_of_name(a);
    lemma_mark_of_name(b);
}

/// What tells the texts apart: their length, and their first and sixth letters.
spec fn mark(kind: EventKind) -> (nat, char, char) {
    match kind {
        EventKind::NetworkChanged => (15, 'N', 'R'),
        EventKind::EdgeSelected => (13, 'E', 'S'),
        EventKind::EdgeDegraded => (13, 'E', 'D'),
        EventKind::EdgeFailed => (11, 'E', 'F'),
        EventKind::EdgeRecovered => (14, 'E', 'R'),
        EventKind::TransportChanged => (17, 'T', 'P'),
        EventKind::VpnConnected => (13, 'V', 'O'),
        EventKind::VpnDisconnected => (16, 'V', 'I'),
        EventKind::RouteChanged => (13, 'R', '_'),
        EventKind::DnsFailure => (11, 'D', 'A'),
        EventKind::HandshakeFailure => (17, 'H', 'H'),
        EventKind::PacketLossSpike => (17, 'P', 'T'),
        EventKind::JitterSpike => (12, 'J', 'R'),
        EventKind::LatencySpike => (13, 'L', 'C'),
        EventKind::CircuitOpen => (12, 'C', 'I'),
        EventKind::CircuitClosed => (14, 'C', 'I'),
        EventKind::SessionResumed => (15, 'S', 'O'),
        EventKind::NetworkMigration => (17, 'N', 'R'),
        EventKind::TransportFallback => (18, 'T', 'P'),
        EventKind::SyncCompleted => (14, 'S', 'C'),
    }
}

proof fn lemma_mark_of_name(kind: EventKind)
    ensures
        mark(kind) == (kind.name().len(), kind.name()[0], kind.name()[5]),
{
    reveal_strlit("NETWORK_CHANGED");
    reveal_strlit("EDGE_SELECTED");
    reveal_strlit("EDGE_DEGRADED");
    reveal_strlit("EDGE_FAILED");
    reveal_strlit("EDGE_RECOVERED");
    reveal_strlit("TRANSPORT_CHANGED");
    reveal_strlit("VPN_CONNECTED");
    reveal_strlit("VPN_DISCONNECTED");
    reveal_strlit("ROUTE_CHANGED");
    reveal_strlit("DNS_FAILURE");
    reveal_strlit("HANDSHAKE_FAILURE");
    reveal_strlit("PACKET_LOSS_SPIKE");
    reveal_strlit("JITTER_SPIKE");
    reveal_strlit("LATENCY_SPIKE");
    reveal_strlit("CIRCUIT_OPEN");
    reveal_strlit("CIRCUIT_CLOSED");
    reveal_strlit("SESSION_RESUMED");
    reveal_strlit("NETWORK_MIGRATION");
    reveal_strlit("TRANSPORT_FALLBACK");
    reveal_strlit("SYNC_COMPLETED");
}

/// Failures, spikes, degradations, fallbacks and a lost tunnel are warnings;
/// everything else is for information.
pub proof fn law_troubles_are_warnings(kind: EventKind)
    ensures
        severity_of(kind) == Severity::Warning <==> kind == EventKind::EdgeDegraded || kind
            == EventKind::EdgeFailed || kind == EventKind::VpnDisconnected || kind
            == EventKind::DnsFailure || kind == EventKind::HandshakeFailure || kind
            == EventKind::PacketLossSpike || kind == EventKind::JitterSpike || kind
            == EventKind::LatencySpike || kind == EventKind::CircuitOpen || kind
            == EventKind::TransportFallback,
        severity_of(kind) != Severity::Warning ==> severity_of(kind) == Severity::Info,
{
}

/// A new event is of its kind and time, and says nothing else yet.
pub proof fn law_new_event_is_bare(kind: EventKind, now: TimestampMs)
    ensures
        EventView::bare(kind, now).kind == kind,
        EventView::bare(kind, now).timestamp == now,
        EventView::bare(kind, now).reason.len() == 0,
        EventView::bare(kind, now).route is None,
        EventView::bare(kind, now).transport is None,
        EventView::bare(kind, now).metrics is None,
{
}

} // verus!
