//! Domain model: transports, edges, route candidates, measurements.
//!
//! Every type that carries a measurement carries its `source` too, so that
//! synthetic data is never taken for telemetry.
use vstd::prelude::*;

use crate::reading::Reading;
use crate::views::view_of;
use crate::TimestampMs;

verus! {

/// Where a measurement comes from.
#[derive(Clone, Copy, Debug, PartialEq, Eq, Structural)]
pub enum MeasuredSource {
    /// Probes and observations on a device.
    Real,
    /// The chaos harness and synthetic drives; refused by production sinks.
    Synthetic,
}

/// Network types that the engine tells apart.
#[derive(Clone, Copy, Debug, PartialEq, Eq, Hash, Structural)]
pub enum NetworkType {
    Wifi,
    FiveG,
    FourG,
    ThreeG,
    Ethernet,
    /// Bluetooth PAN, hotspot, wired but unknown.
    Other,
    Unknown,
}

impl NetworkType {
    /// The keepalive interval to start benchmarking from, in milliseconds.
    pub open spec fn keepalive_base(self) -> u64 {
        match self {
            NetworkType::Wifi => 25_000,
            NetworkType::FiveG => 15_000,
            NetworkType::FourG => 15_000,
            NetworkType::ThreeG => 10_000,
            NetworkType::Ethernet => 30_000,
            NetworkType::Other => 20_000,
            NetworkType::Unknown => 20_000,
        }
    }

    pub fn default_keepalive_base_ms(self) -> (r: u64)
        ensures
            r == self.keepalive_base(),
    {
        match self {
            NetworkType::Wifi => 25_000,
            NetworkType::FiveG | NetworkType::FourG => 15_000,
            NetworkType::ThreeG => 10_000,
            NetworkType::Ethernet => 30_000,
            NetworkType::Other | NetworkType::Unknown => 20_000,
        }
    }

    /// The name by which a diagnostic report shows the network.
    pub open spec fn title(self) -> Seq<char> {
        match self {
            NetworkType::Wifi => "Wifi"@,
            NetworkType::FiveG => "FiveG"@,
            NetworkType::FourG => "FourG"@,
            NetworkType::ThreeG => "ThreeG"@,
            NetworkType::Ethernet => "Ethernet"@,
            NetworkType::Other => "Other"@,
            NetworkType::Unknown => "Unknown"@,
        }
    }

    pub fn title_text(self) -> (r: &'static str)
        ensures
            r@ == self.title(),
    {
        match self {
            NetworkType::Wifi => "Wifi",
            NetworkType::FiveG => "FiveG",
            NetworkType::FourG => "FourG",
            NetworkType::ThreeG => "ThreeG",
            NetworkType::Ethernet => "Ethernet",
            NetworkType::Other => "Other",
            NetworkType::Unknown => "Unknown",
        }
    }
}

/// The ways to carry traffic.
#[derive(Clone, Copy, Debug, PartialEq, Eq, Hash, PartialOrd, Ord, Structural)]
pub enum TransportKind {
    Quic,
    Udp,
    TcpTls,
    Http2,
    WebSocketTls,
    /// Best-effort routing without an optimizer edge: the fail-safe.
    Direct,
}

impl TransportKind {
    /// The order of fallback, unless measured scores suggest another.
    pub const FALLBACK_ORDER: [TransportKind; 6] = [
        TransportKind::Quic,
        TransportKind::Udp,
        TransportKind::TcpTls,
        TransportKind::Http2,
        TransportKind::WebSocketTls,
        TransportKind::Direct,
    ];

    /// Whether this kind ends on an optimizer edge.
    pub fn uses_edge(self) -> (r: bool)
        ensures
            r == (self != TransportKind::Direct),
    {
        !matches!(self, TransportKind::Direct)
    }

    /// Whether the transport is not reliable end to end.
    pub fn is_best_effort(self) -> (r: bool)
        ensures
            r == !crate::transport::capabilities_of(self).reliable,
    {
        matches!(self, TransportKind::Udp | TransportKind::Direct)
    }

    pub open spec fn name(self) -> Seq<char> {
        match self {
            TransportKind::Quic => "quic"@,
            TransportKind::Udp => "udp"@,
            TransportKind::TcpTls => "tcp_tls"@,
            TransportKind::Http2 => "http2"@,
            TransportKind::WebSocketTls => "websocket_tls"@,
            TransportKind::Direct => "direct"@,
        }
    }

    pub fn as_str(self) -> (r: &'static str)
        ensures
            r@ == self.name(),
    {
        match self {
            TransportKind::Quic => "quic",
            TransportKind::Udp => "udp",
            TransportKind::TcpTls => "tcp_tls",
            TransportKind::Http2 => "http2",
            TransportKind::WebSocketTls => "websocket_tls",
            TransportKind::Direct => "direct",
        }
    }
}

/// The fallback order as a sequence.
pub open spec fn fallback_order() -> Seq<TransportKind> {
    seq![
        TransportKind::Quic,
        TransportKind::Udp,
        TransportKind::TcpTls,
        TransportKind::Http2,
        TransportKind::WebSocketTls,
        TransportKind::Direct,
    ]
}

/// The fallback order as a list.
pub fn fallback_list() -> (r: Vec<TransportKind>)
    ensures
        r@ == fallback_order(),
{
    let r = vec![
        TransportKind::Quic,
        TransportKind::Udp,
        TransportKind::TcpTls,
        TransportKind::Http2,
        TransportKind::WebSocketTls,
        TransportKind::Direct,
    ];
    assert(r@ =~= fallback_order());
    r
}

/// Transport names are distinct, and none holds a dash or a colon, which is
/// what separates them in route ids and breaker keys.
pub proof fn lemma_transport_names(a: TransportKind, b: TransportKind)
    ensures
        a != b ==> a.name() != b.name(),
        a.name().len() > 0,
        forall|i: int| 0 <= i < a.name().len() ==> a.name()[i] != '-' && a.name()[i] != ':',
{
    reveal_strlit("quic");
    reveal_strlit("udp");
    reveal_strlit("tcp_tls");
    reveal_strlit("http2");
    reveal_strlit("websocket_tls");
    reveal_strlit("direct");
    assert("quic"@[0] == 'q' && "udp"@[0] == 'u' && "tcp_tls"@[0] == 't' && "http2"@[0] == 'h'
        && "websocket_tls"@[0] == 'w' && "direct"@[0] == 'd');
}

/// The measurement that every model type carries.
#[derive(Clone, Copy, Debug, PartialEq)]
pub struct Measured {
    pub latency_ms: Reading,
    pub jitter_ms: Reading,
    pub packet_loss_ratio: Reading,
    pub availability: Reading,
    pub source: MeasuredSource,
}

/// A route that can be chosen, with what is known of it.
#[derive(Debug)]
pub struct RouteCandidate {
    pub id: String,
    pub endpoint: String,
    pub transport: TransportKind,
    pub region: String,
    /// Best known latency in milliseconds.
    pub latency_ms: Reading,
    /// Deviation of the latency in milliseconds.
    pub jitter_ms: Reading,
    /// Ratio in [0, 1]: 0.1 is ten percent lost.
    pub packet_loss_ratio: Reading,
    /// Stability over the observation window, in [0, 1].
    pub stability: Reading,
    pub handshake_latency_ms: Reading,
    /// Reconnects per observed probe.
    pub reconnect_rate: Reading,
    /// Filled in by `scoring::score_all`.
    pub score: Option<Reading>,
    pub source: MeasuredSource,
}

pub struct RouteCandidateView {
    pub id: Seq<char>,
    pub endpoint: Seq<char>,
    pub transport: TransportKind,
    pub region: Seq<char>,
    pub latency_ms: Reading,
    pub jitter_ms: Reading,
    pub packet_loss_ratio: Reading,
    pub stability: Reading,
    pub handshake_latency_ms: Reading,
    pub reconnect_rate: Reading,
    pub score: Option<Reading>,
    pub source: MeasuredSource,
}

impl View for RouteCandidate {
    type V = RouteCandidateView;

    open spec fn view(&self) -> RouteCandidateView {
        RouteCandidateView {
            id: self.id@,
            endpoint: self.endpoint@,
            transport: self.transport,
            region: self.region@,
            latency_ms: self.latency_ms,
            jitter_ms: self.jitter_ms,
            packet_loss_ratio: self.packet_loss_ratio,
            stability: self.stability,
            handshake_latency_ms: self.handshake_latency_ms,
            reconnect_rate: self.reconnect_rate,
            score: self.score,
            source: self.source,
        }
    }
}

impl RouteCandidateView {
    pub open spec fn metrics(self) -> MetricsSnapshot {
        MetricsSnapshot {
            latency_ms: self.latency_ms,
            jitter_ms: self.jitter_ms,
            packet_loss_ratio: self.packet_loss_ratio,
            stability: self.stability,
            handshake_latency_ms: self.handshake_latency_ms,
            reconnect_rate: self.reconnect_rate,
        }
    }
}

impl Clone for RouteCandidate {
    fn clone(&self) -> (r: Self)
        ensures
            r == *self,
    {
        RouteCandidate {
            id: self.id.clone(),
            endpoint: self.endpoint.clone(),
            transport: self.transport,
            region: self.region.clone(),
            latency_ms: self.latency_ms,
            jitter_ms: self.jitter_ms,
            packet_loss_ratio: self.packet_loss_ratio,
            stability: self.stability,
            handshake_latency_ms: self.handshake_latency_ms,
            reconnect_rate: self.reconnect_rate,
            score: self.score,
            source: self.source,
        }
    }
}

impl RouteCandidate {
    pub fn metrics(&self) -> (r: MetricsSnapshot)
        ensures
            r == self@.metrics(),
    {
        MetricsSnapshot {
            latency_ms: self.latency_ms,
            jitter_ms: self.jitter_ms,
            packet_loss_ratio: self.packet_loss_ratio,
            stability: self.stability,
            handshake_latency_ms: self.handshake_latency_ms,
            reconnect_rate: self.reconnect_rate,
        }
    }
}

/// The metrics that decisions rest on.
#[derive(Clone, Copy, Debug, PartialEq)]
pub struct MetricsSnapshot {
    pub latency_ms: Reading,
    pub jitter_ms: Reading,
    pub packet_loss_ratio: Reading,
    pub stability: Reading,
    pub handshake_latency_ms: Reading,
    pub reconnect_rate: Reading,
}

/// An edge as the server announces it.
#[derive(Debug)]
pub struct EdgeInfo {
    pub id: String,
    pub region: String,
    pub address: String,
    pub supported_transports: Vec<TransportKind>,
    /// Lower is preferred.
    pub priority: Option<i32>,
    /// Epoch milliseconds from which the entry must be discarded.
    pub expires_at: TimestampMs,
    /// Signature over the canonical JSON of the entry.
    pub signature_b64: Option<String>,
}

pub struct EdgeInfoView {
    pub id: Seq<char>,
    pub region: Seq<char>,
    pub address: Seq<char>,
    pub supported_transports: Seq<TransportKind>,
    pub priority: Option<i32>,
    pub expires_at: TimestampMs,
    pub signature_b64: Option<Seq<char>>,
}

impl View for EdgeInfo {
    type V = EdgeInfoView;

    open spec fn view(&self) -> EdgeInfoView {
        EdgeInfoView {
            id: self.id@,
            region: self.region@,
            address: self.address@,
            supported_transports: self.supported_transports@,
            priority: self.priority,
            expires_at: self.expires_at,
            signature_b64: view_of(self.signature_b64),
        }
    }
}

impl Clone for EdgeInfo {
    fn clone(&self) -> (r: Self)
        ensures
            r@ == self@,
    {
        let supported_transports = self.supported_transports.clone();
        assert(supported_transports@ =~= self.supported_transports@);
        EdgeInfo {
            id: self.id.clone(),
            region: self.region.clone(),
            address: self.address.clone(),
            supported_transports,
            priority: self.priority,
            expires_at: self.expires_at,
            signature_b64: match &self.signature_b64 {
                Some(s) => Some(s.clone()),
                None => None,
            },
        }
    }
}

/// What an edge is reported as, in one measurement.
#[derive(Debug)]
pub struct EdgeHealth {
    pub edge_id: String,
    pub latency_ms: Reading,
    pub jitter_ms: Reading,
    pub packet_loss_ratio: Reading,
    pub availability: Reading,
    pub handshake_latency_ms: Reading,
    pub reconnect_rate: Reading,
    /// Stability in [0, 1].
    pub historical_stability: Reading,
    /// Edge health in [0, 100], where 100 is best.
    pub score: Reading,
    pub updated_at: TimestampMs,
    pub source: MeasuredSource,
}

pub struct EdgeHealthView {
    pub edge_id: Seq<char>,
    pub latency_ms: Reading,
    pub jitter_ms: Reading,
    pub packet_loss_ratio: Reading,
    pub availability: Reading,
    pub handshake_latency_ms: Reading,
    pub reconnect_rate: Reading,
    pub historical_stability: Reading,
    pub score: Reading,
    pub updated_at: TimestampMs,
    pub source: MeasuredSource,
}

impl View for EdgeHealth {
    type V = EdgeHealthView;

    open spec fn view(&self) -> EdgeHealthView {
        EdgeHealthView {
            edge_id: self.edge_id@,
            latency_ms: self.latency_ms,
            jitter_ms: self.jitter_ms,
            packet_loss_ratio: self.packet_loss_ratio,
            availability: self.availability,
            handshake_latency_ms: self.handshake_latency_ms,
            reconnect_rate: self.reconnect_rate,
            historical_stability: self.historical_stability,
            score: self.score,
            updated_at: self.updated_at,
            source: self.source,
        }
    }
}

/// How much battery is left.
#[derive(Clone, Copy, Debug, PartialEq, Eq, Structural)]
pub enum BatteryState {
    Charging,
    High,
    Medium,
    Low,
    Critical,
}

#[derive(Clone, Copy, Debug, PartialEq, Eq, Structural)]
pub enum VpnState {
    Connected,
    Connecting,
    Disconnected,
    Error,
}

/// What happens to traffic when no optimizer edge can be reached.
#[derive(Clone, Copy, Debug, PartialEq, Eq, Structural)]
pub enum DataPlanePolicy {
    /// Allow a direct connection when every edge fails.
    AllowDirectFallback,
    /// Block the tunnel rather than let traffic go off the edge.
    StrictVpnOnly,
}

/// The metrics of a route are those that it carries, each under its own name.
pub proof fn law_metrics_are_the_routes(c: RouteCandidateView)
    ensures
        c.metrics().latency_ms == c.latency_ms,
        c.metrics().jitter_ms == c.jitter_ms,
        c.metrics().packet_loss_ratio == c.packet_loss_ratio,
        c.metrics().stability == c.stability,
        c.metrics().handshake_latency_ms == c.handshake_latency_ms,
        c.metrics().reconnect_rate == c.reconnect_rate,
{
}

/// The fallback order holds every transport once, and ends with the direct
/// connection.
pub proof fn law_fallback_order_is_complete(t: TransportKind)
    ensures
        fallback_order().contains(t),
        fallback_order().no_duplicates(),
        fallback_order().last() == TransportKind::Direct,
        fallback_order().len() == 6,
{
    let order = fallback_order();
    assert(order[0] == TransportKind::Quic && order[1] == TransportKind::Udp && order[2]
        == TransportKind::TcpTls && order[3] == TransportKind::Http2 && order[4]
        == TransportKind::WebSocketTls && order[5] == TransportKind::Direct);
}

} // verus!
