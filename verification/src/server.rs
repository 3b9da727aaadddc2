//! The reference control server: which edges there are, and which requests
//! were answered before.
use vstd::prelude::*;

use crate::model::{EdgeInfo, EdgeInfoView, TransportKind};
use crate::reading::Reading;
use crate::search::{first_index, lemma_first_index_is};
use crate::table::{distinct, get, held, put};
use crate::text::{decimal, numeral, parse_number, number_in, same};
use crate::views::{view_of, views};

verus! {

/// How long a reference edge may be used, in milliseconds.
pub const EDGE_LIFETIME_MS: u64 = 86_400_000;

pub const DEFAULT_PORT: u16 = 8787;

/// What an edge says about itself.
#[derive(Debug)]
pub struct EdgeHealthStatus {
    pub id: String,
    pub status: String,
    pub region: String,
    pub version: String,
    pub load: Reading,
    pub timestamp: u64,
}

pub struct EdgeHealthStatusView {
    pub id: Seq<char>,
    pub status: Seq<char>,
    pub region: Seq<char>,
    pub version: Seq<char>,
    pub load: Reading,
    pub timestamp: u64,
}

impl View for EdgeHealthStatus {
    type V = EdgeHealthStatusView;

    open spec fn view(&self) -> EdgeHealthStatusView {
        EdgeHealthStatusView {
            id: self.id@,
            status: self.status@,
            region: self.region@,
            version: self.version@,
            load: self.load,
            timestamp: self.timestamp,
        }
    }
}

impl Clone for EdgeHealthStatus {
    fn clone(&self) -> (r: EdgeHealthStatus)
        ensures
            r@ == self@,
    {
        EdgeHealthStatus {
            id: self.id.clone(),
            status: self.status.clone(),
            region: self.region.clone(),
            version: self.version.clone(),
            load: self.load,
            timestamp: self.timestamp,
        }
    }
}

#[derive(Debug)]
pub struct ServerState {
    pub edges: Vec<EdgeInfo>,
    pub health: Vec<EdgeHealthStatus>,
    pub protocol_version: u32,
    ledger: Vec<(String, String)>,
}

/// The ledger holds the first outcome of each idempotency key.
#[verifier::ext_equal]
pub struct ServerStateView {
    pub edges: Seq<EdgeInfoView>,
    pub health: Seq<EdgeHealthStatusView>,
    pub protocol_version: u32,
    pub ledger: Map<Seq<char>, Seq<char>>,
}

pub open spec fn ledger_map(s: Seq<(String, String)>) -> Map<Seq<char>, Seq<char>> {
    Map::new(|k: Seq<char>| held(s, k) is Some, |k: Seq<char>| held(s, k)->Some_0@)
}

impl View for ServerState {
    type V = ServerStateView;

    closed spec fn view(&self) -> ServerStateView {
        ServerStateView {
            edges: views(self.edges@),
            health: views(self.health@),
            protocol_version: self.protocol_version,
            ledger: ledger_map(self.ledger@),
        }
    }
}

pub open spec fn served_transports() -> Seq<TransportKind> {
    seq![
        TransportKind::Quic,
        TransportKind::Udp,
        TransportKind::TcpTls,
        TransportKind::WebSocketTls,
    ]
}

/// What became of benchmark results that were handed in.
#[derive(Clone, Copy, Debug, PartialEq, Eq, Structural)]
pub enum BenchmarkOutcome {
    /// So many samples were taken.
    Accepted(usize),
    /// The key was used before; nothing was taken.
    Duplicate,
    /// They could not be read.
    Invalid,
}

/// What became of telemetry that was handed in.
#[derive(Debug, PartialEq, Eq)]
pub enum TelemetryOutcome {
    Accepted,
    /// The key was used before, with this outcome; nothing was taken.
    Duplicate(String),
}

/// The key in the header, if there is one that is not empty.
pub open spec fn header_key(header: Option<Seq<char>>) -> Option<Seq<char>> {
    match header {
        Some(k) => if k.len() == 0 {
            None
        } else {
            Some(k)
        },
        None => None,
    }
}

/// The key of a request, where requests without one share a key.
pub open spec fn ledger_key(header: Option<Seq<char>>, shared: Seq<char>) -> Seq<char> {
    match header_key(header) {
        Some(k) => k,
        None => shared,
    }
}

pub open spec fn header_text(header: Option<&str>) -> Option<Seq<char>> {
    match header {
        Some(k) => Some(k@),
        None => None,
    }
}

pub fn idempotency_key(header: Option<&str>) -> (r: Option<String>)
    ensures
        view_of(r) == header_key(header_text(header)),
{
    match header {
        Some(k) => {
            if k.is_empty() {
                None
            } else {
                Some(k.to_owned())
            }
        },
        None => None,
    }
}

impl ServerStateView {
    /// The state, and what is answered, once benchmark results came; `samples`
    /// is how many there are, or `None` where they cannot be read.
    pub open spec fn benchmarked(
        self,
        header: Option<Seq<char>>,
        samples: Option<usize>,
    ) -> (ServerStateView, BenchmarkOutcome) {
        let key = ledger_key(header, "benchmark-no-key"@);
        if self.ledger.contains_key(key) {
            (self, BenchmarkOutcome::Duplicate)
        } else {
            match samples {
                Some(n) => (
                    ServerStateView {
                        ledger: self.ledger.insert(key, "accepted:"@ + numeral(n as nat)),
                        ..self
                    },
                    BenchmarkOutcome::Accepted(n),
                ),
                None => (
                    ServerStateView { ledger: self.ledger.insert(key, "invalid"@), ..self },
                    BenchmarkOutcome::Invalid,
                ),
            }
        }
    }

    /// The state once telemetry of so many bytes came.
    pub open spec fn telemetry_taken(self, header: Option<Seq<char>>, bytes: usize) -> ServerStateView {
        let key = ledger_key(header, "telemetry-no-key"@);
        if self.ledger.contains_key(key) {
            self
        } else {
            ServerStateView {
                ledger: self.ledger.insert(key, "accepted:"@ + numeral(bytes as nat)),
                ..self
            }
        }
    }

    /// The outcome that telemetry with this header was first given, if any.
    pub open spec fn telemetry_before(self, header: Option<Seq<char>>) -> Option<Seq<char>> {
        let key = ledger_key(header, "telemetry-no-key"@);
        if self.ledger.contains_key(key) {
            Some(self.ledger[key])
        } else {
            None
        }
    }
}

pub open spec fn in_region(region: Seq<char>) -> spec_fn(EdgeHealthStatusView) -> bool {
    |h: EdgeHealthStatusView| h.region == region
}

fn accepted(n: usize) -> (r: String)
    ensures
        r@ == "accepted:"@ + numeral(n as nat),
{
    let mut r = "accepted:".to_owned();
    r.append(decimal(n as u64).as_str());
    r
}

impl Default for ServerState {
    fn default() -> (r: ServerState)
        ensures
            r.valid(),
            r@ == (ServerStateView {
                edges: seq![],
                health: seq![],
                protocol_version: 1,
                ledger: Map::empty(),
            }),
    {
        let r = ServerState {
            edges: Vec::new(),
            health: Vec::new(),
            protocol_version: 1,
            ledger: Vec::new(),
        };
        proof {
            crate::table::lemma_held(r.ledger@);
            assert(views(r.edges@) =~= seq![]);
            assert(views(r.health@) =~= seq![]);
            assert(ledger_map(r.ledger@) =~= Map::empty());
        }
        r
    }
}

impl ServerState {
    pub closed spec fn valid(&self) -> bool {
        distinct(self.ledger@)
    }

    pub fn new_with_edges(edges: Vec<EdgeInfo>) -> (r: ServerState)
        ensures
            r.valid(),
            r@ == (ServerStateView {
                edges: views(edges@),
                health: seq![],
                protocol_version: 1,
                ledger: Map::empty(),
            }),
    {
        let mut state = ServerState::default();
        state.edges = edges;
        state
    }

    pub fn edge_list(&self) -> (r: Vec<EdgeInfo>)
        ensures
            views(r@) == self@.edges,
    {
        let mut r: Vec<EdgeInfo> = Vec::new();
        let mut i: usize = 0;
        while i < self.edges.len()
            invariant
                i <= self.edges@.len(),
                views(r@) == views(self.edges@).take(i as int),
            decreases self.edges@.len() - i,
        {
            let ghost before = r@;
            r.push(self.edges[i].clone());
            assert(views(r@) =~= views(before).push(self.edges@[i as int]@));
            assert(views(r@) =~= views(self.edges@).take(i + 1));
            i += 1;
        }
        assert(views(r@) =~= views(self.edges@));
        r
    }

    pub fn primary_transports(&self) -> (r: Vec<TransportKind>)
        ensures
            r@ == served_transports(),
    {
        transports_served()
    }

    /// The first status from the region, if there is one.
    pub fn health_summary(&self, region: &str) -> (r: Option<EdgeHealthStatus>)
        ensures
            ({
                let at = first_index(self@.health, in_region(region@));
                view_of(r) == (if at < self@.health.len() {
                    Some(self@.health[at])
                } else {
                    None
                })
            }),
    {
        let mut i: usize = 0;
        while i < self.health.len() && !same(self.health[i].region.as_str(), region)
            invariant
                i <= self.health@.len(),
                forall|j: int|
                    0 <= j < i ==> !in_region(region@)(#[trigger] views(self.health@)[j]),
            decreases self.health@.len() - i,
        {
            assert(views(self.health@)[i as int].region != region@);
            i += 1;
        }
        proof {
            if i < self.health@.len() {
                assert(in_region(region@)(views(self.health@)[i as int]));
            }
            lemma_first_index_is(views(self.health@), in_region(region@), i as int);
        }
        if i < self.health.len() {
            Some(self.health[i].clone())
        } else {
            None
        }
    }

    /// Puts the outcome into the ledger.
    fn note(&mut self, key: &str, outcome: String)
        requires
            old(self).valid(),
        ensures
            final(self).valid(),
            final(self)@ == (ServerStateView {
                ledger: old(self)@.ledger.insert(key@, outcome@),
                ..old(self)@
            }),
    {
        put(&mut self.ledger, key, outcome);
        assert(ledger_map(self.ledger@) =~= ledger_map(old(self).ledger@).insert(key@, outcome@));
    }

    /// Takes benchmark results; `samples` is how many there are, or `None`
    /// where they cannot be read.
    pub fn benchmark(&mut self, header: Option<&str>, samples: Option<usize>) -> (r:
        BenchmarkOutcome)
        requires
            old(self).valid(),
        ensures
            final(self).valid(),
            (final(self)@, r) == old(self)@.benchmarked(header_text(header), samples),
    {
        let key = match idempotency_key(header) {
            Some(k) => k,
            None => "benchmark-no-key".to_owned(),
        };
        if get(&self.ledger, key.as_str()).is_some() {
            return BenchmarkOutcome::Duplicate;
        }
        match samples {
            Some(n) => {
                self.note(key.as_str(), accepted(n));
                BenchmarkOutcome::Accepted(n)
            },
            None => {
                self.note(key.as_str(), "invalid".to_owned());
                BenchmarkOutcome::Invalid
            },
        }
    }

    /// Takes telemetry of so many bytes.
    pub fn telemetry(&mut self, header: Option<&str>, bytes: usize) -> (r: TelemetryOutcome)
        requires
            old(self).valid(),
        ensures
            final(self).valid(),
            final(self)@ == old(self)@.telemetry_taken(header_text(header), bytes),
            (match r {
                TelemetryOutcome::Accepted => old(self)@.telemetry_before(header_text(header))
                    is None,
                TelemetryOutcome::Duplicate(first) => old(self)@.telemetry_before(
                    header_text(header),
                ) == Some(first@),
            }),
    {
        let key = match idempotency_key(header) {
            Some(k) => k,
            None => "telemetry-no-key".to_owned(),
        };
        if let Some(first) = get(&self.ledger, key.as_str()) {
            return TelemetryOutcome::Duplicate(first.clone());
        }
        self.note(key.as_str(), accepted(bytes));
        TelemetryOutcome::Accepted
    }
}

fn transports_served() -> (r: Vec<TransportKind>)
    ensures
        r@ == served_transports(),
{
    let mut r: Vec<TransportKind> = Vec::new();
    r.push(TransportKind::Quic);
    r.push(TransportKind::Udp);
    r.push(TransportKind::TcpTls);
    r.push(TransportKind::WebSocketTls);
    assert(r@ =~= served_transports());
    r
}

pub open spec fn reference_edge(
    id: Seq<char>,
    region: Seq<char>,
    address: Seq<char>,
    now: u64,
) -> EdgeInfoView {
    EdgeInfoView {
        id,
        region,
        address,
        supported_transports: served_transports(),
        priority: None,
        expires_at: (now + EDGE_LIFETIME_MS) as u64,
        signature_b64: None,
    }
}

fn edge(id: &str, region: &str, address: &str, now: u64) -> (r: EdgeInfo)
    requires
        now + EDGE_LIFETIME_MS <= u64::MAX,
    ensures
        r@ == reference_edge(id@, region@, address@, now),
{
    EdgeInfo {
        id: id.to_owned(),
        region: region.to_owned(),
        address: address.to_owned(),
        supported_transports: transports_served(),
        priority: None,
        expires_at: now + EDGE_LIFETIME_MS,
        signature_b64: None,
    }
}

/// The edges that the server starts with, good for a day.
pub fn reference_edges(now: u64) -> (r: Vec<EdgeInfo>)
    requires
        now + EDGE_LIFETIME_MS <= u64::MAX,
    ensures
        views(r@) == seq![
            reference_edge("edge-asia-1"@, "asia"@, "edge-asia-1.radin.example:443"@, now),
            reference_edge(
                "edge-mideast-1"@,
                "middle-east"@,
                "edge-mideast-1.radin.example:443"@,
                now,
            ),
            reference_edge("edge-eu-1"@, "europe"@, "edge-eu-1.radin.example:443"@, now),
            reference_edge("edge-na-1"@, "north-america"@, "edge-na-1.radin.example:443"@, now),
        ],
{
    let mut r: Vec<EdgeInfo> = Vec::new();
    r.push(edge("edge-asia-1", "asia", "edge-asia-1.radin.example:443", now));
    r.push(edge("edge-mideast-1", "middle-east", "edge-mideast-1.radin.example:443", now));
    r.push(edge("edge-eu-1", "europe", "edge-eu-1.radin.example:443", now));
    r.push(edge("edge-na-1", "north-america", "edge-na-1.radin.example:443", now));
    assert(views(r@) =~= seq![
        reference_edge("edge-asia-1"@, "asia"@, "edge-asia-1.radin.example:443"@, now),
        reference_edge("edge-mideast-1"@, "middle-east"@, "edge-mideast-1.radin.example:443"@, now),
        reference_edge("edge-eu-1"@, "europe"@, "edge-eu-1.radin.example:443"@, now),
        reference_edge("edge-na-1"@, "north-america"@, "edge-na-1.radin.example:443"@, now),
    ]);
    r
}

/// A repeated key is answered as a duplicate and applied no second time,
/// whether the first request succeeded or failed.
pub proof fn law_repeated_key_is_not_applied(
    state: ServerStateView,
    header: Option<Seq<char>>,
    first: Option<usize>,
    second: Option<usize>,
)
    ensures
        ({
            let once = state.benchmarked(header, first).0;
            once.benchmarked(header, second) == (once, BenchmarkOutcome::Duplicate)
        }),
{
}

/// The same of telemetry, which is told the first outcome.
pub proof fn law_repeated_telemetry_is_told_the_first_outcome(
    state: ServerStateView,
    header: Option<Seq<char>>,
    bytes: usize,
    later: usize,
)
    ensures
        ({
            let once = state.telemetry_taken(header, bytes);
            &&& once.telemetry_taken(header, later) == once
            &&& once.telemetry_before(header) == (match state.telemetry_before(header) {
                Some(outcome) => Some(outcome),
                None => Some("accepted:"@ + numeral(bytes as nat)),
            })
        }),
{
}

/// Keys do not get in each other's way.
pub proof fn law_keys_are_separate(
    state: ServerStateView,
    header: Option<Seq<char>>,
    samples: Option<usize>,
    other: Option<Seq<char>>,
    more: Option<usize>,
)
    requires
        ledger_key(header, "benchmark-no-key"@) != ledger_key(other, "benchmark-no-key"@),
    ensures
        state.benchmarked(header, samples).0.benchmarked(other, more).1 == state.benchmarked(
            other,
            more,
        ).1,
{
}

/// What the command line asks of the server.
#[derive(Debug)]
pub enum ServerCommand {
    Serve { bind: String, port: u16 },
    Help,
    /// An argument that the server does not know.
    Unknown(String),
    /// `--bind` or `--port` stands last.
    MissingValue(String),
    BadPort,
}

pub enum ServerCommandView {
    Serve { bind: Seq<char>, port: u16 },
    Help,
    Unknown(Seq<char>),
    MissingValue(Seq<char>),
    BadPort,
}

impl View for ServerCommand {
    type V = ServerCommandView;

    open spec fn view(&self) -> ServerCommandView {
        match *self {
            ServerCommand::Serve { bind, port } => ServerCommandView::Serve { bind: bind@, port },
            ServerCommand::Help => ServerCommandView::Help,
            ServerCommand::Unknown(s) => ServerCommandView::Unknown(s@),
            ServerCommand::MissingValue(s) => ServerCommandView::MissingValue(s@),
            ServerCommand::BadPort => ServerCommandView::BadPort,
        }
    }
}

/// The command that the arguments give, with these values so far. The first
/// argument that settles it does.
pub open spec fn server_command(args: Seq<Seq<char>>, bind: Seq<char>, port: u16) -> ServerCommandView
    decreases args.len(),
{
    if args.len() == 0 {
        ServerCommandView::Serve { bind, port }
    } else if args[0] == "--bind"@ {
        if args.len() == 1 {
            ServerCommandView::MissingValue("--bind"@)
        } else {
            server_command(args.skip(2), args[1], port)
        }
    } else if args[0] == "--port"@ {
        if args.len() == 1 {
            ServerCommandView::MissingValue("--port"@)
        } else {
            match number_in(args[1]) {
                Some(n) => if n <= u16::MAX {
                    server_command(args.skip(2), bind, n as u16)
                } else {
                    ServerCommandView::BadPort
                },
                None => ServerCommandView::BadPort,
            }
        }
    } else if args[0] == "--help"@ || args[0] == "-h"@ {
        ServerCommandView::Help
    } else {
        ServerCommandView::Unknown(args[0])
    }
}

/// Reads the command line, without the name of the program.
pub fn parse_command(args: &Vec<String>) -> (r: ServerCommand)
    ensures
        r@ == server_command(views(args@), "127.0.0.1"@, DEFAULT_PORT),
{
    let mut bind = "127.0.0.1".to_owned();
    let mut port: u16 = DEFAULT_PORT;
    let mut i: usize = 0;
    let ghost all = views(args@);
    assert(all.skip(0) =~= all);
    while i < args.len()
        invariant
            i <= args@.len(),
            all == views(args@),
            server_command(all.skip(i as int), bind@, port) == server_command(
                all,
                "127.0.0.1"@,
                DEFAULT_PORT,
            ),
        decreases args@.len() - i,
    {
        let ghost rest = all.skip(i as int);
        assert(rest[0] == args@[i as int]@);
        let arg = args[i].as_str();
        if same(arg, "--bind") {
            if i + 1 >= args.len() {
                return ServerCommand::MissingValue("--bind".to_owned());
            }
            assert(rest[1] == args@[i + 1]@);
            assert(rest.skip(2) =~= all.skip(i + 2));
            bind = args[i + 1].clone();
        } else if same(arg, "--port") {
            if i + 1 >= args.len() {
                return ServerCommand::MissingValue("--port".to_owned());
            }
            assert(rest[1] == args@[i + 1]@);
            assert(rest.skip(2) =~= all.skip(i + 2));
            match parse_number(args[i + 1].as_str(), 65_535) {
                Some(n) => {
                    port = n as u16;
                },
                None => {
                    return ServerCommand::BadPort;
                },
            }
        } else if same(arg, "--help") || same(arg, "-h") {
            return ServerCommand::Help;
        } else {
            return ServerCommand::Unknown(args[i].clone());
        }
        i += 2;
    }
    assert(all.skip(i as int) =~= seq![]);
    ServerCommand::Serve { bind, port }
}

/// A key that was not used before is taken: benchmark results that can be read
/// are accepted with their number and others are told to be invalid, and either
/// way the key is used from then on. The edges stay as they are.
pub proof fn law_new_key_is_taken(
    state: ServerStateView,
    key: Seq<char>,
    samples: Option<usize>,
    bytes: usize,
)
    requires
        key.len() > 0,
        !state.ledger.dom().contains(key),
    ensures
        ({
            let (after, outcome) = state.benchmarked(Some(key), samples);
            &&& samples matches Some(n) ==> outcome == BenchmarkOutcome::Accepted(n)
            &&& samples is None ==> outcome == BenchmarkOutcome::Invalid
            &&& after.ledger.dom() == state.ledger.dom().insert(key)
            &&& after.edges == state.edges && after.health == state.health
            &&& after.protocol_version == state.protocol_version
        }),
        state.telemetry_before(Some(key)) is None,
        state.telemetry_taken(Some(key), bytes).ledger.dom() == state.ledger.dom().insert(key),
        state.telemetry_taken(Some(key), bytes).edges == state.edges,
{
}

/// A key that was used before is a duplicate, whatever comes with it, and the
/// request changes nothing.
pub proof fn law_used_key_is_a_duplicate(
    state: ServerStateView,
    key: Seq<char>,
    samples: Option<usize>,
    bytes: usize,
)
    requires
        key.len() > 0,
        state.ledger.dom().contains(key),
    ensures
        state.benchmarked(Some(key), samples) == (state, BenchmarkOutcome::Duplicate),
        state.telemetry_before(Some(key)) == Some(state.ledger[key]),
        state.telemetry_taken(Some(key), bytes) == state,
{
}

/// An empty key is no key, and requests without one share a key of their own
/// kind: the second of them is a duplicate.
pub proof fn law_requests_without_a_key_share_one(
    state: ServerStateView,
    samples: Option<usize>,
    more: Option<usize>,
)
    ensures
        state.benchmarked(Some(seq![]), samples) == state.benchmarked(None, samples),
        state.benchmarked(None, samples).0.benchmarked(None, more).1
            == BenchmarkOutcome::Duplicate,
        header_key(None) is None,
        header_key(Some(seq![])) is None,
{
}

/// The status of a region is one that is from there, the first of them; a
/// region without any has none.
pub proof fn law_status_is_of_the_region(health: Seq<EdgeHealthStatusView>, region: Seq<char>)
    ensures
        ({
            let at = first_index(health, in_region(region));
            &&& at < health.len() ==> 0 <= at && health[at].region == region
            &&& forall|j: int|
                0 <= j < health.len() && (#[trigger] health[j]).region == region ==> at <= j
        }),
{
    crate::search::lemma_first_index(health, in_region(region));
    let at = first_index(health, in_region(region));
    assert forall|j: int| 0 <= j < health.len() && (#[trigger] health[j]).region == region implies at
        <= j by {
        if j < at {
            assert(!in_region(region)(health[j]));
        }
    }
}

/// An announced edge keeps what it was announced with, needs no signature, can
/// be reached by tunnels only, and is good for a day.
pub proof fn law_reference_edges_last_a_day(
    id: Seq<char>,
    region: Seq<char>,
    address: Seq<char>,
    now: u64,
)
    requires
        now + 86_400_000 <= u64::MAX,
    ensures
        ({
            let e = reference_edge(id, region, address, now);
            &&& e.id == id && e.region == region && e.address == address
            &&& e.expires_at == now + 86_400_000
            &&& e.signature_b64 is None
            &&& !e.supported_transports.contains(TransportKind::Direct)
            &&& e.supported_transports.no_duplicates()
            &&& e.supported_transports.contains(TransportKind::Quic)
            &&& e.supported_transports.contains(TransportKind::Udp)
            &&& e.supported_transports.contains(TransportKind::TcpTls)
            &&& e.supported_transports.contains(TransportKind::WebSocketTls)
        }),
{
    let t = served_transports();
    assert(t[0] == TransportKind::Quic && t[1] == TransportKind::Udp && t[2]
        == TransportKind::TcpTls && t[3] == TransportKind::WebSocketTls);
}

/// What is given on the command line is what is served: the address and the
/// port, in either order, and the last of each.
pub proof fn law_command_line_is_heeded(
    bind: Seq<char>,
    port: Seq<char>,
    n: u16,
    other: Seq<char>,
    default_bind: Seq<char>,
    default_port: u16,
)
    requires
        number_in(port) == Some(n as nat),
    ensures
        server_command(seq![], default_bind, default_port) == (ServerCommandView::Serve {
            bind: default_bind,
            port: default_port,
        }),
        server_command(seq!["--bind"@, bind, "--port"@, port], default_bind, default_port) == (
        ServerCommandView::Serve { bind, port: n }),
        server_command(seq!["--port"@, port, "--bind"@, bind], default_bind, default_port) == (
        ServerCommandView::Serve { bind, port: n }),
        server_command(seq!["--bind"@, other, "--bind"@, bind], default_bind, default_port) == (
        ServerCommandView::Serve { bind, port: default_port }),
        server_command(seq!["--bind"@, bind, "--help"@], default_bind, default_port)
            == ServerCommandView::Help,
        server_command(seq!["--port"@], default_bind, default_port)
            == ServerCommandView::MissingValue("--port"@),
{
    reveal_strlit("--bind");
    reveal_strlit("--port");
    reveal_strlit("--help");
    assert("--bind"@[2] == 'b' && "--port"@[2] == 'p' && "--help"@[2] == 'h');
    reveal_with_fuel(server_command, 4);
    assert(seq!["--bind"@, bind, "--port"@, port].skip(2) =~= seq!["--port"@, port]);
    assert(seq!["--port"@, port].skip(2) =~= seq![]);
    assert(seq!["--port"@, port, "--bind"@, bind].skip(2) =~= seq!["--bind"@, bind]);
    assert(seq!["--bind"@, bind].skip(2) =~= seq![]);
    assert(seq!["--bind"@, other, "--bind"@, bind].skip(2) =~= seq!["--bind"@, bind]);
    assert(seq!["--bind"@, bind, "--help"@].skip(2) =~= seq!["--help"@]);
}

} // verus!
