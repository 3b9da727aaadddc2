//! Recent telemetry, and the diagnostic report that can be exported from it.
//!
//! The buffer holds metrics only: no payloads, no credentials, no user data.
use std::collections::VecDeque;
use vstd::prelude::*;

use crate::double::{product, times};
use crate::events::{Event, EventKind, EventView};
use crate::metrics::{ensure_real, rolled, synthetic_refused};
use crate::model::{MeasuredSource, NetworkType, RouteCandidate, TransportKind};
use crate::reading::Reading;
use crate::scoring::HUNDRED;
use crate::text::{decimal, numeral};
use crate::views::{group_views, view_of, views};

verus! {

broadcast use group_views;

#[derive(Debug)]
pub struct TelemetrySample {
    pub at: u64,
    pub network: NetworkType,
    pub route: Option<String>,
    pub transport: Option<TransportKind>,
    pub latency_ms: Reading,
    pub jitter_ms: Reading,
    pub packet_loss_ratio: Reading,
    pub source: MeasuredSource,
}

#[verifier::ext_equal]
pub struct TelemetrySampleView {
    pub at: u64,
    pub network: NetworkType,
    pub route: Option<Seq<char>>,
    pub transport: Option<TransportKind>,
    pub latency_ms: Reading,
    pub jitter_ms: Reading,
    pub packet_loss_ratio: Reading,
    pub source: MeasuredSource,
}

impl View for TelemetrySample {
    type V = TelemetrySampleView;

    open spec fn view(&self) -> TelemetrySampleView {
        TelemetrySampleView {
            at: self.at,
            network: self.network,
            route: view_of(self.route),
            transport: self.transport,
            latency_ms: self.latency_ms,
            jitter_ms: self.jitter_ms,
            packet_loss_ratio: self.packet_loss_ratio,
            source: self.source,
        }
    }
}

#[derive(Debug)]
pub struct TelemetryBuffer {
    pub capacity: usize,
    pub samples: VecDeque<TelemetrySample>,
    pub events: VecDeque<Event>,
}

#[verifier::ext_equal]
pub struct TelemetryView {
    pub capacity: nat,
    pub samples: Seq<TelemetrySampleView>,
    pub events: Seq<EventView>,
}

impl View for TelemetryBuffer {
    type V = TelemetryView;

    open spec fn view(&self) -> TelemetryView {
        TelemetryView {
            capacity: self.capacity as nat,
            samples: views(self.samples@),
            events: views(self.events@),
        }
    }
}

impl TelemetryView {
    pub open spec fn fresh(capacity: nat) -> TelemetryView {
        TelemetryView {
            capacity: if capacity == 0 {
                1
            } else {
                capacity
            },
            samples: seq![],
            events: seq![],
        }
    }

    pub open spec fn with_sample(self, sample: TelemetrySampleView) -> TelemetryView {
        TelemetryView { samples: rolled(self.samples, self.capacity, sample), ..self }
    }

    pub open spec fn with_event(self, event: EventView) -> TelemetryView {
        TelemetryView { events: rolled(self.events, self.capacity, event), ..self }
    }

    /// Whether all samples are real.
    pub open spec fn pristine(self) -> bool {
        forall|i: int|
            0 <= i < self.samples.len() ==> (#[trigger] self.samples[i]).source
                == MeasuredSource::Real
    }

    /// Whether neither samples nor events exceed the capacity.
    pub open spec fn bounded(self) -> bool {
        1 <= self.capacity && self.samples.len() <= self.capacity && self.events.len()
            <= self.capacity
    }
}

impl Default for TelemetryBuffer {
    fn default() -> (r: Self)
        ensures
            r@ == TelemetryView::fresh(600),
    {
        Self::new(600)
    }
}

impl TelemetryBuffer {
    pub fn new(capacity: usize) -> (r: Self)
        ensures
            r@ == TelemetryView::fresh(capacity as nat),
    {
        TelemetryBuffer {
            capacity: if capacity == 0 {
                1
            } else {
                capacity
            },
            samples: VecDeque::new(),
            events: VecDeque::new(),
        }
    }

    fn store(&mut self, sample: TelemetrySample)
        ensures
            final(self)@ == old(self)@.with_sample(sample@),
    {
        if self.samples.len() >= self.capacity && self.samples.len() > 0 {
            let _ = self.samples.pop_front();
            assert(views(self.samples@) =~= views(old(self).samples@).drop_first());
        }
        self.samples.push_back(sample);
        assert(self@.samples =~= old(self)@.with_sample(sample@).samples);
    }

    /// Takes in a real sample; a synthetic one is refused.
    pub fn push(&mut self, sample: TelemetrySample) -> (r: crate::Result<()>)
        ensures
            (match r {
                Ok(_) => sample.source == MeasuredSource::Real && final(self)@
                    == old(self)@.with_sample(sample@),
                Err(e) => sample.source == MeasuredSource::Synthetic && e@ == synthetic_refused()
                    && *final(self) == *old(self),
            }),
    {
        match ensure_real(sample.source) {
            Ok(_) => {},
            Err(e) => {
                return Err(e);
            },
        }
        self.store(sample);
        Ok(())
    }

    /// Takes in a synthetic sample, for tests; export checks again.
    pub fn push_synthetic(&mut self, sample: TelemetrySample)
        requires
            sample.source == MeasuredSource::Synthetic,
        ensures
            final(self)@ == old(self)@.with_sample(sample@),
    {
        self.store(sample);
    }

    pub fn push_event(&mut self, event: Event)
        ensures
            final(self)@ == old(self)@.with_event(event@),
    {
        if self.events.len() >= self.capacity && self.events.len() > 0 {
            let _ = self.events.pop_front();
            assert(views(self.events@) =~= views(old(self).events@).drop_first());
        }
        self.events.push_back(event);
        assert(self@.events =~= old(self)@.with_event(event@).events);
    }

    pub fn len(&self) -> (r: usize)
        ensures
            r == self@.samples.len(),
    {
        self.samples.len()
    }

    pub fn is_empty(&self) -> (r: bool)
        ensures
            r == (self@.samples.len() == 0),
    {
        self.samples.len() == 0
    }

    /// Whether the buffer is free of synthetic samples.
    pub fn is_pristine(&self) -> (r: bool)
        ensures
            r == self@.pristine(),
    {
        let mut i: usize = 0;
        while i < self.samples.len()
            invariant
                i <= self.samples@.len(),
                forall|j: int|
                    0 <= j < i ==> (#[trigger] self@.samples[j]).source == MeasuredSource::Real,
            decreases self.samples@.len() - i,
        {
            assert(self@.samples[i as int].source == self.samples@[i as int].source);
            if self.samples[i].source != MeasuredSource::Real {
                return false;
            }
            i = i + 1;
        }
        true
    }
}

/// What can be exported for diagnosis. Nothing sensitive is in it.
#[derive(Debug)]
pub struct DiagnosticReport {
    pub generated_at: u64,
    pub network: Option<NetworkType>,
    pub transport: Option<TransportKind>,
    pub selected_edge: Option<String>,
    pub rtt_ms: Option<Reading>,
    pub jitter_ms: Option<Reading>,
    pub packet_loss_pct: Option<Reading>,
    pub reconnects: u64,
    pub route_changes: u64,
    pub transport_fallbacks: u64,
    pub circuit_trips: u64,
    pub handshake_failures: u64,
    pub dns_failures: u64,
    pub source: MeasuredSource,
}

#[verifier::ext_equal]
pub struct DiagnosticReportView {
    pub generated_at: u64,
    pub network: Option<NetworkType>,
    pub transport: Option<TransportKind>,
    pub selected_edge: Option<Seq<char>>,
    pub rtt_ms: Option<Reading>,
    pub jitter_ms: Option<Reading>,
    pub packet_loss_pct: Option<Reading>,
    pub reconnects: u64,
    pub route_changes: u64,
    pub transport_fallbacks: u64,
    pub circuit_trips: u64,
    pub handshake_failures: u64,
    pub dns_failures: u64,
    pub source: MeasuredSource,
}

impl View for DiagnosticReport {
    type V = DiagnosticReportView;

    open spec fn view(&self) -> DiagnosticReportView {
        DiagnosticReportView {
            generated_at: self.generated_at,
            network: self.network,
            transport: self.transport,
            selected_edge: view_of(self.selected_edge),
            rtt_ms: self.rtt_ms,
            jitter_ms: self.jitter_ms,
            packet_loss_pct: self.packet_loss_pct,
            reconnects: self.reconnects,
            route_changes: self.route_changes,
            transport_fallbacks: self.transport_fallbacks,
            circuit_trips: self.circuit_trips,
            handshake_failures: self.handshake_failures,
            dns_failures: self.dns_failures,
            source: self.source,
        }
    }
}

/// The counts that a report shows.
#[derive(Clone, Copy, Debug, PartialEq, Eq, Structural)]
pub struct ReportCounts {
    pub reconnects: u64,
    pub route_changes: u64,
    pub transport_fallbacks: u64,
    pub circuit_trips: u64,
}

/// How many of the events are of the kind.
pub open spec fn count_of(events: Seq<EventView>, kind: EventKind) -> nat
    decreases events.len(),
{
    if events.len() == 0 {
        0
    } else if events.last().kind == kind {
        count_of(events.drop_last(), kind) + 1
    } else {
        count_of(events.drop_last(), kind)
    }
}

/// `a`, or `b` where there is no `a`.
pub open spec fn either<T>(a: Option<T>, b: Option<T>) -> Option<T> {
    match a {
        Some(x) => Some(x),
        None => b,
    }
}

/// The report for the latest sample and the current route.
pub open spec fn report_of(
    source: MeasuredSource,
    generated_at: u64,
    latest: Option<TelemetrySampleView>,
    candidate: Option<crate::model::RouteCandidateView>,
    event_log: Seq<EventView>,
    counts: ReportCounts,
) -> DiagnosticReportView {
    DiagnosticReportView {
        generated_at,
        network: match latest {
            Some(l) => Some(l.network),
            None => None,
        },
        transport: either(
            match latest {
                Some(l) => l.transport,
                None => None,
            },
            match candidate {
                Some(c) => Some(c.transport),
                None => None,
            },
        ),
        selected_edge: either(
            match candidate {
                Some(c) => Some(c.id),
                None => None,
            },
            match latest {
                Some(l) => l.route,
                None => None,
            },
        ),
        rtt_ms: either(
            match latest {
                Some(l) => Some(l.latency_ms),
                None => None,
            },
            match candidate {
                Some(c) => Some(c.latency_ms),
                None => None,
            },
        ),
        jitter_ms: match latest {
            Some(l) => Some(l.jitter_ms),
            None => None,
        },
        packet_loss_pct: match latest {
            Some(l) => Some(product(l.packet_loss_ratio, Reading { bits: HUNDRED })),
            None => None,
        },
        reconnects: counts.reconnects,
        route_changes: counts.route_changes,
        transport_fallbacks: counts.transport_fallbacks,
        circuit_trips: counts.circuit_trips,
        handshake_failures: count_of(event_log, EventKind::HandshakeFailure) as u64,
        dns_failures: count_of(event_log, EventKind::DnsFailure) as u64,
        source,
    }
}

#[derive(Clone, Copy, Debug)]
pub struct DiagnosticBuilder {
    pub source: MeasuredSource,
}

/// Whether a report can be made of these: all that is measured is real.
pub open spec fn all_real(
    source: MeasuredSource,
    latest: Option<TelemetrySampleView>,
    candidate: Option<crate::model::RouteCandidateView>,
) -> bool {
    &&& source == MeasuredSource::Real
    &&& latest is Some ==> latest->Some_0.source == MeasuredSource::Real
    &&& candidate is Some ==> candidate->Some_0.source == MeasuredSource::Real
}

/// A borrowed optional sample, as a value.
pub open spec fn sample_of(latest: Option<&TelemetrySample>) -> Option<TelemetrySampleView> {
    match latest {
        Some(l) => Some(l@),
        None => None,
    }
}

/// A borrowed optional route, as a value.
pub open spec fn route_of(candidate: Option<&RouteCandidate>) -> Option<
    crate::model::RouteCandidateView,
> {
    match candidate {
        Some(c) => Some(c@),
        None => None,
    }
}

fn count_events(event_log: &[Event], kind: EventKind) -> (r: u64)
    ensures
        r == count_of(views(event_log@), kind),
{
    let mut n: u64 = 0;
    let mut i: usize = 0;
    let ghost all = views(event_log@);
    assert(all.take(0) =~= seq![]);
    while i < event_log.len()
        invariant
            i <= event_log@.len(),
            all == views(event_log@),
            n == count_of(all.take(i as int), kind),
            n <= i,
        decreases event_log@.len() - i,
    {
        assert(all.take(i + 1).drop_last() =~= all.take(i as int));
        assert(all[i as int].kind == event_log@[i as int].kind);
        if event_log[i].kind == kind {
            n = n + 1;
        }
        i = i + 1;
    }
    assert(all.take(i as int) =~= all);
    n
}

impl DiagnosticBuilder {
    pub fn new(source: MeasuredSource) -> (r: Self)
        ensures
            r.source == source,
    {
        DiagnosticBuilder { source }
    }

    /// Builds the report from the latest sample, the current route, the log
    /// and the counts. Synthetic data makes no report, whichever part of it
    /// is synthetic.
    pub fn build(
        &self,
        generated_at: u64,
        latest: Option<&TelemetrySample>,
        candidate: Option<&RouteCandidate>,
        event_log: &[Event],
        reconnects: u64,
        route_changes: u64,
        transport_fallbacks: u64,
        circuit_trips: u64,
    ) -> (r: crate::Result<DiagnosticReport>)
        ensures
            (match r {
                Ok(report) => all_real(self.source, sample_of(latest), route_of(candidate))
                    && report@ == report_of(
                    self.source,
                    generated_at,
                    sample_of(latest),
                    route_of(candidate),
                    views(event_log@),
                    ReportCounts { reconnects, route_changes, transport_fallbacks, circuit_trips },
                ),
                Err(e) => !all_real(self.source, sample_of(latest), route_of(candidate)) && e@
                    == synthetic_refused(),
            }),
            r matches Ok(report) ==> {
                &&& latest matches Some(l) ==> {
                    &&& report.network == Some(l.network)
                    &&& report.rtt_ms == Some(l.latency_ms)
                    &&& report.jitter_ms == Some(l.jitter_ms)
                    &&& report.packet_loss_pct == Some(
                        product(l.packet_loss_ratio, Reading { bits: HUNDRED }),
                    )
                }
                &&& latest is None ==> report.jitter_ms is None && report.packet_loss_pct is None
                &&& candidate matches Some(c) ==> report@.selected_edge == Some(c.id@)
                &&& report.reconnects == reconnects
                &&& report.route_changes == route_changes
                &&& report.transport_fallbacks == transport_fallbacks
                &&& report.circuit_trips == circuit_trips
            },
    {
        match ensure_real(self.source) {
            Ok(_) => {},
            Err(e) => {
                return Err(e);
            },
        }
        if let Some(l) = latest {
            match ensure_real(l.source) {
                Ok(_) => {},
                Err(e) => {
                    return Err(e);
                },
            }
        }
        if let Some(c) = candidate {
            match ensure_real(c.source) {
                Ok(_) => {},
                Err(e) => {
                    return Err(e);
                },
            }
        }
        let handshake_failures: u64 = count_events(event_log, EventKind::HandshakeFailure);
        let dns_failures: u64 = count_events(event_log, EventKind::DnsFailure);
        let latest_transport = match latest {
            Some(l) => l.transport,
            None => None,
        };
        let transport = match latest_transport {
            Some(t) => Some(t),
            None => match candidate {
                Some(c) => Some(c.transport),
                None => None,
            },
        };
        let selected_edge = match candidate {
            Some(c) => Some(c.id.clone()),
            None => match latest {
                Some(l) => match &l.route {
                    Some(route) => Some(route.clone()),
                    None => None,
                },
                None => None,
            },
        };
        let rtt_ms = match latest {
            Some(l) => Some(l.latency_ms),
            None => match candidate {
                Some(c) => Some(c.latency_ms),
                None => None,
            },
        };
        let network = match latest {
            Some(l) => Some(l.network),
            None => None,
        };
        let jitter_ms = match latest {
            Some(l) => Some(l.jitter_ms),
            None => None,
        };
        let packet_loss_pct = match latest {
            Some(l) => Some(times(l.packet_loss_ratio, Reading { bits: HUNDRED })),
            None => None,
        };
        Ok(
            DiagnosticReport {
                generated_at,
                network,
                transport,
                selected_edge,
                rtt_ms,
                jitter_ms,
                packet_loss_pct,
                reconnects,
                route_changes,
                transport_fallbacks,
                circuit_trips,
                handshake_failures,
                dns_failures,
                source: self.source,
            },
        )
    }
}

/// The measured quantities of a report as text, with the digits to be shown.
#[derive(Debug)]
pub struct ReportTexts {
    /// The round trip time with one digit behind the point.
    pub rtt_ms: String,
    /// The jitter with one digit behind the point.
    pub jitter_ms: String,
    /// The loss in percent with two digits behind the point.
    pub packet_loss_pct: String,
}

/// A line of the report, where there is something to show.
pub open spec fn line(shown: bool, label: Seq<char>, value: Seq<char>, unit: Seq<char>) -> Seq<
    char,
> {
    if shown {
        label + value + unit
    } else {
        seq![]
    }
}

impl DiagnosticReportView {
    /// The lines above the counts.
    pub open spec fn measured_lines(
        self,
        rtt: Seq<char>,
        jitter: Seq<char>,
        loss: Seq<char>,
    ) -> Seq<char> {
        "RADIN Network Diagnostic Report\n"@ + "===============================\n"@ + line(
            self.network is Some,
            "Network:                "@,
            self.network->Some_0.title(),
            "\n"@,
        ) + line(
            self.transport is Some,
            "Transport:              "@,
            self.transport->Some_0.name(),
            "\n"@,
        ) + line(
            self.selected_edge is Some,
            "Selected Edge:          "@,
            self.selected_edge->Some_0,
            "\n"@,
        ) + line(self.rtt_ms is Some, "RTT:                    "@, rtt, " ms\n"@) + line(
            self.jitter_ms is Some,
            "Jitter:                 "@,
            jitter,
            " ms\n"@,
        ) + line(self.packet_loss_pct is Some, "Packet Loss:            "@, loss, "%\n"@)
    }

    /// The lines of the counts, and the last line.
    pub open spec fn count_lines(self) -> Seq<char> {
        line(true, "Reconnects:             "@, numeral(self.reconnects as nat), "\n"@) + line(
            true,
            "Route Changes:          "@,
            numeral(self.route_changes as nat),
            "\n"@,
        ) + line(
            true,
            "Transport Fallbacks:    "@,
            numeral(self.transport_fallbacks as nat),
            "\n"@,
        ) + line(true, "Circuit Trips:          "@, numeral(self.circuit_trips as nat), "\n"@)
            + line(
            true,
            "Handshake Failures:     "@,
            numeral(self.handshake_failures as nat),
            "\n"@,
        ) + line(true, "DNS Failures:           "@, numeral(self.dns_failures as nat), "\n"@)
            + "(No packet payloads, credentials, or user data included.)\n"@
    }
}

fn push_line(o: &mut String, label: &str, value: &str, unit: &str)
    ensures
        final(o)@ == old(o)@ + line(true, label@, value@, unit@),
{
    o.append(label);
    o.append(value);
    o.append(unit);
    assert(o@ =~= old(o)@ + (label@ + value@ + unit@));
}

/// Whether `show` may have written the quantity so, where there is one.
pub open spec fn shown_as<D: Fn(Reading, usize) -> String>(
    show: D,
    quantity: Option<Reading>,
    digits: usize,
    text: Seq<char>,
) -> bool {
    quantity is Some ==> exists|s: String|
        s@ == text && #[trigger] call_ensures(show, (quantity->Some_0, digits), s)
}

/// The quantity as `show` writes it with so many digits, where there is one.
fn written<D: Fn(Reading, usize) -> String>(show: &D, quantity: Option<Reading>, digits: usize) -> (r:
    String)
    requires
        forall|x: Reading, n: usize| #[trigger] call_requires(*show, (x, n)),
    ensures
        shown_as(*show, quantity, digits, r@),
{
    match quantity {
        Some(x) => show(x, digits),
        None => String::new(),
    }
}

impl DiagnosticReport {
    /// The report as plain text. `show` writes a quantity in decimal with so
    /// many digits behind the point.
    pub fn render_plaintext<D: Fn(Reading, usize) -> String>(&self, show: D) -> (r: String)
        requires
            forall|x: Reading, n: usize| #[trigger] call_requires(show, (x, n)),
        ensures
            exists|rtt: Seq<char>, jitter: Seq<char>, loss: Seq<char>|
                {
                    &&& shown_as(show, self@.rtt_ms, 1, rtt)
                    &&& shown_as(show, self@.jitter_ms, 1, jitter)
                    &&& shown_as(show, self@.packet_loss_pct, 2, loss)
                    &&& r@ == #[trigger] self@.measured_lines(rtt, jitter, loss)
                        + self@.count_lines()
                },
    {
        let texts = ReportTexts {
            rtt_ms: written(&show, self.rtt_ms, 1),
            jitter_ms: written(&show, self.jitter_ms, 1),
            packet_loss_pct: written(&show, self.packet_loss_pct, 2),
        };
        self.render_texts(&texts)
    }

    /// The report as plain text, with the measured quantities as given.
    pub fn render_texts(&self, texts: &ReportTexts) -> (r: String)
        ensures
            r@ == self@.measured_lines(
                texts.rtt_ms@,
                texts.jitter_ms@,
                texts.packet_loss_pct@,
            ) + self@.count_lines(),
    {
        let mut o = self.render_measured(texts);
        let ghost head = o@;
        push_line(&mut o, "Reconnects:             ", &decimal(self.reconnects), "\n");
        push_line(&mut o, "Route Changes:          ", &decimal(self.route_changes), "\n");
        push_line(&mut o, "Transport Fallbacks:    ", &decimal(self.transport_fallbacks), "\n");
        push_line(&mut o, "Circuit Trips:          ", &decimal(self.circuit_trips), "\n");
        push_line(&mut o, "Handshake Failures:     ", &decimal(self.handshake_failures), "\n");
        push_line(&mut o, "DNS Failures:           ", &decimal(self.dns_failures), "\n");
        o.append("(No packet payloads, credentials, or user data included.)\n");
        assert(o@ =~= head + self@.count_lines());
        o
    }

    fn render_measured(&self, texts: &ReportTexts) -> (r: String)
        ensures
            r@ == self@.measured_lines(
                texts.rtt_ms@,
                texts.jitter_ms@,
                texts.packet_loss_pct@,
            ),
    {
        let mut o = String::new();
        o.append("RADIN Network Diagnostic Report\n");
        o.append("===============================\n");
        if let Some(n) = self.network {
            push_line(&mut o, "Network:                ", n.title_text(), "\n");
        }
        if let Some(t) = self.transport {
            push_line(&mut o, "Transport:              ", t.as_str(), "\n");
        }
        if let Some(edge) = &self.selected_edge {
            push_line(&mut o, "Selected Edge:          ", edge, "\n");
        }
        if self.rtt_ms.is_some() {
            push_line(&mut o, "RTT:                    ", &texts.rtt_ms, " ms\n");
        }
        if self.jitter_ms.is_some() {
            push_line(&mut o, "Jitter:                 ", &texts.jitter_ms, " ms\n");
        }
        if self.packet_loss_pct.is_some() {
            push_line(&mut o, "Packet Loss:            ", &texts.packet_loss_pct, "%\n");
        }
        assert(o@ =~= self@.measured_lines(
            texts.rtt_ms@,
            texts.jitter_ms@,
            texts.packet_loss_pct@,
        ));
        o
    }
}

/// However a report reads, it ends by saying what it does not hold.
pub proof fn law_report_ends_in_its_notice(
    r: DiagnosticReportView,
    rtt: Seq<char>,
    jitter: Seq<char>,
    loss: Seq<char>,
)
    ensures
        "(No packet payloads, credentials, or user data included.)\n"@.is_suffix_of(
            r.measured_lines(rtt, jitter, loss) + r.count_lines(),
        ),
{
}

/// A buffer that holds real samples only, and takes in samples the way `push`
/// does, never holds anything else, and never more than its capacity.
pub proof fn law_buffer_stays_pristine(t: TelemetryView, sample: TelemetrySampleView)
    requires
        t.pristine(),
        t.bounded(),
        sample.source == MeasuredSource::Real,
    ensures
        t.with_sample(sample).pristine(),
        t.with_sample(sample).bounded(),
        t.with_sample(sample).samples.last() == sample,
{
    let after = t.with_sample(sample).samples;
    assert forall|i: int| 0 <= i < after.len() implies (#[trigger] after[i]).source
        == MeasuredSource::Real by {
        if t.samples.len() >= t.capacity && i < after.len() - 1 {
            assert(after[i] == t.samples[i + 1]);
        } else if i < t.samples.len() && t.samples.len() < t.capacity {
            assert(after[i] == t.samples[i]);
        }
    }
}

/// Events roll the same way: the oldest goes when the buffer is full.
pub proof fn law_events_stay_bounded(t: TelemetryView, event: EventView)
    requires
        t.bounded(),
    ensures
        t.with_event(event).bounded(),
        t.with_event(event).events.last() == event,
        t.with_event(event).samples == t.samples,
{
}

/// A report shows what was measured last: the round trip time is the latency
/// of the latest sample, the jitter its jitter, and the loss its loss in
/// percent. Where nothing was measured, only the latency of the current route
/// is known.
pub proof fn law_report_shows_the_latest_sample(
    source: MeasuredSource,
    generated_at: u64,
    latest: Option<TelemetrySampleView>,
    candidate: Option<crate::model::RouteCandidateView>,
    event_log: Seq<EventView>,
    counts: ReportCounts,
)
    ensures
        ({
            let r = report_of(source, generated_at, latest, candidate, event_log, counts);
            &&& r.generated_at == generated_at
            &&& r.source == source
            &&& latest matches Some(l) ==> {
                &&& r.network == Some(l.network)
                &&& r.rtt_ms == Some(l.latency_ms)
                &&& r.jitter_ms == Some(l.jitter_ms)
                &&& r.packet_loss_pct == Some(
                    product(l.packet_loss_ratio, Reading { bits: HUNDRED }),
                )
                &&& l.transport is Some ==> r.transport == l.transport
                &&& candidate is None ==> r.selected_edge == l.route
            }
            &&& latest is None ==> {
                &&& r.network is None
                &&& r.jitter_ms is None
                &&& r.packet_loss_pct is None
                &&& candidate is None ==> r.rtt_ms is None && r.transport is None
                    && r.selected_edge is None
            }
            &&& candidate matches Some(c) ==> {
                &&& r.selected_edge == Some(c.id)
                &&& latest is None ==> r.rtt_ms == Some(c.latency_ms)
                &&& (latest is None || latest->Some_0.transport is None) ==> r.transport == Some(
                    c.transport,
                )
            }
        }),
{
}

/// A report counts what it is given: each count under its own name, and the
/// failures of handshakes and of name lookups as they stand in the log.
pub proof fn law_report_counts_the_log(
    source: MeasuredSource,
    generated_at: u64,
    latest: Option<TelemetrySampleView>,
    candidate: Option<crate::model::RouteCandidateView>,
    event_log: Seq<EventView>,
    counts: ReportCounts,
)
    requires
        event_log.len() <= u64::MAX,
    ensures
        ({
            let r = report_of(source, generated_at, latest, candidate, event_log, counts);
            &&& r.reconnects == counts.reconnects
            &&& r.route_changes == counts.route_changes
            &&& r.transport_fallbacks == counts.transport_fallbacks
            &&& r.circuit_trips == counts.circuit_trips
            &&& r.handshake_failures == event_log.filter(
                |e: EventView| e.kind == EventKind::HandshakeFailure,
            ).len()
            &&& r.dns_failures == event_log.filter(
                |e: EventView| e.kind == EventKind::DnsFailure,
            ).len()
        }),
{
    lemma_count_filters(event_log, EventKind::HandshakeFailure);
    lemma_count_filters(event_log, EventKind::DnsFailure);
    let handshakes = |e: EventView| e.kind == EventKind::HandshakeFailure;
    let lookups = |e: EventView| e.kind == EventKind::DnsFailure;
    assert(event_log.filter(|e: EventView| e.kind == EventKind::HandshakeFailure)
        == event_log.filter(handshakes));
    assert(event_log.filter(|e: EventView| e.kind == EventKind::DnsFailure) == event_log.filter(
        lookups,
    ));
    event_log.lemma_filter_len(handshakes);
    event_log.lemma_filter_len(lookups);
}

proof fn lemma_count_filters(events: Seq<EventView>, kind: EventKind)
    ensures
        count_of(events, kind) == events.filter(|e: EventView| e.kind == kind).len(),
    decreases events.len(),
{
    reveal(Seq::filter);
    if events.len() > 0 {
        lemma_count_filters(events.drop_last(), kind);
    }
}

/// Synthetic data makes no report: neither a synthetic builder, nor a
/// synthetic sample, nor a synthetic route does, and nothing else is refused.
pub proof fn law_only_synthetic_data_is_refused(
    source: MeasuredSource,
    latest: Option<TelemetrySampleView>,
    candidate: Option<crate::model::RouteCandidateView>,
)
    ensures
        !all_real(source, latest, candidate) <==> source == MeasuredSource::Synthetic || (latest
            matches Some(l) && l.source == MeasuredSource::Synthetic) || (candidate matches Some(c)
            && c.source == MeasuredSource::Synthetic),
{
}

/// Whether the part stands in the text.
pub open spec fn stands_in(part: Seq<char>, text: Seq<char>) -> bool {
    exists|i: int|
        0 <= i <= text.len() - part.len() && #[trigger] text.subrange(i, i + part.len()) == part
}

proof fn lemma_stands_between(head: Seq<char>, part: Seq<char>, tail: Seq<char>)
    ensures
        stands_in(part, head + part + tail),
{
    let text = head + part + tail;
    assert(text.subrange(head.len() as int, (head.len() + part.len()) as int) =~= part);
}


/// Each of some parts stands in the whole.
proof fn lemma_each_stands(
    a: Seq<char>,
    b: Seq<char>,
    c: Seq<char>,
    d: Seq<char>,
    e: Seq<char>,
    f: Seq<char>,
    g: Seq<char>,
    h: Seq<char>,
)
    ensures
        stands_in(b, a + b + c + d + e + f + g + h),
        stands_in(c, a + b + c + d + e + f + g + h),
        stands_in(d, a + b + c + d + e + f + g + h),
        stands_in(e, a + b + c + d + e + f + g + h),
        stands_in(f, a + b + c + d + e + f + g + h),
        stands_in(g, a + b + c + d + e + f + g + h),
{
    let text = a + b + c + d + e + f + g + h;
    assert(stands_in(b, text)) by {
        lemma_stands_between(a, b, c + d + e + f + g + h);
        assert(text =~= a + b + (c + d + e + f + g + h));
    }
    assert(stands_in(c, text)) by {
        lemma_stands_between(a + b, c, d + e + f + g + h);
        assert(text =~= a + b + c + (d + e + f + g + h));
    }
    assert(stands_in(d, text)) by {
        lemma_stands_between(a + b + c, d, e + f + g + h);
        assert(text =~= a + b + c + d + (e + f + g + h));
    }
    assert(stands_in(e, text)) by {
        lemma_stands_between(a + b + c + d, e, f + g + h);
        assert(text =~= a + b + c + d + e + (f + g + h));
    }
    assert(stands_in(f, text)) by {
        lemma_stands_between(a + b + c + d + e, f, g + h);
        assert(text =~= a + b + c + d + e + f + (g + h));
    }
    lemma_stands_between(a + b + c + d + e + f, g, h);
}

/// Every figure of a report stands in its text, under its own label.
pub proof fn law_text_labels_each_figure(
    r: DiagnosticReportView,
    rtt: Seq<char>,
    jitter: Seq<char>,
    loss: Seq<char>,
)
    ensures
        ({
            let text = r.measured_lines(rtt, jitter, loss) + r.count_lines();
            &&& r.rtt_ms is Some ==> stands_in("RTT:                    "@ + rtt + " ms\n"@, text)
            &&& r.jitter_ms is Some ==> stands_in(
                "Jitter:                 "@ + jitter + " ms\n"@,
                text,
            )
            &&& r.packet_loss_pct is Some ==> stands_in(
                "Packet Loss:            "@ + loss + "%\n"@,
                text,
            )
            &&& r.network matches Some(n) ==> stands_in(
                "Network:                "@ + n.title() + "\n"@,
                text,
            )
            &&& r.transport matches Some(t) ==> stands_in(
                "Transport:              "@ + t.name() + "\n"@,
                text,
            )
            &&& r.selected_edge matches Some(e) ==> stands_in(
                "Selected Edge:          "@ + e + "\n"@,
                text,
            )
        }),
{
    let counts = r.count_lines();
    let title = "RADIN Network Diagnostic Report\n"@ + "===============================\n"@;
    let network = line(
        r.network is Some,
        "Network:                "@,
        r.network->Some_0.title(),
        "\n"@,
    );
    let transport = line(
        r.transport is Some,
        "Transport:              "@,
        r.transport->Some_0.name(),
        "\n"@,
    );
    let edge = line(
        r.selected_edge is Some,
        "Selected Edge:          "@,
        r.selected_edge->Some_0,
        "\n"@,
    );
    let first = line(r.rtt_ms is Some, "RTT:                    "@, rtt, " ms\n"@);
    let second = line(r.jitter_ms is Some, "Jitter:                 "@, jitter, " ms\n"@);
    let third = line(r.packet_loss_pct is Some, "Packet Loss:            "@, loss, "%\n"@);
    lemma_each_stands(title, network, transport, edge, first, second, third, counts);
}

/// Every count of a report stands in its text, under its own label.
pub proof fn law_text_labels_each_count(
    r: DiagnosticReportView,
    rtt: Seq<char>,
    jitter: Seq<char>,
    loss: Seq<char>,
)
    ensures
        ({
            let text = r.measured_lines(rtt, jitter, loss) + r.count_lines();
            &&& stands_in("Reconnects:             "@ + numeral(r.reconnects as nat) + "\n"@, text)
            &&& stands_in(
                "Route Changes:          "@ + numeral(r.route_changes as nat) + "\n"@,
                text,
            )
            &&& stands_in(
                "Transport Fallbacks:    "@ + numeral(r.transport_fallbacks as nat) + "\n"@,
                text,
            )
            &&& stands_in(
                "Circuit Trips:          "@ + numeral(r.circuit_trips as nat) + "\n"@,
                text,
            )
            &&& stands_in(
                "Handshake Failures:     "@ + numeral(r.handshake_failures as nat) + "\n"@,
                text,
            )
            &&& stands_in(
                "DNS Failures:           "@ + numeral(r.dns_failures as nat) + "\n"@,
                text,
            )
        }),
{
    let head = r.measured_lines(rtt, jitter, loss);
    let notice = "(No packet payloads, credentials, or user data included.)\n"@;
    let a = line(true, "Reconnects:             "@, numeral(r.reconnects as nat), "\n"@);
    let b = line(true, "Route Changes:          "@, numeral(r.route_changes as nat), "\n"@);
    let c = line(true, "Transport Fallbacks:    "@, numeral(r.transport_fallbacks as nat), "\n"@);
    let d = line(true, "Circuit Trips:          "@, numeral(r.circuit_trips as nat), "\n"@);
    let e = line(true, "Handshake Failures:     "@, numeral(r.handshake_failures as nat), "\n"@);
    let f = line(true, "DNS Failures:           "@, numeral(r.dns_failures as nat), "\n"@);
    let text = head + r.count_lines();
    lemma_each_stands(head, a, b, c, d, e, f, notice);
    assert(text =~= head + a + b + c + d + e + f + notice);
}

/// A full buffer gives up its oldest sample, and only that one; one with room
/// gives up nothing.
pub proof fn law_oldest_sample_goes_first(t: TelemetryView, sample: TelemetrySampleView)
    requires
        t.capacity >= 1,
        t.samples.len() <= t.capacity,
    ensures
        t.samples.len() < t.capacity ==> t.with_sample(sample).samples == t.samples.push(sample),
        t.samples.len() == t.capacity ==> t.with_sample(sample).samples.drop_last()
            == t.samples.drop_first() && t.with_sample(sample).samples.last() == sample,
        t.with_sample(sample).events == t.events,
        t.with_sample(sample).capacity == t.capacity,
{
}

/// A full log gives up its oldest event, and only that one; one with room
/// gives up nothing.
pub proof fn law_oldest_event_goes_first(t: TelemetryView, event: EventView)
    requires
        t.capacity >= 1,
        t.events.len() <= t.capacity,
    ensures
        t.events.len() < t.capacity ==> t.with_event(event).events == t.events.push(event),
        t.events.len() == t.capacity ==> t.with_event(event).events.drop_last()
            == t.events.drop_first() && t.with_event(event).events.last() == event,
        t.with_event(event).samples == t.samples,
        t.with_event(event).capacity == t.capacity,
{
}

} // verus!
