//! The scripted demonstration: its command line, its timeline, and what a
//! probe through the simulated network observes.
use vstd::arithmetic::power2::{lemma_pow2_adds, lemma_pow2_pos, lemma_pow2_unfold, pow2};
use vstd::prelude::*;
use vstd::relations::{sorted_by, total_ordering};

use crate::chaos::pipeline::PacketResult;
use crate::double::{pattern, STEP, UNIT_DOUBLINGS};
use crate::engine::EdgeObservation;
use crate::model::{EdgeInfo, EdgeInfoView, TransportKind};
use crate::order::law_rounding_keeps_order;
use crate::ratio::{
    count, counted, law_counts_are_exact, law_counts_are_positive, law_rounds_no_higher, quotient,
    ratio,
};
use crate::reading::Reading;
use crate::root::lemma_units_are;
use crate::scoring::lemma_multiple_over_count;
use crate::text::{number_in, parse_number, same};
use crate::views::views;

verus! {

/// 0.9: below this share of deliveries a probe counts as lost.
pub const DELIVERED_SHARE: u64 = 0x3fec_cccc_cccc_cccd;

/// 9999 milliseconds, where nothing was delivered.
pub const UNREACHABLE_MS: u64 = 0x40c3_8780_0000_0000;

pub const DEFAULT_INTERVAL_MS: u64 = 200;

/// How long an edge of the demonstration may be used.
pub const EDGE_EXPIRES_AT: u64 = 1_000_000_000;

/// How long the demonstration is.
#[derive(Clone, Copy, Debug, PartialEq, Eq, Structural)]
pub enum Scenario {
    Full,
    Smoke,
}

#[derive(Clone, Copy, Debug, PartialEq, Eq, Structural)]
pub enum ReportFormat {
    Plain,
    Json,
}

/// The parts of the timeline; the recovery is followed by a calm.
#[derive(Clone, Copy, Debug, PartialEq, Eq, Structural)]
pub enum Phase {
    Healthy,
    Degraded,
    Outage,
    Recovery,
    Calm,
}

#[derive(Clone, Copy, Debug, PartialEq, Eq, Structural)]
pub struct DemoOptions {
    pub scenario: Scenario,
    pub report: ReportFormat,
    /// The time between rounds of probes.
    pub interval_ms: u64,
    /// How many rounds each phase has, where that is given.
    pub rounds: Option<u64>,
}

/// What the command line asks for.
#[derive(Debug)]
pub enum DemoCommand {
    Run(DemoOptions),
    Version,
    Help,
    /// It cannot be read; the text says why.
    Misuse(String),
}

pub enum DemoCommandView {
    Run(DemoOptions),
    Version,
    Help,
    Misuse(Seq<char>),
}

impl View for DemoCommand {
    type V = DemoCommandView;

    open spec fn view(&self) -> DemoCommandView {
        match *self {
            DemoCommand::Run(o) => DemoCommandView::Run(o),
            DemoCommand::Version => DemoCommandView::Version,
            DemoCommand::Help => DemoCommandView::Help,
            DemoCommand::Misuse(s) => DemoCommandView::Misuse(s@),
        }
    }
}

pub open spec fn usual_options() -> DemoOptions {
    DemoOptions {
        scenario: Scenario::Full,
        report: ReportFormat::Plain,
        interval_ms: DEFAULT_INTERVAL_MS,
        rounds: None,
    }
}

/// The options once a flag with its value was read, or what is wrong with it.
pub open spec fn with_flag(
    o: DemoOptions,
    flag: Seq<char>,
    value: Seq<char>,
) -> core::result::Result<DemoOptions, Seq<char>> {
    if flag == "--scenario"@ {
        if value == "full"@ {
            Ok(DemoOptions { scenario: Scenario::Full, ..o })
        } else if value == "smoke"@ {
            Ok(DemoOptions { scenario: Scenario::Smoke, ..o })
        } else {
            Err("--scenario must be full or smoke"@)
        }
    } else if flag == "--report"@ {
        if value == "plain"@ {
            Ok(DemoOptions { report: ReportFormat::Plain, ..o })
        } else if value == "json"@ {
            Ok(DemoOptions { report: ReportFormat::Json, ..o })
        } else {
            Err("--report must be plain or json"@)
        }
    } else if flag == "--ms"@ {
        match number_in(value) {
            Some(n) => if n <= u64::MAX {
                Ok(DemoOptions { interval_ms: n as u64, ..o })
            } else {
                Err("--ms must be a number of milliseconds"@)
            },
            None => Err("--ms must be a number of milliseconds"@),
        }
    } else {
        match number_in(value) {
            Some(n) => if n <= u64::MAX {
                Ok(DemoOptions { rounds: Some(n as u64), ..o })
            } else {
                Err("--rounds must be a number of rounds"@)
            },
            None => Err("--rounds must be a number of rounds"@),
        }
    }
}

pub open spec fn takes_value(flag: Seq<char>) -> bool {
    flag == "--scenario"@ || flag == "--report"@ || flag == "--ms"@ || flag == "--rounds"@
}

/// The command that the arguments give, with these options so far. The first
/// argument that settles it does.
pub open spec fn demo_command(args: Seq<Seq<char>>, o: DemoOptions) -> DemoCommandView
    decreases args.len(),
{
    if args.len() == 0 {
        DemoCommandView::Run(o)
    } else if args[0] == "--version"@ {
        DemoCommandView::Version
    } else if args[0] == "--help"@ {
        DemoCommandView::Help
    } else if !takes_value(args[0]) {
        DemoCommandView::Misuse("unknown argument: "@ + args[0])
    } else if args.len() == 1 {
        DemoCommandView::Misuse("missing value: "@ + args[0])
    } else {
        match with_flag(o, args[0], args[1]) {
            Ok(next) => demo_command(args.skip(2), next),
            Err(why) => DemoCommandView::Misuse(why),
        }
    }
}

fn misuse(what: &str, argument: &str) -> (r: DemoCommand)
    ensures
        r@ == DemoCommandView::Misuse(what@ + argument@),
{
    let mut s = what.to_owned();
    s.append(argument);
    DemoCommand::Misuse(s)
}

fn read_flag(o: DemoOptions, flag: &str, value: &str) -> (r: core::result::Result<
    DemoOptions,
    &'static str,
>)
    requires
        takes_value(flag@),
    ensures
        (match r {
            Ok(next) => with_flag(o, flag@, value@) == Ok::<DemoOptions, Seq<char>>(next),
            Err(why) => with_flag(o, flag@, value@) == Err::<DemoOptions, Seq<char>>(why@),
        }),
{
    if same(flag, "--scenario") {
        if same(value, "full") {
            Ok(DemoOptions { scenario: Scenario::Full, ..o })
        } else if same(value, "smoke") {
            Ok(DemoOptions { scenario: Scenario::Smoke, ..o })
        } else {
            Err("--scenario must be full or smoke")
        }
    } else if same(flag, "--report") {
        if same(value, "plain") {
            Ok(DemoOptions { report: ReportFormat::Plain, ..o })
        } else if same(value, "json") {
            Ok(DemoOptions { report: ReportFormat::Json, ..o })
        } else {
            Err("--report must be plain or json")
        }
    } else if same(flag, "--ms") {
        match parse_number(value, u64::MAX) {
            Some(n) => Ok(DemoOptions { interval_ms: n, ..o }),
            None => Err("--ms must be a number of milliseconds"),
        }
    } else {
        match parse_number(value, u64::MAX) {
            Some(n) => Ok(DemoOptions { rounds: Some(n), ..o }),
            None => Err("--rounds must be a number of rounds"),
        }
    }
}

/// Reads the command line, without the name of the program.
pub fn parse_command(args: &Vec<String>) -> (r: DemoCommand)
    ensures
        r@ == demo_command(views(args@), usual_options()),
{
    let mut o = DemoOptions {
        scenario: Scenario::Full,
        report: ReportFormat::Plain,
        interval_ms: DEFAULT_INTERVAL_MS,
        rounds: None,
    };
    let mut i: usize = 0;
    let ghost all = views(args@);
    assert(all.skip(0) =~= all);
    while i < args.len()
        invariant
            i <= args@.len(),
            all == views(args@),
            demo_command(all.skip(i as int), o) == demo_command(all, usual_options()),
        decreases args@.len() - i,
    {
        let ghost rest = all.skip(i as int);
        assert(rest[0] == args@[i as int]@);
        let flag = args[i].as_str();
        if same(flag, "--version") {
            return DemoCommand::Version;
        }
        if same(flag, "--help") {
            return DemoCommand::Help;
        }
        if !(same(flag, "--scenario") || same(flag, "--report") || same(flag, "--ms") || same(
            flag,
            "--rounds",
        )) {
            return misuse("unknown argument: ", flag);
        }
        if i + 1 >= args.len() {
            return misuse("missing value: ", flag);
        }
        assert(rest[1] == args@[i + 1]@);
        assert(rest.skip(2) =~= all.skip(i + 2));
        match read_flag(o, flag, args[i + 1].as_str()) {
            Ok(next) => {
                o = next;
            },
            Err(why) => {
                return DemoCommand::Misuse(why.to_owned());
            },
        }
        i += 2;
    }
    assert(all.skip(i as int) =~= seq![]);
    DemoCommand::Run(o)
}

pub open spec fn usual_rounds(scenario: Scenario, phase: Phase) -> u64 {
    match scenario {
        Scenario::Full => match phase {
            Phase::Healthy => 20,
            Phase::Degraded => 50,
            Phase::Outage => 10,
            Phase::Recovery => 60,
            Phase::Calm => 90,
        },
        Scenario::Smoke => match phase {
            Phase::Healthy => 10,
            Phase::Degraded => 25,
            Phase::Outage => 5,
            Phase::Recovery => 20,
            Phase::Calm => 30,
        },
    }
}

impl DemoOptions {
    /// How many rounds of probes the phase has.
    pub fn rounds_in(&self, phase: Phase) -> (r: u64)
        ensures
            r == (match self.rounds {
                Some(n) => n,
                None => usual_rounds(self.scenario, phase),
            }),
    {
        match self.rounds {
            Some(n) => n,
            None => match self.scenario {
                Scenario::Full => match phase {
                    Phase::Healthy => 20,
                    Phase::Degraded => 50,
                    Phase::Outage => 10,
                    Phase::Recovery => 60,
                    Phase::Calm => 90,
                },
                Scenario::Smoke => match phase {
                    Phase::Healthy => 10,
                    Phase::Degraded => 25,
                    Phase::Outage => 5,
                    Phase::Recovery => 20,
                    Phase::Calm => 30,
                },
            },
        }
    }
}

/// An edge of the demonstration.
pub fn edge_info(id: &str, region: &str, address: &str) -> (r: EdgeInfo)
    ensures
        r@ == (EdgeInfoView {
            id: id@,
            region: region@,
            address: address@,
            supported_transports: seq![
                TransportKind::Quic,
                TransportKind::Udp,
                TransportKind::TcpTls,
            ],
            priority: None,
            expires_at: EDGE_EXPIRES_AT,
            signature_b64: None,
        }),
{
    let mut supported_transports: Vec<TransportKind> = Vec::new();
    supported_transports.push(TransportKind::Quic);
    supported_transports.push(TransportKind::Udp);
    supported_transports.push(TransportKind::TcpTls);
    assert(supported_transports@ =~= seq![
        TransportKind::Quic,
        TransportKind::Udp,
        TransportKind::TcpTls,
    ]);
    EdgeInfo {
        id: id.to_owned(),
        region: region.to_owned(),
        address: address.to_owned(),
        supported_transports,
        priority: None,
        expires_at: EDGE_EXPIRES_AT,
        signature_b64: None,
    }
}

/// The delays of the packets that were delivered, in order.
pub open spec fn delays(fates: Seq<PacketResult>) -> Seq<u64>
    decreases fates.len(),
{
    if fates.len() == 0 {
        seq![]
    } else {
        let rest = delays(fates.drop_last());
        match fates.last() {
            PacketResult::Delivered { delay_ms, .. } => rest.push(delay_ms),
            _ => rest,
        }
    }
}

pub open spec fn total(s: Seq<u64>) -> nat
    decreases s.len(),
{
    if s.len() == 0 {
        0
    } else {
        total(s.drop_last()) + s.last() as nat
    }
}

/// How far each value is from the one before it.
pub open spec fn changes(s: Seq<u64>) -> Seq<u64> {
    Seq::new(
        if s.len() == 0 {
            0
        } else {
            (s.len() - 1) as nat
        },
        |i: int|
            if s[i + 1] >= s[i] {
                (s[i + 1] - s[i]) as u64
            } else {
                (s[i] - s[i + 1]) as u64
            },
    )
}

pub open spec fn at_most() -> spec_fn(u64, u64) -> bool {
    |a: u64, b: u64| a <= b
}

/// The middle value, the upper one of two; zero where there is none.
pub open spec fn median(s: Seq<u64>) -> u64 {
    if s.len() == 0 {
        0
    } else {
        s.sort_by(at_most())[s.len() as int / 2]
    }
}

pub open spec fn any_down(fates: Seq<PacketResult>) -> bool {
    exists|i: int| 0 <= i < fates.len() && (#[trigger] fates[i]) is ConnectionDown
}

/// What a probe is taken for, given the fates of its packets.
pub open spec fn probe_lost(fates: Seq<PacketResult>) -> bool {
    any_down(fates) || (fates.len() > 1 && quotient(
        delays(fates).len() as u64,
        fates.len() as u64,
    ).below(Reading { bits: DELIVERED_SHARE }))
}

pub open spec fn probe_latency(fates: Seq<PacketResult>) -> Reading {
    if delays(fates).len() == 0 {
        Reading { bits: UNREACHABLE_MS }
    } else {
        quotient(total(delays(fates)) as u64, delays(fates).len() as u64)
    }
}

/// The values, in ascending order.
fn ascending(s: &Vec<u64>) -> (r: Vec<u64>)
    ensures
        r@ == s@.sort_by(at_most()),
        r@.len() == s@.len(),
{
    let mut r: Vec<u64> = Vec::new();
    let mut i: usize = 0;
    let ghost leq = at_most();
    assert(s@.take(0) =~= r@);
    while i < s.len()
        invariant
            i <= s@.len(),
            leq == at_most(),
            sorted_by(r@, leq),
            r@.len() == i,
            r@.to_multiset() == s@.take(i as int).to_multiset(),
        decreases s@.len() - i,
    {
        let x: u64 = s[i];
        let mut at: usize = r.len();
        while at > 0 && r[at - 1] > x
            invariant
                at <= r@.len(),
                forall|j: int| at <= j < r@.len() ==> x < #[trigger] r@[j],
            decreases at,
        {
            at -= 1;
        }
        let ghost before = r@;
        r.insert(at, x);
        proof {
            lemma_inserted(before, at as int, x);
            assert(s@.take(i + 1) =~= s@.take(i as int).push(x));
            vstd::seq_lib::to_multiset_build(s@.take(i as int), x);
        }
        i += 1;
    }
    proof {
        assert(s@.take(i as int) =~= s@);
        lemma_total_order();
        s@.lemma_sort_by_ensures(leq);
        vstd::seq_lib::lemma_sorted_unique(r@, s@.sort_by(leq), leq);
    }
    r
}

proof fn lemma_total_order()
    ensures
        total_ordering(at_most()),
{
}

proof fn lemma_inserted(s: Seq<u64>, at: int, x: u64)
    requires
        sorted_by(s, at_most()),
        0 <= at <= s.len(),
        at > 0 ==> s[at - 1] <= x,
        forall|j: int| at <= j < s.len() ==> x < #[trigger] s[j],
    ensures
        sorted_by(s.insert(at, x), at_most()),
        s.insert(at, x).to_multiset() == s.to_multiset().insert(x),
{
    let t = s.insert(at, x);
    let leq = at_most();
    assert forall|i: int, j: int| 0 <= i < j < t.len() implies #[trigger] leq(t[i], t[j]) by {
        if j < at {
            assert(leq(s[i], s[j]));
        } else if j == at {
            if i < at - 1 {
                assert(leq(s[i], s[at - 1]));
            }
        } else if i == at {
            assert(x < s[j - 1]);
        } else if i < at {
            assert(leq(s[i], s[j - 1]));
        } else {
            assert(leq(s[i - 1], s[j - 1]));
        }
    }
    broadcast use vstd::multiset::group_multiset_axioms;
    broadcast use vstd::seq_lib::group_to_multiset_ensures;

    assert(t.remove(at) =~= s);
    assert(t[at] == x);
    assert(t.contains(x));
    assert(t.to_multiset().count(x) > 0);
    assert(t.remove(at).to_multiset() == t.to_multiset().remove(x));
    assert(t.to_multiset() =~= s.to_multiset().insert(x));
}

/// What the probe of an edge observes, given the fates of its packets: the
/// mean delay, the middle of the changes of the delay, and whether the probe
/// counts as lost.
pub fn observation(edge_id: &str, fates: &Vec<PacketResult>) -> (r: EdgeObservation)
    requires
        total(delays(fates@)) <= u64::MAX,
    ensures
        r.edge_id@ == edge_id@,
        r.latency_ms == probe_latency(fates@),
        r.jitter_ms == counted(median(changes(delays(fates@)))),
        r.lost == probe_lost(fates@),
        r.handshake_ms is None,
{
    let mut delivered: Vec<u64> = Vec::new();
    let mut down = false;
    let mut i: usize = 0;
    assert(fates@.take(0) =~= seq![]);
    while i < fates.len()
        invariant
            i <= fates@.len(),
            delivered@ == delays(fates@.take(i as int)),
            delivered@.len() <= i,
            down == any_down(fates@.take(i as int)),
        decreases fates@.len() - i,
    {
        let ghost so_far = fates@.take(i as int);
        assert(fates@.take(i + 1).drop_last() =~= so_far);
        assert(fates@.take(i + 1).last() == fates@[i as int]);
        assert(fates@.take(i + 1) =~= so_far.push(fates@[i as int]));
        match &fates[i] {
            PacketResult::Delivered { delay_ms, .. } => {
                delivered.push(*delay_ms);
            },
            PacketResult::ConnectionDown { .. } => {
                down = true;
                assert(fates@.take(i + 1)[i as int] is ConnectionDown);
            },
            PacketResult::Dropped { .. } => {},
        }
        proof {
            let now = fates@.take(i + 1);
            if any_down(so_far) {
                let k = choose|k: int|
                    0 <= k < so_far.len() && (#[trigger] so_far[k]) is ConnectionDown;
                assert(now[k] is ConnectionDown);
            }
            if any_down(now) {
                let k = choose|k: int| 0 <= k < now.len() && (#[trigger] now[k]) is ConnectionDown;
                if k < i {
                    assert(so_far[k] is ConnectionDown);
                }
            }
        }
        i += 1;
    }
    assert(fates@.take(i as int) =~= fates@);
    let few = fates.len() > 1 && ratio(delivered.len() as u64, fates.len() as u64) < (Reading {
        bits: DELIVERED_SHARE,
    });
    let latency_ms = if delivered.len() == 0 {
        Reading { bits: UNREACHABLE_MS }
    } else {
        ratio(sum(&delivered), delivered.len() as u64)
    };
    let steps = ascending(&differences(&delivered));
    let middle: u64 = if steps.len() == 0 {
        0
    } else {
        steps[steps.len() / 2]
    };
    EdgeObservation {
        edge_id: edge_id.to_owned(),
        latency_ms,
        jitter_ms: count(middle),
        lost: down || few,
        handshake_ms: None,
    }
}

fn sum(s: &Vec<u64>) -> (r: u64)
    requires
        total(s@) <= u64::MAX,
    ensures
        r == total(s@),
{
    let mut r: u64 = 0;
    let mut i: usize = 0;
    assert(s@.take(0) =~= seq![]);
    while i < s.len()
        invariant
            i <= s@.len(),
            r == total(s@.take(i as int)),
            total(s@) <= u64::MAX,
        decreases s@.len() - i,
    {
        assert(s@.take(i + 1).drop_last() =~= s@.take(i as int));
        proof {
            lemma_total_grows(s@, i + 1);
        }
        r = r + s[i];
        i += 1;
    }
    assert(s@.take(i as int) =~= s@);
    r
}

proof fn lemma_total_grows(s: Seq<u64>, n: int)
    requires
        0 <= n <= s.len(),
    ensures
        total(s.take(n)) <= total(s),
    decreases s.len() - n,
{
    if n < s.len() {
        assert(s.take(n + 1).drop_last() =~= s.take(n));
        lemma_total_grows(s, n + 1);
    } else {
        assert(s.take(n) =~= s);
    }
}

fn differences(s: &Vec<u64>) -> (r: Vec<u64>)
    ensures
        r@ == changes(s@),
{
    let mut r: Vec<u64> = Vec::new();
    let mut i: usize = 1;
    while i < s.len()
        invariant
            1 <= i,
            s@.len() > 0 ==> i <= s@.len(),
            s@.len() == 0 ==> i == 1,
            r@.len() == i - 1,
            forall|j: int| 0 <= j < r@.len() ==> #[trigger] r@[j] == changes(s@)[j],
        decreases s@.len() - i,
    {
        r.push(
            if s[i] >= s[i - 1] {
                s[i] - s[i - 1]
            } else {
                s[i - 1] - s[i]
            },
        );
        i += 1;
    }
    assert(r@ =~= changes(s@));
    r
}

/// The delays of a probe are those of its deliveries: where every packet
/// arrives there is one for each, in order, and a packet that does not arrive
/// adds none wherever it stands.
pub proof fn law_delays_are_of_the_deliveries(fates: Seq<PacketResult>, at: int)
    ensures
        (forall|i: int| 0 <= i < fates.len() ==> (#[trigger] fates[i]) is Delivered) ==> delays(
            fates,
        ).len() == fates.len() && forall|i: int|
            0 <= i < fates.len() ==> #[trigger] delays(fates)[i] == fates[i]->Delivered_delay_ms,
        0 <= at < fates.len() && fates[at] !is Delivered ==> delays(fates.remove(at)) == delays(
            fates,
        ),
    decreases fates.len(),
{
    if fates.len() > 0 {
        let front = fates.drop_last();
        law_delays_are_of_the_deliveries(front, at);
        if forall|i: int| 0 <= i < fates.len() ==> (#[trigger] fates[i]) is Delivered {
            assert forall|i: int| 0 <= i < front.len() implies (#[trigger] front[i]) is Delivered by {
                assert(fates[i] is Delivered);
            }
            assert(fates[fates.len() - 1] is Delivered);
        }
        if 0 <= at < fates.len() && fates[at] !is Delivered {
            if at == fates.len() - 1 {
                assert(fates.remove(at) =~= front);
            } else {
                assert(fates.remove(at).drop_last() =~= front.remove(at));
                assert(fates.remove(at).last() == fates.last());
            }
        }
    }
}

/// The total of two runs of values is that of the one and that of the other,
/// and the total of one value is the value.
pub proof fn law_totals_add_up(a: Seq<u64>, b: Seq<u64>, x: u64)
    ensures
        total(a + b) == total(a) + total(b),
        total(seq![x]) == x,
        total(Seq::<u64>::empty()) == 0,
    decreases b.len(),
{
    if b.len() == 0 {
        assert(a + b =~= a);
    } else {
        law_totals_add_up(a, b.drop_last(), x);
        assert((a + b).drop_last() =~= a + b.drop_last());
        assert((a + b).last() == b.last());
    }
    assert(seq![x].drop_last() =~= Seq::<u64>::empty());
    reveal_with_fuel(total, 2);
}

/// Where nothing arrives the latency of a probe is the one that stands for
/// out of reach. Where every packet takes the same time, the latency is that
/// time.
pub proof fn law_steady_delay_is_the_latency(fates: Seq<PacketResult>, ms: u64)
    requires
        0 < ms,
        ms * fates.len() < 2 * STEP,
    ensures
        (forall|i: int| 0 <= i < fates.len() ==> (#[trigger] fates[i]) !is Delivered)
            ==> probe_latency(fates) == (Reading { bits: UNREACHABLE_MS }),
        fates.len() > 0 && (forall|i: int|
            0 <= i < fates.len() ==> (#[trigger] fates[i]) is Delivered
                && fates[i]->Delivered_delay_ms == ms) ==> probe_latency(fates) == counted(ms),
{
    if forall|i: int| 0 <= i < fates.len() ==> (#[trigger] fates[i]) !is Delivered {
        lemma_nothing_delivered(fates);
    }
    if fates.len() > 0 && (forall|i: int|
        0 <= i < fates.len() ==> (#[trigger] fates[i]) is Delivered
            && fates[i]->Delivered_delay_ms == ms) {
        lemma_steady(fates, ms);
        let n = fates.len() as u64;
        assert(fates.len() <= ms * fates.len()) by (nonlinear_arith)
            requires
                0 < ms,
        ;
        law_counts_are_exact(n);
        law_counts_are_positive(n);
        assert(n * ms == ms * fates.len()) by (nonlinear_arith)
            requires
                n == fates.len(),
        ;
        lemma_multiple_over_count(counted(n), n, ms);
    }
}

proof fn lemma_nothing_delivered(fates: Seq<PacketResult>)
    requires
        forall|i: int| 0 <= i < fates.len() ==> (#[trigger] fates[i]) !is Delivered,
    ensures
        delays(fates).len() == 0,
    decreases fates.len(),
{
    if fates.len() > 0 {
        let front = fates.drop_last();
        assert forall|i: int| 0 <= i < front.len() implies (#[trigger] front[i]) !is Delivered by {
            assert(fates[i] !is Delivered);
        }
        lemma_nothing_delivered(front);
        assert(fates[fates.len() - 1] !is Delivered);
    }
}

proof fn lemma_steady(fates: Seq<PacketResult>, ms: u64)
    requires
        forall|i: int|
            0 <= i < fates.len() ==> (#[trigger] fates[i]) is Delivered
                && fates[i]->Delivered_delay_ms == ms,
    ensures
        delays(fates).len() == fates.len(),
        total(delays(fates)) == ms * fates.len(),
    decreases fates.len(),
{
    if fates.len() > 0 {
        let front = fates.drop_last();
        assert forall|i: int| 0 <= i < front.len() implies (#[trigger] front[i]) is Delivered
            && front[i]->Delivered_delay_ms == ms by {
            assert(fates[i] is Delivered);
        }
        lemma_steady(front, ms);
        assert(fates[fates.len() - 1] is Delivered);
        assert(delays(fates).drop_last() =~= delays(front));
        assert(ms * fates.len() == ms * front.len() + ms) by (nonlinear_arith)
            requires
                fates.len() == front.len() + 1,
        ;
    }
}

/// Each change of the delay is how far the one is from the next, whichever of
/// the two is longer.
pub proof fn law_changes_are_distances(s: Seq<u64>, i: int)
    requires
        0 <= i,
        i + 1 < s.len(),
    ensures
        changes(s).len() == s.len() - 1,
        s[i] + changes(s)[i] == s[i + 1] || s[i + 1] + changes(s)[i] == s[i],
{
}

/// The median is the value in the middle once the values are in ascending
/// order, and of two in the middle the larger.
pub proof fn law_median_is_in_the_middle(s: Seq<u64>, sorted: Seq<u64>)
    requires
        s.len() > 0,
        sorted.to_multiset() == s.to_multiset(),
        forall|i: int, j: int| 0 <= i < j < sorted.len() ==> sorted[i] <= sorted[j],
    ensures
        median(s) == sorted[s.len() as int / 2],
{
    broadcast use vstd::seq_lib::group_to_multiset_ensures;

    let leq = at_most();
    lemma_total_order();
    s.lemma_sort_by_ensures(leq);
    assert(sorted_by(sorted, leq)) by {
        assert forall|i: int, j: int| 0 <= i < j < sorted.len() implies #[trigger] leq(
            sorted[i],
            sorted[j],
        ) by {
            assert(sorted[i] <= sorted[j]);
        }
    }
    vstd::seq_lib::lemma_sorted_unique(sorted, s.sort_by(leq), leq);
}

/// A probe that finds the connection down is lost. One of a single packet is
/// lost in no other way, and one of several is lost besides where fewer than
/// nine in ten arrive.
pub proof fn law_probes_that_fail_are_lost(fates: Seq<PacketResult>)
    requires
        8 * fates.len() <= 2 * STEP,
    ensures
        (exists|i: int| 0 <= i < fates.len() && (#[trigger] fates[i]) is ConnectionDown)
            ==> probe_lost(fates),
        (forall|i: int| 0 <= i < fates.len() ==> (#[trigger] fates[i]) !is ConnectionDown) ==> (
        probe_lost(fates) <==> fates.len() > 1 && 10 * delays(fates).len() < 9 * fates.len()),
{
    lemma_no_more_delays(fates);
    if fates.len() > 1 {
        lemma_nine_in_ten(delays(fates).len() as u64, fates.len() as u64);
    }
}

/// Where nine tenths lie among the magnitudes.
proof fn lemma_nine_tenths(i: nat)
    requires
        i <= 1021,
    ensures
        pattern(9 * pow2(UNIT_DOUBLINGS as nat), 10 * pow2(i), i) == DELIVERED_SHARE,
    decreases 1021 - i,
{
    vstd::arithmetic::power2::lemma2_to64();
    vstd::arithmetic::power2::lemma2_to64_rest();
    let n = 9 * pow2(UNIT_DOUBLINGS as nat);
    let g = pow2(i);
    let d = 10 * g;
    let f = pow2((UNIT_DOUBLINGS - i) as nat);
    lemma_pow2_pos(i);
    lemma_pow2_adds((UNIT_DOUBLINGS - i) as nat, i);
    if i < 1021 {
        lemma_pow2_adds((1020 - i) as nat, 54);
        lemma_pow2_pos((1020 - i) as nat);
        let h = pow2((1020 - i) as nat);
        assert(n >= 2 * STEP * d) by (nonlinear_arith)
            requires
                n == 9 * (f * g),
                f == h * 18014398509481984,
                h >= 1,
                d == 10 * g,
                g > 0,
        ;
        lemma_pow2_unfold(i + 1);
        assert(2 * d == 10 * pow2(i + 1));
        lemma_nine_tenths(i + 1);
    } else {
        assert(n == d * 8106479329266892 + 8 * g && n < 2 * STEP * d) by (nonlinear_arith)
            requires
                n == 9 * (f * g),
                f == 9007199254740992,
                d == 10 * g,
                g > 0,
        ;
        vstd::arithmetic::div_mod::lemma_fundamental_div_mod_converse(
            n as int,
            d as int,
            8106479329266892,
            8 * g as int,
        );
    }
}

/// How a share of deliveries compares to nine tenths.
proof fn lemma_nine_in_ten(d: u64, n: u64)
    requires
        0 < n,
        d <= n,
        8 * n <= 2 * STEP,
    ensures
        quotient(d, n).below(Reading { bits: DELIVERED_SHARE }) <==> 10 * d < 9 * n,
{
    let u = pow2(UNIT_DOUBLINGS as nat);
    lemma_pow2_pos(UNIT_DOUBLINGS as nat);
    law_counts_are_exact(d);
    law_counts_are_exact(n);
    law_counts_are_positive(n);
    let top: nat = (d * u) as nat * u;
    let bottom: nat = (n * u) as nat;
    assert(bottom > 0) by (nonlinear_arith)
        requires
            bottom == n * u,
            n > 0,
            u > 0,
    ;
    if 10 * d < 9 * n {
        let least: u64 = (DELIVERED_SHARE - 1) as u64;
        let g = pow2(1021);
        lemma_units_are(1021, 8106479329266892);
        vstd::arithmetic::power2::lemma2_to64_rest();
        lemma_pow2_adds(53, 1021);
        assert(top <= (8106479329266892 * g) * bottom) by (nonlinear_arith)
            requires
                top == (d * u) * u,
                bottom == n * u,
                u == 9007199254740992 * g,
                10 * d + 1 <= 9 * n,
                8 * n <= 9007199254740992,
        ;
        law_rounds_no_higher(top, bottom, least);
    } else {
        vstd::arithmetic::power2::lemma2_to64();
        lemma_nine_tenths(0);
        assert((9 * u) * bottom <= top * 10) by (nonlinear_arith)
            requires
                top == (d * u) * u,
                bottom == n * u,
                10 * d >= 9 * n,
        ;
        law_rounding_keeps_order(9 * u, 10, top, bottom);
    }
}

proof fn lemma_no_more_delays(fates: Seq<PacketResult>)
    ensures
        delays(fates).len() <= fates.len(),
    decreases fates.len(),
{
    if fates.len() > 0 {
        lemma_no_more_delays(fates.drop_last());
    }
}

/// The time between rounds, the number of rounds, the scenario and the form
/// of the report are each set by their own flag, which leaves the rest alone;
/// the arguments after it are read with what it set.
pub proof fn law_flags_set_their_own(o: DemoOptions, value: Seq<char>, rest: Seq<Seq<char>>, n: u64)
    requires
        number_in(value) == Some(n as nat),
    ensures
        demo_command(seq!["--ms"@, value] + rest, o) == demo_command(
            rest,
            DemoOptions { interval_ms: n, ..o },
        ),
        demo_command(seq!["--rounds"@, value] + rest, o) == demo_command(
            rest,
            DemoOptions { rounds: Some(n), ..o },
        ),
        demo_command(seq!["--scenario"@, "full"@] + rest, o) == demo_command(
            rest,
            DemoOptions { scenario: Scenario::Full, ..o },
        ),
        demo_command(seq!["--scenario"@, "smoke"@] + rest, o) == demo_command(
            rest,
            DemoOptions { scenario: Scenario::Smoke, ..o },
        ),
        demo_command(seq!["--report"@, "plain"@] + rest, o) == demo_command(
            rest,
            DemoOptions { report: ReportFormat::Plain, ..o },
        ),
        demo_command(seq!["--report"@, "json"@] + rest, o) == demo_command(
            rest,
            DemoOptions { report: ReportFormat::Json, ..o },
        ),
        demo_command(Seq::empty(), o) == DemoCommandView::Run(o),
{
    lemma_flags_differ();
    assert((seq!["--ms"@, value] + rest).skip(2) =~= rest);
    assert((seq!["--rounds"@, value] + rest).skip(2) =~= rest);
    assert((seq!["--scenario"@, "full"@] + rest).skip(2) =~= rest);
    assert((seq!["--scenario"@, "smoke"@] + rest).skip(2) =~= rest);
    assert((seq!["--report"@, "plain"@] + rest).skip(2) =~= rest);
    assert((seq!["--report"@, "json"@] + rest).skip(2) =~= rest);
}

proof fn lemma_flags_differ()
    ensures
        "--ms"@ != "--scenario"@ && "--ms"@ != "--report"@ && "--ms"@ != "--version"@,
        "--ms"@ != "--help"@ && "--rounds"@ != "--scenario"@ && "--rounds"@ != "--report"@,
        "--rounds"@ != "--version"@ && "--rounds"@ != "--help"@ && "--rounds"@ != "--ms"@,
        "--scenario"@ != "--version"@ && "--scenario"@ != "--help"@,
        "--report"@ != "--version"@ && "--report"@ != "--help"@ && "--report"@ != "--scenario"@,
        "full"@ != "smoke"@ && "plain"@ != "json"@,
{
    reveal_strlit("--ms");
    reveal_strlit("--scenario");
    reveal_strlit("--report");
    reveal_strlit("--rounds");
    reveal_strlit("--version");
    reveal_strlit("--help");
    reveal_strlit("full");
    reveal_strlit("smoke");
    reveal_strlit("plain");
    reveal_strlit("json");
    assert("--ms"@.len() == 4);
    assert("--scenario"@.len() == 10);
    assert("--report"@.len() == 8);
    assert("--rounds"@.len() == 8);
    assert("--version"@.len() == 9);
    assert("--help"@.len() == 6);
    assert("--report"@[3] == 'e');
    assert("--rounds"@[3] == 'o');
    assert("full"@.len() == 4);
    assert("smoke"@.len() == 5);
    assert("plain"@.len() == 5);
    assert("json"@.len() == 4);
}

/// A short run has fewer rounds in every phase than the full one.
pub proof fn law_smoke_is_shorter(phase: Phase)
    ensures
        0 < usual_rounds(Scenario::Smoke, phase) < usual_rounds(Scenario::Full, phase),
{
}

} // verus!
