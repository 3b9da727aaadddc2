//! Transport fallback.
//!
//! The chain starts with QUIC and ends with a direct connection. It is left
//! for the next transport only after a measured failure of the current one,
//! and measured scores can order it anew.
use vstd::prelude::*;

use crate::model::{fallback_list, fallback_order, TransportKind};
use crate::ranking::rank;
use crate::reading::Reading;

verus! {

/// How long a transport that was left stays blocked, in milliseconds.
pub const BLOCK_MS: u64 = 5_000;

/// Why a transport counts as failed.
#[derive(Clone, Copy, Debug, PartialEq, Eq, Structural)]
pub enum FailureSignal {
    /// Its state machine reached `Failed`.
    StateFailed,
    /// Its circuit breaker is open.
    CircuitOpen,
    /// A handshake failed.
    HandshakeFailure,
}

#[derive(Debug)]
pub struct FallbackEngine {
    /// The transports in order of preference.
    pub chain: Vec<TransportKind>,
    /// Where in the chain the engine stands.
    pub current_index: usize,
    /// Transports that were left: which, why, since when, and until when blocked.
    pub blocked: Vec<(TransportKind, FailureSignal, u64, u64)>,
    /// The signals of the last frame.
    pub last_signals: Vec<(TransportKind, FailureSignal)>,
}

#[verifier::ext_equal]
pub struct FallbackView {
    pub chain: Seq<TransportKind>,
    pub current_index: int,
    pub blocked: Seq<(TransportKind, FailureSignal, u64, u64)>,
    pub last_signals: Seq<(TransportKind, FailureSignal)>,
}

impl View for FallbackEngine {
    type V = FallbackView;

    open spec fn view(&self) -> FallbackView {
        FallbackView {
            chain: self.chain@,
            current_index: self.current_index as int,
            blocked: self.blocked@,
            last_signals: self.last_signals@,
        }
    }
}

/// The first signal for the transport.
pub open spec fn first_signal(
    signals: Seq<(TransportKind, FailureSignal)>,
    kind: TransportKind,
) -> Option<FailureSignal>
    decreases signals.len(),
{
    if signals.len() == 0 {
        None
    } else {
        match first_signal(signals.drop_last(), kind) {
            Some(s) => Some(s),
            None => if signals.last().0 == kind {
                Some(signals.last().1)
            } else {
                None
            },
        }
    }
}

/// The transports of `kinds` but for the first direct one.
pub open spec fn without_first_direct(kinds: Seq<TransportKind>) -> Seq<TransportKind>
    decreases kinds.len(),
{
    if kinds.len() == 0 {
        seq![]
    } else if kinds[0] == TransportKind::Direct {
        kinds.drop_first()
    } else {
        seq![kinds[0]] + without_first_direct(kinds.drop_first())
    }
}

/// The chain for a ranking: direct connections go last, where there is always
/// one.
pub open spec fn chain_for(kinds: Seq<TransportKind>) -> Seq<TransportKind> {
    let rest = without_first_direct(kinds);
    if rest.len() > 0 && rest.last() == TransportKind::Direct {
        rest
    } else {
        rest.push(TransportKind::Direct)
    }
}

pub open spec fn kinds_of(s: Seq<(TransportKind, Reading)>) -> Seq<TransportKind> {
    Seq::new(s.len(), |i: int| s[i].0)
}

impl FallbackView {
    pub open spec fn fresh(chain: Seq<TransportKind>) -> FallbackView {
        FallbackView { chain, current_index: 0, blocked: seq![], last_signals: seq![] }
    }

    /// The transport in use.
    pub open spec fn current(self) -> TransportKind {
        if self.current_index < self.chain.len() {
            self.chain[self.current_index]
        } else {
            self.chain.last()
        }
    }

    pub open spec fn is_blocked(self, kind: TransportKind, now: u64) -> bool {
        exists|i: int|
            0 <= i < self.blocked.len() && (#[trigger] self.blocked[i]).0 == kind && now
                < self.blocked[i].3
    }

    /// Whether the signals make the engine leave the current transport.
    pub open spec fn moves(self, signals: Seq<(TransportKind, FailureSignal)>, now: u64) -> bool {
        &&& first_signal(signals, self.current()) is Some
        &&& !self.is_blocked(self.current(), now)
        &&& self.current_index + 1 < self.chain.len()
    }

    pub open spec fn observed(
        self,
        signals: Seq<(TransportKind, FailureSignal)>,
        now: u64,
    ) -> FallbackView {
        if self.moves(signals, now) {
            FallbackView {
                current_index: self.current_index + 1,
                blocked: self.blocked.push(
                    (
                        self.current(),
                        first_signal(signals, self.current())->Some_0,
                        now,
                        (now + BLOCK_MS) as u64,
                    ),
                ),
                last_signals: signals,
                ..self
            }
        } else {
            FallbackView { last_signals: signals, ..self }
        }
    }

    /// The engine after failures of the transport in use, each a signal and a
    /// time.
    pub open spec fn failing(self, outage: Seq<(FailureSignal, u64)>) -> FallbackView
        decreases outage.len(),
    {
        if outage.len() == 0 {
            self
        } else {
            let before = self.failing(outage.drop_last());
            before.observed(seq![(before.current(), outage.last().0)], outage.last().1)
        }
    }

    pub open spec fn reordered(self, scores: Seq<(TransportKind, Reading)>) -> FallbackView {
        if scores.len() == 0 {
            self
        } else {
            FallbackView {
                chain: chain_for(kinds_of(crate::ranking::ranked(scores))),
                current_index: 0,
                ..self
            }
        }
    }
}

impl Default for FallbackEngine {
    fn default() -> (r: Self)
        ensures
            r@ == FallbackView::fresh(fallback_order()),
    {
        Self::new(None)
    }
}

impl FallbackEngine {
    pub fn new(order: Option<Vec<TransportKind>>) -> (r: Self)
        ensures
            r@ == FallbackView::fresh(
                match order {
                    Some(o) => o@,
                    None => fallback_order(),
                },
            ),
    {
        let chain = match order {
            Some(o) => o,
            None => fallback_list(),
        };
        FallbackEngine { chain, current_index: 0, blocked: Vec::new(), last_signals: Vec::new() }
    }

    /// The transport in use: the last of the chain where the index is past it.
    pub fn current(&self) -> (r: TransportKind)
        requires
            self.chain@.len() > 0,
        ensures
            r == self@.current(),
    {
        if self.current_index < self.chain.len() {
            self.chain[self.current_index]
        } else {
            self.chain[self.chain.len() - 1]
        }
    }

    /// Takes in the failure signals of a frame. The engine moves on only when
    /// the current transport has failed and is not blocked, and returns the
    /// transport that it moved to.
    pub fn observe(&mut self, signals: Vec<(TransportKind, FailureSignal)>, now: u64) -> (r: Option<
        TransportKind,
    >)
        requires
            old(self).chain@.len() > 0,
            now + BLOCK_MS <= u64::MAX,
        ensures
            final(self)@ == old(self)@.observed(signals@, now),
            r == (if old(self)@.moves(signals@, now) {
                Some(final(self)@.current())
            } else {
                None::<TransportKind>
            }),
    {
        let current = self.current();
        let mut signal: Option<FailureSignal> = None;
        let mut i: usize = 0;
        assert(signals@.take(0) =~= seq![]);
        while i < signals.len()
            invariant
                i <= signals.len(),
                signal == first_signal(signals@.take(i as int), current),
            decreases signals.len() - i,
        {
            assert(signals@.take(i + 1).drop_last() =~= signals@.take(i as int));
            if signal.is_none() && signals[i].0 == current {
                signal = Some(signals[i].1);
            }
            i = i + 1;
        }
        assert(signals@.take(i as int) =~= signals@);
        let ghost taken = signals@;
        self.last_signals = signals;
        match signal {
            Some(why) => {
                let mut blocked = false;
                let mut k: usize = 0;
                while k < self.blocked.len()
                    invariant
                        k <= self.blocked.len(),
                        self@ == (FallbackView { last_signals: taken, ..old(self)@ }),
                        blocked == exists|j: int|
                            0 <= j < k && (#[trigger] self.blocked@[j]).0 == current && now
                                < self.blocked@[j].3,
                    decreases self.blocked.len() - k,
                {
                    if self.blocked[k].0 == current && now < self.blocked[k].3 {
                        blocked = true;
                    }
                    k = k + 1;
                }
                assert(blocked == old(self)@.is_blocked(current, now));
                if !blocked && self.current_index < self.chain.len() && self.current_index + 1
                    < self.chain.len() {
                    self.current_index = self.current_index + 1;
                    self.blocked.push((current, why, now, now + BLOCK_MS));
                    return Some(self.current());
                }
                None
            },
            None => None,
        }
    }

    /// Orders the chain by score, the highest first, with a direct connection
    /// at its end always. Without scores the chain stays as it is.
    pub fn reorder_by_scores(&mut self, scores: &[(TransportKind, Reading)])
        ensures
            final(self)@ == old(self)@.reordered(scores@),
    {
        if scores.len() == 0 {
            return ;
        }
        let by_score = rank(scores);
        let ghost kinds = kinds_of(by_score@);
        let mut ordered: Vec<TransportKind> = Vec::new();
        let mut dropped = false;
        let mut i: usize = 0;
        assert(kinds.skip(0) =~= kinds);
        while i < by_score.len()
            invariant
                i <= by_score.len(),
                kinds == kinds_of(by_score@),
                without_first_direct(kinds) == if dropped {
                    ordered@ + kinds.skip(i as int)
                } else {
                    ordered@ + without_first_direct(kinds.skip(i as int))
                },
            decreases by_score.len() - i,
        {
            let kind = by_score[i].0;
            let ghost rest = kinds.skip(i as int);
            assert(rest[0] == kind);
            assert(rest.drop_first() =~= kinds.skip(i + 1));
            if !dropped && kind == TransportKind::Direct {
                dropped = true;
            } else {
                assert(rest =~= seq![kind] + rest.drop_first());
                assert(ordered@ + (seq![kind] + rest.drop_first()) =~= ordered@.push(kind)
                    + rest.drop_first());
                assert(ordered@ + (seq![kind] + without_first_direct(rest.drop_first()))
                    =~= ordered@.push(kind) + without_first_direct(rest.drop_first()));
                ordered.push(kind);
            }
            i = i + 1;
        }
        assert(kinds.skip(i as int) =~= seq![]);
        assert(ordered@ =~= without_first_direct(kinds));
        let ends_direct = ordered.len() > 0 && ordered[ordered.len() - 1] == TransportKind::Direct;
        if !ends_direct {
            ordered.push(TransportKind::Direct);
        }
        self.chain = ordered;
        self.current_index = 0;
    }

    /// When the engine last moved down the chain.
    pub fn last_fallback_at(&self) -> (r: Option<u64>)
        ensures
            r == (if self@.blocked.len() > 0 {
                Some(self@.blocked.last().2)
            } else {
                None::<u64>
            }),
    {
        if self.blocked.len() > 0 {
            Some(self.blocked[self.blocked.len() - 1].2)
        } else {
            None
        }
    }
}

/// Signals that spare the current transport never move the engine.
pub proof fn law_only_own_failure_moves(
    f: FallbackView,
    signals: Seq<(TransportKind, FailureSignal)>,
    now: u64,
)
    requires
        forall|i: int| 0 <= i < signals.len() ==> (#[trigger] signals[i]).0 != f.current(),
    ensures
        !f.moves(signals, now),
        f.observed(signals, now).current() == f.current(),
{
    lemma_no_signal(signals, f.current());
}

proof fn lemma_no_signal(signals: Seq<(TransportKind, FailureSignal)>, kind: TransportKind)
    requires
        forall|i: int| 0 <= i < signals.len() ==> (#[trigger] signals[i]).0 != kind,
    ensures
        first_signal(signals, kind) is None,
    decreases signals.len(),
{
    if signals.len() > 0 {
        assert forall|i: int| 0 <= i < signals.drop_last().len() implies (
        #[trigger] signals.drop_last()[i]).0 != kind by {
            assert(signals[i].0 != kind);
        }
        lemma_no_signal(signals.drop_last(), kind);
        assert(signals[signals.len() - 1].0 != kind);
    }
}

/// The end of the chain is never left: whatever fails, the engine stays there.
pub proof fn law_end_is_terminal(
    f: FallbackView,
    signals: Seq<(TransportKind, FailureSignal)>,
    now: u64,
)
    requires
        f.chain.len() > 0,
        f.current_index == f.chain.len() - 1,
    ensures
        !f.moves(signals, now),
        f.observed(signals, now).current() == f.chain.last(),
{
}

/// The engine only ever moves one step down the chain, and blocks what it left.
pub proof fn law_moves_one_step(
    f: FallbackView,
    signals: Seq<(TransportKind, FailureSignal)>,
    now: u64,
)
    requires
        f.moves(signals, now),
        0 <= f.current_index,
        now + BLOCK_MS <= u64::MAX,
    ensures
        f.observed(signals, now).current_index == f.current_index + 1,
        f.observed(signals, now).current() == f.chain[f.current_index + 1],
        f.observed(signals, now).is_blocked(f.current(), now),
{
    let after = f.observed(signals, now);
    assert(after.blocked[after.blocked.len() - 1].0 == f.current());
}

pub(crate) proof fn lemma_signal_is_found(kind: TransportKind, signal: FailureSignal)
    ensures
        first_signal(seq![(kind, signal)], kind) == Some(signal),
{
    reveal_with_fuel(first_signal, 2);
    assert(seq![(kind, signal)].drop_last() =~= seq![]);
}

/// While the transport in use fails, a fresh engine goes down a chain without
/// repetitions, one transport for each failure, and stays at its end.
pub proof fn law_outage_marches_down(
    chain: Seq<TransportKind>,
    outage: Seq<(FailureSignal, u64)>,
)
    requires
        chain.len() > 0,
        chain.no_duplicates(),
    ensures
        ({
            let after = FallbackView::fresh(chain).failing(outage);
            let at = if outage.len() < chain.len() {
                outage.len() as int
            } else {
                chain.len() - 1
            };
            &&& after.chain == chain
            &&& after.current_index == at
            &&& after.current() == chain[at]
            &&& forall|i: int|
                0 <= i < after.blocked.len() ==> chain.take(at).contains(
                    (#[trigger] after.blocked[i]).0,
                )
        }),
    decreases outage.len(),
{
    if outage.len() > 0 {
        let earlier = outage.drop_last();
        law_outage_marches_down(chain, earlier);
        let before = FallbackView::fresh(chain).failing(earlier);
        let at = before.current_index;
        let signals = seq![(before.current(), outage.last().0)];
        let now = outage.last().1;
        lemma_signal_is_found(before.current(), outage.last().0);
        assert forall|i: int| 0 <= i < before.blocked.len() implies (
        #[trigger] before.blocked[i]).0 != chain[at] by {
            let left = before.blocked[i].0;
            let k = choose|k: int| 0 <= k < chain.take(at).len() && chain.take(at)[k] == left;
            assert(chain[k] == left);
        }
        assert(!before.is_blocked(before.current(), now));
        if before.moves(signals, now) {
            let after = before.observed(signals, now);
            assert forall|i: int| 0 <= i < after.blocked.len() implies chain.take(at + 1).contains(
                (#[trigger] after.blocked[i]).0,
            ) by {
                let left = after.blocked[i].0;
                if i < before.blocked.len() {
                    assert(chain.take(at).contains(before.blocked[i].0));
                    let k = choose|k: int|
                        0 <= k < chain.take(at).len() && chain.take(at)[k] == left;
                    assert(chain.take(at + 1)[k] == left);
                } else {
                    assert(chain.take(at + 1)[at] == left);
                }
            }
        }
    }
}

/// An outage of every tunnel ends in a direct connection.
pub proof fn law_outage_ends_direct(outage: Seq<(FailureSignal, u64)>)
    requires
        outage.len() + 1 >= fallback_order().len(),
    ensures
        FallbackView::fresh(fallback_order()).failing(outage).current() == TransportKind::Direct,
{
    law_outage_marches_down(fallback_order(), outage);
}

/// However the chain is ordered anew, it ends in a direct connection.
pub proof fn law_reorder_keeps_direct_last(f: FallbackView, scores: Seq<(TransportKind, Reading)>)
    requires
        scores.len() > 0,
    ensures
        f.reordered(scores).chain.len() > 0,
        f.reordered(scores).chain.last() == TransportKind::Direct,
        f.reordered(scores).current_index == 0,
{
}

/// A failure of the transport in use moves the engine to the next one in the
/// chain, unless the transport is blocked or is the last; it is then blocked
/// for five seconds, for the first reason that was given.
pub proof fn law_own_failure_moves(
    f: FallbackView,
    signals: Seq<(TransportKind, FailureSignal)>,
    now: u64,
    i: int,
    later: u64,
)
    requires
        0 <= f.current_index,
        f.current_index + 1 < f.chain.len(),
        0 <= i < signals.len(),
        signals[i].0 == f.chain[f.current_index],
        forall|j: int| 0 <= j < i ==> (#[trigger] signals[j]).0 != f.chain[f.current_index],
        forall|k: int|
            0 <= k < f.blocked.len() && (#[trigger] f.blocked[k]).0 == f.chain[f.current_index]
                ==> f.blocked[k].3 <= now,
        now + 5_000 <= u64::MAX,
    ensures
        f.moves(signals, now),
        f.observed(signals, now).current() == f.chain[f.current_index + 1],
        f.observed(signals, now).chain == f.chain,
        f.observed(signals, now).blocked == f.blocked.push(
            (f.chain[f.current_index], signals[i].1, now, (now + 5_000) as u64),
        ),
        f.observed(signals, now).last_signals == signals,
        f.observed(signals, now).is_blocked(f.chain[f.current_index], later) <==> later < now
            + 5_000 || f.is_blocked(f.chain[f.current_index], later),
{
    let kind = f.chain[f.current_index];
    lemma_first_signal(signals, kind, i);
    let after = f.observed(signals, now);
    assert(after.blocked.last() == (kind, signals[i].1, now, (now + 5_000) as u64));
    if later < now + 5_000 {
        assert(after.blocked[after.blocked.len() - 1].0 == kind);
    }
    if f.is_blocked(kind, later) {
        let k = choose|k: int|
            0 <= k < f.blocked.len() && (#[trigger] f.blocked[k]).0 == kind && later
                < f.blocked[k].3;
        assert(after.blocked[k] == f.blocked[k]);
    }
    if after.is_blocked(kind, later) && later >= now + 5_000 {
        let k = choose|k: int|
            0 <= k < after.blocked.len() && (#[trigger] after.blocked[k]).0 == kind && later
                < after.blocked[k].3;
        assert(f.blocked[k] == after.blocked[k]);
    }
}

proof fn lemma_first_signal(
    signals: Seq<(TransportKind, FailureSignal)>,
    kind: TransportKind,
    i: int,
)
    requires
        0 <= i < signals.len(),
        signals[i].0 == kind,
        forall|j: int| 0 <= j < i ==> (#[trigger] signals[j]).0 != kind,
    ensures
        first_signal(signals, kind) == Some(signals[i].1),
    decreases signals.len(),
{
    let front = signals.drop_last();
    if i < front.len() {
        assert(front[i] == signals[i]);
        assert forall|j: int| 0 <= j < i implies (#[trigger] front[j]).0 != kind by {
            assert(signals[j].0 != kind);
        }
        lemma_first_signal(front, kind, i);
    } else {
        assert forall|j: int| 0 <= j < front.len() implies (#[trigger] front[j]).0 != kind by {
            assert(signals[j].0 != kind);
        }
        lemma_no_signal(front, kind);
    }
}

/// While the transport in use is blocked, nothing moves the engine.
pub proof fn law_blocked_transport_stays(
    f: FallbackView,
    signals: Seq<(TransportKind, FailureSignal)>,
    now: u64,
    k: int,
)
    requires
        0 <= f.current_index < f.chain.len(),
        0 <= k < f.blocked.len(),
        f.blocked[k].0 == f.chain[f.current_index],
        now < f.blocked[k].3,
    ensures
        !f.moves(signals, now),
        f.observed(signals, now).current_index == f.current_index,
        f.observed(signals, now).blocked == f.blocked,
        f.observed(signals, now).chain == f.chain,
{
}

/// A ranking becomes the chain as it is, but for the direct connection, which
/// goes to the end, where it is added if it is not ranked.
pub proof fn law_chain_is_the_ranking(kinds: Seq<TransportKind>)
    requires
        kinds.no_duplicates(),
    ensures
        chain_for(kinds) == kinds.filter(|k: TransportKind| k != TransportKind::Direct).push(
            TransportKind::Direct,
        ),
{
    lemma_without_direct(kinds);
    let others = |k: TransportKind| k != TransportKind::Direct;
    let rest = kinds.filter(others);
    if rest.len() > 0 {
        kinds.lemma_filter_pred(others, rest.len() - 1);
    }
}

proof fn lemma_without_direct(kinds: Seq<TransportKind>)
    requires
        kinds.no_duplicates(),
    ensures
        without_first_direct(kinds) == kinds.filter(|k: TransportKind| k != TransportKind::Direct),
    decreases kinds.len(),
{
    let others = |k: TransportKind| k != TransportKind::Direct;
    reveal(Seq::filter);
    if kinds.len() > 0 {
        let rest = kinds.drop_first();
        assert(kinds =~= seq![kinds[0]] + rest);
        assert forall|i: int, j: int|
            0 <= i < rest.len() && 0 <= j < rest.len() && i != j implies rest[i] != rest[j] by {
            assert(kinds[i + 1] != kinds[j + 1]);
        }
        Seq::filter_distributes_over_add(seq![kinds[0]], rest, others);
        assert(seq![kinds[0]].drop_last() =~= seq![]);
        assert(seq![kinds[0]].filter(others) =~= (if others(kinds[0]) {
            seq![kinds[0]]
        } else {
            seq![]
        })) by {
            assert(seq![kinds[0]].drop_last().filter(others) =~= seq![]);
        }
        if kinds[0] == TransportKind::Direct {
            assert forall|i: int| 0 <= i < rest.len() implies others(#[trigger] rest[i]) by {
                assert(kinds[i + 1] != kinds[0]);
            }
            lemma_nothing_filtered(rest);
            assert(seq![] + rest =~= rest);
        } else {
            lemma_without_direct(rest);
        }
    }
}

proof fn lemma_nothing_filtered(kinds: Seq<TransportKind>)
    requires
        forall|i: int| 0 <= i < kinds.len() ==> #[trigger] kinds[i] != TransportKind::Direct,
    ensures
        kinds.filter(|k: TransportKind| k != TransportKind::Direct) == kinds,
    decreases kinds.len(),
{
    reveal(Seq::filter);
    if kinds.len() > 0 {
        lemma_nothing_filtered(kinds.drop_last());
        assert(kinds[kinds.len() - 1] != TransportKind::Direct);
        assert(kinds.drop_last().push(kinds.last()) =~= kinds);
    }
}

/// Ordering the chain anew by scores starts it over with what ranks highest,
/// and forgets neither blocks nor signals; without scores nothing changes.
pub proof fn law_reorder_starts_over(f: FallbackView, scores: Seq<(TransportKind, Reading)>)
    ensures
        scores.len() == 0 ==> f.reordered(scores) == f,
        f.reordered(scores).blocked == f.blocked,
        f.reordered(scores).last_signals == f.last_signals,
        scores.len() > 0 ==> f.reordered(scores).current_index == 0,
        scores.len() > 0 && kinds_of(crate::ranking::ranked(scores)).no_duplicates()
            ==> f.reordered(scores).chain == kinds_of(crate::ranking::ranked(scores)).filter(
            |k: TransportKind| k != TransportKind::Direct,
        ).push(TransportKind::Direct),
{
    if scores.len() > 0 && kinds_of(crate::ranking::ranked(scores)).no_duplicates() {
        law_chain_is_the_ranking(kinds_of(crate::ranking::ranked(scores)));
    }
}

/// The signals that were seen last are remembered, whether they moved the
/// chain or not; the chain itself stays.
pub proof fn law_signals_are_remembered(
    f: FallbackView,
    signals: Seq<(TransportKind, FailureSignal)>,
    now: u64,
)
    ensures
        f.observed(signals, now).last_signals == signals,
        f.observed(signals, now).chain == f.chain,
        f.blocked.is_prefix_of(f.observed(signals, now).blocked),
{
}

} // verus!
