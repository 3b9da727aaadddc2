//! Control operations wait in a queue and go out in batches when there is a
//! connection.
use vstd::prelude::*;

use crate::control::{ControlOp, ControlOpKind, ControlOpView};
use crate::text::same;
use crate::views::{view_of, views};
use crate::TimestampMs;

verus! {

/// How far synchronization has come, for one operation or for the queue.
#[derive(Clone, Copy, Debug, PartialEq, Eq, Structural)]
pub enum SyncState {
    LocalOnly,
    Pending,
    Syncing,
    Synced,
    Failed,
    Retrying,
}

impl Default for SyncState {
    fn default() -> (r: SyncState)
        ensures
            r == SyncState::LocalOnly,
    {
        SyncState::LocalOnly
    }
}

impl SyncState {
    pub open spec fn name(self) -> Seq<char> {
        match self {
            SyncState::LocalOnly => "LOCAL_ONLY"@,
            SyncState::Pending => "PENDING"@,
            SyncState::Syncing => "SYNCING"@,
            SyncState::Synced => "SYNCED"@,
            SyncState::Failed => "FAILED"@,
            SyncState::Retrying => "RETRYING"@,
        }
    }

    /// Whether an operation in this state is to be sent.
    pub open spec fn waits(self) -> bool {
        self == SyncState::LocalOnly || self == SyncState::Pending || self == SyncState::Retrying
    }

    pub fn as_str(self) -> (r: &'static str)
        ensures
            r@ == self.name(),
    {
        match self {
            SyncState::LocalOnly => "LOCAL_ONLY",
            SyncState::Pending => "PENDING",
            SyncState::Syncing => "SYNCING",
            SyncState::Synced => "SYNCED",
            SyncState::Failed => "FAILED",
            SyncState::Retrying => "RETRYING",
        }
    }

    fn is_waiting(self) -> (r: bool)
        ensures
            r == self.waits(),
    {
        matches!(self, SyncState::LocalOnly | SyncState::Pending | SyncState::Retrying)
    }
}

/// An operation in the queue.
#[derive(Debug)]
pub struct SyncItem {
    pub op: ControlOp,
    pub state: SyncState,
    pub attempts: u32,
    pub queued_at: TimestampMs,
    pub last_attempt_at: Option<TimestampMs>,
}

pub struct SyncItemView {
    pub op: ControlOpView,
    pub state: SyncState,
    pub attempts: u32,
    pub queued_at: TimestampMs,
    pub last_attempt_at: Option<TimestampMs>,
}

impl View for SyncItem {
    type V = SyncItemView;

    open spec fn view(&self) -> SyncItemView {
        SyncItemView {
            op: self.op@,
            state: self.state,
            attempts: self.attempts,
            queued_at: self.queued_at,
            last_attempt_at: self.last_attempt_at,
        }
    }
}

/// Operations that are sent together.
#[derive(Debug)]
pub struct SyncBatch {
    pub ops: Vec<ControlOp>,
    pub created_at: TimestampMs,
}

pub struct SyncBatchView {
    pub ops: Seq<ControlOpView>,
    pub created_at: TimestampMs,
}

impl View for SyncBatch {
    type V = SyncBatchView;

    open spec fn view(&self) -> SyncBatchView {
        SyncBatchView { ops: views(self.ops@), created_at: self.created_at }
    }
}

#[derive(Debug)]
pub struct SyncEngine {
    pub items: Vec<SyncItem>,
    pub state: SyncState,
    pub last_error: Option<String>,
    /// How many operations were acknowledged.
    pub synced_count: u64,
    pub dropped_count: u64,
}

#[verifier::ext_equal]
pub struct SyncEngineView {
    pub items: Seq<SyncItemView>,
    pub state: SyncState,
    pub last_error: Option<Seq<char>>,
    pub synced_count: u64,
    pub dropped_count: u64,
}

impl View for SyncEngine {
    type V = SyncEngineView;

    open spec fn view(&self) -> SyncEngineView {
        SyncEngineView {
            items: views(self.items@),
            state: self.state,
            last_error: view_of(self.last_error),
            synced_count: self.synced_count,
            dropped_count: self.dropped_count,
        }
    }
}

impl Default for SyncEngine {
    fn default() -> (r: SyncEngine)
        ensures
            r@ == (SyncEngineView {
                items: seq![],
                state: SyncState::LocalOnly,
                last_error: None,
                synced_count: 0,
                dropped_count: 0,
            }),
    {
        let r = SyncEngine {
            items: Vec::new(),
            state: SyncState::LocalOnly,
            last_error: None,
            synced_count: 0,
            dropped_count: 0,
        };
        assert(views(r.items@) =~= seq![]);
        r
    }
}

/// Whether an operation with the key is in the queue.
pub open spec fn queued(items: Seq<SyncItemView>, key: Seq<char>) -> bool {
    exists|i: int| 0 <= i < items.len() && (#[trigger] items[i]).op.idempotency_key == key
}

/// Whether an operation with the key is among those.
pub open spec fn carries(ops: Seq<ControlOpView>, key: Seq<char>) -> bool {
    exists|i: int| 0 <= i < ops.len() && (#[trigger] ops[i]).idempotency_key == key
}

/// The operations that wait, in the order of the queue.
pub open spec fn waiting(items: Seq<SyncItemView>) -> Seq<ControlOpView>
    decreases items.len(),
{
    if items.len() == 0 {
        seq![]
    } else {
        let rest = waiting(items.drop_last());
        if items.last().state.waits() {
            rest.push(items.last().op)
        } else {
            rest
        }
    }
}

/// At most the first `n`.
pub open spec fn at_most<T>(s: Seq<T>, n: nat) -> Seq<T> {
    if s.len() <= n {
        s
    } else {
        s.take(n as int)
    }
}

/// The item once it is on its way.
pub open spec fn sent(item: SyncItemView, now: TimestampMs) -> SyncItemView {
    SyncItemView {
        state: SyncState::Syncing,
        attempts: (item.attempts + 1) as u32,
        last_attempt_at: Some(now),
        ..item
    }
}

/// The item once its batch has failed.
pub open spec fn failed(item: SyncItemView, max_attempts: u32) -> SyncItemView {
    SyncItemView {
        state: if item.attempts >= max_attempts {
            SyncState::Failed
        } else {
            SyncState::Retrying
        },
        ..item
    }
}

/// The items that the batch does not carry.
pub open spec fn unsettled(items: Seq<SyncItemView>, ops: Seq<ControlOpView>) -> Seq<SyncItemView>
    decreases items.len(),
{
    if items.len() == 0 {
        seq![]
    } else {
        let rest = unsettled(items.drop_last(), ops);
        if carries(ops, items.last().op.idempotency_key) {
            rest
        } else {
            rest.push(items.last())
        }
    }
}

/// The items that are no telemetry.
pub open spec fn without_telemetry(items: Seq<SyncItemView>) -> Seq<SyncItemView>
    decreases items.len(),
{
    if items.len() == 0 {
        seq![]
    } else {
        let rest = without_telemetry(items.drop_last());
        if items.last().op.kind == ControlOpKind::TelemetryAck {
            rest
        } else {
            rest.push(items.last())
        }
    }
}

impl SyncEngineView {
    /// Each key stands in the queue once.
    pub open spec fn keys_distinct(self) -> bool {
        distinct_keys(self.items)
    }

    pub open spec fn enqueued(self, op: ControlOpView, now: TimestampMs) -> SyncEngineView {
        if queued(self.items, op.idempotency_key) {
            self
        } else {
            SyncEngineView {
                items: self.items.push(
                    SyncItemView {
                        op,
                        state: if self.state == SyncState::LocalOnly {
                            SyncState::LocalOnly
                        } else {
                            SyncState::Pending
                        },
                        attempts: 0,
                        queued_at: now,
                        last_attempt_at: None,
                    },
                ),
                ..self
            }
        }
    }

    pub open spec fn recovered(self) -> SyncEngineView {
        SyncEngineView {
            state: if self.state == SyncState::Failed {
                SyncState::Retrying
            } else {
                self.state
            },
            items: Seq::new(
                self.items.len(),
                |i: int|
                    if self.items[i].state == SyncState::LocalOnly {
                        SyncItemView { state: SyncState::Pending, ..self.items[i] }
                    } else {
                        self.items[i]
                    },
            ),
            ..self
        }
    }

    /// The operations that go out next.
    pub open spec fn next_batch(self, max_ops: usize) -> Seq<ControlOpView> {
        at_most(
            waiting(self.items),
            if max_ops == 0 {
                1
            } else {
                max_ops as nat
            },
        )
    }

    pub open spec fn batched(self, max_ops: usize, now: TimestampMs) -> SyncEngineView {
        let ops = self.next_batch(max_ops);
        if ops.len() == 0 {
            self
        } else {
            SyncEngineView {
                items: Seq::new(
                    self.items.len(),
                    |i: int|
                        if self.items[i].state.waits() && carries(
                            ops,
                            self.items[i].op.idempotency_key,
                        ) {
                            sent(self.items[i], now)
                        } else {
                            self.items[i]
                        },
                ),
                state: SyncState::Syncing,
                ..self
            }
        }
    }

    pub open spec fn synced(self, ops: Seq<ControlOpView>) -> SyncEngineView {
        let rest = unsettled(self.items, ops);
        SyncEngineView {
            items: rest,
            synced_count: (self.synced_count + ops.len()) as u64,
            state: if forall|i: int|
                0 <= i < rest.len() ==> (#[trigger] rest[i]).state == SyncState::Synced {
                SyncState::Synced
            } else {
                SyncState::Pending
            },
            ..self
        }
    }

    pub open spec fn items_after_failure(
        self,
        ops: Seq<ControlOpView>,
        max_attempts: u32,
    ) -> Seq<SyncItemView> {
        Seq::new(
            self.items.len(),
            |i: int|
                if carries(ops, self.items[i].op.idempotency_key) {
                    failed(self.items[i], max_attempts)
                } else {
                    self.items[i]
                },
        )
    }

    pub open spec fn after_failure(
        self,
        ops: Seq<ControlOpView>,
        error: Seq<char>,
        max_attempts: u32,
    ) -> SyncEngineView {
        let items = self.items_after_failure(ops, max_attempts);
        SyncEngineView {
            items,
            last_error: Some(error),
            state: if exists|i: int|
                0 <= i < items.len() && (#[trigger] items[i]).state == SyncState::Failed {
                SyncState::Failed
            } else {
                SyncState::Retrying
            },
            ..self
        }
    }

    pub open spec fn telemetry_dropped(self) -> SyncEngineView {
        let rest = without_telemetry(self.items);
        SyncEngineView {
            items: rest,
            dropped_count: (self.dropped_count + (self.items.len() - rest.len())) as u64,
            ..self
        }
    }
}

/// Whether one of the operations has the key.
fn has_key(ops: &Vec<ControlOp>, key: &str) -> (r: bool)
    ensures
        r == carries(views(ops@), key@),
{
    let mut i: usize = 0;
    while i < ops.len()
        invariant
            i <= ops@.len(),
            forall|j: int| 0 <= j < i ==> (#[trigger] views(ops@)[j]).idempotency_key != key@,
        decreases ops@.len() - i,
    {
        if same(ops[i].idempotency_key.0.as_str(), key) {
            assert(views(ops@)[i as int].idempotency_key == key@);
            return true;
        }
        i += 1;
    }
    false
}

impl SyncEngine {
    /// Queues the operation, unless one with its key is there. Says whether
    /// it was queued.
    pub fn enqueue(&mut self, op: ControlOp, now: TimestampMs) -> (r: bool)
        ensures
            r == !queued(old(self)@.items, op@.idempotency_key),
            final(self)@ == old(self)@.enqueued(op@, now),
    {
        let mut i: usize = 0;
        while i < self.items.len()
            invariant
                i <= self.items@.len(),
                *self == *old(self),
                forall|j: int|
                    0 <= j < i ==> (#[trigger] self@.items[j]).op.idempotency_key
                        != op@.idempotency_key,
            decreases self.items@.len() - i,
        {
            if same(self.items[i].op.idempotency_key.0.as_str(), op.idempotency_key.0.as_str()) {
                assert(self@.items[i as int].op.idempotency_key == op@.idempotency_key);
                return false;
            }
            i += 1;
        }
        let state = if self.state == SyncState::LocalOnly {
            SyncState::LocalOnly
        } else {
            SyncState::Pending
        };
        self.items.push(
            SyncItem { op, state, attempts: 0, queued_at: now, last_attempt_at: None },
        );
        assert(self@ =~= old(self)@.enqueued(op@, now));
        true
    }

    /// The network is back: what was local waits to be sent.
    pub fn network_recovered(&mut self)
        ensures
            final(self)@ == old(self)@.recovered(),
    {
        if self.state == SyncState::Failed {
            self.state = SyncState::Retrying;
        }
        let ghost before = self@;
        let mut i: usize = 0;
        while i < self.items.len()
            invariant
                i <= self.items@.len(),
                self.items@.len() == before.items.len(),
                self@.state == before.state,
                self@.last_error == before.last_error,
                self@.synced_count == before.synced_count,
                self@.dropped_count == before.dropped_count,
                forall|j: int|
                    0 <= j < before.items.len() ==> #[trigger] self@.items[j] == (if j < i
                        && before.items[j].state == SyncState::LocalOnly {
                        SyncItemView { state: SyncState::Pending, ..before.items[j] }
                    } else {
                        before.items[j]
                    }),
            decreases self.items@.len() - i,
        {
            let ghost earlier = self@;
            assert(self@.items[i as int] == before.items[i as int]);
            if self.items[i].state == SyncState::LocalOnly {
                self.items[i].state = SyncState::Pending;
            }
            assert forall|j: int|
                0 <= j < before.items.len() implies #[trigger] self@.items[j] == (if j < i + 1
                && before.items[j].state == SyncState::LocalOnly {
                SyncItemView { state: SyncState::Pending, ..before.items[j] }
            } else {
                before.items[j]
            }) by {
                assert(j != i ==> self@.items[j] == earlier.items[j]);
            }
            i += 1;
        }
        assert(self@ =~= old(self)@.recovered());
    }

    /// Whether a batch may be sent.
    pub fn connectivity_ok(&self) -> (r: bool)
        ensures
            r == (self@.state.waits() || self@.state == SyncState::Synced),
    {
        self.state.is_waiting() || self.state == SyncState::Synced
    }

    /// Puts the first operations that wait, at least one and at most
    /// `max_ops`, into a batch; `None` where none waits.
    pub fn build_batch(&mut self, max_ops: usize, now: TimestampMs) -> (r: Option<SyncBatch>)
        requires
            forall|i: int|
                0 <= i < old(self)@.items.len() && (#[trigger] old(self)@.items[i]).state.waits()
                    ==> old(self)@.items[i].attempts < u32::MAX,
        ensures
            (match r {
                Some(b) => b@.ops == old(self)@.next_batch(max_ops) && b@.ops.len() > 0
                    && b@.created_at == now,
                None => old(self)@.next_batch(max_ops).len() == 0,
            }),
            final(self)@ == old(self)@.batched(max_ops, now),
    {
        let most: usize = if max_ops == 0 {
            1
        } else {
            max_ops
        };
        let mut ops: Vec<ControlOp> = Vec::new();
        let ghost before = self@;
        let mut i: usize = 0;
        assert(before.items.take(0) =~= seq![]);
        assert(views(ops@) =~= seq![]);
        while i < self.items.len()
            invariant
                i <= self.items@.len(),
                self@ == before,
                *self == *old(self),
                most > 0,
                views(ops@) == at_most(waiting(before.items.take(i as int)), most as nat),
            decreases self.items@.len() - i,
        {
            assert(before.items.take(i + 1).drop_last() =~= before.items.take(i as int));
            assert(before.items.take(i + 1).last() == before.items[i as int]);
            let ghost so_far = waiting(before.items.take(i as int));
            let ghost taken = ops@;
            if self.items[i].state.is_waiting() && ops.len() < most {
                ops.push(self.items[i].op.clone());
                assert(views(ops@) =~= views(taken).push(before.items[i as int].op));
            }
            assert(views(ops@) =~= at_most(waiting(before.items.take(i + 1)), most as nat));
            i += 1;
        }
        assert(before.items.take(i as int) =~= before.items);
        assert(views(ops@) == before.next_batch(max_ops));
        if ops.len() == 0 {
            return None;
        }
        let mut i: usize = 0;
        let ghost batch = views(ops@);
        while i < self.items.len()
            invariant
                i <= self.items@.len(),
                batch == views(ops@),
                self.items@.len() == before.items.len(),
                self@.state == before.state,
                self@.last_error == before.last_error,
                self@.synced_count == before.synced_count,
                self@.dropped_count == before.dropped_count,
                forall|j: int|
                    0 <= j < before.items.len() && (#[trigger] before.items[j]).state.waits()
                        ==> before.items[j].attempts < u32::MAX,
                forall|j: int|
                    0 <= j < before.items.len() ==> #[trigger] self@.items[j] == (if j < i
                        && before.items[j].state.waits() && carries(
                        batch,
                        before.items[j].op.idempotency_key,
                    ) {
                        sent(before.items[j], now)
                    } else {
                        before.items[j]
                    }),
            decreases self.items@.len() - i,
        {
            let ghost earlier = self@;
            assert(self@.items[i as int] == before.items[i as int]);
            if self.items[i].state.is_waiting() && has_key(
                &ops,
                self.items[i].op.idempotency_key.0.as_str(),
            ) {
                self.items[i].state = SyncState::Syncing;
                self.items[i].attempts = self.items[i].attempts + 1;
                self.items[i].last_attempt_at = Some(now);
                assert(self@.items[i as int] == sent(before.items[i as int], now));
            }
            assert forall|j: int|
                0 <= j < before.items.len() implies #[trigger] self@.items[j] == (if j < i + 1
                && before.items[j].state.waits() && carries(
                batch,
                before.items[j].op.idempotency_key,
            ) {
                sent(before.items[j], now)
            } else {
                before.items[j]
            }) by {
                assert(j != i ==> self@.items[j] == earlier.items[j]);
            }
            i += 1;
        }
        assert(self@.items =~= before.batched(max_ops, now).items);
        self.state = SyncState::Syncing;
        assert(self@ =~= before.batched(max_ops, now));
        Some(SyncBatch { ops, created_at: now })
    }

    /// The batch was acknowledged: its operations leave the queue.
    pub fn mark_synced(&mut self, batch: &SyncBatch)
        requires
            old(self)@.synced_count + batch@.ops.len() <= u64::MAX,
        ensures
            final(self)@ == old(self)@.synced(batch@.ops),
    {
        let ghost before = self@;
        let mut items: Vec<SyncItem> = Vec::new();
        std::mem::swap(&mut items, &mut self.items);
        let ghost all = items@;
        let mut all_synced = true;
        assert(views(all) == before.items);
        let mut rest: Vec<SyncItem> = Vec::new();
        assert(views(rest@) =~= seq![]);
        assert(before.items.take(0) =~= seq![]);
        for item in it: items
            invariant
                it.seq() == all,
                views(all) == before.items,
                views(rest@) == unsettled(before.items.take(it.index() as int), batch@.ops),
                all_synced == (forall|j: int|
                    0 <= j < rest@.len() ==> (#[trigger] views(rest@)[j]).state
                        == SyncState::Synced),
        {
            let ghost i = it.index() as int;
            assert(item == all[i]);
            assert(item@ == before.items[i]);
            assert(before.items.take(i + 1).drop_last() =~= before.items.take(i));
            assert(before.items.take(i + 1).last() == before.items[i]);
            if !has_key(&batch.ops, item.op.idempotency_key.0.as_str()) {
                let synced = item.state == SyncState::Synced;
                let ghost earlier = rest@;
                rest.push(item);
                assert(views(rest@) =~= views(earlier).push(item@));
                assert(views(rest@)[earlier.len() as int].state == item.state);
                assert forall|j: int|
                    #![trigger views(rest@)[j]]
                    #![trigger views(earlier)[j]]
                    0 <= j < earlier.len() implies views(rest@)[j] == views(earlier)[j] by {}
                all_synced = all_synced && synced;
            }
        }
        assert(before.items.take(all.len() as int) =~= before.items);
        self.items = rest;
        self.synced_count = self.synced_count + batch.ops.len() as u64;
        self.state = if all_synced {
            SyncState::Synced
        } else {
            SyncState::Pending
        };
        assert(self@ =~= before.synced(batch@.ops));
    }

    /// The batch failed: its operations are to be tried again, or are given
    /// up after `max_attempts`.
    pub fn mark_failed(&mut self, batch: &SyncBatch, error: String, max_attempts: u32)
        ensures
            final(self)@ == old(self)@.after_failure(batch@.ops, error@, max_attempts),
    {
        let ghost before = self@;
        self.last_error = Some(error);
        let ghost after = before.items_after_failure(batch@.ops, max_attempts);
        let mut any_failed = false;
        let mut i: usize = 0;
        while i < self.items.len()
            invariant
                i <= self.items@.len(),
                self.items@.len() == before.items.len(),
                after == before.items_after_failure(batch@.ops, max_attempts),
                self@.state == before.state,
                self@.last_error == Some(error@),
                self@.synced_count == before.synced_count,
                self@.dropped_count == before.dropped_count,
                forall|j: int|
                    0 <= j < before.items.len() ==> #[trigger] self@.items[j] == (if j < i {
                        after[j]
                    } else {
                        before.items[j]
                    }),
                any_failed == (exists|j: int|
                    0 <= j < i && (#[trigger] after[j]).state == SyncState::Failed),
            decreases self.items@.len() - i,
        {
            let ghost earlier = self@;
            assert(self@.items[i as int] == before.items[i as int]);
            if has_key(&batch.ops, self.items[i].op.idempotency_key.0.as_str()) {
                self.items[i].state = if self.items[i].attempts >= max_attempts {
                    SyncState::Failed
                } else {
                    SyncState::Retrying
                };
            }
            assert(self@.items[i as int] == after[i as int]);
            if self.items[i].state == SyncState::Failed {
                any_failed = true;
                assert(after[i as int].state == SyncState::Failed);
            }
            assert forall|j: int|
                0 <= j < before.items.len() implies #[trigger] self@.items[j] == (if j < i + 1 {
                after[j]
            } else {
                before.items[j]
            }) by {
                assert(j != i ==> self@.items[j] == earlier.items[j]);
            }
            i += 1;
        }
        assert(self@.items =~= after);
        self.state = if any_failed {
            SyncState::Failed
        } else {
            SyncState::Retrying
        };
        assert(self@ =~= before.after_failure(batch@.ops, error@, max_attempts));
    }

    /// Drops the operations that only acknowledge telemetry.
    pub fn drop_telemetry(&mut self)
        requires
            old(self)@.dropped_count + old(self)@.items.len() - without_telemetry(
                old(self)@.items,
            ).len() <= u64::MAX,
        ensures
            final(self)@ == old(self)@.telemetry_dropped(),
    {
        let ghost before = self@;
        let mut items: Vec<SyncItem> = Vec::new();
        std::mem::swap(&mut items, &mut self.items);
        let count: usize = items.len();
        let ghost all = items@;
        assert(views(all) == before.items);
        let mut rest: Vec<SyncItem> = Vec::new();
        assert(views(rest@) =~= seq![]);
        assert(before.items.take(0) =~= seq![]);
        for item in it: items
            invariant
                it.seq() == all,
                views(all) == before.items,
                rest@.len() <= it.index(),
                views(rest@) == without_telemetry(before.items.take(it.index() as int)),
        {
            let ghost i = it.index() as int;
            assert(item == all[i]);
            assert(before.items.take(i + 1).drop_last() =~= before.items.take(i));
            assert(before.items.take(i + 1).last() == before.items[i]);
            if item.op.kind != ControlOpKind::TelemetryAck {
                let ghost earlier = rest@;
                rest.push(item);
                assert(views(rest@) =~= views(earlier).push(item@));
            }
        }
        assert(before.items.take(all.len() as int) =~= before.items);
        self.dropped_count = self.dropped_count + (count - rest.len()) as u64;
        self.items = rest;
        assert(self@ =~= before.telemetry_dropped());
    }

    pub fn pending_count(&self) -> (r: usize)
        ensures
            r == self@.items.len(),
    {
        self.items.len()
    }
}

/// Whether every item of the one queue stands in the other.
pub open spec fn drawn_from(part: Seq<SyncItemView>, items: Seq<SyncItemView>) -> bool {
    forall|i: int|
        0 <= i < part.len() ==> exists|j: int|
            0 <= j < items.len() && #[trigger] part[i] == #[trigger] items[j]
}

proof fn lemma_unsettled(items: Seq<SyncItemView>, ops: Seq<ControlOpView>)
    ensures
        drawn_from(unsettled(items, ops), items),
        forall|i: int|
            0 <= i < unsettled(items, ops).len() ==> !carries(
                ops,
                (#[trigger] unsettled(items, ops)[i]).op.idempotency_key,
            ),
        forall|j: int|
            0 <= j < items.len() && !carries(ops, (#[trigger] items[j]).op.idempotency_key)
                ==> unsettled(items, ops).contains(items[j]),
    decreases items.len(),
{
    if items.len() > 0 {
        let front = items.drop_last();
        lemma_unsettled(front, ops);
        let rest = unsettled(front, ops);
        let all = unsettled(items, ops);
        assert forall|i: int| 0 <= i < all.len() implies exists|j: int|
            0 <= j < items.len() && #[trigger] all[i] == #[trigger] items[j] by {
            if i < rest.len() {
                assert(rest[i] == all[i]);
                let j = choose|j: int| 0 <= j < front.len() && rest[i] == #[trigger] front[j];
                assert(all[i] == items[j]);
            } else {
                assert(all[i] == items[items.len() - 1]);
            }
        }
        assert forall|j: int|
            0 <= j < items.len() && !carries(
                ops,
                (#[trigger] items[j]).op.idempotency_key,
            ) implies all.contains(items[j]) by {
            if j < front.len() {
                assert(front[j] == items[j]);
                let i = choose|i: int| 0 <= i < rest.len() && rest[i] == front[j];
                assert(all[i] == items[j]);
            } else {
                assert(all[all.len() - 1] == items[j]);
            }
        }
    }
}

proof fn lemma_without_telemetry(items: Seq<SyncItemView>)
    ensures
        drawn_from(without_telemetry(items), items),
    decreases items.len(),
{
    if items.len() > 0 {
        let front = items.drop_last();
        lemma_without_telemetry(front);
        let rest = without_telemetry(front);
        let all = without_telemetry(items);
        assert forall|i: int| 0 <= i < all.len() implies exists|j: int|
            0 <= j < items.len() && #[trigger] all[i] == #[trigger] items[j] by {
            if i < rest.len() {
                assert(rest[i] == all[i]);
                let j = choose|j: int| 0 <= j < front.len() && rest[i] == #[trigger] front[j];
                assert(all[i] == items[j]);
            } else {
                assert(all[i] == items[items.len() - 1]);
            }
        }
    }
}

/// Whether no two items have a key in common.
pub open spec fn distinct_keys(items: Seq<SyncItemView>) -> bool {
    forall|i: int, j: int|
        0 <= i < j < items.len() ==> (#[trigger] items[i]).op.idempotency_key != (
        #[trigger] items[j]).op.idempotency_key
}

proof fn lemma_unsettled_distinct(items: Seq<SyncItemView>, ops: Seq<ControlOpView>)
    requires
        distinct_keys(items),
    ensures
        distinct_keys(unsettled(items, ops)),
    decreases items.len(),
{
    if items.len() > 0 {
        let front = items.drop_last();
        assert(distinct_keys(front)) by {
            assert forall|i: int, j: int| 0 <= i < j < front.len() implies (
            #[trigger] front[i]).op.idempotency_key != (#[trigger] front[j]).op.idempotency_key by {
                assert(items[i].op.idempotency_key != items[j].op.idempotency_key);
            }
        }
        lemma_unsettled_distinct(front, ops);
        lemma_unsettled(front, ops);
        lemma_last_apart(unsettled(front, ops), unsettled(items, ops), items);
    }
}

proof fn lemma_without_telemetry_distinct(items: Seq<SyncItemView>)
    requires
        distinct_keys(items),
    ensures
        distinct_keys(without_telemetry(items)),
    decreases items.len(),
{
    if items.len() > 0 {
        let front = items.drop_last();
        assert(distinct_keys(front)) by {
            assert forall|i: int, j: int| 0 <= i < j < front.len() implies (
            #[trigger] front[i]).op.idempotency_key != (#[trigger] front[j]).op.idempotency_key by {
                assert(items[i].op.idempotency_key != items[j].op.idempotency_key);
            }
        }
        lemma_without_telemetry_distinct(front);
        lemma_without_telemetry(front);
        lemma_last_apart(without_telemetry(front), without_telemetry(items), items);
    }
}

/// A part of a queue without its last item can take that item.
proof fn lemma_last_apart(
    rest: Seq<SyncItemView>,
    all: Seq<SyncItemView>,
    items: Seq<SyncItemView>,
)
    requires
        items.len() > 0,
        distinct_keys(items),
        distinct_keys(rest),
        drawn_from(rest, items.drop_last()),
        all == rest || all == rest.push(items.last()),
    ensures
        distinct_keys(all),
{
    let front = items.drop_last();
    let n = items.len() - 1;
    assert forall|i: int, j: int| 0 <= i < j < all.len() implies (
    #[trigger] all[i]).op.idempotency_key != (#[trigger] all[j]).op.idempotency_key by {
        assert(all[i] == rest[i]);
        if j < rest.len() {
            assert(all[j] == rest[j]);
        } else {
            let k = choose|k: int| 0 <= k < front.len() && rest[i] == #[trigger] front[k];
            assert(items[k].op.idempotency_key != items[n].op.idempotency_key);
        }
    }
}

/// An operation is never queued twice: whatever is done, each key stands in
/// the queue at most once.
pub proof fn law_keys_stay_distinct(
    engine: SyncEngineView,
    op: ControlOpView,
    ops: Seq<ControlOpView>,
    error: Seq<char>,
    max_ops: usize,
    max_attempts: u32,
    now: TimestampMs,
)
    requires
        engine.keys_distinct(),
    ensures
        engine.enqueued(op, now).keys_distinct(),
        engine.recovered().keys_distinct(),
        engine.batched(max_ops, now).keys_distinct(),
        engine.synced(ops).keys_distinct(),
        engine.after_failure(ops, error, max_attempts).keys_distinct(),
        engine.telemetry_dropped().keys_distinct(),
{
    assert(distinct_keys(engine.items));
    lemma_unsettled_distinct(engine.items, ops);
    lemma_without_telemetry_distinct(engine.items);
    assert(distinct_keys(engine.synced(ops).items));
    assert(distinct_keys(engine.telemetry_dropped().items));
    assert(engine.items_after_failure(ops, max_attempts) == engine.after_failure(
        ops,
        error,
        max_attempts,
    ).items);
}

/// An acknowledged batch leaves the queue, and nothing else does.
pub proof fn law_acknowledged_ops_leave(
    engine: SyncEngineView,
    ops: Seq<ControlOpView>,
    key: Seq<char>,
)
    ensures
        queued(engine.synced(ops).items, key) <==> queued(engine.items, key) && !carries(ops, key),
{
    lemma_unsettled(engine.items, ops);
    let rest = unsettled(engine.items, ops);
    if queued(rest, key) {
        let i = choose|i: int| 0 <= i < rest.len() && (#[trigger] rest[i]).op.idempotency_key == key;
        let j = choose|j: int|
            0 <= j < engine.items.len() && rest[i] == #[trigger] engine.items[j];
        assert(engine.items[j].op.idempotency_key == key);
    }
    if queued(engine.items, key) && !carries(ops, key) {
        let j = choose|j: int|
            0 <= j < engine.items.len() && (#[trigger] engine.items[j]).op.idempotency_key == key;
        let i = choose|i: int| 0 <= i < rest.len() && rest[i] == engine.items[j];
        assert(rest[i].op.idempotency_key == key);
    }
}

/// Nothing is lost before it is acknowledged or dropped: an operation that is
/// queued stays queued when others are, when the network comes back, when a
/// batch goes out and when it fails.
pub proof fn law_queued_ops_stay(
    engine: SyncEngineView,
    op: ControlOpView,
    ops: Seq<ControlOpView>,
    error: Seq<char>,
    max_ops: usize,
    max_attempts: u32,
    now: TimestampMs,
    key: Seq<char>,
)
    requires
        queued(engine.items, key),
    ensures
        queued(engine.enqueued(op, now).items, key),
        queued(engine.recovered().items, key),
        queued(engine.batched(max_ops, now).items, key),
        queued(engine.after_failure(ops, error, max_attempts).items, key),
{
    let i = choose|i: int|
        0 <= i < engine.items.len() && (#[trigger] engine.items[i]).op.idempotency_key == key;
    assert(engine.enqueued(op, now).items[i].op.idempotency_key == key);
    assert(engine.recovered().items[i].op.idempotency_key == key);
    assert(engine.batched(max_ops, now).items[i].op.idempotency_key == key);
    assert(engine.after_failure(ops, error, max_attempts).items[i].op.idempotency_key == key);
}

/// A batch holds only operations that wait in the queue, one at least where
/// one waits, and never more than asked for.
pub proof fn law_batches_are_bounded(engine: SyncEngineView, max_ops: usize)
    ensures
        engine.next_batch(max_ops).len() <= (if max_ops == 0 {
            1
        } else {
            max_ops as int
        }),
        engine.next_batch(max_ops).len() == 0 <==> forall|i: int|
            0 <= i < engine.items.len() ==> !(#[trigger] engine.items[i]).state.waits(),
        forall|k: int|
            0 <= k < engine.next_batch(max_ops).len() ==> exists|i: int|
                0 <= i < engine.items.len() && (#[trigger] engine.items[i]).state.waits()
                    && engine.items[i].op == #[trigger] engine.next_batch(max_ops)[k],
{
    lemma_waiting(engine.items);
    let ops = engine.next_batch(max_ops);
    assert forall|k: int| 0 <= k < ops.len() implies exists|i: int|
        0 <= i < engine.items.len() && (#[trigger] engine.items[i]).state.waits()
            && engine.items[i].op == #[trigger] ops[k] by {
        assert(ops[k] == waiting(engine.items)[k]);
    }
}

proof fn lemma_waiting(items: Seq<SyncItemView>)
    ensures
        waiting(items).len() == 0 <==> forall|i: int|
            0 <= i < items.len() ==> !(#[trigger] items[i]).state.waits(),
        forall|k: int|
            0 <= k < waiting(items).len() ==> exists|i: int|
                0 <= i < items.len() && (#[trigger] items[i]).state.waits() && items[i].op
                    == #[trigger] waiting(items)[k],
    decreases items.len(),
{
    if items.len() > 0 {
        let front = items.drop_last();
        lemma_waiting(front);
        let n = items.len() - 1;
        assert(items[n] == items.last());
        let ops = waiting(items);
        assert forall|k: int| 0 <= k < ops.len() implies exists|i: int|
            0 <= i < items.len() && (#[trigger] items[i]).state.waits() && items[i].op
                == #[trigger] ops[k] by {
            if k < waiting(front).len() {
                assert(ops[k] == waiting(front)[k]);
                let i = choose|i: int|
                    0 <= i < front.len() && (#[trigger] front[i]).state.waits() && front[i].op
                        == waiting(front)[k];
                assert(items[i] == front[i]);
            } else {
                assert(items[n].op == ops[k]);
            }
        }
        if ops.len() == 0 {
            assert forall|i: int| 0 <= i < items.len() implies !(
            #[trigger] items[i]).state.waits() by {
                if i < n {
                    assert(items[i] == front[i]);
                }
            }
        } else if forall|i: int| 0 <= i < items.len() ==> !(#[trigger] items[i]).state.waits() {
            assert forall|i: int| 0 <= i < front.len() implies !(
            #[trigger] front[i]).state.waits() by {
                assert(items[i] == front[i]);
            }
        }
    }
}

/// Each batch that fails counts as an attempt of the operations in it; an
/// operation is tried again until the attempts are used up, and is then given
/// up.
pub proof fn law_attempts_are_counted(
    engine: SyncEngineView,
    i: int,
    max_ops: usize,
    now: TimestampMs,
    error: Seq<char>,
    max_attempts: u32,
)
    requires
        0 <= i < engine.items.len(),
        engine.items[i].state.waits(),
        engine.items[i].attempts < u32::MAX,
        carries(engine.next_batch(max_ops), engine.items[i].op.idempotency_key),
    ensures
        ({
            let after = engine.batched(max_ops, now).after_failure(
                engine.next_batch(max_ops),
                error,
                max_attempts,
            );
            &&& after.items[i].op == engine.items[i].op
            &&& after.items[i].attempts == engine.items[i].attempts + 1
            &&& after.items[i].state == (if engine.items[i].attempts + 1 >= max_attempts {
                SyncState::Failed
            } else {
                SyncState::Retrying
            })
            &&& after.items[i].state == SyncState::Failed ==> after.state == SyncState::Failed
        }),
{
    let ops = engine.next_batch(max_ops);
    let sending = engine.batched(max_ops, now);
    assert(sending.items[i] == sent(engine.items[i], now));
    let after = sending.after_failure(ops, error, max_attempts);
    assert(after.items[i] == failed(sending.items[i], max_attempts));
}

/// Dropping telemetry keeps exactly what is not telemetry, in the order of the
/// queue, and counts what went.
pub proof fn law_only_telemetry_is_dropped(engine: SyncEngineView, item: SyncItemView)
    requires
        engine.dropped_count + engine.items.len() <= u64::MAX,
    ensures
        engine.telemetry_dropped().items == engine.items.filter(
            |i: SyncItemView| i.op.kind != ControlOpKind::TelemetryAck,
        ),
        engine.telemetry_dropped().items.contains(item) <==> engine.items.contains(item)
            && item.op.kind != ControlOpKind::TelemetryAck,
        engine.telemetry_dropped().items.len() + engine.telemetry_dropped().dropped_count
            == engine.items.len() + engine.dropped_count,
        engine.telemetry_dropped().state == engine.state,
        engine.telemetry_dropped().last_error == engine.last_error,
        engine.telemetry_dropped().synced_count == engine.synced_count,
{
    let keeps = |i: SyncItemView| i.op.kind != ControlOpKind::TelemetryAck;
    lemma_without_telemetry_filters(engine.items);
    lemma_filter_holds(engine.items, keeps, item);
    engine.items.lemma_filter_len(keeps);
}

proof fn lemma_without_telemetry_filters(items: Seq<SyncItemView>)
    ensures
        without_telemetry(items) == items.filter(
            |i: SyncItemView| i.op.kind != ControlOpKind::TelemetryAck,
        ),
    decreases items.len(),
{
    reveal(Seq::filter);
    if items.len() > 0 {
        lemma_without_telemetry_filters(items.drop_last());
    }
}

/// A filtered queue holds what the queue holds and the filter lets through.
proof fn lemma_filter_holds(
    items: Seq<SyncItemView>,
    keeps: spec_fn(SyncItemView) -> bool,
    item: SyncItemView,
)
    ensures
        items.filter(keeps).contains(item) <==> items.contains(item) && keeps(item),
{
    if items.filter(keeps).contains(item) {
        items.lemma_filter_contains_rev(keeps, item);
        let i = choose|i: int| 0 <= i < items.filter(keeps).len() && items.filter(keeps)[i] == item;
        items.lemma_filter_pred(keeps, i);
    }
    if items.contains(item) && keeps(item) {
        let i = choose|i: int| 0 <= i < items.len() && items[i] == item;
        items.lemma_filter_contains(keeps, i);
    }
}

/// An acknowledged batch takes exactly the operations with its keys out of the
/// queue, in whatever state they are; the others stay as they are and in order,
/// the acknowledged ones are counted, and an empty queue is synced.
pub proof fn law_acknowledgement_settles(
    engine: SyncEngineView,
    ops: Seq<ControlOpView>,
    item: SyncItemView,
)
    requires
        engine.synced_count + ops.len() <= u64::MAX,
    ensures
        engine.synced(ops).items == engine.items.filter(
            |i: SyncItemView|
                forall|k: int|
                    0 <= k < ops.len() ==> (#[trigger] ops[k]).idempotency_key
                        != i.op.idempotency_key,
        ),
        engine.synced(ops).items.contains(item) <==> engine.items.contains(item) && (forall|k: int|
            0 <= k < ops.len() ==> (#[trigger] ops[k]).idempotency_key != item.op.idempotency_key),
        engine.synced(ops).synced_count == engine.synced_count + ops.len(),
        engine.synced(ops).items.len() == 0 ==> engine.synced(ops).state == SyncState::Synced,
        (exists|i: int|
            0 <= i < engine.synced(ops).items.len() && (#[trigger] engine.synced(
                ops,
            ).items[i]).state != SyncState::Synced) ==> engine.synced(ops).state
            == SyncState::Pending,
        engine.synced(ops).dropped_count == engine.dropped_count,
        engine.synced(ops).last_error == engine.last_error,
{
    let keeps = |i: SyncItemView|
        forall|k: int|
            0 <= k < ops.len() ==> (#[trigger] ops[k]).idempotency_key != i.op.idempotency_key;
    lemma_unsettled_filters(engine.items, ops);
    lemma_filter_holds(engine.items, keeps, item);
}

proof fn lemma_unsettled_filters(items: Seq<SyncItemView>, ops: Seq<ControlOpView>)
    ensures
        unsettled(items, ops) == items.filter(
            |i: SyncItemView|
                forall|k: int|
                    0 <= k < ops.len() ==> (#[trigger] ops[k]).idempotency_key
                        != i.op.idempotency_key,
        ),
    decreases items.len(),
{
    reveal(Seq::filter);
    if items.len() > 0 {
        lemma_unsettled_filters(items.drop_last(), ops);
    }
}

/// A batch is made of the operations that are local, pending or to be tried
/// again, from the front of the queue and in its order: all of them where they
/// fit, else as many as were asked for.
pub proof fn law_batch_is_the_front_of_the_queue(engine: SyncEngineView, max_ops: usize)
    requires
        max_ops > 0,
    ensures
        ({
            let open = engine.items.filter(
                |i: SyncItemView|
                    i.state != SyncState::Syncing && i.state != SyncState::Synced && i.state
                        != SyncState::Failed,
            ).map_values(|i: SyncItemView| i.op);
            let batch = engine.next_batch(max_ops);
            &&& batch.is_prefix_of(open)
            &&& open.len() <= max_ops ==> batch == open
            &&& open.len() > max_ops ==> batch.len() == max_ops
        }),
        engine.next_batch(0) == engine.next_batch(1),
{
    lemma_waiting_filters(engine.items);
}

proof fn lemma_waiting_filters(items: Seq<SyncItemView>)
    ensures
        waiting(items) == items.filter(
            |i: SyncItemView|
                i.state != SyncState::Syncing && i.state != SyncState::Synced && i.state
                    != SyncState::Failed,
        ).map_values(|i: SyncItemView| i.op),
    decreases items.len(),
{
    reveal(Seq::filter);
    let keeps = |i: SyncItemView|
        i.state != SyncState::Syncing && i.state != SyncState::Synced && i.state
            != SyncState::Failed;
    let op = |i: SyncItemView| i.op;
    if items.len() > 0 {
        lemma_waiting_filters(items.drop_last());
        let front = items.drop_last().filter(keeps);
        assert(front.push(items.last()).map_values(op) =~= front.map_values(op).push(
            items.last().op,
        ));
    } else {
        assert(items.filter(keeps).map_values(op) =~= seq![]);
    }
}

/// What goes out in a batch is marked as on its way and counts one attempt
/// more, at the time of sending; what does not go out stays as it is. No
/// operation changes, and the queue is then sending.
pub proof fn law_sending_marks_the_batch(
    engine: SyncEngineView,
    max_ops: usize,
    now: TimestampMs,
    i: int,
)
    requires
        0 <= i < engine.items.len(),
        engine.keys_distinct(),
        engine.items[i].attempts < u32::MAX,
        engine.next_batch(max_ops).len() > 0,
    ensures
        ({
            let item = engine.items[i];
            let after = engine.batched(max_ops, now).items[i];
            &&& after.op == item.op
            &&& after.queued_at == item.queued_at
            &&& engine.next_batch(max_ops).contains(item.op) ==> {
                &&& after.state == SyncState::Syncing
                &&& after.attempts == item.attempts + 1
                &&& after.last_attempt_at == Some(now)
            }
            &&& !engine.next_batch(max_ops).contains(item.op) ==> after == item
            &&& engine.batched(max_ops, now).state == SyncState::Syncing
            &&& engine.batched(max_ops, now).items.len() == engine.items.len()
        }),
{
    law_batches_are_bounded(engine, max_ops);
    let ops = engine.next_batch(max_ops);
    let item = engine.items[i];
    if carries(ops, item.op.idempotency_key) {
        let k = choose|k: int|
            0 <= k < ops.len() && (#[trigger] ops[k]).idempotency_key == item.op.idempotency_key;
        let j = choose|j: int|
            0 <= j < engine.items.len() && (#[trigger] engine.items[j]).state.waits()
                && engine.items[j].op == ops[k];
        if i != j {
            assert(engine.items[i].op.idempotency_key == engine.items[j].op.idempotency_key);
            assert(i < j || j < i);
        }
        assert(ops[k] == item.op);
    }
    if ops.contains(item.op) {
        let k = choose|k: int| 0 <= k < ops.len() && ops[k] == item.op;
        assert(ops[k].idempotency_key == item.op.idempotency_key);
        let j = choose|j: int|
            0 <= j < engine.items.len() && (#[trigger] engine.items[j]).state.waits()
                && engine.items[j].op == ops[k];
        if i != j {
            assert(engine.items[i].op.idempotency_key == engine.items[j].op.idempotency_key);
            assert(i < j || j < i);
        }
    }
}

/// A failed batch touches only what it carried, and of that only the state:
/// what has attempts left is tried again, the rest is given up. The error is
/// kept.
pub proof fn law_failure_touches_the_batch(
    engine: SyncEngineView,
    ops: Seq<ControlOpView>,
    error: Seq<char>,
    max_attempts: u32,
    i: int,
)
    requires
        0 <= i < engine.items.len(),
    ensures
        ({
            let item = engine.items[i];
            let after = engine.after_failure(ops, error, max_attempts);
            let carried = exists|k: int|
                0 <= k < ops.len() && (#[trigger] ops[k]).idempotency_key
                    == item.op.idempotency_key;
            &&& after.items.len() == engine.items.len()
            &&& !carried ==> after.items[i] == item
            &&& carried ==> after.items[i].op == item.op && after.items[i].attempts == item.attempts
                && after.items[i].queued_at == item.queued_at && after.items[i].last_attempt_at
                == item.last_attempt_at
            &&& carried && item.attempts < max_attempts ==> after.items[i].state
                == SyncState::Retrying
            &&& carried && item.attempts >= max_attempts ==> after.items[i].state
                == SyncState::Failed && after.state == SyncState::Failed
            &&& after.last_error == Some(error)
            &&& after.synced_count == engine.synced_count
            &&& after.dropped_count == engine.dropped_count
        }),
{
    let after = engine.after_failure(ops, error, max_attempts);
    assert(after.items[i] == engine.items_after_failure(ops, max_attempts)[i]);
}

/// When the network comes back, what was local is pending and a failed queue
/// tries again; nothing else changes.
pub proof fn law_recovery_wakes_what_was_local(engine: SyncEngineView, i: int)
    requires
        0 <= i < engine.items.len(),
    ensures
        ({
            let item = engine.items[i];
            let after = engine.recovered();
            &&& after.items.len() == engine.items.len()
            &&& after.items[i].op == item.op && after.items[i].attempts == item.attempts
                && after.items[i].queued_at == item.queued_at && after.items[i].last_attempt_at
                == item.last_attempt_at
            &&& item.state == SyncState::LocalOnly ==> after.items[i].state == SyncState::Pending
            &&& item.state != SyncState::LocalOnly ==> after.items[i] == item
            &&& engine.state == SyncState::Failed ==> after.state == SyncState::Retrying
            &&& engine.state != SyncState::Failed ==> after.state == engine.state
            &&& after.synced_count == engine.synced_count
            &&& after.dropped_count == engine.dropped_count
            &&& after.last_error == engine.last_error
        }),
{
}

/// A new operation goes to the end of the queue, not tried yet, and what is
/// there stays where it is; one whose key is there changes nothing.
pub proof fn law_new_ops_go_to_the_end(engine: SyncEngineView, op: ControlOpView, now: TimestampMs)
    ensures
        ({
            let after = engine.enqueued(op, now);
            let there = exists|i: int|
                0 <= i < engine.items.len() && (#[trigger] engine.items[i]).op.idempotency_key
                    == op.idempotency_key;
            &&& there ==> after == engine
            &&& !there ==> {
                &&& after.items.len() == engine.items.len() + 1
                &&& engine.items.is_prefix_of(after.items)
                &&& after.items.last().op == op
                &&& after.items.last().attempts == 0
                &&& after.items.last().queued_at == now
                &&& after.items.last().last_attempt_at is None
                &&& after.items.last().state != SyncState::Failed && after.items.last().state
                    != SyncState::Syncing && after.items.last().state != SyncState::Synced
                    && after.items.last().state != SyncState::Retrying
                &&& after.items.last().state == SyncState::LocalOnly <==> engine.state
                    == SyncState::LocalOnly
                &&& after.state == engine.state
                &&& after.synced_count == engine.synced_count
                &&& after.dropped_count == engine.dropped_count
            }
        }),
{
}

} // verus!
