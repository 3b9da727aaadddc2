//! Sessions that outlive their connections.
//!
//! The session id stays over reconnects and migrations; the connection id is
//! new with every connection.
use vstd::prelude::*;

use crate::health::elapsed;
use crate::identifier::{draw_uuid, is_drawn, is_uuid};
use crate::model::TransportKind;
use crate::views::view_of;
use crate::TimestampMs;

verus! {

#[derive(Debug)]
pub struct Session {
    /// Stays over reconnects and migrations.
    pub session_id: String,
    /// New with every connection.
    pub connection_id: String,
    pub transport: TransportKind,
    pub edge_id: Option<String>,
    pub start_time: TimestampMs,
    pub last_healthy_time: TimestampMs,
    pub reconnect_count: u64,
    pub migration_count: u64,
}

#[verifier::ext_equal]
pub struct SessionView {
    pub session_id: Seq<char>,
    pub connection_id: Seq<char>,
    pub transport: TransportKind,
    pub edge_id: Option<Seq<char>>,
    pub start_time: TimestampMs,
    pub last_healthy_time: TimestampMs,
    pub reconnect_count: u64,
    pub migration_count: u64,
}

impl View for Session {
    type V = SessionView;

    open spec fn view(&self) -> SessionView {
        SessionView {
            session_id: self.session_id@,
            connection_id: self.connection_id@,
            transport: self.transport,
            edge_id: view_of(self.edge_id),
            start_time: self.start_time,
            last_healthy_time: self.last_healthy_time,
            reconnect_count: self.reconnect_count,
            migration_count: self.migration_count,
        }
    }
}

impl SessionView {
    /// A session that begins, under the two ids.
    pub open spec fn begun(
        session_id: Seq<char>,
        connection_id: Seq<char>,
        transport: TransportKind,
        edge_id: Option<Seq<char>>,
        now: TimestampMs,
    ) -> SessionView {
        SessionView {
            session_id,
            connection_id,
            transport,
            edge_id,
            start_time: now,
            last_healthy_time: now,
            reconnect_count: 0,
            migration_count: 0,
        }
    }

    /// The session on a new connection under the given id.
    pub open spec fn connected(
        self,
        connection_id: Seq<char>,
        transport: TransportKind,
        edge_id: Option<Seq<char>>,
        now: TimestampMs,
    ) -> SessionView {
        SessionView { connection_id, transport, edge_id, last_healthy_time: now, ..self }
    }

    pub open spec fn reconnected(
        self,
        connection_id: Seq<char>,
        transport: TransportKind,
        edge_id: Option<Seq<char>>,
        now: TimestampMs,
    ) -> SessionView {
        SessionView {
            reconnect_count: (self.reconnect_count + 1) as u64,
            ..self.connected(connection_id, transport, edge_id, now)
        }
    }

    pub open spec fn migrated(
        self,
        connection_id: Seq<char>,
        transport: TransportKind,
        edge_id: Option<Seq<char>>,
        now: TimestampMs,
    ) -> SessionView {
        SessionView {
            migration_count: (self.migration_count + 1) as u64,
            ..self.connected(connection_id, transport, edge_id, now)
        }
    }
}

impl Session {
    pub fn begin(transport: TransportKind, edge_id: Option<String>, now: TimestampMs) -> (r: Self)
        ensures
            is_uuid(r@.session_id) && is_drawn(r@.session_id),
            is_uuid(r@.connection_id) && is_drawn(r@.connection_id),
            r@ == SessionView::begun(
                r@.session_id,
                r@.connection_id,
                transport,
                view_of(edge_id),
                now,
            ),
    {
        Session {
            session_id: draw_uuid(),
            connection_id: draw_uuid(),
            transport,
            edge_id,
            start_time: now,
            last_healthy_time: now,
            reconnect_count: 0,
            migration_count: 0,
        }
    }

    /// Resumes the same session on a fresh connection.
    pub fn reconnect(&mut self, transport: TransportKind, edge_id: Option<String>, now: TimestampMs)
        requires
            old(self).reconnect_count < u64::MAX,
        ensures
            is_uuid(final(self)@.connection_id) && is_drawn(final(self)@.connection_id),
            final(self)@ == old(self)@.reconnected(
                final(self)@.connection_id,
                transport,
                view_of(edge_id),
                now,
            ),
    {
        self.connection_id = draw_uuid();
        self.transport = transport;
        self.edge_id = edge_id;
        self.reconnect_count = self.reconnect_count + 1;
        self.last_healthy_time = now;
    }

    /// Carries the session over to another network or edge.
    pub fn migrate(&mut self, transport: TransportKind, edge_id: Option<String>, now: TimestampMs)
        requires
            old(self).migration_count < u64::MAX,
        ensures
            is_uuid(final(self)@.connection_id) && is_drawn(final(self)@.connection_id),
            final(self)@ == old(self)@.migrated(
                final(self)@.connection_id,
                transport,
                view_of(edge_id),
                now,
            ),
    {
        self.connection_id = draw_uuid();
        self.transport = transport;
        self.edge_id = edge_id;
        self.migration_count = self.migration_count + 1;
        self.last_healthy_time = now;
    }

    pub fn mark_healthy(&mut self, now: TimestampMs)
        ensures
            final(self)@ == (SessionView { last_healthy_time: now, ..old(self)@ }),
    {
        self.last_healthy_time = now;
    }

    /// Whole seconds since the session was last known to be healthy.
    pub fn unhealthy_seconds(&self, now: TimestampMs) -> (r: u64)
        ensures
            r == elapsed(now, self.last_healthy_time) / 1000,
    {
        now.saturating_sub(self.last_healthy_time) / 1000
    }
}

/// Reconnects and migrations keep the session and its start, and each counts
/// itself alone.
pub proof fn law_session_survives(
    s: SessionView,
    connection_id: Seq<char>,
    transport: TransportKind,
    edge_id: Option<Seq<char>>,
    now: TimestampMs,
)
    requires
        s.reconnect_count < u64::MAX,
        s.migration_count < u64::MAX,
    ensures
        ({
            let r = s.reconnected(connection_id, transport, edge_id, now);
            &&& r.session_id == s.session_id
            &&& r.start_time == s.start_time
            &&& r.reconnect_count == s.reconnect_count + 1
            &&& r.migration_count == s.migration_count
        }),
        ({
            let m = s.migrated(connection_id, transport, edge_id, now);
            &&& m.session_id == s.session_id
            &&& m.start_time == s.start_time
            &&& m.migration_count == s.migration_count + 1
            &&& m.reconnect_count == s.reconnect_count
        }),
{
}

/// A reconnect and a migration both put the session on the new connection: its
/// id, its transport and its edge, healthy from then on.
pub proof fn law_session_is_where_it_was_put(
    s: SessionView,
    connection_id: Seq<char>,
    transport: TransportKind,
    edge_id: Option<Seq<char>>,
    now: TimestampMs,
)
    ensures
        ({
            let r = s.reconnected(connection_id, transport, edge_id, now);
            &&& r.connection_id == connection_id
            &&& r.transport == transport
            &&& r.edge_id == edge_id
            &&& r.last_healthy_time == now
        }),
        ({
            let m = s.migrated(connection_id, transport, edge_id, now);
            &&& m.connection_id == connection_id
            &&& m.transport == transport
            &&& m.edge_id == edge_id
            &&& m.last_healthy_time == now
        }),
{
}

/// A session begins healthy on its transport and edge, and has neither been
/// reconnected nor moved.
pub proof fn law_session_begins_unmoved(
    session_id: Seq<char>,
    connection_id: Seq<char>,
    transport: TransportKind,
    edge_id: Option<Seq<char>>,
    now: TimestampMs,
)
    ensures
        ({
            let s = SessionView::begun(session_id, connection_id, transport, edge_id, now);
            &&& s.session_id == session_id
            &&& s.connection_id == connection_id
            &&& s.transport == transport
            &&& s.edge_id == edge_id
            &&& s.start_time == now
            &&& s.last_healthy_time == now
            &&& s.reconnect_count == 0
            &&& s.migration_count == 0
        }),
{
}

} // verus!
