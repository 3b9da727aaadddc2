//! What to do with connections when the network changes.
use vstd::prelude::*;

use crate::model::NetworkType;

verus! {

#[derive(Clone, Copy, Debug, PartialEq, Eq, Structural)]
pub enum MigrationOutcome {
    /// The connection moves over.
    MigrationStarted,
    /// Nothing changes.
    Preserved,
    /// The connection is set up again under control.
    ControlledReconnect,
}

#[derive(Clone, Copy, Debug, PartialEq, Eq, Structural)]
pub enum NetworkChangeKind {
    Unchanged,
    InterfaceSwitch,
    TypeChange,
    LossOfConnectivity,
}

#[derive(Clone, Copy, Debug, PartialEq, Eq, Structural)]
pub enum TransportMigrationCap {
    Quic,
    Unsupported,
}

/// When to move connections over.
#[derive(Debug)]
pub struct MigrationPolicy {
    /// The transports that may try.
    pub migration_capable_transports: Vec<TransportMigrationCap>,
    pub preserve_control_state: bool,
}

impl Default for MigrationPolicy {
    fn default() -> (r: Self)
        ensures
            r.migration_capable_transports@ == seq![TransportMigrationCap::Quic],
            r.preserve_control_state,
    {
        let capable = vec![TransportMigrationCap::Quic];
        assert(capable@ =~= seq![TransportMigrationCap::Quic]);
        MigrationPolicy { migration_capable_transports: capable, preserve_control_state: true }
    }
}

pub open spec fn change_of(before: Option<NetworkType>, after: Option<NetworkType>) ->
    NetworkChangeKind {
    if before == after {
        NetworkChangeKind::Unchanged
    } else if before is Some && after is Some {
        NetworkChangeKind::TypeChange
    } else {
        NetworkChangeKind::LossOfConnectivity
    }
}

/// What kind of change leads from one network to the other.
pub fn classify_change(before: Option<NetworkType>, after: Option<NetworkType>) -> (r:
    NetworkChangeKind)
    ensures
        r == change_of(before, after),
{
    match (before, after) {
        (Some(a), Some(b)) => {
            if a == b {
                NetworkChangeKind::Unchanged
            } else {
                NetworkChangeKind::TypeChange
            }
        },
        (None, Some(_)) => NetworkChangeKind::LossOfConnectivity,
        (Some(_), None) => NetworkChangeKind::LossOfConnectivity,
        (None, None) => NetworkChangeKind::Unchanged,
    }
}

pub open spec fn outcome_of(change: NetworkChangeKind, can_migrate: bool, preserve: bool) ->
    MigrationOutcome {
    if change == NetworkChangeKind::Unchanged {
        MigrationOutcome::Preserved
    } else if change != NetworkChangeKind::LossOfConnectivity && can_migrate && preserve {
        MigrationOutcome::MigrationStarted
    } else {
        MigrationOutcome::ControlledReconnect
    }
}

/// What to do about a change, given what the transport can do.
pub fn decide_migration(
    change: NetworkChangeKind,
    supports_connection_migration: bool,
    policy: &MigrationPolicy,
) -> (r: MigrationOutcome)
    ensures
        r == outcome_of(change, supports_connection_migration, policy.preserve_control_state),
{
    match change {
        NetworkChangeKind::LossOfConnectivity => MigrationOutcome::ControlledReconnect,
        NetworkChangeKind::InterfaceSwitch | NetworkChangeKind::TypeChange => {
            if supports_connection_migration && policy.preserve_control_state {
                MigrationOutcome::MigrationStarted
            } else {
                MigrationOutcome::ControlledReconnect
            }
        },
        NetworkChangeKind::Unchanged => MigrationOutcome::Preserved,
    }
}

/// A connection that cannot move is always set up again when the network
/// changes, and one that need not move is left alone.
pub proof fn law_no_migration_without_support(
    before: Option<NetworkType>,
    after: Option<NetworkType>,
    preserve: bool,
)
    ensures
        before != after ==> outcome_of(change_of(before, after), false, preserve)
            == MigrationOutcome::ControlledReconnect,
        before == after ==> outcome_of(change_of(before, after), false, preserve)
            == MigrationOutcome::Preserved,
{
}

/// A connection that can move, and may, moves over whenever one network takes
/// the place of another; when there is none before or after, it is set up
/// again, and a connection that is not to be preserved always is.
pub proof fn law_capable_connections_move(
    before: Option<NetworkType>,
    after: Option<NetworkType>,
    can_migrate: bool,
)
    ensures
        before is Some && after is Some && before != after ==> outcome_of(
            change_of(before, after),
            true,
            true,
        ) == MigrationOutcome::MigrationStarted,
        before is Some != after is Some ==> outcome_of(change_of(before, after), can_migrate, true)
            == MigrationOutcome::ControlledReconnect,
        before != after ==> outcome_of(change_of(before, after), can_migrate, false)
            == MigrationOutcome::ControlledReconnect,
        before == after ==> outcome_of(change_of(before, after), can_migrate, true)
            == MigrationOutcome::Preserved,
        outcome_of(NetworkChangeKind::InterfaceSwitch, true, true)
            == MigrationOutcome::MigrationStarted,
{
}

} // verus!
