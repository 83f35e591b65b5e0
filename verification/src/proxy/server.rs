//! The loop that takes in clients.

use vstd::prelude::*;

use crate::proxy::stats::Stats;

verus! {

/// What the server waits for.
#[derive(Debug, Clone, Copy, PartialEq, Eq, Structural)]
pub enum ServerEvent {
    /// The proxy is to stop.
    Shutdown,
    /// A client has connected.
    Accepted,
    /// A client could not be taken in.
    AcceptFailed,
    /// A client that had been taken in is gone.
    Disconnected,
}

/// What the server does.
#[derive(Debug, Clone, Copy, PartialEq, Eq, Structural)]
pub enum ServerAction {
    /// Take in no more clients.
    Stop,
    /// Serve the new client, and wait on.
    Serve,
    /// Wait on.
    Wait,
}

/// Takes an event and counts the clients.
pub fn serve(event: ServerEvent, totals: &mut Stats) -> (action: ServerAction)
    ensures
        match event {
            ServerEvent::Shutdown => action == ServerAction::Stop && *final(totals) == *old(
                totals,
            ),
            ServerEvent::Accepted => {
                &&& action == ServerAction::Serve
                &&& *final(totals) == (Stats {
                    connections_total: old(totals).connections_total.wrapping_add(1),
                    connections_active: old(totals).connections_active.wrapping_add(1),
                    ..*old(totals)
                })
            },
            ServerEvent::AcceptFailed => action == ServerAction::Wait && *final(totals) == *old(
                totals,
            ),
            ServerEvent::Disconnected => {
                &&& action == ServerAction::Wait
                &&& *final(totals) == (Stats {
                    connections_active: old(totals).connections_active.wrapping_sub(1),
                    ..*old(totals)
                })
            },
        },
{
    match event {
        ServerEvent::Shutdown => ServerAction::Stop,
        ServerEvent::Accepted => {
            totals.connection_opened();
            ServerAction::Serve
        },
        ServerEvent::AcceptFailed => ServerAction::Wait,
        ServerEvent::Disconnected => {
            totals.connection_closed();
            ServerAction::Wait
        },
    }
}

/// Whether a proxy that takes in no more clients can stop: none is connected any more, or it has
/// waited long enough for them.
pub fn may_stop(totals: &Stats, waited_secs: u64, timeout_secs: u64) -> (stop: bool)
    ensures
        stop == (totals.connections_active <= 0 || waited_secs >= timeout_secs),
{
    totals.connections_active <= 0 || waited_secs >= timeout_secs
}

/// When a client that was taken in is gone, as many clients are connected as before.
pub proof fn law_connections_balance(active: i64)
    ensures
        active.wrapping_add(1).wrapping_sub(1) == active,
{
}

} // verus!
