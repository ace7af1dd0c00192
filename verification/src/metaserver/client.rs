//! What is put into the queue for the metadata server, and what a barrier reports.

use vstd::prelude::*;
use vstd::string::*;
use crate::block::byte_views;
use crate::metaserver::batch::{
    entry_keys, is_grouping, BlockHashBatch, MetaServerCommand,
};
use crate::metaserver::session::{capped_sum, MetaServerSession, UNREGISTER_TIMEOUT_SECS};
use crate::text::decimal;

verus! {

/// What became of a command that was to be queued.
#[derive(Clone, Copy, Debug, PartialEq, Eq, Structural)]
pub enum SendOutcome {
    Queued,
    /// The queue was full.
    Full,
    /// Nobody takes commands any more.
    Closed,
}

/// What is counted of a command that was to be queued.
#[derive(Clone, Copy, Debug, PartialEq, Eq, Structural)]
pub struct SendCounts {
    /// Hashes that were queued.
    pub queued: u64,
    /// Hashes that were dropped.
    pub dropped: u64,
}

/// The command that registers hashes of a namespace; none for no hashes.
pub fn register_command(namespace: String, hashes: Vec<Vec<u8>>) -> (r: Option<MetaServerCommand>)
    ensures
        match r {
            None => hashes@.len() == 0,
            Some(MetaServerCommand::Insert(b)) => hashes@.len() > 0 && b.view() == seq![
                (namespace@, byte_views(hashes@)),
            ],
            Some(_) => false,
        },
{
    if hashes.len() == 0 {
        return None;
    }
    Some(MetaServerCommand::Insert(BlockHashBatch::single_namespace(namespace, hashes)))
}

/// The command that removes hashes of some namespaces; none for no hashes.
pub fn unregister_command(entries: Vec<(String, Vec<u8>)>) -> (r: Option<MetaServerCommand>)
    ensures
        match r {
            None => entries@.len() == 0,
            Some(MetaServerCommand::Remove(b)) => entries@.len() > 0 && is_grouping(
                b.view(),
                entry_keys(entries@),
            ),
            Some(_) => false,
        },
{
    if entries.len() == 0 {
        return None;
    }
    Some(MetaServerCommand::Remove(BlockHashBatch::from_entries(entries)))
}

/// Notes what became of a command to register `count` hashes. Hashes that were dropped are
/// lost: no barrier succeeds any more.
pub fn on_register_sent(session: &mut MetaServerSession, count: usize, outcome: SendOutcome) -> (r:
    SendCounts)
    requires
        old(session).wf(),
    ensures
        final(session).wf(),
        final(session).node_id() == old(session).node_id(),
        final(session).heartbeat() == old(session).heartbeat(),
        final(session).connected() == old(session).connected(),
        if outcome == SendOutcome::Queued {
            &&& r == (SendCounts { queued: count as u64, dropped: 0 })
            &&& final(session).failures() == old(session).failures()
        } else {
            &&& r == (SendCounts { queued: 0, dropped: count as u64 })
            &&& final(session).failures() == capped_sum(old(session).failures(), count as int)
        },
{
    match outcome {
        SendOutcome::Queued => SendCounts { queued: count as u64, dropped: 0 },
        _ => {
            session.on_register_dropped(count);
            SendCounts { queued: 0, dropped: count as u64 }
        },
    }
}

/// Notes what became of a command to remove `count` hashes. One that is dropped now and then
/// does no harm: nodes that are gone are swept.
pub fn on_unregister_sent(count: usize, outcome: SendOutcome) -> (r: SendCounts)
    ensures
        r == (if outcome == SendOutcome::Queued {
            SendCounts { queued: count as u64, dropped: 0 }
        } else {
            SendCounts { queued: 0, dropped: count as u64 }
        }),
{
    match outcome {
        SendOutcome::Queued => SendCounts { queued: count as u64, dropped: 0 },
        _ => SendCounts { queued: 0, dropped: count as u64 },
    }
}

/// What became of a barrier.
#[derive(Debug)]
pub enum BarrierOutcome {
    /// Nobody takes commands any more.
    LoopGone,
    /// Nobody will answer it.
    Dropped,
    /// It was reached, with success or not.
    Reached(Result<(), String>),
}

/// What a barrier reports: success only where it was reached, everything before it was
/// acknowledged, and nothing was ever lost.
pub fn flush_result(session: &MetaServerSession, outcome: BarrierOutcome) -> (r: Result<(), String>)
    ensures
        match outcome {
            BarrierOutcome::LoopGone => r matches Err(m) && m@
                == "MetaServer registration loop has exited"@,
            BarrierOutcome::Dropped => r matches Err(m) && m@
                == "MetaServer registration barrier was dropped"@,
            BarrierOutcome::Reached(Err(e)) => r matches Err(m) && m@ == e@,
            BarrierOutcome::Reached(Ok(_)) => if session.failures() == 0 {
                r is Ok
            } else {
                r matches Err(m) && m@ == "MetaServer publication barrier observed "@ + decimal(
                    session.failures() as nat,
                ) + " previously lost block hashes"@
            },
        },
{
    match outcome {
        BarrierOutcome::LoopGone => Err(
            String::from_str("MetaServer registration loop has exited"),
        ),
        BarrierOutcome::Dropped => Err(
            String::from_str("MetaServer registration barrier was dropped"),
        ),
        BarrierOutcome::Reached(Err(e)) => Err(e),
        BarrierOutcome::Reached(Ok(_)) => session.flush(),
    }
}

/// What happened while the node leaves the server.
#[derive(Clone, Copy, Debug, PartialEq, Eq, Structural)]
pub enum LeaveEvent {
    /// It is to leave, with or without a connection.
    Asked { connected: bool },
    Connected,
    ConnectFailed,
    /// The server has let it go.
    Left,
    /// The server has refused, or could not be reached.
    Refused,
    /// The server has not answered in time.
    TimedOut,
}

/// What leaving the server comes to next.
#[derive(Clone, Copy, Debug, PartialEq, Eq, Structural)]
pub enum LeaveStep {
    Connect,
    /// The server is told, and given so many seconds to answer.
    Call { timeout_secs: u64 },
    /// It is over; one that failed is counted.
    Over { failures: u64 },
}

/// What leaving the server comes to next: it is told once, over a connection that is made for it
/// where there is none. It is not told again where that fails, since nodes that are gone are
/// swept.
pub fn leave_step(event: LeaveEvent) -> (r: LeaveStep)
    ensures
        r == match event {
            LeaveEvent::Asked { connected: false } => LeaveStep::Connect,
            LeaveEvent::Asked { connected: true } | LeaveEvent::Connected => LeaveStep::Call {
                timeout_secs: UNREGISTER_TIMEOUT_SECS,
            },
            LeaveEvent::Left => LeaveStep::Over { failures: 0 },
            LeaveEvent::ConnectFailed
            | LeaveEvent::Refused
            | LeaveEvent::TimedOut => LeaveStep::Over { failures: 1 },
        },
{
    match event {
        LeaveEvent::Asked { connected } => if connected {
            LeaveStep::Call { timeout_secs: UNREGISTER_TIMEOUT_SECS }
        } else {
            LeaveStep::Connect
        },
        LeaveEvent::Connected => LeaveStep::Call { timeout_secs: UNREGISTER_TIMEOUT_SECS },
        LeaveEvent::Left => LeaveStep::Over { failures: 0 },
        LeaveEvent::ConnectFailed
        | LeaveEvent::Refused
        | LeaveEvent::TimedOut => LeaveStep::Over { failures: 1 },
    }
}

/// What happened to a shutdown.
#[derive(Clone, Copy, Debug, PartialEq, Eq, Structural)]
pub enum ShutdownEvent {
    Asked,
    /// The command to leave is queued.
    Queued,
    /// It could not be queued in time, or nobody takes commands any more.
    NotQueued,
    /// The node has left, or the time for that is over.
    Ended,
}

/// What a shutdown does next.
#[derive(Clone, Copy, Debug, PartialEq, Eq, Structural)]
pub enum ShutdownStep {
    /// The command to leave is queued, within so many seconds.
    Queue { timeout_secs: u64 },
    /// It is waited for, so many seconds long.
    Wait { timeout_secs: u64 },
    Over,
}

/// What a shutdown does next: each of its two parts is given a second more than leaving the
/// server takes at most.
pub fn shutdown_step(event: ShutdownEvent) -> (r: ShutdownStep)
    ensures
        r == match event {
            ShutdownEvent::Asked => ShutdownStep::Queue {
                timeout_secs: (UNREGISTER_TIMEOUT_SECS + 1) as u64,
            },
            ShutdownEvent::Queued => ShutdownStep::Wait {
                timeout_secs: (UNREGISTER_TIMEOUT_SECS + 1) as u64,
            },
            ShutdownEvent::NotQueued | ShutdownEvent::Ended => ShutdownStep::Over,
        },
{
    match event {
        ShutdownEvent::Asked => ShutdownStep::Queue { timeout_secs: UNREGISTER_TIMEOUT_SECS + 1 },
        ShutdownEvent::Queued => ShutdownStep::Wait { timeout_secs: UNREGISTER_TIMEOUT_SECS + 1 },
        ShutdownEvent::NotQueued | ShutdownEvent::Ended => ShutdownStep::Over,
    }
}

} // verus!
