use vstd::prelude::*;

verus! {

/// Which of the supervisor's event sources have something ready.
#[derive(Clone, Copy, Debug, PartialEq, Eq, Structural)]
pub struct Ready {
    pub shutdown: bool,
    pub incoming: bool,
    pub discovery: bool,
    /// A child task ended; only counted while children are running.
    pub child: bool,
}

/// The source the supervisor serves next.
#[derive(Clone, Copy, Debug, PartialEq, Eq, Structural)]
pub enum Branch {
    Shutdown,
    Incoming,
    Discovery,
    Child,
    /// No source has anything left: the loop ends.
    Exhausted,
}

/// Strict priority: a pending shutdown wins over everything, then inbound connections,
/// then discovery, then child tasks.
pub fn pick(ready: Ready) -> (r: Branch)
    ensures
        ready.shutdown ==> r == Branch::Shutdown,
        !ready.shutdown && ready.incoming ==> r == Branch::Incoming,
        !ready.shutdown && !ready.incoming && ready.discovery ==> r == Branch::Discovery,
        !ready.shutdown && !ready.incoming && !ready.discovery && ready.child ==> r == Branch::Child,
        !ready.shutdown && !ready.incoming && !ready.discovery && !ready.child ==> r
            == Branch::Exhausted,
{
    if ready.shutdown {
        Branch::Shutdown
    } else if ready.incoming {
        Branch::Incoming
    } else if ready.discovery {
        Branch::Discovery
    } else if ready.child {
        Branch::Child
    } else {
        Branch::Exhausted
    }
}

/// How a child task ended.
#[derive(Clone, Copy, Debug, PartialEq, Eq, Structural)]
pub enum ChildExit {
    Finished,
    Errored,
    Cancelled,
    Panicked,
}

/// What the supervisor was handed by the branch it served.
#[derive(Clone, Copy, Debug, PartialEq, Eq, Structural)]
pub enum LoopEvent {
    Shutdown,
    /// An inbound connection: accepted, or refused by the transport.
    Incoming { accepted: bool },
    /// A discovery provider reported a peer, or an error.
    Discovered { ok: bool },
    ChildEnded(ChildExit),
    Exhausted,
}

/// What the supervisor does about it.
#[derive(Clone, Copy, Debug, PartialEq, Eq, Structural)]
pub enum LoopAction {
    /// Nothing more than logging; the loop goes on.
    Continue,
    /// Spawn a task that routes the connection.
    HandleConnection,
    /// Add the reported peer to the address book.
    AddPeer,
    /// Leave the loop and shut down cleanly.
    Stop,
    /// Leave the loop: the engine failed.
    Fail,
}

/// The supervisor's decision on one event. Errors of single connections, providers and
/// tasks are only logged; a panicking child fails the engine.
pub fn decide(ev: LoopEvent) -> (r: LoopAction)
    ensures
        r == spec_decide(ev),
{
    match ev {
        LoopEvent::Shutdown => LoopAction::Stop,
        LoopEvent::Incoming { accepted } => if accepted {
            LoopAction::HandleConnection
        } else {
            LoopAction::Continue
        },
        LoopEvent::Discovered { ok } => if ok {
            LoopAction::AddPeer
        } else {
            LoopAction::Continue
        },
        LoopEvent::ChildEnded(exit) => match exit {
            ChildExit::Panicked => LoopAction::Fail,
            _ => LoopAction::Continue,
        },
        LoopEvent::Exhausted => LoopAction::Stop,
    }
}

pub open spec fn spec_decide(ev: LoopEvent) -> LoopAction {
    match ev {
        LoopEvent::Shutdown => LoopAction::Stop,
        LoopEvent::Incoming { accepted } => if accepted {
            LoopAction::HandleConnection
        } else {
            LoopAction::Continue
        },
        LoopEvent::Discovered { ok } => if ok {
            LoopAction::AddPeer
        } else {
            LoopAction::Continue
        },
        LoopEvent::ChildEnded(exit) => if exit == ChildExit::Panicked {
            LoopAction::Fail
        } else {
            LoopAction::Continue
        },
        LoopEvent::Exhausted => LoopAction::Stop,
    }
}

/// Whether the supervisor keeps looping after `a`.
pub open spec fn keeps_running(a: LoopAction) -> bool {
    a != LoopAction::Stop && a != LoopAction::Fail
}

/// Over any sequence of events, discovery errors never end the loop: only a shutdown, the
/// end of every source or a panicking child does.
pub proof fn lemma_discovery_errors_keep_loop(evs: Seq<LoopEvent>)
    ensures
        forall|k: int|
            0 <= k < evs.len() && !keeps_running(#[trigger] spec_decide(evs[k])) ==> (evs[k]
                == LoopEvent::Shutdown || evs[k] == LoopEvent::Exhausted || evs[k]
                == LoopEvent::ChildEnded(ChildExit::Panicked)),
        forall|k: int|
            0 <= k < evs.len() && evs[k] == (LoopEvent::Discovered { ok: false }) ==> keeps_running(
                #[trigger] spec_decide(evs[k]),
            ),
{
}

/// Over any sequence of events, a refused or unknown inbound connection never ends the loop.
pub proof fn lemma_bad_connections_keep_loop(evs: Seq<LoopEvent>)
    ensures
        forall|k: int|
            0 <= k < evs.len() && evs[k] == (LoopEvent::Incoming { accepted: false })
                ==> keeps_running(#[trigger] spec_decide(evs[k])),
{
}

} // verus!
