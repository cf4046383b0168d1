//! The server lifecycle as a state machine.
//!
//! The runtime that owns the socket performs the outside work: it accepts
//! or refuses connections, serves requests and waits for the interrupt.
//! Which of those it must do next is decided here, by a verified step
//! function over plain state, so the graceful-shutdown policy — stop
//! accepting on the signal, drain what is in flight, then exit — is proved
//! rather than assumed.
use vstd::prelude::*;

verus! {

/// The lifecycle state of the serving loop.
#[derive(Clone, Copy, PartialEq, Eq, Structural, Debug)]
pub enum ServerState {
    /// Accepting new connections, with this many requests in flight.
    Running { in_flight: u64 },
    /// The shutdown signal fired: no new connections are accepted while the
    /// in-flight requests are drained.
    Draining { in_flight: u64 },
    /// Shutdown is complete and the serving task has terminated.
    Stopped,
}

/// An event the runtime hands to the lifecycle.
#[derive(Clone, Copy, PartialEq, Eq, Structural, Debug)]
pub enum ServerEvent {
    /// A client opened a new connection.
    Connected,
    /// One in-flight request was answered in full.
    RequestCompleted,
    /// The external shutdown signal fired.
    ShutdownSignal,
}

/// What the runtime must do after a step.
#[derive(Clone, Copy, PartialEq, Eq, Structural, Debug)]
pub enum ServerAction {
    /// Serve the new connection.
    Accept,
    /// Turn the new connection away.
    Refuse,
    /// Nothing beyond bookkeeping.
    Continue,
    /// Stop the serving task: shutdown was requested and nothing is in
    /// flight any more.
    Exit,
}

/// True while the server takes new connections.
pub open spec fn accepting(s: ServerState) -> bool {
    s is Running
}

/// The lifecycle's transition function.
///
/// A connection is accepted only while running (a running server at the
/// connection-count limit turns the connection away rather than overflow).
/// The shutdown signal moves the server out of the accepting state at once;
/// requests already in flight are still completed, and the task exits
/// exactly when shutdown was requested and the last of them finishes.
pub open spec fn spec_step(s: ServerState, e: ServerEvent) -> (ServerState, ServerAction) {
    match (s, e) {
        (ServerState::Running { in_flight }, ServerEvent::Connected) => {
            if in_flight == u64::MAX {
                (ServerState::Running { in_flight }, ServerAction::Refuse)
            } else {
                (ServerState::Running { in_flight: (in_flight + 1) as u64 }, ServerAction::Accept)
            }
        },
        (ServerState::Running { in_flight }, ServerEvent::RequestCompleted) => {
            if in_flight == 0 {
                (ServerState::Running { in_flight }, ServerAction::Continue)
            } else {
                (
                    ServerState::Running { in_flight: (in_flight - 1) as u64 },
                    ServerAction::Continue,
                )
            }
        },
        (ServerState::Running { in_flight }, ServerEvent::ShutdownSignal) => {
            if in_flight == 0 {
                (ServerState::Stopped, ServerAction::Exit)
            } else {
                (ServerState::Draining { in_flight }, ServerAction::Continue)
            }
        },
        (ServerState::Draining { in_flight }, ServerEvent::Connected) => (
            ServerState::Draining { in_flight },
            ServerAction::Refuse,
        ),
        (ServerState::Draining { in_flight }, ServerEvent::RequestCompleted) => {
            if in_flight <= 1 {
                (ServerState::Stopped, ServerAction::Exit)
            } else {
                (
                    ServerState::Draining { in_flight: (in_flight - 1) as u64 },
                    ServerAction::Continue,
                )
            }
        },
        (ServerState::Draining { in_flight }, ServerEvent::ShutdownSignal) => (
            ServerState::Draining { in_flight },
            ServerAction::Continue,
        ),
        (ServerState::Stopped, ServerEvent::Connected) => (
            ServerState::Stopped,
            ServerAction::Refuse,
        ),
        (ServerState::Stopped, _) => (ServerState::Stopped, ServerAction::Continue),
    }
}

/// Take one lifecycle step.
pub fn step(s: ServerState, e: ServerEvent) -> (r: (ServerState, ServerAction))
    ensures
        r == spec_step(s, e),
{
    match (s, e) {
        (ServerState::Running { in_flight }, ServerEvent::Connected) => {
            if in_flight == u64::MAX {
                (ServerState::Running { in_flight }, ServerAction::Refuse)
            } else {
                (ServerState::Running { in_flight: in_flight + 1 }, ServerAction::Accept)
            }
        },
        (ServerState::Running { in_flight }, ServerEvent::RequestCompleted) => {
            if in_flight == 0 {
                (ServerState::Running { in_flight }, ServerAction::Continue)
            } else {
                (ServerState::Running { in_flight: in_flight - 1 }, ServerAction::Continue)
            }
        },
        (ServerState::Running { in_flight }, ServerEvent::ShutdownSignal) => {
            if in_flight == 0 {
                (ServerState::Stopped, ServerAction::Exit)
            } else {
                (ServerState::Draining { in_flight }, ServerAction::Continue)
            }
        },
        (ServerState::Draining { in_flight }, ServerEvent::Connected) => (
            ServerState::Draining { in_flight },
            ServerAction::Refuse,
        ),
        (ServerState::Draining { in_flight }, ServerEvent::RequestCompleted) => {
            if in_flight <= 1 {
                (ServerState::Stopped, ServerAction::Exit)
            } else {
                (ServerState::Draining { in_flight: in_flight - 1 }, ServerAction::Continue)
            }
        },
        (ServerState::Draining { in_flight }, ServerEvent::ShutdownSignal) => (
            ServerState::Draining { in_flight },
            ServerAction::Continue,
        ),
        (ServerState::Stopped, ServerEvent::Connected) => (
            ServerState::Stopped,
            ServerAction::Refuse,
        ),
        (ServerState::Stopped, _) => (ServerState::Stopped, ServerAction::Continue),
    }
}

/// The state after a whole sequence of events, first event first.
pub open spec fn run(s: ServerState, events: Seq<ServerEvent>) -> ServerState
    decreases events.len(),
{
    if events.len() == 0 {
        s
    } else {
        run(spec_step(s, events[0]).0, events.skip(1))
    }
}

/// Once the server stops accepting, no sequence of later events — more
/// connections, completions, repeated signals — ever brings it back to the
/// accepting state.
pub proof fn lemma_shutdown_forever(s: ServerState, events: Seq<ServerEvent>)
    requires
        !accepting(s),
    ensures
        !accepting(run(s, events)),
    decreases events.len(),
{
    if events.len() > 0 {
        lemma_shutdown(s, events[0]);
        lemma_shutdown_forever(spec_step(s, events[0]).0, events.skip(1));
    }
}

/// The shutdown law: once the server stops accepting — which the shutdown
/// signal forces at once — no later event makes it accept again and no step
/// answers a connection with `Accept`; a request already in flight is still
/// completed, and the task exits exactly when the last one finishes.
pub proof fn lemma_shutdown(s: ServerState, e: ServerEvent)
    ensures
        !accepting(s) ==> !accepting(spec_step(s, e).0),
        !accepting(s) ==> spec_step(s, e).1 != ServerAction::Accept,
        !accepting(spec_step(s, ServerEvent::ShutdownSignal).0),
        (s is Draining && e == ServerEvent::RequestCompleted ==> spec_step(s, e).0 == (
        if s->Draining_in_flight <= 1 {
            ServerState::Stopped
        } else {
            ServerState::Draining { in_flight: (s->Draining_in_flight - 1) as u64 }
        })),
{
}

} // verus!
