//! The lifecycle of one connection: register, relay, deregister.
//!
//! A session is driven by its caller, which owns the transport: it activates
//! the session once the queue exists, hands it every frame that the read loop
//! yields, tells it when the read loop has ended for whatever reason, and
//! closes it. Closing is what takes the connection out of the registry.

use vstd::prelude::*;
use crate::dispatch::{
    all_carry, dispatch, payload_of, recipients, served, Outcome, SelfDelivery,
};
use crate::envelope::Inbound;
use crate::key::{ConnectionKey, KeyModel};
use crate::queue::QueueHandle;
use crate::registry::{
    handle_of, has_key, law_unregister_idempotent, with_entry, without_key, Registry,
};

verus! {

/// Where a session stands in its lifecycle.
#[derive(Clone, Copy, Debug, PartialEq, Eq, Structural)]
pub enum Phase {
    /// Accepted and identified; not yet in the registry.
    Connecting,
    /// Registered; frames are relayed.
    Active,
    /// The read loop has ended; still registered, the pump may be flushing.
    Draining,
    /// Unregistered; nothing more happens.
    Closed,
}

/// What drives a session from one phase to the next.
#[derive(Clone, Copy, Debug, PartialEq, Eq, Structural)]
pub enum Event {
    /// The connection was put into the registry.
    Registered,
    /// The read loop ended: the peer closed, or reading failed.
    StreamEnded,
    /// The connection was taken out of the registry.
    Unregistered,
}

/// The phase that follows `phase` on `event`. An event that does not belong
/// to a phase leaves it as it is, except that taking the connection out of
/// the registry closes the session from every phase.
pub open spec fn next_phase(phase: Phase, event: Event) -> Phase {
    match (phase, event) {
        (Phase::Connecting, Event::Registered) => Phase::Active,
        (Phase::Active, Event::StreamEnded) => Phase::Draining,
        (_, Event::Unregistered) => Phase::Closed,
        _ => phase,
    }
}

/// How far a phase is along the lifecycle.
pub open spec fn rank(phase: Phase) -> int {
    match phase {
        Phase::Connecting => 0,
        Phase::Active => 1,
        Phase::Draining => 2,
        Phase::Closed => 3,
    }
}

/// Whether a session in `phase` has an entry in the registry.
pub open spec fn is_registered(phase: Phase) -> bool {
    phase == Phase::Active || phase == Phase::Draining
}

/// Computes the phase that follows `phase` on `event`.
pub fn advance(phase: Phase, event: Event) -> (next: Phase)
    ensures
        next == next_phase(phase, event),
{
    match event {
        Event::Registered => match phase {
            Phase::Connecting => Phase::Active,
            _ => phase,
        },
        Event::StreamEnded => match phase {
            Phase::Active => Phase::Draining,
            _ => phase,
        },
        Event::Unregistered => Phase::Closed,
    }
}

/// One connection's session.
pub struct Session {
    key: ConnectionKey,
    phase: Phase,
}

impl View for Session {
    type V = (KeyModel, Phase);

    closed spec fn view(&self) -> (KeyModel, Phase) {
        (self.key@, self.phase)
    }
}

impl Session {
    /// A session for the connection `key`, not yet registered.
    pub fn new(key: ConnectionKey) -> (session: Self)
        ensures
            session@ == (key@, Phase::Connecting),
    {
        Session { key, phase: Phase::Connecting }
    }

    /// The connection's key.
    pub fn key(&self) -> (key: &ConnectionKey)
        ensures
            key@ == self@.0,
    {
        &self.key
    }

    /// The current phase.
    pub fn phase(&self) -> (phase: Phase)
        ensures
            phase == self@.1,
    {
        self.phase
    }

    /// Registers the connection with the producer handle of its queue and
    /// makes the session active. Only a connecting session can be activated:
    /// in every other phase nothing changes and `false` is returned.
    pub fn activate(&mut self, registry: &mut Registry, handle: QueueHandle) -> (started: bool)
        ensures
            started == (old(self)@.1 == Phase::Connecting),
            final(self)@ == (old(self)@.0, next_phase(old(self)@.1, Event::Registered)),
            final(registry)@ == if started {
                with_entry(old(registry)@, old(self)@.0, handle)
            } else {
                old(registry)@
            },
    {
        match self.phase {
            Phase::Connecting => {
                registry.register(self.key.clone(), handle);
                self.phase = advance(self.phase, Event::Registered);
                true
            },
            _ => false,
        }
    }

    /// Relays one frame that the read loop yielded. An active session
    /// dispatches it; in every other phase the frame is dropped.
    pub fn receive<'a>(
        &self,
        registry: &Registry,
        inbound: &'a Inbound,
        policy: SelfDelivery,
    ) -> (outcomes: Vec<Outcome<'a>>)
        ensures
            served(outcomes@) == if self@.1 == Phase::Active {
                recipients(registry@, self@.0, *inbound, policy)
            } else {
                Seq::<KeyModel>::empty()
            },
            served(outcomes@).no_duplicates(),
            all_carry(outcomes@, payload_of(*inbound)),
    {
        match self.phase {
            Phase::Active => dispatch(registry, &self.key, inbound, policy),
            _ => {
                let outcomes: Vec<Outcome> = Vec::new();
                assert(served(outcomes@) =~= Seq::<KeyModel>::empty());
                outcomes
            },
        }
    }

    /// Notes that the read loop has ended, by a close or by an error alike.
    /// An active session starts draining; no frame is relayed after that.
    pub fn stream_ended(&mut self)
        ensures
            final(self)@ == (old(self)@.0, next_phase(old(self)@.1, Event::StreamEnded)),
    {
        self.phase = advance(self.phase, Event::StreamEnded);
    }

    /// Ends the session: takes the connection out of the registry, if this
    /// session had put it there, and returns the handle that was registered.
    /// The session is closed afterwards, whatever phase it was in; closing a
    /// session again changes nothing.
    pub fn close(&mut self, registry: &mut Registry) -> (released: Option<QueueHandle>)
        ensures
            final(self)@ == (old(self)@.0, Phase::Closed),
            final(registry)@ == if is_registered(old(self)@.1) {
                without_key(old(registry)@, old(self)@.0)
            } else {
                old(registry)@
            },
            is_registered(old(self)@.1) ==> !has_key(final(registry)@, old(self)@.0),
            released == if is_registered(old(self)@.1) && has_key(old(registry)@, old(self)@.0) {
                Some(handle_of(old(registry)@, old(self)@.0))
            } else {
                None
            },
    {
        let released = match self.phase {
            Phase::Active | Phase::Draining => {
                let ghost before = registry@;
                let released = registry.unregister(&self.key);
                proof {
                    law_unregister_idempotent(before, self.key@);
                }
                released
            },
            _ => None,
        };
        self.phase = advance(self.phase, Event::Unregistered);
        released
    }
}

/// A session never goes back: every event leaves the phase where it is or
/// moves it forward, and a closed session stays closed.
pub proof fn law_phases_only_advance(phase: Phase, event: Event)
    ensures
        rank(next_phase(phase, event)) >= rank(phase),
        phase == Phase::Closed ==> next_phase(phase, event) == Phase::Closed,
{
}

/// The end of the read loop always leads to the closed phase: from every
/// phase, the stream's end followed by the removal from the registry closes
/// the session.
pub proof fn law_stream_end_leads_to_closed(phase: Phase)
    ensures
        next_phase(next_phase(phase, Event::StreamEnded), Event::Unregistered) == Phase::Closed,
        is_registered(phase) ==> is_registered(next_phase(phase, Event::StreamEnded)),
{
}

} // verus!
