use vstd::prelude::*;

use crate::accounts::Role;
use crate::maps::ZoneType;

verus! {

/// Domain events appended by the registries.
#[derive(Clone, Copy, Debug, PartialEq, Eq, Structural)]
pub enum Event {
    /// An account was created or overwritten: [identity, role].
    AccountCreated(u64, Role),
    /// An account was disabled, by a Registrar or by the ledger: [identity].
    AccountDisabled(u64),
    /// A zone was catalogued: [zone id, creator, zone type].
    ZoneCreated(u32, u64, ZoneType),
}

/// An append-only record of the events deposited so far.
pub struct EventLog {
    events: Vec<Event>,
}

impl View for EventLog {
    type V = Seq<Event>;

    closed spec fn view(&self) -> Seq<Event> {
        self.events@
    }
}

impl EventLog {
    pub fn new() -> (r: Self)
        ensures
            r@ == Seq::<Event>::empty(),
    {
        EventLog { events: Vec::new() }
    }

    /// Appends one event.
    pub fn deposit(&mut self, event: Event)
        ensures
            final(self)@ == old(self)@.push(event),
    {
        self.events.push(event);
    }

    /// Hands out every event deposited so far, in order, and empties the log.
    pub fn events(&mut self) -> (r: Vec<Event>)
        ensures
            r@ == old(self)@,
            final(self)@ == Seq::<Event>::empty(),
    {
        let mut taken: Vec<Event> = Vec::new();
        std::mem::swap(&mut taken, &mut self.events);
        taken
    }

    /// The most recent event, if any.
    pub fn last_event(&self) -> (r: Option<Event>)
        ensures
            self@.len() == 0 ==> r is None,
            self@.len() > 0 ==> r == Some(self@.last()),
    {
        let n = self.events.len();
        if n == 0 {
            None
        } else {
            Some(self.events[n - 1])
        }
    }
}

} // verus!
