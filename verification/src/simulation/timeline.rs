//! An ordered, replayable list of events with a playback cursor.

use vstd::prelude::*;

use super::sort_event::SortEvent;

verus! {

/// A recorded run of an algorithm plus a cursor marking how far it has played.
#[derive(Clone, Debug, Default)]
pub struct Timeline {
    events: Vec<SortEvent>,
    /// Number of events already applied (`0..=events.len()`).
    cursor: usize,
}

impl Timeline {
    /// The recorded events.
    pub closed spec fn evs(&self) -> Seq<SortEvent> {
        self.events@
    }

    /// The number of events already applied.
    pub closed spec fn pos(&self) -> nat {
        self.cursor as nat
    }

    /// The cursor never passes the end.
    pub open spec fn wf(&self) -> bool {
        self.pos() <= self.evs().len()
    }

    pub fn new(events: Vec<SortEvent>) -> (r: Self)
        ensures
            r.evs() == events@,
            r.pos() == 0,
            r.wf(),
    {
        Timeline { events, cursor: 0 }
    }

    /// Total number of events in the run.
    pub fn len(&self) -> (r: usize)
        ensures
            r == self.evs().len(),
    {
        self.events.len()
    }

    pub fn is_empty(&self) -> (r: bool)
        ensures
            r == (self.evs().len() == 0),
    {
        self.events.len() == 0
    }

    /// How many events have been applied so far (the current step index).
    pub fn position(&self) -> (r: usize)
        ensures
            r == self.pos(),
    {
        self.cursor
    }

    /// `true` once every event has been applied.
    pub fn is_finished(&self) -> (r: bool)
        ensures
            r == (self.pos() >= self.evs().len()),
    {
        self.cursor >= self.events.len()
    }

    /// Move the cursor back to the start without dropping the events.
    pub fn rewind(&mut self)
        ensures
            final(self).evs() == old(self).evs(),
            final(self).pos() == 0,
            final(self).wf(),
    {
        self.cursor = 0;
    }

    /// Return the next event and advance the cursor, or `None` at the end.
    pub fn advance(&mut self) -> (r: Option<SortEvent>)
        ensures
            final(self).evs() == old(self).evs(),
            old(self).pos() < old(self).evs().len() ==> r == Some(old(self).evs()[old(self).pos() as int])
                && final(self).pos() == old(self).pos() + 1,
            old(self).pos() >= old(self).evs().len() ==> r is None && final(self).pos() == old(self).pos(),
            old(self).wf() ==> final(self).wf(),
    {
        if self.cursor < self.events.len() {
            let event = self.events[self.cursor];
            self.cursor = self.cursor + 1;
            Some(event)
        } else {
            None
        }
    }

    /// Borrow the full event list (used when replaying from scratch).
    pub fn events(&self) -> (r: &[SortEvent])
        ensures
            r@ == self.evs(),
    {
        self.events.as_slice()
    }
}

} // verus!
