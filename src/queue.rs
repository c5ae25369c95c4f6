//! A queue of time events that hands them out in delivery order.
use vstd::prelude::*;
use crate::event::{
    TimeEvent, event_le, event_precedes, sorted_events, lemma_event_le_total,
    lemma_event_le_transitive,
};

verus! {

/// Pending events, the earliest in delivery order first.
pub struct EventQueue {
    items: Vec<TimeEvent>,
}

impl View for EventQueue {
    type V = Seq<TimeEvent>;

    closed spec fn view(&self) -> Seq<TimeEvent> {
        self.items@
    }
}

impl EventQueue {
    /// The queue's invariant: its events are in delivery order.
    pub open spec fn wf(&self) -> bool {
        sorted_events(self@)
    }

    /// An empty queue.
    pub fn new() -> (r: EventQueue)
        ensures
            r.wf(),
            r@.len() == 0,
    {
        EventQueue { items: Vec::new() }
    }

    /// The number of pending events.
    pub fn len(&self) -> (r: usize)
        ensures
            r == self@.len(),
    {
        self.items.len()
    }

    /// Whether no event is pending.
    pub fn is_empty(&self) -> (r: bool)
        ensures
            r == (self@.len() == 0),
    {
        self.items.len() == 0
    }

    /// Adds `event` after every pending event that does not come after it.
    pub fn push(&mut self, event: TimeEvent)
        requires
            old(self).wf(),
        ensures
            final(self).wf(),
            final(self)@.to_multiset() == old(self)@.to_multiset().insert(event),
            exists|pos: int| 0 <= pos <= old(self)@.len() && final(self)@ == old(self)@.insert(pos, event),
    {
        let ghost before = self@;
        let mut pos: usize = 0;
        while pos < self.items.len() && event_precedes(&self.items[pos], &event)
            invariant
                self@ == before,
                pos <= before.len(),
                forall|j: int| 0 <= j < pos ==> event_le(#[trigger] before[j], event),
            decreases before.len() - pos,
        {
            pos = pos + 1;
        }
        proof {
            if pos < before.len() {
                lemma_event_le_total(before[pos as int], event);
            }
        }
        self.items.insert(pos, event);
        proof {
            let after = self@;
            assert(after == before.insert(pos as int, event));
            before.insert_ensures(pos as int, event);
            assert forall|i: int, j: int| 0 <= i < j < after.len() implies event_le(after[i], after[j]) by {
                if j == pos {
                } else if i == pos {
                    assert(after[j] == before[j - 1]);
                    if j - 1 > pos {
                        lemma_event_le_transitive(event, before[pos as int], before[j - 1]);
                    }
                } else if i < pos && j > pos {
                    assert(after[j] == before[j - 1]);
                } else if i > pos {
                    assert(after[i] == before[i - 1] && after[j] == before[j - 1]);
                }
            }
            assert(after.remove(pos as int) =~= before);
            after.to_multiset_ensures();
            assert(after.to_multiset().count(event) > 0) by {
                assert(after[pos as int] == event);
                assert(after.contains(event));
            }
            assert(after.to_multiset() =~= before.to_multiset().insert(event));
        }
    }

    /// The earliest pending event, if any, left in place.
    pub fn peek(&self) -> (r: Option<&TimeEvent>)
        ensures
            self@.len() == 0 ==> r is None,
            self@.len() > 0 ==> r == Some(&self@[0]),
    {
        if self.items.len() == 0 {
            None
        } else {
            Some(&self.items[0])
        }
    }

    /// Takes out the earliest pending event, if any.
    pub fn pop(&mut self) -> (r: Option<TimeEvent>)
        requires
            old(self).wf(),
        ensures
            final(self).wf(),
            old(self)@.len() == 0 ==> r is None && final(self)@ == old(self)@,
            old(self)@.len() > 0 ==> r == Some(old(self)@[0]) && final(self)@ == old(self)@.drop_first(),
    {
        if self.items.len() == 0 {
            None
        } else {
            let e = self.items.remove(0);
            assert(self@ =~= old(self)@.drop_first());
            Some(e)
        }
    }

    /// Drops every pending event.
    pub fn clear(&mut self)
        ensures
            final(self).wf(),
            final(self)@.len() == 0,
    {
        self.items.clear();
    }
}

} // verus!
