//! Time events, the order in which they are delivered, and the handlers
//! that bind them to callbacks.
use vstd::prelude::*;
use vstd::arithmetic::div_mod::{lemma_mod_self_0, lemma_small_mod};
use crate::names::{
    compare_names, name_lt, lemma_name_lt_total, lemma_name_lt_transitive,
    lemma_name_lt_asymmetric, lemma_name_lt_irreflexive,
};

verus! {

/// The number of distinct event ids: ids are a sequence that wraps.
pub open spec fn id_modulus() -> nat {
    u64::MAX as nat + 1
}

/// The id of the event `k` places after one numbered `base`.
pub open spec fn seq_id(base: nat, k: nat) -> nat {
    (base + k) % id_modulus()
}

/// The id that follows `id`.
pub fn following_id(id: u64) -> (r: u64)
    ensures
        r == seq_id(id as nat, 1),
{
    if id == u64::MAX {
        proof {
            lemma_mod_self_0(id_modulus() as int);
        }
        0
    } else {
        proof {
            lemma_small_mod((id + 1) as nat, id_modulus());
        }
        id + 1
    }
}

/// One firing of a timer.
pub struct TimeEvent {
    /// The name of the timer that fired.
    pub name: String,
    /// The event's id.
    pub id: u64,
    /// The instant the event represents (its fire instant), in nanoseconds.
    pub ts_event: u64,
    /// The instant the event was made, in nanoseconds.
    pub ts_init: u64,
}

impl TimeEvent {
    /// Creates an event.
    pub fn new(name: String, id: u64, ts_event: u64, ts_init: u64) -> (r: TimeEvent)
        ensures
            r.name@ == name@,
            r.id == id,
            r.ts_event == ts_event,
            r.ts_init == ts_init,
    {
        TimeEvent { name, id, ts_event, ts_init }
    }
}

/// `(t1, n1)` comes strictly before `(t2, n2)`: by instant, then by name.
pub open spec fn fires_before(t1: nat, n1: Seq<char>, t2: nat, n2: Seq<char>) -> bool {
    t1 < t2 || (t1 == t2 && name_lt(n1, n2))
}

/// `a` does not come after `b` in the delivery order `(ts_event, name, id)`.
pub open spec fn event_le(a: TimeEvent, b: TimeEvent) -> bool {
    ||| a.ts_event < b.ts_event
    ||| a.ts_event == b.ts_event && name_lt(a.name@, b.name@)
    ||| a.ts_event == b.ts_event && a.name@ == b.name@ && a.id <= b.id
}

/// Events in delivery order.
pub open spec fn sorted_events(s: Seq<TimeEvent>) -> bool {
    forall|i: int, j: int| 0 <= i < j < s.len() ==> event_le(s[i], s[j])
}

/// Events strictly ordered by instant and then name: no two share both.
pub open spec fn strictly_ordered(s: Seq<TimeEvent>) -> bool {
    forall|i: int, j: int|
        0 <= i < j < s.len() ==> fires_before(
            s[i].ts_event as nat,
            s[i].name@,
            s[j].ts_event as nat,
            s[j].name@,
        )
}

/// Events strictly ordered by instant and name are in delivery order.
pub proof fn lemma_strictly_ordered_is_sorted(s: Seq<TimeEvent>)
    requires
        strictly_ordered(s),
    ensures
        sorted_events(s),
{
    assert forall|i: int, j: int| 0 <= i < j < s.len() implies event_le(s[i], s[j]) by {
        assert(fires_before(
            s[i].ts_event as nat,
            s[i].name@,
            s[j].ts_event as nat,
            s[j].name@,
        ));
    }
}

/// Any two events are ordered one way or the other.
pub proof fn lemma_event_le_total(a: TimeEvent, b: TimeEvent)
    ensures
        event_le(a, b) || event_le(b, a),
{
    if a.ts_event == b.ts_event && a.name@ != b.name@ {
        lemma_name_lt_total(a.name@, b.name@);
    }
}

/// The delivery order is transitive.
pub proof fn lemma_event_le_transitive(a: TimeEvent, b: TimeEvent, c: TimeEvent)
    requires
        event_le(a, b),
        event_le(b, c),
    ensures
        event_le(a, c),
{
    if a.ts_event == b.ts_event && b.ts_event == c.ts_event {
        if name_lt(a.name@, b.name@) && name_lt(b.name@, c.name@) {
            lemma_name_lt_transitive(a.name@, b.name@, c.name@);
        }
    }
}

/// Whether `a` does not come after `b` in the delivery order.
pub fn event_precedes(a: &TimeEvent, b: &TimeEvent) -> (r: bool)
    ensures
        r == event_le(*a, *b),
{
    if a.ts_event != b.ts_event {
        return a.ts_event < b.ts_event;
    }
    match compare_names(a.name.as_str(), b.name.as_str()) {
        core::cmp::Ordering::Less => true,
        core::cmp::Ordering::Equal => a.id <= b.id,
        core::cmp::Ordering::Greater => {
            proof {
                lemma_name_lt_asymmetric(b.name@, a.name@);
                lemma_name_lt_irreflexive(a.name@);
            }
            false
        },
    }
}

/// An opaque reference to a callback that the owner of the clock can invoke.
#[derive(Clone, Copy, PartialEq, Eq, Structural, Debug)]
pub struct CallbackRef {
    pub id: u64,
}

/// An event bound to the callback that handles it.
pub struct TimeEventHandler {
    pub event: TimeEvent,
    pub callback: CallbackRef,
}

impl TimeEventHandler {
    /// Binds `event` to `callback`.
    pub fn new(event: TimeEvent, callback: CallbackRef) -> (r: TimeEventHandler)
        ensures
            r.event == event,
            r.callback == callback,
    {
        TimeEventHandler { event, callback }
    }
}

} // verus!
