//! The decisions of a timer that runs on its own task in real time: sleep
//! until its next firing, fire, or finish. The task that runs it sleeps and
//! delivers; the timer decides.
use vstd::prelude::*;
use crate::timer::{Timer, TimerView, stepped};

verus! {

/// What a live timer's task does next.
#[derive(Clone, Copy, PartialEq, Eq, Structural, Debug)]
pub enum LiveAction {
    /// Sleep until the given instant, then ask again.
    Sleep { until_ns: u64 },
    /// Deliver an event for the given fire instant, then ask again.
    Fire { ts_event: u64 },
    /// The timer is expired or cancelled: the task ends.
    Finish,
}

/// What a live timer does at wall-clock instant `now`, and how it changes.
pub open spec fn live_step_spec(t: TimerView, now: nat, r: LiveAction, t2: TimerView) -> bool {
    match r {
        LiveAction::Finish => t.expired() && t2 == t,
        LiveAction::Sleep { until_ns } => t.next == Some(until_ns as nat) && now < until_ns
            && t2 == t,
        LiveAction::Fire { ts_event } => t.next == Some(ts_event as nat) && ts_event <= now && t2
            == stepped(t),
    }
}

/// Decides the next action of the live timer `timer` at instant `now`: a due
/// timer fires once and moves on to its next instant.
pub fn live_step(timer: &mut Timer, now: u64) -> (r: LiveAction)
    requires
        old(timer)@.wf(),
    ensures
        final(timer)@.wf(),
        live_step_spec(old(timer)@, now as nat, r, final(timer)@),
{
    match timer.next_time_ns() {
        None => LiveAction::Finish,
        Some(n) => {
            if n <= now {
                let ts = timer.fire();
                LiveAction::Fire { ts_event: ts }
            } else {
                LiveAction::Sleep { until_ns: n }
            }
        },
    }
}

} // verus!
