//! The simulated clock: timers that fire as the owner advances time.
use vstd::prelude::*;
use vstd::multiset::Multiset;
use crate::event::{
    CallbackRef, TimeEvent, TimeEventHandler, sorted_events, strictly_ordered, seq_id, following_id,
};
use crate::names::{
    compare_names, is_valid_name, name_lt, valid_name, lemma_name_lt_irreflexive,
    lemma_name_lt_transitive,
};
use crate::queue::EventQueue;
use crate::registry::CallbackRegistry;
use crate::schedule::{
    names_sorted, emitted, scheduled, remaining_timers, active_only, merge_inv, pending_count,
    earliest_due, lemma_merge_start, lemma_merge_step, lemma_merge_done, lemma_filter_sorted,
};
use crate::time::FixedTime;
use crate::timer::{Timer, TimerView, alert_view, periodic_view, opt_nat, stepped};

verus! {

/// Why a timer could not be set. Nothing changes when one is returned.
#[derive(Clone, Copy, PartialEq, Eq, Structural, Debug)]
pub enum ClockError {
    /// The name is empty, not ASCII, or only whitespace.
    InvalidName,
    /// The interval is zero.
    ZeroInterval,
    /// No callback was given and none is registered for the name or as default.
    NoCallback,
    /// The alert instant lies before the current instant and past instants were refused.
    AlertInPast { alert_ns: u64, now_ns: u64 },
    /// The start lies before the current instant and past instants were refused.
    StartInPast { start_ns: u64, now_ns: u64 },
    /// The stop does not lie after the start.
    StopNotAfterStart { start_ns: u64, stop_ns: u64 },
}

/// The two kinds of recoverable failure.
#[derive(Clone, Copy, PartialEq, Eq, Structural, Debug)]
pub enum ErrorKind {
    /// An argument is unusable whatever the time.
    Config,
    /// An instant lies in the past.
    Temporal,
}

impl ClockError {
    /// The kind of failure.
    pub fn kind(&self) -> (r: ErrorKind)
        ensures
            (r == ErrorKind::Temporal) == (self matches ClockError::AlertInPast { .. } || self matches ClockError::StartInPast { .. }),
    {
        match self {
            ClockError::AlertInPast { .. } | ClockError::StartInPast { .. } => ErrorKind::Temporal,
            _ => ErrorKind::Config,
        }
    }
}

/// What a simulated clock is.
pub struct ClockView {
    /// The current instant.
    pub now: nat,
    /// The installed timers, in name order.
    pub timers: Seq<TimerView>,
    /// Callbacks by timer name.
    pub callbacks: Map<Seq<char>, CallbackRef>,
    /// The callback for names without one of their own.
    pub default_callback: Option<CallbackRef>,
    /// Events waiting to be taken, in delivery order.
    pub queue: Seq<TimeEvent>,
    /// The id of the next event made.
    pub next_id: nat,
}

impl ClockView {
    /// Timers in name order, each well formed and not expired; the queue in
    /// delivery order.
    pub open spec fn wf(self) -> bool {
        &&& names_sorted(self.timers)
        &&& forall|i: int| 0 <= i < self.timers.len() ==> (#[trigger] self.timers[i]).wf()
        &&& forall|i: int| 0 <= i < self.timers.len() ==> !(#[trigger] self.timers[i]).expired()
        &&& sorted_events(self.queue)
        &&& self.now <= u64::MAX
        &&& self.next_id <= u64::MAX
    }

    /// The callback that handles events of `name`: its own, else the default.
    pub open spec fn handler(self, name: Seq<char>) -> Option<CallbackRef> {
        if self.callbacks.contains_key(name) {
            Some(self.callbacks[name])
        } else {
            self.default_callback
        }
    }

    /// The clock has a timer named `name`.
    pub open spec fn has_timer(self, name: Seq<char>) -> bool {
        exists|i: int| 0 <= i < self.timers.len() && self.timers[i].name == name
    }
}

/// `allow_past` with its default: past instants are allowed.
pub open spec fn allow_past_flag(a: Option<bool>) -> bool {
    match a {
        Some(b) => b,
        None => true,
    }
}

/// A callback is at hand for `name`: given, registered for it, or default.
pub open spec fn callback_available(c: ClockView, name: Seq<char>, cb: Option<CallbackRef>) -> bool {
    cb is Some || c.callbacks.contains_key(name) || c.default_callback is Some
}

/// The callbacks after a registration that gives `cb` for `name`.
pub open spec fn registered(c: ClockView, name: Seq<char>, cb: Option<CallbackRef>) -> Map<
    Seq<char>,
    CallbackRef,
> {
    match cb {
        Some(f) => c.callbacks.insert(name, f),
        None => c.callbacks,
    }
}

/// Whether setting an alert succeeds, and the error if not.
pub open spec fn alert_outcome(
    c: ClockView,
    name: Seq<char>,
    at: nat,
    cb: Option<CallbackRef>,
    allow_past: Option<bool>,
) -> Result<(), ClockError> {
    if !valid_name(name) {
        Err(ClockError::InvalidName)
    } else if !callback_available(c, name, cb) {
        Err(ClockError::NoCallback)
    } else if at < c.now && !allow_past_flag(allow_past) {
        Err(ClockError::AlertInPast { alert_ns: at as u64, now_ns: c.now as u64 })
    } else {
        Ok(())
    }
}

/// The instant an alert fires at: a past instant is moved to now.
pub open spec fn alert_instant(c: ClockView, at: nat) -> nat {
    if at < c.now {
        c.now
    } else {
        at
    }
}

/// The start a timer is given: zero stands for now.
pub open spec fn effective_start(c: ClockView, start: nat) -> nat {
    if start == 0 {
        c.now
    } else {
        start
    }
}

/// Whether setting a periodic timer succeeds, and the error if not.
pub open spec fn timer_outcome(
    c: ClockView,
    name: Seq<char>,
    interval: nat,
    start: nat,
    stop: Option<nat>,
    cb: Option<CallbackRef>,
    allow_past: Option<bool>,
) -> Result<(), ClockError> {
    if !valid_name(name) {
        Err(ClockError::InvalidName)
    } else if interval == 0 {
        Err(ClockError::ZeroInterval)
    } else if !callback_available(c, name, cb) {
        Err(ClockError::NoCallback)
    } else if start != 0 && start < c.now && !allow_past_flag(allow_past) {
        Err(ClockError::StartInPast { start_ns: start as u64, now_ns: c.now as u64 })
    } else if stop is Some && stop->0 <= effective_start(c, start) {
        Err(
            ClockError::StopNotAfterStart {
                start_ns: effective_start(c, start) as u64,
                stop_ns: stop->0 as u64,
            },
        )
    } else {
        Ok(())
    }
}

/// `new` holds the timers of `old` without the one named like `t`, and `t`
/// itself unless it is expired.
pub open spec fn installs(old: Seq<TimerView>, t: TimerView, new: Seq<TimerView>) -> bool {
    forall|x: TimerView|
        #![trigger new.contains(x)]
        new.contains(x) <==> ((old.contains(x) && x.name != t.name) || (x == t && !t.expired()))
}

/// `new` holds the timers of `old` but the one named `name`.
pub open spec fn removes(old: Seq<TimerView>, name: Seq<char>, new: Seq<TimerView>) -> bool {
    forall|x: TimerView|
        #![trigger new.contains(x)]
        new.contains(x) <==> (old.contains(x) && x.name != name)
}

/// Taking the timer at `i` out of sorted timers keeps them sorted and drops
/// exactly the timers of its name.
proof fn lemma_remove_at(s: Seq<TimerView>, i: int)
    requires
        names_sorted(s),
        0 <= i < s.len(),
    ensures
        names_sorted(s.remove(i)),
        removes(s, s[i].name, s.remove(i)),
{
    let r = s.remove(i);
    assert forall|a: int, b: int| 0 <= a < b < r.len() implies name_lt(r[a].name, r[b].name) by {
        let a2 = if a < i { a } else { a + 1 };
        let b2 = if b < i { b } else { b + 1 };
        assert(r[a] == s[a2] && r[b] == s[b2]);
    }
    assert forall|x: TimerView| r.contains(x) <==> (s.contains(x) && x.name != s[i].name) by {
        if r.contains(x) {
            let k = choose|k: int| 0 <= k < r.len() && r[k] == x;
            let k2 = if k < i { k } else { k + 1 };
            assert(s[k2] == x);
            if k2 != i {
                if k2 < i {
                    assert(name_lt(s[k2].name, s[i].name));
                } else {
                    assert(name_lt(s[i].name, s[k2].name));
                }
                lemma_name_lt_irreflexive(s[i].name);
            }
        }
        if s.contains(x) && x.name != s[i].name {
            let k = choose|k: int| 0 <= k < s.len() && s[k] == x;
            assert(k != i);
            let k2 = if k < i { k } else { k - 1 };
            assert(r[k2] == x);
        }
    }
}

/// Putting `t` in place of the timer of the same name keeps the timers
/// sorted and installs `t`.
proof fn lemma_replace_at(s: Seq<TimerView>, i: int, t: TimerView)
    requires
        names_sorted(s),
        0 <= i < s.len(),
        s[i].name == t.name,
        !t.expired(),
    ensures
        names_sorted(s.update(i, t)),
        installs(s, t, s.update(i, t)),
{
    let r = s.update(i, t);
    assert forall|x: TimerView| r.contains(x) <==> ((s.contains(x) && x.name != t.name) || (x
        == t && !t.expired())) by {
        if r.contains(x) {
            let k = choose|k: int| 0 <= k < r.len() && r[k] == x;
            if k != i {
                assert(s[k] == x);
                if k < i {
                    assert(name_lt(s[k].name, s[i].name));
                } else {
                    assert(name_lt(s[i].name, s[k].name));
                }
                lemma_name_lt_irreflexive(t.name);
            }
        }
        if s.contains(x) && x.name != t.name {
            let k = choose|k: int| 0 <= k < s.len() && s[k] == x;
            assert(k != i);
            assert(r[k] == x);
        }
        if x == t {
            assert(r[i] == x);
        }
    }
}

/// Inserting `t` where its name belongs keeps the timers sorted and installs `t`.
proof fn lemma_insert_at(s: Seq<TimerView>, pos: int, t: TimerView)
    requires
        names_sorted(s),
        0 <= pos <= s.len(),
        forall|j: int| 0 <= j < pos ==> name_lt(#[trigger] s[j].name, t.name),
        forall|j: int| pos <= j < s.len() ==> name_lt(t.name, #[trigger] s[j].name),
        !t.expired(),
    ensures
        names_sorted(s.insert(pos, t)),
        installs(s, t, s.insert(pos, t)),
        removes(s, t.name, s),
{
    let r = s.insert(pos, t);
    assert forall|a: int, b: int| 0 <= a < b < r.len() implies name_lt(r[a].name, r[b].name) by {
        if a < pos && b > pos {
            assert(r[b] == s[b - 1]);
        } else if a > pos {
            assert(r[a] == s[a - 1] && r[b] == s[b - 1]);
        }
    }
    assert forall|x: TimerView| s.contains(x) implies x.name != t.name by {
        let k = choose|k: int| 0 <= k < s.len() && s[k] == x;
        lemma_name_lt_irreflexive(t.name);
        if k < pos {
            assert(name_lt(s[k].name, t.name));
        } else {
            assert(name_lt(t.name, s[k].name));
        }
    }
    assert forall|x: TimerView| r.contains(x) <==> ((s.contains(x) && x.name != t.name) || (x
        == t && !t.expired())) by {
        if r.contains(x) {
            let k = choose|k: int| 0 <= k < r.len() && r[k] == x;
            if k < pos {
                assert(s[k] == x);
            } else if k > pos {
                assert(s[k - 1] == x);
            }
        }
        if s.contains(x) {
            let k = choose|k: int| 0 <= k < s.len() && s[k] == x;
            if k < pos {
                assert(r[k] == x);
            } else {
                assert(r[k + 1] == x);
            }
        }
        if x == t {
            assert(r[pos] == x);
        }
    }
}

/// What advancing a clock `c` to `to` gives: the events `ev` and the clock `d`.
/// Every timer fires at each of its instants up to `to` (and its stop), the
/// events come in order of instant and then name and are numbered on from
/// `c.next_id`, and timers that expire are dropped.
pub open spec fn advance_post(
    c: ClockView,
    to: nat,
    set_time: bool,
    ev: Seq<TimeEvent>,
    d: ClockView,
) -> bool {
    &&& d == (ClockView {
        now: if set_time { to } else { c.now },
        timers: remaining_timers(c.timers, to),
        next_id: seq_id(c.next_id, ev.len()),
        ..c
    })
    &&& strictly_ordered(ev)
    &&& forall|k: int|
        0 <= k < ev.len() ==> (#[trigger] ev[k]).id == seq_id(c.next_id, k as nat)
            && ev[k].ts_init == ev[k].ts_event
    &&& forall|at: nat, nm: Seq<char>| emitted(ev, at, nm) <==> scheduled(c.timers, to, at, nm)
}

/// A simulated clock. Time moves only when its owner advances it; timers fire
/// in a fixed order, by instant and then by name.
pub struct TestClock {
    time: FixedTime,
    timers: Vec<Timer>,
    registry: CallbackRegistry,
    queue: EventQueue,
    next_id: u64,
}

impl View for TestClock {
    type V = ClockView;

    closed spec fn view(&self) -> ClockView {
        ClockView {
            now: self.time@,
            timers: self.timers@.map_values(|t: Timer| t@),
            callbacks: self.registry.callbacks(),
            default_callback: self.registry.default_callback(),
            queue: self.queue@,
            next_id: self.next_id as nat,
        }
    }
}

impl TestClock {
    /// The parts of the invariant that the model does not show.
    pub closed spec fn inner_wf(&self) -> bool {
        self.registry.wf() && self.queue.wf()
    }

    /// The clock's invariant.
    pub open spec fn wf(&self) -> bool {
        self@.wf() && self.inner_wf()
    }

    /// A clock at instant zero with no timers, callbacks or pending events.
    pub fn new() -> (r: TestClock)
        ensures
            r.wf(),
            r@.now == 0,
            r@.timers.len() == 0,
            r@.callbacks == Map::<Seq<char>, CallbackRef>::empty(),
            r@.default_callback is None,
            r@.queue.len() == 0,
            r@.next_id == 0,
    {
        let r = TestClock {
            time: FixedTime::new(0),
            timers: Vec::new(),
            registry: CallbackRegistry::new(),
            queue: EventQueue::new(),
            next_id: 0,
        };
        assert(r@.timers =~= Seq::<TimerView>::empty());
        r
    }

    /// The current instant in nanoseconds.
    pub fn timestamp_ns(&self) -> (r: u64)
        ensures
            r == self@.now,
    {
        self.time.now_ns()
    }

    /// The current instant in whole microseconds.
    pub fn timestamp_us(&self) -> (r: u64)
        ensures
            r == self@.now / 1_000,
    {
        self.time.now_us()
    }

    /// The current instant in whole milliseconds.
    pub fn timestamp_ms(&self) -> (r: u64)
        ensures
            r == self@.now / 1_000_000,
    {
        self.time.now_ms()
    }

    /// The current instant in whole seconds.
    pub fn timestamp_s(&self) -> (r: u64)
        ensures
            r == self@.now / 1_000_000_000,
    {
        self.time.now_seconds()
    }

    /// Moves the current instant forward to `to_time_ns` without firing anything.
    pub fn set_time(&mut self, to_time_ns: u64)
        requires
            old(self).wf(),
            old(self)@.now <= to_time_ns,
        ensures
            final(self).wf(),
            final(self)@ == (ClockView { now: to_time_ns as nat, ..old(self)@ }),
    {
        self.time.set(to_time_ns);
    }

    /// The number of active timers.
    pub fn timer_count(&self) -> (r: usize)
        requires
            self.wf(),
        ensures
            r == self@.timers.len(),
    {
        self.timers.len()
    }

    /// The names of the active timers, in name order.
    pub fn timer_names(&self) -> (r: Vec<&str>)
        requires
            self.wf(),
        ensures
            r@.len() == self@.timers.len(),
            forall|i: int| 0 <= i < r@.len() ==> (#[trigger] r@[i])@ == self@.timers[i].name,
    {
        let mut out: Vec<&str> = Vec::new();
        let mut i: usize = 0;
        while i < self.timers.len()
            invariant
                i <= self.timers@.len(),
                out@.len() == i,
                forall|k: int| 0 <= k < i ==> (#[trigger] out@[k])@ == self@.timers[k].name,
            decreases self.timers@.len() - i,
        {
            out.push(self.timers[i].name());
            i = i + 1;
        }
        out
    }

    /// Where the timer named `name` stands, or where it would be inserted.
    fn locate(&self, name: &str) -> (r: Result<usize, usize>)
        requires
            self.wf(),
        ensures
            r matches Ok(i) ==> i < self@.timers.len() && self@.timers[i as int].name == name@,
            r matches Err(p) ==> p <= self@.timers.len() && (forall|j: int|
                0 <= j < p ==> name_lt(#[trigger] self@.timers[j].name, name@)) && (forall|j: int|
                p <= j < self@.timers.len() ==> name_lt(name@, #[trigger] self@.timers[j].name)),
    {
        let mut i: usize = 0;
        while i < self.timers.len()
            invariant
                self.wf(),
                i <= self@.timers.len(),
                forall|j: int| 0 <= j < i ==> name_lt(#[trigger] self@.timers[j].name, name@),
            decreases self.timers@.len() - i,
        {
            match compare_names(self.timers[i].name(), name) {
                core::cmp::Ordering::Less => {},
                core::cmp::Ordering::Equal => {
                    return Ok(i);
                },
                core::cmp::Ordering::Greater => {
                    assert forall|j: int| i <= j < self@.timers.len() implies name_lt(
                        name@,
                        #[trigger] self@.timers[j].name,
                    ) by {
                        if j > i {
                            lemma_name_lt_transitive(name@, self@.timers[i as int].name, self@.timers[j].name);
                        }
                    }
                    return Err(i);
                },
            }
            i = i + 1;
        }
        Err(i)
    }

    /// The instant of the next firing of the timer named `name`, if installed.
    pub fn next_time_ns(&self, name: &str) -> (r: Option<u64>)
        requires
            self.wf(),
        ensures
            r is None <==> !self@.has_timer(name@),
            forall|i: int|
                0 <= i < self@.timers.len() && self@.timers[i].name == name@ ==> opt_nat(r)
                    == self@.timers[i].next,
    {
        match self.locate(name) {
            Ok(i) => {
                proof {
                    assert forall|j: int|
                        0 <= j < self@.timers.len() && self@.timers[j].name == name@ implies j == i by {
                        lemma_name_lt_irreflexive(name@);
                    }
                }
                self.timers[i].next_time_ns()
            },
            Err(p) => {
                proof {
                    lemma_name_lt_irreflexive(name@);
                }
                None
            },
        }
    }

    /// The installed timers, in name order.
    pub fn get_timers(&self) -> (r: &Vec<Timer>)
        ensures
            r@.map_values(|t: Timer| t@) == self@.timers,
    {
        &self.timers
    }

    /// The timer named `name`, if installed.
    pub fn timer(&self, name: &str) -> (r: Option<&Timer>)
        requires
            self.wf(),
        ensures
            r is None <==> !self@.has_timer(name@),
            r matches Some(t) ==> self@.timers.contains(t@) && t@.name == name@,
    {
        match self.locate(name) {
            Ok(i) => {
                assert(self@.timers[i as int] == self.timers@[i as int]@);
                Some(&self.timers[i])
            },
            Err(p) => {
                proof {
                    lemma_name_lt_irreflexive(name@);
                }
                None
            },
        }
    }

    /// Puts `timer` in place of any timer of the same name; an expired one
    /// only takes the old one out.
    fn install(&mut self, timer: Timer)
        requires
            old(self).wf(),
            timer@.wf(),
        ensures
            final(self).wf(),
            final(self)@ == (ClockView { timers: final(self)@.timers, ..old(self)@ }),
            installs(old(self)@.timers, timer@, final(self)@.timers),
    {
        let ghost before = self@.timers;
        match self.locate(timer.name()) {
            Ok(i) => {
                if timer.is_expired() {
                    proof {
                        lemma_remove_at(before, i as int);
                    }
                    self.timers.remove(i);
                    assert(self@.timers =~= before.remove(i as int));
                    proof {
                        assert forall|x: TimerView| self@.timers.contains(x) <==> ((before.contains(x) && x.name != timer@.name) || (x == timer@ && !timer@.expired())) by {}
                    }
                } else {
                    proof {
                        lemma_replace_at(before, i as int, timer@);
                    }
                    self.timers.set(i, timer);
                    assert(self@.timers =~= before.update(i as int, timer@));
                }
            },
            Err(p) => {
                if timer.is_expired() {
                    proof {
                        lemma_name_lt_irreflexive(timer@.name);
                        assert forall|x: TimerView| before.contains(x) implies x.name != timer@.name by {
                            let k = choose|k: int| 0 <= k < before.len() && before[k] == x;
                            if k < p {
                                assert(name_lt(before[k].name, timer@.name));
                            } else {
                                assert(name_lt(timer@.name, before[k].name));
                            }
                        }
                    }
                } else {
                    proof {
                        lemma_insert_at(before, p as int, timer@);
                    }
                    self.timers.insert(p, timer);
                    assert(self@.timers =~= before.insert(p as int, timer@));
                }
            },
        }
    }

    /// Cancels the timer named `name`, if there is one.
    pub fn cancel_timer(&mut self, name: &str)
        requires
            old(self).wf(),
        ensures
            final(self).wf(),
            final(self)@ == (ClockView { timers: final(self)@.timers, ..old(self)@ }),
            removes(old(self)@.timers, name@, final(self)@.timers),
    {
        let ghost before = self@.timers;
        match self.locate(name) {
            Ok(i) => {
                proof {
                    lemma_remove_at(before, i as int);
                }
                let mut t = self.timers.remove(i);
                t.cancel();
                assert(self@.timers =~= before.remove(i as int));
            },
            Err(p) => {
                proof {
                    lemma_name_lt_irreflexive(name@);
                    assert forall|x: TimerView| before.contains(x) implies x.name != name@ by {
                        let k = choose|k: int| 0 <= k < before.len() && before[k] == x;
                        if k < p {
                            assert(name_lt(before[k].name, name@));
                        } else {
                            assert(name_lt(name@, before[k].name));
                        }
                    }
                }
            },
        }
    }

    /// Cancels every timer.
    pub fn cancel_timers(&mut self)
        requires
            old(self).wf(),
        ensures
            final(self).wf(),
            final(self)@ == (ClockView { timers: Seq::empty(), ..old(self)@ }),
    {
        self.timers.clear();
        assert(self@.timers =~= Seq::<TimerView>::empty());
    }

    /// Back to the state of a new clock: instant zero, and no timers,
    /// callbacks or pending events.
    pub fn reset(&mut self)
        requires
            old(self).wf(),
        ensures
            final(self).wf(),
            final(self)@.now == 0,
            final(self)@.timers.len() == 0,
            final(self)@.callbacks == Map::<Seq<char>, CallbackRef>::empty(),
            final(self)@.default_callback is None,
            final(self)@.queue.len() == 0,
            final(self)@.next_id == 0,
    {
        *self = TestClock::new();
    }

    /// Sets the callback for events of timers without one of their own.
    pub fn register_default_handler(&mut self, callback: CallbackRef)
        requires
            old(self).wf(),
        ensures
            final(self).wf(),
            final(self)@ == (ClockView { default_callback: Some(callback), ..old(self)@ }),
    {
        self.registry.register_default(callback);
    }

    /// Sets a one-shot timer `name` that fires at `alert_time_ns`, replacing
    /// any timer of that name. A given callback is registered for the name.
    /// An instant in the past fires at the current instant, unless
    /// `allow_past` is `Some(false)`, which refuses it.
    pub fn set_time_alert_ns(
        &mut self,
        name: &str,
        alert_time_ns: u64,
        callback: Option<CallbackRef>,
        allow_past: Option<bool>,
    ) -> (r: Result<(), ClockError>)
        requires
            old(self).wf(),
        ensures
            final(self).wf(),
            r == alert_outcome(old(self)@, name@, alert_time_ns as nat, callback, allow_past),
            r is Err ==> final(self)@ == old(self)@,
            r is Ok ==> final(self)@ == (ClockView {
                timers: final(self)@.timers,
                callbacks: registered(old(self)@, name@, callback),
                ..old(self)@
            }),
            r is Ok ==> installs(
                old(self)@.timers,
                alert_view(name@, old(self)@.now, alert_instant(old(self)@, alert_time_ns as nat)),
                final(self)@.timers,
            ),
    {
        if !is_valid_name(name) {
            return Err(ClockError::InvalidName);
        }
        if callback.is_none() && !self.registry.contains(name) && self.registry.get_default().is_none() {
            return Err(ClockError::NoCallback);
        }
        let now = self.time.now_ns();
        let allow = match allow_past {
            Some(b) => b,
            None => true,
        };
        if alert_time_ns < now && !allow {
            return Err(ClockError::AlertInPast { alert_ns: alert_time_ns, now_ns: now });
        }
        let at = if alert_time_ns < now {
            now
        } else {
            alert_time_ns
        };
        if let Some(cb) = callback {
            self.registry.register(name, cb);
        }
        let timer = Timer::alert(name.to_owned(), now, at);
        self.install(timer);
        Ok(())
    }

    /// Sets a periodic timer `name` that fires every `interval_ns` from one
    /// interval after `start_time_ns` (zero stands for now) up to
    /// `stop_time_ns`, replacing any timer of that name. A given callback is
    /// registered for the name. A start in the past is kept, and the missed
    /// firings come on the next advance, unless `allow_past` is
    /// `Some(false)`, which refuses it. A timer whose first firing would lie
    /// past its stop is not installed.
    pub fn set_timer_ns(
        &mut self,
        name: &str,
        interval_ns: u64,
        start_time_ns: u64,
        stop_time_ns: Option<u64>,
        callback: Option<CallbackRef>,
        allow_past: Option<bool>,
    ) -> (r: Result<(), ClockError>)
        requires
            old(self).wf(),
        ensures
            final(self).wf(),
            r == timer_outcome(
                old(self)@,
                name@,
                interval_ns as nat,
                start_time_ns as nat,
                opt_nat(stop_time_ns),
                callback,
                allow_past,
            ),
            r is Err ==> final(self)@ == old(self)@,
            r is Ok ==> final(self)@ == (ClockView {
                timers: final(self)@.timers,
                callbacks: registered(old(self)@, name@, callback),
                ..old(self)@
            }),
            r is Ok ==> installs(
                old(self)@.timers,
                periodic_view(
                    name@,
                    interval_ns as nat,
                    effective_start(old(self)@, start_time_ns as nat),
                    opt_nat(stop_time_ns),
                ),
                final(self)@.timers,
            ),
    {
        if !is_valid_name(name) {
            return Err(ClockError::InvalidName);
        }
        if interval_ns == 0 {
            return Err(ClockError::ZeroInterval);
        }
        if callback.is_none() && !self.registry.contains(name) && self.registry.get_default().is_none() {
            return Err(ClockError::NoCallback);
        }
        let now = self.time.now_ns();
        let allow = match allow_past {
            Some(b) => b,
            None => true,
        };
        if start_time_ns != 0 && start_time_ns < now && !allow {
            return Err(ClockError::StartInPast { start_ns: start_time_ns, now_ns: now });
        }
        let start = if start_time_ns == 0 {
            now
        } else {
            start_time_ns
        };
        if let Some(stop) = stop_time_ns {
            if stop <= start {
                return Err(ClockError::StopNotAfterStart { start_ns: start, stop_ns: stop });
            }
        }
        if let Some(cb) = callback {
            self.registry.register(name, cb);
        }
        let timer = Timer::new(name.to_owned(), interval_ns, start, stop_time_ns);
        self.install(timer);
        Ok(())
    }

    /// Advances to `to_time_ns` and returns every event due up to it, in
    /// order of instant and then timer name. With `set_time` the current
    /// instant moves to `to_time_ns`.
    pub fn advance_time(&mut self, to_time_ns: u64, set_time: bool) -> (r: Vec<TimeEvent>)
        requires
            old(self).wf(),
            old(self)@.now <= to_time_ns,
        ensures
            final(self).wf(),
            advance_post(old(self)@, to_time_ns as nat, set_time, r@, final(self)@),
    {
        let ghost start = self@;
        let ghost to = to_time_ns as nat;
        if set_time {
            self.time.set(to_time_ns);
        }
        let ghost orig = self@.timers;
        let ghost base = self.next_id as nat;
        let mut out: Vec<TimeEvent> = Vec::new();
        proof {
            lemma_merge_start(orig, to, base);
            assert(out@ =~= Seq::<TimeEvent>::empty());
            vstd::arithmetic::div_mod::lemma_small_mod(base, crate::event::id_modulus());
        }
        let mut pick = earliest_due(&self.timers, to_time_ns);
        assert(self@.timers =~= self.timers@.map_values(|t: Timer| t@));
        while pick.is_some()
            invariant
                self.registry == old(self).registry,
                self.queue == old(self).queue,
                self.time@ == (if set_time { to } else { start.now }),
                merge_inv(orig, self@.timers, out@, to, base),
                names_sorted(orig),
                to == to_time_ns as nat,
                self.next_id as nat == seq_id(base, out@.len()),
                pick matches Some(b) ==> crate::schedule::earliest(self@.timers, to, b as int),
                pick is None ==> forall|i: int|
                    0 <= i < self.timers@.len() ==> !(#[trigger] self.timers@[i]@).due(to),
            decreases pending_count(self@.timers, to),
        {
            let b = pick.unwrap();
            let ghost cur = self@.timers;
            let ghost before = out@;
            let n = self.timers[b].fire();
            let e = TimeEvent::new(self.timers[b].name().to_owned(), self.next_id, n, n);
            proof {
                lemma_merge_step(orig, cur, before, to, base, b as int, e);
            }
            out.push(e);
            self.next_id = following_id(self.next_id);
            proof {
                assert(self@.timers =~= cur.update(b as int, stepped(cur[b as int])));
                crate::timer::lemma_seq_id_next(base, before.len());
            }
            pick = earliest_due(&self.timers, to_time_ns);
            assert(self@.timers =~= self.timers@.map_values(|t: Timer| t@));
        }
        proof {
            assert forall|i: int| 0 <= i < self@.timers.len() implies !(
            #[trigger] self@.timers[i]).due(to) by {
                assert(self@.timers[i] == self.timers@[i]@);
            }
            lemma_merge_done(orig, self@.timers, out@, to, base);
        }
        let ghost adv = self@.timers;
        let mut i: usize = 0;
        let ghost mut j: int = 0;
        proof {
            assert(adv.subrange(0, 0) =~= Seq::<TimerView>::empty());
            assert(active_only(adv.subrange(0, 0)) =~= Seq::<TimerView>::empty()) by {
                reveal(Seq::filter);
            }
            assert(self@.timers.subrange(0, 0) =~= Seq::<TimerView>::empty());
            assert(self@.timers.subrange(0, self@.timers.len() as int) =~= adv.subrange(0, adv.len() as int));
        }
        while i < self.timers.len()
            invariant
                self.registry == old(self).registry,
                self.queue == old(self).queue,
                self.time@ == (if set_time { to } else { start.now }),
                self.next_id as nat == seq_id(base, out@.len()),
                0 <= j <= adv.len(),
                i <= self@.timers.len(),
                self@.timers.len() - i == adv.len() - j,
                self@.timers.subrange(0, i as int) == active_only(adv.subrange(0, j)),
                self@.timers.subrange(i as int, self@.timers.len() as int) == adv.subrange(j, adv.len() as int),
            decreases self@.timers.len() - i,
        {
            let ghost tv = self@.timers;
            assert(tv[i as int] == adv[j]) by {
                assert(tv.subrange(i as int, tv.len() as int)[0] == adv.subrange(j, adv.len() as int)[0]);
            }
            proof {
                assert(adv.subrange(0, j + 1) =~= adv.subrange(0, j).push(adv[j]));
                adv.subrange(0, j).lemma_filter_push(adv[j], |t: TimerView| !t.expired());
            }
            if self.timers[i].is_expired() {
                self.timers.remove(i);
                assert(self@.timers.subrange(0, i as int) =~= tv.subrange(0, i as int));
                assert(self@.timers.subrange(i as int, self@.timers.len() as int) =~= tv.subrange(i + 1, tv.len() as int));
            } else {
                i = i + 1;
                assert(self@.timers.subrange(0, i as int) =~= tv.subrange(0, i - 1).push(tv[i - 1]));
                assert(self@.timers.subrange(i as int, self@.timers.len() as int) =~= tv.subrange(i as int, tv.len() as int));
            }
            proof {
                j = j + 1;
                assert(adv.subrange(j, adv.len() as int) =~= adv.subrange(j - 1, adv.len() as int).drop_first());
            }
        }
        proof {
            assert(adv.subrange(0, j) =~= adv);
            assert(self@.timers =~= self@.timers.subrange(0, i as int));
            assert(names_sorted(adv)) by {
                assert forall|a: int, b: int| 0 <= a < b < adv.len() implies name_lt(adv[a].name, adv[b].name) by {
                    assert(adv[a].name == orig[a].name && adv[b].name == orig[b].name);
                }
            }
            lemma_filter_sorted(adv);
            assert forall|k: int| 0 <= k < self@.timers.len() implies (#[trigger] self@.timers[k]).wf()
                && !self@.timers[k].expired() by {
                assert(active_only(adv).contains(self@.timers[k]));
                let m = choose|m: int| 0 <= m < adv.len() && adv[m] == self@.timers[k];
            }
            crate::event::lemma_strictly_ordered_is_sorted(out@);
        }
        out
    }

    /// Advances to `to_time_ns`, moving the current instant there, and puts
    /// the events due on the queue instead of returning them.
    pub fn advance_to_time_on_heap(&mut self, to_time_ns: u64)
        requires
            old(self).wf(),
            old(self)@.now <= to_time_ns,
        ensures
            final(self).wf(),
            exists|ev: Seq<TimeEvent>|
                {
                    &&& advance_post(
                        old(self)@,
                        to_time_ns as nat,
                        true,
                        ev,
                        ClockView { queue: old(self)@.queue, ..final(self)@ },
                    )
                    &&& final(self)@.queue.to_multiset() == old(self)@.queue.to_multiset().add(
                        ev.to_multiset(),
                    )
                },
    {
        let mut events = self.advance_time(to_time_ns, true);
        let ghost ev = events@;
        let ghost mid = self@;
        assert(events@.to_multiset() == ev.to_multiset());
        while events.len() > 0
            invariant
                self.wf(),
                self@ == (ClockView { queue: self@.queue, ..mid }),
                self@.queue.to_multiset().add(events@.to_multiset()) == mid.queue.to_multiset().add(
                    ev.to_multiset(),
                ),
            decreases events@.len(),
        {
            let ghost rest = events@;
            let e = events.pop().unwrap();
            proof {
                assert(rest =~= events@.push(e));
                events@.to_multiset_ensures();
            }
            self.queue.push(e);
            assert(self@.queue.to_multiset().add(events@.to_multiset()) =~= mid.queue.to_multiset().add(ev.to_multiset()));
        }
        proof {
            events@.to_multiset_ensures();
            assert(events@.to_multiset() =~= Multiset::<TimeEvent>::empty());
            assert(self@.queue.to_multiset() =~= self@.queue.to_multiset().add(events@.to_multiset()));
        }
    }

    /// Takes the earliest queued event and binds it to its callback.
    pub fn next_handler(&mut self) -> (r: Option<TimeEventHandler>)
        requires
            old(self).wf(),
            old(self)@.queue.len() > 0 ==> old(self)@.handler(old(self)@.queue[0].name@) is Some,
        ensures
            final(self).wf(),
            old(self)@.queue.len() == 0 ==> r is None && final(self)@ == old(self)@,
            old(self)@.queue.len() > 0 ==> {
                &&& r matches Some(h)
                &&& h.event == old(self)@.queue[0]
                &&& Some(h.callback) == old(self)@.handler(h.event.name@)
                &&& final(self)@ == (ClockView { queue: old(self)@.queue.drop_first(), ..old(self)@ })
            },
    {
        match self.queue.pop() {
            Some(e) => Some(self.get_handler(e)),
            None => None,
        }
    }

    /// Binds each event to the callback that handles it, keeping their order.
    pub fn match_handlers(&self, events: Vec<TimeEvent>) -> (r: Vec<TimeEventHandler>)
        requires
            self.wf(),
            forall|k: int| 0 <= k < events@.len() ==> self@.handler((#[trigger] events@[k]).name@) is Some,
        ensures
            r@.len() == events@.len(),
            forall|k: int|
                0 <= k < r@.len() ==> (#[trigger] r@[k]).event == events@[k] && Some(r@[k].callback)
                    == self@.handler(events@[k].name@),
    {
        let ghost ev = events@;
        let n = events.len();
        let mut events = events;
        let mut reversed: Vec<TimeEventHandler> = Vec::new();
        while events.len() > 0
            invariant
                self.wf(),
                n == ev.len(),
                events@ == ev.subrange(0, events@.len() as int),
                reversed@.len() + events@.len() == n,
                forall|k: int|
                    0 <= k < reversed@.len() ==> (#[trigger] reversed@[k]).event == ev[n - 1 - k]
                        && Some(reversed@[k].callback) == self@.handler(ev[n - 1 - k].name@),
                forall|k: int| 0 <= k < ev.len() ==> self@.handler((#[trigger] ev[k]).name@) is Some,
            decreases events@.len(),
        {
            let e = events.pop().unwrap();
            assert(e == ev[events@.len() as int]);
            reversed.push(self.get_handler(e));
            assert(events@ =~= ev.subrange(0, events@.len() as int));
        }
        let ghost rev = reversed@;
        let mut out: Vec<TimeEventHandler> = Vec::new();
        while reversed.len() > 0
            invariant
                n == ev.len(),
                n == rev.len(),
                reversed@ == rev.subrange(0, reversed@.len() as int),
                out@.len() + reversed@.len() == n,
                forall|k: int|
                    0 <= k < n ==> (#[trigger] rev[k]).event == ev[n - 1 - k] && Some(rev[k].callback)
                        == self@.handler(ev[n - 1 - k].name@),
                forall|k: int| 0 <= k < out@.len() ==> #[trigger] out@[k] == rev[n - 1 - k],
            decreases reversed@.len(),
        {
            let h = reversed.pop().unwrap();
            assert(h == rev[reversed@.len() as int]);
            out.push(h);
            assert(reversed@ =~= rev.subrange(0, reversed@.len() as int));
        }
        assert forall|k: int| 0 <= k < out@.len() implies (#[trigger] out@[k]).event == ev[k] && Some(out@[k].callback)
            == self@.handler(ev[k].name@) by {
            assert(out@[k] == rev[n - 1 - k]);
        }
        out
    }

    /// Whether events of `name` have a callback: their own or the default.
    pub fn has_handler(&self, name: &str) -> (r: bool)
        requires
            self.wf(),
        ensures
            r == (self@.handler(name@) is Some),
    {
        self.registry.handler_for(name).is_some()
    }

    /// The name of the earliest queued event, if any.
    pub fn next_event_name(&self) -> (r: Option<&str>)
        requires
            self.wf(),
        ensures
            self@.queue.len() == 0 ==> r is None,
            self@.queue.len() > 0 ==> (r matches Some(n) && n@ == self@.queue[0].name@),
    {
        match self.queue.peek() {
            Some(e) => Some(e.name.as_str()),
            None => None,
        }
    }

    /// Binds `event` to the callback that handles it: its timer's own, else
    /// the default.
    pub fn get_handler(&self, event: TimeEvent) -> (r: TimeEventHandler)
        requires
            self.wf(),
            self@.handler(event.name@) is Some,
        ensures
            r.event == event,
            Some(r.callback) == self@.handler(event.name@),
    {
        let cb = self.registry.handler_for(event.name.as_str());
        TimeEventHandler::new(event, cb.unwrap())
    }
}

} // verus!
