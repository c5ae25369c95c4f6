//! Timers: the state machines that produce time events.
use vstd::prelude::*;
use vstd::arithmetic::div_mod::lemma_add_mod_noop;
use vstd::arithmetic::div_mod::lemma_mod_twice;
use crate::event::{TimeEvent, seq_id, id_modulus, following_id};

verus! {

/// What a timer is: its name, interval, start, optional stop, and the instant
/// of its next firing (`None` once expired or cancelled).
pub struct TimerView {
    pub name: Seq<char>,
    pub interval: nat,
    pub start: nat,
    pub stop: Option<nat>,
    pub next: Option<nat>,
}

impl TimerView {
    /// A positive interval, instants that fit in 64 bits, and a next firing
    /// that does not lie past the stop.
    pub open spec fn wf(self) -> bool {
        &&& self.interval > 0
        &&& self.interval <= u64::MAX
        &&& self.start <= u64::MAX
        &&& (self.stop matches Some(s) ==> s <= u64::MAX)
        &&& (self.next matches Some(n) ==> n <= u64::MAX)
        &&& (self.next matches Some(n) ==> self.start <= n)
        &&& (self.next matches Some(n) ==> (self.stop matches Some(s) ==> n <= s))
    }

    /// The timer has no further firing.
    pub open spec fn expired(self) -> bool {
        self.next is None
    }

    /// The timer's next firing lies at or before `to`.
    pub open spec fn due(self, to: nat) -> bool {
        self.next matches Some(n) && n <= to
    }
}

/// The last instant up to which the timer may fire when advanced to `to`.
pub open spec fn limit(t: TimerView, to: nat) -> nat {
    match t.stop {
        Some(s) => if s < to { s } else { to },
        None => to,
    }
}

/// `n, n + i, n + 2i, ...` as far as `lim`.
pub open spec fn fire_times(n: nat, i: nat, lim: nat) -> Seq<nat>
    decreases (if n > lim { 0 } else { lim + 1 - n }),
{
    if i == 0 || n > lim {
        Seq::empty()
    } else {
        seq![n] + fire_times(n + i, i, lim)
    }
}

/// The instants at which `t` fires when advanced to `to`, in order.
pub open spec fn fires(t: TimerView, to: nat) -> Seq<nat> {
    match t.next {
        Some(n) => fire_times(n, t.interval, limit(t, to)),
        None => Seq::empty(),
    }
}

/// The next firing after one at `n`: none past the stop or past the last
/// representable instant.
pub open spec fn next_after(t: TimerView, n: nat) -> Option<nat> {
    let m = n + t.interval;
    if m > u64::MAX || (t.stop matches Some(s) && m > s) {
        None
    } else {
        Some(m)
    }
}

/// `t` after firing once.
pub open spec fn stepped(t: TimerView) -> TimerView {
    TimerView { next: next_after(t, t.next->0), ..t }
}

/// `t` after advancing to `to`.
pub open spec fn advanced(t: TimerView, to: nat) -> TimerView {
    let f = fires(t, to);
    if f.len() == 0 {
        t
    } else {
        TimerView { next: next_after(t, f.last()), ..t }
    }
}

/// A fresh periodic timer: it first fires one interval after its start.
pub open spec fn periodic_view(
    name: Seq<char>,
    interval: nat,
    start: nat,
    stop: Option<nat>,
) -> TimerView {
    let first = start + interval;
    TimerView {
        name,
        interval,
        start,
        stop,
        next: if first > u64::MAX || (stop matches Some(s) && first > s) {
            None
        } else {
            Some(first)
        },
    }
}

/// A one-shot timer made at `now` that fires once at `at`.
pub open spec fn alert_view(name: Seq<char>, now: nat, at: nat) -> TimerView {
    TimerView {
        name,
        interval: if at == now { 1 } else { (at - now) as nat },
        start: now,
        stop: Some(at),
        next: Some(at),
    }
}

/// An interval made usable: zero becomes the smallest positive interval.
pub fn valid_interval(interval: u64) -> (r: u64)
    ensures
        r == if interval == 0 { 1 } else { interval },
{
    if interval == 0 {
        1
    } else {
        interval
    }
}

/// Every instant of `fire_times(n, i, lim)` is `n` plus a multiple of `i`,
/// lies within `[n, lim]`, and the instants increase strictly.
pub proof fn lemma_fire_times_shape(n: nat, i: nat, lim: nat)
    ensures
        forall|k: int|
            0 <= k < fire_times(n, i, lim).len() ==> n <= #[trigger] fire_times(n, i, lim)[k]
                <= lim,
        forall|k: int|
            0 <= k < fire_times(n, i, lim).len() ==> #[trigger] fire_times(n, i, lim)[k] == n
                + k * i,
        forall|a: int, b: int|
            0 <= a < b < fire_times(n, i, lim).len() ==> fire_times(n, i, lim)[a]
                < fire_times(n, i, lim)[b],
    decreases (if n > lim { 0 } else { lim + 1 - n }),
{
    if i == 0 || n > lim {
    } else {
        lemma_fire_times_shape(n + i, i, lim);
        let s = fire_times(n, i, lim);
        let t = fire_times(n + i, i, lim);
        assert(s =~= seq![n] + t);
        assert forall|k: int| 0 <= k < s.len() implies #[trigger] s[k] == n + k * i by {
            if k > 0 {
                assert(s[k] == t[k - 1]);
                assert(t[k - 1] == n + i + (k - 1) * i);
                assert(n + i + (k - 1) * i == n + k * i) by (nonlinear_arith);
            } else {
                assert(k * i == 0) by (nonlinear_arith)
                    requires
                        k == 0,
                ;
            }
        }
        assert forall|a: int, b: int| 0 <= a < b < s.len() implies s[a] < s[b] by {
            if a > 0 {
                assert(s[a] == t[a - 1]);
            }
            assert(s[b] == t[b - 1]);
        }
        assert forall|k: int| 0 <= k < s.len() implies n <= #[trigger] s[k] <= lim by {
            if k > 0 {
                assert(s[k] == t[k - 1]);
            }
        }
    }
}

/// Firing a due timer once takes its first firing off the front of what it
/// fires, and leaves where advancing ends unchanged.
pub proof fn lemma_step(t: TimerView, to: nat)
    requires
        t.wf(),
        t.due(to),
        to <= u64::MAX,
    ensures
        fires(t, to) == seq![t.next->0] + fires(stepped(t), to),
        advanced(stepped(t), to) == advanced(t, to),
        stepped(t).wf(),
{
    let n = t.next->0;
    let lim = limit(t, to);
    let rest = fire_times(n + t.interval, t.interval, lim);
    assert(fires(t, to) == seq![n] + rest);
    if next_after(t, n) is None {
        assert(n + t.interval > lim);
        assert(rest =~= Seq::<nat>::empty());
        assert(fires(stepped(t), to) =~= Seq::<nat>::empty());
        assert(fires(t, to) =~= seq![n]);
    } else {
        assert(fires(stepped(t), to) == rest);
        if rest.len() > 0 {
            assert((seq![n] + rest).last() == rest.last());
        } else {
            assert(fires(t, to) =~= seq![n]);
        }
    }
}

/// Firing stays inside the timer's bounds: after its start, at or before its
/// stop, and at or before the instant advanced to.
pub proof fn lemma_fires_bounds(t: TimerView, to: nat)
    requires
        t.wf(),
    ensures
        forall|k: int|
            0 <= k < fires(t, to).len() ==> t.start <= #[trigger] fires(t, to)[k] <= to
                && (t.stop matches Some(s) ==> fires(t, to)[k] <= s),
        fires(t, to).len() > 0 <==> t.due(to),
        fires(t, to).len() > 0 ==> fires(t, to)[0] == t.next->0,
        forall|k: int| 0 <= k < fires(t, to).len() ==> t.next->0 <= #[trigger] fires(t, to)[k],
        forall|a: int, b: int|
            0 <= a < b < fires(t, to).len() ==> fires(t, to)[a] < fires(t, to)[b],
{
    if let Some(n) = t.next {
        lemma_fire_times_shape(n, t.interval, limit(t, to));
        if n <= to {
            assert(fires(t, to)[0] == n);
        }
    }
}

/// A timer: it fires every `interval` nanoseconds from one interval after
/// its start, or once at an alert instant, and never past its stop.
pub struct Timer {
    name: String,
    interval: u64,
    start: u64,
    stop: Option<u64>,
    next: Option<u64>,
}

/// An optional instant as a mathematical one.
pub open spec fn opt_nat(o: Option<u64>) -> Option<nat> {
    match o {
        Some(x) => Some(x as nat),
        None => None,
    }
}

impl View for Timer {
    type V = TimerView;

    closed spec fn view(&self) -> TimerView {
        TimerView {
            name: self.name@,
            interval: self.interval as nat,
            start: self.start as nat,
            stop: opt_nat(self.stop),
            next: opt_nat(self.next),
        }
    }
}

impl Timer {
    /// Creates a periodic timer that fires at `start + interval`,
    /// `start + 2 * interval`, ... up to `stop`. One whose first firing lies
    /// past the stop (or past the last representable instant) is expired
    /// from the start.
    pub fn new(name: String, interval: u64, start: u64, stop: Option<u64>) -> (r: Timer)
        requires
            interval > 0,
            stop matches Some(s) ==> start < s,
        ensures
            r@ == periodic_view(name@, interval as nat, start as nat, opt_nat(stop)),
            r@.wf(),
    {
        let next = if interval > u64::MAX - start {
            None
        } else {
            let first = start + interval;
            match stop {
                Some(s) => if first > s {
                    None
                } else {
                    Some(first)
                },
                None => Some(first),
            }
        };
        Timer { name, interval, start, stop, next }
    }

    /// Creates a one-shot timer, made at `now`, that fires once at `at`.
    pub fn alert(name: String, now: u64, at: u64) -> (r: Timer)
        requires
            now <= at,
        ensures
            r@ == alert_view(name@, now as nat, at as nat),
            r@.wf(),
    {
        let interval = valid_interval(at - now);
        Timer { name, interval, start: now, stop: Some(at), next: Some(at) }
    }

    /// The timer's name.
    pub fn name(&self) -> (r: &str)
        ensures
            r@ == self@.name,
    {
        self.name.as_str()
    }

    /// The interval between firings, in nanoseconds.
    pub fn interval_ns(&self) -> (r: u64)
        ensures
            r == self@.interval,
    {
        self.interval
    }

    /// The instant the timer was started from.
    pub fn start_time_ns(&self) -> (r: u64)
        ensures
            r == self@.start,
    {
        self.start
    }

    /// The instant after which the timer never fires, if any.
    pub fn stop_time_ns(&self) -> (r: Option<u64>)
        ensures
            opt_nat(r) == self@.stop,
    {
        self.stop
    }

    /// The instant of the next firing, or `None` once expired.
    pub fn next_time_ns(&self) -> (r: Option<u64>)
        ensures
            opt_nat(r) == self@.next,
    {
        self.next
    }

    /// Whether the timer will fire no more.
    pub fn is_expired(&self) -> (r: bool)
        ensures
            r == self@.expired(),
    {
        self.next.is_none()
    }

    /// Whether the timer's next firing lies at or before `to`.
    pub fn is_due(&self, to: u64) -> (r: bool)
        ensures
            r == self@.due(to as nat),
    {
        match self.next {
            Some(n) => n <= to,
            None => false,
        }
    }

    /// A separate timer in the same state.
    pub fn duplicate(&self) -> (r: Timer)
        ensures
            r@ == self@,
    {
        Timer {
            name: self.name.clone(),
            interval: self.interval,
            start: self.start,
            stop: self.stop,
            next: self.next,
        }
    }

    /// Stops the timer: it fires no more.
    pub fn cancel(&mut self)
        ensures
            final(self)@ == (TimerView { next: None, ..old(self)@ }),
    {
        self.next = None;
    }

    /// Fires once: returns the instant fired and moves to the next one.
    pub fn fire(&mut self) -> (r: u64)
        requires
            old(self)@.wf(),
            !old(self)@.expired(),
        ensures
            r == old(self)@.next->0,
            final(self)@ == stepped(old(self)@),
            final(self)@.wf(),
    {
        let n = self.next.unwrap();
        self.next = if self.interval > u64::MAX - n {
            None
        } else {
            let m = n + self.interval;
            match self.stop {
                Some(s) => if m > s {
                    None
                } else {
                    Some(m)
                },
                None => Some(m),
            }
        };
        n
    }

    /// Advances the timer to `to` and returns the events it fires, in order:
    /// one for each instant of `fires`, numbered from `first_id`.
    pub fn advance(&mut self, to: u64, first_id: u64) -> (r: Vec<TimeEvent>)
        requires
            old(self)@.wf(),
        ensures
            final(self)@ == advanced(old(self)@, to as nat),
            final(self)@.wf(),
            r@.len() == fires(old(self)@, to as nat).len(),
            forall|k: int|
                0 <= k < r@.len() ==> {
                    &&& (#[trigger] r@[k]).name@ == old(self)@.name
                    &&& r@[k].ts_event == fires(old(self)@, to as nat)[k]
                    &&& r@[k].ts_init == r@[k].ts_event
                    &&& r@[k].id == seq_id(first_id as nat, k as nat)
                },
    {
        let ghost start = self@;
        let mut out: Vec<TimeEvent> = Vec::new();
        let mut id = first_id;
        proof {
            lemma_small_id(first_id);
        }
        while self.is_due(to)
            invariant
                self@.wf(),
                self@.name == start.name,
                fires(start, to as nat) == out@.map_values(|e: TimeEvent| e.ts_event as nat)
                    + fires(self@, to as nat),
                advanced(self@, to as nat) == advanced(start, to as nat),
                id == seq_id(first_id as nat, out@.len()),
                forall|k: int|
                    0 <= k < out@.len() ==> {
                        &&& (#[trigger] out@[k]).name@ == start.name
                        &&& out@[k].ts_init == out@[k].ts_event
                        &&& out@[k].id == seq_id(first_id as nat, k as nat)
                    },
            decreases fires(self@, to as nat).len(),
        {
            proof {
                lemma_step(self@, to as nat);
            }
            let ghost before = out@;
            let n = self.fire();
            out.push(TimeEvent::new(self.name.clone(), id, n, n));
            proof {
                lemma_seq_id_next(first_id as nat, before.len());
                assert(out@.map_values(|e: TimeEvent| e.ts_event as nat) =~= before.map_values(
                    |e: TimeEvent| e.ts_event as nat,
                ).push(n as nat));
            }
            id = following_id(id);
        }
        proof {
            lemma_fires_bounds(self@, to as nat);
            assert(fires(self@, to as nat) =~= Seq::<nat>::empty());
            assert(fires(start, to as nat) =~= out@.map_values(|e: TimeEvent| e.ts_event as nat));
        }
        out
    }
}

proof fn lemma_small_id(x: u64)
    ensures
        seq_id(x as nat, 0) == x,
{
    vstd::arithmetic::div_mod::lemma_small_mod(x as nat, id_modulus());
}

pub proof fn lemma_seq_id_next(base: nat, k: nat)
    ensures
        seq_id(seq_id(base, k), 1) == seq_id(base, k + 1),
{
    lemma_add_mod_noop((base + k) as int, 1, id_modulus() as int);
    lemma_mod_twice((base + k) as int, id_modulus() as int);
    vstd::arithmetic::div_mod::lemma_small_mod(1, id_modulus());
}

} // verus!
