//! Properties that hold across calls: ordering over successive advances,
//! the instants a timer fires at, replacement of same-named timers, and the
//! idempotence of cancelling and resetting.
use vstd::prelude::*;
use crate::clock::{ClockView, advance_post, installs, removes};
use crate::event::{TimeEvent, event_le, sorted_events};
use crate::names::{name_lt, lemma_name_lt_irreflexive};
use crate::schedule::{active_only, emitted, names_sorted, scheduled};
use crate::timer::{
    TimerView, advanced, alert_view, fire_times, fires, limit, periodic_view, stepped,
    lemma_fires_bounds, lemma_fire_times_shape, lemma_step,
};

verus! {

proof fn lemma_fire_times_last(n: nat, i: nat, lim: nat)
    requires
        i > 0,
        fire_times(n, i, lim).len() > 0,
    ensures
        fire_times(n, i, lim).last() + i > lim,
    decreases (if n > lim { 0 } else { lim + 1 - n }),
{
    let rest = fire_times(n + i, i, lim);
    assert(fire_times(n, i, lim) == seq![n] + rest);
    if rest.len() > 0 {
        lemma_fire_times_last(n + i, i, lim);
        assert((seq![n] + rest).last() == rest.last());
    }
}

/// After advancing to `to`, a timer is no longer due at `to` and is still
/// well formed.
pub proof fn lemma_advanced_not_due(t: TimerView, to: nat)
    requires
        t.wf(),
        to <= u64::MAX,
    ensures
        !advanced(t, to).due(to),
        advanced(t, to).wf(),
        advanced(t, to).name == t.name,
{
    lemma_fires_bounds(t, to);
    let f = fires(t, to);
    if f.len() > 0 {
        lemma_fire_times_last(t.next->0, t.interval, limit(t, to));
        assert(f[f.len() - 1] == f.last());
    }
}

/// A sequence of timers none of which is expired keeps all of them.
pub proof fn lemma_active_only_all(s: Seq<TimerView>)
    requires
        forall|i: int| 0 <= i < s.len() ==> !(#[trigger] s[i]).expired(),
    ensures
        active_only(s) == s,
    decreases s.len(),
{
    reveal(Seq::filter);
    if s.len() > 0 {
        lemma_active_only_all(s.drop_last());
        assert(s.drop_last().push(s.last()) =~= s);
    }
}

/// Within one advance, and across successive advances to non-decreasing
/// instants, events come out in delivery order: `(ts_event, name, id)`.
pub proof fn lemma_successive_advances_sorted(
    c0: ClockView,
    to1: nat,
    set1: bool,
    e1: Seq<TimeEvent>,
    c1: ClockView,
    to2: nat,
    set2: bool,
    e2: Seq<TimeEvent>,
    c2: ClockView,
)
    requires
        c0.wf(),
        to1 <= to2 <= u64::MAX,
        advance_post(c0, to1, set1, e1, c1),
        advance_post(c1, to2, set2, e2, c2),
    ensures
        sorted_events(e1),
        sorted_events(e2),
        sorted_events(e1 + e2),
{
    crate::event::lemma_strictly_ordered_is_sorted(e1);
    crate::event::lemma_strictly_ordered_is_sorted(e2);
    let adv = c0.timers.map_values(|t: TimerView| advanced(t, to1));
    assert forall|i: int| 0 <= i < adv.len() implies !(#[trigger] adv[i]).due(to1) && adv[i].wf() by {
        lemma_advanced_not_due(c0.timers[i], to1);
    }
    crate::schedule::lemma_filter_sorted_members(adv);
    assert forall|k: int| 0 <= k < e1.len() implies (#[trigger] e1[k]).ts_event <= to1 by {
        assert(emitted(e1, e1[k].ts_event as nat, e1[k].name@));
        assert(scheduled(c0.timers, to1, e1[k].ts_event as nat, e1[k].name@));
        let i = choose|i: int|
            0 <= i < c0.timers.len() && c0.timers[i].name == e1[k].name@ && fires(
                c0.timers[i],
                to1,
            ).contains(e1[k].ts_event as nat);
        lemma_fires_bounds(c0.timers[i], to1);
    }
    assert forall|k: int| 0 <= k < e2.len() implies (#[trigger] e2[k]).ts_event > to1 by {
        assert(emitted(e2, e2[k].ts_event as nat, e2[k].name@));
        assert(scheduled(c1.timers, to2, e2[k].ts_event as nat, e2[k].name@));
        let i = choose|i: int|
            0 <= i < c1.timers.len() && c1.timers[i].name == e2[k].name@ && fires(
                c1.timers[i],
                to2,
            ).contains(e2[k].ts_event as nat);
        assert(active_only(adv).contains(c1.timers[i]));
        let m = choose|m: int| 0 <= m < adv.len() && adv[m] == c1.timers[i];
        lemma_fires_bounds(c1.timers[i], to2);
    }
    let all = e1 + e2;
    assert forall|i: int, j: int| 0 <= i < j < all.len() implies event_le(all[i], all[j]) by {
        if j < e1.len() {
            assert(all[i] == e1[i] && all[j] == e1[j]);
        } else if i >= e1.len() {
            assert(all[i] == e2[i - e1.len()] && all[j] == e2[j - e1.len()]);
        } else {
            assert(all[i] == e1[i] && all[j] == e2[j - e1.len()]);
        }
    }
}

/// The `k`-th instant of the grid `start + k * interval`.
pub open spec fn grid_point(start: nat, interval: nat, k: nat) -> nat {
    start + k * interval
}

/// A periodic timer fires exactly at `start + k * interval` for `k >= 1`, up
/// to its stop and to the instant advanced to.
pub proof fn lemma_periodic_fire_instants(
    name: Seq<char>,
    interval: nat,
    start: nat,
    stop: Option<nat>,
    to: nat,
)
    requires
        0 < interval <= u64::MAX,
        start <= u64::MAX,
        to <= u64::MAX,
        stop matches Some(s) ==> start < s <= u64::MAX,
    ensures
        forall|x: nat|
            fires(periodic_view(name, interval, start, stop), to).contains(x) <==> exists|k: nat|
                k >= 1 && x == #[trigger] grid_point(start, interval, k) && x <= to && (stop matches Some(s) ==> x <= s),
{
    let t = periodic_view(name, interval, start, stop);
    let f = fires(t, to);
    let first = start + interval;
    if let Some(n) = t.next {
        lemma_fire_times_shape(n, interval, limit(t, to));
    }
    assert forall|x: nat| f.contains(x) implies exists|k: nat|
        k >= 1 && x == #[trigger] grid_point(start, interval, k) && x <= to && (stop matches Some(s) ==> x <= s) by {
        let j = choose|j: int| 0 <= j < f.len() && f[j] == x;
        let k = (j + 1) as nat;
        assert(x == first + j * interval);
        assert(first + j * interval == start + k * interval) by (nonlinear_arith)
            requires
                first == start + interval,
                k == j + 1,
        ;
        assert(x == grid_point(start, interval, k));
    }
    assert forall|x: nat|
        (exists|k: nat|
            k >= 1 && x == #[trigger] grid_point(start, interval, k) && x <= to && (stop matches Some(s) ==> x
                <= s)) implies f.contains(x) by {
        let k = choose|k: nat|
            k >= 1 && x == #[trigger] grid_point(start, interval, k) && x <= to && (stop matches Some(s) ==> x <= s);
        assert(first <= x) by (nonlinear_arith)
            requires
                first == start + interval,
                k >= 1,
                x == start + k * interval,
                interval > 0,
        ;
        assert(t.next == Some(first));
        assert(first + (k - 1) * interval == x) by (nonlinear_arith)
            requires
                first == start + interval,
                k >= 1,
                x == start + k * interval,
        ;
        assert(x <= limit(t, to));
        lemma_fire_times_member(first, interval, limit(t, to), (k - 1) as nat);
    }
}

proof fn lemma_fire_times_member(n: nat, i: nat, lim: nat, j: nat)
    requires
        i > 0,
        n + j * i <= lim,
    ensures
        fire_times(n, i, lim).contains(n + j * i),
    decreases j,
{
    let s = fire_times(n, i, lim);
    assert(n <= n + j * i) by (nonlinear_arith);
    if j == 0 {
        assert(s[0] == n);
        assert(n + j * i == n) by (nonlinear_arith)
            requires
                j == 0,
        ;
    } else {
        assert(n + i + (j - 1) * i == n + j * i) by (nonlinear_arith);
        lemma_fire_times_member(n + i, i, lim, (j - 1) as nat);
        let rest = fire_times(n + i, i, lim);
        assert(s == seq![n] + rest);
        let k = choose|k: int| 0 <= k < rest.len() && rest[k] == n + j * i;
        assert(s[k + 1] == n + j * i);
    }
}

/// Advancing a timer to `a` and then to `b` fires exactly what advancing it
/// straight to `b` fires, in the same order: splitting an advance loses and
/// repeats nothing.
pub proof fn lemma_fires_split(t: TimerView, a: nat, b: nat)
    requires
        t.wf(),
        a <= b <= u64::MAX,
    ensures
        fires(t, a) + fires(advanced(t, a), b) == fires(t, b),
    decreases fires(t, a).len(),
{
    lemma_fires_bounds(t, a);
    if t.due(a) {
        lemma_step(t, a);
        lemma_step(t, b);
        lemma_fires_split(stepped(t), a, b);
        assert(fires(t, a) + fires(advanced(t, a), b) =~= seq![t.next->0] + (fires(stepped(t), a)
            + fires(advanced(stepped(t), a), b)));
    } else {
        assert(fires(t, a) =~= Seq::<nat>::empty());
        assert(fires(t, a) + fires(advanced(t, a), b) =~= fires(t, b));
    }
}

/// A periodic timer whose stop lies one interval after its start fires
/// exactly once, at its stop, and is then expired.
pub proof fn lemma_single_period(name: Seq<char>, interval: nat, start: nat, to: nat)
    requires
        0 < interval <= u64::MAX,
        start + interval <= to <= u64::MAX,
    ensures
        fires(periodic_view(name, interval, start, Some(start + interval)), to) == seq![start + interval],
        advanced(periodic_view(name, interval, start, Some(start + interval)), to).expired(),
{
    let t = periodic_view(name, interval, start, Some(start + interval));
    let n = start + interval;
    assert(limit(t, to) == n);
    assert(fire_times(n + interval, interval, n) =~= Seq::<nat>::empty());
    assert(fires(t, to) =~= seq![n]);
}

/// An alert fires exactly once, at its instant, once advanced to or past
/// it; an alert set for the current instant fires on the next advance.
pub proof fn lemma_alert_fires_once(name: Seq<char>, now: nat, at: nat, to: nat)
    requires
        now <= at <= to,
        to <= u64::MAX,
    ensures
        fires(alert_view(name, now, at), to) == seq![at],
        advanced(alert_view(name, now, at), to).expired(),
{
    let t = alert_view(name, now, at);
    assert(limit(t, to) == at);
    assert(fire_times(at + t.interval, t.interval, at) =~= Seq::<nat>::empty());
    assert(fires(t, to) =~= seq![at]);
}

/// Registering a timer under a name that is taken replaces the old timer:
/// afterwards exactly one timer carries the name, the new one, and every
/// other timer stays.
pub proof fn lemma_register_replaces(old: Seq<TimerView>, t: TimerView, new: Seq<TimerView>)
    requires
        names_sorted(new),
        installs(old, t, new),
        !t.expired(),
    ensures
        new.contains(t),
        forall|i: int| 0 <= i < new.len() && new[i].name == t.name ==> new[i] == t,
        forall|i: int, j: int|
            0 <= i < new.len() && 0 <= j < new.len() && new[i].name == new[j].name ==> i == j,
        forall|x: TimerView| x.name != t.name ==> (new.contains(x) <==> old.contains(x)),
{
    assert(new.contains(t));
    assert forall|i: int| 0 <= i < new.len() && new[i].name == t.name implies new[i] == t by {
        assert(new.contains(new[i]));
    }
    assert forall|i: int, j: int|
        0 <= i < new.len() && 0 <= j < new.len() && new[i].name == new[j].name implies i == j by {
        lemma_name_lt_irreflexive(new[i].name);
        if i < j {
            assert(name_lt(new[i].name, new[j].name));
        } else if j < i {
            assert(name_lt(new[j].name, new[i].name));
        }
    }
    assert forall|x: TimerView| x.name != t.name implies (new.contains(x) <==> old.contains(x)) by {
        assert(new.contains(x) <==> ((old.contains(x) && x.name != t.name) || (x == t
            && !t.expired())));
    }
}

/// Setting an alert, cancelling it, and setting it again leaves one timer of
/// that name, which fires exactly once, at the alert instant.
pub proof fn lemma_realert_after_cancel(
    c0: ClockView,
    c1: ClockView,
    c2: ClockView,
    c3: ClockView,
    name: Seq<char>,
    now: nat,
    at: nat,
    to: nat,
    ev: Seq<TimeEvent>,
    d: ClockView,
)
    requires
        c1.wf(),
        c2.wf(),
        c3.wf(),
        now <= at <= to <= u64::MAX,
        installs(c0.timers, alert_view(name, now, at), c1.timers),
        removes(c1.timers, name, c2.timers),
        installs(c2.timers, alert_view(name, now, at), c3.timers),
        advance_post(c3, to, true, ev, d),
    ensures
        forall|x: nat| emitted(ev, x, name) <==> x == at,
        forall|k1: int, k2: int|
            0 <= k1 < ev.len() && 0 <= k2 < ev.len() && ev[k1].name@ == name && ev[k2].name@
                == name ==> k1 == k2,
{
    let a = alert_view(name, now, at);
    lemma_register_replaces(c2.timers, a, c3.timers);
    lemma_alert_fires_once(name, now, at, to);
    assert forall|x: nat| emitted(ev, x, name) <==> x == at by {
        if x == at {
            let i = choose|i: int| 0 <= i < c3.timers.len() && c3.timers[i] == a;
            assert(fires(a, to)[0] == at);
            assert(fires(a, to).contains(at));
            assert(scheduled(c3.timers, to, at, name));
        }
        if scheduled(c3.timers, to, x, name) {
            let i = choose|i: int|
                0 <= i < c3.timers.len() && c3.timers[i].name == name && fires(
                    c3.timers[i],
                    to,
                ).contains(x);
            assert(c3.timers[i] == a);
        }
    }
    assert forall|k1: int, k2: int|
        0 <= k1 < ev.len() && 0 <= k2 < ev.len() && ev[k1].name@ == name && ev[k2].name@
            == name implies k1 == k2 by {
        assert(emitted(ev, ev[k1].ts_event as nat, name));
        assert(emitted(ev, ev[k2].ts_event as nat, name));
        lemma_name_lt_irreflexive(name);
        if k1 < k2 {
            assert(crate::event::fires_before(
                ev[k1].ts_event as nat,
                ev[k1].name@,
                ev[k2].ts_event as nat,
                ev[k2].name@,
            ));
        } else if k2 < k1 {
            assert(crate::event::fires_before(
                ev[k2].ts_event as nat,
                ev[k2].name@,
                ev[k1].ts_event as nat,
                ev[k1].name@,
            ));
        }
    }
}

/// An alert set for the current instant fires on the next advance.
pub proof fn lemma_alert_now_fires_next(
    c: ClockView,
    name: Seq<char>,
    to: nat,
    set_time: bool,
    ev: Seq<TimeEvent>,
    d: ClockView,
)
    requires
        c.timers.contains(alert_view(name, c.now, c.now)),
        c.now <= to <= u64::MAX,
        advance_post(c, to, set_time, ev, d),
    ensures
        emitted(ev, c.now, name),
{
    lemma_alert_fires_once(name, c.now, c.now, to);
    let a = alert_view(name, c.now, c.now);
    let i = choose|i: int| 0 <= i < c.timers.len() && c.timers[i] == a;
    assert(fires(a, to)[0] == c.now);
    assert(fires(a, to).contains(c.now));
    assert(scheduled(c.timers, to, c.now, name));
}

/// Advancing to the current instant, when no timer is due at it, returns
/// nothing and leaves every timer as it was.
pub proof fn lemma_advance_to_now(c: ClockView, set_time: bool, ev: Seq<TimeEvent>, d: ClockView)
    requires
        c.wf(),
        forall|i: int| 0 <= i < c.timers.len() ==> !(#[trigger] c.timers[i]).due(c.now),
        advance_post(c, c.now, set_time, ev, d),
    ensures
        ev.len() == 0,
        d == c,
{
    assert forall|i: int| 0 <= i < c.timers.len() implies #[trigger] advanced(c.timers[i], c.now)
        == c.timers[i] by {
        lemma_fires_bounds(c.timers[i], c.now);
    }
    assert(c.timers.map_values(|t: TimerView| advanced(t, c.now)) =~= c.timers);
    lemma_active_only_all(c.timers);
    if ev.len() > 0 {
        assert(emitted(ev, ev[0].ts_event as nat, ev[0].name@));
        let i = choose|i: int|
            0 <= i < c.timers.len() && c.timers[i].name == ev[0].name@ && fires(
                c.timers[i],
                c.now,
            ).contains(ev[0].ts_event as nat);
        lemma_fires_bounds(c.timers[i], c.now);
    }
    vstd::arithmetic::div_mod::lemma_small_mod(c.next_id, crate::event::id_modulus());
}

/// On a well-formed clock every installed timer is active and no name occurs
/// twice, so the number of timers is the number of active names.
pub proof fn lemma_count_is_active_names(c: ClockView)
    requires
        c.wf(),
    ensures
        active_only(c.timers) == c.timers,
        forall|i: int, j: int|
            0 <= i < c.timers.len() && 0 <= j < c.timers.len() && c.timers[i].name
                == c.timers[j].name ==> i == j,
{
    lemma_active_only_all(c.timers);
    assert forall|i: int, j: int|
        0 <= i < c.timers.len() && 0 <= j < c.timers.len() && c.timers[i].name
            == c.timers[j].name implies i == j by {
        lemma_name_lt_irreflexive(c.timers[i].name);
        if i < j {
            assert(name_lt(c.timers[i].name, c.timers[j].name));
        } else if j < i {
            assert(name_lt(c.timers[j].name, c.timers[i].name));
        }
    }
}

/// Cancelling every timer twice is the same as once: the second call
/// changes nothing.
pub proof fn lemma_cancel_all_idempotent(c0: ClockView, c1: ClockView, c2: ClockView)
    requires
        c1 == (ClockView { timers: Seq::empty(), ..c0 }),
        c2 == (ClockView { timers: Seq::empty(), ..c1 }),
    ensures
        c2 == c1,
{
}

} // verus!
