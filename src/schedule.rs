//! How a simulated clock merges the firings of its timers into one ordered
//! stream: the model of the result, and the proof that picking the earliest
//! due timer, again and again, builds it.
use vstd::prelude::*;
use crate::event::{TimeEvent, fires_before, seq_id, strictly_ordered};
use crate::names::name_lt;
use crate::timer::{
    Timer, TimerView, advanced, fires, stepped, lemma_step, lemma_fires_bounds,
};

verus! {

/// Timers in strictly increasing name order, so no name occurs twice.
pub open spec fn names_sorted(s: Seq<TimerView>) -> bool {
    forall|i: int, j: int| 0 <= i < j < s.len() ==> name_lt(s[i].name, s[j].name)
}

/// Some event of `ev` fired at `at` for the timer named `name`.
pub open spec fn emitted(ev: Seq<TimeEvent>, at: nat, name: Seq<char>) -> bool {
    exists|k: int| 0 <= k < ev.len() && ev[k].ts_event == at && ev[k].name@ == name
}

/// Some timer of `ts` named `name` fires at `at` when advanced to `to`.
pub open spec fn scheduled(ts: Seq<TimerView>, to: nat, at: nat, name: Seq<char>) -> bool {
    exists|i: int| 0 <= i < ts.len() && ts[i].name == name && fires(ts[i], to).contains(at)
}

/// The timers of `s` that are not expired, in order.
pub open spec fn active_only(s: Seq<TimerView>) -> Seq<TimerView> {
    s.filter(|t: TimerView| !t.expired())
}

/// The timers left after advancing to `to`: each advanced, the expired dropped.
pub open spec fn remaining_timers(ts: Seq<TimerView>, to: nat) -> Seq<TimerView> {
    active_only(ts.map_values(|t: TimerView| advanced(t, to)))
}

/// The number of firings still due up to `to`.
pub open spec fn pending_count(s: Seq<TimerView>, to: nat) -> nat
    decreases s.len(),
{
    if s.len() == 0 {
        0
    } else {
        pending_count(s.drop_last(), to) + fires(s.last(), to).len()
    }
}

/// `b` is the due timer that fires first: earliest instant, then first in
/// order.
pub open spec fn earliest(cur: Seq<TimerView>, to: nat, b: int) -> bool {
    &&& 0 <= b < cur.len()
    &&& cur[b].due(to)
    &&& forall|j: int|
        0 <= j < cur.len() && (#[trigger] cur[j]).due(to) ==> cur[b].next->0 < cur[j].next->0 || (
        cur[b].next->0 == cur[j].next->0 && b <= j)
}

/// What holds midway through a merge of the firings of `orig` up to `to`:
/// `cur` are the timers as far as they have fired, `out` the events so far.
pub open spec fn merge_inv(
    orig: Seq<TimerView>,
    cur: Seq<TimerView>,
    out: Seq<TimeEvent>,
    to: nat,
    base: nat,
) -> bool {
    &&& cur.len() == orig.len()
    &&& forall|i: int|
        0 <= i < cur.len() ==> {
            &&& (#[trigger] cur[i]).wf()
            &&& cur[i].name == orig[i].name
            &&& advanced(cur[i], to) == advanced(orig[i], to)
        }
    &&& strictly_ordered(out)
    &&& forall|k: int|
        0 <= k < out.len() ==> (#[trigger] out[k]).id == seq_id(base, k as nat)
            && out[k].ts_init == out[k].ts_event
    &&& forall|at: nat, nm: Seq<char>|
        (emitted(out, at, nm) || scheduled(cur, to, at, nm)) <==> scheduled(orig, to, at, nm)
    &&& forall|k: int, i: int, x: nat|
        #![trigger out[k], fires(cur[i], to).contains(x)]
        0 <= k < out.len() && 0 <= i < cur.len() && fires(cur[i], to).contains(x)
            ==> fires_before(out[k].ts_event as nat, out[k].name@, x, cur[i].name)
}

proof fn lemma_pending_update(s: Seq<TimerView>, i: int, v: TimerView, to: nat)
    requires
        0 <= i < s.len(),
    ensures
        pending_count(s.update(i, v), to) + fires(s[i], to).len() == pending_count(s, to) + fires(
            v,
            to,
        ).len(),
    decreases s.len(),
{
    let u = s.update(i, v);
    if i == s.len() - 1 {
        assert(u.drop_last() =~= s.drop_last());
    } else {
        assert(u.drop_last() =~= s.drop_last().update(i, v));
        lemma_pending_update(s.drop_last(), i, v, to);
    }
}

/// Before the merge starts, nothing is emitted and every timer is as it was.
pub proof fn lemma_merge_start(orig: Seq<TimerView>, to: nat, base: nat)
    requires
        forall|i: int| 0 <= i < orig.len() ==> (#[trigger] orig[i]).wf(),
    ensures
        merge_inv(orig, orig, Seq::empty(), to, base),
{
}

/// Firing the earliest due timer once keeps the merge invariant and lowers
/// the number of firings still due.
pub proof fn lemma_merge_step(
    orig: Seq<TimerView>,
    cur: Seq<TimerView>,
    out: Seq<TimeEvent>,
    to: nat,
    base: nat,
    b: int,
    e: TimeEvent,
)
    requires
        merge_inv(orig, cur, out, to, base),
        names_sorted(orig),
        to <= u64::MAX,
        earliest(cur, to, b),
        e.ts_event == cur[b].next->0,
        e.ts_init == e.ts_event,
        e.name@ == cur[b].name,
        e.id == seq_id(base, out.len()),
    ensures
        merge_inv(orig, cur.update(b, stepped(cur[b])), out.push(e), to, base),
        pending_count(cur.update(b, stepped(cur[b])), to) < pending_count(cur, to),
{
    let n = cur[b].next->0;
    let c2 = cur.update(b, stepped(cur[b]));
    let o2 = out.push(e);
    let f = fires(cur[b], to);
    let g = fires(stepped(cur[b]), to);
    lemma_step(cur[b], to);
    lemma_fires_bounds(cur[b], to);
    lemma_pending_update(cur, b, stepped(cur[b]), to);
    assert(f[0] == n);
    assert forall|x: nat| g.contains(x) implies f.contains(x) && x > n by {
        let k = choose|k: int| 0 <= k < g.len() && g[k] == x;
        assert(f[k + 1] == x);
    }
    assert forall|x: nat| f.contains(x) && x != n implies g.contains(x) by {
        let k = choose|k: int| 0 <= k < f.len() && f[k] == x;
        assert(k != 0);
        assert(g[k - 1] == x);
    }
    assert(f.contains(n));
    // remaining firings of the updated timers were remaining before
    assert forall|i: int, x: nat|
        0 <= i < c2.len() && #[trigger] fires(c2[i], to).contains(x) implies fires(
        cur[i],
        to,
    ).contains(x) by {
        if i == b {
            assert(g.contains(x));
        }
    }
    // the new event comes before every remaining firing
    assert forall|i: int, x: nat|
        0 <= i < c2.len() && #[trigger] fires(c2[i], to).contains(x) implies fires_before(
        n,
        cur[b].name,
        x,
        c2[i].name,
    ) by {
        if i == b {
            assert(g.contains(x));
        } else {
            assert(c2[i] == cur[i]);
            lemma_fires_bounds(cur[i], to);
            let k = choose|k: int| 0 <= k < fires(cur[i], to).len() && fires(cur[i], to)[k] == x;
            assert(cur[i].due(to));
            assert(cur[i].next->0 <= x);
            if x == n {
                assert(b < i);
                assert(cur[b].name == orig[b].name && cur[i].name == orig[i].name);
            }
        }
    }
    assert forall|k: int, i: int, x: nat|
        #![trigger o2[k], fires(c2[i], to).contains(x)]
        0 <= k < o2.len() && 0 <= i < c2.len() && fires(c2[i], to).contains(x)
            implies fires_before(o2[k].ts_event as nat, o2[k].name@, x, c2[i].name) by {
        assert(fires(cur[i], to).contains(x));
        if k < out.len() {
            assert(o2[k] == out[k]);
        } else {
            assert(o2[k] == e);
        }
    }
    assert forall|i: int, j: int| 0 <= i < j < o2.len() implies fires_before(
        o2[i].ts_event as nat,
        o2[i].name@,
        o2[j].ts_event as nat,
        o2[j].name@,
    ) by {
        assert(o2[i] == out[i]);
        if j == out.len() {
            assert(fires(cur[b], to).contains(n));
        } else {
            assert(o2[j] == out[j]);
        }
    }
    assert forall|k: int| 0 <= k < o2.len() implies (#[trigger] o2[k]).id == seq_id(
        base,
        k as nat,
    ) && o2[k].ts_init == o2[k].ts_event by {
        if k < out.len() {
            assert(o2[k] == out[k]);
        }
    }
    assert forall|at: nat, nm: Seq<char>|
        (emitted(o2, at, nm) || scheduled(c2, to, at, nm)) <==> scheduled(
            orig,
            to,
            at,
            nm,
        ) by {
        if emitted(o2, at, nm) {
            let k = choose|k: int| 0 <= k < o2.len() && o2[k].ts_event == at && o2[k].name@ == nm;
            if k < out.len() {
                assert(o2[k] == out[k]);
                assert(emitted(out, at, nm));
            } else {
                assert(scheduled(cur, to, at, nm));
            }
        }
        if scheduled(c2, to, at, nm) {
            let i = choose|i: int|
                0 <= i < c2.len() && c2[i].name == nm && fires(c2[i], to).contains(at);
            assert(fires(cur[i], to).contains(at));
            assert(scheduled(cur, to, at, nm));
        }
        if scheduled(orig, to, at, nm) {
            if emitted(out, at, nm) {
                let k = choose|k: int|
                    0 <= k < out.len() && out[k].ts_event == at && out[k].name@ == nm;
                assert(o2[k] == out[k]);
            } else {
                assert(scheduled(cur, to, at, nm));
                let i = choose|i: int|
                    0 <= i < cur.len() && cur[i].name == nm && fires(cur[i], to).contains(at);
                if i == b && at == n {
                    assert(o2[out.len() as int] == e);
                } else if i == b {
                    assert(g.contains(at));
                    assert(fires(c2[i], to).contains(at));
                } else {
                    assert(c2[i] == cur[i]);
                }
            }
        }
    }
    assert forall|i: int| 0 <= i < c2.len() implies {
        &&& (#[trigger] c2[i]).wf()
        &&& c2[i].name == orig[i].name
        &&& advanced(c2[i], to) == advanced(orig[i], to)
    } by {
        if i != b {
            assert(c2[i] == cur[i]);
        }
    }
}

/// Once no timer is due, every timer has advanced all the way and the events
/// are exactly the firings that were scheduled.
pub proof fn lemma_merge_done(
    orig: Seq<TimerView>,
    cur: Seq<TimerView>,
    out: Seq<TimeEvent>,
    to: nat,
    base: nat,
)
    requires
        merge_inv(orig, cur, out, to, base),
        forall|i: int| 0 <= i < cur.len() ==> !(#[trigger] cur[i]).due(to),
    ensures
        cur == orig.map_values(|t: TimerView| advanced(t, to)),
        forall|at: nat, nm: Seq<char>| emitted(out, at, nm) <==> scheduled(orig, to, at, nm),
{
    assert forall|i: int| 0 <= i < cur.len() implies #[trigger] cur[i] == advanced(orig[i], to) by {
        lemma_fires_bounds(cur[i], to);
    }
    assert(cur =~= orig.map_values(|t: TimerView| advanced(t, to)));
    assert forall|at: nat, nm: Seq<char>| !scheduled(cur, to, at, nm) by {
        if scheduled(cur, to, at, nm) {
            let i = choose|i: int|
                0 <= i < cur.len() && cur[i].name == nm && fires(cur[i], to).contains(at);
            lemma_fires_bounds(cur[i], to);
        }
    }
}

/// The index of the due timer that fires first, if any timer is due.
pub fn earliest_due(timers: &Vec<Timer>, to: u64) -> (r: Option<usize>)
    ensures
        r matches Some(b) ==> earliest(timers@.map_values(|t: Timer| t@), to as nat, b as int),
        r is None ==> forall|i: int|
            0 <= i < timers@.len() ==> !(#[trigger] timers@[i]@).due(to as nat),
{
    let ghost cur = timers@.map_values(|t: Timer| t@);
    let mut best: Option<usize> = None;
    let mut best_t: u64 = 0;
    let mut i: usize = 0;
    while i < timers.len()
        invariant
            cur == timers@.map_values(|t: Timer| t@),
            i <= timers@.len(),
            best matches Some(b) ==> {
                &&& b < i
                &&& cur[b as int].due(to as nat)
                &&& cur[b as int].next->0 == best_t
                &&& forall|j: int|
                    0 <= j < i && (#[trigger] cur[j]).due(to as nat) ==> best_t < cur[j].next->0
                        || (best_t == cur[j].next->0 && b <= j)
            },
            best is None ==> forall|j: int| 0 <= j < i ==> !(#[trigger] cur[j]).due(to as nat),
        decreases timers@.len() - i,
    {
        if timers[i].is_due(to) {
            let n = timers[i].next_time_ns().unwrap();
            if best.is_none() || n < best_t {
                best = Some(i);
                best_t = n;
            }
        }
        i = i + 1;
    }
    proof {
        if best is None {
            assert forall|j: int| 0 <= j < timers@.len() implies !(#[trigger] timers@[j]@).due(
                to as nat,
            ) by {
                assert(cur[j] == timers@[j]@);
            }
        }
    }
    best
}

/// Dropping the expired timers keeps the rest in name order.
pub proof fn lemma_filter_sorted(s: Seq<TimerView>)
    requires
        names_sorted(s),
    ensures
        names_sorted(active_only(s)),
        forall|x: TimerView| #[trigger]
            active_only(s).contains(x) ==> s.contains(x) && !x.expired(),
    decreases s.len(),
{
    let p = |t: TimerView| !t.expired();
    reveal(Seq::filter);
    if s.len() > 0 {
        let d = s.drop_last();
        assert forall|i: int, j: int| 0 <= i < j < d.len() implies name_lt(d[i].name, d[j].name) by {
            assert(d[i] == s[i] && d[j] == s[j]);
        }
        lemma_filter_sorted(d);
        let fd = d.filter(p);
        let fs = s.filter(p);
        assert forall|x: TimerView| fs.contains(x) implies s.contains(x) && !x.expired() by {
            if fd.contains(x) {
                let k = choose|k: int| 0 <= k < d.len() && d[k] == x;
                assert(s[k] == x);
            } else {
                let k = choose|k: int| 0 <= k < fs.len() && fs[k] == x;
                assert(x == s.last());
                assert(s[s.len() - 1] == x);
            }
        }
        if p(s.last()) {
            assert forall|i: int, j: int| 0 <= i < j < fs.len() implies name_lt(
                fs[i].name,
                fs[j].name,
            ) by {
                if j == fs.len() - 1 {
                    assert(fd.contains(fs[i]));
                    let k = choose|k: int| 0 <= k < d.len() && d[k] == fs[i];
                    assert(s[k] == d[k]);
                } else {
                    assert(fs[i] == fd[i] && fs[j] == fd[j]);
                }
            }
        }
    }
}

} // verus!

verus! {

/// The timers of `s` that are not expired are members of `s`.
pub proof fn lemma_filter_sorted_members(s: Seq<TimerView>)
    ensures
        forall|x: TimerView| #[trigger] active_only(s).contains(x) ==> s.contains(x),
{
    assert forall|x: TimerView| #[trigger] active_only(s).contains(x) implies s.contains(x) by {
        s.lemma_filter_contains_rev(|t: TimerView| !t.expired(), x);
    }
}

} // verus!
