use std::cmp::Ordering;

use timing_core::event::{following_id, event_precedes, CallbackRef, TimeEvent, TimeEventHandler};
use timing_core::live::{live_step, LiveAction};
use timing_core::names::{compare_names, is_valid_name, same_name};
use timing_core::queue::EventQueue;
use timing_core::registry::CallbackRegistry;
use timing_core::schedule::earliest_due;
use timing_core::time::{FixedTime, MonotonicTime};
use timing_core::timer::{valid_interval, Timer};

fn ev(name: &str, id: u64, ts: u64) -> TimeEvent {
    TimeEvent::new(name.to_string(), id, ts, ts)
}

#[test]
fn names_compare_by_code_point_then_length() {
    assert_eq!(compare_names("a", "b"), Ordering::Less);
    assert_eq!(compare_names("b", "a"), Ordering::Greater);
    assert_eq!(compare_names("ab", "ab"), Ordering::Equal);
    assert_eq!(compare_names("ab", "abc"), Ordering::Less);
    assert_eq!(compare_names("B", "a"), Ordering::Less);
    assert_eq!(compare_names("", "a"), Ordering::Less);
    assert!(same_name("timer", "timer"));
    assert!(!same_name("timer", "timer1"));
}

#[test]
fn name_validity() {
    assert!(is_valid_name("t"));
    assert!(is_valid_name(" t "));
    assert!(!is_valid_name(""));
    assert!(!is_valid_name(" \n\r\t"));
    assert!(!is_valid_name("\u{1F600}"));
}

#[test]
fn interval_validation() {
    assert_eq!(valid_interval(0), 1);
    assert_eq!(valid_interval(1), 1);
    assert_eq!(valid_interval(250), 250);
}

#[test]
fn ids_wrap() {
    assert_eq!(following_id(0), 1);
    assert_eq!(following_id(41), 42);
    assert_eq!(following_id(u64::MAX), 0);
}

#[test]
fn periodic_timer_advance() {
    let mut t = Timer::new("t".to_string(), 100, 1000, Some(1350));
    assert_eq!(t.next_time_ns(), Some(1100));
    let events = t.advance(1250, 7);
    let got: Vec<(u64, u64)> = events.iter().map(|e| (e.ts_event, e.id)).collect();
    assert_eq!(got, vec![(1100, 7), (1200, 8)]);
    assert!(events.iter().all(|e| e.name == "t" && e.ts_init == e.ts_event));
    assert_eq!(t.next_time_ns(), Some(1300));
    assert!(t.advance(1250, 0).is_empty());
    let events = t.advance(9999, u64::MAX);
    let got: Vec<(u64, u64)> = events.iter().map(|e| (e.ts_event, e.id)).collect();
    assert_eq!(got, vec![(1300, u64::MAX)]);
    assert!(t.is_expired());
    assert_eq!(t.next_time_ns(), None);
}

#[test]
fn timer_born_past_stop_is_expired() {
    let t = Timer::new("t".to_string(), 500, 1000, Some(1200));
    assert!(t.is_expired());
    let t = Timer::new("t".to_string(), 10, u64::MAX - 5, None);
    assert!(t.is_expired());
}

#[test]
fn timer_fire_at_top_of_range_expires() {
    let mut t = Timer::new("t".to_string(), 10, u64::MAX - 15, None);
    assert_eq!(t.next_time_ns(), Some(u64::MAX - 5));
    assert_eq!(t.fire(), u64::MAX - 5);
    assert!(t.is_expired());
}

#[test]
fn alert_timer_fires_once() {
    let mut t = Timer::alert("a".to_string(), 100, 100);
    assert_eq!(t.interval_ns(), 1);
    assert_eq!(t.stop_time_ns(), Some(100));
    assert!(t.is_due(100));
    let times: Vec<u64> = t.advance(1000, 0).iter().map(|e| e.ts_event).collect();
    assert_eq!(times, vec![100]);
    assert!(t.is_expired());
    let t = Timer::alert("a".to_string(), 100, 400);
    assert_eq!(t.interval_ns(), 300);
    assert_eq!(t.start_time_ns(), 100);
    assert_eq!(t.name(), "a");
}

#[test]
fn timer_cancel_and_duplicate() {
    let mut t = Timer::new("t".to_string(), 10, 0, None);
    let d = t.duplicate();
    t.cancel();
    assert!(t.is_expired());
    assert!(t.advance(1000, 0).is_empty());
    assert_eq!(d.next_time_ns(), Some(10));
}

#[test]
fn earliest_due_prefers_instant_then_order() {
    let timers = vec![
        Timer::new("a".to_string(), 300, 0, None),
        Timer::new("b".to_string(), 200, 0, None),
        Timer::new("c".to_string(), 200, 0, None),
    ];
    assert_eq!(earliest_due(&timers, 250), Some(1));
    assert_eq!(earliest_due(&timers, 150), None);
}

#[test]
fn live_steps() {
    let mut t = Timer::new("t".to_string(), 100, 0, Some(200));
    assert_eq!(live_step(&mut t, 50), LiveAction::Sleep { until_ns: 100 });
    assert_eq!(live_step(&mut t, 250), LiveAction::Fire { ts_event: 100 });
    assert_eq!(live_step(&mut t, 250), LiveAction::Fire { ts_event: 200 });
    assert_eq!(live_step(&mut t, 250), LiveAction::Finish);
}

#[test]
fn queue_orders_by_instant_name_id() {
    let mut q = EventQueue::new();
    q.push(ev("b", 5, 20));
    q.push(ev("a", 9, 20));
    q.push(ev("a", 3, 20));
    q.push(ev("z", 1, 10));
    assert_eq!(q.len(), 4);
    assert_eq!(q.peek().map(|e| e.id), Some(1));
    let mut got = Vec::new();
    while let Some(e) = q.pop() {
        got.push((e.ts_event, e.name, e.id));
    }
    assert_eq!(
        got,
        vec![
            (10, "z".to_string(), 1),
            (20, "a".to_string(), 3),
            (20, "a".to_string(), 9),
            (20, "b".to_string(), 5),
        ]
    );
    assert!(q.is_empty());
    q.push(ev("x", 0, 1));
    q.clear();
    assert!(q.pop().is_none());
}

#[test]
fn event_order() {
    assert!(event_precedes(&ev("b", 9, 1), &ev("a", 0, 2)));
    assert!(event_precedes(&ev("a", 9, 2), &ev("b", 0, 2)));
    assert!(event_precedes(&ev("a", 1, 2), &ev("a", 1, 2)));
    assert!(!event_precedes(&ev("a", 2, 2), &ev("a", 1, 2)));
}

#[test]
fn registry_lookup() {
    let mut r = CallbackRegistry::new();
    assert_eq!(r.handler_for("x"), None);
    r.register_default(CallbackRef { id: 1 });
    assert_eq!(r.handler_for("x"), Some(CallbackRef { id: 1 }));
    r.register("x", CallbackRef { id: 2 });
    r.register("y", CallbackRef { id: 3 });
    r.register("x", CallbackRef { id: 4 });
    assert_eq!(r.get("x"), Some(CallbackRef { id: 4 }));
    assert_eq!(r.handler_for("y"), Some(CallbackRef { id: 3 }));
    assert_eq!(r.handler_for("z"), Some(CallbackRef { id: 1 }));
    assert!(r.contains("y"));
    assert!(!r.contains("z"));
    assert_eq!(r.get_default(), Some(CallbackRef { id: 1 }));
}

#[test]
fn handler_binds_event() {
    let h = TimeEventHandler::new(ev("a", 1, 2), CallbackRef { id: 8 });
    assert_eq!(h.event.name, "a");
    assert_eq!(h.callback.id, 8);
}

#[test]
fn fixed_time_units() {
    let mut t = FixedTime::new(1_500_000_000);
    assert_eq!(t.now_ns(), 1_500_000_000);
    assert_eq!(t.now_us(), 1_500_000);
    assert_eq!(t.now_ms(), 1_500);
    assert_eq!(t.now_seconds(), 1);
    t.set(2_000_000_000);
    assert_eq!(t.now_seconds(), 2);
}

#[test]
fn monotonic_time_strictly_increases() {
    let mut m = MonotonicTime::new();
    assert_eq!(m.observe(100), 100);
    assert_eq!(m.observe(100), 101);
    assert_eq!(m.observe(50), 102);
    assert_eq!(m.observe(500), 500);
    assert_eq!(m.last_ns(), 500);
    let mut top = MonotonicTime::new();
    assert_eq!(top.observe(u64::MAX), u64::MAX);
    assert_eq!(top.observe(3), u64::MAX);
}
