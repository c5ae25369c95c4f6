use timing_core::clock::{ClockError, ErrorKind, TestClock};
use timing_core::event::{CallbackRef, TimeEvent};

fn clock_with_default() -> TestClock {
    let mut clock = TestClock::new();
    clock.register_default_handler(CallbackRef { id: 0 });
    clock
}

fn stamps(events: &[TimeEvent]) -> Vec<(String, u64)> {
    events.iter().map(|e| (e.name.clone(), e.ts_event)).collect()
}

#[test]
fn test_time_monotonicity() {
    let mut clock = clock_with_default();
    let initial_time = clock.timestamp_ns();
    clock.advance_time(initial_time + 1000, true);
    assert!(clock.timestamp_ns() > initial_time);
}

#[test]
fn test_timer_registration() {
    let mut clock = clock_with_default();
    let at = clock.timestamp_ns() + 1000;
    clock.set_time_alert_ns("test_timer", at, None, None).unwrap();
    assert_eq!(clock.timer_count(), 1);
    assert_eq!(clock.timer_names(), vec!["test_timer"]);
}

#[test]
fn test_timer_expiration() {
    let mut clock = clock_with_default();
    let alert_time = clock.timestamp_ns() + 1000;
    clock.set_time_alert_ns("test_timer", alert_time, None, None).unwrap();
    let events = clock.advance_time(alert_time, true);
    assert_eq!(events.len(), 1);
    assert_eq!(events[0].name.as_str(), "test_timer");
}

#[test]
fn test_timer_cancellation() {
    let mut clock = clock_with_default();
    let at = clock.timestamp_ns() + 1000;
    clock.set_time_alert_ns("test_timer", at, None, None).unwrap();
    assert_eq!(clock.timer_count(), 1);
    clock.cancel_timer("test_timer");
    assert_eq!(clock.timer_count(), 0);
}

#[test]
fn test_time_advancement() {
    let mut clock = clock_with_default();
    let start_time = clock.timestamp_ns();
    clock.set_timer_ns("test_timer", 1000, start_time, None, None, None).unwrap();
    let events = clock.advance_time(start_time + 2500, true);
    assert_eq!(events.len(), 2);
    assert_eq!(events[0].ts_event, start_time + 1000);
    assert_eq!(events[1].ts_event, start_time + 2000);
}

#[test]
fn test_default_and_custom_callbacks() {
    let mut clock = TestClock::new();
    let default_cb = CallbackRef { id: 1 };
    let custom_cb = CallbackRef { id: 2 };
    clock.register_default_handler(default_cb);
    let at = clock.timestamp_ns() + 1000;
    clock.set_time_alert_ns("default_timer", at, None, None).unwrap();
    clock.set_time_alert_ns("custom_timer", at, Some(custom_cb), None).unwrap();
    let events = clock.advance_time(clock.timestamp_ns() + 1000, true);
    let handlers = clock.match_handlers(events);
    assert_eq!(handlers.len(), 2);
    // same instant: "custom_timer" sorts before "default_timer"
    assert_eq!(handlers[0].event.name, "custom_timer");
    assert_eq!(handlers[0].callback, custom_cb);
    assert_eq!(handlers[1].event.name, "default_timer");
    assert_eq!(handlers[1].callback, default_cb);
}

#[test]
fn test_multiple_timers() {
    let mut clock = clock_with_default();
    let start_time = clock.timestamp_ns();
    clock.set_timer_ns("timer1", 1000, start_time, None, None, None).unwrap();
    clock.set_timer_ns("timer2", 2000, start_time, None, None, None).unwrap();
    let events = clock.advance_time(start_time + 2000, true);
    assert_eq!(events.len(), 3);
    assert_eq!(events[0].name.as_str(), "timer1");
    assert_eq!(events[1].name.as_str(), "timer1");
    assert_eq!(events[2].name.as_str(), "timer2");
}

#[test]
fn test_allow_past_parameter_true() {
    let mut clock = clock_with_default();
    clock.set_time(2000);
    let current_time = clock.timestamp_ns();
    let past_time = current_time - 1000;
    clock.set_time_alert_ns("past_timer", past_time, None, Some(true)).unwrap();
    assert_eq!(clock.timer_count(), 1);
    assert_eq!(clock.timer_names(), vec!["past_timer"]);
    let next_time = clock.next_time_ns("past_timer").unwrap();
    assert!(next_time >= current_time);
}

#[test]
fn test_allow_past_parameter_false() {
    let mut clock = clock_with_default();
    clock.set_time(2000);
    let current_time = clock.timestamp_ns();
    let past_time = current_time - 1000;
    let result = clock.set_time_alert_ns("past_timer", past_time, None, Some(false));
    assert_eq!(result, Err(ClockError::AlertInPast { alert_ns: 1000, now_ns: 2000 }));
    assert_eq!(clock.timer_count(), 0);
    assert!(clock.timer_names().is_empty());
}

#[test]
fn test_invalid_stop_time_validation() {
    let mut clock = clock_with_default();
    clock.set_time(2000);
    let current_time = clock.timestamp_ns();
    let start_time = current_time + 1000;
    let stop_time = current_time + 500;
    let result = clock.set_timer_ns("invalid_timer", 100, start_time, Some(stop_time), None, None);
    assert_eq!(result, Err(ClockError::StopNotAfterStart { start_ns: 3000, stop_ns: 2500 }));
    assert_eq!(clock.timer_count(), 0);
}

#[test]
fn scenario_single_alert() {
    let mut clock = clock_with_default();
    clock.set_time_alert_ns("a", 1000, None, None).unwrap();
    let events = clock.advance_time(1000, true);
    assert_eq!(stamps(&events), vec![("a".to_string(), 1000)]);
    assert_eq!(clock.timer_count(), 0);
}

#[test]
fn scenario_periodic() {
    let mut clock = clock_with_default();
    clock.set_timer_ns("p", 1000, 0, None, None, None).unwrap();
    let events = clock.advance_time(2500, true);
    assert_eq!(stamps(&events), vec![("p".to_string(), 1000), ("p".to_string(), 2000)]);
    assert_eq!(clock.next_time_ns("p"), Some(3000));
}

#[test]
fn scenario_two_timers_co_firing() {
    let mut clock = clock_with_default();
    clock.set_timer_ns("a", 1000, 0, None, None, None).unwrap();
    clock.set_timer_ns("b", 2000, 0, None, None, None).unwrap();
    let events = clock.advance_time(2000, true);
    assert_eq!(
        stamps(&events),
        vec![("a".to_string(), 1000), ("a".to_string(), 2000), ("b".to_string(), 2000)]
    );
}

#[test]
fn scenario_past_alert_rejected() {
    let mut clock = clock_with_default();
    clock.set_time(2000);
    let r = clock.set_time_alert_ns("x", 1000, None, Some(false));
    assert_eq!(r.unwrap_err().kind(), ErrorKind::Temporal);
    assert_eq!(clock.timer_count(), 0);
}

#[test]
fn scenario_past_alert_promoted() {
    let mut clock = clock_with_default();
    clock.set_time(2000);
    clock.set_time_alert_ns("x", 1000, None, Some(true)).unwrap();
    let events = clock.advance_time(2000, true);
    assert_eq!(stamps(&events), vec![("x".to_string(), 2000)]);
}

#[test]
fn scenario_stop_before_start() {
    let mut clock = clock_with_default();
    let r = clock.set_timer_ns("z", 100, 1000, Some(500), None, None);
    assert_eq!(r.unwrap_err().kind(), ErrorKind::Config);
    assert_eq!(clock.timer_count(), 0);
    assert_eq!(clock.next_time_ns("z"), None);
}

#[test]
fn successive_advances_stay_sorted() {
    let mut clock = clock_with_default();
    clock.set_timer_ns("b", 300, 0, None, None, None).unwrap();
    clock.set_timer_ns("a", 200, 0, None, None, None).unwrap();
    clock.set_time_alert_ns("c", 600, None, None).unwrap();
    let mut all = clock.advance_time(650, true);
    all.extend(clock.advance_time(650, true));
    all.extend(clock.advance_time(1200, true));
    let keys: Vec<(u64, String, u64)> =
        all.iter().map(|e| (e.ts_event, e.name.clone(), e.id)).collect();
    let mut sorted = keys.clone();
    sorted.sort();
    assert_eq!(keys, sorted);
    assert_eq!(
        stamps(&all),
        vec![
            ("a".to_string(), 200),
            ("b".to_string(), 300),
            ("a".to_string(), 400),
            ("a".to_string(), 600),
            ("b".to_string(), 600),
            ("c".to_string(), 600),
            ("a".to_string(), 800),
            ("b".to_string(), 900),
            ("a".to_string(), 1000),
            ("a".to_string(), 1200),
            ("b".to_string(), 1200),
        ]
    );
    let ids: Vec<u64> = all.iter().map(|e| e.id).collect();
    assert_eq!(ids, (0..11).collect::<Vec<u64>>());
    assert!(all.iter().all(|e| e.ts_init == e.ts_event));
}

#[test]
fn periodic_instants_with_stop() {
    let mut clock = clock_with_default();
    clock.set_timer_ns("s", 300, 100, Some(1000), None, None).unwrap();
    let events = clock.advance_time(5000, true);
    let times: Vec<u64> = events.iter().map(|e| e.ts_event).collect();
    assert_eq!(times, vec![400, 700, 1000]);
    assert_eq!(clock.timer_count(), 0);
}

#[test]
fn periodic_instants_over_several_advances() {
    let mut clock = clock_with_default();
    clock.set_timer_ns("s", 250, 0, Some(900), None, None).unwrap();
    let mut times: Vec<u64> = Vec::new();
    for to in [100, 300, 300, 620, 2000] {
        times.extend(clock.advance_time(to, true).iter().map(|e| e.ts_event));
    }
    assert_eq!(times, vec![250, 500, 750]);
}

#[test]
fn count_follows_register_and_cancel() {
    let mut clock = clock_with_default();
    clock.set_timer_ns("a", 10, 0, None, None, None).unwrap();
    clock.set_timer_ns("b", 10, 0, None, None, None).unwrap();
    clock.set_time_alert_ns("c", 50, None, None).unwrap();
    assert_eq!(clock.timer_count(), 3);
    clock.cancel_timer("b");
    assert_eq!(clock.timer_count(), 2);
    clock.cancel_timer("missing");
    assert_eq!(clock.timer_count(), 2);
    clock.advance_time(50, true);
    assert_eq!(clock.timer_count(), 1);
    assert_eq!(clock.timer_names(), vec!["a"]);
}

#[test]
fn reregistering_replaces() {
    let mut clock = clock_with_default();
    clock.set_timer_ns("n", 100, 0, None, None, None).unwrap();
    clock.set_timer_ns("n", 300, 0, None, None, None).unwrap();
    assert_eq!(clock.timer_count(), 1);
    assert_eq!(clock.next_time_ns("n"), Some(300));
    clock.set_time_alert_ns("n", 50, None, None).unwrap();
    assert_eq!(clock.timer_names(), vec!["n"]);
    assert_eq!(clock.next_time_ns("n"), Some(50));
}

#[test]
fn now_never_decreases() {
    let mut clock = clock_with_default();
    let mut last = clock.timestamp_ns();
    clock.set_timer_ns("t", 7, 0, None, None, None).unwrap();
    for to in [0, 5, 5, 40, 41, 100] {
        clock.advance_time(to, true);
        assert!(clock.timestamp_ns() >= last);
        last = clock.timestamp_ns();
        clock.advance_time(to, false);
        assert_eq!(clock.timestamp_ns(), last);
    }
}

#[test]
fn cancel_all_twice() {
    let mut clock = clock_with_default();
    clock.set_timer_ns("a", 10, 0, None, None, None).unwrap();
    clock.set_time_alert_ns("b", 10, None, None).unwrap();
    clock.cancel_timers();
    assert_eq!(clock.timer_count(), 0);
    clock.cancel_timers();
    assert_eq!(clock.timer_count(), 0);
    assert!(clock.advance_time(100, true).is_empty());
}

#[test]
fn reset_clears_everything() {
    let mut clock = clock_with_default();
    clock.set_timer_ns("a", 10, 0, None, None, None).unwrap();
    clock.advance_to_time_on_heap(25);
    clock.reset();
    assert_eq!(clock.timer_count(), 0);
    assert!(clock.timer_names().is_empty());
    assert_eq!(clock.timestamp_ns(), 0);
    assert!(clock.next_handler().is_none());
    assert_eq!(clock.set_time_alert_ns("b", 5, None, None), Err(ClockError::NoCallback));
}

#[test]
fn alert_cancel_alert_fires_once() {
    let mut clock = clock_with_default();
    clock.set_time_alert_ns("n", 700, None, None).unwrap();
    clock.cancel_timer("n");
    clock.set_time_alert_ns("n", 700, None, None).unwrap();
    let events = clock.advance_time(5000, true);
    assert_eq!(stamps(&events), vec![("n".to_string(), 700)]);
}

#[test]
fn alert_at_now_fires_next_advance() {
    let mut clock = clock_with_default();
    clock.set_time(300);
    clock.set_time_alert_ns("now", 300, None, Some(true)).unwrap();
    let events = clock.advance_time(301, true);
    assert_eq!(stamps(&events), vec![("now".to_string(), 300)]);
}

#[test]
fn single_period_fires_once() {
    let mut clock = clock_with_default();
    clock.set_timer_ns("once", 400, 100, Some(500), None, None).unwrap();
    let events = clock.advance_time(10_000, true);
    assert_eq!(stamps(&events), vec![("once".to_string(), 500)]);
    assert_eq!(clock.timer_count(), 0);
}

#[test]
fn advance_to_now_is_empty() {
    let mut clock = clock_with_default();
    clock.set_time(1000);
    clock.set_timer_ns("t", 100, 0, None, None, None).unwrap();
    assert!(clock.advance_time(1000, true).is_empty());
    assert_eq!(clock.timer_count(), 1);
    assert_eq!(clock.next_time_ns("t"), Some(1100));
}

#[test]
fn invalid_names_are_refused() {
    let mut clock = clock_with_default();
    assert_eq!(clock.set_time_alert_ns("", 10, None, None), Err(ClockError::InvalidName));
    assert_eq!(clock.set_timer_ns("  \t", 10, 0, None, None, None), Err(ClockError::InvalidName));
    assert_eq!(clock.set_timer_ns("caf\u{e9}", 10, 0, None, None, None), Err(ClockError::InvalidName));
    assert_eq!(ClockError::InvalidName.kind(), ErrorKind::Config);
    assert_eq!(clock.timer_count(), 0);
}

#[test]
fn zero_interval_is_refused() {
    let mut clock = clock_with_default();
    assert_eq!(clock.set_timer_ns("z", 0, 0, None, None, None), Err(ClockError::ZeroInterval));
}

#[test]
fn missing_callback_is_refused() {
    let mut clock = TestClock::new();
    assert_eq!(clock.set_timer_ns("a", 10, 0, None, None, None), Err(ClockError::NoCallback));
    clock.set_timer_ns("a", 10, 0, None, Some(CallbackRef { id: 4 }), None).unwrap();
    // a callback already bound to the name is enough
    clock.set_time_alert_ns("a", 50, None, None).unwrap();
    assert_eq!(clock.set_time_alert_ns("b", 50, None, None), Err(ClockError::NoCallback));
}

#[test]
fn past_start_is_refused_or_caught_up() {
    let mut clock = clock_with_default();
    clock.set_time(1000);
    assert_eq!(
        clock.set_timer_ns("p", 300, 200, None, None, Some(false)),
        Err(ClockError::StartInPast { start_ns: 200, now_ns: 1000 })
    );
    assert_eq!(ClockError::StartInPast { start_ns: 200, now_ns: 1000 }.kind(), ErrorKind::Temporal);
    clock.set_timer_ns("p", 300, 200, None, None, None).unwrap();
    let times: Vec<u64> = clock.advance_time(1000, true).iter().map(|e| e.ts_event).collect();
    assert_eq!(times, vec![500, 800]);
}

#[test]
fn failed_registration_keeps_callbacks() {
    let mut clock = TestClock::new();
    let r = clock.set_timer_ns("a", 10, 500, Some(100), Some(CallbackRef { id: 9 }), None);
    assert!(r.is_err());
    // the callback given with the failed call was not kept
    assert_eq!(clock.set_time_alert_ns("a", 50, None, None), Err(ClockError::NoCallback));
}

#[test]
fn heap_delivers_in_order_with_handlers() {
    let mut clock = TestClock::new();
    clock.register_default_handler(CallbackRef { id: 1 });
    clock.set_timer_ns("b", 100, 0, None, Some(CallbackRef { id: 2 }), None).unwrap();
    clock.set_timer_ns("a", 150, 0, None, None, None).unwrap();
    clock.advance_to_time_on_heap(200);
    clock.advance_to_time_on_heap(300);
    assert_eq!(clock.timestamp_ns(), 300);
    let mut got: Vec<(String, u64, u64)> = Vec::new();
    while let Some(h) = clock.next_handler() {
        got.push((h.event.name.clone(), h.event.ts_event, h.callback.id));
    }
    assert_eq!(
        got,
        vec![
            ("b".to_string(), 100, 2),
            ("a".to_string(), 150, 1),
            ("b".to_string(), 200, 2),
            ("a".to_string(), 300, 1),
            ("b".to_string(), 300, 2),
        ]
    );
}

#[test]
fn timestamps_in_units() {
    let mut clock = TestClock::new();
    clock.set_time(3_123_456_789);
    assert_eq!(clock.timestamp_ns(), 3_123_456_789);
    assert_eq!(clock.timestamp_us(), 3_123_456);
    assert_eq!(clock.timestamp_ms(), 3_123);
    assert_eq!(clock.timestamp_s(), 3);
}
