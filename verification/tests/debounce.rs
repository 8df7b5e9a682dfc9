use ishizue::debounce::{Debounce, OnceCell, OnceFlag, Throttle};
use std::time::Duration;

const MS: u128 = 1_000_000;

/// Busy-wait for at least `d`.
fn wait(d: Duration) {
    let start = std::time::Instant::now();
    while start.elapsed() < d {}
}

// -- Debounce -----------------------------------------------------------

#[test]
fn debounce_first_call_fires() {
    let mut d = Debounce::new(Duration::from_millis(50));
    assert!(d.should_fire());
}

#[test]
fn debounce_rapid_calls_suppressed() {
    let mut d = Debounce::new(Duration::from_millis(200));
    assert!(d.should_fire()); // first fires
    assert!(!d.should_fire()); // immediate second suppressed
    assert!(!d.should_fire()); // third suppressed
}

#[test]
fn debounce_fires_after_delay() {
    let mut d = Debounce::new(Duration::from_millis(20));
    assert!(d.should_fire());
    wait(Duration::from_millis(30));
    assert!(d.should_fire()); // enough time passed
}

#[test]
fn debounce_fires_after_delay_at_readings() {
    let mut d = Debounce::new(Duration::from_millis(20));
    assert!(d.should_fire_at(0));
    assert!(d.should_fire_at(30 * MS));
}

#[test]
fn debounce_reset_allows_immediate_fire() {
    let mut d = Debounce::new(Duration::from_millis(200));
    assert!(d.should_fire());
    assert!(!d.should_fire());
    d.reset();
    assert!(d.should_fire()); // reset allowed it
}

#[test]
fn debounce_delay_accessor() {
    let d = Debounce::new(Duration::from_secs(5));
    assert_eq!(d.delay(), Duration::from_secs(5));
}

#[test]
fn debounce_timer_restarts_only_on_fire() {
    let mut d = Debounce::new(Duration::from_millis(10));
    assert!(d.should_fire_at(100 * MS));
    assert!(!d.should_fire_at(105 * MS));
    assert!(!d.should_fire_at(109 * MS));
    // measured from the accepted call at 100 ms, not from the suppressed ones
    assert!(d.should_fire_at(110 * MS));
    assert!(!d.should_fire_at(119 * MS));
}

#[test]
fn debounce_zero_delay_always_fires() {
    let mut d = Debounce::new(Duration::ZERO);
    assert!(d.should_fire_at(5));
    assert!(d.should_fire_at(5));
    assert!(d.should_fire_at(1));
}

#[test]
fn debounce_earlier_reading_counts_as_no_time() {
    let mut d = Debounce::new(Duration::from_nanos(3));
    assert!(d.should_fire_at(50));
    assert!(!d.should_fire_at(10));
    assert!(d.should_fire_at(53));
}

// -- Throttle -----------------------------------------------------------

#[test]
fn throttle_first_call_fires() {
    let mut t = Throttle::new(Duration::from_millis(50));
    assert!(t.should_fire());
}

#[test]
fn throttle_rapid_calls_suppressed() {
    let mut t = Throttle::new(Duration::from_millis(200));
    assert!(t.should_fire());
    assert!(!t.should_fire());
    assert!(!t.should_fire());
}

#[test]
fn throttle_fires_after_interval() {
    let mut t = Throttle::new(Duration::from_millis(20));
    assert!(t.should_fire());
    wait(Duration::from_millis(30));
    assert!(t.should_fire());
}

#[test]
fn throttle_fires_at_most_once_per_interval() {
    let mut t = Throttle::new(Duration::from_millis(10));
    let readings = [0u128, 3, 9, 10, 12, 19, 20, 29, 35, 40];
    let mut fired = Vec::new();
    for r in readings {
        if t.should_fire_at(r * MS) {
            fired.push(r);
        }
    }
    assert_eq!(fired, vec![0, 10, 20, 35]);
    for w in fired.windows(2) {
        assert!(w[1] - w[0] >= 10);
    }
}

#[test]
fn throttle_reset_allows_immediate_fire() {
    let mut t = Throttle::new(Duration::from_millis(200));
    assert!(t.should_fire());
    assert!(!t.should_fire());
    t.reset();
    assert!(t.should_fire());
}

#[test]
fn throttle_interval_accessor() {
    let t = Throttle::new(Duration::from_secs(3));
    assert_eq!(t.interval(), Duration::from_secs(3));
}

#[test]
fn throttle_suppresses_within_interval() {
    let mut t = Throttle::new(Duration::from_millis(1));
    assert!(t.should_fire_at(0));
    assert!(!t.should_fire_at(MS - 1));
    assert!(t.should_fire_at(MS));
}

#[test]
fn throttle_with_real_clock_fires_after_sleep_free_wait() {
    // A delay of one nanosecond has passed by the time the clock is read again.
    let mut t = Throttle::new(Duration::from_nanos(1));
    assert!(t.should_fire());
    wait(Duration::from_micros(50));
    assert!(t.should_fire());
}

// -- OnceCell -----------------------------------------------------------

#[test]
fn once_cell_empty_initially() {
    let cell: OnceCell<i32> = OnceCell::new();
    assert!(cell.get().is_none());
    assert!(!cell.is_initialized());
}

#[test]
fn once_cell_set_and_get() {
    let mut cell = OnceCell::new();
    let val = cell.set(42).expect("first set should succeed");
    assert_eq!(*val, 42);
    assert!(cell.is_initialized());
    assert_eq!(cell.get(), Some(&42));
}

#[test]
fn once_cell_double_set_fails() {
    let mut cell = OnceCell::new();
    cell.set(1).unwrap();
    let result = cell.set(2);
    assert!(result.is_err());
    assert_eq!(cell.get(), Some(&1)); // original value preserved
}

#[test]
fn once_cell_double_set_returns_rejected_value() {
    let mut cell = OnceCell::new();
    cell.set(String::from("a")).unwrap();
    assert_eq!(cell.set(String::from("b")), Err(String::from("b")));
    assert_eq!(cell.get().map(|s| s.as_str()), Some("a"));
}

#[test]
fn once_cell_get_or_init() {
    let mut cell = OnceCell::new();
    let val = cell.get_or_init(|| 99);
    assert_eq!(*val, 99);
    // Second call doesn't re-init
    let val2 = cell.get_or_init(|| 100);
    assert_eq!(*val2, 99);
}

#[test]
fn once_cell_get_or_init_skips_closure_when_set() {
    let mut cell = OnceCell::new();
    cell.set(7).unwrap();
    let mut called = false;
    let v = *cell.get_or_init(|| {
        called = true;
        8
    });
    assert_eq!(v, 7);
    assert!(!called);
}

#[test]
fn once_cell_written_at_most_once() {
    let mut cell = OnceCell::new();
    assert_eq!(*cell.get_or_init(|| 5), 5);
    assert!(cell.set(6).is_err());
    assert_eq!(*cell.get_or_init(|| 7), 5);
    assert!(cell.set(8).is_err());
    assert_eq!(cell.get(), Some(&5));
}

#[test]
fn once_cell_default() {
    let cell: OnceCell<String> = OnceCell::default();
    assert!(cell.get().is_none());
}

// -- OnceFlag -----------------------------------------------------------

#[test]
fn once_flag_fires_once() {
    let mut flag = OnceFlag::new();
    assert!(!flag.has_fired());
    assert!(flag.fire()); // first time
    assert!(flag.has_fired());
    assert!(!flag.fire()); // second time
    assert!(!flag.fire()); // third time
}

#[test]
fn once_flag_reset() {
    let mut flag = OnceFlag::new();
    assert!(flag.fire());
    flag.reset();
    assert!(!flag.has_fired());
    assert!(flag.fire()); // fires again after reset
}

#[test]
fn once_flag_default() {
    let flag = OnceFlag::default();
    assert!(!flag.has_fired());
}
