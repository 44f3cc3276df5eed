use xiangqi::timer::{half_limit_reached, limit_reached, Timer};

#[test]
fn limits_compare_in_nanoseconds() {
    assert!(limit_reached(5_000_000, 5));
    assert!(!limit_reached(4_999_999, 5));
    assert!(half_limit_reached(2_500_000, 5));
    assert!(!half_limit_reached(2_499_999, 5));
    assert!(limit_reached(0, 0));
    assert!(half_limit_reached(0, 0));
}

#[test]
fn timer_without_time_is_up_at_once() {
    let t = Timer::new();
    assert!(t.time_up());
    assert!(t.time_up_2x());
}

#[test]
fn timer_with_a_long_limit_is_not_up() {
    let t = Timer::from_millis(600_000);
    assert!(!t.time_up());
    assert!(!t.time_up_2x());
    assert!(t.duration() < 600_000);
}
