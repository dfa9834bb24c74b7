use watchsync::timings;

#[test]
fn the_tick_interval_is_half_a_second() {
    assert_eq!(timings::update(), 500);
}

#[test]
fn the_stale_threshold_is_four_ticks() {
    assert_eq!(timings::stale(), 2000);
    assert_eq!(timings::stale(), 4 * timings::update());
}

#[test]
fn the_expiration_threshold_is_ten_ticks_and_above_stale() {
    assert_eq!(timings::expiration(), 5000);
    assert_eq!(timings::expiration(), 10 * timings::update());
    assert!(timings::expiration() > timings::stale());
}
