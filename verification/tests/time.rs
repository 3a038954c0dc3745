use rgine::time::Clock;

#[test]
fn whole_steps_are_paid_out_and_the_rest_is_kept() {
    let mut clock = Clock::new();
    assert_eq!(clock.advance(25, 10), 2);
    assert_eq!(clock.advance(4, 10), 0);
    assert_eq!(clock.advance(1, 10), 1);
    assert_eq!(clock.advance(0, 10), 0);
    assert_eq!(clock.advance(10, 5), 2);
}

#[test]
fn a_tick_pays_out_no_more_than_the_time_that_passed() {
    let mut clock = Clock::default();
    // A step of a thousand seconds: no test runs that long.
    assert_eq!(clock.tick(1_000_000_000_000), 0);
    assert_eq!(clock.tick(1_000_000_000_000), 0);
    // A one-nanosecond step: every nanosecond since the last tick is paid.
    let _ = clock.tick(1);
    assert_eq!(clock.advance(0, 1), 0);
}

#[test]
fn a_huge_backlog_is_paid_out_in_capped_installments() {
    let mut clock = Clock::new();
    let backlog: u128 = (u32::MAX as u128) * 3 + 7;
    assert_eq!(clock.advance(backlog, 1), u32::MAX);
    assert_eq!(clock.advance(0, 1), u32::MAX);
    assert_eq!(clock.advance(0, 1), u32::MAX);
    assert_eq!(clock.advance(0, 1), 7);
    assert_eq!(clock.advance(0, 1), 0);
}

#[test]
fn every_nanosecond_is_counted_once_over_a_run() {
    let mut clock = Clock::new();
    let elapsed = [3u128, 14, 15, 92, 65, 35];
    let mut paid = 0u32;
    for e in elapsed {
        paid += clock.advance(e, 7);
    }
    let sum: u128 = elapsed.iter().sum();
    assert_eq!(paid as u128, sum / 7);
}

#[test]
fn ticks_count_every_nanosecond_up_to_the_last_reading_once() {
    let mut clock = Clock::new();
    let readings = [5u128, 5, 12, 40, 41, 100];
    let mut paid = 0u32;
    for r in readings {
        paid += clock.tick_at(r, 7);
    }
    assert_eq!(paid, 100 / 7);
    // A reading that goes back adds nothing, and is kept as the new start.
    assert_eq!(clock.tick_at(50, 7), 0);
    assert_eq!(clock.tick_at(57, 7), 1);
}
