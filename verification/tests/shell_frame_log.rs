use pixelkit::shell::frame_log::{summarize, FrameTimer, SAMPLE_CAP};

const MILLI: u128 = 1_000_000;

#[test]
fn input_to_present_is_queryable_without_the_log_env() {
    let mut timer = FrameTimer::new(false, None);
    for (tick_ms, input_ms) in [(1u128, 4u128), (2, 6), (3, 8)] {
        timer.record_full(tick_ms * MILLI, 2 * MILLI, 3 * MILLI, Some(input_ms * MILLI));
    }
    let shot = timer.snapshot();
    let tick = shot.tick.expect("tick");
    assert_eq!(tick.count, 3);
    assert_eq!(tick.max, 3 * MILLI);
    assert_eq!(tick.p50, 2 * MILLI);
    assert_ne!(tick.p50, 0, "tick is recorded, not dropped");
    let input = shot.input_to_present.expect("input");
    assert_eq!(input.max, 8 * MILLI);
    assert_eq!(input.p50, 6 * MILLI);
    assert_eq!(input.p95, 8 * MILLI);
}

#[test]
fn percentiles_pick_by_rank_from_unsorted_samples() {
    let samples: Vec<u128> = (1..=20u128).rev().collect();
    let stats = summarize(&samples).unwrap();
    assert_eq!(stats.count, 20);
    // Nearest rank over 19 steps: 9.5 rounds up to 10, 18.05 down to 18.
    assert_eq!(stats.p50, 11);
    assert_eq!(stats.p95, 19);
    assert_eq!(stats.max, 20);
    assert_eq!(summarize(&[]), None);
}

#[test]
fn the_sample_store_drops_its_older_half_at_the_cap() {
    let mut timer = FrameTimer::new(false, None);
    for frame in 0..SAMPLE_CAP as u128 + 1 {
        timer.record(frame, 0, 0);
    }
    let tick = timer.snapshot().tick.unwrap();
    assert_eq!(tick.count, SAMPLE_CAP / 2 + 1);
    assert_eq!(tick.max, SAMPLE_CAP as u128);
    assert!(timer.snapshot().input_to_present.is_none());
}

#[test]
fn frames_over_budget_are_counted_by_their_total() {
    let mut timer = FrameTimer::new(true, Some(10));
    timer.record(3, 3, 3);
    timer.record(4, 4, 4);
    timer.record(10, 0, 1);
    assert_eq!(timer.totals(), vec![9, 12, 11]);
    assert_eq!(timer.over_budget(), Some(2));
    assert_eq!(timer.frames(), 3);
    timer.clear();
    assert_eq!(timer.frames(), 0);
    assert!(timer.enabled());
    assert_eq!(FrameTimer::new(false, None).over_budget(), None);
}
