use pixelkit::shell::keys::Modifiers;
use pixelkit::shell::pacing::{idle, schedule, Idle};

const MILLI: u128 = 1_000_000;
const MICRO: u128 = 1_000;

#[test]
fn an_interval_ticks_rather_than_spinning() {
    let interval = 33 * MILLI;
    let start: u128 = 5_000 * MILLI;

    let (redraw, deadline) = schedule(start, None, interval);
    assert!(redraw, "the first pass paints");
    assert_eq!(deadline, start + interval);

    for micros in [1u128, 100, 16_000, 32_999] {
        let now = start + micros * MICRO;
        let (redraw, unchanged) = schedule(now, Some(deadline), interval);
        assert!(!redraw, "repainted {micros}µs into a 33ms interval");
        assert_eq!(unchanged, deadline, "the deadline must not drift");
    }

    let (redraw, next) = schedule(deadline, Some(deadline), interval);
    assert!(redraw);
    assert_eq!(next, deadline + interval);
}

#[test]
fn a_missed_deadline_does_not_become_a_burst_of_catch_up_frames() {
    let interval = 33 * MILLI;
    let start: u128 = 5_000 * MILLI;
    let missed = start + interval;
    let late = start + 60_000 * MILLI;

    let (redraw, next) = schedule(late, Some(missed), interval);
    assert!(redraw, "one frame, to catch up");
    assert_eq!(next, late + interval, "measured from now, not from the miss");
}

#[test]
fn a_plain_click_is_distinguishable_from_a_modified_one() {
    assert!(Modifiers::default().none());
    assert!(!Modifiers {
        shift: true,
        ..Modifiers::default()
    }
    .none());
    assert!(!Modifiers {
        logo: true,
        ..Modifiers::default()
    }
    .none());
}

#[test]
fn a_pass_at_time_zero_with_no_deadline_paints() {
    assert_eq!(schedule(0, None, 16), (true, 16));
}

#[test]
fn idle_passes_poll_tick_or_wait() {
    assert_eq!(idle(Some(0), 5, None), (Idle::Poll, true, None), "a zero interval animates continuously");
    assert_eq!(idle(Some(33), 100, None), (Idle::Until(133), true, Some(133)));
    assert_eq!(idle(Some(33), 120, Some(133)), (Idle::Until(133), false, Some(133)));
    assert_eq!(idle(None, 120, Some(133)), (Idle::Wait, false, None), "no interval forgets the deadline");
}
