//! Frame pacing: when a steady tick repaints, and when it must not.
//!
//! Times are nanoseconds on one monotonic clock. Requesting a redraw on every
//! pass through the event loop does not tick, it spins: the loop dispatches
//! the redraw, comes straight back and asks for another. So a pass before the
//! deadline does nothing, and a pass at or after it paints once and sets the
//! next deadline from now, never from the missed one, so a backlog cannot
//! turn into a burst of catch-up frames.

use vstd::prelude::*;

verus! {

/// Whether a pass at `now` repaints, and the deadline after it.
pub open spec fn schedule_spec(now: int, next_tick: Option<u128>, interval: int) -> (bool, int) {
    match next_tick {
        Some(due) if now < due => (false, due as int),
        _ => (true, now + interval),
    }
}

/// Decide one pass of the event loop: returns `(redraw_now, next_deadline)`.
pub fn schedule(now: u128, next_tick: Option<u128>, interval: u128) -> (result: (bool, u128))
    requires
        now + interval <= u128::MAX,
    ensures
        (result.0, result.1 as int) == schedule_spec(now as int, next_tick, interval as int),
{
    match next_tick {
        Some(due) if now < due => (false, due),
        _ => (true, now + interval),
    }
}

/// A steady tick never drifts: a pass before the deadline keeps it, and a
/// pass at it paints and moves it exactly one interval on.
pub proof fn lemma_tick_does_not_drift(now: int, due: u128, interval: int)
    ensures
        now < due ==> schedule_spec(now, Some(due), interval) == (false, due as int),
        now == due ==> schedule_spec(now, Some(due), interval) == (true, due + interval),
{
}

/// However late a pass comes, it paints once and the next deadline is one
/// interval from now: still due only after a whole interval has passed.
pub proof fn lemma_late_pass_paints_once(now: int, due: u128, interval: int)
    requires
        now >= due,
        interval > 0,
    ensures
        schedule_spec(now, Some(due), interval) == (true, now + interval),
        schedule_spec(now, Some(due), interval).1 > now,
{
}

/// How the event loop waits once it has nothing left to do.
#[derive(Debug, Clone, Copy, PartialEq, Eq, Structural)]
pub enum Idle {
    /// Come straight back: the application animates continuously.
    Poll,
    /// Sleep until the next event.
    Wait,
    /// Sleep until this deadline (nanoseconds) or the next event.
    Until(u128),
}

/// What one idle pass decides, for an application that asks to be ticked
/// every `interval` (nanoseconds; zero for continuously, `None` for never):
/// how to wait, whether to repaint now, and the next deadline to keep.
pub open spec fn idle_spec(interval: Option<u128>, now: int, next_tick: Option<u128>) -> (Idle, bool, Option<u128>) {
    match interval {
        Some(i) if i == 0 => (Idle::Poll, true, next_tick),
        Some(i) => {
            let (redraw, deadline) = schedule_spec(now, next_tick, i as int);
            (Idle::Until(deadline as u128), redraw, Some(deadline as u128))
        },
        None => (Idle::Wait, false, None),
    }
}

/// Decide an idle pass of the event loop: a zero interval polls and
/// repaints every pass; an interval repaints when its deadline comes and
/// sleeps until the next one; no interval sleeps until an event.
pub fn idle(interval: Option<u128>, now: u128, next_tick: Option<u128>) -> (result: (Idle, bool, Option<u128>))
    requires
        interval matches Some(i) ==> now + i <= u128::MAX,
    ensures
        result == idle_spec(interval, now as int, next_tick),
{
    match interval {
        Some(i) => {
            if i == 0 {
                (Idle::Poll, true, next_tick)
            } else {
                let (redraw, deadline) = schedule(now, next_tick, i);
                (Idle::Until(deadline), redraw, Some(deadline))
            }
        },
        None => (Idle::Wait, false, None),
    }
}

} // verus!
