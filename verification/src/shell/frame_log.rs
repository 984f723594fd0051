//! Per-phase frame timing, summarised as percentiles.
//!
//! The shell records tick, paint and present durations for every frame; the
//! number that decides whether a software renderer is enough is not the mean
//! but the tail, so each phase is summarised as p50, p95 and max. Durations
//! are held as nanoseconds.

use vstd::prelude::*;
use vstd::seq_lib::{to_multiset_insert, to_multiset_build};

verus! {

/// The most samples a phase holds; past it the older half is dropped.
pub const SAMPLE_CAP: usize = 4096;

/// The longest duration there is, in nanoseconds: `u64::MAX` seconds and a
/// second less one nanosecond.
pub const MAX_NANOS: u128 = 18_446_744_073_709_551_615_999_999_999;

/// Whether a run of samples never goes down.
pub open spec fn ascending(samples: Seq<u128>) -> bool {
    forall|i: int, j: int| 0 <= i < j < samples.len() ==> samples[i] <= samples[j]
}

/// The position a quantile of `twentieths / 20` picks among `count` sorted
/// samples: the nearest rank, halves rounded up.
pub open spec fn rank_index(count: int, twentieths: int) -> int {
    ((count - 1) * twentieths + 10) / 20
}

/// Whether `sorted` holds the same samples as `samples`, in ascending order.
pub open spec fn sorts(samples: Seq<u128>, sorted: Seq<u128>) -> bool {
    &&& sorted.to_multiset() == samples.to_multiset()
    &&& ascending(sorted)
}

/// p50, p95 and max for one phase.
#[derive(Debug, Clone, Copy, PartialEq, Eq, Structural)]
pub struct PhaseStats {
    pub count: usize,
    /// Nanoseconds.
    pub p50: u128,
    /// Nanoseconds.
    pub p95: u128,
    /// Nanoseconds.
    pub max: u128,
}

/// The four phases a frame can report; `None` where none were recorded.
#[derive(Debug, Clone, Copy, PartialEq, Eq, Structural)]
pub struct FrameSnapshot {
    pub tick: Option<PhaseStats>,
    pub paint: Option<PhaseStats>,
    pub present: Option<PhaseStats>,
    pub input_to_present: Option<PhaseStats>,
}

/// Whether `stats` summarises `samples`: how many there are, and what sits
/// at the median, 95th-percentile and last places once they are sorted.
pub open spec fn summarises(samples: Seq<u128>, stats: Option<PhaseStats>) -> bool {
    match stats {
        None => samples.len() == 0,
        Some(s) => {
            &&& samples.len() > 0
            &&& s.count == samples.len()
            &&& exists|sorted: Seq<u128>| #[trigger] sorts(samples, sorted)
                && s.p50 == sorted[rank_index(samples.len() as int, 10)]
                && s.p95 == sorted[rank_index(samples.len() as int, 19)]
                && s.max == sorted[samples.len() - 1]
        },
    }
}

/// `samples` in ascending order.
fn sorted_copy(samples: &[u128]) -> (result: Vec<u128>)
    ensures
        sorts(samples@, result@),
{
    let mut sorted: Vec<u128> = Vec::new();
    let mut i: usize = 0;
    assert(samples@.take(0) =~= sorted@);
    while i < samples.len()
        invariant
            i <= samples.len(),
            sorted@.to_multiset() == samples@.take(i as int).to_multiset(),
            ascending(sorted@),
        decreases samples.len() - i,
    {
        let x = samples[i];
        let mut pos: usize = 0;
        while pos < sorted.len() && sorted[pos] <= x
            invariant
                pos <= sorted@.len(),
                forall|k: int| 0 <= k < pos ==> sorted@[k] <= x,
            decreases sorted@.len() - pos,
        {
            pos = pos + 1;
        }
        let ghost before = sorted@;
        proof {
            to_multiset_insert(before, pos as int, x);
            to_multiset_build(samples@.take(i as int), x);
            assert(samples@.take(i + 1) =~= samples@.take(i as int).push(x));
            let after = before.insert(pos as int, x);
            assert forall|a: int, b: int| 0 <= a < b < after.len() implies after[a] <= after[b] by {
                if b < pos {
                } else if b == pos {
                    assert(before[a] <= x);
                } else if a < pos {
                    assert(before[a] <= before[b - 1]);
                } else if a == pos {
                    assert(!(before[pos as int] <= x));
                    assert(before[pos as int] <= before[b - 1]);
                } else {
                    assert(before[a - 1] <= before[b - 1]);
                }
            }
        }
        sorted.insert(pos, x);
        i = i + 1;
    }
    assert(samples@.take(samples.len() as int) =~= samples@);
    sorted
}

/// p50 / p95 / max of some samples, or `None` when there are none.
pub fn summarize(samples: &[u128]) -> (result: Option<PhaseStats>)
    ensures
        summarises(samples@, result),
{
    if samples.len() == 0 {
        return None;
    }
    let ordered = sorted_copy(samples);
    proof {
        vstd::seq_lib::to_multiset_len(samples@);
        vstd::seq_lib::to_multiset_len(ordered@);
    }
    let count = ordered.len();
    let last = count - 1;
    let wide = last as u128;
    let at50: u128 = (wide * 10 + 10) / 20;
    let at95: u128 = (wide * 19 + 10) / 20;
    assert(at50 <= wide && at95 <= wide) by (nonlinear_arith)
        requires
            at50 == (wide * 10 + 10) / 20,
            at95 == (wide * 19 + 10) / 20,
            wide >= 0;
    let p50 = ordered[at50 as usize];
    let p95 = ordered[at95 as usize];
    let stats = PhaseStats { count, p50, p95, max: ordered[last] };
    proof {
        assert(sorts(samples@, ordered@));
    }
    Some(stats)
}

/// `samples` after keeping at most [`SAMPLE_CAP`] of them and recording one
/// more: the older half goes first when the cap is reached.
pub open spec fn pushed_capped(samples: Seq<u128>, sample: u128) -> Seq<u128> {
    if samples.len() >= SAMPLE_CAP {
        samples.skip((SAMPLE_CAP / 2) as int).push(sample)
    } else {
        samples.push(sample)
    }
}

/// Record a sample, dropping the older half first when the cap is reached.
fn push_cap(samples: &mut Vec<u128>, sample: u128)
    requires
        old(samples)@.len() <= SAMPLE_CAP,
    ensures
        final(samples)@ == pushed_capped(old(samples)@, sample),
        final(samples)@.len() <= SAMPLE_CAP,
{
    if samples.len() >= SAMPLE_CAP {
        let mut kept: Vec<u128> = Vec::new();
        let mut i: usize = SAMPLE_CAP / 2;
        while i < samples.len()
            invariant
                SAMPLE_CAP / 2 <= i <= samples@.len(),
                samples@ == old(samples)@,
                kept@ == samples@.subrange((SAMPLE_CAP / 2) as int, i as int),
            decreases samples@.len() - i,
        {
            kept.push(samples[i]);
            assert(samples@.subrange((SAMPLE_CAP / 2) as int, i + 1)
                =~= samples@.subrange((SAMPLE_CAP / 2) as int, i as int).push(samples@[i as int]));
            i = i + 1;
        }
        *samples = kept;
    }
    samples.push(sample);
}

/// Frame timings, kept per phase.
#[derive(Debug)]
pub struct FrameTimer {
    enabled: bool,
    tick: Vec<u128>,
    paint: Vec<u128>,
    present: Vec<u128>,
    input_to_present: Vec<u128>,
    budget: Option<u128>,
}

impl FrameTimer {
    /// Whether the timings are to be printed.
    pub closed spec fn logging(&self) -> bool {
        self.enabled
    }

    /// Tick samples held, oldest first.
    pub closed spec fn ticks(&self) -> Seq<u128> {
        self.tick@
    }

    /// Paint samples held, oldest first.
    pub closed spec fn paints(&self) -> Seq<u128> {
        self.paint@
    }

    /// Present samples held, oldest first.
    pub closed spec fn presents(&self) -> Seq<u128> {
        self.present@
    }

    /// Input-to-present samples held, oldest first.
    pub closed spec fn latencies(&self) -> Seq<u128> {
        self.input_to_present@
    }

    /// The budget a frame's total is held to, if any.
    pub closed spec fn frame_budget(&self) -> Option<u128> {
        self.budget
    }

    /// No phase holds more than [`SAMPLE_CAP`] samples.
    pub closed spec fn wf(&self) -> bool {
        &&& self.tick@.len() <= SAMPLE_CAP
        &&& self.paint@.len() <= SAMPLE_CAP
        &&& self.present@.len() <= SAMPLE_CAP
        &&& self.input_to_present@.len() <= SAMPLE_CAP
    }

    /// A timer with nothing recorded, printing or not, with an optional
    /// budget (nanoseconds) that a frame's total is held to.
    pub fn new(enabled: bool, budget: Option<u128>) -> (result: FrameTimer)
        ensures
            result.wf(),
            result.logging() == enabled,
            result.frame_budget() == budget,
            result.ticks().len() == 0,
            result.paints().len() == 0,
            result.presents().len() == 0,
            result.latencies().len() == 0,
    {
        FrameTimer {
            enabled,
            tick: Vec::new(),
            paint: Vec::new(),
            present: Vec::new(),
            input_to_present: Vec::new(),
            budget,
        }
    }

    /// Whether the timings are to be printed.
    pub fn enabled(&self) -> (result: bool)
        ensures
            result == self.logging(),
    {
        self.enabled
    }

    /// Record one frame. Samples are kept even when printing is off, so an
    /// application can read [`Self::snapshot`] without the log switched on.
    pub fn record(&mut self, tick: u128, paint: u128, present: u128)
        requires
            old(self).wf(),
        ensures
            final(self).wf(),
            final(self).ticks() == pushed_capped(old(self).ticks(), tick),
            final(self).paints() == pushed_capped(old(self).paints(), paint),
            final(self).presents() == pushed_capped(old(self).presents(), present),
            final(self).latencies() == old(self).latencies(),
            final(self).logging() == old(self).logging(),
            final(self).frame_budget() == old(self).frame_budget(),
    {
        self.record_full(tick, paint, present, None);
    }

    /// [`Self::record`] plus the time from the input event that caused the
    /// frame to the present, when that input was timestamped.
    pub fn record_full(&mut self, tick: u128, paint: u128, present: u128, input_to_present: Option<u128>)
        requires
            old(self).wf(),
        ensures
            final(self).wf(),
            final(self).ticks() == pushed_capped(old(self).ticks(), tick),
            final(self).paints() == pushed_capped(old(self).paints(), paint),
            final(self).presents() == pushed_capped(old(self).presents(), present),
            final(self).latencies() == match input_to_present {
                Some(latency) => pushed_capped(old(self).latencies(), latency),
                None => old(self).latencies(),
            },
            final(self).logging() == old(self).logging(),
            final(self).frame_budget() == old(self).frame_budget(),
    {
        push_cap(&mut self.tick, tick);
        push_cap(&mut self.paint, paint);
        push_cap(&mut self.present, present);
        if let Some(latency) = input_to_present {
            push_cap(&mut self.input_to_present, latency);
        }
    }

    /// Percentiles for the samples currently held. Does not reset them.
    pub fn snapshot(&self) -> (result: FrameSnapshot)
        ensures
            summarises(self.ticks(), result.tick),
            summarises(self.paints(), result.paint),
            summarises(self.presents(), result.present),
            summarises(self.latencies(), result.input_to_present),
    {
        FrameSnapshot {
            tick: summarize(self.tick.as_slice()),
            paint: summarize(self.paint.as_slice()),
            present: summarize(self.present.as_slice()),
            input_to_present: summarize(self.input_to_present.as_slice()),
        }
    }

    /// How many frames were recorded since the last reset.
    pub fn frames(&self) -> (result: usize)
        ensures
            result == self.paints().len(),
    {
        self.paint.len()
    }

    /// Each frame's total: tick, paint and present added up, frame by frame.
    pub fn totals(&self) -> (result: Vec<u128>)
        requires
            forall|i: int| 0 <= i < self.ticks().len() ==> #[trigger] self.ticks()[i] <= MAX_NANOS,
            forall|i: int| 0 <= i < self.paints().len() ==> #[trigger] self.paints()[i] <= MAX_NANOS,
            forall|i: int| 0 <= i < self.presents().len() ==> #[trigger] self.presents()[i] <= MAX_NANOS,
        ensures
            result@.len() == min_len(self.ticks().len(), min_len(self.paints().len(), self.presents().len())),
            forall|i: int| 0 <= i < result@.len() ==> #[trigger] result@[i] == self.ticks()[i] + self.paints()[i] + self.presents()[i],
    {
        let count = if self.tick.len() < self.paint.len() { self.tick.len() } else { self.paint.len() };
        let count = if count < self.present.len() { count } else { self.present.len() };
        let mut totals: Vec<u128> = Vec::new();
        let mut i: usize = 0;
        while i < count
            invariant
                i <= count,
                count == min_len(self.tick@.len(), min_len(self.paint@.len(), self.present@.len())),
                forall|k: int| 0 <= k < self.ticks().len() ==> #[trigger] self.ticks()[k] <= MAX_NANOS,
                forall|k: int| 0 <= k < self.paints().len() ==> #[trigger] self.paints()[k] <= MAX_NANOS,
                forall|k: int| 0 <= k < self.presents().len() ==> #[trigger] self.presents()[k] <= MAX_NANOS,
                totals@.len() == i,
                forall|k: int| 0 <= k < i ==> #[trigger] totals@[k] == self.tick@[k] + self.paint@[k] + self.present@[k],
            decreases count - i,
        {
            let t = self.tick[i];
            let p = self.paint[i];
            let q = self.present[i];
            assert(self.ticks()[i as int] <= MAX_NANOS && self.paints()[i as int] <= MAX_NANOS && self.presents()[i as int] <= MAX_NANOS);
            totals.push(t + p + q);
            i = i + 1;
        }
        totals
    }

    /// How many frames' totals went over the budget, when there is one.
    pub fn over_budget(&self) -> (result: Option<usize>)
        requires
            forall|i: int| 0 <= i < self.ticks().len() ==> #[trigger] self.ticks()[i] <= MAX_NANOS,
            forall|i: int| 0 <= i < self.paints().len() ==> #[trigger] self.paints()[i] <= MAX_NANOS,
            forall|i: int| 0 <= i < self.presents().len() ==> #[trigger] self.presents()[i] <= MAX_NANOS,
        ensures
            match self.frame_budget() {
                None => result is None,
                Some(budget) => result == Some(count_over(self.totals_spec(), budget as int, self.totals_spec().len() as int) as usize),
            },
    {
        match self.budget {
            None => None,
            Some(budget) => {
                let totals = self.totals();
                proof {
                    assert(totals@ =~= self.totals_spec());
                }
                let mut over: usize = 0;
                let mut i: usize = 0;
                while i < totals.len()
                    invariant
                        i <= totals@.len(),
                        over == count_over(totals@, budget as int, i as int),
                        over <= i,
                    decreases totals@.len() - i,
                {
                    if totals[i] > budget {
                        over = over + 1;
                    }
                    i = i + 1;
                }
                Some(over)
            },
        }
    }

    /// Each frame's total, frame by frame.
    pub closed spec fn totals_spec(&self) -> Seq<u128> {
        Seq::new(
            min_len(self.tick@.len(), min_len(self.paint@.len(), self.present@.len())) as nat,
            |i: int| (self.tick@[i] + self.paint@[i] + self.present@[i]) as u128,
        )
    }

    /// Forget every sample, as after printing them.
    pub fn clear(&mut self)
        ensures
            final(self).wf(),
            final(self).ticks().len() == 0,
            final(self).paints().len() == 0,
            final(self).presents().len() == 0,
            final(self).latencies().len() == 0,
            final(self).logging() == old(self).logging(),
            final(self).frame_budget() == old(self).frame_budget(),
    {
        self.tick = Vec::new();
        self.paint = Vec::new();
        self.present = Vec::new();
        self.input_to_present = Vec::new();
    }
}

/// The smaller of two lengths.
pub open spec fn min_len(a: nat, b: nat) -> nat {
    if a < b { a } else { b }
}

/// How many of the first `count` values exceed `limit`.
pub open spec fn count_over(values: Seq<u128>, limit: int, count: int) -> int
    decreases count,
{
    if count <= 0 {
        0
    } else {
        count_over(values, limit, count - 1) + if values[count - 1] > limit { 1int } else { 0 }
    }
}

} // verus!
