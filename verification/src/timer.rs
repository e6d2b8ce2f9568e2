//! `StepTimer`: CPU-side step instrumentation for components.
//!
//! Every component wraps its `step` call in a `StepTimer` so that CPU-side
//! step time is reported identically across all components and engines.
//!
//! ```ignore
//! let mut timer = StepTimer::new("infe-kv");
//! // In the step call:
//! let guard = timer.start(ctx.step_id);
//! // ... do work ...
//! timer.finish(guard); // records the elapsed time
//! ```

use crate::text;
use std::time::{Duration, Instant};
use vstd::prelude::*;
use vstd::string::*;

verus! {

/// `std::time::Instant`, a point of the machine's clock.
#[verifier::external_type_specification]
#[verifier::external_body]
pub struct ExInstant(std::time::Instant);

/// `std::time::Instant::now`: reads the clock. Nothing is stated of the point
/// of time, which the machine decides.
pub assume_specification[ std::time::Instant::now ]() -> std::time::Instant;

/// `std::time::Instant::elapsed`: the time since that point. Nothing is stated
/// of it, as it depends on the clock.
pub assume_specification[ std::time::Instant::elapsed ](
    start: &std::time::Instant,
) -> std::time::Duration;

/// What `Duration::as_nanos` returns: how many nanoseconds a duration is.
pub uninterp spec fn duration_nanos(duration: std::time::Duration) -> u128;

/// `std::time::Duration::as_nanos`: the total number of nanoseconds, a
/// function of the duration alone.
pub assume_specification[ std::time::Duration::as_nanos ](
    duration: &std::time::Duration,
) -> (ns: u128)
    ensures
        ns == duration_nanos(*duration),
;

/// `std::time::Duration::from_nanos`: the duration of that many nanoseconds.
pub assume_specification[ std::time::Duration::from_nanos ](ns: u64) -> (
    duration: std::time::Duration)
    ensures
        duration_nanos(duration) == ns,
;

/// What a [`StepTimer`] has recorded.
#[verifier::ext_equal]
pub struct Stats {
    /// Whether timing is enabled.
    pub enabled: bool,
    /// Number of steps.
    pub steps: u64,
    /// Total time.
    pub total: u64,
    /// Shortest time; `u64::MAX` before any.
    pub min: u64,
    /// Longest time.
    pub max: u64,
    /// Last time.
    pub last: u64,
}

impl Stats {
    /// No steps.
    pub open spec fn none(enabled: bool) -> Stats {
        Stats { enabled, steps: 0, total: 0, min: u64::MAX, max: 0, last: 0 }
    }

    /// Timing switched on or off.
    pub open spec fn switched(self, enabled: bool) -> Stats {
        Stats { enabled, ..self }
    }

    /// All statistics forgotten.
    pub open spec fn cleared(self) -> Stats {
        Stats::none(self.enabled)
    }

    /// One more step. The counters wrap around.
    pub open spec fn recorded(self, ns: u64) -> Stats {
        Stats {
            steps: self.steps.wrapping_add(1),
            total: self.total.wrapping_add(ns),
            min: if ns < self.min {
                ns
            } else {
                self.min
            },
            max: if ns > self.max {
                ns
            } else {
                self.max
            },
            last: ns,
            ..self
        }
    }

    /// Several more steps.
    pub open spec fn recorded_all(self, times: Seq<u64>) -> Stats
        decreases times.len(),
    {
        if times.len() == 0 {
            self
        } else {
            self.recorded_all(times.drop_last()).recorded(times.last())
        }
    }

    /// The mean time, rounded down; 0 without any.
    pub open spec fn mean(self) -> u64 {
        if self.steps == 0 {
            0
        } else {
            self.total / self.steps
        }
    }

    /// The shortest time; 0 without any.
    pub open spec fn least(self) -> u64 {
        if self.steps == 0 {
            0
        } else {
            self.min
        }
    }
}

/// The number of nanoseconds that a 64-bit counter keeps.
pub open spec fn kept_nanos(ns: u128) -> u64 {
    (ns % 0x1_0000_0000_0000_0000) as u64
}

/// A timer for measuring CPU-side step time. Timing is disabled by default.
#[derive(Debug)]
pub struct StepTimer {
    name: &'static str,
    enabled: bool,
    steps: u64,
    total_ns: u64,
    min_ns: u64,
    max_ns: u64,
    last_ns: u64,
}

impl View for StepTimer {
    type V = Stats;

    closed spec fn view(&self) -> Stats {
        Stats {
            enabled: self.enabled,
            steps: self.steps,
            total: self.total_ns,
            min: self.min_ns,
            max: self.max_ns,
            last: self.last_ns,
        }
    }
}

/// A step that is being timed. It was started by [`StepTimer::start`], and
/// [`StepTimer::finish`] records how long it took.
#[derive(Debug)]
pub struct StepGuard {
    start: Option<Instant>,
    step_id: Option<u64>,
}

impl StepGuard {
    #[verifier::type_invariant]
    spec fn inv(self) -> bool {
        self.start is Some <==> self.step_id is Some
    }

    /// The step that will be recorded; `None` where timing was disabled.
    pub closed spec fn step(&self) -> Option<u64> {
        self.step_id
    }

    /// The point of time at which the step was started; `None` where timing was
    /// disabled.
    pub closed spec fn started_at(&self) -> Option<Instant> {
        self.start
    }

    /// Elapsed time so far (without stopping): what `Instant::elapsed` returns
    /// for the point of time at which the step was started, and zero where
    /// timing was disabled. What the elapsed time is, the clock decides.
    pub fn elapsed(&self) -> (duration: Duration)
        ensures
            match self.started_at() {
                Some(at) => call_ensures(Instant::elapsed, (&at,), duration),
                None => duration_nanos(duration) == 0,
            },
    {
        match &self.start {
            Some(at) => at.elapsed(),
            None => Duration::from_nanos(0),
        }
    }
}

impl StepTimer {
    /// The component name.
    pub closed spec fn label(&self) -> Seq<char> {
        self.name@
    }

    /// Create a new timer for the named component. Timing is disabled by
    /// default.
    pub fn new(name: &'static str) -> (timer: Self)
        ensures
            timer@ == Stats::none(false),
            timer.label() == name@,
    {
        StepTimer {
            name,
            enabled: false,
            steps: 0,
            total_ns: 0,
            min_ns: u64::MAX,
            max_ns: 0,
            last_ns: 0,
        }
    }

    /// Enable or disable timing.
    pub fn set_enabled(&mut self, enabled: bool)
        ensures
            final(self)@ == (Stats { enabled, ..old(self)@ }),
            final(self)@ == old(self)@.switched(enabled),
            final(self).label() == old(self).label(),
    {
        self.enabled = enabled;
    }

    /// Whether timing is currently enabled.
    pub fn is_enabled(&self) -> (enabled: bool)
        ensures
            enabled == self@.enabled,
    {
        self.enabled
    }

    /// Start timing a step at the point of time that the clock shows. If timing
    /// is disabled, the clock is not read, and finishing the step records
    /// nothing.
    pub fn start(&self, step_id: u64) -> (guard: StepGuard)
        ensures
            guard.step() == (if self@.enabled {
                Some(step_id)
            } else {
                None
            }),
            self@.enabled ==> (guard.started_at() matches Some(at) && call_ensures(
                Instant::now,
                (),
                at,
            )),
            !self@.enabled ==> guard.started_at() is None,
    {
        if self.enabled {
            StepGuard { start: Some(Instant::now()), step_id: Some(step_id) }
        } else {
            StepGuard { start: None, step_id: None }
        }
    }

    /// Finish a step: record the time since it was started. If timing was
    /// disabled when it was started, nothing is recorded. What the time is,
    /// the clock decides.
    pub fn finish(&mut self, guard: StepGuard)
        ensures
            guard.step() is None ==> final(self)@ == old(self)@,
            guard.step() is Some ==> exists|duration: Duration|
                {
                    &&& call_ensures(Instant::elapsed, (&guard.started_at()->0,), duration)
                    &&& final(self)@ == #[trigger] old(self)@.recorded(
                        kept_nanos(duration_nanos(duration)),
                    )
                },
            final(self).label() == old(self).label(),
    {
        proof {
            use_type_invariant(&guard);
        }
        if guard.step_id.is_some() {
            let duration = guard.elapsed();
            self.record(duration);
        }
    }

    /// Record a completed step's duration.
    pub fn record(&mut self, duration: Duration)
        ensures
            final(self)@ == old(self)@.recorded(kept_nanos(duration_nanos(duration))),
            final(self).label() == old(self).label(),
    {
        self.record_nanos(duration.as_nanos());
    }

    /// Record a completed step's duration in nanoseconds.
    pub fn record_nanos(&mut self, nanos: u128)
        ensures
            final(self)@ == old(self)@.recorded(kept_nanos(nanos)),
            final(self).label() == old(self).label(),
    {
        let ns: u64 = (nanos % 0x1_0000_0000_0000_0000) as u64;
        self.last_ns = ns;
        self.total_ns = self.total_ns.wrapping_add(ns);
        self.steps = self.steps.wrapping_add(1);
        if ns < self.min_ns {
            self.min_ns = ns;
        }
        if ns > self.max_ns {
            self.max_ns = ns;
        }
    }

    /// Number of steps recorded.
    pub fn steps(&self) -> (n: u64)
        ensures
            n == self@.steps,
    {
        self.steps
    }

    /// Mean step time in nanoseconds (0 if no steps recorded).
    pub fn mean_ns(&self) -> (ns: u64)
        ensures
            ns == self@.mean(),
    {
        if self.steps == 0 {
            return 0;
        }
        self.total_ns / self.steps
    }

    /// Total elapsed time in nanoseconds.
    pub fn total_ns(&self) -> (ns: u64)
        ensures
            ns == self@.total,
    {
        self.total_ns
    }

    /// Minimum step time in nanoseconds (0 if no steps recorded).
    pub fn min_ns(&self) -> (ns: u64)
        ensures
            ns == (if self@.steps == 0 {
                0
            } else {
                self@.min
            }),
    {
        if self.steps == 0 {
            0
        } else {
            self.min_ns
        }
    }

    /// Maximum step time in nanoseconds.
    pub fn max_ns(&self) -> (ns: u64)
        ensures
            ns == self@.max,
    {
        self.max_ns
    }

    /// Last step time in nanoseconds.
    pub fn last_ns(&self) -> (ns: u64)
        ensures
            ns == self@.last,
    {
        self.last_ns
    }

    /// Component name.
    pub fn name(&self) -> (name: &'static str)
        ensures
            name@ == self.label(),
    {
        self.name
    }

    /// Reset all statistics (does not change enabled state).
    pub fn reset_stats(&mut self)
        ensures
            final(self)@ == Stats::none(old(self)@.enabled),
            final(self)@ == old(self)@.cleared(),
            final(self).label() == old(self).label(),
    {
        self.steps = 0;
        self.total_ns = 0;
        self.min_ns = u64::MAX;
        self.max_ns = 0;
        self.last_ns = 0;
    }

    /// Render statistics as a debug string. `micros` writes a time in
    /// nanoseconds as a number of microseconds.
    pub fn summary<F: Fn(u64) -> String>(&self, micros: F) -> (s: String)
        requires
            forall|ns: u64| call_requires(micros, (ns,)),
        ensures
            self@.steps == 0 ==> s@ == self.label() + ": no steps recorded"@,
            self@.steps > 0 ==> exists|mean: String, min: String, max: String|
                #![auto]
                {
                    &&& call_ensures(micros, (self@.mean(),), mean)
                    &&& call_ensures(micros, (self@.least(),), min)
                    &&& call_ensures(micros, (self@.max,), max)
                    &&& s@ == summary_text(self.label(), self@.steps, mean@, min@, max@)
                },
    {
        if self.steps == 0 {
            return String::from_str(self.name).concat(": no steps recorded");
        }
        let mean = micros(self.mean_ns());
        let min = micros(self.min_ns());
        let max = micros(self.max_ns());
        let s = String::from_str(self.name).concat(": ").concat(
            text::decimal_text(self.steps).as_str(),
        ).concat(" steps, mean=").concat(mean.as_str()).concat("\u{b5}s, min=").concat(
            min.as_str(),
        ).concat("\u{b5}s, max=").concat(max.as_str()).concat("\u{b5}s");
        assert(s@ == summary_text(self.label(), self@.steps, mean@, min@, max@));
        s
    }
}

/// The statistics as a debug string.
pub open spec fn summary_text(
    name: Seq<char>,
    steps: u64,
    mean: Seq<char>,
    min: Seq<char>,
    max: Seq<char>,
) -> Seq<char> {
    name + ": "@ + text::decimal(steps as nat) + " steps, mean="@ + mean + "\u{b5}s, min="@ + min
        + "\u{b5}s, max="@ + max + "\u{b5}s"@
}

/// The sum of the times.
pub open spec fn sum(times: Seq<u64>) -> nat
    decreases times.len(),
{
    if times.len() == 0 {
        0
    } else {
        sum(times.drop_last()) + times.last() as nat
    }
}

/// The counters count: the steps, and the sum of their times, as far as 64 bits
/// hold them.
pub proof fn law_counters_count(enabled: bool, times: Seq<u64>)
    ensures
        ({
            let s = Stats::none(enabled).recorded_all(times);
            &&& s.enabled == enabled
            &&& s.steps == times.len() % 0x1_0000_0000_0000_0000
            &&& s.total == sum(times) % 0x1_0000_0000_0000_0000
            &&& times.len() > 0 ==> s.last == times.last()
        }),
    decreases times.len(),
{
    if times.len() > 0 {
        law_counters_count(enabled, times.drop_last());
    }
}

/// The extremes are extremes: no time is below the minimum or above the
/// maximum, and both are among the times.
pub proof fn law_extremes_bound(enabled: bool, times: Seq<u64>)
    requires
        times.len() > 0,
    ensures
        ({
            let s = Stats::none(enabled).recorded_all(times);
            &&& forall|i: int| 0 <= i < times.len() ==> s.min <= #[trigger] times[i] <= s.max
            &&& times.contains(s.min)
            &&& times.contains(s.max)
        }),
    decreases times.len(),
{
    let init = times.drop_last();
    let n = times.len() - 1;
    assert(times[n] == times.last());
    if init.len() == 0 {
        assert(Stats::none(enabled).recorded_all(init) == Stats::none(enabled));
    } else {
        law_extremes_bound(enabled, init);
        let before = Stats::none(enabled).recorded_all(init);
        let low = choose|i: int| 0 <= i < init.len() && init[i] == before.min;
        let high = choose|i: int| 0 <= i < init.len() && init[i] == before.max;
        assert(times[low] == before.min);
        assert(times[high] == before.max);
        assert forall|i: int| 0 <= i < times.len() implies before.recorded(times.last()).min
            <= #[trigger] times[i] <= before.recorded(times.last()).max by {
            if i < n {
                assert(init[i] == times[i]);
            }
        }
    }
}

proof fn lemma_sum_bounds(times: Seq<u64>, low: u64, high: u64)
    requires
        forall|i: int| 0 <= i < times.len() ==> low <= #[trigger] times[i] <= high,
    ensures
        low * times.len() <= sum(times) <= high * times.len(),
    decreases times.len(),
{
    if times.len() > 0 {
        let init = times.drop_last();
        assert forall|i: int| 0 <= i < init.len() implies low <= #[trigger] init[i] <= high by {
            assert(init[i] == times[i]);
        }
        lemma_sum_bounds(init, low, high);
        assert(low <= times[times.len() - 1] <= high);
        let k = init.len();
        assert(low * (k + 1) == low * k + low) by (nonlinear_arith);
        assert(high * (k + 1) == high * k + high) by (nonlinear_arith);
    }
}

/// The mean lies between the extremes, as long as the counters do not wrap.
pub proof fn law_mean_between_extremes(enabled: bool, times: Seq<u64>)
    requires
        times.len() > 0,
        times.len() <= u64::MAX,
        sum(times) <= u64::MAX,
    ensures
        ({
            let s = Stats::none(enabled).recorded_all(times);
            &&& s.mean() == sum(times) / times.len()
            &&& s.least() == s.min
            &&& s.least() <= s.mean() <= s.max
        }),
{
    law_counters_count(enabled, times);
    law_extremes_bound(enabled, times);
    let s = Stats::none(enabled).recorded_all(times);
    lemma_sum_bounds(times, s.min, s.max);
    let n = times.len();
    let total = sum(times);
    assert(s.steps == n);
    assert(s.total == total);
    assert(s.min * n <= total && total <= s.max * n && n > 0 ==> s.min <= total / n && total / n
        <= s.max) by (nonlinear_arith)
        requires
            n > 0,
    ;
}

/// Switching timing on or off keeps the statistics, and does so alone; recording a
/// step does not switch it.
pub proof fn law_switching_keeps_statistics(stats: Stats, on: bool, times: Seq<u64>)
    ensures
        stats.switched(on).enabled == on,
        stats.switched(on).steps == stats.steps && stats.switched(on).total == stats.total,
        stats.switched(on).min == stats.min && stats.switched(on).max == stats.max,
        stats.switched(on).last == stats.last,
        stats.recorded_all(times).enabled == stats.enabled,
        stats.switched(on).recorded_all(times) == stats.recorded_all(times).switched(on),
    decreases times.len(),
{
    if times.len() > 0 {
        law_switching_keeps_statistics(stats, on, times.drop_last());
    }
}

/// A time of up to 64 bits is recorded as it is, and a longer one up to a multiple
/// of 2 to the power of 64.
pub proof fn law_kept_time(ns: u128)
    ensures
        ns <= u64::MAX ==> kept_nanos(ns) == ns,
        (ns - kept_nanos(ns)) % 0x1_0000_0000_0000_0000 == 0,
{
}

/// After a reset the statistics are those of a new timer, whatever was recorded
/// before: what is recorded from then on counts alone. Whether timing is enabled
/// stays.
pub proof fn law_reset_forgets(stats: Stats, times: Seq<u64>, ns: u64)
    ensures
        stats.cleared().enabled == stats.enabled,
        stats.cleared().steps == 0 && stats.cleared().total == 0 && stats.cleared().max == 0
            && stats.cleared().last == 0,
        stats.cleared().mean() == 0 && stats.cleared().least() == 0,
        stats.recorded_all(times).cleared() == stats.cleared(),
        stats.cleared().recorded(ns).least() == ns,
        stats.cleared().recorded(ns).max == ns,
        stats.cleared().recorded(ns).last == ns,
        stats.cleared().recorded(ns).mean() == ns,
        stats.cleared().recorded(ns).total == ns,
    decreases times.len(),
{
    if times.len() > 0 {
        law_reset_forgets(stats, times.drop_last(), ns);
    }
}

/// The summary is the name, and the number of steps, the mean, the minimum and the
/// maximum, each at its place.
pub proof fn law_summary_says_all(
    name: Seq<char>,
    steps: u64,
    mean: Seq<char>,
    min: Seq<char>,
    max: Seq<char>,
)
    ensures
        ({
            let s = summary_text(name, steps, mean, min, max);
            let count = text::decimal(steps as nat);
            let a = name.len() + 2;
            let b = a + count.len() + 13;
            let c = b + mean.len() + 8;
            let d = c + min.len() + 8;
            &&& s.len() == d + max.len() + 2
            &&& s.subrange(0, name.len() as int) == name
            &&& s.subrange(a as int, (a + count.len()) as int) == count
            &&& s.subrange(b as int, (b + mean.len()) as int) == mean
            &&& s.subrange(c as int, (c + min.len()) as int) == min
            &&& s.subrange(d as int, (d + max.len()) as int) == max
        }),
{
    reveal_strlit(": ");
    reveal_strlit(" steps, mean=");
    reveal_strlit("\u{b5}s, min=");
    reveal_strlit("\u{b5}s, max=");
    reveal_strlit("\u{b5}s");
    let s = summary_text(name, steps, mean, min, max);
    let count = text::decimal(steps as nat);
    let a = (name.len() + 2) as int;
    let b = a + count.len() + 13;
    let c = b + mean.len() + 8;
    let d = c + min.len() + 8;
    assert(s.subrange(0, name.len() as int) =~= name);
    assert(s.subrange(a, a + count.len()) =~= count);
    assert(s.subrange(b, b + mean.len()) =~= mean);
    assert(s.subrange(c, c + min.len()) =~= min);
    assert(s.subrange(d, d + max.len()) =~= max);
}

/// What the timer hands out are its statistics.
pub proof fn law_readings(
    timer: StepTimer,
    steps: u64,
    total: u64,
    mean: u64,
    min: u64,
    max: u64,
    last: u64,
)
    requires
        call_ensures(StepTimer::steps, (&timer,), steps),
        call_ensures(StepTimer::total_ns, (&timer,), total),
        call_ensures(StepTimer::mean_ns, (&timer,), mean),
        call_ensures(StepTimer::min_ns, (&timer,), min),
        call_ensures(StepTimer::max_ns, (&timer,), max),
        call_ensures(StepTimer::last_ns, (&timer,), last),
    ensures
        steps == timer@.steps && total == timer@.total && max == timer@.max && last
            == timer@.last,
        steps > 0 ==> min == timer@.min && mean as int * steps as int <= total as int
            && (total as int) < (mean as int + 1) * steps as int,
        steps == 0 ==> mean == 0 && min == 0,
{
    if steps > 0 {
        let t = total as int;
        let n = steps as int;
        let m = mean as int;
        assert(m * n <= t && t < (m + 1) * n) by (nonlinear_arith)
            requires
                m == t / n,
                n > 0,
        ;
    }
}

} // verus!
