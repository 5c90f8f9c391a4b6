//! Timing of the sampling loop itself.
use vstd::prelude::*;
use crate::unit_types::{Magnitude, shifted};
use crate::{ITER, PROFILING};

verus! {

/// What one timed pass leads to: the duration taken in (microseconds, or 0
/// where it does not fit in a `u16`), the duration that left the window, and
/// whether the mean is due to be reported.
#[derive(Clone, Copy, Debug, PartialEq, Eq, Structural)]
pub struct ProfileStep {
    pub sample: u16,
    pub evicted: u16,
    pub report: bool,
}

/// The last `ITER` pass durations and a countdown to the next report.
#[derive(Debug)]
pub struct Profiler {
    pub times: Magnitude,
    pub timer: u16,
}

/// A duration as `u16::try_from(..).unwrap_or_default()` takes it.
pub open spec fn sample_of(delta_time: u128) -> u16 {
    if delta_time <= u16::MAX as u128 { delta_time as u16 } else { 0 }
}

/// The countdown after a pass that began with it at `t`.
pub open spec fn next_timer(t: u16) -> u16 {
    if t == ITER / 2 { 1 } else { (t + 1) as u16 }
}

/// The countdown after `k` passes from `t`.
pub open spec fn timer_after(t: u16, k: nat) -> u16
    decreases k,
{
    if k == 0 { t } else { next_timer(timer_after(t, (k - 1) as nat)) }
}

proof fn lemma_timer_counts(t: u16, k: nat)
    requires
        t + k <= ITER / 2,
    ensures
        timer_after(t, k) == t + k,
    decreases k,
{
    if k > 0 {
        lemma_timer_counts(t, (k - 1) as nat);
    }
}

/// The mean is reported every `ITER / 2` passes: after a report, the `j`-th
/// pass (for `1 <= j <= ITER / 2`) reports exactly when `j == ITER / 2`; from
/// a new profiler the first report comes at pass `ITER / 2 + 1`.
pub proof fn lemma_report_period(j: nat)
    requires
        1 <= j <= ITER / 2 + 1,
    ensures
        j <= ITER / 2 ==> ((timer_after(1, (j - 1) as nat) == ITER / 2) <==> j == ITER / 2),
        (timer_after(0, (j - 1) as nat) == ITER / 2) <==> j == ITER / 2 + 1,
{
    if j <= ITER / 2 {
        lemma_timer_counts(1, (j - 1) as nat);
    }
    lemma_timer_counts(0, (j - 1) as nat);
}

proof fn lemma_timer_from_start(m: nat)
    ensures
        timer_after(0, m) == if m == 0 { 0 } else { ((m - 1) % 20 + 1) as u16 },
    decreases m,
{
    if m > 0 {
        lemma_timer_from_start((m - 1) as nat);
    }
}

/// Over every call: the `k`-th call of `update` on a new profiler (whose
/// countdown then stands at `timer_after(0, k - 1)`) reports the mean exactly
/// when `k > ITER / 2` and `k` is one more than a multiple of `ITER / 2`.
pub proof fn lemma_reports_over_all_calls(k: nat)
    requires
        k >= 1,
    ensures
        (timer_after(0, (k - 1) as nat) == ITER / 2) <==> (k >= ITER / 2 + 1 && k % (ITER / 2) as nat == 1),
{
    lemma_timer_from_start((k - 1) as nat);
    if k >= 2 {
        let m = (k - 2) as nat;
        assert((m % 20 == 19) <==> (k % 20 == 1)) by (nonlinear_arith)
            requires
                m == k - 2,
        {
            assert(k == m + 2);
            assert(m == 20 * (m / 20) + m % 20);
            assert((m + 2) % 20 == (m % 20 + 2) % 20);
        }
        assert(k % 20 == 1 ==> k >= 21);
    }
}

impl Profiler {
    /// Every window holds `ITER` readings and the countdown stays within `ITER / 2`.
    pub open spec fn well_formed(&self) -> bool {
        self.times.well_formed() && self.timer <= ITER / 2
    }

    /// No pass timed yet.
    pub fn new() -> (p: Self)
        ensures
            p.well_formed(),
            p.times.window() == Seq::new(ITER as nat, |i: int| 0u16),
            p.times.source() == ""@,
            p.timer == 0,
    {
        Profiler { times: Magnitude::new(""), timer: 0 }
    }

    /// Takes in a pass that took `delta_time` microseconds. Every `ITER / 2`
    /// passes the mean is due to be reported.
    pub fn update(&mut self, delta_time: u128) -> (step: Option<ProfileStep>)
        requires
            old(self).well_formed(),
        ensures
            final(self).well_formed(),
            PROFILING ==> step == Some(ProfileStep {
                sample: sample_of(delta_time),
                evicted: old(self).times.window()[0],
                report: old(self).timer == ITER / 2,
            }),
            PROFILING ==> final(self).times.window() == shifted(old(self).times.window(), sample_of(delta_time)),
            PROFILING ==> final(self).timer == next_timer(old(self).timer),
            !PROFILING ==> step is None && *final(self) == *old(self),
    {
        if PROFILING {
            let sample: u16 = if delta_time <= 65535 { delta_time as u16 } else { 0 };
            let evicted = self.times.add(sample);
            let report = self.timer == ITER / 2;
            if report {
                self.timer = 0;
            }
            self.timer = self.timer + 1;
            Some(ProfileStep { sample, evicted, report })
        } else {
            None
        }
    }
}

} // verus!
