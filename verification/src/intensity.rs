//! The integer skeleton of the thrust-intensity curve: ordering and
//! condensing of the script, the sample schedule, and the position changes
//! measured in the window around every sample.

use vstd::prelude::*;
use vstd::arithmetic::div_mod::lemma_fundamental_div_mod;
use vstd::arithmetic::mul::lemma_mul_inequality;
use crate::funscript::{
    Action, distinct_times, is_index_permutation, lemma_indices_cover,
    lemma_time_order_ignores_input_order, condense_identical_positions, condensed, is_stable_time_order, is_time_sorted,
    lemma_condense_keeps_time_order, lemma_condense_length, lemma_stable_order_sorts,
    lemma_time_sorted_may_condense, reorder, reorder_actions, time_order,
};
use crate::window::{PositionChange, window_changes, window_changes_exec};

verus! {

/// Neighbouring identical positions closer than this many milliseconds are
/// condensed before the intensity is measured.
pub const CONDENSE_GAP_MS: u64 = 200;

/// One sample of the intensity curve: its time, its analysis window, and
/// the position changes measured inside that window.
pub struct SamplePlan {
    pub time: u64,
    pub window_start: u64,
    pub window_end: u64,
    pub window_duration: u64,
    pub changes: Vec<PositionChange>,
}

/// The schedule of samples up to `max_time` stays inside `u64`: the last
/// sample time plus the window radius, and plus one more step, can be formed.
pub open spec fn schedule_fits(max_time: u64, sample_rate_ms: u64, window_radius_ms: u64) -> bool {
    sample_rate_ms == 0 || {
        let last = (max_time / sample_rate_ms) * sample_rate_ms;
        &&& last + window_radius_ms <= u64::MAX
        &&& last + sample_rate_ms <= u64::MAX
    }
}

/// The number of samples: one per multiple of the rate up to `max_time`, or
/// a single one at time 0 when the rate is 0.
pub open spec fn sample_count(max_time: u64, sample_rate_ms: u64) -> nat {
    if sample_rate_ms == 0 {
        1
    } else {
        (max_time / sample_rate_ms + 1) as nat
    }
}

/// The window around sample time `t`: `window_radius_ms` to either side,
/// cut at 0 and at `max_time`.
pub open spec fn window_start_at(t: int, window_radius_ms: u64) -> int {
    if t >= window_radius_ms {
        t - window_radius_ms
    } else {
        0
    }
}

pub open spec fn window_end_at(t: int, max_time: u64, window_radius_ms: u64) -> int {
    if t + window_radius_ms <= max_time {
        t + window_radius_ms
    } else {
        max_time as int
    }
}

/// `p` is the plan of the sample at time `t` over the actions `s`.
pub open spec fn sample_plan_matches(s: Seq<Action>, window_radius_ms: u64, t: int, p: SamplePlan) -> bool {
    let max_time = s.last().at;
    let ws = window_start_at(t, window_radius_ms);
    let we = window_end_at(t, max_time, window_radius_ms);
    &&& p.time == t
    &&& p.window_start == ws
    &&& p.window_end == we
    &&& p.window_duration == we - ws
    &&& p.changes@ == if we > ws {
        window_changes(s, ws as u64, we as u64)
    } else {
        Seq::<PositionChange>::empty()
    }
}

/// `samples` is the full schedule of samples over the actions `s`.
pub open spec fn samples_match(s: Seq<Action>, sample_rate_ms: u64, window_radius_ms: u64, samples: Seq<SamplePlan>) -> bool {
    &&& samples.len() == sample_count(s.last().at, sample_rate_ms)
    &&& forall|k: int|
        0 <= k < samples.len() ==> sample_plan_matches(
            s,
            window_radius_ms,
            k * sample_rate_ms,
            #[trigger] samples[k],
        )
}

proof fn lemma_multiple_below(max_time: int, rate: int, k: int)
    requires
        rate > 0,
        max_time >= 0,
        k >= 0,
    ensures
        k * rate <= max_time <==> k <= max_time / rate,
        k <= max_time / rate ==> k * rate <= (max_time / rate) * rate,
{
    lemma_fundamental_div_mod(max_time, rate);
    let q = max_time / rate;
    let r = max_time % rate;
    assert(0 <= r < rate);
    assert(rate * q == q * rate) by (nonlinear_arith);
    if k <= q {
        lemma_mul_inequality(k, q, rate);
    } else {
        lemma_mul_inequality(q + 1, k, rate);
        assert((q + 1) * rate == q * rate + rate) by (nonlinear_arith);
    }
}

/// Law: the window of the sample at time `t` reaches `window_radius_ms`
/// to either side of `t`, cut at 0 and at the last action: its start is the
/// larger of 0 and `t - window_radius_ms`, its end the smaller of
/// `t + window_radius_ms` and the last timestamp, its duration the distance
/// between them, and its changes are measured exactly when that distance is
/// positive.
pub proof fn lemma_sample_windows(s: Seq<Action>, sample_rate_ms: u64, window_radius_ms: u64, samples: Seq<SamplePlan>)
    requires
        s.len() > 0,
        samples_match(s, sample_rate_ms, window_radius_ms, samples),
    ensures
        forall|k: int|
            0 <= k < samples.len() ==> {
                let t = k * sample_rate_ms;
                let w = #[trigger] samples[k];
                &&& w.time == t
                &&& w.window_start >= 0
                &&& w.window_start >= t - window_radius_ms
                &&& (w.window_start == 0 || w.window_start == t - window_radius_ms)
                &&& w.window_end <= t + window_radius_ms
                &&& w.window_end <= s.last().at
                &&& (w.window_end == t + window_radius_ms || w.window_end == s.last().at)
                &&& w.window_duration == w.window_end - w.window_start
                &&& w.window_duration == 0 ==> w.changes@.len() == 0
                &&& w.window_duration > 0 ==> w.changes@ == window_changes(
                    s,
                    w.window_start,
                    w.window_end,
                )
            },
{
    assert forall|k: int| 0 <= k < samples.len() implies {
        let t = k * sample_rate_ms;
        let w = #[trigger] samples[k];
        &&& w.time == t
        &&& w.window_start >= 0
        &&& w.window_start >= t - window_radius_ms
        &&& (w.window_start == 0 || w.window_start == t - window_radius_ms)
        &&& w.window_end <= t + window_radius_ms
        &&& w.window_end <= s.last().at
        &&& (w.window_end == t + window_radius_ms || w.window_end == s.last().at)
        &&& w.window_duration == w.window_end - w.window_start
        &&& w.window_duration == 0 ==> w.changes@.len() == 0
        &&& w.window_duration > 0 ==> w.changes@ == window_changes(s, w.window_start, w.window_end)
    } by {
        assert(sample_plan_matches(s, window_radius_ms, k * sample_rate_ms, samples[k]));
    }
}

/// Law: samples start at time 0 and follow each other at the sample rate;
/// every sample lies inside its window, which lies inside `[0, max_time]`;
/// and the last sample is the last multiple of the rate not after
/// `max_time`.
pub proof fn lemma_schedule_shape(s: Seq<Action>, sample_rate_ms: u64, window_radius_ms: u64, samples: Seq<SamplePlan>)
    requires
        s.len() > 0,
        samples_match(s, sample_rate_ms, window_radius_ms, samples),
    ensures
        samples.len() > 0,
        samples[0].time == 0,
        forall|k: int| 0 <= k < samples.len() ==> (#[trigger] samples[k]).time == k * sample_rate_ms,
        forall|k: int|
            0 <= k < samples.len() ==> (#[trigger] samples[k]).window_start <= samples[k].time
                <= samples[k].window_end <= s.last().at,
        sample_rate_ms > 0 ==> samples.last().time <= s.last().at < samples.last().time
            + sample_rate_ms,
{
    let max_time = s.last().at;
    assert(0 * sample_rate_ms == 0) by (nonlinear_arith);
    assert(samples[0].time == 0 * sample_rate_ms);
    assert forall|k: int| 0 <= k < samples.len() implies (#[trigger] samples[k]).window_start
        <= samples[k].time <= samples[k].window_end <= max_time by {
        assert(sample_plan_matches(s, window_radius_ms, k * sample_rate_ms, samples[k]));
        if sample_rate_ms > 0 {
            lemma_multiple_below(max_time as int, sample_rate_ms as int, k);
        } else {
            assert(k * sample_rate_ms == 0) by (nonlinear_arith)
                requires
                    sample_rate_ms == 0,
            ;
        }
    }
    if sample_rate_ms > 0 {
        let k = samples.len() - 1;
        assert(sample_plan_matches(s, window_radius_ms, k * sample_rate_ms, samples[k]));
        lemma_multiple_below(max_time as int, sample_rate_ms as int, k);
        lemma_multiple_below(max_time as int, sample_rate_ms as int, k + 1);
        assert((k + 1) * sample_rate_ms == k * sample_rate_ms + sample_rate_ms) by (nonlinear_arith);
    }
}

fn plan_sample(actions: &Vec<Action>, t: u64, window_radius_ms: u64) -> (p: SamplePlan)
    requires
        actions.len() > 0,
        t <= actions@.last().at,
        t + window_radius_ms <= u64::MAX,
    ensures
        sample_plan_matches(actions@, window_radius_ms, t as int, p),
{
    let max_time = actions[actions.len() - 1].at;
    let window_start = if t >= window_radius_ms {
        t - window_radius_ms
    } else {
        0
    };
    let window_end = if t + window_radius_ms <= max_time {
        t + window_radius_ms
    } else {
        max_time
    };
    let window_duration = window_end - window_start;
    let changes = if window_duration > 0 {
        window_changes_exec(actions, window_start, window_end)
    } else {
        Vec::new()
    };
    SamplePlan { time: t, window_start, window_end, window_duration, changes }
}

/// The sample plans for all sample times over the actions, whose last one
/// gives the end of the schedule.
pub fn plan_samples(actions: &Vec<Action>, sample_rate_ms: u64, window_radius_ms: u64) -> (samples: Vec<SamplePlan>)
    requires
        actions.len() > 0,
        schedule_fits(actions@.last().at, sample_rate_ms, window_radius_ms),
    ensures
        samples_match(actions@, sample_rate_ms, window_radius_ms, samples@),
{
    let ghost s = actions@;
    let max_time = actions[actions.len() - 1].at;
    let mut samples: Vec<SamplePlan> = Vec::new();
    if sample_rate_ms == 0 {
        samples.push(plan_sample(actions, 0, window_radius_ms));
        proof {
            assert(0 * sample_rate_ms == 0);
        }
        return samples;
    }
    let mut t: u64 = 0;
    proof {
        assert(0 * sample_rate_ms == 0) by (nonlinear_arith);
    }
    while t <= max_time
        invariant
            s == actions@,
            s.len() > 0,
            max_time == s.last().at,
            sample_rate_ms > 0,
            schedule_fits(max_time, sample_rate_ms, window_radius_ms),
            t == samples.len() * sample_rate_ms,
            samples.len() > 0 ==> (samples.len() - 1) * sample_rate_ms <= max_time,
            forall|k: int|
                0 <= k < samples.len() ==> sample_plan_matches(
                    s,
                    window_radius_ms,
                    k * sample_rate_ms,
                    #[trigger] samples@[k],
                ),
        decreases max_time + sample_rate_ms - t,
    {
        proof {
            lemma_multiple_below(max_time as int, sample_rate_ms as int, samples.len() as int);
        }
        samples.push(plan_sample(actions, t, window_radius_ms));
        t = t + sample_rate_ms;
        proof {
            assert(t == samples.len() * sample_rate_ms) by (nonlinear_arith)
                requires
                    t == (samples.len() - 1) * sample_rate_ms + sample_rate_ms,
            ;
        }
    }
    proof {
        if samples.len() == 0 {
            assert(0 * sample_rate_ms == 0) by (nonlinear_arith);
        }
        lemma_multiple_below(max_time as int, sample_rate_ms as int, samples.len() as int);
        lemma_multiple_below(max_time as int, sample_rate_ms as int, samples.len() - 1);
    }
    samples
}

/// Whether the schedule of samples up to `max_time` stays inside `u64`.
pub fn schedule_fits_exec(max_time: u64, sample_rate_ms: u64, window_radius_ms: u64) -> (fits: bool)
    ensures
        fits == schedule_fits(max_time, sample_rate_ms, window_radius_ms),
{
    if sample_rate_ms == 0 {
        return true;
    }
    let q = max_time / sample_rate_ms;
    proof {
        lemma_multiple_below(max_time as int, sample_rate_ms as int, q as int);
    }
    let last = q * sample_rate_ms;
    last <= u64::MAX - window_radius_ms && last <= u64::MAX - sample_rate_ms
}

/// Why no intensity plan was made.
#[derive(Clone, Copy, Debug, PartialEq, Eq, Structural)]
pub enum PlanError {
    /// Fewer than two actions: there is no motion to measure.
    TooFewActions,
    /// A position other than 0 or 100: the curve is measured on scripts that
    /// only move between the two extremes.
    NonBinaryPosition,
    /// The sample schedule would run past the largest timestamp.
    ScheduleOverflow,
}

/// Every action sits at one of the two extremes, 0 or 100.
pub open spec fn all_binary(s: Seq<Action>) -> bool {
    forall|i: int| 0 <= i < s.len() ==> (#[trigger] s[i]).pos == 0 || s[i].pos == 100
}

/// Whether every action sits at 0 or 100.
pub fn positions_are_binary(actions: &Vec<Action>) -> (binary: bool)
    ensures
        binary == all_binary(actions@),
{
    let mut i: usize = 0;
    while i < actions.len()
        invariant
            i <= actions.len(),
            forall|j: int| 0 <= j < i ==> (#[trigger] actions@[j]).pos == 0 || actions@[j].pos == 100,
        decreases actions.len() - i,
    {
        if actions[i].pos != 0 && actions[i].pos != 100 {
            return false;
        }
        i += 1;
    }
    true
}

/// Law: when no two actions share a timestamp, the plan does not depend on
/// the order in which the actions are given: a rearrangement passes or fails
/// the binary check alike, and comes out ordered and condensed the same, so
/// its sample plans (which `samples_match` fixes from the condensed actions)
/// are the same too; only the reported order differs.
pub proof fn lemma_plan_ignores_input_order(s: Seq<Action>, p: Seq<usize>, o1: Seq<usize>, o2: Seq<usize>)
    requires
        s.len() <= usize::MAX,
        distinct_times(s),
        is_index_permutation(p, s.len()),
        is_stable_time_order(s, o1),
        is_stable_time_order(reorder(s, p), o2),
    ensures
        reorder(s, p).len() == s.len(),
        all_binary(reorder(s, p)) == all_binary(s),
        condensed(reorder(reorder(s, p), o2), CONDENSE_GAP_MS) == condensed(
            reorder(s, o1),
            CONDENSE_GAP_MS,
        ),
{
    lemma_time_order_ignores_input_order(s, p, o1, o2);
    lemma_indices_cover(p, s.len());
    let s2 = reorder(s, p);
    if all_binary(s) {
        assert forall|k: int| 0 <= k < s2.len() implies (#[trigger] s2[k]).pos == 0 || s2[k].pos == 100 by {
            assert(s2[k] == s[p[k] as int]);
        }
    }
    if all_binary(s2) {
        assert forall|i: int| 0 <= i < s.len() implies (#[trigger] s[i]).pos == 0 || s[i].pos == 100 by {
            assert(p.contains(i as usize));
            let k = choose|k: int| 0 <= k < p.len() && p[k] == i as usize;
            assert(p[k] as int == i);
            assert(s2[k] == s[i]);
        }
    }
}

/// Everything the intensity curve is computed from: the stable time order
/// of the input, the ordered and condensed actions, whether the curve opens
/// with a zero point at time 0, and the sample plans.
pub struct IntensityPlan {
    pub order: Vec<usize>,
    pub actions: Vec<Action>,
    pub leading_zero: bool,
    pub samples: Vec<SamplePlan>,
}

/// Checks that the script has at least two actions, all at 0 or 100; then
/// orders the actions by time, condenses identical positions within
/// `CONDENSE_GAP_MS`, and plans every sample of the intensity curve.
pub fn plan_thrust_intensity(actions: &Vec<Action>, sample_rate_ms: u64, window_radius_ms: u64) -> (result: Result<IntensityPlan, PlanError>)
    ensures
        match result {
            Err(PlanError::TooFewActions) => actions.len() < 2,
            Err(PlanError::NonBinaryPosition) => actions.len() >= 2 && !all_binary(actions@),
            Err(PlanError::ScheduleOverflow) => actions.len() >= 2 && all_binary(actions@) && exists|o: Seq<usize>|
                #[trigger] is_stable_time_order(actions@, o) && !schedule_fits(
                    condensed(reorder(actions@, o), CONDENSE_GAP_MS).last().at,
                    sample_rate_ms,
                    window_radius_ms,
                ),
            Ok(plan) => {
                &&& actions.len() >= 2
                &&& all_binary(actions@)
                &&& is_stable_time_order(actions@, plan.order@)
                &&& plan.actions@ == condensed(reorder(actions@, plan.order@), CONDENSE_GAP_MS)
                &&& plan.actions.len() > 0
                &&& is_time_sorted(plan.actions@)
                &&& schedule_fits(plan.actions@.last().at, sample_rate_ms, window_radius_ms)
                &&& plan.leading_zero == (plan.actions@[0].at > 0)
                &&& samples_match(plan.actions@, sample_rate_ms, window_radius_ms, plan.samples@)
            },
        },
{
    if actions.len() < 2 {
        return Err(PlanError::TooFewActions);
    }
    if !positions_are_binary(actions) {
        return Err(PlanError::NonBinaryPosition);
    }
    let order = time_order(actions);
    let mut sorted = reorder_actions(actions, &order);
    let ghost sorted_seq = sorted@;
    proof {
        lemma_stable_order_sorts(actions@, order@);
        lemma_time_sorted_may_condense(sorted_seq);
        lemma_condense_length(sorted_seq, CONDENSE_GAP_MS);
        lemma_condense_keeps_time_order(sorted_seq, CONDENSE_GAP_MS);
    }
    condense_identical_positions(&mut sorted, CONDENSE_GAP_MS);
    let max_time = sorted[sorted.len() - 1].at;
    if !schedule_fits_exec(max_time, sample_rate_ms, window_radius_ms) {
        return Err(PlanError::ScheduleOverflow);
    }
    let leading_zero = sorted[0].at > 0;
    let samples = plan_samples(&sorted, sample_rate_ms, window_radius_ms);
    Ok(IntensityPlan { order, actions: sorted, leading_zero, samples })
}

} // verus!
