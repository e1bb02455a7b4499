use funscript_control::funscript::Action;
use funscript_control::intensity::{
    plan_samples, plan_thrust_intensity, schedule_fits_exec, PlanError, CONDENSE_GAP_MS,
};
use funscript_control::window::{Interpolation, PositionChange};

fn act(at: u64, pos: u64) -> Action {
    Action { at, pos }
}

#[test]
fn too_few_actions_give_no_plan() {
    assert_eq!(plan_thrust_intensity(&vec![], 100, 100).err(), Some(PlanError::TooFewActions));
    assert_eq!(
        plan_thrust_intensity(&vec![act(0, 0)], 100, 100).err(),
        Some(PlanError::TooFewActions)
    );
}

#[test]
fn overflowing_schedule_gives_no_plan() {
    let actions = vec![act(u64::MAX - 5, 0), act(u64::MAX, 100)];
    assert_eq!(
        plan_thrust_intensity(&actions, 10, 100).err(),
        Some(PlanError::ScheduleOverflow)
    );
}

#[test]
fn schedule_fits_cases() {
    assert!(schedule_fits_exec(1000, 100, 100));
    assert!(schedule_fits_exec(u64::MAX, 0, u64::MAX));
    assert!(!schedule_fits_exec(u64::MAX, 10, 0));
    assert!(schedule_fits_exec(u64::MAX - 20, 10, 10));
    assert!(!schedule_fits_exec(u64::MAX - 20, 10, 30));
}

#[test]
fn plan_orders_condenses_and_schedules() {
    let actions = vec![act(300, 100), act(0, 0), act(200, 0), act(100, 100), act(150, 100)];
    let plan = plan_thrust_intensity(&actions, 100, 100).ok().unwrap();
    assert_eq!(plan.order, vec![1, 3, 4, 2, 0]);
    assert_eq!(plan.actions, vec![act(0, 0), act(125, 100), act(200, 0), act(300, 100)]);
    assert!(!plan.leading_zero);
    let times: Vec<u64> = plan.samples.iter().map(|s| s.time).collect();
    assert_eq!(times, vec![0, 100, 200, 300]);
    let windows: Vec<(u64, u64, u64)> =
        plan.samples.iter().map(|s| (s.window_start, s.window_end, s.window_duration)).collect();
    assert_eq!(windows, vec![(0, 100, 100), (0, 200, 200), (100, 300, 200), (200, 300, 100)]);
    assert_eq!(
        plan.samples[0].changes,
        vec![PositionChange {
            before: Interpolation::At(0),
            after: Interpolation::Between { from: 0, to: 1, elapsed: 100, span: 125 },
        }]
    );
}

#[test]
fn plan_marks_a_leading_zero() {
    let actions = vec![act(1000, 0), act(1500, 100)];
    let plan = plan_thrust_intensity(&actions, 500, 250).ok().unwrap();
    assert!(plan.leading_zero);
    assert_eq!(plan.samples.len(), 4);
}

#[test]
fn zero_sample_rate_gives_a_single_sample() {
    let actions = vec![act(0, 0), act(100, 100)];
    let plan = plan_thrust_intensity(&actions, 0, 50).ok().unwrap();
    assert_eq!(plan.samples.len(), 1);
    assert_eq!(plan.samples[0].time, 0);
    assert_eq!(plan.samples[0].window_start, 0);
    assert_eq!(plan.samples[0].window_end, 50);
}

#[test]
fn zero_length_window_measures_nothing() {
    let actions = vec![act(0, 0), act(100, 100)];
    let samples = plan_samples(&actions, 100, 0);
    assert_eq!(samples.len(), 2);
    assert_eq!(samples[0].window_duration, 0);
    assert!(samples[0].changes.is_empty());
}

#[test]
fn condense_gap_is_two_hundred_ms() {
    assert_eq!(CONDENSE_GAP_MS, 200);
}

#[test]
fn non_binary_positions_give_no_plan() {
    let actions = vec![act(0, 0), act(100, 50)];
    assert_eq!(
        plan_thrust_intensity(&actions, 100, 100).err(),
        Some(PlanError::NonBinaryPosition)
    );
    let single = vec![act(0, 50)];
    assert_eq!(plan_thrust_intensity(&single, 100, 100).err(), Some(PlanError::TooFewActions));
}

#[test]
fn plan_ignores_the_order_of_distinct_times() {
    let a = vec![act(0, 0), act(100, 100), act(250, 0), act(400, 100)];
    let b = vec![act(400, 100), act(0, 0), act(250, 0), act(100, 100)];
    let pa = plan_thrust_intensity(&a, 50, 120).ok().unwrap();
    let pb = plan_thrust_intensity(&b, 50, 120).ok().unwrap();
    assert_eq!(pa.actions, pb.actions);
    assert_eq!(pa.leading_zero, pb.leading_zero);
    assert_eq!(pa.samples.len(), pb.samples.len());
    for (x, y) in pa.samples.iter().zip(pb.samples.iter()) {
        assert_eq!(x.time, y.time);
        assert_eq!(x.window_start, y.window_start);
        assert_eq!(x.window_end, y.window_end);
        assert_eq!(x.changes, y.changes);
    }
}
