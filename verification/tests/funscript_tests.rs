use funscript_control::funscript::{
    condense_identical_positions, default_range, default_version, reorder_actions, time_order,
    Action,
};

fn act(at: u64, pos: u64) -> Action {
    Action { at, pos }
}

#[test]
fn default_version_is_one_point_zero() {
    assert_eq!(default_version(), "1.0");
}

#[test]
fn default_range_is_one_hundred() {
    assert_eq!(default_range(), 100);
}

#[test]
fn time_order_is_stable() {
    let actions = vec![act(300, 0), act(100, 100), act(100, 0), act(200, 100)];
    let order = time_order(&actions);
    assert_eq!(order, vec![1, 2, 3, 0]);
    let sorted = reorder_actions(&actions, &order);
    assert_eq!(sorted, vec![act(100, 100), act(100, 0), act(200, 100), act(300, 0)]);
}

#[test]
fn time_order_of_empty_and_sorted_input() {
    assert_eq!(time_order(&Vec::new()), Vec::<usize>::new());
    let actions = vec![act(1, 0), act(2, 0), act(3, 0)];
    assert_eq!(time_order(&actions), vec![0, 1, 2]);
}

#[test]
fn condense_averages_a_run_of_identical_positions() {
    let mut actions = vec![act(0, 0), act(100, 0), act(150, 0), act(500, 100), act(600, 0)];
    condense_identical_positions(&mut actions, 200);
    assert_eq!(actions, vec![act(83, 0), act(500, 100), act(600, 0)]);
}

#[test]
fn condense_keeps_identical_positions_beyond_the_gap() {
    let mut actions = vec![act(0, 0), act(300, 0)];
    condense_identical_positions(&mut actions, 200);
    assert_eq!(actions, vec![act(0, 0), act(300, 0)]);
}

#[test]
fn condense_gap_is_inclusive() {
    let mut actions = vec![act(0, 100), act(200, 100), act(400, 100)];
    condense_identical_positions(&mut actions, 200);
    assert_eq!(actions, vec![act(200, 100)]);
}

#[test]
fn condense_of_empty_is_empty() {
    let mut actions: Vec<Action> = Vec::new();
    condense_identical_positions(&mut actions, 200);
    assert!(actions.is_empty());
}

#[test]
fn condense_without_joins_changes_nothing() {
    let original = vec![act(0, 0), act(100, 100), act(150, 0), act(300, 100)];
    let mut actions = original.clone();
    condense_identical_positions(&mut actions, 200);
    assert_eq!(actions, original);
}

#[test]
fn condense_keeps_time_order() {
    let mut actions = vec![
        act(0, 0),
        act(10, 0),
        act(20, 100),
        act(400, 100),
        act(410, 100),
        act(900, 0),
    ];
    condense_identical_positions(&mut actions, 200);
    assert_eq!(actions, vec![act(5, 0), act(20, 100), act(405, 100), act(900, 0)]);
    assert!(actions.windows(2).all(|w| w[0].at <= w[1].at));
}

#[test]
fn condense_mean_of_large_timestamps_does_not_overflow() {
    let big = u64::MAX - 1;
    let mut actions = vec![act(big, 0), act(big, 0), act(u64::MAX, 0)];
    condense_identical_positions(&mut actions, 200);
    assert_eq!(actions, vec![act(u64::MAX - 1, 0)]);
}

#[test]
fn condensing_twice_equals_condensing_once() {
    let mut once = vec![
        act(0, 0),
        act(150, 0),
        act(300, 0),
        act(420, 0),
        act(700, 100),
        act(760, 100),
        act(1000, 100),
    ];
    condense_identical_positions(&mut once, 200);
    assert_eq!(once, vec![act(217, 0), act(730, 100), act(1000, 100)]);
    let mut twice = once.clone();
    condense_identical_positions(&mut twice, 200);
    assert_eq!(twice, once);
}
