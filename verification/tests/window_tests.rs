use funscript_control::funscript::Action;
use funscript_control::window::{
    interpolate_position, window_changes_exec, Interpolation, PositionChange,
};

fn act(at: u64, pos: u64) -> Action {
    Action { at, pos }
}

#[test]
fn interpolation_cases() {
    let actions = vec![act(0, 0), act(100, 100), act(100, 0)];
    assert_eq!(interpolate_position(&actions, None, None, 5), Interpolation::Zero);
    assert_eq!(interpolate_position(&actions, None, Some(1), 5), Interpolation::At(1));
    assert_eq!(interpolate_position(&actions, Some(0), None, 5), Interpolation::At(0));
    assert_eq!(interpolate_position(&actions, Some(0), Some(1), 0), Interpolation::At(0));
    assert_eq!(interpolate_position(&actions, Some(0), Some(1), 100), Interpolation::At(1));
    assert_eq!(interpolate_position(&actions, Some(0), Some(1), 150), Interpolation::At(1));
    assert_eq!(
        interpolate_position(&actions, Some(0), Some(1), 30),
        Interpolation::Between { from: 0, to: 1, elapsed: 30, span: 100 }
    );
    assert_eq!(interpolate_position(&actions, Some(1), Some(2), 100), Interpolation::At(1));
}

#[test]
fn window_changes_between_interpolated_ends() {
    let actions = vec![act(0, 0), act(100, 100), act(200, 0)];
    let changes = window_changes_exec(&actions, 50, 150);
    assert_eq!(
        changes,
        vec![
            PositionChange {
                before: Interpolation::Between { from: 0, to: 1, elapsed: 50, span: 100 },
                after: Interpolation::At(1),
            },
            PositionChange {
                before: Interpolation::At(1),
                after: Interpolation::Between { from: 1, to: 2, elapsed: 50, span: 100 },
            },
        ]
    );
}

#[test]
fn window_before_all_actions_uses_the_first() {
    let actions = vec![act(500, 100), act(600, 0)];
    let changes = window_changes_exec(&actions, 0, 100);
    assert_eq!(
        changes,
        vec![PositionChange { before: Interpolation::At(0), after: Interpolation::At(0) }]
    );
}

#[test]
fn window_skips_samples_at_the_same_time() {
    let actions = vec![act(0, 0), act(50, 100), act(50, 0), act(100, 100)];
    let changes = window_changes_exec(&actions, 0, 100);
    assert_eq!(
        changes,
        vec![
            PositionChange { before: Interpolation::At(0), after: Interpolation::At(1) },
            PositionChange { before: Interpolation::At(2), after: Interpolation::At(3) },
        ]
    );
}

#[test]
fn window_after_all_actions_uses_the_last() {
    let actions = vec![act(0, 0), act(100, 100)];
    let changes = window_changes_exec(&actions, 200, 300);
    assert_eq!(
        changes,
        vec![PositionChange { before: Interpolation::At(1), after: Interpolation::At(1) }]
    );
}

#[test]
fn shifting_actions_and_window_keeps_the_changes() {
    let actions = vec![act(0, 0), act(100, 100), act(200, 0), act(260, 100)];
    let shifted: Vec<Action> = actions.iter().map(|a| act(a.at + 5000, a.pos)).collect();
    assert_eq!(
        window_changes_exec(&shifted, 5050, 5230),
        window_changes_exec(&actions, 50, 230)
    );
}

#[test]
fn window_samples_are_faithful_to_the_actions() {
    let actions = vec![act(100, 0), act(200, 100), act(300, 0)];
    // start before all actions: the first action; end after all: the last
    assert_eq!(
        window_changes_exec(&actions, 0, 400),
        vec![
            PositionChange { before: Interpolation::At(0), after: Interpolation::At(0) },
            PositionChange { before: Interpolation::At(0), after: Interpolation::At(1) },
            PositionChange { before: Interpolation::At(1), after: Interpolation::At(2) },
            PositionChange { before: Interpolation::At(2), after: Interpolation::At(2) },
        ]
    );
    // ends at exact action times
    assert_eq!(
        window_changes_exec(&actions, 100, 300),
        vec![
            PositionChange { before: Interpolation::At(0), after: Interpolation::At(1) },
            PositionChange { before: Interpolation::At(1), after: Interpolation::At(2) },
        ]
    );
}
