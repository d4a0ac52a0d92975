use fluid_2d::pointer::{
    cursor_interaction, drag_obstacle, edit_obstacles, hold_anchor, hold_candidate, hold_edit,
    hold_step, mouse_press, obstacle_under, read_press, spawn_pillar, Button, HoldStep,
    ObstacleEdit, PressKind, Pull, MAX_OBSTACLES,
};

fn press(button: Button, started: bool, touch: bool) -> Option<PressKind> {
    Some(PressKind {
        button,
        started,
        touch,
    })
}

#[test]
fn left_wins_over_right() {
    assert_eq!(mouse_press(true, true), Some(Button::Left));
    assert_eq!(mouse_press(false, true), Some(Button::Right));
    assert_eq!(mouse_press(false, false), None);
}

#[test]
fn fingers_decide_the_button() {
    assert_eq!(read_press(0, None, true, true), None);
    assert_eq!(
        read_press(0, Some(Button::Right), true, false),
        press(Button::Right, false, false)
    );
    assert_eq!(read_press(1, None, true, false), press(Button::Left, true, true));
    assert_eq!(
        read_press(3, Some(Button::Left), false, true),
        press(Button::Right, false, true)
    );
}

#[test]
fn the_first_pillar_under_the_pointer_counts() {
    assert_eq!(obstacle_under(&[false, true, true]), Some(1));
    assert_eq!(obstacle_under(&[false, false]), None);
    assert_eq!(obstacle_under(&[]), None);
}

#[test]
fn clicks_edit_pillars() {
    let left = press(Button::Left, true, false);
    let right = press(Button::Right, true, false);
    assert_eq!(edit_obstacles(left, false, false, Some(2)), ObstacleEdit::Drag(2));
    assert_eq!(edit_obstacles(left, false, true, Some(2)), ObstacleEdit::Nothing);
    assert_eq!(edit_obstacles(left, false, true, None), ObstacleEdit::Spawn);
    assert_eq!(edit_obstacles(left, false, false, None), ObstacleEdit::Nothing);
    assert_eq!(edit_obstacles(right, false, false, Some(0)), ObstacleEdit::Remove(0));
    assert_eq!(edit_obstacles(right, false, false, None), ObstacleEdit::Nothing);
    // Touch never removes by tapping, the panel swallows clicks, and only a
    // fresh press counts.
    assert_eq!(
        edit_obstacles(press(Button::Right, true, true), false, false, Some(0)),
        ObstacleEdit::Nothing
    );
    assert_eq!(edit_obstacles(left, true, false, Some(2)), ObstacleEdit::Nothing);
    assert_eq!(
        edit_obstacles(press(Button::Left, false, false), false, false, Some(2)),
        ObstacleEdit::Nothing
    );
    assert_eq!(edit_obstacles(None, false, true, None), ObstacleEdit::Nothing);
}

#[test]
fn pillars_are_capped() {
    assert!(spawn_pillar(true, MAX_OBSTACLES - 1));
    assert!(!spawn_pillar(true, MAX_OBSTACLES));
    assert!(!spawn_pillar(false, 0));
    assert_eq!(MAX_OBSTACLES, 16);
}

#[test]
fn a_still_finger_fires_a_hold() {
    let finger = press(Button::Left, true, true);
    assert!(hold_candidate(finger, false));
    assert!(!hold_candidate(finger, true));
    assert!(!hold_candidate(press(Button::Left, true, false), false));
    assert!(!hold_candidate(press(Button::Right, true, true), false));

    let anchor = hold_anchor(None, true, true, 7u8);
    assert_eq!(anchor, Some(7));
    assert_eq!(hold_anchor(Some(7u8), true, false, 9), Some(7));
    assert_eq!(hold_anchor(Some(7u8), false, true, 9), None);

    assert_eq!(hold_step(anchor, false, false), HoldStep::Wait(7));
    assert_eq!(hold_step(anchor, true, true), HoldStep::Cancel);
    assert_eq!(hold_step(anchor, false, true), HoldStep::Fire(7));
    assert_eq!(hold_step(None::<u8>, false, true), HoldStep::Cancel);

    assert_eq!(hold_edit(Some(3)), ObstacleEdit::Remove(3));
    assert_eq!(hold_edit(None), ObstacleEdit::Spawn);
}

#[test]
fn releasing_ends_the_drag() {
    let left = press(Button::Left, false, false);
    assert_eq!(drag_obstacle(Some(4u8), left), Some(4));
    assert_eq!(drag_obstacle(Some(4u8), press(Button::Right, false, false)), None);
    assert_eq!(drag_obstacle(Some(4u8), None), None);
}

#[test]
fn left_pulls_and_right_pushes() {
    let left = press(Button::Left, false, false);
    let right = press(Button::Right, false, false);
    assert_eq!(cursor_interaction(left, false, false, false, false), Some(Pull::Pull));
    assert_eq!(cursor_interaction(right, false, false, false, false), Some(Pull::Push));
    assert_eq!(cursor_interaction(left, true, false, false, false), None);
    assert_eq!(cursor_interaction(left, false, true, false, false), None);
    assert_eq!(cursor_interaction(left, false, false, true, false), None);
    assert_eq!(cursor_interaction(left, false, false, false, true), None);
    assert_eq!(cursor_interaction(None, false, false, false, false), None);
}
