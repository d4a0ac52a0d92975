use fluid_2d::controls::{
    apply, handled_by_panel, layout_checked, set_checked, Action, CheckedChange, Effect,
    ObstacleCommand, SpawnLayout,
};

const ACTIONS: [Action; 4] = [
    Action::ResetParticles,
    Action::ResetPillars,
    Action::ClearPillars,
    Action::ResetParams,
];

#[test]
fn every_button_has_its_effect() {
    assert_eq!(apply(Action::ResetParticles), Effect::ResetParticles);
    assert_eq!(
        apply(Action::ResetPillars),
        Effect::Obstacles(ObstacleCommand::ResetPreset)
    );
    assert_eq!(
        apply(Action::ClearPillars),
        Effect::Obstacles(ObstacleCommand::Clear)
    );
    assert_eq!(apply(Action::ResetParams), Effect::ResetParams);
}

#[test]
fn only_the_parameter_reset_stays_in_the_panel() {
    for action in ACTIONS {
        assert_eq!(handled_by_panel(action), apply(action) == Effect::ResetParams);
    }
    assert!(handled_by_panel(Action::ResetParams));
    assert!(!handled_by_panel(Action::ClearPillars));
}

#[test]
fn distinct_buttons_do_distinct_things() {
    for a in ACTIONS {
        for b in ACTIONS {
            assert_eq!(apply(a) == apply(b), a == b);
        }
    }
}

#[test]
fn checkboxes_follow_the_wanted_state() {
    assert_eq!(set_checked(true, false), CheckedChange::Insert);
    assert_eq!(set_checked(false, true), CheckedChange::Remove);
    assert_eq!(set_checked(true, true), CheckedChange::Keep);
    assert_eq!(set_checked(false, false), CheckedChange::Keep);
}

#[test]
fn the_chosen_layout_is_checked() {
    assert!(layout_checked(SpawnLayout::Drop, SpawnLayout::Drop));
    assert!(!layout_checked(SpawnLayout::Drop, SpawnLayout::DamBreak));
    assert_eq!(SpawnLayout::default(), SpawnLayout::DamBreak);
}
