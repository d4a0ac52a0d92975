//! What the panel's buttons and toggles mean, shared by every panel so a
//! button means the same thing whichever panel it sits on.
use vstd::prelude::*;

verus! {

/// Buttons. The first three turn into messages, the last one edits the
/// parameters.
#[derive(Clone, Copy, PartialEq, Eq, Debug, Structural)]
pub enum Action {
    ResetParticles,
    ResetPillars,
    ClearPillars,
    ResetParams,
}

/// What to do with the pillars.
#[derive(Clone, Copy, PartialEq, Eq, Debug, Structural)]
pub enum ObstacleCommand {
    ResetPreset,
    Clear,
}

/// How the particles are laid out when they are (re)spawned.
#[derive(Clone, Copy, PartialEq, Eq, Debug, Default, Structural)]
pub enum SpawnLayout {
    #[default]
    DamBreak,
    Drop,
}

/// What pressing a button does to the simulation.
#[derive(Clone, Copy, PartialEq, Eq, Debug, Structural)]
pub enum Effect {
    /// Send the message that respawns the particles.
    ResetParticles,
    /// Send this command to the pillars.
    Obstacles(ObstacleCommand),
    /// Put the parameters back to their defaults, keeping the layout.
    ResetParams,
}

/// The meaning of every button.
pub open spec fn effect_of(action: Action) -> Effect {
    match action {
        Action::ResetParticles => Effect::ResetParticles,
        Action::ResetPillars => Effect::Obstacles(ObstacleCommand::ResetPreset),
        Action::ClearPillars => Effect::Obstacles(ObstacleCommand::Clear),
        Action::ResetParams => Effect::ResetParams,
    }
}

/// What a button does, for both panels.
pub fn apply(action: Action) -> (effect: Effect)
    ensures
        effect == effect_of(action),
{
    match action {
        Action::ResetParticles => Effect::ResetParticles,
        Action::ResetPillars => Effect::Obstacles(ObstacleCommand::ResetPreset),
        Action::ClearPillars => Effect::Obstacles(ObstacleCommand::Clear),
        Action::ResetParams => Effect::ResetParams,
    }
}

/// Whether a panel outside the app handles `action` itself, on its own copy
/// of the parameters, rather than forwarding it to the simulation.
pub fn handled_by_panel(action: Action) -> (local: bool)
    ensures
        local <==> action == Action::ResetParams,
{
    match action {
        Action::ResetParams => true,
        _ => false,
    }
}

/// Law: a panel outside the app handles a button itself exactly when the
/// button edits the parameters; every button that turns into a message is
/// forwarded to the simulation, which applies it as the native panel does.
pub proof fn lemma_panels_agree(action: Action)
    ensures
        (action == Action::ResetParams) <==> effect_of(action) == Effect::ResetParams,
        (action != Action::ResetParams) ==> effect_of(action) != Effect::ResetParams,
{
}

/// Law: distinct buttons have distinct effects.
pub proof fn lemma_effects_distinct(a: Action, b: Action)
    ensures
        effect_of(a) == effect_of(b) ==> a == b,
{
}

/// How a checkbox or radio button must change to show a wanted state.
#[derive(Clone, Copy, PartialEq, Eq, Debug, Structural)]
pub enum CheckedChange {
    Insert,
    Remove,
    Keep,
}

/// Whether a widget is checked after `change`.
pub open spec fn checked_after(change: CheckedChange, checked: bool) -> bool {
    match change {
        CheckedChange::Insert => true,
        CheckedChange::Remove => false,
        CheckedChange::Keep => checked,
    }
}

/// The change that makes a widget that is `checked` show `wanted`; nothing
/// is touched when it already does, so change detection stays quiet.
pub fn set_checked(wanted: bool, checked: bool) -> (change: CheckedChange)
    ensures
        checked_after(change, checked) == wanted,
        change == CheckedChange::Keep <==> wanted == checked,
{
    match (wanted, checked) {
        (true, false) => CheckedChange::Insert,
        (false, true) => CheckedChange::Remove,
        _ => CheckedChange::Keep,
    }
}

/// Whether the radio button for `choice` is the checked one.
pub fn layout_checked(choice: SpawnLayout, current: SpawnLayout) -> (wanted: bool)
    ensures
        wanted <==> choice == current,
{
    choice == current
}

} // verus!
