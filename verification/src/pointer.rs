//! Mouse and touch decisions: which button a press counts as, what it does to
//! the pillars, and whether it pulls or pushes the fluid.
//!
//! Positions and times are floating point and stay with the caller, which
//! hands in the comparisons it made (is the pointer over a pillar, did the
//! finger wander, has it been held long enough).
use vstd::prelude::*;

verus! {

/// At most this many pillars exist at once.
pub const MAX_OBSTACLES: usize = 16;

#[derive(Clone, Copy, PartialEq, Eq, Debug, Structural)]
pub enum Button {
    Left,
    Right,
}

/// This frame's press, mouse or touch alike, less its position.
#[derive(Clone, Copy, PartialEq, Eq, Debug, Structural)]
pub struct PressKind {
    pub button: Button,
    /// The press began this frame.
    pub started: bool,
    pub touch: bool,
}

/// Which mouse button a press counts as; left wins over right.
pub fn mouse_press(left: bool, right: bool) -> (button: Option<Button>)
    ensures
        button == if left {
            Some(Button::Left)
        } else if right {
            Some(Button::Right)
        } else {
            None::<Button>
        },
{
    if left {
        Some(Button::Left)
    } else if right {
        Some(Button::Right)
    } else {
        None
    }
}

/// The press this frame, given how many fingers are down and what the mouse
/// does. One finger drags like the left button; several work from their
/// midpoint and push like the right one; with no finger down the mouse counts.
pub fn read_press(
    fingers: usize,
    mouse: Option<Button>,
    touch_started: bool,
    mouse_started: bool,
) -> (press: Option<PressKind>)
    ensures
        fingers == 0 ==> press == match mouse {
            Some(b) => Some(PressKind { button: b, started: mouse_started, touch: false }),
            None => None::<PressKind>,
        },
        fingers == 1 ==> press == Some(PressKind { button: Button::Left, started: touch_started, touch: true }),
        fingers > 1 ==> press == Some(PressKind { button: Button::Right, started: touch_started, touch: true }),
{
    if fingers == 0 {
        match mouse {
            Some(b) => Some(PressKind { button: b, started: mouse_started, touch: false }),
            None => None,
        }
    } else if fingers == 1 {
        Some(PressKind { button: Button::Left, started: touch_started, touch: true })
    } else {
        Some(PressKind { button: Button::Right, started: touch_started, touch: true })
    }
}

/// The first of the pillars that the pointer is over, by index.
pub fn obstacle_under(hits: &[bool]) -> (first: Option<usize>)
    ensures
        match first {
            Some(i) => i < hits@.len() && hits@[i as int] && forall|j: int| 0 <= j < i ==> !hits@[j],
            None => forall|j: int| 0 <= j < hits@.len() ==> !hits@[j],
        },
{
    let mut i: usize = 0;
    while i < hits.len()
        invariant
            i <= hits@.len(),
            forall|j: int| 0 <= j < i ==> !hits@[j],
        decreases hits@.len() - i,
    {
        if hits[i] {
            return Some(i);
        }
        i = i + 1;
    }
    None
}

/// What a click or tap does to the pillars.
#[derive(Clone, Copy, PartialEq, Eq, Debug, Structural)]
pub enum ObstacleEdit {
    /// Start dragging the pillar with this index.
    Drag(usize),
    /// Place a new pillar under the pointer.
    Spawn,
    /// Remove the pillar with this index.
    Remove(usize),
    Nothing,
}

/// Drag with the left button, add with shift and the left button, remove
/// with the right button. Only a press that begins this frame off the panel
/// counts, and touch never removes this way (it holds still instead).
/// `under` is the pillar under the press, if any.
pub fn edit_obstacles(
    press: Option<PressKind>,
    over_ui: bool,
    shift: bool,
    under: Option<usize>,
) -> (edit: ObstacleEdit)
    ensures
        edit == match press {
            Some(p) if p.started && !over_ui => match (p.button, under) {
                (Button::Left, Some(i)) if !shift => ObstacleEdit::Drag(i),
                (Button::Left, None) if shift => ObstacleEdit::Spawn,
                (Button::Right, Some(i)) if !p.touch => ObstacleEdit::Remove(i),
                _ => ObstacleEdit::Nothing,
            },
            _ => ObstacleEdit::Nothing,
        },
{
    match press {
        Some(p) => {
            if !p.started || over_ui {
                return ObstacleEdit::Nothing;
            }
            match (p.button, under) {
                (Button::Left, Some(i)) => {
                    if !shift {
                        ObstacleEdit::Drag(i)
                    } else {
                        ObstacleEdit::Nothing
                    }
                },
                (Button::Left, None) => {
                    if shift {
                        ObstacleEdit::Spawn
                    } else {
                        ObstacleEdit::Nothing
                    }
                },
                (Button::Right, Some(i)) => {
                    if !p.touch {
                        ObstacleEdit::Remove(i)
                    } else {
                        ObstacleEdit::Nothing
                    }
                },
                (Button::Right, None) => ObstacleEdit::Nothing,
            }
        },
        None => ObstacleEdit::Nothing,
    }
}

/// A pillar is only placed well inside the tank, and only while there are
/// fewer than `MAX_OBSTACLES`.
pub fn spawn_pillar(inside_tank: bool, obstacles: usize) -> (spawn: bool)
    ensures
        spawn <==> inside_tank && obstacles < MAX_OBSTACLES,
{
    inside_tank && obstacles < MAX_OBSTACLES
}

/// Law: placing pillars one at a time as `spawn_pillar` allows never takes
/// their number past `MAX_OBSTACLES`.
pub proof fn lemma_pillars_capped(obstacles: nat, inside_tank: bool)
    requires
        obstacles <= MAX_OBSTACLES,
    ensures
        (if inside_tank && obstacles < MAX_OBSTACLES { obstacles + 1 } else { obstacles }) <= MAX_OBSTACLES,
{
}

/// Whether this press may turn into a hold: one finger, off the panel.
pub fn hold_candidate(press: Option<PressKind>, over_ui: bool) -> (candidate: bool)
    ensures
        candidate <==> match press {
            Some(p) => p.touch && p.button == Button::Left && !over_ui,
            None => false,
        },
{
    match press {
        Some(p) => p.touch && matches!(p.button, Button::Left) && !over_ui,
        None => false,
    }
}

/// Where a hold started, after this frame's press: dropped without a
/// candidate, restarted `here` when the finger just went down.
pub fn hold_anchor<A: Copy>(hold: Option<A>, candidate: bool, started: bool, here: A) -> (anchor: Option<A>)
    ensures
        anchor == if !candidate {
            None::<A>
        } else if started {
            Some(here)
        } else {
            hold
        },
{
    if !candidate {
        None
    } else if started {
        Some(here)
    } else {
        hold
    }
}

/// What becomes of a hold this frame.
#[derive(Clone, Copy, PartialEq, Eq, Debug, Structural)]
pub enum HoldStep<A> {
    /// Still waiting, from this anchor.
    Wait(A),
    /// No hold any more.
    Cancel,
    /// Held long enough at this anchor: act there, and forget the hold.
    Fire(A),
}

/// A finger that wanders more than the slop cancels the hold; one that stays
/// put long enough fires it.
pub fn hold_step<A: Copy>(anchor: Option<A>, wandered: bool, long_enough: bool) -> (step: HoldStep<A>)
    ensures
        step == match anchor {
            None => HoldStep::Cancel,
            Some(a) => if wandered {
                HoldStep::Cancel
            } else if long_enough {
                HoldStep::Fire(a)
            } else {
                HoldStep::Wait(a)
            },
        },
{
    match anchor {
        None => HoldStep::Cancel,
        Some(a) => {
            if wandered {
                HoldStep::Cancel
            } else if long_enough {
                HoldStep::Fire(a)
            } else {
                HoldStep::Wait(a)
            }
        },
    }
}

/// A fired hold removes the pillar under the finger (and ends any drag of
/// it), or places one where there is none.
pub fn hold_edit(under: Option<usize>) -> (edit: ObstacleEdit)
    ensures
        edit == match under {
            Some(i) => ObstacleEdit::Remove(i),
            None => ObstacleEdit::Spawn,
        },
{
    match under {
        Some(i) => ObstacleEdit::Remove(i),
        None => ObstacleEdit::Spawn,
    }
}

/// The drag survives the frame only while the left button (or one finger)
/// is down.
pub fn drag_obstacle<T: Copy>(drag: Option<T>, press: Option<PressKind>) -> (next: Option<T>)
    ensures
        next == match press {
            Some(p) if p.button == Button::Left => drag,
            _ => None::<T>,
        },
{
    match press {
        Some(p) => match p.button {
            Button::Left => drag,
            Button::Right => None,
        },
        None => None,
    }
}

/// Which way the cursor moves the fluid: towards it, or away.
#[derive(Clone, Copy, PartialEq, Eq, Debug, Structural)]
pub enum Pull {
    Pull,
    Push,
}

/// Left pulls, right pushes; nothing while shift is held, a pillar is being
/// dragged, the pointer is over the panel, or it is over a pillar.
pub fn cursor_interaction(
    press: Option<PressKind>,
    shift: bool,
    dragging: bool,
    over_ui: bool,
    on_obstacle: bool,
) -> (pull: Option<Pull>)
    ensures
        pull == match press {
            Some(p) if !(shift || dragging || over_ui) && !on_obstacle => match p.button {
                Button::Left => Some(Pull::Pull),
                Button::Right => Some(Pull::Push),
            },
            _ => None::<Pull>,
        },
{
    let blocked = shift || dragging || over_ui;
    match press {
        Some(p) => {
            if blocked || on_obstacle {
                None
            } else {
                match p.button {
                    Button::Left => Some(Pull::Pull),
                    Button::Right => Some(Pull::Push),
                }
            }
        },
        None => None,
    }
}

} // verus!
