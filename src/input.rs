//! Per-frame input state: which actions are held, and which were pressed or
//! released since the last reset.

use vstd::prelude::*;

verus! {

#[verifier::external_type_specification]
#[verifier::external_body]
pub struct ExVec2(glam::Vec2);

/// Relies on glam's `Vec2::ZERO`, the origin; nothing is claimed of its value.
#[verifier::external_body]
fn origin() -> glam::Vec2 {
    glam::Vec2::ZERO
}

/// A game action bound to some key or button.
#[derive(Copy, Clone, Debug, PartialEq, Eq, Structural)]
pub enum InputAction {
    LeftClick,
    RightClick,
    Q,
    W,
    E,
    R,
    SwitchCameraMode,
    CameraFollow,
}

/// Position of an action in declaration order.
pub open spec fn action_index(a: InputAction) -> u32 {
    match a {
        InputAction::LeftClick => 0,
        InputAction::RightClick => 1,
        InputAction::Q => 2,
        InputAction::W => 3,
        InputAction::E => 4,
        InputAction::R => 5,
        InputAction::SwitchCameraMode => 6,
        InputAction::CameraFollow => 7,
    }
}

/// The flag bit of an action.
pub open spec fn action_bit(a: InputAction) -> u32 {
    1u32 << action_index(a)
}

/// Whether flag word `w` has the bit of `a` set.
pub open spec fn has_action(w: u32, a: InputAction) -> bool {
    w & action_bit(a) != 0
}

proof fn lemma_bit_set(w: u32, i: u32, j: u32)
    requires
        i < 32,
        j < 32,
    ensures
        ((w | (1u32 << i)) & (1u32 << j) != 0) == (i == j || w & (1u32 << j) != 0),
{
    assert(((w | (1u32 << i)) & (1u32 << j) != 0) == (i == j || w & (1u32 << j) != 0))
        by (bit_vector)
        requires
            i < 32,
            j < 32,
    ;
}

proof fn lemma_bit_cleared(w: u32, i: u32, j: u32)
    requires
        i < 32,
        j < 32,
    ensures
        ((w & !(1u32 << i)) & (1u32 << j) != 0) == (i != j && w & (1u32 << j) != 0),
{
    assert(((w & !(1u32 << i)) & (1u32 << j) != 0) == (i != j && w & (1u32 << j) != 0))
        by (bit_vector)
        requires
            i < 32,
            j < 32,
    ;
}

proof fn lemma_no_bits(j: u32)
    requires
        j < 32,
    ensures
        (0u32 & (1u32 << j)) == 0,
{
    assert((0u32 & (1u32 << j)) == 0) by (bit_vector);
}

impl InputAction {
    /// The flag bit of this action.
    pub fn get_value(self) -> (r: u32)
        ensures
            r == action_bit(self),
    {
        let index: u32 = match self {
            InputAction::LeftClick => 0,
            InputAction::RightClick => 1,
            InputAction::Q => 2,
            InputAction::W => 3,
            InputAction::E => 4,
            InputAction::R => 5,
            InputAction::SwitchCameraMode => 6,
            InputAction::CameraFollow => 7,
        };
        1u32 << index
    }
}

/// Held actions, edge events since the last reset, and the cursor position.
pub struct InputState {
    state: u32,
    pressed_events: u32,
    released_events: u32,
    mouse_position: glam::Vec2,
}

impl InputState {
    /// Whether `a` is currently held.
    pub closed spec fn down(&self, a: InputAction) -> bool {
        has_action(self.state, a)
    }

    /// Whether `a` went down since the last reset.
    pub closed spec fn pressed(&self, a: InputAction) -> bool {
        has_action(self.pressed_events, a)
    }

    /// Whether `a` went up since the last reset.
    pub closed spec fn released(&self, a: InputAction) -> bool {
        has_action(self.released_events, a)
    }

    pub closed spec fn mouse(&self) -> glam::Vec2 {
        self.mouse_position
    }

    /// Nothing held, no events, cursor at the origin.
    pub fn new() -> (s: Self)
        ensures
            forall|a: InputAction|
                !#[trigger] s.down(a) && !s.pressed(a) && !s.released(a),
    {
        proof {
            assert forall|a: InputAction| (0u32 & #[trigger] action_bit(a)) == 0 by {
                lemma_no_bits(action_index(a));
            }
        }
        InputState { state: 0, pressed_events: 0, released_events: 0, mouse_position: origin() }
    }

    /// Records that `action` is now held (`value`) or not. A change from up to
    /// down is a press event, from down to up a release event.
    pub fn set_action(&mut self, action: InputAction, value: bool)
        ensures
            final(self).mouse() == old(self).mouse(),
            forall|a: InputAction| #[trigger]
                final(self).down(a) == if a == action {
                    value
                } else {
                    old(self).down(a)
                },
            forall|a: InputAction| #[trigger]
                final(self).pressed(a) == (old(self).pressed(a) || (a == action && value
                    && !old(self).down(a))),
            forall|a: InputAction| #[trigger]
                final(self).released(a) == (old(self).released(a) || (a == action && !value
                    && old(self).down(a))),
    {
        let bit = action.get_value();
        let was_down = (self.state & bit) != 0;
        let ghost i = action_index(action);
        if value {
            let ghost held_before = self.state;
            let ghost pressed_before = self.pressed_events;
            self.state = self.state | bit;
            if !was_down {
                self.pressed_events = self.pressed_events | bit;
            }
            proof {
                assert forall|a: InputAction| #[trigger]
                    has_action(self.state, a) == (a == action || has_action(held_before, a)) by {
                    lemma_bit_set(held_before, i, action_index(a));
                }
                assert forall|a: InputAction| #[trigger]
                    has_action(self.pressed_events, a) == (has_action(pressed_before, a) || (a == action
                        && !was_down)) by {
                    lemma_bit_set(pressed_before, i, action_index(a));
                }
            }
        } else {
            let ghost held_before = self.state;
            let ghost released_before = self.released_events;
            self.state = self.state & !bit;
            if was_down {
                self.released_events = self.released_events | bit;
            }
            proof {
                assert forall|a: InputAction| #[trigger]
                    has_action(self.state, a) == (a != action && has_action(held_before, a)) by {
                    lemma_bit_cleared(held_before, i, action_index(a));
                }
                assert forall|a: InputAction| #[trigger]
                    has_action(self.released_events, a) == (has_action(released_before, a) || (a == action
                        && was_down)) by {
                    lemma_bit_set(released_before, i, action_index(a));
                }
            }
        }
    }

    /// Forgets the press and release events; held actions stay held.
    pub fn reset(&mut self)
        ensures
            final(self).mouse() == old(self).mouse(),
            forall|a: InputAction|
                #[trigger] final(self).down(a) == old(self).down(a) && !final(self).pressed(a)
                    && !final(self).released(a),
    {
        self.pressed_events = 0;
        self.released_events = 0;
        proof {
            assert forall|a: InputAction| (0u32 & #[trigger] action_bit(a)) == 0 by {
                lemma_no_bits(action_index(a));
            }
        }
    }

    pub fn is_pressed(&self, action: InputAction) -> (r: bool)
        ensures
            r == self.pressed(action),
    {
        (self.pressed_events & action.get_value()) != 0
    }

    pub fn is_released(&self, action: InputAction) -> (r: bool)
        ensures
            r == self.released(action),
    {
        (self.released_events & action.get_value()) != 0
    }

    pub fn is_down(&self, action: InputAction) -> (r: bool)
        ensures
            r == self.down(action),
    {
        (self.state & action.get_value()) != 0
    }

    pub fn set_mouse_position(&mut self, position: glam::Vec2)
        ensures
            final(self).mouse() == position,
            forall|a: InputAction|
                #[trigger] final(self).down(a) == old(self).down(a) && final(self).pressed(a)
                    == old(self).pressed(a) && final(self).released(a) == old(self).released(a),
    {
        self.mouse_position = position;
    }

    pub fn get_mouse_position(&self) -> (r: glam::Vec2)
        ensures
            r == self.mouse(),
    {
        self.mouse_position
    }
}

} // verus!
