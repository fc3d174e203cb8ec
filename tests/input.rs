use game_core::input::{InputAction, InputState};

#[test]
fn action_bits_follow_declaration_order() {
    assert_eq!(InputAction::LeftClick.get_value(), 1);
    assert_eq!(InputAction::RightClick.get_value(), 2);
    assert_eq!(InputAction::Q.get_value(), 4);
    assert_eq!(InputAction::R.get_value(), 32);
    assert_eq!(InputAction::CameraFollow.get_value(), 128);
}

#[test]
fn press_hold_and_release_events() {
    let mut input = InputState::new();
    assert!(!input.is_down(InputAction::W));

    input.set_action(InputAction::W, true);
    assert!(input.is_down(InputAction::W));
    assert!(input.is_pressed(InputAction::W));
    assert!(!input.is_released(InputAction::W));
    assert!(!input.is_down(InputAction::Q));

    input.reset();
    assert!(input.is_down(InputAction::W));
    assert!(!input.is_pressed(InputAction::W));

    input.set_action(InputAction::W, true);
    assert!(!input.is_pressed(InputAction::W));

    input.set_action(InputAction::W, false);
    assert!(!input.is_down(InputAction::W));
    assert!(input.is_released(InputAction::W));

    input.set_action(InputAction::E, false);
    assert!(!input.is_released(InputAction::E));
}

#[test]
fn mouse_position_round_trips() {
    let mut input = InputState::new();
    assert_eq!(input.get_mouse_position(), glam::Vec2::ZERO);
    input.set_mouse_position(glam::Vec2::new(3.5, -2.0));
    assert_eq!(input.get_mouse_position(), glam::Vec2::new(3.5, -2.0));
}
