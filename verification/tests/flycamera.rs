use blue_engine_utilities::flycamera::{ControlInput, Movement};
use blue_engine_utilities::FlyCamera;

fn idle() -> ControlInput {
    ControlInput {
        mouse_pressed: false,
        mouse_motion: false,
        escape_pressed: false,
        shift_held: false,
        forward_held: false,
        backward_held: false,
        left_held: false,
        right_held: false,
    }
}

#[test]
fn new_camera_is_unfocused() {
    let camera = FlyCamera::new(7u8);
    assert!(!camera.is_focus);
    assert_eq!(camera.test_counter, 0);
    assert_eq!(camera.motion, 7);
}

#[test]
fn test_counts_calls() {
    let mut camera = FlyCamera::new(());
    assert_eq!(camera.test(), 1);
    assert_eq!(camera.test(), 2);
    assert_eq!(camera.test_counter, 2);
}

#[test]
fn unfocused_camera_ignores_keys() {
    let mut camera = FlyCamera::new(());
    let mut input = idle();
    input.forward_held = true;
    input.shift_held = true;
    input.mouse_motion = true;
    let actions = camera.control(input);
    assert!(!actions.grab_cursor);
    assert!(!actions.look);
    assert!(!actions.release_cursor);
    assert_eq!(actions.speed_multiplier, 1);
    assert!(actions.moves.is_empty());
    assert!(!camera.is_focus);
}

#[test]
fn mouse_press_grabs_and_moves_in_same_frame() {
    let mut camera = FlyCamera::new(());
    let mut input = idle();
    input.mouse_pressed = true;
    input.forward_held = true;
    input.right_held = true;
    input.shift_held = true;
    let actions = camera.control(input);
    assert!(actions.grab_cursor);
    assert!(camera.is_focus);
    assert_eq!(actions.speed_multiplier, 3);
    assert_eq!(actions.moves, vec![Movement::Forward, Movement::Right]);
}

#[test]
fn press_while_focused_does_not_grab_again() {
    let mut camera = FlyCamera::new(());
    let mut input = idle();
    input.mouse_pressed = true;
    camera.control(input);
    let actions = camera.control(input);
    assert!(!actions.grab_cursor);
    assert!(camera.is_focus);
}

#[test]
fn escape_releases_but_still_moves() {
    let mut camera = FlyCamera::new(());
    let mut press = idle();
    press.mouse_pressed = true;
    camera.control(press);
    let mut input = idle();
    input.escape_pressed = true;
    input.backward_held = true;
    input.left_held = true;
    input.mouse_motion = true;
    let actions = camera.control(input);
    assert!(actions.release_cursor);
    assert!(actions.look);
    assert!(!camera.is_focus);
    assert_eq!(actions.moves, vec![Movement::Backward, Movement::Left]);
    let after = camera.control(input);
    assert!(!after.release_cursor);
    assert!(after.moves.is_empty());
}

#[test]
fn all_keys_in_fixed_order() {
    let mut camera = FlyCamera::new(());
    let mut input = idle();
    input.mouse_pressed = true;
    input.forward_held = true;
    input.backward_held = true;
    input.left_held = true;
    input.right_held = true;
    let actions = camera.control(input);
    assert_eq!(
        actions.moves,
        vec![Movement::Forward, Movement::Backward, Movement::Left, Movement::Right]
    );
    assert_eq!(actions.speed_multiplier, 1);
}

#[test]
fn grab_again_only_after_release() {
    let mut camera = FlyCamera::new(());
    let mut press = idle();
    press.mouse_pressed = true;
    assert!(camera.control(press).grab_cursor);
    assert!(!camera.control(press).grab_cursor);
    let mut escape = idle();
    escape.escape_pressed = true;
    assert!(camera.control(escape).release_cursor);
    assert!(camera.control(press).grab_cursor);
}
