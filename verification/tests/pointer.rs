//! The window's reports and what the pointer is used for.

use model_painter::bits::ONE;
use model_painter::input::{is_control, Button, FrameInput, KeyName, Modifiers};
use model_painter::session::{zoom_target, Escape, FrameCounter, Motion, Over, Session, Touch, TouchPlan, Zoom};

const NOWHERE: Over = Over { uv: false, viewport: false, gizmo: false };
const VIEWPORT: Over = Over { uv: false, viewport: true, gizmo: false };
const GIZMO: Over = Over { uv: false, viewport: true, gizmo: true };
const PLANE: Over = Over { uv: true, viewport: false, gizmo: false };

fn bits(x: f32) -> u32 {
    x.to_bits()
}

#[test]
fn what_happened_is_over_after_a_frame() {
    let mut i = FrameInput::default();
    i.press(Button::Left, true);
    i.press(Button::Right, true);
    i.press(Button::Right, false);
    i.type_text("a\u{7}b\u{7f}c\u{85}d\n");
    i.modifiers_changed(Modifiers { shift: true, control: false, logo: true });
    i.key(KeyName::Enter, true);
    i.scroll_delta = [1, 2];
    i.look_delta = [3, 4];
    assert_eq!(i.text, "abcd");
    assert!(i.left.pressed && i.left.down && !i.left.released);
    assert!(i.right.pressed && i.right.released && !i.right.down);
    i.clear_edges();
    assert!(i.left.down && !i.left.pressed);
    assert!(!i.right.pressed && !i.right.released);
    assert_eq!(i.text, "");
    assert!(!i.keys.enter);
    assert!(i.key_shift && i.key_ctrl && i.modifiers.logo);
    assert_eq!(i.scroll_delta, [0, 0]);
    assert_eq!(i.look_delta, [0, 0]);
}

#[test]
fn holding_a_button_is_one_press() {
    let mut i = FrameInput::default();
    i.press(Button::Middle, true);
    i.clear_edges();
    i.press(Button::Middle, true);
    assert!(i.middle.down && !i.middle.pressed);
    i.press(Button::Other, true);
    assert!(!i.left.down && !i.right.down);
}

#[test]
fn shortcuts_need_a_modifier() {
    let mut i = FrameInput::default();
    assert!(!i.key(KeyName::KeyC, true));
    assert!(!i.keys.copy);
    assert!(!i.key(KeyName::KeyV, true));
    assert!(!i.keys.paste);
    i.modifiers_changed(Modifiers { shift: false, control: true, logo: false });
    assert!(!i.key(KeyName::KeyC, true));
    assert!(!i.key(KeyName::KeyX, true));
    assert!(!i.key(KeyName::KeyA, true));
    assert!(!i.key(KeyName::KeyD, true));
    assert!(i.keys.copy && i.keys.cut && i.keys.select_all && i.keys.duplicate);
    // The clipboard is read once.
    assert!(i.key(KeyName::KeyV, true));
    assert!(i.keys.paste);
    i.offer_paste("text".to_string());
    assert!(!i.key(KeyName::KeyV, true));
    // Letting the key go is no shortcut, and takes none back.
    i.key(KeyName::KeyC, false);
    assert!(i.keys.copy);
    i.key(KeyName::ArrowUp, true);
    assert!(i.keys.up);
    i.key(KeyName::ArrowUp, false);
    assert!(!i.keys.up);
}

#[test]
fn control_characters() {
    for code in 0..0x300u32 {
        let c = char::from_u32(code).unwrap();
        assert_eq!(is_control(c), c.is_control());
    }
}

#[test]
fn the_panels_see_the_logo_key_as_control() {
    let mut i = FrameInput::default();
    i.modifiers = Modifiers { shift: false, control: false, logo: true };
    i.mouse_pos = [7, 8];
    i.offer_paste("p".to_string());
    let ui = i.to_ui([1, 2], 3);
    assert!(ui.key_ctrl && !ui.key_shift);
    assert_eq!(ui.mouse_pos, [7, 8]);
    assert_eq!(ui.viewport, [1, 2]);
    assert_eq!(ui.dt, 3);
    assert_eq!(ui.clipboard, "p");
}

#[test]
fn the_right_button_turns_the_camera() {
    let mut s = Session::new();
    let mut painting = true;
    assert!(!s.press(&mut painting, Button::Right, true, NOWHERE));
    assert!(!s.press(&mut painting, Button::Right, true, GIZMO));
    assert!(!s.press(&mut painting, Button::Right, true, PLANE));
    assert!(!s.looking);
    assert!(s.press(&mut painting, Button::Right, true, VIEWPORT));
    assert!(s.looking && painting);
    assert!(!s.press(&mut painting, Button::Right, true, VIEWPORT));
    assert!(s.press(&mut painting, Button::Right, false, NOWHERE));
    assert!(!s.looking);
    s.want_capture_mouse = true;
    assert!(!s.press(&mut painting, Button::Right, true, VIEWPORT));
    assert!(!s.looking);
}

#[test]
fn the_middle_button_moves_the_camera_or_the_plane() {
    let mut s = Session::new();
    let mut painting = true;
    s.press(&mut painting, Button::Middle, true, GIZMO);
    assert!(painting && !s.panning);
    s.press(&mut painting, Button::Middle, true, VIEWPORT);
    assert!(!painting && s.panning && !s.uv_panning);
    s.press(&mut painting, Button::Middle, false, NOWHERE);
    assert!(!s.panning);
    s.press(&mut painting, Button::Middle, true, PLANE);
    assert!(s.uv_panning);
    // Nothing else begins meanwhile.
    assert!(!s.press(&mut painting, Button::Right, true, VIEWPORT));
    assert_eq!(s.motion(), Motion::PanUv);
    s.press(&mut painting, Button::Middle, false, NOWHERE);
    assert_eq!(s.motion(), Motion::Glide);
}

#[test]
fn escape_lets_go_before_it_ends_the_program() {
    let mut s = Session::new();
    s.looking = true;
    assert_eq!(s.motion(), Motion::Turn);
    assert_eq!(s.escape(), Escape::StopLooking);
    assert!(!s.looking);
    assert_eq!(s.escape(), Escape::Exit);
}

#[test]
fn the_panels_are_starved_while_the_camera_moves() {
    let mut s = Session::new();
    let mut i = FrameInput::default();
    i.press(Button::Left, true);
    i.press(Button::Middle, true);
    i.scroll_delta = [1, 1];
    let ui = s.frame_ui(&i, false, [0, 0], 0);
    assert!(ui.left.down && ui.left.pressed);
    let ui = s.frame_ui(&i, true, [0, 0], 0);
    assert!(!ui.left.down && !ui.left.pressed);
    assert!(ui.middle.down);
    assert_eq!(ui.scroll_delta, [0, 0]);
    s.panning = true;
    assert!(!s.frame_ui(&i, false, [0, 0], 0).left.down);
}

#[test]
fn what_the_wheel_is_for() {
    assert_eq!(zoom_target(bits(0.0), PLANE), Zoom::Nothing);
    assert_eq!(zoom_target(bits(-0.0), PLANE), Zoom::Nothing);
    assert_eq!(zoom_target(bits(f32::NAN), PLANE), Zoom::Nothing);
    assert_eq!(zoom_target(bits(-3.0), PLANE), Zoom::Uv);
    assert_eq!(zoom_target(bits(3.0), VIEWPORT), Zoom::Viewport);
    assert_eq!(zoom_target(bits(3.0), NOWHERE), Zoom::Nothing);
}

#[test]
fn a_stroke_begins_goes_on_and_ends() {
    let s = Session::new();
    let mut i = FrameInput::default();
    i.press(Button::Left, true);
    let plan = s.touch(i.left, true, true, false, false);
    assert_eq!(plan, TouchPlan { touch: Touch::Begin, end: false, painting: true });
    i.clear_edges();
    assert_eq!(s.touch(i.left, true, true, false, true).touch, Touch::GoOn);
    assert_eq!(s.touch(i.left, true, false, false, true).touch, Touch::Nothing);
    i.press(Button::Left, false);
    let plan = s.touch(i.left, true, true, false, true);
    assert_eq!(plan, TouchPlan { touch: Touch::Nothing, end: true, painting: false });
    // A quick click is a whole stroke.
    let mut i = FrameInput::default();
    i.press(Button::Left, true);
    i.press(Button::Left, false);
    let plan = s.touch(i.left, true, true, false, false);
    assert_eq!(plan, TouchPlan { touch: Touch::Begin, end: true, painting: false });
    // On the gizmo a view is chosen; without a viewport nothing happens.
    assert_eq!(s.touch(i.left, true, true, true, false).touch, Touch::Choose);
    assert_eq!(
        s.touch(i.left, false, true, false, true),
        TouchPlan { touch: Touch::Nothing, end: false, painting: true }
    );
}

#[test]
fn when_the_brush_is_shown() {
    let mut s = Session::new();
    assert!(s.shows_cursor(true, true));
    assert!(!s.shows_cursor(false, true));
    assert!(!s.shows_cursor(true, false));
    assert!(s.changes_cursor(false));
    s.looking = true;
    assert!(!s.shows_cursor(true, true));
    assert!(!s.changes_cursor(false));
}

#[test]
fn frames_are_counted_by_the_second() {
    let mut c = FrameCounter { frames: 0 };
    assert_eq!(c.count(bits(0.4)), None);
    assert_eq!(c.count(bits(0.8)), None);
    assert_eq!(c.count(ONE), Some(3));
    assert_eq!(c.frames, 0);
}
