//! What the window reports between two frames, and what it is taken for.

use vstd::prelude::*;
use vstd::string::StrSliceExecFns;
use vstd::string::StringExecFns;

use crate::bits::ZERO;
use crate::painter::Point;

verus! {

/// The keys that change what the others mean.
#[derive(Clone, Copy, Debug, PartialEq, Eq, Structural)]
pub struct Modifiers {
    pub shift: bool,
    pub control: bool,
    /// The key with the logo.
    pub logo: bool,
}

/// A button of the mouse, and what happened to it since the last frame.
#[derive(Clone, Copy, Debug, PartialEq, Eq, Structural)]
pub struct ButtonState {
    pub down: bool,
    pub pressed: bool,
    pub released: bool,
}

/// The keys with a meaning, and the shortcuts that were given since the last frame.
#[derive(Clone, Copy, Debug, PartialEq, Eq, Structural)]
pub struct Keys {
    pub backspace: bool,
    pub delete: bool,
    pub enter: bool,
    pub left: bool,
    pub right: bool,
    pub up: bool,
    pub down: bool,
    pub home: bool,
    pub end: bool,
    pub copy: bool,
    pub paste: bool,
    pub cut: bool,
    pub select_all: bool,
    pub duplicate: bool,
}

/// What the window reported since the last frame.
#[derive(Debug)]
pub struct FrameInput {
    pub mouse_pos: Point,
    pub left: ButtonState,
    pub right: ButtonState,
    pub middle: ButtonState,
    pub scroll_delta: Point,
    pub text: String,
    pub keys: Keys,
    pub key_shift: bool,
    pub key_ctrl: bool,
    pub modifiers: Modifiers,
    pub clipboard_paste: String,
    pub look_delta: Point,
}

/// What the panels get to know for a frame.
#[derive(Debug)]
pub struct UiInput {
    pub mouse_pos: Point,
    pub left: ButtonState,
    pub right: ButtonState,
    pub middle: ButtonState,
    pub viewport: Point,
    pub scroll_delta: Point,
    pub dt: u32,
    pub text: String,
    pub keys: Keys,
    pub key_shift: bool,
    pub key_ctrl: bool,
    pub clipboard: String,
}

impl ButtonState {
    /// A button that is held or not, and to which nothing happened.
    pub open spec fn still(down: bool) -> ButtonState {
        ButtonState { down, pressed: false, released: false }
    }

    /// A button that is held or not, and to which nothing happened.
    pub fn at_rest(down: bool) -> (b: ButtonState)
        ensures
            b == ButtonState::still(down),
    {
        ButtonState { down, pressed: false, released: false }
    }

    /// A button after it went down or up. Only a change counts as a press or a release.
    pub open spec fn moved(self, down: bool) -> ButtonState {
        ButtonState {
            down,
            pressed: self.pressed || down && !self.down,
            released: self.released || !down && self.down,
        }
    }

    fn go(&mut self, down: bool)
        ensures
            *final(self) == old(self).moved(down),
    {
        if down && !self.down {
            self.pressed = true;
        }
        if !down && self.down {
            self.released = true;
        }
        self.down = down;
    }
}

impl Keys {
    /// No key is held, and no shortcut was given.
    pub open spec fn idle() -> Keys {
        Keys {
            backspace: false,
            delete: false,
            enter: false,
            left: false,
            right: false,
            up: false,
            down: false,
            home: false,
            end: false,
            copy: false,
            paste: false,
            cut: false,
            select_all: false,
            duplicate: false,
        }
    }

    /// No key is held, and no shortcut was given.
    pub fn none() -> (k: Keys)
        ensures
            k == Keys::idle(),
    {
        Keys {
            backspace: false,
            delete: false,
            enter: false,
            left: false,
            right: false,
            up: false,
            down: false,
            home: false,
            end: false,
            copy: false,
            paste: false,
            cut: false,
            select_all: false,
            duplicate: false,
        }
    }
}

impl FrameInput {
    /// The input after a frame: what is held stays, what happened is over.
    pub open spec fn is_cleared(self, after: FrameInput) -> bool {
        &&& after.text@.len() == 0
        &&& after.clipboard_paste@.len() == 0
        &&& after == FrameInput {
            mouse_pos: self.mouse_pos,
            left: ButtonState::still(self.left.down),
            right: ButtonState::still(self.right.down),
            middle: ButtonState::still(self.middle.down),
            scroll_delta: [ZERO, ZERO],
            text: after.text,
            keys: Keys::idle(),
            key_shift: self.key_shift,
            key_ctrl: self.key_ctrl,
            modifiers: self.modifiers,
            clipboard_paste: after.clipboard_paste,
            look_delta: [ZERO, ZERO],
        }
    }

    /// Forgets what happened, and keeps what is held.
    pub fn clear_edges(&mut self)
        ensures
            old(self).is_cleared(*final(self)),
    {
        self.left = ButtonState::at_rest(self.left.down);
        self.right = ButtonState::at_rest(self.right.down);
        self.middle = ButtonState::at_rest(self.middle.down);
        self.scroll_delta = [ZERO, ZERO];
        self.look_delta = [ZERO, ZERO];
        self.text = String::new();
        self.keys = Keys::none();
        self.clipboard_paste = String::new();
    }

    /// What the panels get to know of an input.
    pub open spec fn is_shown(self, ui: UiInput, viewport: Point, dt: u32) -> bool {
        &&& ui.text@ == self.text@
        &&& ui.clipboard@ == self.clipboard_paste@
        &&& ui == UiInput {
            mouse_pos: self.mouse_pos,
            left: self.left,
            right: self.right,
            middle: self.middle,
            viewport,
            scroll_delta: self.scroll_delta,
            dt,
            text: ui.text,
            keys: self.keys,
            key_shift: self.key_shift,
            key_ctrl: self.key_ctrl || self.modifiers.logo,
            clipboard: ui.clipboard,
        }
    }

    /// What the panels get to know for a frame.
    pub fn to_ui(&self, viewport: Point, dt: u32) -> (ui: UiInput)
        ensures
            self.is_shown(ui, viewport, dt),
    {
        UiInput {
            mouse_pos: self.mouse_pos,
            left: self.left,
            right: self.right,
            middle: self.middle,
            viewport,
            scroll_delta: self.scroll_delta,
            dt,
            text: self.text.clone(),
            keys: self.keys,
            key_shift: self.key_shift,
            key_ctrl: self.key_ctrl || self.modifiers.logo,
            clipboard: self.clipboard_paste.clone(),
        }
    }
}

impl Default for FrameInput {
    /// Nothing is held, and nothing happened.
    fn default() -> (i: FrameInput)
        ensures
            i.is_cleared(i),
            i.mouse_pos == [ZERO, ZERO],
            !i.left.down && !i.right.down && !i.middle.down,
            !i.key_shift && !i.key_ctrl,
            i.modifiers == (Modifiers { shift: false, control: false, logo: false }),
    {
        FrameInput {
            mouse_pos: [ZERO, ZERO],
            left: ButtonState::at_rest(false),
            right: ButtonState::at_rest(false),
            middle: ButtonState::at_rest(false),
            scroll_delta: [ZERO, ZERO],
            text: String::new(),
            keys: Keys::none(),
            key_shift: false,
            key_ctrl: false,
            modifiers: Modifiers { shift: false, control: false, logo: false },
            clipboard_paste: String::new(),
            look_delta: [ZERO, ZERO],
        }
    }
}

/// What the panels get to know while the pointer moves the camera: nothing of the left and the
/// right button and of the wheel.
pub open spec fn starved(ui: UiInput) -> UiInput {
    UiInput {
        left: ButtonState::still(false),
        right: ButtonState::still(false),
        scroll_delta: [ZERO, ZERO],
        ..ui
    }
}

/// Takes from the panels what the camera uses.
pub fn starve(ui: &mut UiInput)
    ensures
        *final(ui) == starved(*old(ui)),
{
    ui.left = ButtonState::at_rest(false);
    ui.right = ButtonState::at_rest(false);
    ui.scroll_delta = [ZERO, ZERO];
}

/// A button of the mouse.
#[derive(Clone, Copy, Debug, PartialEq, Eq, Structural)]
pub enum Button {
    Left,
    Right,
    Middle,
    Other,
}

impl FrameInput {
    /// The input after a button went down or up.
    pub open spec fn with_button(self, button: Button, down: bool) -> FrameInput {
        match button {
            Button::Left => FrameInput { left: self.left.moved(down), ..self },
            Button::Right => FrameInput { right: self.right.moved(down), ..self },
            Button::Middle => FrameInput { middle: self.middle.moved(down), ..self },
            Button::Other => self,
        }
    }

    /// Takes a button down that went down or up.
    pub fn press(&mut self, button: Button, down: bool)
        ensures
            *final(self) == old(self).with_button(button, down),
    {
        match button {
            Button::Left => self.left.go(down),
            Button::Right => self.right.go(down),
            Button::Middle => self.middle.go(down),
            Button::Other => {},
        }
    }
}

/// A key with a meaning.
#[derive(Clone, Copy, Debug, PartialEq, Eq, Structural)]
pub enum KeyName {
    Backspace,
    Delete,
    Enter,
    ArrowLeft,
    ArrowRight,
    ArrowUp,
    ArrowDown,
    Home,
    End,
    KeyC,
    KeyV,
    KeyX,
    KeyA,
    KeyD,
    Other,
}

impl Keys {
    /// The keys after one of them went down or up, perhaps as a shortcut.
    pub open spec fn with_key(self, key: KeyName, down: bool, hot: bool) -> Keys {
        Keys {
            backspace: if key == KeyName::Backspace {
                down
            } else {
                self.backspace
            },
            delete: if key == KeyName::Delete {
                down
            } else {
                self.delete
            },
            enter: if key == KeyName::Enter {
                down
            } else {
                self.enter
            },
            left: if key == KeyName::ArrowLeft {
                down
            } else {
                self.left
            },
            right: if key == KeyName::ArrowRight {
                down
            } else {
                self.right
            },
            up: if key == KeyName::ArrowUp {
                down
            } else {
                self.up
            },
            down: if key == KeyName::ArrowDown {
                down
            } else {
                self.down
            },
            home: if key == KeyName::Home {
                down
            } else {
                self.home
            },
            end: if key == KeyName::End {
                down
            } else {
                self.end
            },
            copy: self.copy || key == KeyName::KeyC && hot,
            paste: self.paste || key == KeyName::KeyV && hot,
            cut: self.cut || key == KeyName::KeyX && hot,
            select_all: self.select_all || key == KeyName::KeyA && hot,
            duplicate: self.duplicate || key == KeyName::KeyD && hot,
        }
    }

    fn after(self, key: KeyName, down: bool, hot: bool) -> (k: Keys)
        ensures
            k == self.with_key(key, down, hot),
    {
        Keys {
            backspace: if key == KeyName::Backspace {
                down
            } else {
                self.backspace
            },
            delete: if key == KeyName::Delete {
                down
            } else {
                self.delete
            },
            enter: if key == KeyName::Enter {
                down
            } else {
                self.enter
            },
            left: if key == KeyName::ArrowLeft {
                down
            } else {
                self.left
            },
            right: if key == KeyName::ArrowRight {
                down
            } else {
                self.right
            },
            up: if key == KeyName::ArrowUp {
                down
            } else {
                self.up
            },
            down: if key == KeyName::ArrowDown {
                down
            } else {
                self.down
            },
            home: if key == KeyName::Home {
                down
            } else {
                self.home
            },
            end: if key == KeyName::End {
                down
            } else {
                self.end
            },
            copy: self.copy || key == KeyName::KeyC && hot,
            paste: self.paste || key == KeyName::KeyV && hot,
            cut: self.cut || key == KeyName::KeyX && hot,
            select_all: self.select_all || key == KeyName::KeyA && hot,
            duplicate: self.duplicate || key == KeyName::KeyD && hot,
        }
    }
}

impl FrameInput {
    /// A key that goes down now makes a shortcut.
    pub open spec fn is_shortcut(self, down: bool) -> bool {
        down && (self.modifiers.control || self.modifiers.logo)
    }

    /// Takes a key down that went down or up. Returns whether the clipboard has to be read: for a
    /// paste, unless its text is already there.
    pub fn key(&mut self, key: KeyName, down: bool) -> (read: bool)
        ensures
            *final(self) == (FrameInput {
                keys: old(self).keys.with_key(key, down, old(self).is_shortcut(down)),
                ..*old(self)
            }),
            read == (key == KeyName::KeyV && old(self).is_shortcut(down)
                && old(self).clipboard_paste@.len() == 0),
    {
        let hot = down && (self.modifiers.control || self.modifiers.logo);
        self.keys = self.keys.after(key, down, hot);
        key == KeyName::KeyV && hot && self.begin_paste()
    }

    /// Begins a paste. Returns whether the clipboard has to be read: not if its text is already
    /// there.
    pub fn begin_paste(&mut self) -> (read: bool)
        ensures
            *final(self) == (FrameInput {
                keys: Keys { paste: true, ..old(self).keys },
                ..*old(self)
            }),
            read == (old(self).clipboard_paste@.len() == 0),
    {
        self.keys.paste = true;
        self.clipboard_paste.as_str().unicode_len() == 0
    }

    /// Takes the text of the clipboard down.
    pub fn offer_paste(&mut self, text: String)
        ensures
            *final(self) == (FrameInput { clipboard_paste: text, ..*old(self) }),
    {
        self.clipboard_paste = text;
    }

    /// Takes down which keys are held that change what the others mean.
    pub fn modifiers_changed(&mut self, m: Modifiers)
        ensures
            *final(self) == (FrameInput {
                modifiers: m,
                key_shift: m.shift,
                key_ctrl: m.control || m.logo,
                ..*old(self)
            }),
    {
        self.modifiers = m;
        self.key_shift = m.shift;
        self.key_ctrl = m.control || m.logo;
    }

    /// Takes down what was typed, without control characters.
    pub fn type_text(&mut self, text: &str)
        ensures
            final(self).text@ == old(self).text@ + printable(text@),
            *final(self) == (FrameInput { text: final(self).text, ..*old(self) }),
    {
        let n: usize = text.unicode_len();
        let mut i: usize = 0;
        assert(printable(text@.take(0)) =~= Seq::empty());
        while i < n
            invariant
                i <= n,
                n == text@.len(),
                self.text@ =~= old(self).text@ + printable(text@.take(i as int)),
                *self == (FrameInput { text: self.text, ..*old(self) }),
            decreases n - i,
        {
            let c: char = text.get_char(i);
            assert(text@.take(i + 1).drop_last() =~= text@.take(i as int));
            if !is_control(c) {
                let one = text.substring_char(i, i + 1);
                assert(one@ =~= seq![c]);
                self.text.append(one);
            }
            i += 1;
        }
        assert(text@.take(i as int) =~= text@);
    }
}

/// A control character: one of the first thirty-two, or from delete on the next thirty-three.
pub open spec fn is_control_char(c: char) -> bool {
    (c as int) < 0x20 || 0x7f <= c as int && (c as int) < 0xa0
}

/// Whether a character is a control character.
pub fn is_control(c: char) -> (r: bool)
    ensures
        r == is_control_char(c),
{
    let code: u32 = c as u32;
    code < 0x20 || 0x7f <= code && code < 0xa0
}

/// A text without its control characters.
pub open spec fn printable(s: Seq<char>) -> Seq<char>
    decreases s.len(),
{
    if s.len() == 0 {
        Seq::empty()
    } else if is_control_char(s.last()) {
        printable(s.drop_last())
    } else {
        printable(s.drop_last()).push(s.last())
    }
}

/// What happened is over after one frame: clearing twice is clearing once, and what is held is
/// held until the window reports otherwise.
pub proof fn law_edges_last_one_frame(a: FrameInput, b: FrameInput, c: FrameInput)
    requires
        a.is_cleared(b),
        b.is_cleared(c),
    ensures
        a.is_cleared(c),
        c.left == ButtonState::still(a.left.down),
        c.right == ButtonState::still(a.right.down),
        c.middle == ButtonState::still(a.middle.down),
        c.text@ == b.text@,
{
    assert(c.text@ =~= b.text@);
}

/// A press and a release within one frame both count.
pub proof fn law_quick_clicks_count(b: ButtonState)
    requires
        !b.down,
    ensures
        b.moved(true).moved(false) == (ButtonState { down: false, pressed: true, released: true }),
{
}

/// A key changes its own flag and no other: a key with a meaning is held exactly while it is down,
/// and a letter gives its shortcut only with control or the logo key, and keeps those given before.
pub proof fn law_keys_change_their_own(k: Keys, key: KeyName, down: bool, hot: bool)
    ensures
        ({
            let n = k.with_key(key, down, hot);
            &&& key == KeyName::Backspace ==> n == (Keys { backspace: down, ..k })
            &&& key == KeyName::Delete ==> n == (Keys { delete: down, ..k })
            &&& key == KeyName::Enter ==> n == (Keys { enter: down, ..k })
            &&& key == KeyName::ArrowLeft ==> n == (Keys { left: down, ..k })
            &&& key == KeyName::ArrowRight ==> n == (Keys { right: down, ..k })
            &&& key == KeyName::ArrowUp ==> n == (Keys { up: down, ..k })
            &&& key == KeyName::ArrowDown ==> n == (Keys { down: down, ..k })
            &&& key == KeyName::Home ==> n == (Keys { home: down, ..k })
            &&& key == KeyName::End ==> n == (Keys { end: down, ..k })
            &&& key == KeyName::KeyC && hot ==> n == (Keys { copy: true, ..k })
            &&& key == KeyName::KeyV && hot ==> n == (Keys { paste: true, ..k })
            &&& key == KeyName::KeyX && hot ==> n == (Keys { cut: true, ..k })
            &&& key == KeyName::KeyA && hot ==> n == (Keys { select_all: true, ..k })
            &&& key == KeyName::KeyD && hot ==> n == (Keys { duplicate: true, ..k })
            &&& key == KeyName::Other ==> n == k
            &&& !hot && (key == KeyName::KeyC || key == KeyName::KeyV || key == KeyName::KeyX || key
                == KeyName::KeyA || key == KeyName::KeyD) ==> n == k
        }),
{
}

/// A shortcut is given by a key that goes down while control or the logo key is held.
pub proof fn law_shortcuts_need_a_modifier(i: FrameInput)
    ensures
        !i.is_shortcut(false),
        i.modifiers.control || i.modifiers.logo ==> i.is_shortcut(true),
        !i.modifiers.control && !i.modifiers.logo ==> !i.is_shortcut(true),
{
}

/// A button that goes down is pressed if it was up, one that goes up is released if it was down;
/// what is reported twice counts once. The other buttons stay as they are.
pub proof fn law_buttons_report_changes(i: FrameInput, button: Button, down: bool)
    ensures
        ({
            let j = i.with_button(button, down);
            &&& button != Button::Left ==> j.left == i.left
            &&& button != Button::Right ==> j.right == i.right
            &&& button != Button::Middle ==> j.middle == i.middle
            &&& button == Button::Left ==> j.left.down == down
            &&& button == Button::Right ==> j.right.down == down
            &&& button == Button::Middle ==> j.middle.down == down
            &&& button == Button::Left && i.left.down == down ==> j.left == i.left
            &&& button == Button::Right && i.right.down == down ==> j.right == i.right
            &&& button == Button::Middle && i.middle.down == down ==> j.middle == i.middle
            &&& button == Button::Left && i.left.down != down ==> (if down {
                j.left.pressed && j.left.released == i.left.released
            } else {
                j.left.released && j.left.pressed == i.left.pressed
            })
            &&& button == Button::Right && i.right.down != down ==> (if down {
                j.right.pressed && j.right.released == i.right.released
            } else {
                j.right.released && j.right.pressed == i.right.pressed
            })
            &&& button == Button::Middle && i.middle.down != down ==> (if down {
                j.middle.pressed && j.middle.released == i.middle.released
            } else {
                j.middle.released && j.middle.pressed == i.middle.pressed
            })
            &&& j == (FrameInput { left: j.left, right: j.right, middle: j.middle, ..i })
        }),
{
}

/// After a frame the pointer and what is held are as they were; no press, release, wheel turn, key
/// or text is left.
pub proof fn law_a_frame_uses_up_what_happened(a: FrameInput, b: FrameInput)
    requires
        a.is_cleared(b),
    ensures
        b.mouse_pos == a.mouse_pos,
        b.left.down == a.left.down && !b.left.pressed && !b.left.released,
        b.right.down == a.right.down && !b.right.pressed && !b.right.released,
        b.middle.down == a.middle.down && !b.middle.pressed && !b.middle.released,
        b.scroll_delta == [0u32, 0u32] && b.look_delta == [0u32, 0u32],
        b.text@ == Seq::<char>::empty() && b.clipboard_paste@ == Seq::<char>::empty(),
        b.key_shift == a.key_shift && b.key_ctrl == a.key_ctrl && b.modifiers == a.modifiers,
        !b.keys.backspace && !b.keys.delete && !b.keys.enter && !b.keys.left && !b.keys.right,
        !b.keys.up && !b.keys.down && !b.keys.home && !b.keys.end && !b.keys.copy,
        !b.keys.paste && !b.keys.cut && !b.keys.select_all && !b.keys.duplicate,
{
}

/// The panels get to know each thing as it was reported. While the pointer moves the camera they
/// see no left and no right button and no wheel, and all the rest.
pub proof fn law_panels_see_what_was_reported(
    i: FrameInput,
    ui: UiInput,
    viewport: Point,
    dt: u32,
)
    requires
        i.is_shown(ui, viewport, dt),
    ensures
        ui.mouse_pos == i.mouse_pos && ui.viewport == viewport && ui.dt == dt,
        ui.left == i.left && ui.right == i.right && ui.middle == i.middle,
        ui.scroll_delta == i.scroll_delta && ui.keys == i.keys,
        ui.text@ == i.text@ && ui.clipboard@ == i.clipboard_paste@,
        ui.key_shift == i.key_shift,
        ui.key_ctrl <==> i.key_ctrl || i.modifiers.logo,
        ({
            let s = starved(ui);
            &&& !s.left.down && !s.left.pressed && !s.left.released
            &&& !s.right.down && !s.right.pressed && !s.right.released
            &&& s.scroll_delta == [0u32, 0u32]
            &&& s.middle == i.middle && s.mouse_pos == i.mouse_pos && s.keys == i.keys
            &&& s.text@ == i.text@ && s.clipboard@ == i.clipboard_paste@ && s.viewport == viewport
            &&& s.dt == dt && s.key_shift == ui.key_shift && s.key_ctrl == ui.key_ctrl
        }),
{
}

/// What is typed keeps its order and loses its control characters and no others: the text of two
/// parts is that of the first and that of the second, and one character stays unless its code
/// is below that of the space or from 127 to 159.
pub proof fn law_typing_drops_control_characters(a: Seq<char>, b: Seq<char>, c: char)
    ensures
        printable(a + b) == printable(a) + printable(b),
        (c as int) < 32 || 127 <= c as int && (c as int) <= 159 ==> printable(seq![c])
            == Seq::<char>::empty(),
        32 <= c as int && (c as int) < 127 || 160 <= c as int ==> printable(seq![c]) == seq![c],
    decreases b.len(),
{
    reveal_with_fuel(printable, 2);
    assert(seq![c].drop_last() =~= Seq::<char>::empty());
    assert(printable(Seq::<char>::empty()) =~= Seq::<char>::empty());
    assert(Seq::<char>::empty().push(c) =~= seq![c]);
    if b.len() == 0 {
        assert(a + b =~= a);
        assert(printable(a) + printable(b) =~= printable(a));
    } else {
        law_typing_drops_control_characters(a, b.drop_last(), c);
        assert((a + b).drop_last() =~= a + b.drop_last());
        assert((a + b).last() == b.last());
        assert(printable(a) + printable(b.drop_last()).push(b.last()) =~= (printable(a) + printable(
            b.drop_last(),
        )).push(b.last()));
    }
}

} // verus!
