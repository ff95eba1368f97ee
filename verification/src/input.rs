//! Input decisions of the headless widgets: which key presses and pointer events activate
//! buttons, radios, toggles and barriers, and how a button tracks being pressed.
use vstd::prelude::*;

verus! {

/// The keys the widgets react to; every other key is `Other`.
#[derive(Clone, Copy, PartialEq, Eq, Debug)]
pub enum Key {
    Enter,
    Space,
    Escape,
    Tab,
    Other,
}

/// A keyboard input event, as the widgets read it.
#[derive(Clone, Copy, PartialEq, Eq, Debug)]
pub struct KeyEvent {
    pub key: Key,
    /// The key went down (rather than up).
    pub pressed: bool,
    /// The event is an automatic repeat of a held key.
    pub repeat: bool,
}

/// The key activates a widget (Enter or Space).
pub open spec fn is_activation_key(key: Key) -> bool {
    key == Key::Enter || key == Key::Space
}

/// A fresh press (not a repeat, not a release) of an activation key.
pub open spec fn is_fresh_activation(ev: KeyEvent) -> bool {
    ev.pressed && !ev.repeat && is_activation_key(ev.key)
}

fn activation_key(key: Key) -> (r: bool)
    ensures
        r == is_activation_key(key),
{
    match key {
        Key::Enter | Key::Space => true,
        _ => false,
    }
}

/// A button's click callback runs on a key event: the button is enabled, has a callback,
/// and the event is a non-repeated Enter or Space (key-up events count too).
pub fn button_key_activates(disabled: bool, has_on_click: bool, ev: KeyEvent) -> (r: bool)
    ensures
        r == (!disabled && has_on_click && !ev.repeat && is_activation_key(ev.key)),
{
    !disabled && !ev.repeat && activation_key(ev.key) && has_on_click
}

/// A barrier closes on a fresh press of Escape, when it has a close callback.
pub fn barrier_key_closes(has_on_close: bool, ev: KeyEvent) -> (r: bool)
    ensures
        r == (has_on_close && ev.pressed && !ev.repeat && ev.key == Key::Escape),
{
    ev.pressed && !ev.repeat && matches!(ev.key, Key::Escape) && has_on_close
}

/// A radio button's click callback runs on a fresh press of Enter or Space, when it is
/// enabled, not yet checked, and has a callback.
pub fn radio_key_activates(disabled: bool, checked: bool, has_on_click: bool, ev: KeyEvent) -> (r:
    bool)
    ensures
        r == (!disabled && !checked && has_on_click && is_fresh_activation(ev)),
{
    !disabled && ev.pressed && !ev.repeat && activation_key(ev.key) && !checked && has_on_click
}

/// A radio button's click callback runs on a pointer click when it is enabled, not yet
/// checked, and has a callback.
pub fn radio_click_activates(disabled: bool, checked: bool, has_on_click: bool) -> (r: bool)
    ensures
        r == (has_on_click && !disabled && !checked),
{
    has_on_click && !disabled && !checked
}

/// The value a toggle reports on a key event: the negation of its checked state, on a
/// fresh press of Enter or Space, when it is enabled and has a change callback.
pub fn toggle_key_change(disabled: bool, checked: bool, has_on_change: bool, ev: KeyEvent) -> (r:
    Option<bool>)
    ensures
        r == (if !disabled && has_on_change && is_fresh_activation(ev) {
            Some(!checked)
        } else {
            None
        }),
{
    if !disabled && ev.pressed && !ev.repeat && activation_key(ev.key) && has_on_change {
        Some(!checked)
    } else {
        None
    }
}

/// The value a toggle reports on a pointer click: the negation of its checked state, when
/// it is enabled and has a change callback.
pub fn toggle_click_change(disabled: bool, checked: bool, has_on_change: bool) -> (r: Option<bool>)
    ensures
        r == (if has_on_change && !disabled {
            Some(!checked)
        } else {
            None
        }),
{
    if has_on_change && !disabled {
        Some(!checked)
    } else {
        None
    }
}

/// Direction of sequential focus navigation.
#[derive(Clone, Copy, PartialEq, Eq, Debug)]
pub enum NavAction {
    /// Navigate to the next focusable entity.
    Next,
    /// Navigate to the previous focusable entity.
    Previous,
    /// Navigate to the first focusable entity.
    First,
    /// Navigate to the last focusable entity.
    Last,
}

/// The navigation a key event asks for: a fresh press of Tab moves focus forward, or
/// backward while a Shift key is held.
pub fn tab_key_navigation(ev: KeyEvent, shift_held: bool) -> (r: Option<NavAction>)
    ensures
        r == (if ev.key == Key::Tab && ev.pressed && !ev.repeat {
            Some(if shift_held { NavAction::Previous } else { NavAction::Next })
        } else {
            None
        }),
{
    if matches!(ev.key, Key::Tab) && ev.pressed && !ev.repeat {
        if shift_held {
            Some(NavAction::Previous)
        } else {
            Some(NavAction::Next)
        }
    } else {
        None
    }
}

/// Pointer events a button reacts to.
#[derive(Clone, Copy, PartialEq, Eq, Debug)]
pub enum PointerEvent {
    Down,
    Up,
    DragEnd,
    Cancel,
    Click,
}

/// Whether a button is currently pressed by the pointer.
#[derive(Clone, Copy, PartialEq, Eq, Debug)]
pub struct ButtonPressed {
    pub pressed: bool,
}

/// One pointer event on a button: the new pressed state, and whether the click callback
/// runs.
pub open spec fn spec_button_pointer(
    s: ButtonPressed,
    disabled: bool,
    has_on_click: bool,
    ev: PointerEvent,
) -> (ButtonPressed, bool) {
    if disabled {
        (s, false)
    } else {
        match ev {
            PointerEvent::Down => (ButtonPressed { pressed: true }, false),
            PointerEvent::Up | PointerEvent::DragEnd | PointerEvent::Cancel => (
                ButtonPressed { pressed: false },
                false,
            ),
            PointerEvent::Click => (s, s.pressed && has_on_click),
        }
    }
}

impl ButtonPressed {
    /// A button that is not pressed.
    pub fn new() -> (r: Self)
        ensures
            !r.pressed,
    {
        ButtonPressed { pressed: false }
    }

    /// Applies one pointer event; returns whether the click callback runs.
    pub fn on_pointer(&mut self, disabled: bool, has_on_click: bool, ev: PointerEvent) -> (click:
        bool)
        ensures
            (*final(self), click) == spec_button_pointer(*old(self), disabled, has_on_click, ev),
    {
        if disabled {
            return false;
        }
        match ev {
            PointerEvent::Down => {
                self.pressed = true;
                false
            },
            PointerEvent::Up | PointerEvent::DragEnd | PointerEvent::Cancel => {
                self.pressed = false;
                false
            },
            PointerEvent::Click => self.pressed && has_on_click,
        }
    }
}

/// Law: an enabled button with a callback clicks when a click follows a press, and never
/// clicks after the press was released, dragged off or cancelled; a disabled button never
/// clicks and keeps its state.
pub proof fn law_button_click_needs_press(s: ButtonPressed, release: PointerEvent)
    requires
        release == PointerEvent::Up || release == PointerEvent::DragEnd || release
            == PointerEvent::Cancel,
    ensures
        spec_button_pointer(spec_button_pointer(s, false, true, PointerEvent::Down).0, false, true, PointerEvent::Click).1,
        !spec_button_pointer(spec_button_pointer(s, false, true, release).0, false, true, PointerEvent::Click).1,
        forall|ev: PointerEvent| #[trigger] spec_button_pointer(s, true, true, ev) == (s, false),
{
}

/// Law: for an enabled button, from any state, a press marks it pressed and a release,
/// drag end or cancel marks it released, neither running the callback; a click leaves the
/// pressed state as it is and runs the callback exactly when the button is pressed and
/// has one.
pub proof fn law_button_pointer_from_any_state(s: ButtonPressed, has_on_click: bool, ev: PointerEvent)
    ensures
        ev == PointerEvent::Down ==> spec_button_pointer(s, false, has_on_click, ev) == (
        ButtonPressed { pressed: true },
        false,
        ),
        ev == PointerEvent::Up || ev == PointerEvent::DragEnd || ev == PointerEvent::Cancel
            ==> spec_button_pointer(s, false, has_on_click, ev) == (
        ButtonPressed { pressed: false },
        false,
        ),
        ev == PointerEvent::Click ==> spec_button_pointer(s, false, has_on_click, ev) == (
        s,
        s.pressed && has_on_click,
        ),
{
}

} // verus!
