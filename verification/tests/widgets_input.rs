use thorium_ui::input::{
    barrier_key_closes, button_key_activates, radio_click_activates, radio_key_activates,
    tab_key_navigation, toggle_click_change, toggle_key_change, ButtonPressed, Key, KeyEvent,
    NavAction, PointerEvent,
};
use thorium_ui::transition::{
    backdrop_opaque, dialog_scale, initial_state, is_shown, transition_step,
    BistableTransitionState, TimerAction, TransitionStep,
};
use thorium_ui::widgets::{
    button_shade, checkbox_shade, disclosure_quarter_turns, disclosure_shade, splitter_shade,
    swatch_cells, ButtonShade, ButtonVariant, CheckboxShade, ColorGradient, DragAxis, IconShade,
    Size, SplitterDirection, SplitterDrag, SplitterShade,
};

fn press(key: Key) -> KeyEvent {
    KeyEvent { key, pressed: true, repeat: false }
}

#[test]
fn transition_names() {
    assert_eq!(BistableTransitionState::Entering.as_name(), "entering");
    assert_eq!(BistableTransitionState::Entered.as_name(), "entered");
    assert_eq!(BistableTransitionState::Exiting.as_name(), "exiting");
    assert_eq!(BistableTransitionState::Exited.as_name(), "exited");
    assert_eq!(BistableTransitionState::default(), BistableTransitionState::Exited);
}

#[test]
fn transition_opens_and_closes() {
    assert_eq!(initial_state(true), BistableTransitionState::Entering);
    assert_eq!(initial_state(false), BistableTransitionState::Exited);
    assert_eq!(
        transition_step(BistableTransitionState::Exited, true, false),
        TransitionStep { state: BistableTransitionState::Entering, timer: TimerAction::Reset, notify_exited: false }
    );
    assert_eq!(
        transition_step(BistableTransitionState::Entering, true, false),
        TransitionStep { state: BistableTransitionState::Entering, timer: TimerAction::Advance, notify_exited: false }
    );
    assert_eq!(
        transition_step(BistableTransitionState::Entering, true, true),
        TransitionStep { state: BistableTransitionState::Entered, timer: TimerAction::Advance, notify_exited: false }
    );
    assert_eq!(
        transition_step(BistableTransitionState::Entered, true, true),
        TransitionStep { state: BistableTransitionState::Entered, timer: TimerAction::Keep, notify_exited: false }
    );
    assert_eq!(
        transition_step(BistableTransitionState::Entered, false, false),
        TransitionStep { state: BistableTransitionState::Exiting, timer: TimerAction::Reset, notify_exited: false }
    );
    assert_eq!(
        transition_step(BistableTransitionState::Exiting, false, true),
        TransitionStep { state: BistableTransitionState::Exited, timer: TimerAction::Advance, notify_exited: true }
    );
    assert_eq!(
        transition_step(BistableTransitionState::Exiting, true, true),
        TransitionStep { state: BistableTransitionState::Entering, timer: TimerAction::Reset, notify_exited: false }
    );
    assert_eq!(
        transition_step(BistableTransitionState::Entering, false, true),
        TransitionStep { state: BistableTransitionState::Exiting, timer: TimerAction::Reset, notify_exited: false }
    );
}

#[test]
fn transition_settles_within_two_frames() {
    for s in [BistableTransitionState::Entering, BistableTransitionState::Entered, BistableTransitionState::Exiting, BistableTransitionState::Exited] {
        for open in [false, true] {
            let s1 = transition_step(s, open, true).state;
            let s2 = transition_step(s1, open, true).state;
            assert_eq!(s2, if open { BistableTransitionState::Entered } else { BistableTransitionState::Exited });
        }
    }
}

#[test]
fn button_key_activation() {
    assert!(button_key_activates(false, true, press(Key::Enter)));
    assert!(button_key_activates(false, true, press(Key::Space)));
    assert!(button_key_activates(false, true, KeyEvent { key: Key::Space, pressed: false, repeat: false }));
    assert!(!button_key_activates(true, true, press(Key::Enter)));
    assert!(!button_key_activates(false, false, press(Key::Enter)));
    assert!(!button_key_activates(false, true, press(Key::Tab)));
    assert!(!button_key_activates(false, true, KeyEvent { key: Key::Enter, pressed: true, repeat: true }));
}

#[test]
fn barrier_closes_on_escape() {
    assert!(barrier_key_closes(true, press(Key::Escape)));
    assert!(!barrier_key_closes(false, press(Key::Escape)));
    assert!(!barrier_key_closes(true, press(Key::Enter)));
    assert!(!barrier_key_closes(true, KeyEvent { key: Key::Escape, pressed: false, repeat: false }));
}

#[test]
fn radio_activation() {
    assert!(radio_key_activates(false, false, true, press(Key::Enter)));
    assert!(!radio_key_activates(false, true, true, press(Key::Enter)));
    assert!(!radio_key_activates(false, false, true, KeyEvent { key: Key::Enter, pressed: false, repeat: false }));
    assert!(radio_click_activates(false, false, true));
    assert!(!radio_click_activates(true, false, true));
    assert!(!radio_click_activates(false, true, true));
}

#[test]
fn toggle_reports_negated_state() {
    assert_eq!(toggle_key_change(false, false, true, press(Key::Space)), Some(true));
    assert_eq!(toggle_key_change(false, true, true, press(Key::Enter)), Some(false));
    assert_eq!(toggle_key_change(true, true, true, press(Key::Enter)), None);
    assert_eq!(toggle_key_change(false, true, false, press(Key::Enter)), None);
    assert_eq!(toggle_click_change(false, true, true), Some(false));
    assert_eq!(toggle_click_change(true, true, true), None);
}

#[test]
fn tab_key_directions() {
    assert_eq!(tab_key_navigation(press(Key::Tab), false), Some(NavAction::Next));
    assert_eq!(tab_key_navigation(press(Key::Tab), true), Some(NavAction::Previous));
    assert_eq!(tab_key_navigation(press(Key::Enter), false), None);
    assert_eq!(tab_key_navigation(KeyEvent { key: Key::Tab, pressed: true, repeat: true }, false), None);
}

#[test]
fn button_pointer_press_and_click() {
    let mut b = ButtonPressed::new();
    assert!(!b.on_pointer(false, true, PointerEvent::Click));
    assert!(!b.on_pointer(false, true, PointerEvent::Down));
    assert!(b.pressed);
    assert!(b.on_pointer(false, true, PointerEvent::Click));
    assert!(!b.on_pointer(false, false, PointerEvent::Click));
    assert!(!b.on_pointer(false, true, PointerEvent::Cancel));
    assert!(!b.on_pointer(false, true, PointerEvent::Click));
    // Disabled buttons ignore pointer events.
    assert!(!b.on_pointer(true, true, PointerEvent::Down));
    assert!(!b.pressed);
}

#[test]
fn widget_variants_and_shades() {
    assert_eq!(Size::default(), Size::Md);
    assert_eq!(ButtonVariant::default(), ButtonVariant::Default);
    assert_eq!(ButtonVariant::for_selected(true), ButtonVariant::Selected);
    assert_eq!(ButtonVariant::for_selected(false), ButtonVariant::Default);
    assert_eq!(button_shade(true, true, true), ButtonShade::Faded);
    assert_eq!(button_shade(false, true, true), ButtonShade::Lighter);
    assert_eq!(button_shade(false, false, true), ButtonShade::Light);
    assert_eq!(button_shade(false, true, false), ButtonShade::Base);
}

#[test]
fn checkbox_shades() {
    assert_eq!(checkbox_shade(true, true, true), CheckboxShade::CheckedDisabled);
    assert_eq!(checkbox_shade(true, false, true), CheckboxShade::CheckedHovered);
    assert_eq!(checkbox_shade(true, false, false), CheckboxShade::Checked);
    assert_eq!(checkbox_shade(false, true, false), CheckboxShade::UncheckedDisabled);
    assert_eq!(checkbox_shade(false, false, true), CheckboxShade::UncheckedHovered);
    assert_eq!(checkbox_shade(false, false, false), CheckboxShade::Unchecked);
}

#[test]
fn swatch_grid_cells() {
    let colors: Vec<u32> = vec![1, 2, 3];
    let cells = swatch_cells(&colors, &2, 2, 2);
    assert_eq!(cells, vec![Some((1, false)), Some((2, true)), Some((3, false)), None]);
}

#[test]
fn swatch_grid_truncates_extra_colors() {
    let colors: Vec<u32> = vec![5, 6, 7, 8, 9];
    let cells = swatch_cells(&colors, &9, 2, 1);
    assert_eq!(cells, vec![Some((5, false)), Some((6, false))]);
    let none = swatch_cells(&colors, &9, 0, 3);
    assert!(none.is_empty());
}

#[test]
fn size_metrics() {
    assert_eq!(Size::Xl.font_size(), 18);
    assert_eq!(Size::Md.font_size(), 14);
    assert_eq!(Size::Xxxs.font_size(), 9);
    assert_eq!(Size::Xl.dialog_width(), 800);
    assert_eq!(Size::Md.dialog_width(), 400);
    assert_eq!(Size::Xxs.dialog_width(), 150);
}

#[test]
fn color_gradient_stops() {
    let g = ColorGradient::new(&[10u32, 20, 30]);
    assert_eq!(g.len(), 3);
    assert!(!g.is_empty());
    assert_eq!(g.first(), Some(10));
    assert_eq!(g.last(), Some(30));
    assert_eq!(g.stop(1), 20);
    let empty: ColorGradient<u32> = ColorGradient::new(&[]);
    assert!(empty.is_empty());
    assert_eq!(empty.first(), None);
    assert_eq!(empty.last(), None);
    assert_eq!(g.padded_stops(0), vec![10, 20, 30, 0, 0, 0, 0, 0]);
    assert_eq!(empty.padded_stops(7), vec![7; 8]);
    let full = ColorGradient::new(&[1u8, 2, 3, 4, 5, 6, 7, 8]);
    assert_eq!(full.padded_stops(0), vec![1, 2, 3, 4, 5, 6, 7, 8]);
    assert_eq!(full.len(), 8);
    assert_eq!(full.last(), Some(8));
}

#[test]
fn dialog_follows_transition() {
    assert!(!is_shown(BistableTransitionState::Exited));
    assert!(is_shown(BistableTransitionState::Exiting));
    assert!(is_shown(BistableTransitionState::Entering));
    assert!(backdrop_opaque(BistableTransitionState::Entering));
    assert!(backdrop_opaque(BistableTransitionState::Entered));
    assert!(!backdrop_opaque(BistableTransitionState::Exiting));
    assert_eq!(dialog_scale(BistableTransitionState::Entering), (false, true));
    assert_eq!(dialog_scale(BistableTransitionState::Exiting), (true, false));
    assert_eq!(dialog_scale(BistableTransitionState::Entered), (true, true));
    assert_eq!(dialog_scale(BistableTransitionState::Exited), (false, false));
    // Closing: still shown while exiting, hidden once the delay ran out.
    let step = transition_step(BistableTransitionState::Entered, false, false);
    assert!(is_shown(step.state));
    let step = transition_step(step.state, false, true);
    assert!(!is_shown(step.state));
    assert!(step.notify_exited);
}

#[test]
fn disclosure_toggle_decisions() {
    assert_eq!(disclosure_shade(true, true), IconShade::Faded);
    assert_eq!(disclosure_shade(false, true), IconShade::Bright);
    assert_eq!(disclosure_shade(false, false), IconShade::Dim);
    assert_eq!(disclosure_quarter_turns(true), 1);
    assert_eq!(disclosure_quarter_turns(false), 0);
    assert_eq!(Size::Xl.disclosure_icon_size(), 24);
    assert_eq!(Size::Xs.disclosure_icon_size(), 13);
    assert_eq!(Size::Xxxs.disclosure_icon_size(), 11);
    assert_eq!(Size::Md.icon_button_icon_size(), 16);
    assert_eq!(Size::Xxxs.icon_button_icon_size(), 10);
}

#[test]
fn splitter_decisions() {
    assert_eq!(SplitterDirection::default(), SplitterDirection::Vertical);
    assert!(SplitterDirection::Horizontal.is_horizontal());
    assert!(SplitterDirection::HorizontalReverse.is_horizontal());
    assert!(!SplitterDirection::VerticalReverse.is_horizontal());
    assert_eq!(SplitterDirection::Horizontal.drag(), SplitterDrag { axis: DragAxis::Y, subtract: true });
    assert_eq!(
        SplitterDirection::HorizontalReverse.drag(),
        SplitterDrag { axis: DragAxis::Y, subtract: false }
    );
    assert_eq!(SplitterDirection::Vertical.drag(), SplitterDrag { axis: DragAxis::X, subtract: false });
    assert_eq!(
        SplitterDirection::VerticalReverse.drag(),
        SplitterDrag { axis: DragAxis::X, subtract: true }
    );
    assert_eq!(splitter_shade(true, false), SplitterShade::Dragged);
    assert_eq!(splitter_shade(false, true), SplitterShade::Hovered);
    assert_eq!(splitter_shade(false, false), SplitterShade::Idle);
}
