//! Plain widget types: size variants, button variants and shading, the disabled marker,
//! and the plugin markers that the host application installs.
use vstd::prelude::*;
use vstd::std_specs::cmp::PartialEqSpec;

verus! {

/// Standard sizes for buttons and other widgets that have size variants.
#[derive(Clone, Copy, PartialEq, Eq, Debug)]
pub enum Size {
    Xl,
    Lg,
    Md,
    Sm,
    Xs,
    Xxs,
    Xxxs,
}

impl Default for Size {
    /// The default size: `Md`.
    fn default() -> (r: Size)
        ensures
            r == Size::Md,
    {
        Size::Md
    }
}

impl Size {
    /// The font size, in pixels, of text in a widget of this size.
    pub fn font_size(&self) -> (r: u16)
        ensures
            r == match *self {
                Size::Xl => 18u16,
                Size::Lg => 16u16,
                Size::Md => 14u16,
                Size::Sm => 13u16,
                Size::Xs => 12u16,
                Size::Xxs => 10u16,
                Size::Xxxs => 9u16,
            },
    {
        match self {
            Size::Xl => 18,
            Size::Lg => 16,
            Size::Md => 14,
            Size::Sm => 13,
            Size::Xs => 12,
            Size::Xxs => 10,
            Size::Xxxs => 9,
        }
    }

    /// The width, in pixels, of a dialog of this size.
    pub fn dialog_width(&self) -> (r: u16)
        ensures
            r == match *self {
                Size::Xl => 800u16,
                Size::Lg => 600u16,
                Size::Md => 400u16,
                Size::Sm => 300u16,
                Size::Xs => 200u16,
                Size::Xxs => 150u16,
                Size::Xxxs => 100u16,
            },
    {
        match self {
            Size::Xl => 800,
            Size::Lg => 600,
            Size::Md => 400,
            Size::Sm => 300,
            Size::Xs => 200,
            Size::Xxs => 150,
            Size::Xxxs => 100,
        }
    }
}

impl Size {
    /// The side, in pixels, of a disclosure toggle's icon at this size.
    pub fn disclosure_icon_size(&self) -> (r: u16)
        ensures
            r == match *self {
                Size::Xl => 24u16,
                Size::Lg => 20u16,
                Size::Md => 18u16,
                Size::Sm => 16u16,
                Size::Xs => 13u16,
                Size::Xxs => 12u16,
                Size::Xxxs => 11u16,
            },
    {
        match self {
            Size::Xl => 24,
            Size::Lg => 20,
            Size::Md => 18,
            Size::Sm => 16,
            Size::Xs => 13,
            Size::Xxs => 12,
            Size::Xxxs => 11,
        }
    }

    /// The side, in pixels, of an icon button's icon at this size.
    pub fn icon_button_icon_size(&self) -> (r: u16)
        ensures
            r == match *self {
                Size::Xl => 20u16,
                Size::Lg => 18u16,
                Size::Md => 16u16,
                Size::Sm => 14u16,
                Size::Xs => 12u16,
                Size::Xxs => 11u16,
                Size::Xxxs => 10u16,
            },
    {
        match self {
            Size::Xl => 20,
            Size::Lg => 18,
            Size::Md => 16,
            Size::Sm => 14,
            Size::Xs => 12,
            Size::Xxs => 11,
            Size::Xxxs => 10,
        }
    }
}

/// How the icon of a disclosure toggle is colored.
#[derive(Clone, Copy, PartialEq, Eq, Debug)]
pub enum IconShade {
    /// Mostly transparent (disabled).
    Faded,
    /// The foreground color (hovered).
    Bright,
    /// The dim color.
    Dim,
}

/// The shade of a disclosure toggle's icon: faded when disabled, bright when hovered,
/// dim otherwise.
pub fn disclosure_shade(disabled: bool, hovering: bool) -> (r: IconShade)
    ensures
        r == if disabled {
            IconShade::Faded
        } else if hovering {
            IconShade::Bright
        } else {
            IconShade::Dim
        },
{
    if disabled {
        IconShade::Faded
    } else if hovering {
        IconShade::Bright
    } else {
        IconShade::Dim
    }
}

/// The quarter turns of a disclosure toggle's arrow: one when expanded, none otherwise.
pub fn disclosure_quarter_turns(expanded: bool) -> (r: u8)
    ensures
        r == if expanded {
            1u8
        } else {
            0u8
        },
{
    if expanded {
        1
    } else {
        0
    }
}

/// The direction of a splitter's bar (not of the items it splits).
#[derive(Clone, Copy, PartialEq, Eq, Debug)]
pub enum SplitterDirection {
    /// The bar runs horizontally and splits the items above and below it.
    Horizontal,
    /// As `Horizontal`, with dragging inverted (for panels at the bottom).
    HorizontalReverse,
    /// The bar runs vertically and splits the items to its left and right.
    Vertical,
    /// As `Vertical`, with dragging inverted (for panels on the right).
    VerticalReverse,
}

/// The pointer axis that moves a splitter.
#[derive(Clone, Copy, PartialEq, Eq, Debug)]
pub enum DragAxis {
    X,
    Y,
}

/// How a drag moves a splitter: along which axis, and whether the drag distance is
/// subtracted from the value where the drag started (rather than added).
#[derive(Clone, Copy, PartialEq, Eq, Debug)]
pub struct SplitterDrag {
    pub axis: DragAxis,
    pub subtract: bool,
}

impl Default for SplitterDirection {
    /// The default direction: `Vertical`.
    fn default() -> (r: SplitterDirection)
        ensures
            r == SplitterDirection::Vertical,
    {
        SplitterDirection::Vertical
    }
}

impl SplitterDirection {
    /// Whether the splitter bar lies horizontally (the panes are above and below).
    pub fn is_horizontal(&self) -> (r: bool)
        ensures
            r == (*self == SplitterDirection::Horizontal || *self
                == SplitterDirection::HorizontalReverse),
    {
        match self {
            SplitterDirection::Horizontal | SplitterDirection::HorizontalReverse => true,
            SplitterDirection::Vertical | SplitterDirection::VerticalReverse => false,
        }
    }

    /// How a drag changes the value: a horizontal bar follows the vertical axis, a vertical
    /// bar the horizontal one; `Horizontal` and `VerticalReverse` subtract the distance.
    pub fn drag(&self) -> (r: SplitterDrag)
        ensures
            r == match *self {
                SplitterDirection::Horizontal => SplitterDrag { axis: DragAxis::Y, subtract: true },
                SplitterDirection::HorizontalReverse => SplitterDrag {
                    axis: DragAxis::Y,
                    subtract: false,
                },
                SplitterDirection::Vertical => SplitterDrag { axis: DragAxis::X, subtract: false },
                SplitterDirection::VerticalReverse => SplitterDrag {
                    axis: DragAxis::X,
                    subtract: true,
                },
            },
    {
        match self {
            SplitterDirection::Horizontal => SplitterDrag { axis: DragAxis::Y, subtract: true },
            SplitterDirection::HorizontalReverse => SplitterDrag {
                axis: DragAxis::Y,
                subtract: false,
            },
            SplitterDirection::Vertical => SplitterDrag { axis: DragAxis::X, subtract: false },
            SplitterDirection::VerticalReverse => SplitterDrag { axis: DragAxis::X, subtract: true },
        }
    }
}

/// How a splitter bar is colored.
#[derive(Clone, Copy, PartialEq, Eq, Debug)]
pub enum SplitterShade {
    /// Lightened more (dragged).
    Dragged,
    /// Lightened slightly (hovered).
    Hovered,
    /// The base color.
    Idle,
}

/// The shade of a splitter bar: dragged wins over hovered.
pub fn splitter_shade(dragging: bool, hovering: bool) -> (r: SplitterShade)
    ensures
        r == if dragging {
            SplitterShade::Dragged
        } else if hovering {
            SplitterShade::Hovered
        } else {
            SplitterShade::Idle
        },
{
    if dragging {
        SplitterShade::Dragged
    } else if hovering {
        SplitterShade::Hovered
    } else {
        SplitterShade::Idle
    }
}

/// The most color stops that a gradient holds.
pub const MAX_GRADIENT_STOPS: usize = 8;

/// A sequence of evenly spaced color stops, at most eight of them.
pub struct ColorGradient<C> {
    stops: Vec<C>,
}

impl<C> View for ColorGradient<C> {
    type V = Seq<C>;

    closed spec fn view(&self) -> Seq<C> {
        self.stops@
    }
}

impl<C> ColorGradient<C> {
    #[verifier::type_invariant]
    spec fn stops_fit(self) -> bool {
        self.stops@.len() <= MAX_GRADIENT_STOPS
    }
}

impl<C: Copy> ColorGradient<C> {
    /// A gradient with the given stops, in order. There may be at most eight.
    pub fn new(colors: &[C]) -> (r: Self)
        requires
            colors@.len() <= MAX_GRADIENT_STOPS,
        ensures
            r@ == colors@,
    {
        let mut stops: Vec<C> = Vec::new();
        let mut i: usize = 0;
        while i < colors.len()
            invariant
                i <= colors@.len(),
                stops@ == colors@.subrange(0, i as int),
            decreases colors@.len() - i,
        {
            stops.push(colors[i]);
            i = i + 1;
        }
        ColorGradient { stops }
    }

    /// The first stop, if there is one.
    pub fn first(&self) -> (r: Option<C>)
        ensures
            r == if self@.len() > 0 {
                Some(self@[0])
            } else {
                None::<C>
            },
    {
        if self.stops.len() > 0 {
            Some(self.stops[0])
        } else {
            None
        }
    }

    /// The last stop, if there is one.
    pub fn last(&self) -> (r: Option<C>)
        ensures
            r == if self@.len() > 0 {
                Some(self@[self@.len() - 1])
            } else {
                None::<C>
            },
    {
        let n = self.stops.len();
        if n > 0 {
            Some(self.stops[n - 1])
        } else {
            None
        }
    }

    /// The number of stops, never more than eight.
    pub fn len(&self) -> (r: usize)
        ensures
            r == self@.len(),
            r <= MAX_GRADIENT_STOPS,
    {
        proof {
            use_type_invariant(self);
        }
        self.stops.len()
    }

    /// Whether the gradient has no stops.
    pub fn is_empty(&self) -> (r: bool)
        ensures
            r == (self@.len() == 0),
    {
        self.stops.len() == 0
    }

    /// All eight slots of the gradient: the stops in order, then `fill` in every unused
    /// slot.
    pub fn padded_stops(&self, fill: C) -> (r: Vec<C>)
        ensures
            r@.len() == MAX_GRADIENT_STOPS,
            forall|i: int| 0 <= i < self@.len() ==> #[trigger] r@[i] == self@[i],
            forall|i: int| self@.len() <= i < MAX_GRADIENT_STOPS ==> #[trigger] r@[i] == fill,
    {
        proof {
            use_type_invariant(self);
        }
        let mut slots: Vec<C> = Vec::new();
        let mut i: usize = 0;
        while i < MAX_GRADIENT_STOPS
            invariant
                self.stops@.len() <= MAX_GRADIENT_STOPS,
                i <= MAX_GRADIENT_STOPS,
                slots@.len() == i,
                forall|k: int| 0 <= k < i && k < self@.len() ==> #[trigger] slots@[k] == self@[k],
                forall|k: int| 0 <= k < i && self@.len() <= k ==> #[trigger] slots@[k] == fill,
            decreases MAX_GRADIENT_STOPS - i,
        {
            if i < self.stops.len() {
                slots.push(self.stops[i]);
            } else {
                slots.push(fill);
            }
            i = i + 1;
        }
        slots
    }

    /// The stop at `index`.
    pub fn stop(&self, index: usize) -> (r: C)
        requires
            index < self@.len(),
        ensures
            r == self@[index as int],
    {
        self.stops[index]
    }
}

/// The variant determines a button's color scheme.
#[derive(Clone, Copy, PartialEq, Eq, Debug)]
pub enum ButtonVariant {
    /// The default appearance.
    Default,
    /// A more prominent, "call to action", appearance.
    Primary,
    /// An appearance indicating a potentially dangerous action.
    Danger,
    /// A button that is in a "toggled" state.
    Selected,
}

impl Default for ButtonVariant {
    /// The default variant: `Default`.
    fn default() -> (r: ButtonVariant)
        ensures
            r == ButtonVariant::Default,
    {
        ButtonVariant::Default
    }
}

impl ButtonVariant {
    /// The variant of a toggle button or toolbar item: `Selected` when selected,
    /// otherwise `Default`.
    pub fn for_selected(selected: bool) -> (r: ButtonVariant)
        ensures
            r == if selected {
                ButtonVariant::Selected
            } else {
                ButtonVariant::Default
            },
    {
        if selected {
            ButtonVariant::Selected
        } else {
            ButtonVariant::Default
        }
    }
}

/// How a button's base color is shaded.
#[derive(Clone, Copy, PartialEq, Eq, Debug)]
pub enum ButtonShade {
    /// Mostly transparent (disabled).
    Faded,
    /// Lightened more (pressed while hovered).
    Lighter,
    /// Lightened slightly (hovered).
    Light,
    /// The base color.
    Base,
}

/// The shade of a button's background: faded when disabled, lighter when pressed and
/// hovered, light when only hovered, the base color otherwise.
pub fn button_shade(disabled: bool, pressed: bool, hovering: bool) -> (r: ButtonShade)
    ensures
        r == if disabled {
            ButtonShade::Faded
        } else if pressed && hovering {
            ButtonShade::Lighter
        } else if hovering {
            ButtonShade::Light
        } else {
            ButtonShade::Base
        },
{
    if disabled {
        ButtonShade::Faded
    } else if pressed && hovering {
        ButtonShade::Lighter
    } else if hovering {
        ButtonShade::Light
    } else {
        ButtonShade::Base
    }
}

/// How a checkbox's box is colored.
#[derive(Clone, Copy, PartialEq, Eq, Debug)]
pub enum CheckboxShade {
    /// Checked and disabled: faded accent.
    CheckedDisabled,
    /// Checked and hovered: accent, darkened slightly.
    CheckedHovered,
    /// Checked: accent, darkened.
    Checked,
    /// Unchecked and disabled: faded background.
    UncheckedDisabled,
    /// Unchecked and hovered: background, lightened.
    UncheckedHovered,
    /// Unchecked: the background color.
    Unchecked,
}

/// The shade of a checkbox's box from its checked, disabled and hovered states.
pub fn checkbox_shade(checked: bool, disabled: bool, hovering: bool) -> (r: CheckboxShade)
    ensures
        r == if checked {
            if disabled {
                CheckboxShade::CheckedDisabled
            } else if hovering {
                CheckboxShade::CheckedHovered
            } else {
                CheckboxShade::Checked
            }
        } else {
            if disabled {
                CheckboxShade::UncheckedDisabled
            } else if hovering {
                CheckboxShade::UncheckedHovered
            } else {
                CheckboxShade::Unchecked
            }
        },
{
    match (checked, disabled, hovering) {
        (true, true, _) => CheckboxShade::CheckedDisabled,
        (true, false, true) => CheckboxShade::CheckedHovered,
        (true, _, _) => CheckboxShade::Checked,
        (false, true, _) => CheckboxShade::UncheckedDisabled,
        (false, false, true) => CheckboxShade::UncheckedHovered,
        (false, false, false) => CheckboxShade::Unchecked,
    }
}

/// The cells of a swatch grid of `columns` by `rows`: cell `i` shows color `i` when there
/// is one, with whether it is the selected color, and is an empty slot otherwise.
pub fn swatch_cells<C: PartialEq + Copy>(colors: &Vec<C>, selected: &C, columns: u32, rows: u32) -> (r: Vec<Option<(C, bool)>>)
    requires
        columns * rows <= u32::MAX,
    ensures
        r@.len() == columns * rows,
        forall|i: int|
            0 <= i < r@.len() ==> match #[trigger] r@[i] {
                Some((c, sel)) => i < colors@.len() && c == colors@[i] && (C::obeys_eq_spec()
                    ==> sel == selected.eq_spec(&c)),
                None => i >= colors@.len(),
            },
{
    let num_cells = (columns * rows) as usize;
    let mut cells: Vec<Option<(C, bool)>> = Vec::new();
    let mut i: usize = 0;
    while i < num_cells
        invariant
            num_cells == columns * rows,
            i <= num_cells,
            cells@.len() == i,
            forall|k: int|
                0 <= k < i ==> match #[trigger] cells@[k] {
                    Some((c, sel)) => k < colors@.len() && c == colors@[k] && (C::obeys_eq_spec()
                        ==> sel == selected.eq_spec(&c)),
                    None => k >= colors@.len(),
                },
        decreases num_cells - i,
    {
        if i < colors.len() {
            let color = colors[i];
            let is_selected = *selected == color;
            cells.push(Some((color, is_selected)));
        } else {
            cells.push(None);
        }
        i = i + 1;
    }
    cells
}

/// Marks a widget as disabled: it ignores interaction and is drawn grayed out.
#[derive(Clone, Copy, PartialEq, Eq, Debug)]
pub struct InteractionDisabled;

/// Installs the reactive core (effects and fragment bookkeeping) into an application.
#[derive(Clone, Copy, PartialEq, Eq, Debug)]
pub struct ThoriumUiCorePlugin;

/// Installs the headless widgets (input dispatch, tab navigation, widget observers).
#[derive(Clone, Copy, PartialEq, Eq, Debug)]
pub struct ThoriumUiHeadlessPlugin;

/// Installs the styled controls (fonts, text styles) and the headless widgets.
#[derive(Clone, Copy, PartialEq, Eq, Debug)]
pub struct ThoriumUiControlsPlugin;

} // verus!
