# thorium_ui

Dynamic control flow and effects for Bevy scenes and UIs (conditional children, switches,
keyed lists, conditional components, dependency-tracked mutations), tab navigation,
enter/exit transitions and headless widgets.

The decisions are a library verified with Verus (`src/`):

- `lcs`, `list_diff`: reconciliation of a keyed child list (longest common run, then the
  same on what precedes and follows it), with its exact result and its laws.
- `effects`: the state machines of `Cond`, `Switch`, `InsertWhen`, `MutateDyn`, memos and
  list nodes.
- `tab_navigation`, `stable_sort`: sequential focus navigation over a hierarchy snapshot.
- `hierarchy`: flattening fragments into real children, recompute targets, hover.
- `transition`, `input`, `widgets`: enter/exit transitions, the input decisions of
  buttons, toggles, radios and barriers, and widget styling decisions.

`app/` is the Bevy side: components, plugins, observers and systems that take a snapshot of
the world, ask the library, and apply the answer (`app/styling.rs` turns the widget
decisions into colors, transforms, visibility and swatch cells, from a palette the
application provides). `tests/` exercises the library.
