//! Verified core of a reactive scene/UI toolkit: list reconciliation, conditional
//! and switch control flow, change detection, tab navigation, enter/exit transitions
//! and the input decisions of headless widgets.
pub mod lcs;
pub mod list_diff;
pub mod effects;
pub mod transition;
pub mod input;
pub mod stable_sort;
pub mod tab_navigation;
pub mod hierarchy;
pub mod widgets;
