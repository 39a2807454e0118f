//! The header of a window: its title, by which the window is dragged.
use vstd::prelude::*;

use crate::ui::element::{UpdateResult, WindowFocusUse};

verus! {

/// A window's header, showing its title.
#[derive(Clone, Debug)]
pub struct Header {
    pub title: String,
}

impl Header {
    /// A header always takes part in its window's focus.
    pub fn uses_window_focus(&self) -> (result: WindowFocusUse)
        ensures
            result is Always,
    {
        WindowFocusUse::Always
    }

    /// What the header asks of its window in a frame where the mouse was
    /// `clicked` on it, or the window was being `dragged`: to be grabbed in
    /// either case, and nothing else.
    pub fn update(&mut self, clicked: bool, dragged: bool) -> (result: UpdateResult)
        ensures
            result == (UpdateResult {
                update_graphics: false,
                grab_mouse: false,
                grab_window: clicked || dragged,
                take_keyboard_focus: false,
            }),
            final(self).title == old(self).title,
    {
        UpdateResult {
            update_graphics: false,
            grab_mouse: false,
            grab_window: clicked || dragged,
            take_keyboard_focus: false,
        }
    }
}

} // verus!
