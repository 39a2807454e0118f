use vstd::prelude::*;

verus! {

#[derive(Clone, Copy, Debug, Default)]
pub struct Focus {
    pub mouse_grab: bool,
    pub mouse_hover: bool,
    pub keyboard: bool,
}

#[derive(Clone, Copy, Debug)]
pub enum WindowFocusUse {
    Never,
    WithKeyboardFocus,
    Always,
}

impl WindowFocusUse {
    /// Whether an element uses its window's focus, given whether it has the
    /// keyboard focus.
    pub fn is_usesd(&self, keyboard_focus: bool) -> (result: bool)
        ensures
            result == match *self {
                WindowFocusUse::Never => false,
                WindowFocusUse::WithKeyboardFocus => keyboard_focus,
                WindowFocusUse::Always => true,
            },
    {
        match self {
            WindowFocusUse::Never => false,
            WindowFocusUse::WithKeyboardFocus => keyboard_focus,
            WindowFocusUse::Always => true,
        }
    }
}

#[derive(Clone, Copy, Debug, Default)]
pub struct UpdateResult {
    pub update_graphics: bool,
    pub grab_mouse: bool,
    pub grab_window: bool,
    pub take_keyboard_focus: bool,
}

impl UpdateResult {
    /// Everything either result asks for.
    pub fn union(self, rhs: Self) -> (result: Self)
        ensures
            result == (UpdateResult {
                update_graphics: self.update_graphics || rhs.update_graphics,
                grab_mouse: self.grab_mouse || rhs.grab_mouse,
                grab_window: self.grab_window || rhs.grab_window,
                take_keyboard_focus: self.take_keyboard_focus || rhs.take_keyboard_focus,
            }),
    {
        UpdateResult {
            update_graphics: self.update_graphics || rhs.update_graphics,
            grab_mouse: self.grab_mouse || rhs.grab_mouse,
            grab_window: self.grab_window || rhs.grab_window,
            take_keyboard_focus: self.take_keyboard_focus || rhs.take_keyboard_focus,
        }
    }
}

} // verus!
