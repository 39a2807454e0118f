//! Which button of the simulation's control panel the mouse is over.
use vstd::prelude::*;

verus! {

/// The control panel: the button the mouse is over, if any.
#[derive(Clone, Copy, Debug, Default)]
pub struct SimulationControlPanel {
    pub mouse_position: Option<usize>,
}

impl SimulationControlPanel {
    /// How many buttons the panel has.
    pub const NUM_BUTTONS: usize = 5;

    /// Puts the mouse over `button` (or over none); whether that changes
    /// anything.
    pub fn set_mouse_position(&mut self, button: Option<usize>) -> (updated: bool)
        ensures
            final(self).mouse_position == button,
            updated == (old(self).mouse_position != button),
    {
        let updated = match (self.mouse_position, button) {
            (Some(previous), Some(next)) => previous != next,
            (None, None) => false,
            _ => true,
        };
        self.mouse_position = button;
        updated
    }

    /// Whether `button` is the one the mouse is over.
    pub fn is_selected(&self, button: usize) -> (selected: bool)
        ensures
            selected == (self.mouse_position == Some(button)),
    {
        match self.mouse_position {
            Some(hovered) => hovered == button,
            None => false,
        }
    }
}

} // verus!
