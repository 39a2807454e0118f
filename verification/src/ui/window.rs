//! Which element of a window has the keyboard focus.
use vstd::prelude::*;

use crate::ui::element::Focus;

verus! {

/// What a window keeps of one of its elements for deciding focus: its focus,
/// and whether it must be drawn again.
#[derive(Clone, Copy, Debug)]
pub struct ElementState {
    pub focus: Focus,
    pub needs_update: bool,
}

/// The elements of a window, in order from the top, and whether any of them
/// must be drawn again.
#[derive(Clone, Debug)]
pub struct WindowElements {
    pub elements: Vec<ElementState>,
    pub update_any: bool,
}

/// The index of the first element in `elements` with the keyboard focus, or
/// their count where none has it.
pub open spec fn spec_first_focused(elements: Seq<ElementState>) -> int
    decreases elements.len(),
{
    if elements.len() == 0 {
        0
    } else if elements[0].focus.keyboard {
        0
    } else {
        1 + spec_first_focused(elements.drop_first())
    }
}

/// How many elements of `elements` have the keyboard focus.
pub open spec fn spec_focused_count(elements: Seq<ElementState>) -> nat
    decreases elements.len(),
{
    if elements.len() == 0 {
        0
    } else {
        spec_focused_count(elements.drop_last()) + if elements.last().focus.keyboard { 1nat } else { 0nat }
    }
}

/// The first focused element is where the elements before it have no focus and
/// it has, or is past the end where none has.
proof fn lemma_first_focused(elements: Seq<ElementState>)
    ensures
        0 <= spec_first_focused(elements) <= elements.len(),
        forall|j: int| 0 <= j < spec_first_focused(elements) ==> !(#[trigger] elements[j]).focus.keyboard,
        spec_first_focused(elements) < elements.len() ==> elements[spec_first_focused(elements)].focus.keyboard,
    decreases elements.len(),
{
    if elements.len() > 0 && !elements[0].focus.keyboard {
        lemma_first_focused(elements.drop_first());
        assert forall|j: int| 0 <= j < spec_first_focused(elements) implies !(#[trigger] elements[j]).focus.keyboard by {
            if j > 0 {
                assert(elements[j] == elements.drop_first()[j - 1]);
            }
        }
    }
}

/// Where only element `index` may have the keyboard focus, at most one has it.
proof fn lemma_focused_count_at_most_one(elements: Seq<ElementState>, index: int)
    requires
        forall|j: int| 0 <= j < elements.len() && j != index ==> !(#[trigger] elements[j]).focus.keyboard,
    ensures
        spec_focused_count(elements) <= 1,
        0 <= index < elements.len() && elements[index].focus.keyboard ==> spec_focused_count(elements) == 1,
        !(0 <= index < elements.len() && elements[index].focus.keyboard) ==> spec_focused_count(elements) == 0,
    decreases elements.len(),
{
    if elements.len() > 0 {
        let rest = elements.drop_last();
        assert forall|j: int| 0 <= j < rest.len() && j != index implies !(#[trigger] rest[j]).focus.keyboard by {
            assert(rest[j] == elements[j]);
        }
        lemma_focused_count_at_most_one(rest, index);
        if 0 <= index < rest.len() {
            assert(rest[index] == elements[index]);
        }
    }
}

impl WindowElements {
    /// Keeps the keyboard focus of the topmost element that has it, and takes
    /// it from every element below, which must then be drawn again. Whether
    /// any element had the focus.
    pub fn deduplicate_keyboard_focus(&mut self) -> (found: bool)
        ensures
            ({
                let first = spec_first_focused(old(self).elements@);
                &&& found == (first < old(self).elements@.len())
                &&& final(self).elements@.len() == old(self).elements@.len()
                &&& forall|j: int| 0 <= j < old(self).elements@.len() ==> #[trigger] final(self).elements@[j] == if j <= first {
                    old(self).elements@[j]
                } else {
                    ElementState {
                        focus: Focus { keyboard: false, ..old(self).elements@[j].focus },
                        needs_update: true,
                    }
                }
                &&& final(self).update_any == (old(self).update_any || first + 1 < old(self).elements@.len())
            }),
            spec_focused_count(final(self).elements@) <= 1,
    {
        let ghost first = spec_first_focused(self.elements@);
        proof {
            lemma_first_focused(self.elements@);
        }
        let mut found = false;
        let mut i: usize = 0;
        while i < self.elements.len()
            invariant
                first == spec_first_focused(old(self).elements@),
                0 <= first <= old(self).elements@.len(),
                forall|j: int| 0 <= j < first ==> !(#[trigger] old(self).elements@[j]).focus.keyboard,
                first < old(self).elements@.len() ==> old(self).elements@[first].focus.keyboard,
                self.elements@.len() == old(self).elements@.len(),
                i <= self.elements@.len(),
                found == (first < i),
                forall|j: int| i <= j < self.elements@.len() ==> #[trigger] self.elements@[j] == old(self).elements@[j],
                forall|j: int| 0 <= j < i ==> #[trigger] self.elements@[j] == if j <= first {
                    old(self).elements@[j]
                } else {
                    ElementState {
                        focus: Focus { keyboard: false, ..old(self).elements@[j].focus },
                        needs_update: true,
                    }
                },
                self.update_any == (old(self).update_any || first + 1 < i),
            decreases self.elements@.len() - i,
        {
            let mut element = self.elements[i];
            if found {
                element.needs_update = true;
                self.update_any = true;
                element.focus.keyboard = false;
            }
            if element.focus.keyboard {
                found = true;
            }
            self.elements.set(i, element);
            i += 1;
        }
        proof {
            lemma_focused_count_at_most_one(self.elements@, first);
        }
        found
    }

    /// Takes the keyboard focus from every element that has it; each such
    /// element must then be drawn again. Whether any element had the focus.
    pub fn clear_keyboard_focus(&mut self) -> (found: bool)
        ensures
            found == exists|j: int| 0 <= j < old(self).elements@.len() && (#[trigger] old(self).elements@[j]).focus.keyboard,
            final(self).elements@.len() == old(self).elements@.len(),
            forall|j: int| 0 <= j < old(self).elements@.len() ==> #[trigger] final(self).elements@[j] == if old(self).elements@[j].focus.keyboard {
                ElementState { focus: Focus { keyboard: false, ..old(self).elements@[j].focus }, needs_update: true }
            } else {
                old(self).elements@[j]
            },
            final(self).update_any == (old(self).update_any || found),
            spec_focused_count(final(self).elements@) == 0,
    {
        let mut found = false;
        let mut i: usize = 0;
        while i < self.elements.len()
            invariant
                self.elements@.len() == old(self).elements@.len(),
                i <= self.elements@.len(),
                found == exists|j: int| 0 <= j < i && (#[trigger] old(self).elements@[j]).focus.keyboard,
                forall|j: int| i <= j < self.elements@.len() ==> #[trigger] self.elements@[j] == old(self).elements@[j],
                forall|j: int| 0 <= j < i ==> #[trigger] self.elements@[j] == if old(self).elements@[j].focus.keyboard {
                    ElementState { focus: Focus { keyboard: false, ..old(self).elements@[j].focus }, needs_update: true }
                } else {
                    old(self).elements@[j]
                },
                self.update_any == (old(self).update_any || found),
            decreases self.elements@.len() - i,
        {
            let mut element = self.elements[i];
            if element.focus.keyboard {
                element.needs_update = true;
                self.update_any = true;
                element.focus.keyboard = false;
                found = true;
            }
            self.elements.set(i, element);
            i += 1;
        }
        proof {
            lemma_focused_count_at_most_one(self.elements@, -1);
        }
        found
    }

    /// Gives the keyboard focus to element `index`, as a window does when the
    /// element is clicked or asks for it: unless it has the focus already, every
    /// other element loses it and the element must be drawn again.
    pub fn give_keyboard_focus(&mut self, index: usize)
        requires
            index < old(self).elements@.len(),
        ensures
            final(self).elements@.len() == old(self).elements@.len(),
            old(self).elements@[index as int].focus.keyboard ==> *final(self) == *old(self),
            final(self).elements@[index as int].focus.keyboard,
            !old(self).elements@[index as int].focus.keyboard ==> {
                &&& final(self).update_any
                &&& final(self).elements@[index as int].needs_update
                &&& forall|j: int| 0 <= j < old(self).elements@.len() && j != index
                    ==> !(#[trigger] final(self).elements@[j]).focus.keyboard
                &&& spec_focused_count(final(self).elements@) == 1
            },
    {
        if !self.elements[index].focus.keyboard {
            self.clear_keyboard_focus();
            let mut element = self.elements[index];
            element.focus.keyboard = true;
            element.needs_update = true;
            self.elements.set(index, element);
            self.update_any = true;
            proof {
                lemma_focused_count_at_most_one(self.elements@, index as int);
            }
        }
    }
}

} // verus!
