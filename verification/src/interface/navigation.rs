//! Moving the cursors of a text editor with the navigation keys.
use vstd::prelude::*;

use crate::interface::text_editor::{
    spec_cursor_fits, spec_index_of_position, spec_moved_left, spec_moved_right, CharacterPosition, Cursor,
    CursorLocation, TextEditor,
};
use crate::interface::text_layout::{spec_line, spec_line_starts};

verus! {

/// The navigation keys pressed at once.
#[derive(Clone, Copy, Debug, Default)]
pub struct NavigationKeys {
    pub left: bool,
    pub right: bool,
    pub up: bool,
    pub down: bool,
    pub home: bool,
    pub end: bool,
    pub page_up: bool,
    pub page_down: bool,
}

/// Where `position` goes in `s` when the keys other than page up and page down
/// are pressed, and whether any of them moved it. The keys act in turn: left
/// and right move a character, going on across lines; up and down move a line,
/// within the lines before the text's last newline; home and end go to the
/// line's start and end.
pub open spec fn spec_navigate_within_page(s: Seq<char>, position: CharacterPosition, keys: NavigationKeys) -> (
    CharacterPosition,
    bool,
) {
    let count = spec_line_starts(s).len() as int;
    let after_left = if keys.left { spec_moved_left(s, position, 1, true) } else { position };
    let after_right = if keys.right { spec_moved_right(s, after_left, 1, true) } else { after_left };
    let goes_up = keys.up && after_right.line > 0;
    let after_up = if goes_up { CharacterPosition { line: (after_right.line - 1) as usize, ..after_right } } else { after_right };
    let goes_down = keys.down && after_up.line < count - 2;
    let after_down = if goes_down { CharacterPosition { line: (after_up.line + 1) as usize, ..after_up } } else { after_up };
    let after_home = if keys.home { CharacterPosition { column: 0, ..after_down } } else { after_down };
    let after_end = if keys.end {
        CharacterPosition { column: spec_line(s, after_home.line as int).len() as usize, ..after_home }
    } else {
        after_home
    };
    (after_end, keys.left || keys.right || goes_up || goes_down || keys.home || keys.end)
}

/// The line that page up leaves `line` on: a page less a line up, or the first.
pub open spec fn spec_page_up(line: int, keys: NavigationKeys, page_lines: int) -> int {
    let step = if page_lines >= 1 { page_lines - 1 } else { 0 };
    if keys.page_up {
        if line >= step { line - step } else { 0 }
    } else {
        line
    }
}

/// Where `position` goes in `s` when `keys` are pressed, with `page_lines`
/// lines on a page, and whether any key moved it: the other keys act first,
/// then page up moves a page less a line up, and page down a page less a line
/// down, no further than the line before the text's last newline.
pub open spec fn spec_navigate(s: Seq<char>, position: CharacterPosition, keys: NavigationKeys, page_lines: int) -> (
    CharacterPosition,
    bool,
) {
    let count = spec_line_starts(s).len() as int;
    let step = if page_lines >= 1 { page_lines - 1 } else { 0 };
    let (within, moved) = spec_navigate_within_page(s, position, keys);
    let line = spec_page_up(within.line as int, keys, page_lines);
    let line = if keys.page_down {
        if line + step < count - 2 { line + step } else { count - 2 }
    } else {
        line
    };
    (CharacterPosition { line: line as usize, ..within }, moved || keys.page_up || keys.page_down)
}

/// Moving left keeps a position on its line or an earlier one.
proof fn lemma_moved_left_line(s: Seq<char>, position: CharacterPosition, offset: int, wrap: bool)
    ensures
        spec_moved_left(s, position, offset, wrap).line <= position.line,
    decreases offset,
{
    if offset > 0 && !(offset <= position.column || !wrap || position.line == 0) {
        let line = position.line - 1;
        lemma_moved_left_line(
            s,
            CharacterPosition { line: line as usize, column: spec_line(s, line).len() as usize },
            offset - position.column - 1,
            wrap,
        );
    }
}

/// Moving right keeps a position on its line, or on a line before the text's
/// last newline.
proof fn lemma_moved_right_line(s: Seq<char>, position: CharacterPosition, offset: int, wrap: bool)
    ensures
        spec_moved_right(s, position, offset, wrap).line == position.line
            || spec_moved_right(s, position, offset, wrap).line < spec_line_starts(s).len() - 1,
    decreases offset,
{
    let length = spec_line(s, position.line as int).len() as int;
    if offset > 0 && !(offset <= length - position.column || !wrap || position.line + 2 >= spec_line_starts(s).len()
        || position.column > length) {
        lemma_moved_right_line(
            s,
            CharacterPosition { line: (position.line + 1) as usize, column: 0 },
            offset - (length - position.column + 1),
            wrap,
        );
    }
}

impl TextEditor {
    /// Whether the keys can act on `position` as the editor does: the position
    /// is on a line of the text; moving right needs the column (after any move
    /// left) to be on its line; moving down needs a line before the text's last
    /// newline; and a page down must not run past the largest line number.
    pub open spec fn can_navigate(&self, position: CharacterPosition, keys: NavigationKeys, page_lines: int) -> bool {
        let s = self.text@;
        let count = self.lines@.len() as int;
        let step = if page_lines >= 1 { page_lines - 1 } else { 0 };
        let after_left = if keys.left { spec_moved_left(s, position, 1, true) } else { position };
        let before_page_down = spec_page_up(spec_navigate_within_page(s, position, keys).0.line as int, keys, page_lines);
        &&& position.line < count
        &&& keys.right ==> self.can_move_right(after_left, 1, true)
        &&& (keys.down || keys.page_down) ==> count >= 2
        &&& keys.page_down ==> before_page_down + step <= usize::MAX
    }

    /// Moves every cursor as the pressed navigation keys say, with
    /// `page_lines` lines on a page; a cursor that moves has its start put at
    /// its new position. Whether any cursor moved.
    pub fn move_cursors_with_keys(&mut self, keys: NavigationKeys, page_lines: usize) -> (result: bool)
        requires
            old(self).wf(),
            forall|c: int| 0 <= c < old(self).cursors@.len()
                ==> old(self).can_navigate(#[trigger] old(self).cursors@[c].start.position, keys, page_lines as int),
        ensures
            final(self).wf(),
            final(self).text == old(self).text,
            final(self).lines == old(self).lines,
            final(self).history == old(self).history,
            final(self).cursors@.len() == old(self).cursors@.len(),
            forall|c: int| 0 <= c < old(self).cursors@.len() ==> {
                let (position, moved) = spec_navigate(old(self).text@, #[trigger] old(self).cursors@[c].start.position, keys, page_lines as int);
                final(self).cursors@[c] == if moved {
                    Cursor {
                        start: CursorLocation {
                            position,
                            index: spec_index_of_position(old(self).text@, position)->0 as usize,
                        },
                        end: old(self).cursors@[c].end,
                    }
                } else {
                    old(self).cursors@[c]
                }
            },
            result == exists|c: int| 0 <= c < old(self).cursors@.len()
                && (#[trigger] spec_navigate(old(self).text@, old(self).cursors@[c].start.position, keys, page_lines as int)).1,
    {
        let ghost initial_cursors = self.cursors@;
        let mut moved_any = false;
        let mut c: usize = 0;
        while c < self.cursors.len()
            invariant
                old(self).wf(),
                self.text == old(self).text,
                self.lines == old(self).lines,
                self.history == old(self).history,
                initial_cursors == old(self).cursors@,
                self.cursors@.len() == initial_cursors.len(),
                c <= initial_cursors.len(),
                forall|d: int| 0 <= d < initial_cursors.len()
                    ==> old(self).can_navigate(#[trigger] initial_cursors[d].start.position, keys, page_lines as int),
                forall|d: int| c <= d < initial_cursors.len() ==> #[trigger] self.cursors@[d] == initial_cursors[d],
                forall|d: int| 0 <= d < c ==> {
                    let (position, moved) = spec_navigate(old(self).text@, #[trigger] initial_cursors[d].start.position, keys, page_lines as int);
                    &&& self.cursors@[d] == if moved {
                        Cursor {
                            start: CursorLocation {
                                position,
                                index: spec_index_of_position(old(self).text@, position)->0 as usize,
                            },
                            end: initial_cursors[d].end,
                        }
                    } else {
                        initial_cursors[d]
                    }
                    &&& spec_cursor_fits(self.text@, self.cursors@[d])
                },
                moved_any == exists|d: int| 0 <= d < c
                    && (#[trigger] spec_navigate(old(self).text@, initial_cursors[d].start.position, keys, page_lines as int)).1,
            decreases initial_cursors.len() - c,
        {
            let mut cursor = self.cursors[c];
            let (position, moved) = self.navigate(cursor.start.position, keys, page_lines);
            if moved {
                let index = self.index_of_position(position).unwrap();
                cursor.start = CursorLocation { position, index };
                self.cursors.set(c, cursor);
            }
            proof {
                assert(initial_cursors[c as int] == old(self).cursors@[c as int]);
                assert(spec_cursor_fits(old(self).text@, old(self).cursors@[c as int]));
            }
            moved_any = moved_any || moved;
            c += 1;
        }
        proof {
            assert forall|d: int| 0 <= d < self.cursors@.len() implies spec_cursor_fits(self.text@, #[trigger] self.cursors@[d]) by {
                let _ = spec_navigate(old(self).text@, initial_cursors[d].start.position, keys, page_lines as int);
            }
        }
        moved_any
    }

    /// Where `position` goes when `keys` are pressed, and whether any key
    /// moved it.
    /// Where `position` goes when the left and right keys of `keys` are
    /// pressed.
    fn navigate_horizontally(&self, position: CharacterPosition, keys: NavigationKeys) -> (result: CharacterPosition)
        requires
            self.layout_wf(),
            position.line < self.lines@.len(),
            keys.right ==> self.can_move_right(
                if keys.left { spec_moved_left(self.text@, position, 1, true) } else { position },
                1,
                true,
            ),
        ensures
            result == (if keys.right {
                spec_moved_right(self.text@, if keys.left { spec_moved_left(self.text@, position, 1, true) } else { position }, 1, true)
            } else {
                if keys.left { spec_moved_left(self.text@, position, 1, true) } else { position }
            }),
            result.line < self.lines@.len(),
    {
        let mut position = position;
        if keys.left {
            proof {
                lemma_moved_left_line(self.text@, position, 1, true);
            }
            position = self.move_position_left(position, 1, true);
        }
        if keys.right {
            proof {
                lemma_moved_right_line(self.text@, position, 1, true);
            }
            position = self.move_position_right(position, 1, true);
        }
        position
    }

    /// Where `position` goes when `keys` are pressed, and whether any key
    /// moved it.
    #[verifier::spinoff_prover]
    #[verifier::rlimit(40)]
    fn navigate(&self, position: CharacterPosition, keys: NavigationKeys, page_lines: usize) -> (result: (CharacterPosition, bool))
        requires
            self.layout_wf(),
            self.can_navigate(position, keys, page_lines as int),
        ensures
            result == spec_navigate(self.text@, position, keys, page_lines as int),
            result.0.line < self.lines@.len(),
    {
        let ghost s = self.text@;
        let ghost initial_position = position;
        let step = if page_lines >= 1 { page_lines - 1 } else { 0 };
        let mut position = self.navigate_horizontally(position, keys);
        let mut moved = keys.left || keys.right;
        if keys.up && position.line > 0 {
            position.line = position.line - 1;
            moved = true;
        }
        if keys.down && position.line < self.num_lines() - 1 {
            position.line = position.line + 1;
            moved = true;
        }
        if keys.home {
            position.column = 0;
            moved = true;
        }
        if keys.end {
            position.column = self.length_of_line(position.line).unwrap();
            moved = true;
        }
        proof {
            assert((position, moved) == spec_navigate_within_page(s, initial_position, keys));
        }
        if keys.page_up {
            position.line = if position.line >= step { position.line - step } else { 0 };
            moved = true;
        }
        if keys.page_down {
            let final_line = self.num_lines() - 1;
            let lowered = position.line + step;
            position.line = if lowered < final_line { lowered } else { final_line };
            moved = true;
        }
        (position, moved)
    }
}

} // verus!
