//! Typing a character at the cursors of a text editor.
use vstd::prelude::*;

use crate::interface::text_editor::{
    lemma_char_of_position_on_line, lemma_location_below_replace, spec_char_of_position, spec_cursor_after_replace, spec_cursor_fits,
    spec_added_lines, spec_is_position_of, spec_moved_left, spec_moved_right, spec_replace_applies, spec_replace_edit, spec_replaced,
    CharacterPosition, EditHistoryView, TextEditor,
};
use crate::interface::text_layout::{
    lemma_encode_length, lemma_first_line_after_splice, lemma_line_after_splice, lemma_line_before_splice,
    lemma_line_bounds, lemma_line_count, lemma_line_starts, lemma_offset_monotone, lemma_offset_next,
    lemma_offset_split, lemma_offsets_after_splice, spec_byte_offset, spec_line, spec_line_end, spec_line_starts,
    spec_spliced, spec_utf8_bytes, spec_utf8_length,
};
use crate::simulation::text::string_from_chars;

verus! {

/// Whether `c` is a control character: general category `Cc`, the characters
/// up to U+001F and from U+007F to U+009F.
pub open spec fn spec_is_control(c: char) -> bool {
    (c as u32) < 0x20 || (0x7f <= (c as u32) && (c as u32) <= 0x9f)
}

/// Whether `c` is a control character, as `char::is_control` has it.
pub fn is_control(c: char) -> (result: bool)
    ensures
        result == spec_is_control(c),
{
    let n = c as u32;
    n < 0x20 || (0x7f <= n && n <= 0x9f)
}

/// Whether typing `c` inserts it: a newline, or anything but a control
/// character.
pub open spec fn spec_is_typed_text(c: char) -> bool {
    !spec_is_control(c) || c == '\n'
}

/// The position one character to the left, with wrapping, stands for a
/// character no later than the one `position` stands for, on its line or an
/// earlier one.
proof fn lemma_left_is_before(s: Seq<char>, position: CharacterPosition)
    requires
        position.line < spec_line_starts(s).len(),
    ensures
        ({
            let left = spec_moved_left(s, position, 1, true);
            &&& left.line <= position.line
            &&& spec_char_of_position(s, left) <= spec_char_of_position(s, position)
        }),
{
    lemma_line_bounds(s, position.line as int);
    if position.column == 0 && position.line > 0 {
        let line = position.line - 1;
        lemma_line_bounds(s, line);
        let moved = CharacterPosition { line: line as usize, column: spec_line(s, line).len() as usize };
        assert(spec_moved_left(s, moved, 0, true) == moved);
        assert(spec_moved_left(s, position, 1, true) == moved);
    }
}

/// The position one character to the right, with wrapping, of a position
/// within its line stands for a character no earlier, on its line or a later
/// one that the text has.
proof fn lemma_right_is_after(s: Seq<char>, position: CharacterPosition)
    requires
        position.line < spec_line_starts(s).len(),
        position.column <= spec_line(s, position.line as int).len(),
        spec_utf8_bytes(s) <= usize::MAX,
    ensures
        ({
            let right = spec_moved_right(s, position, 1, true);
            &&& position.line <= right.line < spec_line_starts(s).len()
            &&& spec_char_of_position(s, position) <= spec_char_of_position(s, right)
            &&& spec_char_of_position(s, right) <= spec_char_of_position(s, position) + 1
        }),
{
    let line = position.line as int;
    lemma_line_bounds(s, line);
    lemma_line_count(s);
    lemma_offset_monotone(s, 0, s.len() as int);
    assert(s.take(s.len() as int) =~= s);
    assert(s.take(0) =~= Seq::<char>::empty());
    let length = spec_line(s, line).len() as int;
    if !(1 <= length - position.column || position.line + 2 >= spec_line_starts(s).len()) {
        let next = line + 1;
        lemma_line_bounds(s, next);
        let moved = CharacterPosition { line: next as usize, column: 0 };
        assert(spec_moved_right(s, moved, 0, true) == moved);
        assert(spec_moved_right(s, position, 1, true) == moved);
        assert(spec_char_of_position(s, moved) == spec_line_starts(s)[next]);
    } else {
        let column = if position.column + 1 < length { position.column + 1 } else { length };
        assert(spec_moved_right(s, position, 1, true) == CharacterPosition { column: column as usize, ..position });
    }
}

/// Whether the start of every cursor is within its line.
pub open spec fn spec_cursors_within_lines(editor: TextEditor) -> bool {
    forall|c: int| 0 <= c < editor.cursors@.len() ==> (#[trigger] editor.cursors@[c]).start.position.column
        <= spec_line(editor.text@, editor.cursors@[c].start.position.line as int).len()
}

/// A replacement keeps the start of every cursor within its line.
proof fn lemma_replace_keeps_cursors_within_lines(
    before: TextEditor,
    after: TextEditor,
    start: CharacterPosition,
    end: CharacterPosition,
    x: Seq<char>,
)
    requires
        before.wf(),
        spec_cursors_within_lines(before),
        spec_replace_applies(before.text@, start, end),
        spec_utf8_bytes(before.text@) + spec_utf8_bytes(x) <= usize::MAX,
        before.spec_replaced_into(after, start, end, x),
    ensures
        spec_cursors_within_lines(after),
{
    let s = before.text@;
    let n = after.text@;
    let i = spec_char_of_position(s, start);
    let j = spec_char_of_position(s, end);
    let first = start.line as int;
    let last = end.line as int;
    lemma_char_of_position_on_line(s, start);
    lemma_char_of_position_on_line(s, end);
    assert forall|c: int| 0 <= c < after.cursors@.len() implies (#[trigger] after.cursors@[c]).start.position.column
        <= spec_line(n, after.cursors@[c].start.position.line as int).len() by {
        let location = before.cursors@[c].start;
        let moved = after.cursors@[c].start;
        let position = location.position;
        let line = position.line as int;
        assert(spec_cursor_after_replace(before.cursors@[c], after.cursors@[c], s, start, end, x));
        assert(spec_cursor_fits(s, before.cursors@[c]));
        assert(spec_cursor_fits(n, after.cursors@[c]));
        lemma_char_of_position_on_line(s, position);
        let k = spec_char_of_position(s, position);
        if location.index < spec_byte_offset(s, i) {
            if k >= i {
                lemma_offset_monotone(s, i, k);
            }
            lemma_line_bounds(s, line);
            if line > first {
                lemma_line_bounds(s, first);
                lemma_line_starts(s);
                assert(spec_line_starts(s)[first + 1] <= spec_line_starts(s)[line]);
            }
            if line < first {
                lemma_line_before_splice(s, i, j, x, first, last, line);
            } else {
                lemma_first_line_after_splice(s, i, j, x, first, last);
                lemma_line_bounds(n, first);
            }
            assert(moved.position == position);
            assert(moved.position.column <= spec_line(n, line).len());
        } else if position.line <= end.line {
            let k2 = spec_char_of_position(n, moved.position);
            lemma_char_of_position_on_line(n, moved.position);
            lemma_line_bounds(n, moved.position.line as int);
            assert(spec_is_position_of(n, k2, moved.position));
            assert(moved.position.column <= spec_line(n, moved.position.line as int).len());
        } else {
            lemma_line_after_splice(s, i, j, x, first, last, line - last - 1);
            lemma_line_starts(x);
            assert(position.column <= spec_line(s, line).len());
            lemma_location_below_replace(s, start, end, x, position);
            assert(moved.position.line as int == line + spec_added_lines(x) - (last - first));
            assert(moved.position.column <= spec_line(n, moved.position.line as int).len());
        }
    }
}

/// Deleting the character at a position before a text's final newline keeps
/// that newline last.
proof fn lemma_delete_keeps_final_newline(s: Seq<char>, position: CharacterPosition)
    requires
        s.len() > 0,
        s.last() == '\n',
        position.line < spec_line_starts(s).len(),
        position.column <= spec_line(s, position.line as int).len(),
        spec_utf8_bytes(s) <= usize::MAX,
        spec_byte_offset(s, spec_char_of_position(s, position)) < spec_utf8_bytes(s) - 1,
    ensures
        ({
            let after = spec_replaced(s, position, spec_moved_right(s, position, 1, true), Seq::empty());
            after.len() > 0 && after.last() == '\n'
        }),
{
    let k1 = spec_char_of_position(s, position);
    let right = spec_moved_right(s, position, 1, true);
    lemma_right_is_after(s, position);
    lemma_char_of_position_on_line(s, position);
    lemma_char_of_position_on_line(s, right);
    let k2 = spec_char_of_position(s, right);
    lemma_offset_next(s, s.len() - 1);
    assert(s.take(s.len() as int) =~= s);
    if k1 >= s.len() - 1 {
        lemma_offset_monotone(s, s.len() - 1, k1);
    }
    let after = spec_spliced(s, k1, k2, Seq::empty());
    assert(after.len() == s.len() - (k2 - k1));
    assert(after.last() == s.last());
}

/// Whether `after`, with the flag `typed`, is what typing `character` at
/// cursor `c` makes of `before`: a backspace removes the character before the
/// cursor unless it is at the text's start; a delete removes the character
/// after it unless it is at or past the text's last byte; a newline or any
/// character that is not a control character is inserted there; each such
/// edit is recorded in the history's buffer, and anything else changes
/// nothing.
pub open spec fn spec_typed_at(before: TextEditor, after: TextEditor, c: int, character: char, typed: bool) -> bool {
    let s = before.text@;
    let position = before.cursors@[c].start.position;
    let index = before.cursors@[c].start.index;
    let history = before.history.spec_view();
    if character == '\u{8}' && index > 0 {
        let left = spec_moved_left(s, position, 1, true);
        &&& typed
        &&& before.spec_replaced_into(after, left, position, Seq::empty())
        &&& after.history.spec_view() == (EditHistoryView {
            buffer: history.buffer.push(spec_replace_edit(s, left, position, Seq::empty())),
            ..history
        })
    } else if character == '\u{7f}' && index < spec_utf8_bytes(s) - 1 {
        let right = spec_moved_right(s, position, 1, true);
        &&& typed
        &&& before.spec_replaced_into(after, position, right, Seq::empty())
        &&& after.history.spec_view() == (EditHistoryView {
            buffer: history.buffer.push(spec_replace_edit(s, position, right, Seq::empty())),
            ..history
        })
    } else if spec_is_typed_text(character) {
        &&& typed
        &&& before.spec_replaced_into(after, position, position, seq![character])
        &&& after.history.spec_view() == (EditHistoryView {
            buffer: history.buffer.push(spec_replace_edit(s, position, position, seq![character])),
            ..history
        })
    } else {
        &&& !typed
        &&& after == before
    }
}

/// Whether `states` are the editors that typing `character` at cursors 0, 1,
/// … in turn goes through, each step as `spec_typed_at` says with the flag
/// in `flags`.
pub open spec fn spec_typed_in_turn(states: Seq<TextEditor>, flags: Seq<bool>, character: char) -> bool {
    &&& states.len() == flags.len() + 1
    &&& forall|i: int| 0 <= i < flags.len()
        ==> spec_typed_at(#[trigger] states[i], states[i + 1], i, character, flags[i])
}

impl TextEditor {
    /// Whether typing `character` at cursor `c` can be done as the editor does
    /// it: a delete needs text, and a cursor within its line where it deletes;
    /// an insertion must fit in memory.
    pub open spec fn can_type_at(&self, c: int, character: char) -> bool {
        let cursor = self.cursors@[c];
        let bytes = spec_utf8_bytes(self.text@);
        &&& 0 <= c < self.cursors@.len()
        &&& character == '\u{7f}' ==> bytes >= 1
        &&& character == '\u{7f}' && cursor.start.index < bytes - 1 ==> self.can_move_right(cursor.start.position, 1, true)
        &&& bytes + spec_utf8_length(character) <= usize::MAX
    }

    /// Types `character` at cursor `c`: a backspace removes the character
    /// before the cursor, unless it is at the text's start; a delete removes
    /// the character after it, unless it is at or past the text's last byte;
    /// a newline or any character that is not a control character is inserted
    /// there; anything else does nothing. Each edit is recorded in the history's
    /// buffer. Whether anything was typed.
    pub fn type_at_cursor(&mut self, c: usize, character: char) -> (typed: bool)
        requires
            old(self).wf(),
            old(self).can_type_at(c as int, character),
        ensures
            old(self).colors_current() ==> final(self).colors_current(),
            spec_typed_at(*old(self), *final(self), c as int, character, typed),
    {
        let cursor = self.cursors[c];
        let ghost s = self.text@;
        proof {
            assert(spec_cursor_fits(s, self.cursors@[c as int]));
        }
        let total = self.text.as_str().len();
        proof {
            lemma_encode_length(s);
        }
        if character == '\u{8}' && cursor.start.index > 0 {
            proof {
                lemma_left_is_before(s, cursor.start.position);
            }
            let left = self.move_position_left(cursor.start.position, 1, true);
            self.remove(left..cursor.start.position).unwrap();
            true
        } else if character == '\u{7f}' && cursor.start.index < total - 1 {
            proof {
                lemma_right_is_after(s, cursor.start.position);
            }
            let right = self.move_position_right(cursor.start.position, 1, true);
            self.remove(cursor.start.position..right).unwrap();
            true
        } else if !is_control(character) || character == '\n' {
            let typed = string_from_chars(&[character]);
            proof {
                assert(typed@ =~= seq![character]);
                assert(spec_utf8_bytes(seq![character]) == spec_utf8_length(character)) by {
                    assert(seq![character].drop_last() =~= Seq::<char>::empty());
                    assert(seq![character].last() == character);
                    assert(spec_utf8_bytes(Seq::<char>::empty()) == 0);
                }
            }
            self.insert(cursor.start.position, typed.as_str()).unwrap();
            true
        } else {
            false
        }
    }

    /// Types `character` at each cursor in turn, as `type_at_cursor` does.
    /// Whether anything was typed.
    pub fn type_character(&mut self, character: char) -> (typed: bool)
        requires
            old(self).wf(),
            spec_utf8_bytes(old(self).text@) + old(self).cursors@.len() * 4 <= usize::MAX,
            character == '\u{7f}' ==> {
                &&& old(self).text@.len() > 0
                &&& old(self).text@.last() == '\n'
                &&& spec_cursors_within_lines(*old(self))
            },
        ensures
            final(self).wf(),
            old(self).colors_current() ==> final(self).colors_current(),
            final(self).cursors@.len() == old(self).cursors@.len(),
            spec_is_typed_text(character) ==> typed == (old(self).cursors@.len() > 0),
            character != '\u{8}' && character != '\u{7f}' && !spec_is_typed_text(character) ==> !typed
                && *final(self) == *old(self),
            exists|states: Seq<TextEditor>, flags: Seq<bool>| {
                &&& spec_typed_in_turn(states, flags, character)
                &&& flags.len() == old(self).cursors@.len()
                &&& states[0] == *old(self)
                &&& states.last() == *final(self)
                &&& typed == exists|i: int| 0 <= i < flags.len() && #[trigger] flags[i]
            },
    {
        let mut typed = false;
        let mut c: usize = 0;
        let ghost mut states: Seq<TextEditor> = seq![*self];
        let ghost mut flags: Seq<bool> = Seq::empty();
        while c < self.cursors.len()
            invariant
                self.wf(),
                old(self).colors_current() ==> self.colors_current(),
                self.cursors@.len() == old(self).cursors@.len(),
                c <= self.cursors@.len(),
                spec_utf8_bytes(self.text@) + (self.cursors@.len() - c) * 4 <= usize::MAX,
                character == '\u{7f}' ==> {
                    &&& self.text@.len() > 0
                    &&& self.text@.last() == '\n'
                    &&& spec_cursors_within_lines(*self)
                },
                spec_is_typed_text(character) ==> typed == (c > 0),
                character != '\u{8}' && character != '\u{7f}' && !spec_is_typed_text(character) ==> !typed
                    && *self == *old(self),
                spec_typed_in_turn(states, flags, character),
                flags.len() == c,
                states[0] == *old(self),
                states.last() == *self,
                typed == exists|i: int| 0 <= i < flags.len() && #[trigger] flags[i],
            decreases self.cursors@.len() - c,
        {
            let ghost before = *self;
            proof {
                let cursor = self.cursors@[c as int];
                assert(spec_cursor_fits(self.text@, cursor));
                lemma_char_of_position_on_line(self.text@, cursor.start.position);
                lemma_utf8_length_bound(character);
                if character == '\u{7f}' {
                    lemma_line_bounds(self.text@, cursor.start.position.line as int);
                    lemma_line_count(self.text@);
                    lemma_offset_monotone(self.text@, 0, self.text@.len() as int);
                    assert(self.text@.take(self.text@.len() as int) =~= self.text@);
                    assert(self.text@.take(0) =~= Seq::<char>::empty());
                }
            }
            let typed_here = self.type_at_cursor(c, character);
            proof {
                let cursor = before.cursors@[c as int];
                let s = before.text@;
                if character == '\u{7f}' && cursor.start.index < spec_utf8_bytes(s) - 1 {
                    let right = spec_moved_right(s, cursor.start.position, 1, true);
                    lemma_right_is_after(s, cursor.start.position);
                    lemma_delete_keeps_final_newline(s, cursor.start.position);
                    assert(spec_utf8_bytes(Seq::<char>::empty()) == 0);
                    lemma_replace_keeps_cursors_within_lines(before, *self, cursor.start.position, right, Seq::empty());
                }
                let position = cursor.start.position;
                if character == '\u{8}' && cursor.start.index > 0 {
                    lemma_left_is_before(s, position);
                    lemma_char_of_position_on_line(s, spec_moved_left(s, position, 1, true));
                    lemma_bytes_after_replace(s, spec_moved_left(s, position, 1, true), position, Seq::empty());
                } else if character == '\u{7f}' && cursor.start.index < spec_utf8_bytes(s) - 1 {
                    lemma_bytes_after_replace(s, position, spec_moved_right(s, position, 1, true), Seq::empty());
                } else if spec_is_typed_text(character) {
                    lemma_bytes_after_replace(s, position, position, seq![character]);
                    lemma_bytes_of_character(character);
                }
            }
            proof {
                let old_flags = flags;
                states = states.push(*self);
                flags = flags.push(typed_here);
                assert forall|i: int| 0 <= i < flags.len()
                    implies spec_typed_at(#[trigger] states[i], states[i + 1], i, character, flags[i]) by {
                    if i < old_flags.len() {
                        assert(states[i] == states.drop_last()[i]);
                    }
                }
                if typed_here {
                    assert(flags[c as int]);
                }
                if typed {
                    let i = choose|i: int| 0 <= i < old_flags.len() && #[trigger] old_flags[i];
                    assert(flags[i]);
                }
            }
            typed = typed || typed_here;
            c += 1;
        }
        typed
    }
}

/// A character takes at most four bytes.
proof fn lemma_utf8_length_bound(c: char)
    ensures
        1 <= spec_utf8_length(c) <= 4,
{
}

/// A replacement takes the replaced bytes from the text and adds those of
/// what replaces them.
proof fn lemma_bytes_after_replace(s: Seq<char>, start: CharacterPosition, end: CharacterPosition, x: Seq<char>)
    requires
        spec_replace_applies(s, start, end),
    ensures
        ({
            let i = spec_char_of_position(s, start);
            let j = spec_char_of_position(s, end);
            &&& spec_byte_offset(s, i) <= spec_byte_offset(s, j)
            &&& spec_utf8_bytes(spec_replaced(s, start, end, x)) == spec_utf8_bytes(s)
                - (spec_byte_offset(s, j) - spec_byte_offset(s, i)) + spec_utf8_bytes(x)
        }),
{
    let i = spec_char_of_position(s, start);
    let j = spec_char_of_position(s, end);
    lemma_char_of_position_on_line(s, start);
    lemma_char_of_position_on_line(s, end);
    lemma_offsets_after_splice(s, i, j, x, s.len() as int);
    lemma_offset_monotone(s, i, j);
    let after = spec_replaced(s, start, end, x);
    assert(s.take(s.len() as int) =~= s);
    assert(after.take(after.len() as int) =~= after);
}

/// One character takes its own length in bytes.
proof fn lemma_bytes_of_character(c: char)
    ensures
        spec_utf8_bytes(seq![c]) == spec_utf8_length(c),
{
    assert(seq![c].drop_last() =~= Seq::<char>::empty());
    assert(seq![c].last() == c);
    assert(spec_utf8_bytes(Seq::<char>::empty()) == 0);
}

} // verus!
