use vstd::prelude::*;

use crate::interface::text_layout::{
    lemma_encode_concat, lemma_encode_injective, lemma_encode_length, lemma_encode_subrange,
    lemma_first_line_after_splice, lemma_line_after_splice, lemma_line_before_splice, lemma_line_count,
    lemma_line_starts, lemma_line_starts_after_splice, lemma_line_starts_extend, lemma_offset_injective,
    lemma_offset_is_boundary, lemma_offset_monotone, lemma_offset_next, lemma_offset_split,
    lemma_offsets_after_splice, lemma_offsets_in_insertion, spec_byte_offset, spec_is_boundary, spec_line,
    spec_line_end, spec_line_starts, spec_spliced, spec_utf8_bytes, substring, utf8_length,
};
use crate::simulation::text::{chars_of, spec_position_of};
use vstd::std_specs::cmp::PartialEqSpecImpl;
use vstd::utf8::{encode_utf8, is_char_boundary};

verus! {

/// Should represent a byte offset immediately after a newline
#[derive(Clone, Debug)]
pub struct Line {
    pub byte_offset: usize,
    pub colors: Vec<LineSegmentColor>,
}

/// Represents that characters on and after `relative_offset` (relative to the start
/// of the line) should be colored with `color_choice`
#[derive(Clone, Copy, Debug)]
pub struct LineSegmentColor {
    pub relative_offset: usize,
    pub color_choice: ColorChoice,
}

#[derive(Clone, Copy, Debug)]
pub enum ColorChoice {
    Default,
    Comment,
}

impl Default for ColorChoice {
    fn default() -> (result: Self)
        ensures
            result is Default,
    {
        ColorChoice::Default
    }
}

/// The colors of a line: from its first `;` on, it is a comment.
pub open spec fn spec_comment_colors(line: Seq<char>) -> Seq<LineSegmentColor> {
    let comment = spec_position_of(line, ';');
    if comment < line.len() {
        seq![
            LineSegmentColor {
                relative_offset: spec_utf8_bytes(line.take(comment as int)) as usize,
                color_choice: ColorChoice::Comment,
            },
        ]
    } else {
        Seq::empty()
    }
}

impl Line {
    pub fn from_byte_offset(byte_offset: usize) -> (result: Self)
        ensures
            result.byte_offset == byte_offset,
            result.colors@.len() == 0,
    {
        Self { byte_offset, colors: Vec::new() }
    }

    /// Colors the line's comment, if it has one: from the first `;` on, the
    /// line is a comment.
    pub fn update_colors_from(&mut self, line_contents: &str)
        requires
            spec_utf8_bytes(line_contents@) <= usize::MAX,
        ensures
            final(self).byte_offset == old(self).byte_offset,
            final(self).colors@ == spec_comment_colors(line_contents@),
    {
        self.colors.clear();

        let characters = chars_of(line_contents);
        let mut offset_of_comment: usize = 0;
        let mut i: usize = 0;
        proof {
            assert(characters@.take(0) =~= Seq::<char>::empty());
            lemma_utf8_bytes_prefix(characters@, characters@.len() as int);
        }
        while i < characters.len() && characters[i] != ';'
            invariant
                i <= characters@.len(),
                characters@ == line_contents@,
                spec_utf8_bytes(characters@) <= usize::MAX,
                offset_of_comment == spec_utf8_bytes(characters@.take(i as int)),
                forall|j: int| 0 <= j < i ==> characters@[j] != ';',
            decreases characters@.len() - i,
        {
            proof {
                assert(characters@.take(i + 1).drop_last() =~= characters@.take(i as int));
                lemma_utf8_bytes_prefix(characters@, i + 1);
            }
            offset_of_comment = offset_of_comment + utf8_length(characters[i]);
            i += 1;
        }
        proof {
            lemma_position_is_first(characters@, ';', i as int);
        }

        if i < characters.len() {
            self.colors.push(
                LineSegmentColor { relative_offset: offset_of_comment, color_choice: ColorChoice::Comment },
            );
        }
    }
}

/// A beginning of a string takes no more bytes than the whole.
proof fn lemma_utf8_bytes_prefix(s: Seq<char>, n: int)
    requires
        0 <= n <= s.len(),
    ensures
        spec_utf8_bytes(s.take(n)) <= spec_utf8_bytes(s),
    decreases s.len(),
{
    if n < s.len() {
        assert(s.take(n) =~= s.drop_last().take(n));
        lemma_utf8_bytes_prefix(s.drop_last(), n);
    } else {
        assert(s.take(n) =~= s);
    }
}

/// The first `target` is at `position` when none comes before it and it is
/// there (or `position` is the end).
proof fn lemma_position_is_first(s: Seq<char>, target: char, position: int)
    requires
        0 <= position <= s.len(),
        forall|j: int| 0 <= j < position ==> s[j] != target,
        position == s.len() || s[position] == target,
    ensures
        spec_position_of(s, target) == position,
    decreases position,
{
    if position > 0 {
        assert forall|j: int| 0 <= j < position - 1 implies s.drop_first()[j] != target by {
            assert(s.drop_first()[j] == s[j + 1]);
        }
        if position < s.len() {
            assert(s.drop_first()[position - 1] == s[position]);
        }
        lemma_position_is_first(s.drop_first(), target, position - 1);
    } else if s.len() > 0 {
        assert(s[0] == target);
    }
}

#[derive(Clone, Copy, Debug, PartialEq, Eq, Structural, Default)]
pub struct CharacterPosition {
    pub line: usize,
    pub column: usize,
}

#[derive(Clone, Copy, Debug, Default, Eq)]
pub struct Cursor {
    pub start: CursorLocation,
    pub end: Option<CursorLocation>,
}

#[derive(Clone, Copy, Debug, Default, Eq)]
pub struct CursorLocation {
    pub position: CharacterPosition,
    pub index: usize,
}

/// Two locations are the same where they are at the same byte.
impl PartialEq for CursorLocation {
    fn eq(&self, other: &Self) -> (result: bool) {
        self.index == other.index
    }
}

impl PartialEqSpecImpl for CursorLocation {
    open spec fn obeys_eq_spec() -> bool {
        true
    }

    open spec fn eq_spec(&self, other: &Self) -> bool {
        self.index == other.index
    }
}

/// Two cursors are the same where they start at the same location.
impl PartialEq for Cursor {
    fn eq(&self, other: &Self) -> (result: bool) {
        self.start == other.start
    }
}

impl PartialEqSpecImpl for Cursor {
    open spec fn obeys_eq_spec() -> bool {
        true
    }

    open spec fn eq_spec(&self, other: &Self) -> bool {
        self.start.index == other.start.index
    }
}

impl Cursor {
    /// The selection as a range from its lower end to its upper end, by index.
    pub open spec fn spec_bounds(self) -> (CursorLocation, CursorLocation) {
        match self.end {
            Some(end) => if end.index > self.start.index {
                (self.start, end)
            } else {
                (end, self.start)
            },
            None => (self.start, self.start),
        }
    }

    pub fn range(&self) -> (result: core::ops::Range<CursorLocation>)
        ensures
            (result.start, result.end) == self.spec_bounds(),
    {
        if let Some(end) = self.end {
            if end.index > self.start.index {
                self.start..end
            } else {
                end..self.start
            }
        } else {
            self.start..self.start
        }
    }

    pub fn position_range(&self) -> (result: core::ops::Range<CharacterPosition>)
        ensures
            result.start == self.spec_bounds().0.position,
            result.end == self.spec_bounds().1.position,
    {
        if let Some(end) = self.end {
            if end.index > self.start.index {
                self.start.position..end.position
            } else {
                end.position..self.start.position
            }
        } else {
            self.start.position..self.start.position
        }
    }

    pub fn index_range(&self) -> (result: core::ops::Range<usize>)
        ensures
            result.start == self.spec_bounds().0.index,
            result.end == self.spec_bounds().1.index,
            result.start <= result.end,
    {
        if let Some(end) = self.end {
            if end.index > self.start.index {
                self.start.index..end.index
            } else {
                end.index..self.start.index
            }
        } else {
            self.start.index..self.start.index
        }
    }
}

#[derive(Clone, Debug)]
pub struct Edit {
    pub start: usize,
    pub inserted: String,
    pub replaced: String,
}

/// An edit, with its text as characters.
pub struct EditView {
    pub start: usize,
    pub inserted: Seq<char>,
    pub replaced: Seq<char>,
}

impl View for Edit {
    type V = EditView;

    open spec fn view(&self) -> EditView {
        EditView { start: self.start, inserted: self.inserted@, replaced: self.replaced@ }
    }
}

#[derive(Clone, Debug)]
pub struct EditGroup {
    pub edits: Vec<Edit>,
}

impl View for EditGroup {
    type V = Seq<EditView>;

    open spec fn view(&self) -> Seq<EditView> {
        spec_edit_views(self.edits@)
    }
}

impl Edit {
    /// A copy of the edit.
    pub fn copy(&self) -> (result: Edit)
        ensures
            result@ == self@,
    {
        Edit { start: self.start, inserted: self.inserted.clone(), replaced: self.replaced.clone() }
    }
}

impl EditGroup {
    /// A copy of the group.
    pub fn copy(&self) -> (result: EditGroup)
        ensures
            result@ == self@,
    {
        let mut edits: Vec<Edit> = Vec::new();
        let mut i: usize = 0;
        while i < self.edits.len()
            invariant
                i <= self.edits@.len(),
                edits@.len() == i,
                spec_edit_views(edits@) == self@.take(i as int),
            decreases self.edits@.len() - i,
        {
            let edit = self.edits[i].copy();
            proof {
                assert(self@[i as int] == self.edits@[i as int]@);
                assert forall|j: int| 0 <= j < i + 1 implies #[trigger] spec_edit_views(edits@.push(edit))[j]
                    == self@.take(i + 1)[j] by {
                    let pushed = edits@.push(edit);
                    assert(spec_edit_views(pushed)[j] == pushed[j]@);
                    if j < i {
                        assert(pushed[j] == edits@[j]);
                        assert(spec_edit_views(edits@)[j] == edits@[j]@);
                        assert(spec_edit_views(edits@)[j] == self@.take(i as int)[j]);
                    }
                }
                assert(spec_edit_views(edits@.push(edit)) =~= self@.take(i + 1));
            }
            edits.push(edit);
            i += 1;
        }
        proof {
            assert(self@.take(i as int) =~= self@);
        }
        EditGroup { edits }
    }
}

#[derive(Clone, Debug, Default)]
pub struct EditHistory {
    pub buffer: Vec<Edit>,
    entries: Vec<EditGroup>,
    next_entry: usize,
    group_next_edit: bool,
}

/// An edit history, as mathematical values.
pub struct EditHistoryView {
    pub buffer: Seq<EditView>,
    pub entries: Seq<Seq<EditView>>,
    pub next_entry: int,
    pub group_next_edit: bool,
}

/// The views of a list of edits.
pub open spec fn spec_edit_views(edits: Seq<Edit>) -> Seq<EditView> {
    edits.map_values(|edit: Edit| edit@)
}

impl EditHistory {
    /// The history: the edits waiting to be recorded, the recorded groups, the
    /// group that a redo would bring back next, and whether the next edit
    /// joins the group before it.
    pub closed spec fn spec_view(&self) -> EditHistoryView {
        EditHistoryView {
            buffer: spec_edit_views(self.buffer@),
            entries: self.entries@.map_values(|group: EditGroup| group@),
            next_entry: self.next_entry as int,
            group_next_edit: self.group_next_edit,
        }
    }

    /// The history's positions are consistent: the next entry is at most one
    /// past the recorded groups, and within them while a group is open.
    pub open spec fn wf(&self) -> bool {
        spec_history_wf(self.spec_view())
    }

    /// The view of an empty history.
    pub open spec fn new_view() -> EditHistoryView {
        EditHistoryView { buffer: Seq::empty(), entries: Seq::empty(), next_entry: 0, group_next_edit: false }
    }

    /// An empty history.
    pub fn new() -> (result: Self)
        ensures
            result.spec_view() == Self::new_view(),
            result.wf(),
    {
        let result = EditHistory { buffer: Vec::new(), entries: Vec::new(), next_entry: 0, group_next_edit: false };
        proof {
            assert(result.spec_view().buffer =~= Seq::<EditView>::empty());
            assert(result.spec_view().entries =~= Seq::<Seq<EditView>>::empty());
        }
        result
    }

    /// Records the buffered edits: into the open group, or as a new group that
    /// replaces every group after the current one.
    pub fn insert_buffered_edits(&mut self)
        requires
            old(self).wf(),
        ensures
            final(self).wf(),
            final(self).spec_view() == spec_after_buffered(old(self).spec_view()),
    {
        if self.buffer.len() == 0 {
            return;
        }

        let mut buffer: Vec<Edit> = Vec::new();
        std::mem::swap(&mut buffer, &mut self.buffer);

        if self.group_next_edit {
            let mut group = EditGroup { edits: Vec::new() };
            std::mem::swap(&mut group, &mut self.entries[self.next_entry]);
            let ghost before = group@;
            group.edits.append(&mut buffer);
            proof {
                assert(group@ =~= before + spec_edit_views(old(self).buffer@));
            }
            std::mem::swap(&mut group, &mut self.entries[self.next_entry]);
        } else {
            self.entries.truncate(self.next_entry);
            self.entries.push(EditGroup { edits: buffer });
            self.group_next_edit = true;
        }
        proof {
            assert(self.spec_view().buffer =~= Seq::<EditView>::empty());
            assert(self.spec_view().entries =~= spec_after_buffered(old(self).spec_view()).entries);
        }
    }

    /// Records an edit that changes anything: into the open group, or as a new
    /// group that replaces every group after the current one.
    pub fn insert_edit(&mut self, edit: Edit)
        requires
            old(self).wf(),
        ensures
            final(self).wf(),
            final(self).spec_view() == spec_after_edit(old(self).spec_view(), edit@),
    {
        let replaced_empty = chars_of(edit.replaced.as_str()).len() == 0;
        let inserted_empty = chars_of(edit.inserted.as_str()).len() == 0;
        if replaced_empty && inserted_empty {
            return;
        }

        let ghost edit_view = edit@;
        if self.group_next_edit {
            let mut group = EditGroup { edits: Vec::new() };
            std::mem::swap(&mut group, &mut self.entries[self.next_entry]);
            let ghost before = group@;
            group.edits.push(edit);
            proof {
                assert(group@ =~= before.push(edit_view));
                assert(before.push(edit_view) =~= before + seq![edit_view]);
            }
            std::mem::swap(&mut group, &mut self.entries[self.next_entry]);
            proof {
                assert(self.spec_view().entries =~= old(self).spec_view().entries.update(
                    self.next_entry as int,
                    old(self).spec_view().entries[self.next_entry as int] + seq![edit_view],
                ));
            }
        } else {
            self.entries.truncate(self.next_entry);
            let mut edits: Vec<Edit> = Vec::new();
            edits.push(edit);
            let group = EditGroup { edits };
            proof {
                assert(group@ =~= seq![edit_view]);
            }
            self.entries.push(group);
            self.group_next_edit = true;
            proof {
                assert(self.spec_view().entries =~= old(self).spec_view().entries.take(
                    old(self).next_entry as int,
                ).push(seq![edit_view]));
            }
        }
        proof {
            assert(self.spec_view().buffer =~= old(self).spec_view().buffer);
        }
    }

    /// Closes the open group, so the next edit starts a new one.
    pub fn finish_edit_group(&mut self)
        requires
            old(self).wf(),
        ensures
            final(self).wf(),
            final(self).spec_view() == spec_finished(old(self).spec_view()),
    {
        if self.group_next_edit {
            let recorded = self.entries.len();
            assert(recorded == self.spec_view().entries.len());
            self.group_next_edit = false;
            self.next_entry += 1;
        }
    }

    /// Steps back over the last group, returning it to be undone.
    pub fn undo(&mut self) -> (result: Option<EditGroup>)
        requires
            old(self).wf(),
        ensures
            final(self).wf(),
            final(self).spec_view() == spec_undo(old(self).spec_view()).0,
            match result {
                Some(group) => spec_undo(old(self).spec_view()).1 == Some(group@),
                None => spec_undo(old(self).spec_view()).1 is None,
            },
    {
        self.finish_edit_group();

        if self.next_entry > 0 {
            self.next_entry -= 1;
            Some(self.entries[self.next_entry].copy())
        } else {
            None
        }
    }

    /// Steps forward over the next group, returning it to be redone.
    pub fn redo(&mut self) -> (result: Option<EditGroup>)
        requires
            old(self).wf(),
        ensures
            final(self).wf(),
            final(self).spec_view() == spec_redo(old(self).spec_view()).0,
            match result {
                Some(group) => spec_redo(old(self).spec_view()).1 == Some(group@),
                None => spec_redo(old(self).spec_view()).1 is None,
            },
    {
        self.finish_edit_group();

        if self.next_entry < self.entries.len() {
            let entry = self.entries[self.next_entry].copy();
            self.next_entry += 1;
            Some(entry)
        } else {
            None
        }
    }
}

/// The history with its open group closed.
pub open spec fn spec_finished(history: EditHistoryView) -> EditHistoryView {
    if history.group_next_edit {
        EditHistoryView { group_next_edit: false, next_entry: history.next_entry + 1, ..history }
    } else {
        history
    }
}

/// What undoing does to the history: it closes the open group and steps back
/// over the last group before the current place, which it gives back.
pub open spec fn spec_undo(history: EditHistoryView) -> (EditHistoryView, Option<Seq<EditView>>) {
    let finished = spec_finished(history);
    if finished.next_entry > 0 {
        (
            EditHistoryView { next_entry: finished.next_entry - 1, ..finished },
            Some(finished.entries[finished.next_entry - 1]),
        )
    } else {
        (finished, None)
    }
}

/// What redoing does to the history: it closes the open group and steps
/// forward over the group at the current place, which it gives back.
pub open spec fn spec_redo(history: EditHistoryView) -> (EditHistoryView, Option<Seq<EditView>>) {
    let finished = spec_finished(history);
    if finished.next_entry < finished.entries.len() {
        (
            EditHistoryView { next_entry: finished.next_entry + 1, ..finished },
            Some(finished.entries[finished.next_entry]),
        )
    } else {
        (finished, None)
    }
}

/// Whether a history view is consistent: the place is at most one past the
/// recorded groups, and within them while a group is open.
pub open spec fn spec_history_wf(history: EditHistoryView) -> bool {
    &&& 0 <= history.next_entry <= history.entries.len()
    &&& history.group_next_edit ==> history.next_entry < history.entries.len()
}

/// Redoing what was just undone gives back the same group and returns the
/// history to where the undo left from, with its open group closed.
pub proof fn lemma_redo_after_undo(history: EditHistoryView)
    requires
        spec_history_wf(history),
        spec_undo(history).1 is Some,
    ensures
        spec_redo(spec_undo(history).0) == (spec_finished(history), spec_undo(history).1),
{
}

/// Undoing what was just redone gives back the same group and returns the
/// history to where the redo left from, with its open group closed.
pub proof fn lemma_undo_after_redo(history: EditHistoryView)
    requires
        spec_history_wf(history),
        spec_redo(history).1 is Some,
    ensures
        spec_undo(spec_redo(history).0) == (spec_finished(history), spec_redo(history).1),
{
}

/// The history with `edits` recorded: added to the open group, or as a new
/// group after the current one, dropping the groups after it.
pub open spec fn spec_record(history: EditHistoryView, edits: Seq<EditView>) -> EditHistoryView {
    if history.group_next_edit {
        EditHistoryView {
            entries: history.entries.update(history.next_entry, history.entries[history.next_entry] + edits),
            ..history
        }
    } else {
        EditHistoryView {
            entries: history.entries.take(history.next_entry).push(edits),
            group_next_edit: true,
            ..history
        }
    }
}

/// The history after recording its buffered edits, if there are any.
pub open spec fn spec_after_buffered(history: EditHistoryView) -> EditHistoryView {
    if history.buffer.len() == 0 {
        history
    } else {
        EditHistoryView { buffer: Seq::empty(), ..spec_record(history, history.buffer) }
    }
}

/// The history after recording `edit`, if it changes anything.
pub open spec fn spec_after_edit(history: EditHistoryView, edit: EditView) -> EditHistoryView {
    if edit.replaced.len() == 0 && edit.inserted.len() == 0 {
        history
    } else {
        spec_record(history, seq![edit])
    }
}

/// A text being edited: the text, where its lines begin and how they are
/// colored, the cursors in it, and the history of its edits.
#[derive(Clone, Debug)]
pub struct TextEditor {
    pub text: String,
    pub lines: Vec<Line>,
    pub cursors: Vec<Cursor>,
    pub history: EditHistory,
}

/// Whether `location` agrees with `s`: its index is where its position is.
pub open spec fn spec_location_fits(s: Seq<char>, location: CursorLocation) -> bool {
    spec_index_of_position(s, location.position) == Some(location.index as int)
}

/// Whether both ends of `cursor` agree with `s`.
pub open spec fn spec_cursor_fits(s: Seq<char>, cursor: Cursor) -> bool {
    &&& spec_location_fits(s, cursor.start)
    &&& (cursor.end matches Some(end) ==> spec_location_fits(s, end))
}

/// The character that `position` stands for in `s`: a column past the end of
/// its line stands for the line's end.
pub open spec fn spec_char_of_position(s: Seq<char>, position: CharacterPosition) -> int {
    let length = spec_line(s, position.line as int).len();
    let column = if position.column < length { position.column as int } else { length as int };
    spec_line_starts(s)[position.line as int] + column
}

/// Where `position` is in `s`, as a byte index: a column past the end of its
/// line stands for the line's end. `None` where there is no such line.
pub open spec fn spec_index_of_position(s: Seq<char>, position: CharacterPosition) -> Option<int> {
    if position.line < spec_line_starts(s).len() {
        Some(spec_byte_offset(s, spec_char_of_position(s, position)) as int)
    } else {
        None
    }
}

/// Whether a replacement from `start` to `end` in `s` goes ahead: both are on
/// lines of the text, and neither the end's line nor its character comes
/// before the start's.
pub open spec fn spec_replace_applies(s: Seq<char>, start: CharacterPosition, end: CharacterPosition) -> bool {
    &&& start.line < spec_line_starts(s).len()
    &&& end.line < spec_line_starts(s).len()
    &&& start.line <= end.line
    &&& spec_char_of_position(s, start) <= spec_char_of_position(s, end)
}

/// `s` with the characters from `start` to `end` replaced by `x`.
pub open spec fn spec_replaced(s: Seq<char>, start: CharacterPosition, end: CharacterPosition, x: Seq<char>) -> Seq<char> {
    spec_spliced(s, spec_char_of_position(s, start), spec_char_of_position(s, end), x)
}

/// How many newlines `x` holds.
pub open spec fn spec_added_lines(x: Seq<char>) -> int {
    spec_line_starts(x).len() - 1
}

/// Where a byte index goes when bytes `from..to` are replaced by `inserted`
/// bytes: before them it stays, within them it goes to the insertion's end,
/// after them it moves with the text.
pub open spec fn spec_index_after_replace(index: int, from: int, to: int, inserted: int) -> int {
    if index < from {
        index
    } else if index < to {
        from + inserted
    } else {
        index - (to - from) + inserted
    }
}

/// Whether `updated` is where `location` goes when the text from `start` to
/// `end` of `s` is replaced by `x`: its index moves with the text; from the
/// replacement's start on, its position is that of its new index where it was
/// on a line up to the replacement's end, and is moved down by the change in
/// lines where it was on a later line.
pub open spec fn spec_location_after_replace(
    location: CursorLocation,
    updated: CursorLocation,
    s: Seq<char>,
    start: CharacterPosition,
    end: CharacterPosition,
    x: Seq<char>,
) -> bool {
    let from = spec_byte_offset(s, spec_char_of_position(s, start)) as int;
    let to = spec_byte_offset(s, spec_char_of_position(s, end)) as int;
    let after = spec_replaced(s, start, end, x);
    &&& updated.index == spec_index_after_replace(location.index as int, from, to, spec_utf8_bytes(x) as int)
    &&& if location.index < from {
        updated.position == location.position
    } else if location.position.line <= end.line {
        forall|k: int| 0 <= k <= after.len() && #[trigger] spec_byte_offset(after, k) == updated.index
            ==> spec_is_position_of(after, k, updated.position)
    } else {
        updated.position == CharacterPosition {
            line: (location.position.line + spec_added_lines(x) - (end.line - start.line)) as usize,
            column: location.position.column,
        }
    }
}

/// Whether `updated` is where `cursor` goes when the text from `start` to
/// `end` of `s` is replaced by `x`: each of its locations goes along.
pub open spec fn spec_cursor_after_replace(
    cursor: Cursor,
    updated: Cursor,
    s: Seq<char>,
    start: CharacterPosition,
    end: CharacterPosition,
    x: Seq<char>,
) -> bool {
    &&& spec_location_after_replace(cursor.start, updated.start, s, start, end, x)
    &&& match cursor.end {
        None => updated.end is None,
        Some(location) => updated.end matches Some(moved) && spec_location_after_replace(
            location,
            moved,
            s,
            start,
            end,
            x,
        ),
    }
}

/// Replaces bytes `start..end` of `text` with `replacement`.
///
/// Trusted: calls std's `String::replace_range`, which std documents as
/// removing the given byte range and putting the replacement in its place, and
/// as panicking unless both ends lie on character boundaries within the
/// string, in order. The contract requires exactly that, and claims that the
/// new text encodes as the bytes before the range, the replacement's bytes and
/// the bytes after the range.
#[verifier::external_body]
fn replace_byte_range(text: &mut String, start: usize, end: usize, replacement: &str)
    requires
        start <= end <= encode_utf8(old(text)@).len(),
        is_char_boundary(encode_utf8(old(text)@), start as int),
        is_char_boundary(encode_utf8(old(text)@), end as int),
    ensures
        encode_utf8(final(text)@) == encode_utf8(old(text)@).subrange(0, start as int) + encode_utf8(replacement@)
            + encode_utf8(old(text)@).subrange(end as int, encode_utf8(old(text)@).len() as int),
{
    text.replace_range(start..end, replacement);
}

impl TextEditor {
    /// The text is laid out: it fits in memory, and the editor's lines begin
    /// where the text's lines begin.
    pub open spec fn layout_wf(&self) -> bool {
        let s = self.text@;
        let starts = spec_line_starts(s);
        &&& spec_utf8_bytes(s) <= usize::MAX
        &&& self.lines@.len() == starts.len()
        &&& forall|j: int| 0 <= j < starts.len() ==> #[trigger] self.lines@[j].byte_offset == spec_byte_offset(s, starts[j])
    }

    /// The editor is consistent: its text is laid out, its cursors are at
    /// characters, and its history is consistent.
    pub open spec fn wf(&self) -> bool {
        &&& self.layout_wf()
        &&& forall|c: int| 0 <= c < self.cursors@.len() ==> spec_cursor_fits(self.text@, #[trigger] self.cursors@[c])
        &&& self.history.wf()
    }

    /// Every line is colored as its contents say.
    pub open spec fn colors_current(&self) -> bool {
        forall|j: int| 0 <= j < self.lines@.len()
            ==> #[trigger] self.lines@[j].colors@ == spec_comment_colors(spec_line(self.text@, j))
    }

    /// An editor for `text`, with one cursor at its start and no history.
    pub fn new(text: String) -> (result: Self)
        requires
            spec_utf8_bytes(text@) <= usize::MAX,
        ensures
            result.wf(),
            result.colors_current(),
            result.text@ == text@,
            result.cursors@ == seq![
                Cursor {
                    start: CursorLocation { position: CharacterPosition { line: 0, column: 0 }, index: 0 },
                    end: None,
                },
            ],
            result.history.spec_view() == EditHistory::new_view(),
    {
        let lines = Self::line_indecies_from(text.as_str());
        let mut cursors: Vec<Cursor> = Vec::new();
        cursors.push(
            Cursor {
                start: CursorLocation { position: CharacterPosition { line: 0, column: 0 }, index: 0 },
                end: None,
            },
        );
        let history = EditHistory::new();
        let mut result = TextEditor { text, lines, cursors, history };
        proof {
            lemma_line_starts(result.text@);
            assert(result.text@.take(0) =~= Seq::<char>::empty());
            assert(spec_byte_offset(result.text@, 0) == 0);
            assert(spec_char_of_position(result.text@, CharacterPosition { line: 0, column: 0 }) == 0);
        }
        result.update_colors_of_all_lines();
        result
    }

    /// The lines of `text`: one at its start and one after every newline, each
    /// without colors.
    pub fn line_indecies_from(text: &str) -> (result: Vec<Line>)
        requires
            spec_utf8_bytes(text@) <= usize::MAX,
        ensures
            result@.len() == spec_line_starts(text@).len(),
            forall|j: int| 0 <= j < result@.len() ==> {
                &&& #[trigger] result@[j].byte_offset == spec_byte_offset(text@, spec_line_starts(text@)[j])
                &&& result@[j].colors@.len() == 0
            },
    {
        let characters = chars_of(text);
        let ghost s = text@;
        let mut lines: Vec<Line> = Vec::new();
        lines.push(Line::from_byte_offset(0));
        let mut offset: usize = 0;
        let mut i: usize = 0;
        proof {
            assert(s.take(0) =~= Seq::<char>::empty());
        }
        while i < characters.len()
            invariant
                characters@ == s,
                i <= s.len(),
                spec_utf8_bytes(s) <= usize::MAX,
                offset == spec_byte_offset(s, i as int),
                lines@.len() == spec_line_starts(s.take(i as int)).len(),
                forall|j: int| 0 <= j < lines@.len() ==> {
                    &&& #[trigger] lines@[j].byte_offset == spec_byte_offset(s, spec_line_starts(s.take(i as int))[j])
                    &&& lines@[j].colors@.len() == 0
                },
            decreases s.len() - i,
        {
            proof {
                lemma_line_starts_extend(s, i as int);
                lemma_offset_next(s, i as int);
                lemma_offset_is_boundary(s, i + 1);
            }
            let c = characters[i];
            offset = offset + utf8_length(c);
            if c == '\n' {
                lines.push(Line::from_byte_offset(offset));
            }
            i += 1;
        }
        proof {
            assert(s.take(s.len() as int) =~= s);
        }
        lines
    }

    /// How many lines the text has before its final one.
    pub fn num_lines(&self) -> (result: usize)
        requires
            self.lines@.len() >= 1,
        ensures
            result == self.lines@.len() - 1,
    {
        self.lines.len() - 1
    }

    /// Colors every line as its contents say.
    pub fn update_colors_of_all_lines(&mut self)
        requires
            old(self).wf(),
        ensures
            final(self).wf(),
            final(self).colors_current(),
            final(self).text@ == old(self).text@,
            final(self).cursors@ == old(self).cursors@,
            final(self).history == old(self).history,
            final(self).lines@.len() == old(self).lines@.len(),
            forall|j: int| 0 <= j < old(self).lines@.len()
                ==> (#[trigger] final(self).lines@[j]).byte_offset == old(self).lines@[j].byte_offset,
    {
        let mut i: usize = 0;
        while i < self.lines.len()
            invariant
                self.wf(),
                self.text@ == old(self).text@,
                self.cursors@ == old(self).cursors@,
                self.history == old(self).history,
                self.lines@.len() == old(self).lines@.len(),
                forall|j: int| 0 <= j < old(self).lines@.len()
                    ==> (#[trigger] self.lines@[j]).byte_offset == old(self).lines@[j].byte_offset,
                forall|j: int| 0 <= j < i
                    ==> #[trigger] self.lines@[j].colors@ == spec_comment_colors(spec_line(self.text@, j)),
            decreases self.lines@.len() - i,
        {
            self.update_colors_of_line(i).unwrap();
            i += 1;
        }
    }

    /// Colors line `index` as its contents say; `None` where there is no such line.
    pub fn update_colors_of_line(&mut self, index: usize) -> (result: Option<()>)
        requires
            old(self).layout_wf(),
        ensures
            final(self).layout_wf(),
            result is Some <==> index < old(self).lines@.len(),
            final(self).text == old(self).text,
            final(self).cursors == old(self).cursors,
            final(self).history == old(self).history,
            final(self).lines@.len() == old(self).lines@.len(),
            forall|j: int| 0 <= j < old(self).lines@.len() && j != index
                ==> #[trigger] final(self).lines@[j] == old(self).lines@[j],
            index < old(self).lines@.len() ==> {
                &&& final(self).lines@[index as int].byte_offset == old(self).lines@[index as int].byte_offset
                &&& final(self).lines@[index as int].colors@ == spec_comment_colors(spec_line(old(self).text@, index as int))
            },
    {
        match self.byte_range_of_line(index) {
            None => None,
            Some(range) => {
                let ghost s = self.text@;
                let ghost starts = spec_line_starts(s);
                proof {
                    lemma_line_starts(s);
                    lemma_offset_split(s, starts[index as int], spec_line_end(s, index as int));
                    lemma_offset_is_boundary(s, spec_line_end(s, index as int));
                }
                let line = substring(
                    self.text.as_str(),
                    range.start,
                    range.end,
                    Ghost(starts[index as int]),
                    Ghost(spec_line_end(s, index as int)),
                );
                self.lines[index].update_colors_from(line);
                Some(())
            },
        }
    }

    /// The bytes of line `index`, without its newline; `None` where there is
    /// no such line.
    pub fn byte_range_of_line(&self, index: usize) -> (result: Option<core::ops::Range<usize>>)
        requires
            self.layout_wf(),
        ensures
            match result {
                None => index >= self.lines@.len(),
                Some(range) => {
                    &&& index < self.lines@.len()
                    &&& range.start == spec_byte_offset(self.text@, spec_line_starts(self.text@)[index as int])
                    &&& range.end == spec_byte_offset(self.text@, spec_line_end(self.text@, index as int))
                },
            },
    {
        if index >= self.lines.len() {
            return None;
        }
        let ghost s = self.text@;
        let ghost starts = spec_line_starts(s);
        proof {
            lemma_line_starts(s);
        }
        let start = self.lines[index].byte_offset;
        if index + 1 < self.lines.len() {
            let end = self.lines[index + 1].byte_offset;
            proof {
                let k = starts[index + 1];
                assert(starts[0] < k);
                assert(s[k - 1] == '\n');
                lemma_offset_next(s, k - 1);
            }
            Some(start..end - 1)
        } else {
            let total = self.text.as_str().len();
            proof {
                lemma_encode_length(s);
                assert(s.take(s.len() as int) =~= s);
            }
            Some(start..total)
        }
    }

    /// Line `index`, without its newline; `None` where there is no such line.
    pub fn get_line(&self, index: usize) -> (result: Option<&str>)
        requires
            self.layout_wf(),
        ensures
            match result {
                None => index >= self.lines@.len(),
                Some(line) => index < self.lines@.len() && line@ == spec_line(self.text@, index as int),
            },
    {
        match self.byte_range_of_line(index) {
            None => None,
            Some(range) => {
                let ghost s = self.text@;
                let ghost starts = spec_line_starts(s);
                proof {
                    lemma_line_starts(s);
                }
                Some(
                    substring(
                        self.text.as_str(),
                        range.start,
                        range.end,
                        Ghost(starts[index as int]),
                        Ghost(spec_line_end(s, index as int)),
                    ),
                )
            },
        }
    }

    /// How many characters line `line` has; `None` where there is no such line.
    pub fn length_of_line(&self, line: usize) -> (result: Option<usize>)
        requires
            self.layout_wf(),
        ensures
            result == if line < self.lines@.len() {
                Some(spec_line(self.text@, line as int).len() as usize)
            } else {
                None::<usize>
            },
    {
        match self.get_line(line) {
            Some(contents) => Some(chars_of(contents).len()),
            None => None,
        }
    }

    /// How many columns line `index` has; `None` where there is no such line.
    pub fn columns_in_line(&self, index: usize) -> (result: Option<usize>)
        requires
            self.layout_wf(),
        ensures
            result == if index < self.lines@.len() {
                Some(spec_line(self.text@, index as int).len() as usize)
            } else {
                None::<usize>
            },
    {
        match self.get_line(index) {
            Some(contents) => Some(chars_of(contents).len()),
            None => None,
        }
    }

    /// The character at `position`; `None` where there is none.
    pub fn get_character(&self, position: CharacterPosition) -> (result: Option<char>)
        requires
            self.layout_wf(),
        ensures
            result == if position.line < self.lines@.len()
                && position.column < spec_line(self.text@, position.line as int).len() {
                Some(spec_line(self.text@, position.line as int)[position.column as int])
            } else {
                None::<char>
            },
    {
        match self.get_line(position.line) {
            Some(contents) => {
                let characters = chars_of(contents);
                if position.column < characters.len() {
                    Some(characters[position.column])
                } else {
                    None
                }
            },
            None => None,
        }
    }

    /// Where `position` is, as a byte index into the text.
    pub fn index_of_position(&self, position: CharacterPosition) -> (result: Option<usize>)
        requires
            self.layout_wf(),
        ensures
            match result {
                None => spec_index_of_position(self.text@, position) is None,
                Some(index) => spec_index_of_position(self.text@, position) == Some(index as int),
            },
    {
        match self.byte_range_of_line(position.line) {
            None => None,
            Some(range) => {
                let ghost s = self.text@;
                let ghost starts = spec_line_starts(s);
                let ghost first = starts[position.line as int];
                proof {
                    lemma_line_starts(s);
                }
                let contents = substring(
                    self.text.as_str(),
                    range.start,
                    range.end,
                    Ghost(first),
                    Ghost(spec_line_end(s, position.line as int)),
                );
                let characters = chars_of(contents);
                let mut bytes: usize = 0;
                let mut i: usize = 0;
                proof {
                    assert(characters@.take(0) =~= Seq::<char>::empty());
                }
                while i < characters.len() && i < position.column
                    invariant
                        characters@ == s.subrange(first, spec_line_end(s, position.line as int)),
                        0 <= first <= spec_line_end(s, position.line as int) <= s.len(),
                        i <= characters@.len(),
                        i <= position.column,
                        range.start == spec_byte_offset(s, first),
                        spec_utf8_bytes(s) <= usize::MAX,
                        bytes == spec_utf8_bytes(characters@.take(i as int)),
                    decreases characters@.len() - i,
                {
                    proof {
                        assert(characters@.take(i + 1).drop_last() =~= characters@.take(i as int));
                        assert(s.subrange(first, first + i + 1) =~= characters@.take(i + 1));
                        lemma_offset_split(s, first, first + i + 1);
                        lemma_offset_is_boundary(s, first + i + 1);
                    }
                    bytes = bytes + utf8_length(characters[i]);
                    i += 1;
                }
                proof {
                    assert(s.subrange(first, first + i) =~= characters@.take(i as int));
                    lemma_offset_split(s, first, first + i);
                    lemma_offset_is_boundary(s, first + i);
                }
                Some(range.start + bytes)
            },
        }
    }

    /// The position of byte `index`: `None` past the end of the text. The byte
    /// must begin a character (or be the end); elsewhere the position is not
    /// defined.
    pub fn position_of_index(&self, index: usize) -> (result: Option<CharacterPosition>)
        requires
            self.layout_wf(),
            index > spec_utf8_bytes(self.text@) || spec_is_boundary(self.text@, index as int),
        ensures
            match result {
                None => index > spec_utf8_bytes(self.text@),
                Some(position) => {
                    &&& index <= spec_utf8_bytes(self.text@)
                    &&& forall|k: int| 0 <= k <= self.text@.len() && #[trigger] spec_byte_offset(self.text@, k) == index
                        ==> spec_is_position_of(self.text@, k, position)
                },
            },
    {
        let ghost s = self.text@;
        let ghost starts = spec_line_starts(s);
        let total = self.text.as_str().len();
        proof {
            lemma_encode_length(s);
        }
        if index > total {
            return None;
        }
        let ghost k = choose|k: int| 0 <= k <= s.len() && #[trigger] spec_byte_offset(s, k) == index;
        proof {
            lemma_line_starts(s);
            lemma_start_offsets_grow(s);
        }
        let mut low: usize = 0;
        let mut high: usize = self.lines.len();
        while high - low > 1
            invariant
                self.layout_wf(),
                s == self.text@,
                starts == spec_line_starts(s),
                high <= self.lines@.len(),
                low < high,
                self.lines@[low as int].byte_offset <= index,
                high < self.lines@.len() ==> self.lines@[high as int].byte_offset > index,
            decreases high - low,
        {
            let middle = low + (high - low) / 2;
            if self.lines[middle].byte_offset <= index {
                low = middle;
            } else {
                high = middle;
            }
        }
        let line = low;
        let ghost first = starts[line as int];
        proof {
            // The character is on this line: its offset lies between the line's
            // start and the next line's.
            if k < first {
                lemma_offset_monotone(s, k, first);
            }
            if line + 1 < starts.len() && k >= starts[line + 1] {
                lemma_offset_monotone(s, starts[line + 1], k);
            }
            if line + 1 < starts.len() {
                assert(high == line + 1);
            }
            lemma_offset_split(s, first, spec_line_end(s, line as int));
            lemma_offset_is_boundary(s, spec_line_end(s, line as int));
        }
        let range = self.byte_range_of_line(line).unwrap();
        let contents = substring(self.text.as_str(), range.start, range.end, Ghost(first), Ghost(spec_line_end(s, line as int)));
        let characters = chars_of(contents);
        let mut reached: usize = range.start;
        let mut column: usize = 0;
        while column < characters.len() && reached < index
            invariant
                characters@ == s.subrange(first, spec_line_end(s, line as int)),
                0 <= first <= k <= spec_line_end(s, line as int) <= s.len(),
                column <= characters@.len(),
                first + column <= k,
                reached == spec_byte_offset(s, first + column),
                index == spec_byte_offset(s, k),
                spec_utf8_bytes(s) <= usize::MAX,
            decreases characters@.len() - column,
        {
            proof {
                if first + column == k {
                    assert(false);
                }
                lemma_offset_next(s, first + column);
                assert(characters@[column as int] == s[first + column]);
                lemma_offset_is_boundary(s, first + column + 1);
            }
            reached = reached + utf8_length(characters[column]);
            column += 1;
        }
        proof {
            if first + column < k {
                lemma_offset_monotone(s, first + column, k);
            }
            assert forall|k2: int| 0 <= k2 <= s.len() && #[trigger] spec_byte_offset(s, k2) == index
                implies spec_is_position_of(s, k2, CharacterPosition { line, column }) by {
                lemma_offset_injective(s, k, k2);
            }
        }
        Some(CharacterPosition { line, column })
    }

    /// `position` moved onto the text: past the final line onto the end of the
    /// final line, past a line's end onto its end. The final line is the one
    /// before the last newline.
    pub fn constrain_position_to_contents(&self, position: CharacterPosition) -> (result: CharacterPosition)
        requires
            self.layout_wf(),
            self.lines@.len() >= 2,
        ensures
            ({
                let final_line = self.lines@.len() - 2;
                if position.line > final_line {
                    result == CharacterPosition {
                        line: final_line as usize,
                        column: spec_line(self.text@, final_line).len() as usize,
                    }
                } else {
                    let length = spec_line(self.text@, position.line as int).len();
                    result == CharacterPosition {
                        line: position.line,
                        column: if position.column < length { position.column } else { length as usize },
                    }
                }
            }),
    {
        let final_line = self.num_lines() - 1;
        proof {
            lemma_line_length_bound(self.text@, final_line as int);
            if position.line <= final_line {
                lemma_line_length_bound(self.text@, position.line as int);
            }
        }
        if position.line > final_line {
            CharacterPosition { line: final_line, column: self.length_of_line(final_line).unwrap() }
        } else {
            let length = self.length_of_line(position.line).unwrap();
            CharacterPosition {
                line: position.line,
                column: if position.column < length { position.column } else { length },
            }
        }
    }

    /// `position` moved `offset` characters to the left. With `wrap`, a move
    /// past a line's start goes on from the end of the line before, its newline
    /// counting as a character; without, it stops at the line's start.
    pub fn move_position_left(&self, position: CharacterPosition, offset: usize, wrap: bool) -> (result: CharacterPosition)
        requires
            self.layout_wf(),
            wrap && position.column < offset ==> position.line <= self.lines@.len(),
        ensures
            result == spec_moved_left(self.text@, position, offset as int, wrap),
    {
        let ghost target = spec_moved_left(self.text@, position, offset as int, wrap);
        let mut position = position;
        let mut offset = offset;
        while offset > 0
            invariant_except_break
                spec_moved_left(self.text@, position, offset as int, wrap) == target,
                wrap && position.column < offset ==> position.line <= self.lines@.len(),
            invariant
                self.layout_wf(),
            ensures
                position == target,
            decreases offset,
        {
            if offset <= position.column || !wrap || position.line == 0 {
                position.column = position.column.saturating_sub(offset);
                break;
            } else {
                offset -= position.column + 1;
                position.line -= 1;
                position.column = self.length_of_line(position.line).unwrap();
            }
        }
        position
    }

    /// Whether moving `position` right by `offset` stays within what the text
    /// can tell: the line exists, the column is on it, and the move fits.
    pub open spec fn can_move_right(&self, position: CharacterPosition, offset: int, wrap: bool) -> bool {
        let length = spec_line(self.text@, position.line as int).len() as int;
        offset > 0 ==> {
            &&& position.line < self.lines@.len()
            &&& position.column <= length
            &&& (wrap && offset > length - position.column ==> self.lines@.len() >= 2)
            &&& ((!wrap || position.line + 2 >= self.lines@.len()) && offset > length - position.column
                ==> position.column + offset <= usize::MAX)
        }
    }

    /// `position` moved `offset` characters to the right. With `wrap`, a move
    /// past a line's end goes on from the start of the next line, its newline
    /// counting as a character, up to the final line; without, it stops at the
    /// line's end.
    pub fn move_position_right(&self, position: CharacterPosition, offset: usize, wrap: bool) -> (result: CharacterPosition)
        requires
            self.layout_wf(),
            self.can_move_right(position, offset as int, wrap),
        ensures
            result == spec_moved_right(self.text@, position, offset as int, wrap),
    {
        let ghost target = spec_moved_right(self.text@, position, offset as int, wrap);
        let mut position = position;
        let mut offset = offset;
        while offset > 0
            invariant_except_break
                spec_moved_right(self.text@, position, offset as int, wrap) == target,
                self.can_move_right(position, offset as int, wrap),
            invariant
                self.layout_wf(),
            ensures
                position == target,
            decreases offset,
        {
            let length = self.length_of_line(position.line).unwrap();
            proof {
                lemma_line_length_bound(self.text@, position.line as int);
            }
            if offset <= length - position.column || !wrap || position.line >= self.num_lines() - 1 {
                let moved = position.column + offset;
                position.column = if moved < length { moved } else { length };
                break;
            } else {
                offset -= length - position.column + 1;
                position.line += 1;
                position.column = 0;
            }
        }
        position
    }

    /// The colored parts of line `index`, as byte ranges: up to its first
    /// color change in the default color, then each part in its color up to
    /// the next change or the line's end. `None` where there is no such line.
    pub fn color_segments_of_line(&self, index: usize) -> (result: Option<Vec<(core::ops::Range<usize>, ColorChoice)>>)
        requires
            self.layout_wf(),
            index < self.lines@.len() ==> forall|k: int| 0 <= k < self.lines@[index as int].colors@.len()
                ==> self.lines@[index as int].byte_offset + (#[trigger] self.lines@[index as int].colors@[k]).relative_offset
                    <= usize::MAX,
        ensures
            match result {
                None => index >= self.lines@.len(),
                Some(segments) => {
                    let colors = self.lines@[index as int].colors@;
                    let start = spec_byte_offset(self.text@, spec_line_starts(self.text@)[index as int]) as int;
                    let end = spec_byte_offset(self.text@, spec_line_end(self.text@, index as int)) as int;
                    &&& index < self.lines@.len()
                    &&& segments@.len() == colors.len() + 1
                    &&& forall|k: int| 0 <= k <= colors.len() ==> {
                        &&& (#[trigger] segments@[k]).0.start == if k == 0 { start } else { start + colors[k - 1].relative_offset }
                        &&& segments@[k].0.end == if k == colors.len() { end } else { start + colors[k].relative_offset }
                        &&& segments@[k].1 == if k == 0 { ColorChoice::Default } else { colors[k - 1].color_choice }
                    }
                },
            },
    {
        if index >= self.lines.len() {
            return None;
        }
        let full_range = self.byte_range_of_line(index).unwrap();
        let line = &self.lines[index];
        let mut start = full_range.start;
        let mut color_choice = ColorChoice::Default;
        let mut segments: Vec<(core::ops::Range<usize>, ColorChoice)> = Vec::new();
        let mut i: usize = 0;
        while i < line.colors.len()
            invariant
                line == self.lines@[index as int],
                i <= line.colors@.len(),
                segments@.len() == i,
                start == if i == 0 { full_range.start as int } else { full_range.start + line.colors@[i - 1].relative_offset },
                color_choice == if i == 0 { ColorChoice::Default } else { line.colors@[i - 1].color_choice },
                full_range.start == line.byte_offset,
                forall|k: int| 0 <= k < line.colors@.len()
                    ==> line.byte_offset + (#[trigger] line.colors@[k]).relative_offset <= usize::MAX,
                forall|k: int| 0 <= k < i ==> {
                    &&& (#[trigger] segments@[k]).0.start == if k == 0 { full_range.start as int } else { full_range.start + line.colors@[k - 1].relative_offset }
                    &&& segments@[k].0.end == full_range.start + line.colors@[k].relative_offset
                    &&& segments@[k].1 == if k == 0 { ColorChoice::Default } else { line.colors@[k - 1].color_choice }
                },
            decreases line.colors@.len() - i,
        {
            let segment = line.colors[i];
            let end = full_range.start + segment.relative_offset;
            segments.push((start..end, color_choice));
            color_choice = segment.color_choice;
            start = end;
            i += 1;
        }
        segments.push((start..full_range.end, color_choice));
        Some(segments)
    }

    /// Drops every cursor that starts where an earlier one does.
    pub fn deduplicate_cursors(&mut self)
        requires
            old(self).wf(),
        ensures
            final(self).wf(),
            final(self).text@ == old(self).text@,
            final(self).lines@ == old(self).lines@,
            final(self).history == old(self).history,
            final(self).cursors@ == spec_distinct_cursors(old(self).cursors@),
    {
        let mut old_cursors: Vec<Cursor> = Vec::new();
        std::mem::swap(&mut old_cursors, &mut self.cursors);
        let mut i: usize = 0;
        while i < old_cursors.len()
            invariant
                old(self).wf(),
                self.text@ == old(self).text@,
                self.lines@ == old(self).lines@,
                self.history == old(self).history,
                i <= old_cursors@.len(),
                self.cursors@ == spec_distinct_cursors(old_cursors@.take(i as int)),
                forall|c: int| 0 <= c < old_cursors@.len() ==> spec_cursor_fits(self.text@, #[trigger] old_cursors@[c]),
                forall|c: int| 0 <= c < self.cursors@.len() ==> spec_cursor_fits(self.text@, #[trigger] self.cursors@[c]),
            decreases old_cursors@.len() - i,
        {
            let cursor = old_cursors[i];
            proof {
                assert(old_cursors@.take(i + 1).drop_last() =~= old_cursors@.take(i as int));
            }
            let mut seen = false;
            let mut j: usize = 0;
            while j < self.cursors.len()
                invariant
                    j <= self.cursors@.len(),
                    seen == exists|m: int| 0 <= m < j && (#[trigger] self.cursors@[m]).start.index == cursor.start.index,
                decreases self.cursors@.len() - j,
            {
                if self.cursors[j] == cursor {
                    seen = true;
                }
                j += 1;
            }
            if !seen {
                self.cursors.push(cursor);
            }
            i += 1;
        }
        proof {
            assert(old_cursors@.take(i as int) =~= old_cursors@);
        }
    }

    /// Makes one edit of a group again (`forward`), or takes it back: the bytes
    /// from its start, as long as its replaced (or inserted) text, become its
    /// inserted (or replaced) text.
    fn apply_edit(&mut self, edit: &Edit, forward: bool)
        requires
            old(self).wf(),
            spec_edit_applies(
                old(self).text@,
                edit.start as int,
                spec_utf8_bytes(if forward { edit.replaced@ } else { edit.inserted@ }) as int,
                if forward { edit.inserted@ } else { edit.replaced@ },
            ),
        ensures
            final(self).wf(),
            final(self).history == old(self).history,
            old(self).colors_current() ==> final(self).colors_current(),
            final(self).text@ == spec_edit_made(
                old(self).text@,
                edit.start as int,
                spec_utf8_bytes(if forward { edit.replaced@ } else { edit.inserted@ }) as int,
                if forward { edit.inserted@ } else { edit.replaced@ },
            ),
    {
        let (removed, inserted) = if forward {
            (edit.replaced.as_str(), edit.inserted.as_str())
        } else {
            (edit.inserted.as_str(), edit.replaced.as_str())
        };
        let ghost s = self.text@;
        let ghost from = edit.start as int;
        let ghost length = spec_utf8_bytes(removed@) as int;
        proof {
            lemma_encode_length(removed@);
        }
        let start_index = edit.start;
        let end_index = edit.start + removed.len();
        let ghost k1 = spec_char_at(s, from);
        let ghost k2 = spec_char_at(s, from + length);
        proof {
            lemma_offset_is_boundary(s, k1);
            lemma_offset_is_boundary(s, k2);
            if k2 < k1 {
                lemma_offset_monotone(s, k2, k1);
            }
        }
        let start = self.position_of_index(start_index).unwrap();
        let end = self.position_of_index(end_index).unwrap();
        proof {
            lemma_positions_replace(s, k1, k2, start, end);
        }
        let ghost unedited = *self;
        self.replace_without_history(start..end, inserted).unwrap();
        proof {
            if unedited.colors_current() {
                lemma_replace_keeps_colors(unedited, *self, start, end, inserted@);
            }
        }
    }

    /// Makes the next group of edits of the history again, stepping the
    /// history forward over it.
    pub fn redo(&mut self)
        requires
            old(self).wf(),
            spec_redo(old(self).history.spec_view()).1 matches Some(group) ==> spec_redone(old(self).text@, group) is Some,
        ensures
            final(self).wf(),
            old(self).colors_current() ==> final(self).colors_current(),
            final(self).history.spec_view() == spec_redo(old(self).history.spec_view()).0,
            final(self).text@ == match spec_redo(old(self).history.spec_view()).1 {
                Some(group) => spec_redone(old(self).text@, group).unwrap(),
                None => old(self).text@,
            },
    {
        if let Some(group) = self.history.redo() {
            let ghost target = spec_redone(self.text@, group@).unwrap();
            let ghost history = self.history;
            let mut i: usize = 0;
            proof {
                assert(group@.skip(0) =~= group@);
            }
            while i < group.edits.len()
                invariant
                    self.wf(),
                    self.history == history,
                    old(self).colors_current() ==> self.colors_current(),
                    i <= group.edits@.len(),
                    spec_redone(self.text@, group@.skip(i as int)) == Some(target),
                decreases group.edits@.len() - i,
            {
                proof {
                    assert(group@.skip(i as int)[0] == group.edits@[i as int]@);
                    assert(group@.skip(i as int).drop_first() =~= group@.skip(i + 1));
                }
                self.apply_edit(&group.edits[i], true);
                i += 1;
            }
            proof {
                assert(group@.skip(i as int) =~= Seq::<EditView>::empty());
            }
        }
    }

    /// Takes back the last group of edits of the history, from its last edit
    /// to its first, stepping the history back over it.
    pub fn undo(&mut self)
        requires
            old(self).wf(),
            spec_undo(old(self).history.spec_view()).1 matches Some(group) ==> spec_undone(old(self).text@, group) is Some,
        ensures
            final(self).wf(),
            old(self).colors_current() ==> final(self).colors_current(),
            final(self).history.spec_view() == spec_undo(old(self).history.spec_view()).0,
            final(self).text@ == match spec_undo(old(self).history.spec_view()).1 {
                Some(group) => spec_undone(old(self).text@, group).unwrap(),
                None => old(self).text@,
            },
    {
        if let Some(group) = self.history.undo() {
            let ghost target = spec_undone(self.text@, group@).unwrap();
            let ghost history = self.history;
            let mut i: usize = group.edits.len();
            proof {
                assert(group@.take(group@.len() as int) =~= group@);
            }
            while i > 0
                invariant
                    self.wf(),
                    self.history == history,
                    old(self).colors_current() ==> self.colors_current(),
                    i <= group.edits@.len(),
                    spec_undone(self.text@, group@.take(i as int)) == Some(target),
                decreases i,
            {
                proof {
                    assert(group@.take(i as int).last() == group.edits@[i - 1]@);
                    assert(group@.take(i as int).drop_last() =~= group@.take(i - 1));
                }
                self.apply_edit(&group.edits[i - 1], false);
                i -= 1;
            }
            proof {
                assert(group@.take(0) =~= Seq::<EditView>::empty());
            }
        }
    }

    /// Whether `after` is this editor once the text from `start` to `end` has
    /// been replaced by `x`: consistent, with the new text, each cursor moved
    /// along, the lines before the start's line and after the end's line
    /// keeping their colors and those between colored anew. What becomes of
    /// the history is left to the caller.
    pub open spec fn spec_replaced_into(self, after: Self, start: CharacterPosition, end: CharacterPosition, x: Seq<char>) -> bool {
        &&& after.wf()
        &&& after.text@ == spec_replaced(self.text@, start, end, x)
        &&& after.cursors@.len() == self.cursors@.len()
        &&& forall|c: int| 0 <= c < self.cursors@.len()
            ==> spec_cursor_after_replace(#[trigger] self.cursors@[c], after.cursors@[c], self.text@, start, end, x)
        &&& forall|l: int| 0 <= l < after.lines@.len() ==> (#[trigger] after.lines@[l]).colors@ == if l < start.line {
            self.lines@[l].colors@
        } else if l <= start.line + spec_added_lines(x) {
            spec_comment_colors(spec_line(after.text@, l))
        } else {
            self.lines@[l - spec_added_lines(x) + (end.line - start.line)].colors@
        }
    }

    /// Whether a replacement from `start` to `end`, with `x`, can be made
    /// without running out of memory, and does not have its end before its
    /// start.
    pub open spec fn can_replace(&self, start: CharacterPosition, end: CharacterPosition, x: Seq<char>) -> bool {
        &&& spec_utf8_bytes(self.text@) + spec_utf8_bytes(x) <= usize::MAX
        &&& start.line < self.lines@.len() && end.line < self.lines@.len()
            ==> spec_char_of_position(self.text@, start) <= spec_char_of_position(self.text@, end)
    }

    /// Replaces the text from `range.start` to `range.end` with `text`, and
    /// records the edit in the history's buffer. `None`, with nothing changed,
    /// where either end is not on a line of the text.
    pub fn replace(&mut self, range: core::ops::Range<CharacterPosition>, text: &str) -> (result: Option<()>)
        requires
            old(self).wf(),
            old(self).can_replace(range.start, range.end, text@),
        ensures
            result is Some <==> spec_replace_applies(old(self).text@, range.start, range.end),
            result is None ==> *final(self) == *old(self),
            result is Some ==> old(self).spec_replaced_into(*final(self), range.start, range.end, text@),
            old(self).colors_current() ==> final(self).colors_current(),
            result is Some ==> final(self).history.spec_view() == (EditHistoryView {
                buffer: old(self).history.spec_view().buffer.push(spec_replace_edit(old(self).text@, range.start, range.end, text@)),
                ..old(self).history.spec_view()
            }),
    {
        let start_index = match self.index_of_position(range.start) {
            Some(index) => index,
            None => return None,
        };
        let end_index = match self.index_of_position(range.end) {
            Some(index) => index,
            None => return None,
        };
        let ghost s = self.text@;
        proof {
            lemma_char_of_position_on_line(s, range.start);
            lemma_char_of_position_on_line(s, range.end);
        }
        let replaced = substring(
            self.text.as_str(),
            start_index,
            end_index,
            Ghost(spec_char_of_position(s, range.start)),
            Ghost(spec_char_of_position(s, range.end)),
        ).to_owned();
        let ghost unedited = *self;
        match self.replace_without_history(range, text) {
            Some(()) => {},
            None => return None,
        }
        proof {
            if unedited.colors_current() {
                lemma_replace_keeps_colors(unedited, *self, range.start, range.end, text@);
            }
        }
        let ghost before = self.history.spec_view();
        let edit = Edit { start: start_index, inserted: text.to_owned(), replaced };
        let ghost edit_view = edit@;
        self.history.buffer.push(edit);
        proof {
            assert(self.history.spec_view().buffer =~= before.buffer.push(edit_view));
        }
        Some(())
    }

    /// Inserts `text` at `position`, recording the edit.
    pub fn insert(&mut self, position: CharacterPosition, text: &str) -> (result: Option<()>)
        requires
            old(self).wf(),
            old(self).can_replace(position, position, text@),
        ensures
            result is Some <==> position.line < old(self).lines@.len(),
            result is None ==> *final(self) == *old(self),
            result is Some ==> old(self).spec_replaced_into(*final(self), position, position, text@),
            old(self).colors_current() ==> final(self).colors_current(),
            result is Some ==> final(self).history.spec_view() == (EditHistoryView {
                buffer: old(self).history.spec_view().buffer.push(spec_replace_edit(old(self).text@, position, position, text@)),
                ..old(self).history.spec_view()
            }),
    {
        self.replace(position..position, text)
    }

    /// Removes the text from `range.start` to `range.end`, recording the edit.
    pub fn remove(&mut self, range: core::ops::Range<CharacterPosition>) -> (result: Option<()>)
        requires
            old(self).wf(),
            old(self).can_replace(range.start, range.end, Seq::empty()),
        ensures
            result is Some <==> spec_replace_applies(old(self).text@, range.start, range.end),
            result is None ==> *final(self) == *old(self),
            result is Some ==> old(self).spec_replaced_into(*final(self), range.start, range.end, Seq::empty()),
            old(self).colors_current() ==> final(self).colors_current(),
            result is Some ==> final(self).history.spec_view() == (EditHistoryView {
                buffer: old(self).history.spec_view().buffer.push(spec_replace_edit(old(self).text@, range.start, range.end, Seq::empty())),
                ..old(self).history.spec_view()
            }),
    {
        let empty = "";
        proof {
            reveal_strlit("");
            assert(empty@ =~= Seq::<char>::empty());
        }
        self.replace(range, empty)
    }

    /// Where `location` goes once the text from `start` to `end` of `before` has
    /// been replaced by `x`, giving this editor's text: the replaced bytes are
    /// `start_index..end_index`, and `inserted` bytes took their place.
    #[verifier::spinoff_prover]
    fn location_after_replace(
        &self,
        location: CursorLocation,
        start_index: usize,
        end_index: usize,
        inserted: usize,
        end_line: usize,
        added_lines: usize,
        removed_lines: usize,
        Ghost(before): Ghost<Seq<char>>,
        Ghost(start): Ghost<CharacterPosition>,
        Ghost(end): Ghost<CharacterPosition>,
        Ghost(x): Ghost<Seq<char>>,
    ) -> (result: CursorLocation)
        requires
            self.layout_wf(),
            spec_replace_applies(before, start, end),
            self.text@ == spec_replaced(before, start, end, x),
            spec_utf8_bytes(before) + spec_utf8_bytes(x) <= usize::MAX,
            start_index == spec_byte_offset(before, spec_char_of_position(before, start)),
            end_index == spec_byte_offset(before, spec_char_of_position(before, end)),
            inserted == spec_utf8_bytes(x),
            end_line == end.line,
            added_lines == spec_added_lines(x),
            removed_lines == end.line - start.line,
            spec_location_fits(before, location),
        ensures
            spec_location_after_replace(location, result, before, start, end, x),
            spec_location_fits(self.text@, result),
    {
        let ghost i = spec_char_of_position(before, start);
        let ghost j = spec_char_of_position(before, end);
        let ghost after = self.text@;
        let ghost first = start.line as int;
        let ghost last = end.line as int;
        let ghost k = spec_char_of_position(before, location.position);
        let ghost line = location.position.line as int;
        let ghost starts = spec_line_starts(before);
        proof {
            lemma_line_starts(before);
            lemma_char_of_position_on_line(before, start);
            lemma_char_of_position_on_line(before, end);
            lemma_char_of_position_on_line(before, location.position);
            if i < j {
                lemma_offset_monotone(before, i, j);
            }
            lemma_offsets_after_splice(before, i, j, x, before.len() as int);
            lemma_offsets_after_splice(before, i, j, x, k);
            assert(before.take(before.len() as int) =~= before);
            assert(after.take(after.len() as int) =~= after);
        }
        let mut location = location;
        if location.index >= start_index {
            let ghost target: int;
            proof {
                if k < i {
                    lemma_offset_monotone(before, k, i);
                }
            }
            if location.index < end_index {
                location.index = start_index;
                proof {
                    target = i + x.len();
                    lemma_offsets_in_insertion(before, i, j, x, x.len() as int);
                    assert(x.take(x.len() as int) =~= x);
                }
            } else {
                location.index -= end_index - start_index;
                proof {
                    if k < j {
                        lemma_offset_monotone(before, k, j);
                    }
                    target = k - j + i + x.len();
                }
            }
            proof {
                lemma_offset_is_boundary(after, target);
            }
            location.index += inserted;
            proof {
                assert(spec_byte_offset(after, target) == location.index);
            }
            if location.position.line <= end_line {
                location.position = self.position_of_index(location.index).unwrap();
                proof {
                    lemma_position_fits(after, target, location.position);
                }
            } else {
                proof {
                    lemma_location_below_replace(before, start, end, x, location.position);
                }
                location.position.line += added_lines;
                location.position.line -= removed_lines;
            }
        } else {
            proof {
                if k >= i {
                    lemma_offset_monotone(before, i, k);
                }
                lemma_location_above_replace(before, start, end, x, location.position);
            }
        }
        location
    }

    /// Replaces the text from `range.start` to `range.end` with `text`, moving
    /// the lines, cursors and colors along, without recording the edit.
    /// `None`, with nothing changed, where either end is not on a line of the
    /// text or the end comes before the start.
    #[verifier::spinoff_prover]
    #[verifier::rlimit(50)]
    fn replace_without_history(&mut self, range: core::ops::Range<CharacterPosition>, text: &str) -> (result: Option<()>)
        requires
            old(self).wf(),
            spec_utf8_bytes(old(self).text@) + spec_utf8_bytes(text@) <= usize::MAX,
        ensures
            result is Some <==> spec_replace_applies(old(self).text@, range.start, range.end),
            result is None ==> *final(self) == *old(self),
            result is Some ==> old(self).spec_replaced_into(*final(self), range.start, range.end, text@),
            result is Some ==> final(self).history == old(self).history,
    {
        let start_index = match self.index_of_position(range.start) {
            Some(index) => index,
            None => return None,
        };
        let end_index = match self.index_of_position(range.end) {
            Some(index) => index,
            None => return None,
        };
        let ghost s = self.text@;
        let ghost old_cursors = self.cursors@;
        let ghost i = spec_char_of_position(s, range.start);
        let ghost j = spec_char_of_position(s, range.end);
        proof {
            lemma_char_of_position_on_line(s, range.start);
            lemma_char_of_position_on_line(s, range.end);
            if i < j {
                lemma_offset_monotone(s, i, j);
            } else if j < i {
                lemma_offset_monotone(s, j, i);
            }
        }
        if end_index < start_index {
            return None;
        }
        if range.end.line < range.start.line {
            return None;
        }
        let removed_lines = range.end.line - range.start.line;
        let ghost x = text@;
        let inserted = text.len();
        proof {
            lemma_encode_length(x);
        }
        let ghost old_lines = self.lines@;
        proof {
            lemma_offset_is_boundary(s, i);
            lemma_offset_monotone(s, j, spec_line_end(s, range.end.line as int));
        }
        let mut new_lines = Self::lines_begun_in(text, start_index);
        let ghost inserted_lines = new_lines@;
        let added_lines = new_lines.len();
        let count = self.lines.len();
        assert(range.end.line < count);
        let mut moved = self.lines.split_off(range.end.line + 1);
        proof {
            lemma_moved_lines_fit(s, old_lines, range.end.line as int, end_index as int, spec_utf8_bytes(x) as int);
        }
        Self::shift_lines(&mut moved, inserted, end_index - start_index);
        let ghost moved_lines = moved@;
        self.lines.truncate(range.start.line + 1);
        self.lines.append(&mut new_lines);
        self.lines.append(&mut moved);
        Self::splice_text(&mut self.text, start_index, end_index, text, Ghost(i), Ghost(j));
        proof {
            lemma_lines_after_replace(s, range.start, range.end, x, old_lines, inserted_lines, moved_lines);
            assert(self.lines@ =~= old_lines.take(range.start.line + 1) + inserted_lines + moved_lines);
            lemma_offsets_after_splice(s, i, j, x, s.len() as int);
            assert(s.take(s.len() as int) =~= s);
            let after = self.text@;
            assert(after.take(after.len() as int) =~= after);
        }
        self.move_cursors_after_replace(
            start_index,
            end_index,
            inserted,
            range.end.line,
            added_lines,
            removed_lines,
            Ghost(s),
            Ghost(range.start),
            Ghost(range.end),
            Ghost(x),
        );
        self.recolor_lines(range.start.line, added_lines);
        proof {
            assert forall|c: int| 0 <= c < self.cursors@.len() implies spec_cursor_fits(self.text@, #[trigger] self.cursors@[c]) by {
                assert(spec_cursor_after_replace(old_cursors[c], self.cursors@[c], s, range.start, range.end, x));
            }
        }
        Some(())
    }

    /// The lines that `text` begins, once inserted at byte `start_index`: one
    /// after each of its newlines, without colors.
    fn lines_begun_in(text: &str, start_index: usize) -> (result: Vec<Line>)
        requires
            start_index + spec_utf8_bytes(text@) <= usize::MAX,
        ensures
            result@.len() == spec_added_lines(text@),
            forall|l: int| 0 <= l < result@.len() ==> {
                &&& #[trigger] result@[l].byte_offset == start_index + spec_byte_offset(text@, spec_line_starts(text@)[l + 1])
                &&& result@[l].colors@.len() == 0
            },
    {
        let ghost x = text@;
        let characters = chars_of(text);
        let mut lines: Vec<Line> = Vec::new();
        let mut offset: usize = start_index;
        let mut m: usize = 0;
        proof {
            assert(x.take(0) =~= Seq::<char>::empty());
        }
        while m < characters.len()
            invariant
                characters@ == x,
                m <= x.len(),
                start_index + spec_utf8_bytes(x) <= usize::MAX,
                offset == start_index + spec_byte_offset(x, m as int),
                lines@.len() == spec_line_starts(x.take(m as int)).len() - 1,
                forall|l: int| 0 <= l < lines@.len() ==> {
                    &&& #[trigger] lines@[l].byte_offset == start_index + spec_byte_offset(x, spec_line_starts(x.take(m as int))[l + 1])
                    &&& lines@[l].colors@.len() == 0
                },
            decreases x.len() - m,
        {
            proof {
                lemma_line_starts_extend(x, m as int);
                lemma_offset_next(x, m as int);
                lemma_offset_is_boundary(x, m + 1);
            }
            let c = characters[m];
            offset = offset + utf8_length(c);
            if c == '\n' {
                lines.push(Line::from_byte_offset(offset));
            }
            m += 1;
        }
        proof {
            assert(x.take(x.len() as int) =~= x);
        }
        lines
    }

    /// Moves every line on by `inserted` bytes less `removed` bytes.
    fn shift_lines(lines: &mut Vec<Line>, inserted: usize, removed: usize)
        requires
            forall|q: int| 0 <= q < old(lines)@.len() ==> {
                &&& removed <= (#[trigger] old(lines)@[q]).byte_offset
                &&& old(lines)@[q].byte_offset + inserted <= usize::MAX
            },
        ensures
            final(lines)@.len() == old(lines)@.len(),
            forall|q: int| 0 <= q < old(lines)@.len() ==> {
                &&& (#[trigger] final(lines)@[q]).byte_offset == old(lines)@[q].byte_offset + inserted - removed
                &&& final(lines)@[q].colors == old(lines)@[q].colors
            },
    {
        let ghost unmoved = lines@;
        let mut l: usize = 0;
        while l < lines.len()
            invariant
                lines@.len() == unmoved.len(),
                l <= lines@.len(),
                forall|q: int| 0 <= q < unmoved.len() ==> {
                    &&& removed <= (#[trigger] unmoved[q]).byte_offset
                    &&& unmoved[q].byte_offset + inserted <= usize::MAX
                },
                forall|q: int| 0 <= q < lines@.len() ==> {
                    &&& (#[trigger] lines@[q]).colors == unmoved[q].colors
                    &&& lines@[q].byte_offset == if q < l {
                        unmoved[q].byte_offset + inserted - removed
                    } else {
                        unmoved[q].byte_offset as int
                    }
                },
            decreases lines@.len() - l,
        {
            let shifted = lines[l].byte_offset + inserted - removed;
            lines[l].byte_offset = shifted;
            l += 1;
        }
    }

    /// Replaces characters `i..j` of `text`, whose bytes are
    /// `start_index..end_index`, by `replacement`.
    fn splice_text(
        text: &mut String,
        start_index: usize,
        end_index: usize,
        replacement: &str,
        Ghost(i): Ghost<int>,
        Ghost(j): Ghost<int>,
    )
        requires
            0 <= i <= j <= old(text)@.len(),
            start_index == spec_byte_offset(old(text)@, i),
            end_index == spec_byte_offset(old(text)@, j),
        ensures
            final(text)@ == spec_spliced(old(text)@, i, j, replacement@),
    {
        let ghost s = text@;
        let ghost x = replacement@;
        proof {
            lemma_offset_is_boundary(s, i);
            lemma_offset_is_boundary(s, j);
            lemma_offset_monotone(s, i, j);
            lemma_encode_length(s);
        }
        replace_byte_range(text, start_index, end_index, replacement);
        proof {
            let after = spec_spliced(s, i, j, x);
            lemma_encode_subrange(s, 0, i);
            lemma_encode_subrange(s, j, s.len() as int);
            assert(s.take(0) =~= Seq::<char>::empty());
            assert(s.take(s.len() as int) =~= s);
            assert(s.subrange(0, i) =~= s.take(i));
            assert(s.subrange(j, s.len() as int) =~= s.skip(j));
            lemma_encode_concat(s.take(i), x);
            lemma_encode_concat(s.take(i) + x, s.skip(j));
            lemma_encode_injective(text@, after);
        }
    }

    /// Moves each cursor to where it goes once the text from `start` to `end`
    /// of `before` has been replaced by `x`, giving this editor's text.
    fn move_cursors_after_replace(
        &mut self,
        start_index: usize,
        end_index: usize,
        inserted: usize,
        end_line: usize,
        added_lines: usize,
        removed_lines: usize,
        Ghost(before): Ghost<Seq<char>>,
        Ghost(start): Ghost<CharacterPosition>,
        Ghost(end): Ghost<CharacterPosition>,
        Ghost(x): Ghost<Seq<char>>,
    )
        requires
            old(self).layout_wf(),
            spec_replace_applies(before, start, end),
            old(self).text@ == spec_replaced(before, start, end, x),
            spec_utf8_bytes(before) + spec_utf8_bytes(x) <= usize::MAX,
            start_index == spec_byte_offset(before, spec_char_of_position(before, start)),
            end_index == spec_byte_offset(before, spec_char_of_position(before, end)),
            inserted == spec_utf8_bytes(x),
            end_line == end.line,
            added_lines == spec_added_lines(x),
            removed_lines == end.line - start.line,
            forall|c: int| 0 <= c < old(self).cursors@.len() ==> spec_cursor_fits(before, #[trigger] old(self).cursors@[c]),
        ensures
            final(self).text == old(self).text,
            final(self).lines == old(self).lines,
            final(self).history == old(self).history,
            final(self).cursors@.len() == old(self).cursors@.len(),
            forall|c: int| 0 <= c < old(self).cursors@.len() ==> {
                &&& spec_cursor_after_replace(#[trigger] old(self).cursors@[c], final(self).cursors@[c], before, start, end, x)
                &&& spec_cursor_fits(final(self).text@, final(self).cursors@[c])
            },
    {
        let ghost initial_cursors = self.cursors@;
        let mut c: usize = 0;
        while c < self.cursors.len()
            invariant
                self.layout_wf(),
                self.text == old(self).text,
                self.lines == old(self).lines,
                self.history == old(self).history,
                spec_replace_applies(before, start, end),
                self.text@ == spec_replaced(before, start, end, x),
                spec_utf8_bytes(before) + spec_utf8_bytes(x) <= usize::MAX,
                start_index == spec_byte_offset(before, spec_char_of_position(before, start)),
                end_index == spec_byte_offset(before, spec_char_of_position(before, end)),
                inserted == spec_utf8_bytes(x),
                end_line == end.line,
                added_lines == spec_added_lines(x),
                removed_lines == end.line - start.line,
                initial_cursors == old(self).cursors@,
                self.cursors@.len() == initial_cursors.len(),
                c <= initial_cursors.len(),
                forall|d: int| 0 <= d < initial_cursors.len() ==> spec_cursor_fits(before, #[trigger] initial_cursors[d]),
                forall|d: int| c <= d < initial_cursors.len() ==> #[trigger] self.cursors@[d] == initial_cursors[d],
                forall|d: int| 0 <= d < c ==> {
                    &&& spec_cursor_after_replace(#[trigger] initial_cursors[d], self.cursors@[d], before, start, end, x)
                    &&& spec_cursor_fits(self.text@, self.cursors@[d])
                },
            decreases initial_cursors.len() - c,
        {
            let mut cursor = self.cursors[c];
            proof {
                assert(initial_cursors[c as int] == cursor);
            }
            cursor.start = self.location_after_replace(
                cursor.start,
                start_index,
                end_index,
                inserted,
                end_line,
                added_lines,
                removed_lines,
                Ghost(before),
                Ghost(start),
                Ghost(end),
                Ghost(x),
            );
            cursor.end = match cursor.end {
                Some(location) => Some(
                    self.location_after_replace(
                        location,
                        start_index,
                        end_index,
                        inserted,
                        end_line,
                        added_lines,
                        removed_lines,
                        Ghost(before),
                        Ghost(start),
                        Ghost(end),
                        Ghost(x),
                    ),
                ),
                None => None,
            };
            self.cursors.set(c, cursor);
            c += 1;
        }
    }

    /// Colors lines `first` to `first + added`, as their contents say.
    fn recolor_lines(&mut self, first: usize, added: usize)
        requires
            old(self).layout_wf(),
            first + added < old(self).lines@.len(),
        ensures
            final(self).layout_wf(),
            final(self).text == old(self).text,
            final(self).cursors == old(self).cursors,
            final(self).history == old(self).history,
            final(self).lines@.len() == old(self).lines@.len(),
            forall|l: int| 0 <= l < old(self).lines@.len() ==> {
                &&& (#[trigger] final(self).lines@[l]).byte_offset == old(self).lines@[l].byte_offset
                &&& final(self).lines@[l].colors@ == if first <= l <= first + added {
                    spec_comment_colors(spec_line(old(self).text@, l))
                } else {
                    old(self).lines@[l].colors@
                }
            },
    {
        let count = self.lines.len();
        let mut l: usize = first;
        while l <= first + added
            invariant
                self.layout_wf(),
                self.text == old(self).text,
                self.cursors == old(self).cursors,
                self.history == old(self).history,
                self.lines@.len() == old(self).lines@.len(),
                first <= l <= first + added + 1,
                first + added < count,
                count == self.lines@.len(),
                forall|q: int| 0 <= q < old(self).lines@.len() ==> {
                    &&& (#[trigger] self.lines@[q]).byte_offset == old(self).lines@[q].byte_offset
                    &&& self.lines@[q].colors@ == if first <= q < l {
                        spec_comment_colors(spec_line(old(self).text@, q))
                    } else {
                        old(self).lines@[q].colors@
                    }
                },
            decreases first + added + 1 - l,
        {
            self.update_colors_of_line(l).unwrap();
            l += 1;
        }
    }
}

/// The position of character `k` stands for that character: where
/// `position_of_index` finds a byte's position, `index_of_position` gives the
/// byte back.
pub proof fn lemma_position_fits(s: Seq<char>, k: int, position: CharacterPosition)
    requires
        0 <= k <= s.len(),
        spec_is_position_of(s, k, position),
    ensures
        spec_index_of_position(s, position) == Some(spec_byte_offset(s, k) as int),
{
    lemma_line_starts(s);
}

/// A position within its line is the position of the character it stands
/// for: where `index_of_position` finds a byte, `position_of_index` gives the
/// position back.
pub proof fn lemma_index_fits(s: Seq<char>, position: CharacterPosition)
    requires
        position.line < spec_line_starts(s).len(),
        position.column <= spec_line(s, position.line as int).len(),
    ensures
        spec_is_position_of(s, spec_char_of_position(s, position), position),
{
    lemma_line_starts(s);
    let line = position.line as int;
    if line + 1 < spec_line_starts(s).len() {
        assert(spec_line_starts(s)[line] < spec_line_starts(s)[line + 1]);
    }
}

/// A position whose character comes before a replacement's start stands for
/// the same character, at the same offset, once the replacement is made.
proof fn lemma_location_above_replace(
    s: Seq<char>,
    start: CharacterPosition,
    end: CharacterPosition,
    x: Seq<char>,
    position: CharacterPosition,
)
    requires
        spec_replace_applies(s, start, end),
        position.line < spec_line_starts(s).len(),
        spec_char_of_position(s, position) < spec_char_of_position(s, start),
    ensures
        spec_index_of_position(spec_replaced(s, start, end, x), position) == Some(
            spec_byte_offset(s, spec_char_of_position(s, position)) as int,
        ),
{
    let i = spec_char_of_position(s, start);
    let j = spec_char_of_position(s, end);
    let first = start.line as int;
    let last = end.line as int;
    let k = spec_char_of_position(s, position);
    let line = position.line as int;
    let starts = spec_line_starts(s);
    lemma_line_starts(s);
    lemma_char_of_position_on_line(s, start);
    lemma_char_of_position_on_line(s, end);
    lemma_char_of_position_on_line(s, position);
    lemma_offsets_after_splice(s, i, j, x, k);
    lemma_first_line_after_splice(s, i, j, x, first, last);
    lemma_line_starts(x);
    let n = spec_replaced(s, start, end, x);
    if line > first {
        assert(starts[first + 1] <= starts[line]);
    }
    if line < first {
        lemma_line_before_splice(s, i, j, x, first, last, line);
    } else {
        lemma_line_starts(n);
        let length = spec_line(s, first).len();
        assert(length == spec_line_end(s, first) - starts[first]);
        assert(spec_line(n, first).len() == spec_line_end(n, first) - starts[first]);
        assert(position.column < length);
    }
}

/// A position on a line after a replacement's end stands, once moved down by
/// the change in lines, for its character moved along with the text.
#[verifier::spinoff_prover]
#[verifier::rlimit(40)]
pub proof fn lemma_location_below_replace(
    s: Seq<char>,
    start: CharacterPosition,
    end: CharacterPosition,
    x: Seq<char>,
    position: CharacterPosition,
)
    requires
        spec_replace_applies(s, start, end),
        position.line < spec_line_starts(s).len(),
        position.line > end.line,
        spec_utf8_bytes(s) + spec_utf8_bytes(x) <= usize::MAX,
    ensures
        ({
            let i = spec_char_of_position(s, start);
            let j = spec_char_of_position(s, end);
            let k = spec_char_of_position(s, position);
            let moved = CharacterPosition {
                line: (position.line + spec_added_lines(x) - (end.line - start.line)) as usize,
                column: position.column,
            };
            &&& j <= k
            &&& position.line + spec_added_lines(x) <= usize::MAX
            &&& spec_char_of_position(spec_replaced(s, start, end, x), moved) == k - j + i + x.len()
            &&& moved.line < spec_line_starts(spec_replaced(s, start, end, x)).len()
        }),
{
    let i = spec_char_of_position(s, start);
    let j = spec_char_of_position(s, end);
    let first = start.line as int;
    let last = end.line as int;
    let line = position.line as int;
    let starts = spec_line_starts(s);
    lemma_line_starts(s);
    lemma_line_starts(x);
    lemma_char_of_position_on_line(s, start);
    lemma_char_of_position_on_line(s, end);
    lemma_char_of_position_on_line(s, position);
    lemma_line_after_splice(s, i, j, x, first, last, line - last - 1);
    lemma_first_line_after_splice(s, i, j, x, first, last);
    lemma_line_count(s);
    lemma_line_count(x);
    lemma_offset_monotone(s, 0, s.len() as int);
    lemma_offset_monotone(x, 0, x.len() as int);
    assert(s.take(s.len() as int) =~= s);
    assert(x.take(x.len() as int) =~= x);
    assert(s.take(0) =~= Seq::<char>::empty());
    assert(x.take(0) =~= Seq::<char>::empty());
    assert(starts[last + 1] <= starts[line]);
}

/// The character a position on a line of `s` stands for lies on that line.
pub proof fn lemma_char_of_position_on_line(s: Seq<char>, position: CharacterPosition)
    requires
        position.line < spec_line_starts(s).len(),
    ensures
        0 <= spec_line_starts(s)[position.line as int] <= spec_char_of_position(s, position)
            <= spec_line_end(s, position.line as int) <= s.len(),
{
    lemma_line_starts(s);
}

/// The lines after line `last` begin after byte `end_index`, and stay within
/// memory when moved on by `inserted` bytes.
proof fn lemma_moved_lines_fit(s: Seq<char>, lines: Seq<Line>, last: int, end_index: int, inserted: int)
    requires
        0 <= last < spec_line_starts(s).len(),
        lines.len() == spec_line_starts(s).len(),
        forall|j: int| 0 <= j < lines.len() ==> #[trigger] lines[j].byte_offset == spec_byte_offset(s, spec_line_starts(s)[j]),
        end_index <= spec_byte_offset(s, spec_line_end(s, last)),
        spec_utf8_bytes(s) + inserted <= usize::MAX,
    ensures
        forall|q: int| 0 <= q < lines.len() - last - 1 ==> {
            &&& end_index <= (#[trigger] lines.subrange(last + 1, lines.len() as int)[q]).byte_offset
            &&& lines.subrange(last + 1, lines.len() as int)[q].byte_offset + inserted <= usize::MAX
        },
{
    lemma_line_starts(s);
    let starts = spec_line_starts(s);
    assert forall|q: int| 0 <= q < lines.len() - last - 1 implies {
        &&& end_index <= (#[trigger] lines.subrange(last + 1, lines.len() as int)[q]).byte_offset
        &&& lines.subrange(last + 1, lines.len() as int)[q].byte_offset + inserted <= usize::MAX
    } by {
        assert(lines.subrange(last + 1, lines.len() as int)[q] == lines[last + 1 + q]);
        assert(starts[last + 1] <= starts[last + 1 + q]);
        lemma_offset_monotone(s, spec_line_end(s, last), starts[last + 1 + q]);
        lemma_offset_is_boundary(s, starts[last + 1 + q]);
    }
}

/// After the text from `start` to `end` of `s` is replaced by `x`, the lines
/// up to the start's line, then those that the insertion begins, then those
/// after the end's line moved along with the text, begin where the new text's
/// lines begin.
proof fn lemma_lines_after_replace(
    s: Seq<char>,
    start: CharacterPosition,
    end: CharacterPosition,
    x: Seq<char>,
    old_lines: Seq<Line>,
    inserted_lines: Seq<Line>,
    moved_lines: Seq<Line>,
)
    requires
        spec_replace_applies(s, start, end),
        old_lines.len() == spec_line_starts(s).len(),
        forall|j: int| 0 <= j < old_lines.len() ==> #[trigger] old_lines[j].byte_offset == spec_byte_offset(s, spec_line_starts(s)[j]),
        inserted_lines.len() == spec_added_lines(x),
        forall|l: int| 0 <= l < inserted_lines.len() ==> #[trigger] inserted_lines[l].byte_offset
            == spec_byte_offset(s, spec_char_of_position(s, start)) + spec_byte_offset(x, spec_line_starts(x)[l + 1]),
        moved_lines.len() == old_lines.len() - end.line - 1,
        forall|q: int| 0 <= q < moved_lines.len() ==> #[trigger] moved_lines[q].byte_offset
            == old_lines[end.line + 1 + q].byte_offset + spec_utf8_bytes(x)
                - (spec_byte_offset(s, spec_char_of_position(s, end)) - spec_byte_offset(s, spec_char_of_position(s, start))),
    ensures
        ({
            let after = spec_replaced(s, start, end, x);
            let lines = old_lines.take(start.line + 1) + inserted_lines + moved_lines;
            &&& lines.len() == spec_line_starts(after).len()
            &&& forall|l: int| 0 <= l < lines.len() ==> #[trigger] lines[l].byte_offset == spec_byte_offset(after, spec_line_starts(after)[l])
        }),
{
    let i = spec_char_of_position(s, start);
    let j = spec_char_of_position(s, end);
    let first = start.line as int;
    let last = end.line as int;
    let starts = spec_line_starts(s);
    let after = spec_replaced(s, start, end, x);
    let lines = old_lines.take(first + 1) + inserted_lines + moved_lines;
    let added = inserted_lines.len() as int;
    lemma_line_starts(s);
    lemma_line_starts(x);
    lemma_char_of_position_on_line(s, start);
    lemma_char_of_position_on_line(s, end);
    lemma_line_starts_after_splice(s, i, j, x, first, last);
    let new_starts = spec_line_starts(after);
    assert forall|l: int| 0 <= l < lines.len() implies #[trigger] lines[l].byte_offset == spec_byte_offset(after, new_starts[l]) by {
        if l <= first {
            assert(lines[l] == old_lines[l]);
            assert(new_starts[l] == starts[l]);
            assert(starts[l] <= starts[first]);
            lemma_offsets_after_splice(s, i, j, x, starts[l]);
        } else if l <= first + added {
            let m = l - first - 1;
            assert(lines[l] == inserted_lines[m]);
            assert(new_starts[l] == spec_line_starts(x)[m + 1] + i);
            lemma_offsets_in_insertion(s, i, j, x, spec_line_starts(x)[m + 1]);
        } else {
            let q = l - first - 1 - added;
            assert(lines[l] == moved_lines[q]);
            assert(new_starts[l] == starts[last + 1 + q] + i + x.len() - j);
            assert(starts[last + 1] <= starts[last + 1 + q]);
            lemma_offsets_after_splice(s, i, j, x, starts[last + 1 + q]);
        }
    }
}

/// The character of `s` that begins at byte `index` (where one does).
pub open spec fn spec_char_at(s: Seq<char>, index: int) -> int {
    choose|k: int| 0 <= k <= s.len() && #[trigger] spec_byte_offset(s, k) == index
}

/// Whether bytes `from..from + length` of `s` can be replaced by `x`: both
/// ends begin characters (or are the end), and the result fits in memory.
pub open spec fn spec_edit_applies(s: Seq<char>, from: int, length: int, x: Seq<char>) -> bool {
    &&& 0 <= length
    &&& from + length <= usize::MAX
    &&& spec_is_boundary(s, from)
    &&& spec_is_boundary(s, from + length)
    &&& spec_utf8_bytes(s) + spec_utf8_bytes(x) <= usize::MAX
}

/// `s` with bytes `from..from + length` replaced by `x`.
pub open spec fn spec_edit_made(s: Seq<char>, from: int, length: int, x: Seq<char>) -> Seq<char> {
    spec_spliced(s, spec_char_at(s, from), spec_char_at(s, from + length), x)
}

/// `s` with `edits` made again in order, each putting its inserted text in
/// place of its replaced text; `None` where one of them does not apply.
pub open spec fn spec_redone(s: Seq<char>, edits: Seq<EditView>) -> Option<Seq<char>>
    decreases edits.len(),
{
    if edits.len() == 0 {
        Some(s)
    } else {
        let edit = edits[0];
        let length = spec_utf8_bytes(edit.replaced) as int;
        if spec_edit_applies(s, edit.start as int, length, edit.inserted) {
            spec_redone(spec_edit_made(s, edit.start as int, length, edit.inserted), edits.drop_first())
        } else {
            None
        }
    }
}

/// `s` with `edits` taken back from the last to the first, each putting its
/// replaced text in place of its inserted text; `None` where one of them does
/// not apply.
pub open spec fn spec_undone(s: Seq<char>, edits: Seq<EditView>) -> Option<Seq<char>>
    decreases edits.len(),
{
    if edits.len() == 0 {
        Some(s)
    } else {
        let edit = edits.last();
        let length = spec_utf8_bytes(edit.inserted) as int;
        if spec_edit_applies(s, edit.start as int, length, edit.replaced) {
            spec_undone(spec_edit_made(s, edit.start as int, length, edit.replaced), edits.drop_last())
        } else {
            None
        }
    }
}

/// The positions of two characters, the first no later than the second, make
/// a replacement that applies, of exactly the characters between them.
proof fn lemma_positions_replace(s: Seq<char>, k1: int, k2: int, p1: CharacterPosition, p2: CharacterPosition)
    requires
        0 <= k1 <= k2 <= s.len(),
        spec_is_position_of(s, k1, p1),
        spec_is_position_of(s, k2, p2),
    ensures
        spec_replace_applies(s, p1, p2),
        spec_char_of_position(s, p1) == k1,
        spec_char_of_position(s, p2) == k2,
{
    lemma_line_starts(s);
    lemma_position_fits(s, k1, p1);
    lemma_position_fits(s, k2, p2);
    lemma_char_of_position_on_line(s, p1);
    lemma_char_of_position_on_line(s, p2);
    lemma_offset_injective(s, k1, spec_char_of_position(s, p1));
    lemma_offset_injective(s, k2, spec_char_of_position(s, p2));
    if p1.line > p2.line {
        assert(spec_line_starts(s)[p2.line + 1] <= spec_line_starts(s)[p1.line as int]);
    }
}

/// The edit that `TextEditor::replace` records for a replacement from `start`
/// to `end` of `s` by `x`.
pub open spec fn spec_replace_edit(s: Seq<char>, start: CharacterPosition, end: CharacterPosition, x: Seq<char>) -> EditView {
    EditView {
        start: spec_byte_offset(s, spec_char_of_position(s, start)) as usize,
        inserted: x,
        replaced: s.subrange(spec_char_of_position(s, start), spec_char_of_position(s, end)),
    }
}

/// Taking back the edit that a replacement records gives back the text from
/// before the replacement, and making it again gives the replaced text.
pub proof fn lemma_replace_edit_round_trip(s: Seq<char>, start: CharacterPosition, end: CharacterPosition, x: Seq<char>)
    requires
        spec_replace_applies(s, start, end),
        spec_utf8_bytes(s) + spec_utf8_bytes(x) <= usize::MAX,
    ensures
        spec_undone(spec_replaced(s, start, end, x), seq![spec_replace_edit(s, start, end, x)]) == Some(s),
        spec_redone(s, seq![spec_replace_edit(s, start, end, x)]) == Some(spec_replaced(s, start, end, x)),
{
    let i = spec_char_of_position(s, start);
    let j = spec_char_of_position(s, end);
    let n = spec_replaced(s, start, end, x);
    let edit = spec_replace_edit(s, start, end, x);
    let m = s.subrange(i, j);
    let a = spec_byte_offset(s, i) as int;
    lemma_char_of_position_on_line(s, start);
    lemma_char_of_position_on_line(s, end);
    lemma_offset_is_boundary(s, i);
    lemma_offset_is_boundary(s, j);
    lemma_offset_split(s, i, j);
    lemma_offsets_after_splice(s, i, j, x, i);
    lemma_offsets_after_splice(s, i, j, x, s.len() as int);
    lemma_offsets_in_insertion(s, i, j, x, x.len() as int);
    assert(x.take(x.len() as int) =~= x);
    assert(s.take(s.len() as int) =~= s);
    assert(n.take(n.len() as int) =~= n);
    // Taking it back.
    let bx = spec_utf8_bytes(x) as int;
    lemma_offset_is_boundary(n, i + x.len());
    assert(spec_char_at(n, a) == i) by {
        let k = spec_char_at(n, a);
        lemma_offset_injective(n, k, i);
    }
    assert(spec_char_at(n, a + bx) == i + x.len()) by {
        let k = spec_char_at(n, a + bx);
        lemma_offset_injective(n, k, i + x.len());
    }
    assert(spec_edit_applies(n, a, bx, m));
    assert(spec_spliced(n, i, i + x.len(), m) =~= s);
    assert(seq![edit].drop_last() =~= Seq::<EditView>::empty());
    // Making it again.
    let bm = spec_utf8_bytes(m) as int;
    assert(spec_char_at(s, a) == i) by {
        let k = spec_char_at(s, a);
        lemma_offset_injective(s, k, i);
    }
    assert(spec_char_at(s, a + bm) == j) by {
        let k = spec_char_at(s, a + bm);
        lemma_offset_injective(s, k, j);
    }
    assert(spec_edit_applies(s, a, bm, x));
    assert(seq![edit].drop_first() =~= Seq::<EditView>::empty());
    assert(edit.start as int == a);
    assert(seq![edit][0] == edit);
    assert(seq![edit].last() == edit);
    reveal_with_fuel(spec_undone, 2);
    reveal_with_fuel(spec_redone, 2);
}

/// An edit keeps every line colored as its contents say: where the lines were
/// colored so before a replacement, they are after it.
pub proof fn lemma_replace_keeps_colors(
    before: TextEditor,
    after: TextEditor,
    start: CharacterPosition,
    end: CharacterPosition,
    x: Seq<char>,
)
    requires
        before.layout_wf(),
        before.colors_current(),
        spec_replace_applies(before.text@, start, end),
        before.spec_replaced_into(after, start, end, x),
    ensures
        after.colors_current(),
{
    let s = before.text@;
    let i = spec_char_of_position(s, start);
    let j = spec_char_of_position(s, end);
    let first = start.line as int;
    let last = end.line as int;
    let added = spec_added_lines(x);
    lemma_char_of_position_on_line(s, start);
    lemma_char_of_position_on_line(s, end);
    lemma_first_line_after_splice(s, i, j, x, first, last);
    assert forall|l: int| 0 <= l < after.lines@.len() implies #[trigger] after.lines@[l].colors@ == spec_comment_colors(
        spec_line(after.text@, l),
    ) by {
        if l < first {
            lemma_line_before_splice(s, i, j, x, first, last, l);
        } else if l > first + added {
            lemma_line_after_splice(s, i, j, x, first, last, l - first - added - 1);
        }
    }
}

/// The cursors, without any that starts where an earlier one does.
pub open spec fn spec_distinct_cursors(cursors: Seq<Cursor>) -> Seq<Cursor>
    decreases cursors.len(),
{
    if cursors.len() == 0 {
        Seq::empty()
    } else {
        let kept = spec_distinct_cursors(cursors.drop_last());
        if exists|m: int| 0 <= m < kept.len() && (#[trigger] kept[m]).start.index == cursors.last().start.index {
            kept
        } else {
            kept.push(cursors.last())
        }
    }
}

/// `position` moved `offset` characters to the left in `s`, as
/// `TextEditor::move_position_left` describes.
pub open spec fn spec_moved_left(s: Seq<char>, position: CharacterPosition, offset: int, wrap: bool) -> CharacterPosition
    decreases offset,
{
    if offset <= 0 {
        position
    } else if offset <= position.column || !wrap || position.line == 0 {
        CharacterPosition {
            column: if position.column >= offset { (position.column - offset) as usize } else { 0 },
            ..position
        }
    } else {
        let line = position.line - 1;
        spec_moved_left(
            s,
            CharacterPosition { line: line as usize, column: spec_line(s, line).len() as usize },
            offset - position.column - 1,
            wrap,
        )
    }
}

/// `position` moved `offset` characters to the right in `s`, as
/// `TextEditor::move_position_right` describes.
pub open spec fn spec_moved_right(s: Seq<char>, position: CharacterPosition, offset: int, wrap: bool) -> CharacterPosition
    decreases offset,
{
    let length = spec_line(s, position.line as int).len() as int;
    if offset <= 0 {
        position
    } else if offset <= length - position.column || !wrap || position.line + 2 >= spec_line_starts(s).len()
        || position.column > length {
        CharacterPosition {
            column: if position.column + offset < length { (position.column + offset) as usize } else { length as usize },
            ..position
        }
    } else {
        spec_moved_right(
            s,
            CharacterPosition { line: (position.line + 1) as usize, column: 0 },
            offset - (length - position.column + 1),
            wrap,
        )
    }
}

/// Whether `position` is where character `k` of `s` is: on the line that holds
/// it, as many columns in as it is characters past the line's start.
pub open spec fn spec_is_position_of(s: Seq<char>, k: int, position: CharacterPosition) -> bool {
    let starts = spec_line_starts(s);
    &&& position.line < starts.len()
    &&& starts[position.line as int] <= k
    &&& (position.line + 1 < starts.len() ==> k < starts[position.line + 1])
    &&& position.column == k - starts[position.line as int]
}

/// A line is no longer than the text, and its characters fit in memory where
/// the text's bytes do.
proof fn lemma_line_length_bound(s: Seq<char>, j: int)
    requires
        0 <= j < spec_line_starts(s).len(),
    ensures
        spec_line(s, j).len() <= s.len() <= spec_utf8_bytes(s),
{
    lemma_line_starts(s);
    lemma_offset_monotone(s, 0, s.len() as int);
    assert(s.take(s.len() as int) =~= s);
    assert(s.take(0) =~= Seq::<char>::empty());
}

/// Line starts lie at growing byte offsets.
proof fn lemma_start_offsets_grow(s: Seq<char>)
    ensures
        forall|i: int, j: int| 0 <= i < j < spec_line_starts(s).len()
            ==> spec_byte_offset(s, #[trigger] spec_line_starts(s)[i]) < spec_byte_offset(s, #[trigger] spec_line_starts(s)[j]),
{
    lemma_line_starts(s);
    let starts = spec_line_starts(s);
    assert forall|i: int, j: int| 0 <= i < j < starts.len()
        implies spec_byte_offset(s, #[trigger] starts[i]) < spec_byte_offset(s, #[trigger] starts[j]) by {
        lemma_offset_monotone(s, starts[i], starts[j]);
    }
}

} // verus!
