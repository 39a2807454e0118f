use lib::interface::text_editor::{
    CharacterPosition, ColorChoice, Cursor, CursorLocation, Edit, EditHistory, TextEditor,
};

fn position(line: usize, column: usize) -> CharacterPosition {
    CharacterPosition { line, column }
}

fn location(line: usize, column: usize, index: usize) -> CursorLocation {
    CursorLocation { position: position(line, column), index }
}

fn offsets(editor: &TextEditor) -> Vec<usize> {
    editor.lines.iter().map(|line| line.byte_offset).collect()
}

#[test]
fn lines_begin_after_each_newline() {
    let lines = TextEditor::line_indecies_from("a\nbc\n");
    let offsets: Vec<usize> = lines.iter().map(|line| line.byte_offset).collect();
    assert_eq!(offsets, vec![0, 2, 5]);
    assert!(lines.iter().all(|line| line.colors.is_empty()));
}

#[test]
fn lines_are_measured_in_bytes_and_characters() {
    let editor = TextEditor::new("é\nx".to_owned());
    assert_eq!(offsets(&editor), vec![0, 3]);
    assert_eq!(editor.num_lines(), 1);
    assert_eq!(editor.byte_range_of_line(0), Some(0..2));
    assert_eq!(editor.byte_range_of_line(1), Some(3..4));
    assert_eq!(editor.byte_range_of_line(2), None);
    assert_eq!(editor.get_line(0), Some("é"));
    assert_eq!(editor.get_line(1), Some("x"));
    assert_eq!(editor.length_of_line(0), Some(1));
    assert_eq!(editor.columns_in_line(1), Some(1));
    assert_eq!(editor.length_of_line(2), None);
}

#[test]
fn comments_are_colored() {
    let editor = TextEditor::new("SET X 1 ; one\nADD X 1 X\n".to_owned());
    assert_eq!(editor.lines[0].colors.len(), 1);
    assert_eq!(editor.lines[0].colors[0].relative_offset, 8);
    assert!(matches!(editor.lines[0].colors[0].color_choice, ColorChoice::Comment));
    assert!(editor.lines[1].colors.is_empty());

    let segments = editor.color_segments_of_line(0).unwrap();
    assert_eq!(segments.len(), 2);
    assert_eq!(segments[0].0, 0..8);
    assert!(matches!(segments[0].1, ColorChoice::Default));
    assert_eq!(segments[1].0, 8..13);
    assert!(matches!(segments[1].1, ColorChoice::Comment));

    let plain = editor.color_segments_of_line(1).unwrap();
    assert_eq!(plain.len(), 1);
    assert_eq!(plain[0].0, 14..23);
    assert!(editor.color_segments_of_line(3).is_none());
}

#[test]
fn positions_and_indices_convert() {
    let editor = TextEditor::new("ab\ncd\n".to_owned());
    assert_eq!(editor.index_of_position(position(1, 1)), Some(4));
    // A column past the line's end stands for the line's end.
    assert_eq!(editor.index_of_position(position(1, 5)), Some(5));
    assert_eq!(editor.index_of_position(position(7, 0)), None);
    assert_eq!(editor.position_of_index(4), Some(position(1, 1)));
    assert_eq!(editor.position_of_index(2), Some(position(0, 2)));
    assert_eq!(editor.position_of_index(6), Some(position(2, 0)));
    assert_eq!(editor.position_of_index(7), None);
    assert_eq!(editor.get_character(position(1, 1)), Some('d'));
    assert_eq!(editor.get_character(position(1, 2)), None);
}

#[test]
fn inserting_moves_lines_and_cursors() {
    let mut editor = TextEditor::new("ab\ncd\n".to_owned());
    editor.cursors.push(Cursor { start: location(1, 1, 4), end: None });
    assert_eq!(editor.insert(position(0, 1), "X\nY"), Some(()));
    assert_eq!(editor.text, "aX\nYb\ncd\n");
    assert_eq!(offsets(&editor), vec![0, 3, 6, 9]);
    assert_eq!(editor.num_lines(), 3);
    // Before the insertion: unmoved.
    assert_eq!(editor.cursors[0].start.index, 0);
    assert_eq!(editor.cursors[0].start.position, position(0, 0));
    // On a later line: moved along with its character.
    assert_eq!(editor.cursors[1].start.index, 7);
    assert_eq!(editor.cursors[1].start.position, position(2, 1));
    assert_eq!(editor.history.buffer.len(), 1);
    assert_eq!(editor.history.buffer[0].start, 1);
    assert_eq!(editor.history.buffer[0].inserted, "X\nY");
    assert_eq!(editor.history.buffer[0].replaced, "");
}

#[test]
fn a_cursor_within_the_replaced_text_goes_to_the_insertion_end() {
    let mut editor = TextEditor::new("abcd\n".to_owned());
    editor.cursors[0] = Cursor { start: location(0, 2, 2), end: None };
    assert_eq!(editor.replace(position(0, 1)..position(0, 3), "XYZ"), Some(()));
    assert_eq!(editor.text, "aXYZd\n");
    assert_eq!(editor.cursors[0].start.index, 4);
    assert_eq!(editor.cursors[0].start.position, position(0, 4));
    assert_eq!(editor.history.buffer[0].replaced, "bc");
}

#[test]
fn removing_joins_lines() {
    let mut editor = TextEditor::new("ab\ncd\n".to_owned());
    assert_eq!(editor.remove(position(0, 1)..position(1, 1)), Some(()));
    assert_eq!(editor.text, "ad\n");
    assert_eq!(offsets(&editor), vec![0, 3]);
}

#[test]
fn replacing_off_the_text_changes_nothing() {
    let mut editor = TextEditor::new("ab\n".to_owned());
    assert_eq!(editor.insert(position(5, 0), "x"), None);
    assert_eq!(editor.text, "ab\n");
    assert!(editor.history.buffer.is_empty());
}

#[test]
fn undo_and_redo_restore_the_text() {
    let mut editor = TextEditor::new("ab\ncd\n".to_owned());
    editor.insert(position(0, 1), "X\nY").unwrap();
    editor.history.insert_buffered_edits();
    editor.history.finish_edit_group();
    editor.undo();
    assert_eq!(editor.text, "ab\ncd\n");
    assert_eq!(offsets(&editor), vec![0, 3, 6]);
    editor.redo();
    assert_eq!(editor.text, "aX\nYb\ncd\n");
    assert_eq!(offsets(&editor), vec![0, 3, 6, 9]);
    // Nothing more to redo.
    editor.redo();
    assert_eq!(editor.text, "aX\nYb\ncd\n");
}

#[test]
fn undo_takes_back_a_group_from_its_last_edit() {
    let mut editor = TextEditor::new("abc\n".to_owned());
    editor.insert(position(0, 3), "d").unwrap();
    editor.remove(position(0, 0)..position(0, 1)).unwrap();
    assert_eq!(editor.text, "bcd\n");
    editor.history.insert_buffered_edits();
    editor.undo();
    assert_eq!(editor.text, "abc\n");
}

#[test]
fn moving_left_wraps_to_the_line_before() {
    let editor = TextEditor::new("ab\ncd\n".to_owned());
    assert_eq!(editor.move_position_left(position(1, 0), 1, true), position(0, 2));
    assert_eq!(editor.move_position_left(position(1, 0), 1, false), position(1, 0));
    assert_eq!(editor.move_position_left(position(1, 1), 3, true), position(0, 1));
    assert_eq!(editor.move_position_left(position(0, 1), 5, true), position(0, 0));
}

#[test]
fn moving_right_wraps_to_the_line_after() {
    let editor = TextEditor::new("ab\ncd\n".to_owned());
    assert_eq!(editor.move_position_right(position(0, 2), 1, true), position(1, 0));
    assert_eq!(editor.move_position_right(position(0, 2), 1, false), position(0, 2));
    assert_eq!(editor.move_position_right(position(0, 0), 4, true), position(1, 1));
    // The final line does not wrap.
    assert_eq!(editor.move_position_right(position(1, 1), 9, true), position(1, 2));
}

#[test]
fn positions_are_constrained_to_the_text() {
    let editor = TextEditor::new("ab\ncd\n".to_owned());
    assert_eq!(editor.constrain_position_to_contents(position(5, 9)), position(1, 2));
    assert_eq!(editor.constrain_position_to_contents(position(0, 9)), position(0, 2));
    assert_eq!(editor.constrain_position_to_contents(position(1, 1)), position(1, 1));
}

#[test]
fn duplicate_cursors_are_dropped() {
    let mut editor = TextEditor::new("ab\ncd\n".to_owned());
    editor.cursors.push(Cursor { start: location(0, 0, 0), end: Some(location(0, 1, 1)) });
    editor.cursors.push(Cursor { start: location(1, 0, 3), end: None });
    editor.deduplicate_cursors();
    assert_eq!(editor.cursors.len(), 2);
    assert_eq!(editor.cursors[0].end, None);
    assert_eq!(editor.cursors[1].start.index, 3);
}

#[test]
fn cursor_ranges_run_from_the_lower_end() {
    let cursor = Cursor { start: location(1, 2, 5), end: Some(location(0, 2, 2)) };
    assert_eq!(cursor.index_range(), 2..5);
    let range = cursor.range();
    assert_eq!(range.start.index, 2);
    assert_eq!(range.end.index, 5);
    assert_eq!(cursor.position_range(), position(0, 2)..position(1, 2));
    let single = Cursor { start: location(0, 1, 1), end: None };
    assert_eq!(single.index_range(), 1..1);
}

fn edit(start: usize, inserted: &str, replaced: &str) -> Edit {
    Edit { start, inserted: inserted.to_owned(), replaced: replaced.to_owned() }
}

#[test]
fn edits_are_grouped_until_the_group_is_finished() {
    let mut history = EditHistory::new();
    history.insert_edit(edit(0, "a", ""));
    history.insert_edit(edit(1, "b", ""));
    // An edit that changes nothing is not recorded.
    history.insert_edit(edit(2, "", ""));
    history.finish_edit_group();
    history.insert_edit(edit(2, "c", ""));

    let last = history.undo().unwrap();
    assert_eq!(last.edits.len(), 1);
    assert_eq!(last.edits[0].inserted, "c");
    let first = history.undo().unwrap();
    assert_eq!(first.edits.len(), 2);
    assert_eq!(first.edits[1].inserted, "b");
    assert!(history.undo().is_none());

    let again = history.redo().unwrap();
    assert_eq!(again.edits.len(), 2);
    assert_eq!(again.edits[0].inserted, "a");
}

#[test]
fn a_new_edit_drops_what_could_be_redone() {
    let mut history = EditHistory::new();
    history.insert_edit(edit(0, "a", ""));
    history.finish_edit_group();
    history.insert_edit(edit(1, "b", ""));
    history.finish_edit_group();
    history.undo().unwrap();
    history.insert_edit(edit(1, "c", ""));
    history.finish_edit_group();
    assert!(history.redo().is_none());
    let last = history.undo().unwrap();
    assert_eq!(last.edits[0].inserted, "c");
}

#[test]
fn buffered_edits_join_the_open_group() {
    let mut history = EditHistory::new();
    history.insert_edit(edit(0, "a", ""));
    history.buffer.push(edit(1, "b", ""));
    history.insert_buffered_edits();
    assert!(history.buffer.is_empty());
    let group = history.undo().unwrap();
    assert_eq!(group.edits.len(), 2);
    assert_eq!(group.edits[1].inserted, "b");
}
