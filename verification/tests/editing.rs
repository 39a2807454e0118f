use lib::interface::navigation::NavigationKeys;
use lib::interface::text_editor::{CharacterPosition, Cursor, CursorLocation, TextEditor};
use lib::interface::typing::is_control;

fn position(line: usize, column: usize) -> CharacterPosition {
    CharacterPosition { line, column }
}

fn cursor_at(editor: &TextEditor, line: usize, column: usize) -> Cursor {
    let index = editor.index_of_position(position(line, column)).unwrap();
    Cursor { start: CursorLocation { position: position(line, column), index }, end: None }
}

fn keys() -> NavigationKeys {
    NavigationKeys::default()
}

#[test]
fn arrow_keys_move_the_cursors() {
    let mut editor = TextEditor::new("abc\nd\nef\n".to_owned());
    editor.cursors[0] = cursor_at(&editor, 1, 1);
    assert!(editor.move_cursors_with_keys(NavigationKeys { left: true, ..keys() }, 10));
    assert_eq!(editor.cursors[0].start.position, position(1, 0));
    assert_eq!(editor.cursors[0].start.index, 4);
    assert!(editor.move_cursors_with_keys(NavigationKeys { left: true, ..keys() }, 10));
    assert_eq!(editor.cursors[0].start.position, position(0, 3));
    assert_eq!(editor.cursors[0].start.index, 3);
    assert!(editor.move_cursors_with_keys(NavigationKeys { right: true, ..keys() }, 10));
    assert_eq!(editor.cursors[0].start.position, position(1, 0));
}

#[test]
fn up_and_down_keep_the_column() {
    let mut editor = TextEditor::new("abc\nd\nef\n".to_owned());
    editor.cursors[0] = cursor_at(&editor, 0, 3);
    assert!(editor.move_cursors_with_keys(NavigationKeys { down: true, ..keys() }, 10));
    // The column stays; the index is that of the line's end.
    assert_eq!(editor.cursors[0].start.position, position(1, 3));
    assert_eq!(editor.cursors[0].start.index, 5);
    assert!(editor.move_cursors_with_keys(NavigationKeys { down: true, ..keys() }, 10));
    assert_eq!(editor.cursors[0].start.position, position(2, 3));
    assert_eq!(editor.cursors[0].start.index, 8);
    // Not past the line before the last newline.
    assert!(!editor.move_cursors_with_keys(NavigationKeys { down: true, ..keys() }, 10));
    assert_eq!(editor.cursors[0].start.position, position(2, 3));
    assert!(editor.move_cursors_with_keys(NavigationKeys { up: true, ..keys() }, 10));
    assert_eq!(editor.cursors[0].start.position, position(1, 3));
}

#[test]
fn home_end_and_pages() {
    let mut editor = TextEditor::new("abc\nd\nef\ngh\n".to_owned());
    editor.cursors[0] = cursor_at(&editor, 2, 1);
    assert!(editor.move_cursors_with_keys(NavigationKeys { home: true, ..keys() }, 10));
    assert_eq!(editor.cursors[0].start.position, position(2, 0));
    assert!(editor.move_cursors_with_keys(NavigationKeys { end: true, ..keys() }, 10));
    assert_eq!(editor.cursors[0].start.position, position(2, 2));
    assert!(editor.move_cursors_with_keys(NavigationKeys { page_up: true, ..keys() }, 2));
    assert_eq!(editor.cursors[0].start.position, position(1, 2));
    assert!(editor.move_cursors_with_keys(NavigationKeys { page_up: true, ..keys() }, 5));
    assert_eq!(editor.cursors[0].start.position, position(0, 2));
    assert!(editor.move_cursors_with_keys(NavigationKeys { page_down: true, ..keys() }, 10));
    assert_eq!(editor.cursors[0].start.position, position(3, 2));
    assert_eq!(editor.cursors[0].start.index, 11);
}

#[test]
fn no_key_moves_nothing() {
    let mut editor = TextEditor::new("ab\n".to_owned());
    assert!(!editor.move_cursors_with_keys(keys(), 10));
    assert_eq!(editor.cursors[0].start.index, 0);
}

#[test]
fn typing_inserts_at_every_cursor() {
    let mut editor = TextEditor::new("ab\ncd\n".to_owned());
    editor.cursors.push(cursor_at(&editor, 1, 1));
    assert!(editor.type_character('x'));
    assert_eq!(editor.text, "xab\ncxd\n");
    assert_eq!(editor.cursors[0].start.index, 1);
    assert_eq!(editor.cursors[1].start.position, position(1, 2));
    assert_eq!(editor.history.buffer.len(), 2);
}

#[test]
fn typing_a_newline_splits_the_line() {
    let mut editor = TextEditor::new("ab\n".to_owned());
    editor.cursors[0] = cursor_at(&editor, 0, 1);
    assert!(editor.type_character('\n'));
    assert_eq!(editor.text, "a\nb\n");
    assert_eq!(editor.cursors[0].start.position, position(1, 0));
    assert_eq!(editor.num_lines(), 2);
}

#[test]
fn backspace_removes_the_character_before() {
    let mut editor = TextEditor::new("ab\ncd\n".to_owned());
    editor.cursors[0] = cursor_at(&editor, 1, 0);
    assert!(editor.type_character('\u{8}'));
    assert_eq!(editor.text, "abcd\n");
    assert_eq!(editor.cursors[0].start.position, position(0, 2));
    // At the start of the text there is nothing to remove.
    let mut start = TextEditor::new("ab\n".to_owned());
    assert!(!start.type_character('\u{8}'));
    assert_eq!(start.text, "ab\n");
}

#[test]
fn delete_removes_the_character_after_but_not_the_last_newline() {
    let mut editor = TextEditor::new("ab\ncd\n".to_owned());
    editor.cursors[0] = cursor_at(&editor, 0, 2);
    assert!(editor.type_character('\u{7f}'));
    assert_eq!(editor.text, "abcd\n");
    editor.cursors[0] = cursor_at(&editor, 0, 4);
    assert!(!editor.type_character('\u{7f}'));
    assert_eq!(editor.text, "abcd\n");
}

#[test]
fn other_control_characters_do_nothing() {
    let mut editor = TextEditor::new("ab\n".to_owned());
    assert!(!editor.type_character('\u{1b}'));
    assert_eq!(editor.text, "ab\n");
    assert!(is_control('\u{0}'));
    assert!(is_control('\u{9f}'));
    assert!(!is_control('a'));
    assert!(!is_control('\u{a0}'));
}

#[test]
fn typing_keeps_comment_colors_current() {
    let mut editor = TextEditor::new("ab\n".to_owned());
    editor.cursors[0] = cursor_at(&editor, 0, 1);
    editor.type_character(';');
    assert_eq!(editor.text, "a;b\n");
    assert_eq!(editor.lines[0].colors.len(), 1);
    assert_eq!(editor.lines[0].colors[0].relative_offset, 1);
}
