use text_editor::{Color, ScrollAmount, TextEditor};

#[test]
fn insert_advances_by_bytes() {
    let mut editor = TextEditor::new("", 10);
    editor.insert_text("aé😀");
    assert_eq!(editor.cursor_position(), 7);
    assert_eq!(editor.text(), "aé😀");
    editor.insert_text("b");
    assert_eq!(editor.cursor_position(), 8);
    assert_eq!(editor.text(), "aé😀b");
    assert_eq!(editor.byte_len(), 8);
}

#[test]
fn insert_at_cursor_in_the_middle() {
    let mut editor = TextEditor::new("world", 10);
    editor.insert_text("hello ");
    assert_eq!(editor.text(), "hello world");
    assert_eq!(editor.cursor_position(), 6);
}

#[test]
fn insert_before_viewport_keeps_its_offset() {
    let mut editor = TextEditor::new("ab\ncd", 10);
    editor.scroll(ScrollAmount::Down { lines: 1 });
    assert_eq!(editor.text_start_idx(), 3);
    editor.insert_text("€");
    assert_eq!(editor.text(), "€ab\ncd");
    assert_eq!(editor.text_start_idx(), 3);
    let lines = editor.layout_lines_naive(1);
    assert_eq!(editor.line_text(&lines[0]), "ab");
}

#[test]
fn anchor_inside_a_character_moves_to_its_start() {
    let mut editor = TextEditor::new("a\nb", 10);
    editor.scroll(ScrollAmount::Down { lines: 1 });
    assert_eq!(editor.text_start_idx(), 2);
    editor.insert_text("€");
    assert_eq!(editor.text_start_idx(), 0);
}

#[test]
fn anchor_never_rests_at_the_end_of_text() {
    let mut editor = TextEditor::new("b", 10);
    editor.insert_text("a\n");
    editor.scroll(ScrollAmount::Down { lines: 1 });
    assert_eq!(editor.text_start_idx(), 2);
    editor.delete();
    assert_eq!(editor.text(), "a\n");
    assert_eq!(editor.text_start_idx(), 1);
}

#[test]
fn control_key_state() {
    let mut editor = TextEditor::new("", 10);
    assert!(!editor.ctrl_down());
    editor.set_ctrl_down(true);
    assert!(editor.ctrl_down());
}

#[test]
fn backspace_at_start_does_nothing() {
    let mut editor = TextEditor::new("abc", 10);
    editor.backspace();
    assert_eq!(editor.text(), "abc");
    assert_eq!(editor.cursor_position(), 0);
}

#[test]
fn backspace_removes_a_whole_character() {
    let mut editor = TextEditor::new("", 10);
    editor.insert_text("a😀");
    editor.backspace();
    assert_eq!(editor.text(), "a");
    assert_eq!(editor.cursor_position(), 1);
    editor.backspace();
    assert_eq!(editor.text(), "");
    assert_eq!(editor.cursor_position(), 0);
}

#[test]
fn delete_at_end_does_nothing() {
    let mut editor = TextEditor::new("", 10);
    editor.insert_text("ab");
    editor.delete();
    assert_eq!(editor.text(), "ab");
    assert_eq!(editor.cursor_position(), 2);
}

#[test]
fn delete_removes_the_character_at_the_cursor() {
    let mut editor = TextEditor::new("é😀c", 10);
    editor.delete();
    assert_eq!(editor.text(), "😀c");
    editor.delete();
    assert_eq!(editor.text(), "c");
    assert_eq!(editor.cursor_position(), 0);
}

#[test]
fn delete_before_viewport_keeps_its_offset() {
    let mut editor = TextEditor::new("é\nab", 10);
    editor.scroll(ScrollAmount::Down { lines: 1 });
    assert_eq!(editor.text_start_idx(), 3);
    editor.delete();
    assert_eq!(editor.text(), "\nab");
    // offset 3 is now past the end, so it settles on the last character
    assert_eq!(editor.text_start_idx(), 2);
}

#[test]
fn empty_buffer_edits() {
    let mut editor = TextEditor::new("", 3);
    editor.delete();
    editor.backspace();
    assert_eq!(editor.text(), "");
    assert_eq!(editor.wrap_at(), 3);
}

#[test]
fn color_keeps_its_channels() {
    let c = Color::new(1, 2, 3, 4);
    assert_eq!((c.r, c.g, c.b, c.a), (1, 2, 3, 4));
}
