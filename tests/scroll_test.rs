use text_editor::{Line, ScrollAmount, TextEditor};

/// Each line's text followed by a newline, for comparing with expected output.
fn join_scrolled(editor: &TextEditor, lines: &Vec<Line>) -> String {
    let mut s = String::new();
    for line in lines {
        s.push_str(&format!("{}\n", editor.line_text(line)));
    }
    s
}

#[test]
fn scroll_several_times() {
    let input = "this input should be wrapped a few times.";
    let wrap_at = 10;
    let mut editor = TextEditor::new(input, wrap_at);

    let lines_before = editor.layout_lines_naive(80);
    let line_before = join_scrolled(&editor, &lines_before);
    let expected_before = "this input\n should be\n wrapped a\n few times\n.\n";
    assert_eq!(line_before, expected_before);

    editor.scroll(ScrollAmount::Down { lines: 2 });

    let lines_after = editor.layout_lines_naive(80);
    let line_after = join_scrolled(&editor, &lines_after);
    let expected_after = " wrapped a\n few times\n.\n";
    assert_eq!(line_after, expected_after);

    editor.scroll(ScrollAmount::Up { lines: 3 });

    let lines_before = editor.layout_lines_naive(80);
    let line_before = join_scrolled(&editor, &lines_before);
    let expected_before = "this input\n should be\n wrapped a\n few times\n.\n";
    assert_eq!(line_before, expected_before);
}

#[test]
fn down_then_up_returns_to_the_same_line() {
    let input = "this input is wrapped here\nand this is on a new line.\n\nand one more line here";
    let mut editor = TextEditor::new(input, 10);
    // line starts: 0, 10, 20, 27, 37, 47, 54, 55, 65, 75
    for k in 0..8 {
        editor.scroll(ScrollAmount::ToStart);
        editor.scroll(ScrollAmount::Down { lines: 1 });
        let start = editor.text_start_idx();
        editor.scroll(ScrollAmount::Down { lines: k });
        editor.scroll(ScrollAmount::Up { lines: k });
        assert_eq!(editor.text_start_idx(), start);
    }
}

#[test]
fn up_then_down_returns_to_the_same_line() {
    let input = "this input is wrapped here\nand this is on a new line.\n\nand one more line here";
    let mut editor = TextEditor::new(input, 10);
    editor.scroll(ScrollAmount::Down { lines: 7 });
    let start = editor.text_start_idx();
    assert_eq!(start, 55);
    for k in 0..8 {
        editor.scroll(ScrollAmount::Up { lines: k });
        editor.scroll(ScrollAmount::Down { lines: k });
        assert_eq!(editor.text_start_idx(), start);
    }
}

#[test]
fn scroll_down_stops_before_the_end() {
    let mut editor = TextEditor::new("ab\ncd\n", 10);
    editor.scroll(ScrollAmount::Down { lines: 5 });
    assert_eq!(editor.text_start_idx(), 3);
    let lines = editor.layout_lines_naive(10);
    assert_eq!(editor.line_text(&lines[0]), "cd");
}

#[test]
fn scroll_up_stops_at_the_top() {
    let mut editor = TextEditor::new("ab\ncd", 10);
    editor.scroll(ScrollAmount::Up { lines: 4 });
    assert_eq!(editor.text_start_idx(), 0);
}

#[test]
fn scroll_to_end_and_back() {
    let mut editor = TextEditor::new("this input should be wrapped a few times.", 10);
    editor.scroll(ScrollAmount::ToEnd);
    // the cursor is on the final '.', the viewport one line above it
    assert_eq!(editor.cursor_position(), 40);
    assert_eq!(editor.text_start_idx(), 30);
    editor.scroll(ScrollAmount::ToStart);
    assert_eq!(editor.cursor_position(), 0);
    assert_eq!(editor.text_start_idx(), 0);
}

#[test]
fn scroll_to_end_lands_on_a_whole_character() {
    let mut editor = TextEditor::new("ab😀", 10);
    editor.scroll(ScrollAmount::ToEnd);
    assert_eq!(editor.cursor_position(), 2);
    assert_eq!(editor.text_start_idx(), 0);
    let mut empty = TextEditor::new("", 10);
    empty.scroll(ScrollAmount::ToEnd);
    assert_eq!(empty.cursor_position(), 0);
    assert_eq!(empty.text_start_idx(), 0);
}
