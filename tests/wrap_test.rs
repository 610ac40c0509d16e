use text_editor::{Line, TextEditor};

/// Each line's text followed by a newline, for comparing with expected output.
fn join_wrapped(editor: &TextEditor, lines: &Vec<Line>) -> String {
    let mut s = String::new();
    for line in lines {
        s.push_str(&format!("{}\n", editor.line_text(line)));
    }
    s
}

#[test]
fn layout_single_line_cut_off() {
    let input = "this input is short";
    let editor = TextEditor::new(input, 10);
    let line = editor.layout_line_naive(0);

    assert_eq!(editor.line_text(&line), "this input");
}

#[test]
fn layout_single_line_full() {
    let input = "this";
    let editor = TextEditor::new(input, 10);
    let line = editor.layout_line_naive(0);

    assert_eq!(editor.line_text(&line), "this");
}

#[test]
fn layout_single_line_respects_char_boundry() {
    let input = "ξ··ξ··ξ··ξ··ξ··ξ··ξ··ξ··ξ··ξ··ξ··ξ··ξ··ξ··ξ··ξ··ξ··";
    let editor = TextEditor::new(input, 10);
    let line = editor.layout_line_naive(0);

    assert_eq!(editor.line_text(&line), "ξ··ξ··ξ··ξ");
}

#[test]
fn layout_single_line_respects_char_boundry_short() {
    let input = "ξ··ξ··ξ··ξ··ξ··ξ··";
    let editor = TextEditor::new(input, 10);
    let line = editor.layout_line_naive(0);

    assert_eq!(editor.line_text(&line), "ξ··ξ··ξ··ξ");
}

#[test]
fn no_wrapping() {
    let input = "this input is short and should not be wrapped.";
    let editor = TextEditor::new(input, 80);
    let lines = editor.layout_lines_naive(80);
    let line = join_wrapped(&editor, &lines);

    let expected = format!("{}\n", input);

    assert_eq!(line, expected);
}

#[test]
fn has_newline() {
    let input = "this input is wrapped here\nand this is on a new line.";
    let editor = TextEditor::new(input, 10);
    let lines = editor.layout_lines_naive(80);
    let line = join_wrapped(&editor, &lines);

    let expected = "this input\n is wrappe\nd here\nand this i\ns on a new\n line.\n";

    assert_eq!(line, expected);
}

#[test]
fn wrap_at_10() {
    let input = "This text should be wrapped several times.";
    let editor = TextEditor::new(input, 10);
    let lines = editor.layout_lines_naive(10);
    let line = join_wrapped(&editor, &lines);

    let expected = "This text \nshould be \nwrapped se\nveral time\ns.\n";

    assert_eq!(line, expected);
}

#[test]
fn wrap_a_few_times() {
    let editor = TextEditor::new("this input should be wrapped a few times.", 10);
    let lines = editor.layout_lines_naive(80);
    let texts: Vec<String> = lines.iter().map(|l| editor.line_text(l)).collect();
    assert_eq!(texts, vec!["this input", " should be", " wrapped a", " few times", "."]);
}

#[test]
fn multi_byte_characters_count_once() {
    // each of these characters takes two bytes
    let input = "ξ··ξ··ξ··ξ··";
    let editor = TextEditor::new(input, 10);
    let line = editor.layout_line_naive(0);
    assert_eq!(editor.line_text(&line), "ξ··ξ··ξ··ξ");
    assert_eq!(line.end, 20);
    assert!(!line.ends_with_newline);
    let lines = editor.layout_lines_naive(10);
    assert_eq!(lines.len(), 2);
    assert_eq!(editor.line_text(&lines[1]), "··");
}

#[test]
fn line_ends_never_split_a_character() {
    let input = "aé😀b\nξ·😀😀😀x€€€";
    for wrap_at in 1..6 {
        let editor = TextEditor::new(input, wrap_at);
        let mut start = 0;
        while start <= editor.byte_len() {
            if editor.is_char_boundary(start) {
                let line = editor.layout_line_naive(start);
                assert!(editor.is_char_boundary(line.end));
                let above = editor.layout_line_rev_naive(start);
                assert!(editor.is_char_boundary(above.start));
                assert!(editor.is_char_boundary(above.end));
                assert!(above.start <= start);
            }
            start += 1;
        }
    }
}

#[test]
fn lines_put_back_together_give_the_text() {
    let input = "ab\ncd\n\nefghij😀klm\nnop\n";
    for wrap_at in 1..8 {
        let editor = TextEditor::new(input, wrap_at);
        let lines = editor.layout_lines_from(0, usize::MAX);
        let mut s = String::new();
        for line in &lines {
            s.push_str(&editor.line_text(line));
            if line.ends_with_newline {
                s.push('\n');
            }
        }
        assert_eq!(s, input);
    }
}

#[test]
fn empty_buffer_has_no_lines() {
    let editor = TextEditor::new("", 10);
    assert_eq!(editor.layout_lines_naive(80).len(), 0);
    assert_eq!(editor.byte_len(), 0);
}

#[test]
fn short_buffer_is_one_line() {
    let editor = TextEditor::new("this", 10);
    let lines = editor.layout_lines_naive(80);
    assert_eq!(lines, vec![Line { start: 0, end: 4, ends_with_newline: false }]);
}

#[test]
fn line_of_exactly_wrap_at_characters_takes_its_newline() {
    let editor = TextEditor::new("abcdefghij\nk", 10);
    let lines = editor.layout_lines_naive(80);
    assert_eq!(
        lines,
        vec![
            Line { start: 0, end: 10, ends_with_newline: true },
            Line { start: 11, end: 12, ends_with_newline: false },
        ]
    );
}

#[test]
fn zero_width_stops_at_first_line() {
    let editor = TextEditor::new("abc", 0);
    let lines = editor.layout_lines_naive(80);
    assert_eq!(lines, vec![Line { start: 0, end: 0, ends_with_newline: false }]);
}

#[test]
fn line_above_is_found_by_rewrapping() {
    let editor = TextEditor::new("this input is wrapped here\nand this is on a new line.", 10);
    // the line above "and this i" is "d here", closed by the newline
    let above = editor.layout_line_rev_naive(27);
    assert_eq!(above, Line { start: 20, end: 26, ends_with_newline: true });
    let above = editor.layout_line_rev_naive(20);
    assert_eq!(above, Line { start: 10, end: 20, ends_with_newline: false });
    let top = editor.layout_line_rev_naive(0);
    assert_eq!(top.start, 0);
}

#[test]
fn max_lines_limits_the_layout() {
    let editor = TextEditor::new("this input should be wrapped a few times.", 10);
    let lines = editor.layout_lines_naive(2);
    assert_eq!(lines.len(), 2);
    assert_eq!(editor.line_text(&lines[1]), " should be");
    assert_eq!(editor.layout_lines_naive(0).len(), 0);
}
