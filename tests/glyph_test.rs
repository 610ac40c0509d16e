use text_editor::{GlyphMetrics, GlyphRasterizer, Line, ScrollAmount, TextEditor, WrapPolicy};

/// Every glyph advances the pen by the same number of pixels.
struct FixedWidth {
    advance: u32,
    calls: usize,
}

impl GlyphRasterizer for FixedWidth {
    fn advance_of(&self, _c: char, _font_size: u32) -> u32 {
        self.advance
    }

    fn get_glyph(&mut self, _c: char, _font_size: u32) -> GlyphMetrics {
        self.calls += 1;
        GlyphMetrics { advance: (self.advance, 0), size: (self.advance, 10), pos: (0, 10) }
    }
}

fn texts(editor: &TextEditor, lines: &Vec<Line>) -> Vec<String> {
    lines.iter().map(|l| editor.line_text(l)).collect()
}

/// Narrow 'i' and 'l', a wide emoji, ten pixels for the rest; records the
/// font size it was asked for.
struct Proportional {
    font_sizes: Vec<u32>,
}

impl GlyphRasterizer for Proportional {
    fn advance_of(&self, c: char, _font_size: u32) -> u32 {
        match c {
            'i' | 'l' => 4,
            '😀' => 20,
            _ => 10,
        }
    }

    fn get_glyph(&mut self, c: char, font_size: u32) -> GlyphMetrics {
        self.font_sizes.push(font_size);
        let width = self.advance_of(c, font_size);
        GlyphMetrics { advance: (width, 0), size: (width, 10), pos: (0, 10) }
    }
}

#[test]
fn glyph_widths_depend_on_the_character() {
    let editor = TextEditor::with_window("illicit😀ab", 40, 1000, 10);
    let mut r = Proportional { font_sizes: vec![] };
    let lines = editor.layout_lines(&mut r);
    assert_eq!(texts(&editor, &lines), vec!["illici", "t😀", "ab"]);
    assert!(r.font_sizes.iter().all(|&f| f == 10));
    assert!(!r.font_sizes.is_empty());
}

#[test]
fn glyph_line_above_is_found_by_rewrapping() {
    let editor = TextEditor::with_window("illicit😀ab", 40, 1000, 10);
    let mut r = Proportional { font_sizes: vec![] };
    let above = editor.layout_line_rev(11, &mut r);
    assert_eq!(above, Line { start: 6, end: 11, ends_with_newline: false });
    let above = editor.layout_line_rev(6, &mut r);
    assert_eq!(above, Line { start: 0, end: 6, ends_with_newline: false });
}

#[test]
fn glyph_line_stops_before_the_width_is_reached() {
    // ten pixels per glyph in a hundred pixel window: nine glyphs fit
    let editor = TextEditor::with_window("abcdefghijklmnop", 100, 1000, 10);
    let mut r = FixedWidth { advance: 10, calls: 0 };
    let line = editor.layout_line(0, &mut r);
    assert_eq!(line, Line { start: 0, end: 9, ends_with_newline: false });
    assert_eq!(editor.line_text(&line), "abcdefghi");
}

#[test]
fn glyph_lines_follow_newlines_and_width() {
    let editor = TextEditor::with_window("abcdefghijkl\nxy😀z", 100, 1000, 10);
    let mut r = FixedWidth { advance: 10, calls: 0 };
    let lines = editor.layout_lines(&mut r);
    assert_eq!(texts(&editor, &lines), vec!["abcdefghi", "jkl", "xy😀z"]);
    assert!(lines[1].ends_with_newline);
    assert!(!lines[2].ends_with_newline);
}

#[test]
fn glyph_layout_fills_the_window_height() {
    // each line is 10 + 10 / 5 = 12 pixels high; 30 pixels hold three lines
    let editor = TextEditor::with_window("a\nb\nc\nd\ne\n", 100, 30, 10);
    let mut r = FixedWidth { advance: 10, calls: 0 };
    let lines = editor.layout_lines(&mut r);
    assert_eq!(texts(&editor, &lines), vec!["a", "b", "c"]);
}

#[test]
fn glyph_layout_of_empty_text_has_no_lines() {
    let editor = TextEditor::with_window("", 100, 30, 10);
    let mut r = FixedWidth { advance: 10, calls: 0 };
    assert_eq!(editor.layout_lines(&mut r).len(), 0);
    assert_eq!(r.calls, 0);
}

#[test]
fn glyph_wider_than_the_window_ends_the_layout() {
    let editor = TextEditor::with_window("abc", 5, 1000, 10);
    let mut r = FixedWidth { advance: 10, calls: 0 };
    let lines = editor.layout_lines(&mut r);
    assert_eq!(lines, vec![Line { start: 0, end: 0, ends_with_newline: false }]);
}

#[test]
fn glyph_scrolling_down_and_up() {
    let mut editor = TextEditor::with_window("abcdefghijkl\nxyz\nlast", 100, 1000, 10);
    let mut r = FixedWidth { advance: 10, calls: 0 };
    editor.scroll_with(ScrollAmount::Down { lines: 2 }, &mut r);
    assert_eq!(editor.text_start_idx(), 13);
    editor.scroll_with(ScrollAmount::Up { lines: 1 }, &mut r);
    assert_eq!(editor.text_start_idx(), 9);
    editor.scroll_with(ScrollAmount::Up { lines: 5 }, &mut r);
    assert_eq!(editor.text_start_idx(), 0);
    editor.scroll_with(ScrollAmount::Down { lines: 9 }, &mut r);
    assert_eq!(editor.text_start_idx(), 17);
    editor.scroll_with(ScrollAmount::ToEnd, &mut r);
    assert_eq!(editor.cursor_position(), 20);
    assert_eq!(editor.text_start_idx(), 17);
    editor.scroll_with(ScrollAmount::ToStart, &mut r);
    assert_eq!(editor.text_start_idx(), 0);
}

#[test]
fn window_and_font_updates_change_the_wrapping() {
    let mut editor = TextEditor::with_window("abcdefghijklmnop", 100, 1000, 10);
    editor.update_window_size(50, 24);
    editor.update_font_size(12);
    assert_eq!(
        editor.wrap_policy(),
        WrapPolicy::Glyphs { window_width: 50, window_height: 24, font_size: 12 }
    );
    let mut r = FixedWidth { advance: 10, calls: 0 };
    let lines = editor.layout_lines(&mut r);
    // four glyphs per line; lines of 14 pixels, so two fit in 24
    assert_eq!(texts(&editor, &lines), vec!["abcd", "efgh"]);
}

#[test]
fn setters_leave_column_wrapping_alone() {
    let mut editor = TextEditor::new("abc", 2);
    editor.update_window_size(50, 24);
    editor.update_font_size(12);
    assert_eq!(editor.wrap_policy(), WrapPolicy::Columns { wrap_at: 2 });
}
