//! The editor: a document, an edit cursor, and the viewport's anchor, with
//! wrapping and scrolling by wrapped lines.
//!
//! Lines wrap either after a fixed number of characters or when the
//! advances of a [`GlyphRasterizer`] fill the window's width. Both are
//! measures of the model in `wrap`, and every contract is exact against it:
//! in glyph mode, over the advances that the rasterizer promises.
use vstd::prelude::*;
use vstd::utf8::*;
use crate::buffer::{
    rope_byte, rope_byte_len, rope_bytes, rope_char_at, rope_delete, rope_from_str, rope_insert,
    rope_is_char_boundary, rope_slice_string,
};
use crate::wrap::{
    NEWLINE, down_from, lemma_after_newline, lemma_boundary_iff, lemma_concat_boundary, lemma_line,
    lemma_next_boundary, lemma_prev_boundary, lemma_sub_boundary, line_at, lines_from,
    logical_start, last_start_before, next_boundary, prev_boundary, prev_line_start, scan_end,
    line_end, up_from, fitted_line, next_start, lemma_inner_byte_not_newline, Measure, columns,
    screen_lines, char_at,
};
use crate::glyphs::{GlyphRasterizer, glyph_measure, lemma_same_measure, same_advances};

verus! {

/// How far to move the viewport.
#[derive(Debug, Clone, Copy, PartialEq, Eq)]
pub enum ScrollAmount {
    Up { lines: usize },
    Down { lines: usize },
    ToStart,
    ToEnd,
}

/// One wrapped line: the bytes `[start, end)` of the document, and whether a
/// newline (not part of the line) follows it.
#[derive(Debug, Clone, Copy, PartialEq, Eq)]
pub struct Line {
    pub start: usize,
    pub end: usize,
    pub ends_with_newline: bool,
}

impl View for Line {
    type V = (int, int, bool);

    open spec fn view(&self) -> (int, int, bool) {
        (self.start as int, self.end as int, self.ends_with_newline)
    }
}

/// How lines are wrapped: after a number of characters, or when the glyphs'
/// advances fill the window's width (in pixels, at a font size).
#[derive(Debug, Clone, Copy, PartialEq, Eq)]
pub enum WrapPolicy {
    Columns { wrap_at: usize },
    Glyphs { window_width: u32, window_height: u32, font_size: u32 },
}

/// A document being edited, with its cursor and the top of its viewport.
pub struct TextEditor {
    /// All of the text inside of this editor.
    content: crop::Rope,
    /// Byte offset of the cursor.
    cursor_position: usize,
    /// Byte offset of the first character of the topmost visible line.
    text_start_idx: usize,
    /// How lines are wrapped.
    policy: WrapPolicy,
    /// Whether the control key is held down.
    ctrl_down: bool,
}

impl TextEditor {
    /// The document's bytes.
    pub closed spec fn bytes(&self) -> Seq<u8> {
        rope_bytes(self.content)
    }

    pub closed spec fn cursor(&self) -> int {
        self.cursor_position as int
    }

    pub closed spec fn anchor(&self) -> int {
        self.text_start_idx as int
    }

    pub closed spec fn policy(&self) -> WrapPolicy {
        self.policy
    }

    /// Whether the control key is held down.
    pub closed spec fn ctrl(&self) -> bool {
        self.ctrl_down
    }

    /// The most characters a line may hold, when wrapping by columns.
    pub open spec fn width(&self) -> nat {
        match self.policy() {
            WrapPolicy::Columns { wrap_at } => wrap_at as nat,
            WrapPolicy::Glyphs { .. } => 0,
        }
    }

    /// The measure of column wrapping: one per character, `wrap_at` per line.
    pub open spec fn cols(&self) -> Measure {
        columns(self.width())
    }

    pub open spec fn by_columns(&self) -> bool {
        self.policy() is Columns
    }

    pub open spec fn by_glyphs(&self) -> bool {
        self.policy() is Glyphs
    }

    /// The document is valid UTF-8 whose length fits in a `usize`, the
    /// cursor and the anchor are character boundaries within it, and the
    /// anchor is at the end only when the document is empty.
    pub open spec fn wf(&self) -> bool {
        &&& valid_utf8(self.bytes())
        &&& self.bytes().len() <= usize::MAX
        &&& 0 <= self.cursor() <= self.bytes().len()
        &&& is_char_boundary(self.bytes(), self.cursor())
        &&& 0 <= self.anchor() <= self.bytes().len()
        &&& is_char_boundary(self.bytes(), self.anchor())
        &&& (self.anchor() < self.bytes().len() || self.bytes().len() == 0)
    }

    /// An editor holding `content`, with the cursor and the viewport at the
    /// start; lines wrap after `wrap_at` characters.
    pub fn new(content: &str, wrap_at: usize) -> (r: Self)
        ensures
            r.wf(),
            r.bytes() == encode_utf8(content@),
            r.cursor() == 0,
            r.anchor() == 0,
            r.policy() == (WrapPolicy::Columns { wrap_at }),
            !r.ctrl(),
    {
        let text = rope_from_str(content);
        // the rope reports its length as a `usize`, so the length fits in one
        let _len = rope_byte_len(&text);
        proof {
            encode_utf8_valid_utf8(content@);
            lemma_boundary_iff(rope_bytes(text), 0);
        }
        TextEditor {
            content: text,
            cursor_position: 0,
            text_start_idx: 0,
            policy: WrapPolicy::Columns { wrap_at },
            ctrl_down: false,
        }
    }

    /// The byte offset of the cursor.
    pub fn cursor_position(&self) -> (r: usize)
        requires
            self.wf(),
        ensures
            r == self.cursor(),
            r <= self.bytes().len(),
            is_char_boundary(self.bytes(), r as int),
    {
        self.cursor_position
    }

    /// Whether the control key is held down.
    pub fn ctrl_down(&self) -> (r: bool)
        ensures
            r == self.ctrl(),
    {
        self.ctrl_down
    }

    /// Records whether the control key is held down; nothing else changes.
    pub fn set_ctrl_down(&mut self, down: bool)
        ensures
            final(self).ctrl() == down,
            final(self).bytes() == old(self).bytes(),
            final(self).cursor() == old(self).cursor(),
            final(self).anchor() == old(self).anchor(),
            final(self).policy() == old(self).policy(),
    {
        self.ctrl_down = down;
    }

    /// How lines are wrapped.
    pub fn wrap_policy(&self) -> (r: WrapPolicy)
        ensures
            r == self.policy(),
    {
        self.policy
    }

    /// The byte offset where the visible text begins.
    pub fn text_start_idx(&self) -> (r: usize)
        requires
            self.wf(),
        ensures
            r == self.anchor(),
            r <= self.bytes().len(),
            is_char_boundary(self.bytes(), r as int),
    {
        self.text_start_idx
    }

    /// The most characters a line may hold.
    pub fn wrap_at(&self) -> (r: usize)
        requires
            self.by_columns(),
        ensures
            r == self.width(),
    {
        match self.policy {
            WrapPolicy::Columns { wrap_at } => wrap_at,
            WrapPolicy::Glyphs { .. } => 0,
        }
    }

    /// The length of the document in bytes.
    pub fn byte_len(&self) -> (r: usize)
        ensures
            r == self.bytes().len(),
    {
        rope_byte_len(&self.content)
    }

    /// Whether `offset` starts a character or is the end of the document.
    pub fn is_char_boundary(&self, offset: usize) -> (r: bool)
        requires
            self.wf(),
            offset <= self.bytes().len(),
        ensures
            r == is_char_boundary(self.bytes(), offset as int),
    {
        rope_is_char_boundary(&self.content, offset)
    }

    /// The first character boundary after `i`.
    fn next_char_boundary(&self, i: usize) -> (r: usize)
        requires
            valid_utf8(self.bytes()),
            i < self.bytes().len(),
        ensures
            r == next_boundary(self.bytes(), i as int),
    {
        let len = rope_byte_len(&self.content);
        let mut j = i + 1;
        loop
            invariant
                valid_utf8(self.bytes()),
                len == self.bytes().len(),
                i < j <= len,
                next_boundary(self.bytes(), j - 1) == next_boundary(self.bytes(), i as int),
            decreases len - j,
        {
            if j >= len || rope_is_char_boundary(&self.content, j) {
                return j;
            }
            j = j + 1;
        }
    }

    /// The last character boundary before `i`.
    fn prev_char_boundary(&self, i: usize) -> (r: usize)
        requires
            valid_utf8(self.bytes()),
            0 < i <= self.bytes().len(),
        ensures
            r == prev_boundary(self.bytes(), i as int),
    {
        let mut j = i - 1;
        loop
            invariant
                valid_utf8(self.bytes()),
                0 <= j < i <= self.bytes().len(),
                prev_boundary(self.bytes(), j + 1) == prev_boundary(self.bytes(), i as int),
            decreases j,
        {
            if j == 0 || rope_is_char_boundary(&self.content, j) {
                return j;
            }
            j = j - 1;
        }
    }

    /// The line that begins at `start`: it ends before a newline, after
    /// `wrap_at` characters, or at the end of the document.
    pub fn layout_line_naive(&self, start: usize) -> (line: Line)
        requires
            self.wf(),
            self.by_columns(),
            start <= self.bytes().len(),
            is_char_boundary(self.bytes(), start as int),
        ensures
            line@ == line_at(self.bytes(), self.cols(), start as int),
    {
        let ghost b = self.bytes();
        let len = rope_byte_len(&self.content);
        let mut idx = start;
        let mut cols = self.wrap_at();
        loop
            invariant
                self.wf(),
                b == self.bytes(),
                len == b.len(),
                start <= idx <= len,
                is_char_boundary(b, idx as int),
                self.by_columns(),
                cols <= self.width(),
                scan_end(b, self.cols(), idx as int, (self.width() - cols) as nat) == line_end(
                    b,
                    self.cols(),
                    start as int,
                ),
            decreases len - idx,
        {
            if idx >= len {
                return Line { start, end: idx, ends_with_newline: false };
            }
            if rope_byte(&self.content, idx) == NEWLINE {
                return Line { start, end: idx, ends_with_newline: true };
            }
            if cols == 0 {
                return Line { start, end: idx, ends_with_newline: false };
            }
            proof {
                lemma_next_boundary(b, idx as int);
            }
            idx = self.next_char_boundary(idx);
            cols = cols - 1;
        }
    }

    /// Where the line after `line` begins.
    fn after(&self, line: Line) -> (r: usize)
        requires
            self.wf(),
            fitted_line(self.bytes(), line@),
        ensures
            r == next_start(line@),
            is_char_boundary(self.bytes(), r as int),
            line.end <= r <= self.bytes().len(),
    {
        if line.ends_with_newline {
            proof {
                lemma_after_newline(self.bytes(), line.end as int);
            }
            line.end + 1
        } else {
            line.end
        }
    }

    /// Up to `max_lines` consecutive lines from `start`, ending early at the
    /// end of the document.
    pub fn layout_lines_from(&self, start: usize, max_lines: usize) -> (lines: Vec<Line>)
        requires
            self.wf(),
            self.by_columns(),
            start <= self.bytes().len(),
            is_char_boundary(self.bytes(), start as int),
        ensures
            lines@.map_values(|l: Line| l@) == lines_from(
                self.bytes(),
                self.cols(),
                start as int,
                max_lines as nat,
            ),
    {
        let ghost b = self.bytes();
        let ghost w = self.cols();
        let len = rope_byte_len(&self.content);
        let mut lines: Vec<Line> = Vec::new();
        let mut idx = start;
        let mut count: usize = 0;
        loop
            invariant
                self.wf(),
                self.by_columns(),
                b == self.bytes(),
                w == self.cols(),
                len == b.len(),
                idx <= len,
                is_char_boundary(b, idx as int),
                count <= max_lines,
                lines_from(b, w, start as int, max_lines as nat) == lines@.map_values(
                    |l: Line| l@,
                ) + lines_from(b, w, idx as int, (max_lines - count) as nat),
            decreases len - idx,
        {
            if count == max_lines || idx >= len {
                assert(lines_from(b, w, idx as int, (max_lines - count) as nat) =~= seq![]);
                assert(lines@.map_values(|l: Line| l@) + seq![] =~= lines@.map_values(
                    |l: Line| l@,
                ));
                return lines;
            }
            let line = self.layout_line_naive(idx);
            proof {
                lemma_line(b, w, idx as int);
            }
            let next = self.after(line);
            let ghost before = lines@;
            lines.push(line);
            assert(lines@.map_values(|l: Line| l@) =~= before.map_values(|l: Line| l@) + seq![
                line@,
            ]);
            if next <= idx {
                assert(lines_from(b, w, idx as int, (max_lines - count) as nat) == seq![line@]);
                return lines;
            }
            assert(lines_from(b, w, idx as int, (max_lines - count) as nat) == seq![line@]
                + lines_from(b, w, next as int, (max_lines - count - 1) as nat));
            idx = next;
            count = count + 1;
        }
    }

    /// Up to `max_lines` lines from the top of the viewport.
    pub fn layout_lines_naive(&self, max_lines: usize) -> (lines: Vec<Line>)
        requires
            self.wf(),
            self.by_columns(),
        ensures
            lines@.map_values(|l: Line| l@) == lines_from(
                self.bytes(),
                self.cols(),
                self.anchor(),
                max_lines as nat,
            ),
    {
        self.layout_lines_from(self.text_start_idx, max_lines)
    }

    /// The start of the unwrapped line that holds offset `i`.
    fn unwrapped_line_start(&self, i: usize) -> (p: usize)
        requires
            self.wf(),
            i < self.bytes().len(),
        ensures
            p <= i,
            p == logical_start(self.bytes(), i as int),
            is_char_boundary(self.bytes(), p as int),
    {
        let ghost b = self.bytes();
        let mut p = i;
        loop
            invariant
                self.wf(),
                b == self.bytes(),
                0 <= p <= i < b.len(),
                logical_start(b, p as int) == logical_start(b, i as int),
            ensures
                p <= i,
                p == logical_start(b, i as int),
                is_char_boundary(b, p as int),
            decreases p,
        {
            if p == 0 || rope_byte(&self.content, p - 1) == NEWLINE {
                proof {
                    if p > 0 {
                        lemma_after_newline(b, p - 1);
                    } else {
                        lemma_boundary_iff(b, 0);
                    }
                }
                break;
            }
            p = p - 1;
        }
        p
    }

    /// The line just above the one that begins at `start` (at the top, the
    /// first line). It is found by going back to the start of the unwrapped
    /// line and wrapping forwards again, so its boundaries are those that
    /// `layout_line_naive` gives.
    pub fn layout_line_rev_naive(&self, start: usize) -> (line: Line)
        requires
            self.wf(),
            self.by_columns(),
            start <= self.bytes().len(),
            is_char_boundary(self.bytes(), start as int),
        ensures
            line@ == line_at(
                self.bytes(),
                self.cols(),
                prev_line_start(self.bytes(), self.cols(), start as int),
            ),
            line.start <= start,
            start > 0 ==> line.start < start,
            is_char_boundary(self.bytes(), line.start as int),
    {
        let ghost b = self.bytes();
        let ghost w = self.cols();
        if start == 0 {
            return self.layout_line_naive(0);
        }
        let p = self.unwrapped_line_start(start - 1);
        let mut q = p;
        loop
            invariant
                self.wf(),
                self.by_columns(),
                b == self.bytes(),
                w == self.cols(),
                q < start <= b.len(),
                is_char_boundary(b, q as int),
                last_start_before(b, w, q as int, start as int) == last_start_before(
                    b,
                    w,
                    p as int,
                    start as int,
                ),
                p == logical_start(b, start - 1),
            decreases start - q,
        {
            let line = self.layout_line_naive(q);
            proof {
                lemma_line(b, w, q as int);
            }
            let next = self.after(line);
            if !(q < next && next < start) {
                return line;
            }
            q = next;
        }
    }

    /// The text of a line.
    pub fn line_text(&self, line: &Line) -> (r: String)
        requires
            self.wf(),
            line.start <= line.end <= self.bytes().len(),
            is_char_boundary(self.bytes(), line.start as int),
            is_char_boundary(self.bytes(), line.end as int),
        ensures
            encode_utf8(r@) == self.bytes().subrange(line.start as int, line.end as int),
    {
        rope_slice_string(&self.content, line.start, line.end)
    }

    /// The whole document as a `String`.
    pub fn text(&self) -> (r: String)
        requires
            self.wf(),
        ensures
            encode_utf8(r@) == self.bytes(),
    {
        let len = rope_byte_len(&self.content);
        proof {
            lemma_boundary_iff(self.bytes(), 0);
            lemma_boundary_iff(self.bytes(), len as int);
            assert(self.bytes().subrange(0, len as int) =~= self.bytes());
        }
        rope_slice_string(&self.content, 0, len)
    }

    /// Moves the viewport down `lines` wrapped lines; it stops before a step
    /// that would reach the end of the document.
    pub fn scroll_down(&mut self, lines: usize)
        requires
            old(self).wf(),
            old(self).by_columns(),
        ensures
            final(self).wf(),
            final(self).bytes() == old(self).bytes(),
            final(self).cursor() == old(self).cursor(),
            final(self).policy() == old(self).policy(),
            final(self).anchor() == down_from(
                old(self).bytes(),
                old(self).cols(),
                old(self).anchor(),
                lines as nat,
            ),
    {
        let ghost b = self.bytes();
        let ghost w = self.cols();
        let len = rope_byte_len(&self.content);
        let mut a = self.text_start_idx;
        let mut i: usize = 0;
        while i < lines
            invariant
                self.wf(),
                self.by_columns(),
                b == self.bytes(),
                w == self.cols(),
                len == b.len(),
                i <= lines,
                a <= len,
                a < len || len == 0,
                is_char_boundary(b, a as int),
                down_from(b, w, a as int, (lines - i) as nat) == down_from(
                    b,
                    w,
                    self.anchor(),
                    lines as nat,
                ),
            ensures
                down_from(b, w, a as int, (lines - i) as nat) == a,
            decreases lines - i,
        {
            let line = self.layout_line_naive(a);
            proof {
                lemma_line(b, w, a as int);
            }
            let next = self.after(line);
            if next >= len || next <= a {
                break;
            }
            a = next;
            i = i + 1;
        }
        self.text_start_idx = a;
    }

    /// Moves the viewport up `lines` wrapped lines, stopping at the top.
    pub fn scroll_up(&mut self, lines: usize)
        requires
            old(self).wf(),
            old(self).by_columns(),
        ensures
            final(self).wf(),
            final(self).bytes() == old(self).bytes(),
            final(self).cursor() == old(self).cursor(),
            final(self).policy() == old(self).policy(),
            final(self).anchor() == up_from(
                old(self).bytes(),
                old(self).cols(),
                old(self).anchor(),
                lines as nat,
            ),
    {
        let ghost b = self.bytes();
        let ghost w = self.cols();
        let mut a = self.text_start_idx;
        let mut i: usize = 0;
        while i < lines
            invariant
                self.wf(),
                self.by_columns(),
                b == self.bytes(),
                w == self.cols(),
                i <= lines,
                a <= b.len(),
                a <= self.anchor(),
                is_char_boundary(b, a as int),
                up_from(b, w, a as int, (lines - i) as nat) == up_from(
                    b,
                    w,
                    self.anchor(),
                    lines as nat,
                ),
            ensures
                up_from(b, w, a as int, (lines - i) as nat) == a,
            decreases lines - i,
        {
            if a == 0 {
                proof {
                    lemma_up_from_top(b, w, (lines - i) as nat);
                }
                break;
            }
            let line = self.layout_line_rev_naive(a);
            a = line.start;
            i = i + 1;
        }
        self.text_start_idx = a;
    }

    /// Moves the viewport and the cursor to the start of the document.
    pub fn scroll_to_start(&mut self)
        requires
            old(self).wf(),
        ensures
            final(self).wf(),
            final(self).bytes() == old(self).bytes(),
            final(self).policy() == old(self).policy(),
            final(self).cursor() == 0,
            final(self).anchor() == 0,
    {
        proof {
            lemma_boundary_iff(self.bytes(), 0);
        }
        self.text_start_idx = 0;
        self.cursor_position = 0;
    }

    /// Moves the cursor to the last character, and the viewport to the line
    /// above the one where that character begins, so the end stays in view.
    pub fn scroll_to_end(&mut self)
        requires
            old(self).wf(),
            old(self).by_columns(),
        ensures
            final(self).wf(),
            final(self).bytes() == old(self).bytes(),
            final(self).policy() == old(self).policy(),
            final(self).cursor() == last_char_start(old(self).bytes()),
            final(self).anchor() == prev_line_start(
                old(self).bytes(),
                old(self).cols(),
                last_char_start(old(self).bytes()),
            ),
    {
        let bottom = self.last_char_start();
        self.text_start_idx = bottom;
        self.cursor_position = bottom;
        self.scroll_up(1);
        proof {
            reveal_with_fuel(up_from, 2);
        }
    }

    /// Moves the viewport as `amount` says.
    pub fn scroll(&mut self, amount: ScrollAmount)
        requires
            old(self).wf(),
            old(self).by_columns(),
        ensures
            final(self).wf(),
            final(self).bytes() == old(self).bytes(),
            final(self).policy() == old(self).policy(),
            match amount {
                ScrollAmount::Up { lines } => final(self).anchor() == up_from(
                    old(self).bytes(),
                    old(self).cols(),
                    old(self).anchor(),
                    lines as nat,
                ) && final(self).cursor() == old(self).cursor(),
                ScrollAmount::Down { lines } => final(self).anchor() == down_from(
                    old(self).bytes(),
                    old(self).cols(),
                    old(self).anchor(),
                    lines as nat,
                ) && final(self).cursor() == old(self).cursor(),
                ScrollAmount::ToStart => final(self).anchor() == 0 && final(self).cursor() == 0,
                ScrollAmount::ToEnd => final(self).cursor() == last_char_start(old(self).bytes())
                    && final(self).anchor() == prev_line_start(
                    old(self).bytes(),
                    old(self).cols(),
                    last_char_start(old(self).bytes()),
                ),
            },
    {
        match amount {
            ScrollAmount::Up { lines } => self.scroll_up(lines),
            ScrollAmount::Down { lines } => self.scroll_down(lines),
            ScrollAmount::ToStart => self.scroll_to_start(),
            ScrollAmount::ToEnd => self.scroll_to_end(),
        }
    }

    /// Keeps the anchor where it is when it still starts a character before
    /// the end; otherwise moves it back to the start of the character it
    /// fell into (or of the last character).
    fn settle_anchor(&mut self)
        requires
            valid_utf8(old(self).bytes()),
            old(self).bytes().len() <= usize::MAX,
            old(self).cursor() <= old(self).bytes().len(),
            is_char_boundary(old(self).bytes(), old(self).cursor()),
        ensures
            final(self).wf(),
            final(self).bytes() == old(self).bytes(),
            final(self).cursor() == old(self).cursor(),
            final(self).policy() == old(self).policy(),
            final(self).anchor() == settled_anchor(old(self).bytes(), old(self).anchor()),
    {
        let len = rope_byte_len(&self.content);
        let a = self.text_start_idx;
        proof {
            lemma_boundary_iff(self.bytes(), 0);
        }
        if len == 0 {
            self.text_start_idx = 0;
        } else if a < len && rope_is_char_boundary(&self.content, a) {
        } else if a >= len {
            proof {
                lemma_prev_boundary(self.bytes(), len as int);
            }
            self.text_start_idx = self.prev_char_boundary(len);
        } else {
            proof {
                lemma_prev_boundary(self.bytes(), a as int);
            }
            self.text_start_idx = self.prev_char_boundary(a);
        }
    }

    /// Inserts `text` at the cursor and moves the cursor past it, by its
    /// length in bytes. The anchor keeps its offset, moved back to the start
    /// of a character if the text now puts it inside one.
    pub fn insert_text(&mut self, text: &str)
        requires
            old(self).wf(),
        ensures
            final(self).wf(),
            final(self).policy() == old(self).policy(),
            final(self).bytes() == old(self).bytes().subrange(0, old(self).cursor()) + encode_utf8(
                text@,
            ) + old(self).bytes().subrange(old(self).cursor(), old(self).bytes().len() as int),
            final(self).cursor() == old(self).cursor() + encode_utf8(text@).len(),
            final(self).anchor() == settled_anchor(final(self).bytes(), old(self).anchor()),
    {
        let ghost ob = self.bytes();
        let ghost c = self.cursor();
        let ghost t = encode_utf8(text@);
        let ghost head = ob.subrange(0, c);
        let ghost tail = ob.subrange(c, ob.len() as int);
        rope_insert(&mut self.content, self.cursor_position, text);
        // the new length is a `usize`, so the inserted length is too
        let _len = rope_byte_len(&self.content);
        let n = text.len();
        proof {
            encode_utf8_valid_utf8(text@);
            lemma_boundary_iff(ob, ob.len() as int);
            lemma_sub_boundary(ob, 0, c, c);
            lemma_sub_boundary(ob, c, ob.len() as int, c);
            lemma_boundary_iff(t, t.len() as int);
            lemma_boundary_iff(head, c);
            lemma_concat_boundary(head, t, c);
            lemma_boundary_iff(head + t, (head + t).len() as int);
            lemma_concat_boundary(head + t, tail, c + t.len());
        }
        self.cursor_position = self.cursor_position + n;
        self.settle_anchor();
    }

    /// Removes the bytes `[start, end)` and puts the cursor at `start`; the
    /// anchor settles as `settled_anchor` says.
    fn remove(&mut self, start: usize, end: usize)
        requires
            old(self).wf(),
            start <= end <= old(self).bytes().len(),
            is_char_boundary(old(self).bytes(), start as int),
            is_char_boundary(old(self).bytes(), end as int),
        ensures
            final(self).wf(),
            final(self).policy() == old(self).policy(),
            final(self).bytes() == old(self).bytes().subrange(0, start as int) + old(self).bytes().subrange(end as int, old(self).bytes().len() as int),
            final(self).cursor() == start,
            final(self).anchor() == settled_anchor(final(self).bytes(), old(self).anchor()),
    {
        let ghost ob = self.bytes();
        let ghost head = ob.subrange(0, start as int);
        let ghost tail = ob.subrange(end as int, ob.len() as int);
        rope_delete(&mut self.content, start, end);
        proof {
            lemma_boundary_iff(ob, ob.len() as int);
            lemma_sub_boundary(ob, 0, start as int, start as int);
            lemma_sub_boundary(ob, end as int, ob.len() as int, end as int);
            lemma_boundary_iff(head, start as int);
            lemma_concat_boundary(head, tail, start as int);
        }
        self.cursor_position = start;
        self.settle_anchor();
    }

    /// Deletes the character at the cursor; at the end of the document it
    /// does nothing.
    pub fn delete(&mut self)
        requires
            old(self).wf(),
        ensures
            final(self).wf(),
            final(self).policy() == old(self).policy(),
            final(self).cursor() == old(self).cursor(),
            old(self).cursor() == old(self).bytes().len() ==> final(self).bytes() == old(self).bytes()
                && final(self).anchor() == old(self).anchor(),
            old(self).cursor() < old(self).bytes().len() ==> {
                let nb = next_boundary(old(self).bytes(), old(self).cursor());
                &&& final(self).bytes() == old(self).bytes().subrange(0, old(self).cursor())
                    + old(self).bytes().subrange(nb, old(self).bytes().len() as int)
                &&& final(self).anchor() == settled_anchor(final(self).bytes(), old(self).anchor())
            },
    {
        let len = rope_byte_len(&self.content);
        if self.cursor_position >= len {
            return;
        }
        let c = self.cursor_position;
        proof {
            lemma_next_boundary(self.bytes(), c as int);
        }
        let end = self.next_char_boundary(c);
        self.remove(c, end);
    }

    /// Deletes the character before the cursor and moves the cursor to where
    /// it began; at the start of the document it does nothing.
    pub fn backspace(&mut self)
        requires
            old(self).wf(),
        ensures
            final(self).wf(),
            final(self).policy() == old(self).policy(),
            old(self).cursor() == 0 ==> final(self).bytes() == old(self).bytes() && final(self).anchor()
                == old(self).anchor() && final(self).cursor() == 0,
            old(self).cursor() > 0 ==> {
                let p = prev_boundary(old(self).bytes(), old(self).cursor());
                &&& final(self).bytes() == old(self).bytes().subrange(0, p) + old(self).bytes().subrange(
                    old(self).cursor(),
                    old(self).bytes().len() as int,
                )
                &&& final(self).cursor() == p
                &&& final(self).anchor() == settled_anchor(final(self).bytes(), old(self).anchor())
            },
    {
        if self.cursor_position == 0 {
            return;
        }
        let c = self.cursor_position;
        proof {
            lemma_prev_boundary(self.bytes(), c as int);
        }
        let p = self.prev_char_boundary(c);
        self.remove(p, c);
    }

    // ---- wrapping by glyph metrics ----

    /// An editor holding `content` whose lines wrap when the glyphs'
    /// advances fill `window_width` pixels at `font_size`; a layout holds as
    /// many lines as fit in `window_height`.
    pub fn with_window(content: &str, window_width: u32, window_height: u32, font_size: u32) -> (r:
        Self)
        ensures
            r.wf(),
            r.bytes() == encode_utf8(content@),
            r.cursor() == 0,
            r.anchor() == 0,
            r.policy() == (WrapPolicy::Glyphs { window_width, window_height, font_size }),
            !r.ctrl(),
    {
        let mut r = TextEditor::new(content, 0);
        r.policy = WrapPolicy::Glyphs { window_width, window_height, font_size };
        r
    }

    /// Sets the window's size; it matters only when wrapping by glyphs.
    pub fn update_window_size(&mut self, new_width: u32, new_height: u32)
        requires
            old(self).wf(),
        ensures
            final(self).wf(),
            final(self).bytes() == old(self).bytes(),
            final(self).cursor() == old(self).cursor(),
            final(self).anchor() == old(self).anchor(),
            final(self).policy() == match old(self).policy() {
                WrapPolicy::Glyphs { font_size, .. } => WrapPolicy::Glyphs {
                    window_width: new_width,
                    window_height: new_height,
                    font_size,
                },
                WrapPolicy::Columns { wrap_at } => WrapPolicy::Columns { wrap_at },
            },
    {
        if let WrapPolicy::Glyphs { font_size, .. } = self.policy {
            self.policy = WrapPolicy::Glyphs {
                window_width: new_width,
                window_height: new_height,
                font_size,
            };
        }
    }

    /// Sets the font size; it matters only when wrapping by glyphs.
    pub fn update_font_size(&mut self, new_font_size: u32)
        requires
            old(self).wf(),
        ensures
            final(self).wf(),
            final(self).bytes() == old(self).bytes(),
            final(self).cursor() == old(self).cursor(),
            final(self).anchor() == old(self).anchor(),
            final(self).policy() == match old(self).policy() {
                WrapPolicy::Glyphs { window_width, window_height, .. } => WrapPolicy::Glyphs {
                    window_width,
                    window_height,
                    font_size: new_font_size,
                },
                WrapPolicy::Columns { wrap_at } => WrapPolicy::Columns { wrap_at },
            },
    {
        if let WrapPolicy::Glyphs { window_width, window_height, .. } = self.policy {
            self.policy = WrapPolicy::Glyphs { window_width, window_height, font_size: new_font_size };
        }
    }

    /// The window's width and height and the font size.
    fn window(&self) -> (r: (u32, u32, u32))
        requires
            self.by_glyphs(),
        ensures
            self.policy() == (WrapPolicy::Glyphs {
                window_width: r.0,
                window_height: r.1,
                font_size: r.2,
            }),
    {
        match self.policy {
            WrapPolicy::Glyphs { window_width, window_height, font_size } => (
                window_width,
                window_height,
                font_size,
            ),
            WrapPolicy::Columns { .. } => (0, 0, 0),
        }
    }

    /// The measure of glyph wrapping with the advances of `g`.
    pub open spec fn glyphs<G: GlyphRasterizer>(&self, g: G) -> Measure {
        match self.policy() {
            WrapPolicy::Glyphs { window_width, font_size, .. } => glyph_measure(
                g,
                font_size,
                window_width,
            ),
            WrapPolicy::Columns { wrap_at } => columns(wrap_at as nat),
        }
    }

    /// The height of a line: 1.2 times the font size, rounded down.
    pub open spec fn line_height(&self) -> nat {
        match self.policy() {
            WrapPolicy::Glyphs { font_size, .. } => (font_size + font_size / 5) as nat,
            WrapPolicy::Columns { .. } => 1,
        }
    }

    /// The font size, when wrapping by glyphs.
    pub open spec fn font_size(&self) -> u32 {
        match self.policy() {
            WrapPolicy::Glyphs { font_size, .. } => font_size,
            WrapPolicy::Columns { .. } => 0,
        }
    }

    /// The window's width, in pixels, when wrapping by glyphs.
    pub open spec fn window_width(&self) -> u32 {
        match self.policy() {
            WrapPolicy::Glyphs { window_width, .. } => window_width,
            WrapPolicy::Columns { .. } => 0,
        }
    }

    /// The window's height, in pixels.
    pub open spec fn window_height(&self) -> nat {
        match self.policy() {
            WrapPolicy::Glyphs { window_height, .. } => window_height as nat,
            WrapPolicy::Columns { .. } => 0,
        }
    }

    /// The line that begins at `start`: it ends before a newline, before
    /// the first character whose advance would bring the line's advances to
    /// the window's width, or at the end of the document. Each character up
    /// to there is measured once, at the font size.
    pub fn layout_line<G: GlyphRasterizer>(&self, start: usize, glyph_rasterizer: &mut G) -> (line:
        Line)
        requires
            self.wf(),
            self.by_glyphs(),
            start <= self.bytes().len(),
            is_char_boundary(self.bytes(), start as int),
        ensures
            line@ == line_at(self.bytes(), self.glyphs(*old(glyph_rasterizer)), start as int),
            same_advances(*final(glyph_rasterizer), *old(glyph_rasterizer)),
    {
        let ghost b = self.bytes();
        let ghost g0 = *glyph_rasterizer;
        let ghost m = self.glyphs(g0);
        let (width, _, font_size) = self.window();
        let len = rope_byte_len(&self.content);
        let mut idx = start;
        let mut x: u64 = 0;
        loop
            invariant
                self.wf(),
                self.by_glyphs(),
                b == self.bytes(),
                m == self.glyphs(g0),
                m == glyph_measure(g0, font_size, width),
                len == b.len(),
                start <= idx <= len,
                is_char_boundary(b, idx as int),
                x <= width,
                same_advances(*glyph_rasterizer, g0),
                g0 == *old(glyph_rasterizer),
                scan_end(b, m, idx as int, x as nat) == line_end(b, m, start as int),
            decreases len - idx,
        {
            if idx >= len {
                return Line { start, end: idx, ends_with_newline: false };
            }
            if rope_byte(&self.content, idx) == NEWLINE {
                return Line { start, end: idx, ends_with_newline: true };
            }
            let c = match rope_char_at(&self.content, idx) {
                Some(c) => c,
                None => {
                    return Line { start, end: idx, ends_with_newline: false };
                },
            };
            proof {
                encode_utf8_decode_utf8(seq![c]);
                assert(c == char_at(b, idx as int));
            }
            let metrics = glyph_rasterizer.get_glyph(c, font_size);
            if x + metrics.advance.0 as u64 >= width as u64 {
                return Line { start, end: idx, ends_with_newline: false };
            }
            x = x + metrics.advance.0 as u64;
            proof {
                lemma_next_boundary(b, idx as int);
            }
            idx = self.next_char_boundary(idx);
        }
    }

    /// The lines from the top of the viewport, one after another, until the
    /// document ends, a line takes nothing, or the lines (each
    /// `line_height` high) reach the window's height.
    pub fn layout_lines<G: GlyphRasterizer>(&self, glyph_rasterizer: &mut G) -> (lines: Vec<Line>)
        requires
            self.wf(),
            self.by_glyphs(),
        ensures
            lines@.map_values(|l: Line| l@) == screen_lines(
                self.bytes(),
                self.glyphs(*old(glyph_rasterizer)),
                self.anchor(),
                0,
                self.line_height(),
                self.window_height(),
            ),
            same_advances(*final(glyph_rasterizer), *old(glyph_rasterizer)),
    {
        let ghost b = self.bytes();
        let ghost g0 = *glyph_rasterizer;
        let ghost m = self.glyphs(g0);
        let ghost lh = self.line_height();
        let ghost h = self.window_height();
        let (_, height, font_size) = self.window();
        let line_height: u64 = font_size as u64 + font_size as u64 / 5;
        let len = rope_byte_len(&self.content);
        let mut lines: Vec<Line> = Vec::new();
        let mut idx = self.text_start_idx;
        let mut y: u64 = 0;
        loop
            invariant
                self.wf(),
                self.by_glyphs(),
                b == self.bytes(),
                len == b.len(),
                m == self.glyphs(g0),
                lh == line_height,
                h == height,
                lh == self.line_height(),
                h == self.window_height(),
                idx <= len,
                is_char_boundary(b, idx as int),
                y <= 0xffff_ffff,
                line_height == font_size as u64 + font_size as u64 / 5,
                same_advances(*glyph_rasterizer, g0),
                g0 == *old(glyph_rasterizer),
                screen_lines(b, m, self.anchor(), 0, lh, h) == lines@.map_values(|l: Line| l@)
                    + screen_lines(b, m, idx as int, y as nat, lh, h),
            decreases len - idx,
        {
            if idx >= len {
                assert(lines@.map_values(|l: Line| l@) + seq![] =~= lines@.map_values(
                    |l: Line| l@,
                ));
                return lines;
            }
            let ghost gi = *glyph_rasterizer;
            let line = self.layout_line(idx, glyph_rasterizer);
            proof {
                lemma_same_measure(gi, g0, self.font_size(), self.window_width());
                lemma_line(b, m, idx as int);
            }
            let next = self.after(line);
            let ghost before = lines@;
            lines.push(line);
            assert(lines@.map_values(|l: Line| l@) =~= before.map_values(|l: Line| l@) + seq![
                line@,
            ]);
            let bottom = y + line_height;
            if bottom >= height as u64 || next <= idx {
                assert(screen_lines(b, m, idx as int, y as nat, lh, h) == seq![line@]);
                return lines;
            }
            assert(screen_lines(b, m, idx as int, y as nat, lh, h) == seq![line@] + screen_lines(
                b,
                m,
                next as int,
                bottom as nat,
                lh,
                h,
            ));
            y = bottom;
            idx = next;
        }
    }

    /// The line just above the one that begins at `start` (at the top, the
    /// first line), found by wrapping its unwrapped line again from the
    /// start, so its boundaries are those that `layout_line` gives.
    pub fn layout_line_rev<G: GlyphRasterizer>(&self, start: usize, glyph_rasterizer: &mut G) -> (line:
        Line)
        requires
            self.wf(),
            self.by_glyphs(),
            start <= self.bytes().len(),
            is_char_boundary(self.bytes(), start as int),
        ensures
            line@ == line_at(
                self.bytes(),
                self.glyphs(*old(glyph_rasterizer)),
                prev_line_start(self.bytes(), self.glyphs(*old(glyph_rasterizer)), start as int),
            ),
            line.start <= start,
            start > 0 ==> line.start < start,
            is_char_boundary(self.bytes(), line.start as int),
            same_advances(*final(glyph_rasterizer), *old(glyph_rasterizer)),
    {
        let ghost b = self.bytes();
        let ghost g0 = *glyph_rasterizer;
        let ghost m = self.glyphs(g0);
        if start == 0 {
            return self.layout_line(0, glyph_rasterizer);
        }
        let p = self.unwrapped_line_start(start - 1);
        let mut q = p;
        loop
            invariant
                self.wf(),
                self.by_glyphs(),
                b == self.bytes(),
                m == self.glyphs(g0),
                same_advances(*glyph_rasterizer, g0),
                g0 == *old(glyph_rasterizer),
                q < start <= b.len(),
                is_char_boundary(b, q as int),
                last_start_before(b, m, q as int, start as int) == last_start_before(
                    b,
                    m,
                    p as int,
                    start as int,
                ),
                p == logical_start(b, start - 1),
            decreases start - q,
        {
            let ghost gi = *glyph_rasterizer;
            let line = self.layout_line(q, glyph_rasterizer);
            proof {
                lemma_same_measure(gi, g0, self.font_size(), self.window_width());
                lemma_line(b, m, q as int);
            }
            let next = self.after(line);
            if !(q < next && next < start) {
                return line;
            }
            q = next;
        }
    }

    /// Moves the viewport down `lines` lines wrapped by glyphs; it stops
    /// before a step that would reach the end of the document.
    pub fn scroll_down_with<G: GlyphRasterizer>(&mut self, lines: usize, glyph_rasterizer: &mut G)
        requires
            old(self).wf(),
            old(self).by_glyphs(),
        ensures
            final(self).wf(),
            final(self).bytes() == old(self).bytes(),
            final(self).cursor() == old(self).cursor(),
            final(self).policy() == old(self).policy(),
            final(self).anchor() == down_from(
                old(self).bytes(),
                old(self).glyphs(*old(glyph_rasterizer)),
                old(self).anchor(),
                lines as nat,
            ),
            same_advances(*final(glyph_rasterizer), *old(glyph_rasterizer)),
    {
        let ghost b = self.bytes();
        let ghost g0 = *glyph_rasterizer;
        let ghost m = self.glyphs(g0);
        let len = rope_byte_len(&self.content);
        let mut a = self.text_start_idx;
        let mut i: usize = 0;
        while i < lines
            invariant
                self.wf(),
                self.by_glyphs(),
                b == self.bytes(),
                m == self.glyphs(g0),
                same_advances(*glyph_rasterizer, g0),
                g0 == *old(glyph_rasterizer),
                len == b.len(),
                i <= lines,
                a <= len,
                a < len || len == 0,
                is_char_boundary(b, a as int),
                down_from(b, m, a as int, (lines - i) as nat) == down_from(
                    b,
                    m,
                    self.anchor(),
                    lines as nat,
                ),
            ensures
                down_from(b, m, a as int, (lines - i) as nat) == a,
            decreases lines - i,
        {
            let ghost gi = *glyph_rasterizer;
            let line = self.layout_line(a, glyph_rasterizer);
            proof {
                lemma_same_measure(gi, g0, self.font_size(), self.window_width());
                lemma_line(b, m, a as int);
            }
            let next = self.after(line);
            if next >= len || next <= a {
                break;
            }
            a = next;
            i = i + 1;
        }
        self.text_start_idx = a;
    }

    /// Moves the viewport up `lines` lines wrapped by glyphs, stopping at
    /// the top.
    pub fn scroll_up_with<G: GlyphRasterizer>(&mut self, lines: usize, glyph_rasterizer: &mut G)
        requires
            old(self).wf(),
            old(self).by_glyphs(),
        ensures
            final(self).wf(),
            final(self).bytes() == old(self).bytes(),
            final(self).cursor() == old(self).cursor(),
            final(self).policy() == old(self).policy(),
            final(self).anchor() == up_from(
                old(self).bytes(),
                old(self).glyphs(*old(glyph_rasterizer)),
                old(self).anchor(),
                lines as nat,
            ),
            same_advances(*final(glyph_rasterizer), *old(glyph_rasterizer)),
    {
        let ghost b = self.bytes();
        let ghost g0 = *glyph_rasterizer;
        let ghost m = self.glyphs(g0);
        let mut a = self.text_start_idx;
        let mut i: usize = 0;
        while i < lines
            invariant
                self.wf(),
                self.by_glyphs(),
                b == self.bytes(),
                m == self.glyphs(g0),
                same_advances(*glyph_rasterizer, g0),
                g0 == *old(glyph_rasterizer),
                i <= lines,
                a <= self.anchor(),
                is_char_boundary(b, a as int),
                up_from(b, m, a as int, (lines - i) as nat) == up_from(
                    b,
                    m,
                    self.anchor(),
                    lines as nat,
                ),
            ensures
                up_from(b, m, a as int, (lines - i) as nat) == a,
            decreases lines - i,
        {
            if a == 0 {
                proof {
                    lemma_up_from_top(b, m, (lines - i) as nat);
                }
                break;
            }
            let ghost gi = *glyph_rasterizer;
            let line = self.layout_line_rev(a, glyph_rasterizer);
            proof {
                lemma_same_measure(gi, g0, self.font_size(), self.window_width());
            }
            a = line.start;
            i = i + 1;
        }
        self.text_start_idx = a;
    }

    /// Moves the cursor to the last character, and the viewport to the line
    /// above the one where it begins.
    pub fn scroll_to_end_with<G: GlyphRasterizer>(&mut self, glyph_rasterizer: &mut G)
        requires
            old(self).wf(),
            old(self).by_glyphs(),
        ensures
            final(self).wf(),
            final(self).bytes() == old(self).bytes(),
            final(self).policy() == old(self).policy(),
            final(self).cursor() == last_char_start(old(self).bytes()),
            final(self).anchor() == prev_line_start(
                old(self).bytes(),
                old(self).glyphs(*old(glyph_rasterizer)),
                last_char_start(old(self).bytes()),
            ),
            same_advances(*final(glyph_rasterizer), *old(glyph_rasterizer)),
    {
        let bottom = self.last_char_start();
        self.text_start_idx = bottom;
        self.cursor_position = bottom;
        self.scroll_up_with(1, glyph_rasterizer);
        proof {
            reveal_with_fuel(up_from, 2);
        }
    }

    /// Moves the viewport as `amount` says, wrapping by glyphs.
    pub fn scroll_with<G: GlyphRasterizer>(&mut self, amount: ScrollAmount, glyph_rasterizer: &mut G)
        requires
            old(self).wf(),
            old(self).by_glyphs(),
        ensures
            final(self).wf(),
            final(self).bytes() == old(self).bytes(),
            final(self).policy() == old(self).policy(),
            same_advances(*final(glyph_rasterizer), *old(glyph_rasterizer)),
            match amount {
                ScrollAmount::Up { lines } => final(self).anchor() == up_from(
                    old(self).bytes(),
                    old(self).glyphs(*old(glyph_rasterizer)),
                    old(self).anchor(),
                    lines as nat,
                ) && final(self).cursor() == old(self).cursor(),
                ScrollAmount::Down { lines } => final(self).anchor() == down_from(
                    old(self).bytes(),
                    old(self).glyphs(*old(glyph_rasterizer)),
                    old(self).anchor(),
                    lines as nat,
                ) && final(self).cursor() == old(self).cursor(),
                ScrollAmount::ToStart => final(self).anchor() == 0 && final(self).cursor() == 0,
                ScrollAmount::ToEnd => final(self).cursor() == last_char_start(old(self).bytes())
                    && final(self).anchor() == prev_line_start(
                    old(self).bytes(),
                    old(self).glyphs(*old(glyph_rasterizer)),
                    last_char_start(old(self).bytes()),
                ),
            },
    {
        match amount {
            ScrollAmount::Up { lines } => self.scroll_up_with(lines, glyph_rasterizer),
            ScrollAmount::Down { lines } => self.scroll_down_with(lines, glyph_rasterizer),
            ScrollAmount::ToStart => self.scroll_to_start(),
            ScrollAmount::ToEnd => self.scroll_to_end_with(glyph_rasterizer),
        }
    }

    /// Where the last character begins (0 in an empty document).
    fn last_char_start(&self) -> (r: usize)
        requires
            self.wf(),
        ensures
            r == last_char_start(self.bytes()),
            r <= self.bytes().len(),
            r < self.bytes().len() || self.bytes().len() == 0,
            is_char_boundary(self.bytes(), r as int),
    {
        let len = rope_byte_len(&self.content);
        if len == 0 {
            proof {
                lemma_boundary_iff(self.bytes(), 0);
            }
            0
        } else {
            proof {
                lemma_prev_boundary(self.bytes(), len as int);
            }
            self.prev_char_boundary(len)
        }
    }
}

/// Where the anchor `a` settles in `b`: where it is, if a character starts
/// there; else at the start of the character it lies in, or of the last
/// character if it is at or past the end; 0 in an empty buffer.
pub open spec fn settled_anchor(b: Seq<u8>, a: int) -> int {
    if b.len() == 0 {
        0
    } else if a < b.len() && is_char_boundary(b, a) {
        a
    } else if a >= b.len() {
        prev_boundary(b, b.len() as int)
    } else {
        prev_boundary(b, a)
    }
}

/// Each line lies between boundaries of `b` and holds no newline.
pub open spec fn fitted_lines(b: Seq<u8>, lines: Seq<Line>) -> bool {
    forall|i: int| 0 <= i < lines.len() ==> fitted_line(b, #[trigger] lines[i]@)
}

/// Each line begins where the one before it leaves off, further on.
pub open spec fn chained(lines: Seq<Line>) -> bool {
    forall|i: int|
        0 <= i < lines.len() - 1 ==> lines[i + 1].start == next_start(#[trigger] lines[i]@)
            && lines[i].start < lines[i + 1].start
}

/// Where the last character of `b` begins (0 when `b` is empty).
pub open spec fn last_char_start(b: Seq<u8>) -> int {
    if b.len() == 0 {
        0
    } else {
        prev_boundary(b, b.len() as int)
    }
}

/// Moving up from the top stays at the top.
proof fn lemma_up_from_top(b: Seq<u8>, w: Measure, n: nat)
    ensures
        up_from(b, w, 0, n) == 0,
    decreases n,
{
    if n > 0 {
        lemma_up_from_top(b, w, (n - 1) as nat);
    }
}

} // verus!
