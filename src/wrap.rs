//! The mathematical model of wrapping: where each line of a UTF-8 byte
//! sequence ends under a measure (each character's advance and the width a
//! line's advances must stay below), and how the line starts relate when
//! walked forwards and backwards.
//!
//! Offsets are byte offsets. A line that begins at `s` runs up to the first
//! newline, or up to the character whose advance would bring the line to
//! the width, or to the end of the buffer; the newline itself belongs to no
//! line and is stepped over. Wrapping after `w` characters is the measure
//! `columns(w)`: every advance is one and the width is `w + 1`.
use vstd::prelude::*;
use vstd::utf8::*;

verus! {

/// The newline byte.
pub const NEWLINE: u8 = 10;

/// How lines are measured: the advance of each character, and the width
/// that the advances on one line must stay below.
pub type Measure = (spec_fn(char) -> nat, nat);

/// Wrapping after `w` characters: each character advances by one, and a
/// line holds fewer than `w + 1` of them.
pub open spec fn columns(w: nat) -> Measure {
    (|c: char| 1nat, w + 1)
}

/// Every character fits on a line of its own, so every line takes one.
pub open spec fn fits(m: Measure) -> bool {
    forall|c: char| #[trigger] (m.0)(c) < m.1
}

/// The character that begins at boundary `s`.
pub open spec fn char_at(b: Seq<u8>, s: int) -> char {
    decode_utf8(b.subrange(s, next_boundary(b, s)))[0]
}

/// The first character boundary after offset `i` (or the end of the buffer).
pub open spec fn next_boundary(b: Seq<u8>, i: int) -> int
    decreases b.len() - i,
{
    if i + 1 >= b.len() {
        b.len() as int
    } else if is_char_boundary(b, i + 1) {
        i + 1
    } else {
        next_boundary(b, i + 1)
    }
}

/// The last character boundary before offset `i` (or 0).
pub open spec fn prev_boundary(b: Seq<u8>, i: int) -> int
    decreases i,
{
    if i <= 1 {
        0
    } else if is_char_boundary(b, i - 1) {
        i - 1
    } else {
        prev_boundary(b, i - 1)
    }
}

/// Where a line that has reached offset `s` with its advances summing to
/// `x` ends: at a newline, before the character whose advance would bring
/// the sum to the width, or at the end of the buffer.
pub open spec fn scan_end(b: Seq<u8>, m: Measure, s: int, x: nat) -> int
    decreases b.len() - s,
{
    if s < 0 || s >= b.len() {
        b.len() as int
    } else if b[s] == NEWLINE {
        s
    } else if x + (m.0)(char_at(b, s)) >= m.1 {
        s
    } else {
        proof {
            lemma_next_boundary_grows(b, s);
        }
        scan_end(b, m, next_boundary(b, s), x + (m.0)(char_at(b, s)))
    }
}

/// The end (exclusive) of the line that begins at `s`.
pub open spec fn line_end(b: Seq<u8>, m: Measure, s: int) -> int {
    scan_end(b, m, s, 0)
}

/// Whether the line that begins at `s` is closed by a newline.
pub open spec fn line_has_newline(b: Seq<u8>, m: Measure, s: int) -> bool {
    0 <= line_end(b, m, s) < b.len() && b[line_end(b, m, s)] == NEWLINE
}

/// Where the line after the one that begins at `s` begins.
pub open spec fn line_next(b: Seq<u8>, m: Measure, s: int) -> int {
    if line_has_newline(b, m, s) {
        line_end(b, m, s) + 1
    } else {
        line_end(b, m, s)
    }
}

/// The line that begins at `s`: its start, its end, and whether a newline closes it.
pub open spec fn line_at(b: Seq<u8>, m: Measure, s: int) -> (int, int, bool) {
    (s, line_end(b, m, s), line_has_newline(b, m, s))
}

/// A line `(start, end, newline)` lies between two boundaries, holds no
/// newline, and says whether a newline follows it.
pub open spec fn fitted_line(b: Seq<u8>, l: (int, int, bool)) -> bool {
    &&& 0 <= l.0 <= l.1 <= b.len()
    &&& is_char_boundary(b, l.0)
    &&& is_char_boundary(b, l.1)
    &&& forall|j: int| l.0 <= j < l.1 ==> b[j] != NEWLINE
    &&& l.2 == (l.1 < b.len() && b[l.1] == NEWLINE)
}

/// Where the line after `l` begins: past its newline, if it has one.
pub open spec fn next_start(l: (int, int, bool)) -> int {
    if l.2 {
        l.1 + 1
    } else {
        l.1
    }
}

/// Up to `n` consecutive lines from `s`; it stops at the end of the buffer,
/// and after a line that consumes nothing.
pub open spec fn lines_from(b: Seq<u8>, m: Measure, s: int, n: nat) -> Seq<(int, int, bool)>
    decreases n,
{
    if n == 0 || s >= b.len() {
        seq![]
    } else if line_next(b, m, s) <= s {
        seq![line_at(b, m, s)]
    } else {
        seq![line_at(b, m, s)] + lines_from(b, m, line_next(b, m, s), (n - 1) as nat)
    }
}

/// The lines from `s` that fit on a screen `h` high, with lines `lh`
/// high and `y` already used: it stops at the end of the buffer, after the
/// line that fills the screen, and after a line that consumes nothing.
pub open spec fn screen_lines(b: Seq<u8>, m: Measure, s: int, y: nat, lh: nat, h: nat) -> Seq<
    (int, int, bool),
>
    decreases b.len() - s,
{
    if s < 0 || s >= b.len() {
        seq![]
    } else if line_next(b, m, s) <= s || y + lh >= h {
        seq![line_at(b, m, s)]
    } else {
        proof {
            lemma_scan_in_range(b, m, s, 0);
        }
        seq![line_at(b, m, s)] + screen_lines(b, m, line_next(b, m, s), y + lh, lh, h)
    }
}

/// The bytes of a sequence of lines, each followed by its newline if it has one.
pub open spec fn joined(b: Seq<u8>, lines: Seq<(int, int, bool)>) -> Seq<u8>
    decreases lines.len(),
{
    if lines.len() == 0 {
        seq![]
    } else {
        b.subrange(lines[0].0, lines[0].1) + (if lines[0].2 {
            seq![NEWLINE]
        } else {
            seq![]
        }) + joined(b, lines.drop_first())
    }
}

/// The number of characters in `[s, e)`: the boundaries in `(s, e]`.
pub open spec fn char_count(b: Seq<u8>, s: int, e: int) -> nat
    decreases e - s,
{
    if e <= s {
        0
    } else {
        char_count(b, s, e - 1) + if is_char_boundary(b, e) {
            1nat
        } else {
            0nat
        }
    }
}

/// The start of the unwrapped line that holds offset `i`: just after the
/// last newline before `i`, or 0.
pub open spec fn logical_start(b: Seq<u8>, i: int) -> int
    decreases i,
{
    if i <= 0 {
        0
    } else if b[i - 1] == NEWLINE {
        i
    } else {
        logical_start(b, i - 1)
    }
}

/// Walking line by line from `q`, the last line start before `a`.
pub open spec fn last_start_before(b: Seq<u8>, m: Measure, q: int, a: int) -> int
    decreases a - q,
{
    if q < line_next(b, m, q) < a {
        last_start_before(b, m, line_next(b, m, q), a)
    } else {
        q
    }
}

/// Whether walking line by line from `q` lands on `a`.
pub open spec fn reaches(b: Seq<u8>, m: Measure, q: int, a: int) -> bool
    decreases a - q,
{
    q == a || (q < line_next(b, m, q) <= a && reaches(b, m, line_next(b, m, q), a))
}

/// Whether `a` is where a wrapped line begins: wrapping its unwrapped line
/// from the start lands on it.
pub open spec fn is_line_start(b: Seq<u8>, m: Measure, a: int) -> bool {
    reaches(b, m, logical_start(b, a), a)
}

/// The start of the line just above offset `a`; 0 stays 0.
pub open spec fn prev_line_start(b: Seq<u8>, m: Measure, a: int) -> int {
    if a <= 0 {
        0
    } else {
        last_start_before(b, m, logical_start(b, a - 1), a)
    }
}

/// The anchor after moving down `n` lines from `a`; a step that would reach
/// the end of the buffer, or not move, is not taken.
pub open spec fn down_from(b: Seq<u8>, m: Measure, a: int, n: nat) -> int
    decreases n,
{
    if n == 0 || line_next(b, m, a) >= b.len() || line_next(b, m, a) <= a {
        a
    } else {
        down_from(b, m, line_next(b, m, a), (n - 1) as nat)
    }
}

/// The anchor after moving up `n` lines from `a`.
pub open spec fn up_from(b: Seq<u8>, m: Measure, a: int, n: nat) -> int
    decreases n,
{
    if n == 0 {
        a
    } else {
        up_from(b, m, prev_line_start(b, m, a), (n - 1) as nat)
    }
}

/// How many lines one can move down from `a`.
pub open spec fn lines_below(b: Seq<u8>, m: Measure, a: int) -> nat
    decreases b.len() - a,
{
    if 0 <= a < line_next(b, m, a) < b.len() {
        1 + lines_below(b, m, line_next(b, m, a))
    } else {
        0
    }
}

/// How many lines one can move up from `a` before reaching the top.
pub open spec fn lines_above(b: Seq<u8>, m: Measure, a: int) -> nat
    decreases a,
{
    if 0 < a && 0 <= prev_line_start(b, m, a) < a {
        1 + lines_above(b, m, prev_line_start(b, m, a))
    } else {
        0
    }
}

// ---- facts about boundaries ----

/// Inside a valid sequence an offset is a boundary exactly when the byte
/// there does not continue a character.
pub proof fn lemma_boundary_iff(b: Seq<u8>, i: int)
    requires
        valid_utf8(b),
        0 <= i <= b.len(),
    ensures
        is_char_boundary(b, i) <==> (i == b.len() || !is_continuation_byte(b[i])),
{
    is_char_boundary_start_end_of_seq(b);
    if i < b.len() {
        is_char_boundary_iff_not_is_continuation_byte(b, i);
    }
}

/// A newline is a whole character, so the offset after it is a boundary.
pub proof fn lemma_after_newline(b: Seq<u8>, i: int)
    requires
        valid_utf8(b),
        0 <= i < b.len(),
        b[i] == NEWLINE,
    ensures
        is_char_boundary(b, i),
        is_char_boundary(b, i + 1),
{
    lemma_boundary_iff(b, i);
    valid_utf8_split(b, i);
    let tail = b.subrange(i, b.len() as int);
    assert(tail[0] == NEWLINE);
    assert(length_of_first_scalar(tail) == 1);
    let rest = pop_first_scalar(tail);
    assert(valid_utf8(rest));
    assert(rest =~= b.subrange(i + 1, b.len() as int));
    if i + 1 < b.len() {
        assert(is_char_boundary(rest, 0));
        lemma_boundary_iff(rest, 0);
        assert(rest[0] == b[i + 1]);
        lemma_boundary_iff(b, i + 1);
    } else {
        lemma_boundary_iff(b, i + 1);
    }
}

pub proof fn lemma_next_boundary(b: Seq<u8>, i: int)
    requires
        valid_utf8(b),
        0 <= i < b.len(),
    ensures
        i < next_boundary(b, i) <= b.len(),
        is_char_boundary(b, next_boundary(b, i)),
        forall|j: int| i < j < next_boundary(b, i) ==> !is_char_boundary(b, j),
    decreases b.len() - i,
{
    lemma_boundary_iff(b, b.len() as int);
    if i + 1 >= b.len() {
    } else if is_char_boundary(b, i + 1) {
    } else {
        lemma_next_boundary(b, i + 1);
    }
}

pub proof fn lemma_prev_boundary(b: Seq<u8>, i: int)
    requires
        valid_utf8(b),
        0 < i <= b.len(),
    ensures
        0 <= prev_boundary(b, i) < i,
        is_char_boundary(b, prev_boundary(b, i)),
        forall|j: int| prev_boundary(b, i) < j < i ==> !is_char_boundary(b, j),
    decreases i,
{
    lemma_boundary_iff(b, 0);
    if i <= 1 {
    } else if is_char_boundary(b, i - 1) {
    } else {
        lemma_prev_boundary(b, i - 1);
    }
}

/// A byte that is not a boundary continues a character, so it is no newline.
pub proof fn lemma_inner_byte_not_newline(b: Seq<u8>, j: int)
    requires
        valid_utf8(b),
        0 <= j < b.len(),
        !is_char_boundary(b, j),
    ensures
        b[j] != NEWLINE,
{
    lemma_boundary_iff(b, j);
}

/// The first boundary after `i` lies after it.
pub proof fn lemma_next_boundary_grows(b: Seq<u8>, i: int)
    requires
        0 <= i < b.len(),
    ensures
        i < next_boundary(b, i) <= b.len(),
    decreases b.len() - i,
{
    if i + 1 < b.len() && !is_char_boundary(b, i + 1) {
        lemma_next_boundary_grows(b, i + 1);
    }
}

/// The scan stops between `s` and the end of the buffer.
pub proof fn lemma_scan_in_range(b: Seq<u8>, m: Measure, s: int, x: nat)
    requires
        0 <= s <= b.len(),
    ensures
        s <= scan_end(b, m, s, x) <= b.len(),
    decreases b.len() - s,
{
    if 0 <= s < b.len() && b[s] != NEWLINE && x + (m.0)(char_at(b, s)) < m.1 {
        lemma_next_boundary_grows(b, s);
        lemma_scan_in_range(b, m, next_boundary(b, s), x + (m.0)(char_at(b, s)));
    }
}

/// The scan stops on a boundary, after `s`, with no newline before it.
pub proof fn lemma_scan_end(b: Seq<u8>, m: Measure, s: int, x: nat)
    requires
        valid_utf8(b),
        0 <= s <= b.len(),
        is_char_boundary(b, s),
    ensures
        s <= scan_end(b, m, s, x) <= b.len(),
        is_char_boundary(b, scan_end(b, m, s, x)),
        forall|j: int| s <= j < scan_end(b, m, s, x) ==> b[j] != NEWLINE,
        s < b.len() && b[s] != NEWLINE && x + (m.0)(char_at(b, s)) < m.1 ==> s < scan_end(
            b,
            m,
            s,
            x,
        ),
    decreases b.len() - s,
{
    if s >= b.len() {
    } else if b[s] == NEWLINE {
    } else if x + (m.0)(char_at(b, s)) >= m.1 {
    } else {
        let nb = next_boundary(b, s);
        lemma_next_boundary(b, s);
        lemma_scan_end(b, m, nb, x + (m.0)(char_at(b, s)));
        assert forall|j: int| s <= j < scan_end(b, m, s, x) implies b[j] != NEWLINE by {
            if s < j < nb {
                lemma_inner_byte_not_newline(b, j);
            }
        }
    }
}

/// The lines' ends and the next line's start are boundaries, in order.
pub proof fn lemma_line(b: Seq<u8>, m: Measure, s: int)
    requires
        valid_utf8(b),
        0 <= s <= b.len(),
        is_char_boundary(b, s),
    ensures
        s <= line_end(b, m, s) <= line_next(b, m, s) <= b.len(),
        is_char_boundary(b, line_end(b, m, s)),
        is_char_boundary(b, line_next(b, m, s)),
        forall|j: int| s <= j < line_end(b, m, s) ==> b[j] != NEWLINE,
        line_has_newline(b, m, s) ==> line_next(b, m, s) == line_end(b, m, s) + 1,
        !line_has_newline(b, m, s) ==> line_next(b, m, s) == line_end(b, m, s),
        fits(m) && s < b.len() ==> s < line_next(b, m, s),
        fitted_line(b, line_at(b, m, s)),
        next_start(line_at(b, m, s)) == line_next(b, m, s),
{
    lemma_scan_end(b, m, s, 0);
    if line_has_newline(b, m, s) {
        lemma_after_newline(b, line_end(b, m, s));
    }
}


/// A boundary of a valid sequence stays one in a valid sequence that
/// contains it: before or after another valid piece.
pub proof fn lemma_concat_boundary(p: Seq<u8>, q: Seq<u8>, x: int)
    requires
        valid_utf8(p),
        valid_utf8(q),
        (0 <= x <= p.len() && is_char_boundary(p, x)) || (p.len() <= x <= p.len() + q.len()
            && is_char_boundary(q, x - p.len())),
    ensures
        valid_utf8(p + q),
        is_char_boundary(p + q, x),
{
    valid_utf8_concat(p, q);
    let n = p + q;
    lemma_boundary_iff(n, x);
    if x < p.len() {
        lemma_boundary_iff(p, x);
        assert(n[x] == p[x]);
    } else if x == p.len() {
        if q.len() > 0 {
            assert(is_char_boundary(q, 0));
            lemma_boundary_iff(q, 0);
            assert(n[x] == q[0]);
        }
    } else {
        lemma_boundary_iff(q, x - p.len());
        if x < n.len() {
            assert(n[x] == q[x - p.len()]);
        }
    }
}

/// The piece of a valid sequence between two boundaries is valid, and keeps
/// the boundaries that lie in it.
pub proof fn lemma_sub_boundary(b: Seq<u8>, lo: int, hi: int, x: int)
    requires
        valid_utf8(b),
        0 <= lo <= hi <= b.len(),
        is_char_boundary(b, lo),
        is_char_boundary(b, hi),
    ensures
        valid_utf8(b.subrange(lo, hi)),
        lo <= x <= hi && is_char_boundary(b, x) ==> is_char_boundary(b.subrange(lo, hi), x - lo),
{
    valid_utf8_split(b, lo);
    let tail = b.subrange(lo, b.len() as int);
    lemma_boundary_iff(b, hi);
    lemma_boundary_iff(tail, hi - lo);
    if hi < b.len() {
        assert(tail[hi - lo] == b[hi]);
    }
    valid_utf8_split(tail, hi - lo);
    let mid = b.subrange(lo, hi);
    assert(tail.subrange(0, hi - lo) =~= mid);
    if lo <= x <= hi && is_char_boundary(b, x) {
        lemma_boundary_iff(b, x);
        lemma_boundary_iff(mid, x - lo);
        if x < hi {
            assert(mid[x - lo] == b[x]);
        }
    }
}

} // verus!
