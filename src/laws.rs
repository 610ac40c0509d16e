//! What holds of wrapping and scrolling for every buffer: boundaries are
//! never split, the lines cover the buffer, and moving down then up (or up
//! then down) by the same number of lines returns to the same place.
use vstd::prelude::*;
use vstd::utf8::*;
use crate::wrap::{
    Measure, columns, fits, char_at, lemma_next_boundary_grows, lemma_scan_in_range,
    NEWLINE, char_count, down_from, joined, last_start_before, lemma_boundary_iff,
    lemma_after_newline, lemma_line, lemma_next_boundary, line_at, line_end, line_has_newline,
    line_next, lines_above, lines_below, lines_from, logical_start, next_boundary, prev_line_start,
    reaches, is_line_start, scan_end, up_from, screen_lines,
};

verus! {

// ---- unwrapped lines ----

/// The start of the unwrapped line holding `i` comes after the last newline
/// before `i`, and is a boundary.
pub proof fn lemma_logical_start(b: Seq<u8>, i: int)
    requires
        valid_utf8(b),
        0 <= i <= b.len(),
    ensures
        0 <= logical_start(b, i) <= i,
        logical_start(b, i) == 0 || b[logical_start(b, i) - 1] == NEWLINE,
        forall|j: int| logical_start(b, i) <= j < i ==> b[j] != NEWLINE,
        logical_start(b, logical_start(b, i)) == logical_start(b, i),
        is_char_boundary(b, logical_start(b, i)),
    decreases i,
{
    if i <= 0 {
        lemma_boundary_iff(b, 0);
    } else if b[i - 1] == NEWLINE {
        lemma_after_newline(b, i - 1);
    } else {
        lemma_logical_start(b, i - 1);
    }
}

/// With no newline in `[a, i)`, `a` and `i` lie in the same unwrapped line.
pub proof fn lemma_logical_start_same(b: Seq<u8>, a: int, i: int)
    requires
        0 <= a <= i <= b.len(),
        forall|j: int| a <= j < i ==> b[j] != NEWLINE,
    ensures
        logical_start(b, i) == logical_start(b, a),
    decreases i,
{
    if i > a {
        lemma_logical_start_same(b, a, i - 1);
    }
}

// ---- walking line by line ----

/// The walk from `q` towards `a` stays on boundaries and lands before `a`.
pub proof fn lemma_last_start_before(b: Seq<u8>, m: Measure, q: int, a: int)
    requires
        valid_utf8(b),
        0 <= q < a <= b.len(),
        is_char_boundary(b, q),
    ensures
        q <= last_start_before(b, m, q, a) < a,
        is_char_boundary(b, last_start_before(b, m, q, a)),
        reaches(b, m, q, last_start_before(b, m, q, a)),
    decreases a - q,
{
    lemma_line(b, m, q);
    let n = line_next(b, m, q);
    if q < n < a {
        lemma_last_start_before(b, m, n, a);
    }
}

/// A walk that lands on `a` still lands on the line start after `a`.
pub proof fn lemma_reaches_next(b: Seq<u8>, m: Measure, q: int, a: int)
    requires
        reaches(b, m, q, a),
        a < line_next(b, m, a),
    ensures
        reaches(b, m, q, line_next(b, m, a)),
    decreases a - q,
{
    let na = line_next(b, m, a);
    assert(reaches(b, m, na, na));
    if q != a {
        lemma_reaches_next(b, m, line_next(b, m, q), a);
    }
}

/// A walk that lands on `a` whose next line reaches `x` stops at `a`.
pub proof fn lemma_walk_stops_at(b: Seq<u8>, m: Measure, q: int, a: int, x: int)
    requires
        reaches(b, m, q, a),
        a < x <= line_next(b, m, a),
    ensures
        last_start_before(b, m, q, x) == a,
    decreases a - q,
{
    if q != a {
        lemma_walk_stops_at(b, m, line_next(b, m, q), a, x);
    }
}

/// The line just above the one after `a` is `a`, and the line after `a`
/// begins a line too.
pub proof fn lemma_down_then_up_once(b: Seq<u8>, m: Measure, a: int)
    requires
        valid_utf8(b),
        0 <= a <= b.len(),
        is_char_boundary(b, a),
        is_line_start(b, m, a),
        a < line_next(b, m, a),
    ensures
        prev_line_start(b, m, line_next(b, m, a)) == a,
        is_line_start(b, m, line_next(b, m, a)),
{
    lemma_line(b, m, a);
    let e = line_end(b, m, a);
    let nx = line_next(b, m, a);
    lemma_logical_start_same(b, a, nx - 1);
    lemma_walk_stops_at(b, m, logical_start(b, a), a, nx);
    if line_has_newline(b, m, a) {
        assert(logical_start(b, nx) == nx);
        assert(reaches(b, m, nx, nx));
    } else {
        assert(b[nx - 1] != NEWLINE);
        assert(logical_start(b, nx) == logical_start(b, nx - 1));
        lemma_reaches_next(b, m, logical_start(b, a), a);
    }
}

/// Walking from `q` inside the unwrapped line that ends at the newline at
/// `a - 1`, the last start before `a` is a line whose next line begins at `a`.
pub proof fn lemma_walk_to_newline(b: Seq<u8>, m: Measure, q: int, a: int)
    requires
        valid_utf8(b),
        fits(m),
        0 <= q < a <= b.len(),
        is_char_boundary(b, q),
        b[a - 1] == NEWLINE,
        forall|j: int| q <= j < a - 1 ==> b[j] != NEWLINE,
    ensures
        line_next(b, m, last_start_before(b, m, q, a)) == a,
    decreases a - q,
{
    lemma_line(b, m, q);
    let n = line_next(b, m, q);
    assert(line_end(b, m, q) <= a - 1);
    if q < n < a {
        lemma_walk_to_newline(b, m, n, a);
    }
}

/// Walking from `q` to `a` along line starts, the last start before `a` is
/// a line whose next line begins at `a`.
pub proof fn lemma_walk_to_start(b: Seq<u8>, m: Measure, q: int, a: int)
    requires
        reaches(b, m, q, a),
        q < a,
    ensures
        line_next(b, m, last_start_before(b, m, q, a)) == a,
    decreases a - q,
{
    let n = line_next(b, m, q);
    if n < a {
        lemma_walk_to_start(b, m, n, a);
    }
}

/// The line above a line start `a` is a line start whose next line is `a`.
pub proof fn lemma_up_then_down_once(b: Seq<u8>, m: Measure, a: int)
    requires
        valid_utf8(b),
        fits(m),
        0 < a <= b.len(),
        is_char_boundary(b, a),
        is_line_start(b, m, a),
    ensures
        prev_line_start(b, m, a) < a,
        line_next(b, m, prev_line_start(b, m, a)) == a,
        is_line_start(b, m, prev_line_start(b, m, a)),
        is_char_boundary(b, prev_line_start(b, m, a)),
{
    let p0 = logical_start(b, a - 1);
    lemma_logical_start(b, a - 1);
    lemma_last_start_before(b, m, p0, a);
    let p = last_start_before(b, m, p0, a);
    if b[a - 1] == NEWLINE {
        lemma_walk_to_newline(b, m, p0, a);
    } else {
        assert(logical_start(b, a) == p0);
        lemma_walk_to_start(b, m, p0, a);
    }
    lemma_logical_start_same(b, p0, p);
}

proof fn lemma_up_from_last(b: Seq<u8>, m: Measure, y: int, k: nat)
    requires
        k > 0,
    ensures
        up_from(b, m, y, k) == prev_line_start(b, m, up_from(b, m, y, (k - 1) as nat)),
    decreases k,
{
    reveal_with_fuel(up_from, 2);
    if k > 1 {
        lemma_up_from_last(b, m, prev_line_start(b, m, y), (k - 1) as nat);
    }
}

proof fn lemma_down_from_last(b: Seq<u8>, m: Measure, y: int, k: nat)
    requires
        k > 0,
    ensures
        down_from(b, m, y, k) == down_from(b, m, down_from(b, m, y, (k - 1) as nat), 1),
    decreases k,
{
    reveal_with_fuel(down_from, 2);
    if k > 1 {
        let n = line_next(b, m, y);
        if !(n >= b.len() || n <= y) {
            lemma_down_from_last(b, m, n, (k - 1) as nat);
        }
    }
}

// ---- the laws ----

/// Wrapping never splits a character: from any boundary, the end of the
/// line, the start of the next line and the start of the line above are
/// boundaries.
pub proof fn lemma_wrap_keeps_boundaries(b: Seq<u8>, m: Measure, s: int)
    requires
        valid_utf8(b),
        0 <= s <= b.len(),
        is_char_boundary(b, s),
    ensures
        is_char_boundary(b, line_end(b, m, s)),
        is_char_boundary(b, line_next(b, m, s)),
        is_char_boundary(b, prev_line_start(b, m, s)),
        0 <= prev_line_start(b, m, s) <= s,
{
    lemma_line(b, m, s);
    if s > 0 {
        lemma_logical_start(b, s - 1);
        lemma_last_start_before(b, m, logical_start(b, s - 1), s);
    } else {
        lemma_boundary_iff(b, 0);
    }
}

/// The lines from a boundary, each with the newline that follows it, put
/// back together give the rest of the buffer exactly (with at least one
/// character per line and enough lines asked for).
pub proof fn lemma_lines_cover(b: Seq<u8>, m: Measure, s: int, n: nat)
    requires
        valid_utf8(b),
        fits(m),
        0 <= s <= b.len(),
        is_char_boundary(b, s),
        n >= b.len() - s,
    ensures
        joined(b, lines_from(b, m, s, n)) == b.subrange(s, b.len() as int),
    decreases n,
{
    if s >= b.len() {
        assert(b.subrange(s, b.len() as int) =~= seq![]);
    } else {
        lemma_line(b, m, s);
        let nx = line_next(b, m, s);
        let e = line_end(b, m, s);
        let rest = lines_from(b, m, nx, (n - 1) as nat);
        lemma_lines_cover(b, m, nx, (n - 1) as nat);
        let ls = lines_from(b, m, s, n);
        assert(ls == seq![line_at(b, m, s)] + rest);
        assert(ls.drop_first() =~= rest);
        if line_has_newline(b, m, s) {
            assert(b.subrange(s, e) + seq![NEWLINE] + b.subrange(nx, b.len() as int)
                =~= b.subrange(s, b.len() as int));
        } else {
            assert(b.subrange(s, e) + seq![] + b.subrange(nx, b.len() as int) =~= b.subrange(
                s,
                b.len() as int,
            ));
        }
    }
}

/// From a line start, moving down `k` lines and then up `k` lines returns
/// to it, when there are at least `k` lines below.
pub proof fn lemma_down_then_up(b: Seq<u8>, m: Measure, a: int, k: nat)
    requires
        valid_utf8(b),
        0 <= a <= b.len(),
        is_char_boundary(b, a),
        is_line_start(b, m, a),
        k <= lines_below(b, m, a),
    ensures
        up_from(b, m, down_from(b, m, a, k), k) == a,
    decreases k,
{
    if k > 0 {
        let nx = line_next(b, m, a);
        lemma_line(b, m, a);
        lemma_down_then_up_once(b, m, a);
        lemma_down_then_up(b, m, nx, (k - 1) as nat);
        lemma_up_from_last(b, m, down_from(b, m, nx, (k - 1) as nat), k);
    }
}

/// From a line start before the end, moving up `k` lines and then down `k`
/// lines returns to it, when there are at least `k` lines above.
pub proof fn lemma_up_then_down(b: Seq<u8>, m: Measure, a: int, k: nat)
    requires
        valid_utf8(b),
        fits(m),
        0 <= a < b.len(),
        is_char_boundary(b, a),
        is_line_start(b, m, a),
        k <= lines_above(b, m, a),
    ensures
        down_from(b, m, up_from(b, m, a, k), k) == a,
    decreases k,
{
    if k > 0 {
        let p = prev_line_start(b, m, a);
        lemma_wrap_keeps_boundaries(b, m, a);
        lemma_up_then_down_once(b, m, a);
        lemma_up_then_down(b, m, p, (k - 1) as nat);
        lemma_down_from_last(b, m, up_from(b, m, p, (k - 1) as nat), k);
        reveal_with_fuel(down_from, 2);
    }
}

/// The line above any boundary begins a line: moving up always lands on a
/// line start.
pub proof fn lemma_up_lands_on_line_start(b: Seq<u8>, m: Measure, a: int)
    requires
        valid_utf8(b),
        0 < a <= b.len(),
        is_char_boundary(b, a),
    ensures
        is_line_start(b, m, prev_line_start(b, m, a)),
{
    let p0 = logical_start(b, a - 1);
    lemma_logical_start(b, a - 1);
    lemma_last_start_before(b, m, p0, a);
    lemma_logical_start_same(b, p0, last_start_before(b, m, p0, a));
}

/// Scrolling keeps the viewport on line starts: from a line start, moving
/// down or up any number of lines lands on a line start.
pub proof fn lemma_scroll_keeps_line_starts(b: Seq<u8>, m: Measure, a: int, n: nat)
    requires
        valid_utf8(b),
        0 <= a <= b.len(),
        is_char_boundary(b, a),
        is_line_start(b, m, a),
    ensures
        is_line_start(b, m, down_from(b, m, a, n)),
        is_line_start(b, m, up_from(b, m, a, n)),
    decreases n,
{
    if n > 0 {
        let nx = line_next(b, m, a);
        lemma_line(b, m, a);
        if !(nx >= b.len() || nx <= a) {
            lemma_down_then_up_once(b, m, a);
            lemma_scroll_keeps_line_starts(b, m, nx, (n - 1) as nat);
        }
        let p = prev_line_start(b, m, a);
        lemma_wrap_keeps_boundaries(b, m, a);
        if a > 0 {
            lemma_up_lands_on_line_start(b, m, a);
        }
        lemma_scroll_keeps_line_starts(b, m, p, (n - 1) as nat);
    }
}

/// Moving down `i` lines and then `j` more is moving down `i + j` lines;
/// the same holds upwards. Moving no lines, down from the end or up from
/// the top, stays put.
pub proof fn lemma_scroll_compose(b: Seq<u8>, m: Measure, a: int, i: nat, j: nat)
    ensures
        down_from(b, m, down_from(b, m, a, i), j) == down_from(b, m, a, i + j),
        up_from(b, m, up_from(b, m, a, i), j) == up_from(b, m, a, i + j),
        down_from(b, m, a, 0) == a,
        up_from(b, m, a, 0) == a,
        a >= b.len() ==> down_from(b, m, a, i) == a,
        up_from(b, m, 0, i) == 0,
    decreases i,
{
    if i > 0 {
        let n = line_next(b, m, a);
        if !(n >= b.len() || n <= a) {
            lemma_scroll_compose(b, m, n, (i - 1) as nat, j);
        } else {
            assert(down_from(b, m, a, i + j) == a);
        }
        lemma_scroll_compose(b, m, prev_line_start(b, m, a), (i - 1) as nat, j);
        lemma_scroll_compose(b, m, 0, (i - 1) as nat, j);
    }
}

/// A screen of lines `lh` high, starting at height `y`, holds a second and
/// further lines only while they begin below the height `h`: every line
/// after the first begins above the bottom.
pub proof fn lemma_screen_height(b: Seq<u8>, m: Measure, s: int, y: nat, lh: nat, h: nat)
    requires
        0 <= s <= b.len(),
    ensures
        screen_lines(b, m, s, y, lh, h).len() >= 2 ==> y + (screen_lines(b, m, s, y, lh, h).len()
            - 1) * lh < h,
        screen_lines(b, m, s, y, lh, h).len() <= b.len() - s + 1,
    decreases b.len() - s,
{
    if 0 <= s < b.len() && !(line_next(b, m, s) <= s || y + lh >= h) {
        let n = line_next(b, m, s);
        lemma_scan_in_range(b, m, s, 0);
        lemma_screen_height(b, m, n, y + lh, lh, h);
        let k = screen_lines(b, m, n, y + lh, lh, h).len();
        assert(screen_lines(b, m, s, y, lh, h).len() == k + 1);
        assert(((k + 1) - 1) * lh == k * lh);
        if k >= 2 {
            assert((y + lh) + (k - 1) * lh == y + k * lh) by (nonlinear_arith);
        } else if k == 1 {
            assert(k * lh == lh) by (nonlinear_arith)
                requires
                    k == 1,
            ;
        }
    }
}

/// On a screen that the lines never fill (lines of no height), the glyph
/// layout's lines, each with the newline after it, give back the rest of
/// the buffer exactly, when every character fits on a line.
pub proof fn lemma_screen_cover(b: Seq<u8>, m: Measure, s: int, y: nat, h: nat)
    requires
        valid_utf8(b),
        fits(m),
        0 <= s <= b.len(),
        is_char_boundary(b, s),
        y < h,
    ensures
        joined(b, screen_lines(b, m, s, y, 0, h)) == b.subrange(s, b.len() as int),
    decreases b.len() - s,
{
    if s >= b.len() {
        assert(b.subrange(s, b.len() as int) =~= seq![]);
    } else {
        lemma_line(b, m, s);
        let nx = line_next(b, m, s);
        let e = line_end(b, m, s);
        let rest = screen_lines(b, m, nx, y, 0, h);
        lemma_screen_cover(b, m, nx, y, h);
        let ls = screen_lines(b, m, s, y, 0, h);
        assert(ls == seq![line_at(b, m, s)] + rest);
        assert(ls.drop_first() =~= rest);
        if line_has_newline(b, m, s) {
            assert(b.subrange(s, e) + seq![NEWLINE] + b.subrange(nx, b.len() as int)
                =~= b.subrange(s, b.len() as int));
        } else {
            assert(b.subrange(s, e) + seq![] + b.subrange(nx, b.len() as int) =~= b.subrange(
                s,
                b.len() as int,
            ));
        }
    }
}

// ---- empty and short buffers ----

proof fn lemma_char_count_split(b: Seq<u8>, s: int, m: int, e: int)
    requires
        s <= m <= e,
    ensures
        char_count(b, s, e) == char_count(b, s, m) + char_count(b, m, e),
    decreases e - m,
{
    if e > m {
        lemma_char_count_split(b, s, m, e - 1);
    }
}

proof fn lemma_char_count_none(b: Seq<u8>, s: int, e: int)
    requires
        s <= e,
        forall|j: int| s < j <= e ==> !is_char_boundary(b, j),
    ensures
        char_count(b, s, e) == 0,
    decreases e - s,
{
    if e > s {
        lemma_char_count_none(b, s, e - 1);
    }
}

/// A line with room for every character left and no newline runs to the end.
proof fn lemma_scan_to_end(b: Seq<u8>, w: nat, s: int, x: nat)
    requires
        valid_utf8(b),
        0 <= s <= b.len(),
        is_char_boundary(b, s),
        forall|j: int| s <= j < b.len() ==> b[j] != NEWLINE,
        x + char_count(b, s, b.len() as int) <= w,
    ensures
        scan_end(b, columns(w), s, x) == b.len(),
    decreases b.len() - s,
{
    if s < b.len() {
        let nb = next_boundary(b, s);
        lemma_next_boundary(b, s);
        lemma_char_count_split(b, s, nb, b.len() as int);
        lemma_char_count_none(b, s, nb - 1);
        assert(char_count(b, s, nb) == 1);
        assert((columns(w).0)(char_at(b, s)) == 1);
        lemma_scan_to_end(b, w, nb, x + 1);
    }
}

/// An empty buffer has no lines, however they are measured; a buffer with
/// no newline and at most `w` characters is a single line, the whole buffer,
/// when wrapping after `w` characters.
pub proof fn lemma_empty_and_short(b: Seq<u8>, m: Measure, w: nat, n: nat, lh: nat, h: nat)
    requires
        valid_utf8(b),
    ensures
        b.len() == 0 ==> lines_from(b, m, 0, n) == Seq::<(int, int, bool)>::empty(),
        b.len() == 0 ==> screen_lines(b, m, 0, 0, lh, h) == Seq::<(int, int, bool)>::empty(),
        0 < b.len() && 0 < n && (forall|j: int| 0 <= j < b.len() ==> b[j] != NEWLINE) && char_count(
            b,
            0,
            b.len() as int,
        ) <= w ==> lines_from(b, columns(w), 0, n) == seq![(0int, b.len() as int, false)],
{
    if 0 < b.len() && 0 < n && (forall|j: int| 0 <= j < b.len() ==> b[j] != NEWLINE)
        && char_count(b, 0, b.len() as int) <= w {
        lemma_boundary_iff(b, 0);
        lemma_scan_to_end(b, w, 0, 0);
        assert(lines_from(b, columns(w), b.len() as int, (n - 1) as nat) =~= seq![]);
        assert(seq![line_at(b, columns(w), 0)] + seq![] =~= seq![(0int, b.len() as int, false)]);
    }
}

} // verus!
