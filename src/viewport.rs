//! Mapping from document positions to screen rows and columns, in no-wrap and
//! word-wrap modes, and the scroll adjustment that keeps the cursor visible.

use vstd::prelude::*;
use unicode_width::UnicodeWidthChar;
use crate::buffer::{Buffer, clamp, sat};
use crate::edit::Editor;
use crate::pos::{Pos, pos_lt};
use crate::utils::{digits, spec_digits};

verus! {

/// The terminal width of `c` as the Unicode width tables give it, `None` for a
/// control character.
pub uninterp spec fn unicode_width(c: char) -> Option<usize>;

/// Relies on `unicode_width::UnicodeWidthChar::width` (0.1): `None` for control
/// characters (below U+0020 and U+007F..U+009F), `Some(1)` for printable ASCII,
/// and never more than 3 columns.
#[verifier::external_body]
fn unicode_char_width(c: char) -> (r: Option<usize>)
    ensures
        r == unicode_width(c),
        0x20 <= (c as u32) < 0x7f ==> r == Some(1usize),
        (c as u32) < 0x20 || (0x7f <= (c as u32) < 0xa0) ==> r is None,
        r matches Some(w) ==> w <= 3,
{
    UnicodeWidthChar::width(c)
}

/// The columns `c` takes on screen; a control character counts as one.
pub open spec fn display_width(c: char) -> nat {
    match unicode_width(c) {
        Some(w) => w as nat,
        None => 1,
    }
}

/// The columns `c` takes on screen; a control character counts as one.
pub fn char_display_width(c: char) -> (r: usize)
    ensures
        r == display_width(c),
        r <= 3,
{
    match unicode_char_width(c) {
        Some(w) => w,
        None => 1,
    }
}

/// The columns taken by the first `k` characters of `line`.
pub open spec fn width_prefix(line: Seq<char>, k: int) -> nat
    decreases k,
{
    if k <= 0 {
        0
    } else {
        width_prefix(line, k - 1) + display_width(line[k - 1])
    }
}

/// Word-wrap segmentation of the first `k` characters of `line` into chunks of at
/// most `avail` columns: the number of chunk breaks so far and the columns used
/// in the current chunk. A break comes before a character that would overflow.
pub open spec fn wrap_state(line: Seq<char>, k: int, avail: nat) -> (nat, nat)
    decreases k,
{
    if k <= 0 {
        (0, 0)
    } else {
        let prev = wrap_state(line, k - 1, avail);
        let w = display_width(line[k - 1]);
        if prev.1 + w > avail {
            (prev.0 + 1, w)
        } else {
            (prev.0, prev.1 + w)
        }
    }
}

/// The screen rows line `line` takes when wrapped.
pub open spec fn wrap_rows(line: Seq<char>, avail: nat) -> nat {
    wrap_state(line, line.len() as int, avail).0 + 1
}

/// The index of the chunk holding column `x` (capped at the line's length): a
/// position where a chunk begins belongs to that chunk.
pub open spec fn wrap_chunk(line: Seq<char>, x: int, avail: nat) -> nat {
    wrap_state(line, if x < line.len() { x + 1 } else { line.len() as int }, avail).0
}

/// The screen column of `x` within its chunk.
pub open spec fn wrap_col(line: Seq<char>, x: int, avail: nat) -> nat {
    let k = if x < line.len() { x } else { line.len() as int };
    let st = wrap_state(line, k, avail);
    if k < line.len() && st.1 + display_width(line[k]) > avail { 0 } else { st.1 }
}

/// The screen rows taken by lines `0..y`.
pub open spec fn rows_before(ls: Seq<Seq<char>>, y: int, avail: nat) -> nat
    decreases y,
{
    if y <= 0 {
        0
    } else {
        rows_before(ls, y - 1, avail) + wrap_rows(ls[y - 1], avail)
    }
}

/// The screen row of `p` in word-wrap mode, counted from the top of the
/// document. A line past the end gives the row after the last one.
pub open spec fn screen_row(ls: Seq<Seq<char>>, p: Pos, avail: nat) -> nat {
    if p.y < ls.len() {
        rows_before(ls, p.y as int, avail) + wrap_chunk(ls[p.y as int], p.x as int, avail)
    } else {
        rows_before(ls, ls.len() as int, avail)
    }
}

proof fn lemma_wrap_state_mono(line: Seq<char>, i: int, j: int, avail: nat)
    requires
        0 <= i <= j,
    ensures
        wrap_state(line, i, avail).0 <= wrap_state(line, j, avail).0,
    decreases j - i,
{
    if i < j {
        lemma_wrap_state_mono(line, i, j - 1, avail);
    }
}

proof fn lemma_rows_before_mono(ls: Seq<Seq<char>>, i: int, j: int, avail: nat)
    requires
        0 <= i <= j,
    ensures
        rows_before(ls, i, avail) <= rows_before(ls, j, avail),
        i < j ==> rows_before(ls, i, avail) + wrap_rows(ls[i], avail) <= rows_before(ls, j, avail),
    decreases j - i,
{
    if i < j {
        lemma_rows_before_mono(ls, i, j - 1, avail);
    }
}

/// In word-wrap mode screen rows follow document order: a position before
/// another is never on a lower row.
pub proof fn lemma_screen_row_monotonic(ls: Seq<Seq<char>>, p1: Pos, p2: Pos, avail: nat)
    requires
        pos_lt(p1, p2),
    ensures
        screen_row(ls, p1, avail) <= screen_row(ls, p2, avail),
{
    let n = ls.len() as int;
    if p1.y < n {
        let line = ls[p1.y as int];
        let c1 = if p1.x < line.len() { p1.x + 1 } else { line.len() as int };
        lemma_wrap_state_mono(line, c1, line.len() as int, avail);
        if p1.y == p2.y {
            let c2 = if p2.x < line.len() { p2.x + 1 } else { line.len() as int };
            lemma_wrap_state_mono(line, c1, c2, avail);
        } else if p2.y < n {
            lemma_rows_before_mono(ls, p1.y as int, p2.y as int, avail);
        } else {
            lemma_rows_before_mono(ls, p1.y as int, n, avail);
        }
    }
}

/// The columns a gutter of line numbers takes for a document of `n` lines.
pub open spec fn gutter_width(n: nat) -> nat {
    (if spec_digits(n) < 2 { 2 } else { spec_digits(n) }) + 2
}

/// The columns a gutter of line numbers takes for a document of `n` lines.
pub fn gutter_for(n: usize) -> (r: usize)
    ensures
        r == gutter_width(n as nat),
        r <= 22,
{
    let d = digits(n);
    let w = if d < 2 { 2 } else { d };
    w + 2
}

/// Word-wrap segmentation of the first `k` characters of `line`.
fn wrap_scan(line: &Vec<char>, k: usize, avail: usize) -> (r: (usize, usize))
    requires
        k <= line@.len(),
    ensures
        r.0 == wrap_state(line@, k as int, avail as nat).0,
        r.1 == wrap_state(line@, k as int, avail as nat).1,
        r.0 <= k,
        r.1 <= avail || r.1 <= 3,
{
    let mut breaks: usize = 0;
    let mut col: usize = 0;
    let mut i: usize = 0;
    while i < k
        invariant
            i <= k <= line@.len(),
            breaks == wrap_state(line@, i as int, avail as nat).0,
            col == wrap_state(line@, i as int, avail as nat).1,
            breaks <= i,
            col <= avail || col <= 3,
        decreases k - i,
    {
        let w = char_display_width(line[i]);
        if col > avail || w > avail - col {
            breaks = breaks + 1;
            col = w;
        } else {
            col = col + w;
        }
        i = i + 1;
    }
    (breaks, col)
}

/// The screen rows `line` takes when wrapped to `avail` columns.
pub fn line_wrap_rows(line: &Vec<char>, avail: usize) -> (r: usize)
    ensures
        r == sat(wrap_rows(line@, avail as nat) as int),
{
    let (b, _) = wrap_scan(line, line.len(), avail);
    b.saturating_add(1)
}

/// Whether a chunk break comes before character `k` of `line`.
pub open spec fn breaks_before(line: Seq<char>, k: int, avail: nat) -> bool {
    wrap_state(line, k, avail).1 + display_width(line[k]) > avail
}

/// The first characters of the chunks that the first `k` characters of `line`
/// fall into: zero, then each character before which a chunk break comes.
pub open spec fn segment_starts(line: Seq<char>, k: int, avail: nat) -> Seq<usize>
    decreases k,
{
    if k <= 0 {
        seq![0usize]
    } else if breaks_before(line, k - 1, avail) {
        segment_starts(line, k - 1, avail).push((k - 1) as usize)
    } else {
        segment_starts(line, k - 1, avail)
    }
}

/// Where each screen row of `line`, wrapped to `avail` columns, begins.
pub fn wrap_segments(line: &Vec<char>, avail: usize) -> (r: Vec<usize>)
    ensures
        r@ == segment_starts(line@, line@.len() as int, avail as nat),
{
    let mut out: Vec<usize> = Vec::new();
    out.push(0);
    let mut col: usize = 0;
    let mut i: usize = 0;
    while i < line.len()
        invariant
            i <= line@.len(),
            col == wrap_state(line@, i as int, avail as nat).1,
            col <= avail || col <= 3,
            out@ == segment_starts(line@, i as int, avail as nat),
        decreases line@.len() - i,
    {
        let w = char_display_width(line[i]);
        if col > avail || w > avail - col {
            out.push(i);
            col = w;
        } else {
            col = col + w;
        }
        i = i + 1;
    }
    out
}

/// The end of the longest run of characters of `line` from `from` that fits in
/// `cols` columns.
pub fn fitting_end(line: &Vec<char>, from: usize, cols: usize) -> (r: usize)
    ensures
        from <= line@.len() ==> from <= r <= line@.len(),
        from <= line@.len() ==> width_prefix(line@, r as int) - width_prefix(line@, from as int) <= cols,
        from <= line@.len() && r < line@.len() ==> width_prefix(line@, r + 1) - width_prefix(line@, from as int) > cols,
        from > line@.len() ==> r == from,
{
    if from > line.len() {
        return from;
    }
    let mut used: usize = 0;
    let mut i = from;
    while i < line.len()
        invariant
            from <= i <= line@.len(),
            used <= cols,
            used == width_prefix(line@, i as int) - width_prefix(line@, from as int),
        decreases line@.len() - i,
    {
        let w = char_display_width(line[i]);
        if w > cols - used {
            return i;
        }
        used = used + w;
        i = i + 1;
    }
    i
}

/// The chunk index and in-chunk screen column of column `x` of `line` wrapped to
/// `avail` columns.
pub fn wrap_position(line: &Vec<char>, x: usize, avail: usize) -> (r: (usize, usize))
    ensures
        r.0 == wrap_chunk(line@, x as int, avail as nat),
        r.1 == wrap_col(line@, x as int, avail as nat),
{
    let n = line.len();
    let k = if x < n { x } else { n };
    let (b, col) = wrap_scan(line, k, avail);
    if k < n {
        let w = char_display_width(line[k]);
        if col > avail || w > avail - col {
            (b + 1, 0)
        } else {
            (b, col)
        }
    } else {
        (b, col)
    }
}

impl Buffer {
    /// The screen row of `p` in word-wrap mode with `avail` text columns,
    /// capped at `usize::MAX`.
    pub fn screen_row(&self, p: Pos, avail: usize) -> (r: usize)
        requires
            self.wf(),
        ensures
            r == sat(screen_row(self@, p, avail as nat) as int),
    {
        let n = self.line_count();
        let stop = if p.y < n { p.y } else { n };
        let mut acc: usize = 0;
        let mut y: usize = 0;
        while y < stop
            invariant
                self.wf(),
                n == self@.len(),
                stop <= n,
                y <= stop,
                acc == sat(rows_before(self@, y as int, avail as nat) as int),
            decreases stop - y,
        {
            let line = self.line_chars(y);
            let rows = line_wrap_rows(&line, avail);
            acc = acc.saturating_add(rows);
            y = y + 1;
        }
        if p.y < n {
            let line = self.line_chars(p.y);
            let (chunk, _) = wrap_position(&line, p.x, avail);
            acc.saturating_add(chunk)
        } else {
            acc
        }
    }
}

/// The columns taken by characters `lo..hi` of `line`.
pub open spec fn width_between(line: Seq<char>, lo: int, hi: int) -> nat {
    (width_prefix(line, hi) - width_prefix(line, lo)) as nat
}

proof fn lemma_width_prefix_mono(line: Seq<char>, i: int, j: int)
    requires
        0 <= i <= j,
    ensures
        width_prefix(line, i) <= width_prefix(line, j),
    decreases j - i,
{
    if i < j {
        lemma_width_prefix_mono(line, i, j - 1);
    }
}

/// The columns taken by the first `k` characters of `line`.
fn width_prefix_of(line: &Vec<char>, k: usize) -> (r: u128)
    requires
        k <= line@.len(),
    ensures
        r == width_prefix(line@, k as int),
        r <= 3 * k,
{
    let mut acc: u128 = 0;
    let mut i: usize = 0;
    while i < k
        invariant
            i <= k <= line@.len(),
            acc == width_prefix(line@, i as int),
            acc <= 3 * i,
        decreases k - i,
    {
        let w = char_display_width(line[i]);
        acc = acc + w as u128;
        i = i + 1;
    }
    acc
}

/// The first column of `line` from which the columns before it reach `target`,
/// scanning from `i`; zero when no such column comes before the line's end.
pub open spec fn first_reaching_from(line: Seq<char>, target: nat, i: int) -> nat
    decreases line.len() - i,
{
    if i >= line.len() || i < 0 {
        0
    } else if width_prefix(line, i) >= target {
        i as nat
    } else {
        first_reaching_from(line, target, i + 1)
    }
}

/// Where the screen's scroll offset moves so that `target` is within `h` rows
/// (or columns) of it: to `target` when it is above, so that it is the last
/// visible one when it is below, else nowhere.
pub open spec fn follow(target: int, scroll: int, h: int) -> int {
    if target < scroll {
        target
    } else if target >= scroll + h {
        let back = if h >= 1 { h - 1 } else { 0 };
        if target >= back { target - back } else { 0 }
    } else {
        scroll
    }
}

/// The horizontal scroll column (no-wrap mode) that keeps column `x` of `line`
/// visible in `avail` columns, starting from `sx`: scrolling left jumps to `x`;
/// scrolling right finds the first column whose width prefix reaches the target.
pub open spec fn hscroll(line: Seq<char>, x: int, sx: int, avail: int) -> int {
    let cc = width_prefix(line, x) as int;
    let sc = width_prefix(line, if sx < line.len() { sx } else { line.len() as int }) as int;
    if cc < sc {
        x
    } else if cc >= sc + avail {
        let back = if avail >= 1 { avail - 1 } else { 0 };
        let target = if cc >= back { cc - back } else { 0 };
        first_reaching_from(line, target as nat, 0) as int
    } else {
        sx
    }
}

fn follow_exec(target: usize, scroll: usize, h: usize) -> (r: usize)
    ensures
        r == follow(target as int, scroll as int, h as int),
{
    if target < scroll {
        target
    } else if target - scroll >= h {
        let back = if h >= 1 { h - 1 } else { 0 };
        if target >= back { target - back } else { 0 }
    } else {
        scroll
    }
}

/// The no-wrap horizontal scroll column for column `x` of `line`.
pub fn horizontal_scroll(line: &Vec<char>, x: usize, sx: usize, avail: usize) -> (r: usize)
    requires
        x <= line@.len(),
    ensures
        r == hscroll(line@, x as int, sx as int, avail as int),
{
    let n = line.len();
    let cc = width_prefix_of(line, x);
    let sc = width_prefix_of(line, if sx < n { sx } else { n });
    if cc < sc {
        x
    } else if cc >= sc + avail as u128 {
        let back: u128 = if avail >= 1 { (avail - 1) as u128 } else { 0 };
        let target: u128 = if cc >= back { cc - back } else { 0 };
        let mut col: u128 = 0;
        let mut i: usize = 0;
        while i < n
            invariant
                n == line@.len(),
                i <= n,
                col == width_prefix(line@, i as int),
                col <= 3 * i,
                first_reaching_from(line@, target as nat, 0) == first_reaching_from(line@, target as nat, i as int),
                cc == width_prefix(line@, x as int),
                sc == width_prefix(line@, if sx < n { sx as int } else { n as int }),
                !(cc < sc),
                cc >= sc + avail,
                back == if avail >= 1 { avail - 1 } else { 0 },
                target == if cc >= back { cc - back } else { 0 },
            decreases n - i,
        {
            if col >= target {
                assert(first_reaching_from(line@, target as nat, i as int) == i);
                return i;
            }
            col = col + char_display_width(line[i]) as u128;
            i = i + 1;
        }
        0
    } else {
        sx
    }
}

impl Editor {
    /// Moves the scroll state so that the cursor is visible in a text area of
    /// `width` columns (line-number gutter included) and `height` rows. Returns
    /// whether the scroll state changed.
    pub fn ensure_visible(&mut self, width: usize, height: usize) -> (r: bool)
        requires
            old(self).wf(),
        ensures
            final(self).wf(),
            final(self).buf == old(self).buf,
            final(self).cursor == old(self).cursor,
            final(self).anchor == old(self).anchor,
            final(self).undo == old(self).undo,
            final(self).redo == old(self).redo,
            final(self).undo_capacity == old(self).undo_capacity,
            final(self).word_wrap == old(self).word_wrap,
            ({
                let ls = old(self).buf@;
                let c = clamp(ls, old(self).cursor);
                let g = gutter_width(ls.len());
                if old(self).word_wrap {
                    let avail: nat = if width >= g { (width - g) as nat } else { 0 };
                    let row = sat(screen_row(ls, c, avail) as int);
                    &&& final(self).scroll_y == follow(row as int, old(self).scroll_y as int, height as int)
                    &&& final(self).scroll_x == 0
                } else {
                    let avail: int = if width >= g + 1 { width - g - 1 } else { 0 };
                    &&& final(self).scroll_y == follow(c.y as int, old(self).scroll_y as int, height as int)
                    &&& final(self).scroll_x == hscroll(ls[c.y as int], c.x as int, old(self).scroll_x as int, avail)
                }
            }),
            r == (final(self).scroll_y != old(self).scroll_y || final(self).scroll_x != old(self).scroll_x),
    {
        let old_y = self.scroll_y;
        let old_x = self.scroll_x;
        let c = self.buf.clamp_pos(self.cursor);
        let g = gutter_for(self.buf.line_count());
        if self.word_wrap {
            let avail = width.saturating_sub(g);
            let row = self.buf.screen_row(c, avail);
            self.scroll_y = follow_exec(row, self.scroll_y, height);
            self.scroll_x = 0;
        } else {
            self.scroll_y = follow_exec(c.y, self.scroll_y, height);
            let avail = width.saturating_sub(g).saturating_sub(1);
            let line = self.buf.line_chars(c.y);
            self.scroll_x = horizontal_scroll(&line, c.x, self.scroll_x, avail);
        }
        self.scroll_y != old_y || self.scroll_x != old_x
    }

    /// Where the cursor appears in a text area of `width` columns: its screen row
    /// relative to the scroll state and its column including the line-number
    /// gutter (both capped at `usize::MAX`).
    pub fn cursor_screen_coordinates(&self, width: usize) -> (r: (usize, usize))
        requires
            self.wf(),
        ensures
            ({
                let ls = self.buf@;
                let c = clamp(ls, self.cursor);
                let g = gutter_width(ls.len());
                if self.word_wrap {
                    let avail: nat = if width >= g { (width - g) as nat } else { 0 };
                    let row = sat(screen_row(ls, c, avail) as int);
                    &&& r.0 == if row >= self.scroll_y { row - self.scroll_y } else { 0 }
                    &&& r.1 == sat((g + wrap_col(ls[c.y as int], c.x as int, avail)) as int)
                } else {
                    let line = ls[c.y as int];
                    let lo: int = if self.scroll_x < c.x { self.scroll_x as int } else { c.x as int };
                    &&& r.0 == if c.y >= self.scroll_y { c.y - self.scroll_y } else { 0 }
                    &&& r.1 == sat((g + width_between(line, lo, c.x as int)) as int)
                }
            }),
    {
        let c = self.buf.clamp_pos(self.cursor);
        let g = gutter_for(self.buf.line_count());
        let line = self.buf.line_chars(c.y);
        if self.word_wrap {
            let avail = width.saturating_sub(g);
            let row = self.buf.screen_row(c, avail);
            let (_, col) = wrap_position(&line, c.x, avail);
            (row.saturating_sub(self.scroll_y), g.saturating_add(col))
        } else {
            let lo = if self.scroll_x < c.x { self.scroll_x } else { c.x };
            proof {
                lemma_width_prefix_mono(line@, lo as int, c.x as int);
            }
            let a = width_prefix_of(&line, lo);
            let b = width_prefix_of(&line, c.x);
            let span = b - a;
            let col: usize = if span > (usize::MAX - g) as u128 { usize::MAX } else { g + span as usize };
            (c.y.saturating_sub(self.scroll_y), col)
        }
    }
}

} // verus!
