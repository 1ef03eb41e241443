//! Word and punctuation boundaries for word-wise cursor motion.

use vstd::prelude::*;
use crate::buffer::{Buffer, clamp, valid_pos};
use crate::pos::{Pos, pos_le};

verus! {

/// Whether `c` has the Unicode White_Space property.
pub uninterp spec fn white_space(c: char) -> bool;

/// Whether `c` is alphabetic or numeric in the Unicode sense.
pub uninterp spec fn alphanumeric(c: char) -> bool;

/// Relies on `char::is_whitespace`: whether `c` has the White_Space property.
#[verifier::external_body]
pub(crate) fn is_white_space(c: char) -> (r: bool)
    ensures
        r == white_space(c),
{
    c.is_whitespace()
}

/// Relies on `char::is_alphanumeric`: whether `c` is alphabetic or numeric.
#[verifier::external_body]
fn is_alphanumeric(c: char) -> (r: bool)
    ensures
        r == alphanumeric(c),
{
    c.is_alphanumeric()
}

pub const WHITESPACE: u8 = 0;
pub const WORD: u8 = 1;
pub const PUNCTUATION: u8 = 2;

/// The class of `c`: whitespace, a word character (alphanumeric, but not `_` or
/// `-`), or punctuation (everything else, `_` and `-` included).
pub open spec fn category(c: char) -> u8 {
    if white_space(c) {
        WHITESPACE
    } else if alphanumeric(c) && c != '_' && c != '-' {
        WORD
    } else {
        PUNCTUATION
    }
}

/// The class of `c`.
pub fn char_category(c: char) -> (r: u8)
    ensures
        r == category(c),
{
    if is_white_space(c) {
        WHITESPACE
    } else if is_alphanumeric(c) && c != '_' && c != '-' {
        WORD
    } else {
        PUNCTUATION
    }
}

/// The first index at or after `i` whose character is not of class `cls`.
pub open spec fn skip_class(line: Seq<char>, i: int, cls: u8) -> int
    decreases line.len() - i,
{
    if i < 0 || i >= line.len() {
        i
    } else if category(line[i]) == cls {
        skip_class(line, i + 1, cls)
    } else {
        i
    }
}

/// From `i`, moving left over whitespace while not at column zero.
pub open spec fn skip_space_left(line: Seq<char>, i: int) -> int
    decreases i,
{
    if i > 0 && i < line.len() && category(line[i]) == WHITESPACE {
        skip_space_left(line, i - 1)
    } else {
        i
    }
}

/// From `i`, moving left while the character before is a word character.
pub open spec fn word_start(line: Seq<char>, i: int) -> int
    decreases i,
{
    if i > 0 && i <= line.len() && category(line[i - 1]) == WORD {
        word_start(line, i - 1)
    } else {
        i
    }
}

/// The next boundary from the valid position `p`: past the word (or the single
/// other character) at `p`, then past any whitespace; at a line end, the start of
/// the next line; at the document end, `p` itself.
pub open spec fn next_boundary_of(ls: Seq<Seq<char>>, p: Pos) -> Pos {
    let line = ls[p.y as int];
    if p.x >= line.len() {
        if p.y + 1 < ls.len() { Pos { y: (p.y + 1) as usize, x: 0 } } else { p }
    } else {
        let i1 = if category(line[p.x as int]) == WORD {
            skip_class(line, p.x as int, WORD)
        } else {
            p.x + 1
        };
        Pos { y: p.y, x: skip_class(line, i1, WHITESPACE) as usize }
    }
}

/// The previous boundary from the valid position `p`: left past whitespace, then
/// to the start of a word landed on; at a line start, the end of the previous
/// line; at the document start, `p` itself.
pub open spec fn prev_boundary_of(ls: Seq<Seq<char>>, p: Pos) -> Pos {
    if p.x == 0 {
        if p.y > 0 { Pos { y: (p.y - 1) as usize, x: ls[p.y - 1].len() as usize } } else { p }
    } else {
        let line = ls[p.y as int];
        let j = skip_space_left(line, p.x - 1);
        let k = if category(line[j]) == WORD { word_start(line, j) } else { j };
        Pos { y: p.y, x: k as usize }
    }
}

proof fn lemma_skip_class(line: Seq<char>, i: int, cls: u8)
    requires
        0 <= i <= line.len(),
    ensures
        i <= skip_class(line, i, cls) <= line.len(),
        forall|k: int| i <= k < skip_class(line, i, cls) ==> category(#[trigger] line[k]) == cls,
    decreases line.len() - i,
{
    if i < line.len() && category(line[i]) == cls {
        lemma_skip_class(line, i + 1, cls);
    }
}

proof fn lemma_skip_space_left(line: Seq<char>, x: int, k: int)
    requires
        0 <= x <= k < line.len(),
        forall|t: int| x < t <= k ==> category(#[trigger] line[t]) == WHITESPACE,
    ensures
        0 <= skip_space_left(line, k) <= x,
    decreases k - x,
{
    if k > x {
        lemma_skip_space_left(line, x, k - 1);
    } else {
        lemma_skip_space_left_le(line, k);
    }
}

proof fn lemma_skip_space_left_le(line: Seq<char>, k: int)
    requires
        0 <= k,
    ensures
        0 <= skip_space_left(line, k) <= k,
    decreases k,
{
    if k > 0 && k < line.len() && category(line[k]) == WHITESPACE {
        lemma_skip_space_left_le(line, k - 1);
    }
}

proof fn lemma_word_start_le(line: Seq<char>, k: int)
    requires
        0 <= k,
    ensures
        0 <= word_start(line, k) <= k,
    decreases k,
{
    if k > 0 && k <= line.len() && category(line[k - 1]) == WORD {
        lemma_word_start_le(line, k - 1);
    }
}

proof fn lemma_word_start_within(line: Seq<char>, x: int, k: int)
    requires
        0 <= x <= k < line.len(),
        forall|t: int| x <= t <= k ==> category(#[trigger] line[t]) == WORD,
    ensures
        word_start(line, k) <= x,
    decreases k - x,
{
    if k > x {
        lemma_word_start_within(line, x, k - 1);
    } else {
        lemma_word_start_le(line, k);
    }
}

/// Going to the next boundary and back to the previous one never ends after the
/// start, for a valid position inside a line (not at its end).
pub proof fn lemma_prev_of_next_not_after(ls: Seq<Seq<char>>, p: Pos)
    requires
        valid_pos(ls, p),
        p.x < ls[p.y as int].len(),
        ls[p.y as int].len() <= usize::MAX,
    ensures
        next_boundary_of(ls, p).y == p.y,
        pos_le(prev_boundary_of(ls, next_boundary_of(ls, p)), p),
{
    let line = ls[p.y as int];
    let x = p.x as int;
    let n = next_boundary_of(ls, p);
    if category(line[x]) == WORD {
        lemma_skip_class(line, x, WORD);
        lemma_skip_class(line, x + 1, WORD);
        let e = skip_class(line, x, WORD);
        lemma_skip_class(line, e, WHITESPACE);
        let i = skip_class(line, e, WHITESPACE);
        assert(e > x);
        assert(category(line[e - 1]) == WORD);
        lemma_skip_space_left(line, e - 1, i - 1);
        let j = skip_space_left(line, i - 1);
        assert(j == e - 1) by {
            if i - 1 > e - 1 {
                lemma_skip_space_left_exact(line, e - 1, i - 1);
            }
        }
        lemma_word_start_within(line, x, e - 1);
        lemma_word_start_le(line, e - 1);
        assert(n.x == i && n.y == p.y);
        assert(prev_boundary_of(ls, n).x == word_start(line, j));
    } else {
        lemma_skip_class(line, x + 1, WHITESPACE);
        let i = skip_class(line, x + 1, WHITESPACE);
        lemma_skip_space_left(line, x, i - 1);
        let j = skip_space_left(line, i - 1);
        lemma_word_start_le(line, j);
        assert(n.x == i && n.y == p.y);
        assert(prev_boundary_of(ls, n).x <= j);
    }
}

/// Moving left over whitespace stops at the first non-whitespace character.
proof fn lemma_skip_space_left_exact(line: Seq<char>, x: int, k: int)
    requires
        0 <= x <= k < line.len(),
        category(line[x]) != WHITESPACE,
        forall|t: int| x < t <= k ==> category(#[trigger] line[t]) == WHITESPACE,
    ensures
        skip_space_left(line, k) == x,
    decreases k - x,
{
    if k > x {
        lemma_skip_space_left_exact(line, x, k - 1);
    }
}

impl Buffer {
    /// The next word boundary from `p` (clamped first).
    pub fn next_boundary(&self, p: Pos) -> (r: Pos)
        requires
            self.wf(),
        ensures
            r == next_boundary_of(self@, clamp(self@, p)),
            valid_pos(self@, r),
    {
        let q = self.clamp_pos(p);
        let line = self.line_chars(q.y);
        let n = line.len();
        if q.x >= n {
            if q.y < self.line_count() - 1 {
                return Pos { y: q.y + 1, x: 0 };
            }
            return q;
        }
        let mut i = q.x;
        if char_category(line[i]) == WORD {
            while i < n && char_category(line[i]) == WORD
                invariant
                    q.x <= i <= n,
                    n == line@.len(),
                    skip_class(line@, q.x as int, WORD) == skip_class(line@, i as int, WORD),
                decreases n - i,
            {
                i = i + 1;
            }
        } else {
            i = i + 1;
        }
        let ghost i1 = i;
        while i < n && char_category(line[i]) == WHITESPACE
            invariant
                i1 <= i <= n,
                n == line@.len(),
                skip_class(line@, i1 as int, WHITESPACE) == skip_class(line@, i as int, WHITESPACE),
            decreases n - i,
        {
            i = i + 1;
        }
        Pos { y: q.y, x: i }
    }

    /// The previous word boundary from `p` (clamped first).
    pub fn prev_boundary(&self, p: Pos) -> (r: Pos)
        requires
            self.wf(),
        ensures
            r == prev_boundary_of(self@, clamp(self@, p)),
            valid_pos(self@, r),
    {
        let q = self.clamp_pos(p);
        if q.x == 0 {
            if q.y > 0 {
                return Pos { y: q.y - 1, x: self.line_len_chars(q.y - 1) };
            }
            return q;
        }
        let line = self.line_chars(q.y);
        let mut i = q.x - 1;
        while i > 0 && char_category(line[i]) == WHITESPACE
            invariant
                i < line@.len(),
                skip_space_left(line@, q.x - 1) == skip_space_left(line@, i as int),
            decreases i,
        {
            i = i - 1;
        }
        if char_category(line[i]) == WORD {
            let ghost j = i;
            while i > 0 && char_category(line[i - 1]) == WORD
                invariant
                    i <= j < line@.len(),
                    word_start(line@, j as int) == word_start(line@, i as int),
                decreases i,
            {
                i = i - 1;
            }
        }
        Pos { y: q.y, x: i }
    }

    /// The first non-whitespace column of the next line, or the end of this line
    /// on the last line (from `p`, clamped first).
    pub fn next_line_boundary(&self, p: Pos) -> (r: Pos)
        requires
            self.wf(),
        ensures
            ({
                let q = clamp(self@, p);
                if q.y + 1 < self@.len() {
                    r == Pos { y: (q.y + 1) as usize, x: skip_class(self@[q.y + 1], 0, WHITESPACE) as usize }
                } else {
                    r == Pos { y: q.y, x: self@[q.y as int].len() as usize }
                }
            }),
            valid_pos(self@, r),
    {
        let q = self.clamp_pos(p);
        if q.y < self.line_count() - 1 {
            let line = self.line_chars(q.y + 1);
            let i = skip_space_right(&line, 0);
            Pos { y: q.y + 1, x: i }
        } else {
            Pos { y: q.y, x: self.line_len_chars(q.y) }
        }
    }

    /// The first non-whitespace column of the previous line, or the document start
    /// on the first line (from `p`, clamped first).
    pub fn prev_line_boundary(&self, p: Pos) -> (r: Pos)
        requires
            self.wf(),
        ensures
            ({
                let q = clamp(self@, p);
                if q.y > 0 {
                    r == Pos { y: (q.y - 1) as usize, x: skip_class(self@[q.y - 1], 0, WHITESPACE) as usize }
                } else {
                    r == Pos { y: 0, x: 0 }
                }
            }),
            valid_pos(self@, r),
    {
        let q = self.clamp_pos(p);
        if q.y > 0 {
            let line = self.line_chars(q.y - 1);
            let i = skip_space_right(&line, 0);
            Pos { y: q.y - 1, x: i }
        } else {
            Pos { y: 0, x: 0 }
        }
    }
}

/// The first index at or after `start` that is not whitespace (or the length).
fn skip_space_right(line: &Vec<char>, start: usize) -> (r: usize)
    requires
        start <= line@.len(),
    ensures
        r == skip_class(line@, start as int, WHITESPACE),
        r <= line@.len(),
{
    let mut i = start;
    while i < line.len() && char_category(line[i]) == WHITESPACE
        invariant
            start <= i <= line@.len(),
            skip_class(line@, start as int, WHITESPACE) == skip_class(line@, i as int, WHITESPACE),
        decreases line@.len() - i,
    {
        i = i + 1;
    }
    i
}

} // verus!
