//! The document store kept in a balanced-tree rope (ropey), for large files.
//! The text is one character sequence; lines are the runs between `\n`.

use vstd::prelude::*;
use ropey::Rope;
use crate::buffer::{end_of_insert, find_in_line, insert_parts, matches_at, predict_end};
use crate::pos::{LineEnding, Pos, pos_le};
use crate::text::{contains_crlf, has_crlf, normalize_crlf, normalize_newlines, string_from_chars};
use crate::utils::chars_of;

verus! {

#[verifier::external_type_specification]
#[verifier::external_body]
pub struct ExRope(Rope);

/// The characters a rope holds.
pub uninterp spec fn rope_chars(r: Rope) -> Seq<char>;

/// The number of `\n` among the first `i` characters of `s`.
pub open spec fn nl_count(s: Seq<char>, i: int) -> nat
    decreases i,
{
    if i <= 0 {
        0
    } else {
        nl_count(s, i - 1) + if s[i - 1] == '\n' { 1nat } else { 0nat }
    }
}

/// The number of lines of `s`: one more than its separators.
pub open spec fn line_total(s: Seq<char>) -> nat {
    nl_count(s, s.len() as int) + 1
}

/// The first `\n` at or after `i`, or the length of `s`.
pub open spec fn next_nl(s: Seq<char>, i: int) -> int
    decreases s.len() - i,
{
    if i < 0 || i >= s.len() {
        s.len() as int
    } else if s[i] == '\n' {
        i
    } else {
        next_nl(s, i + 1)
    }
}

/// The offset at which line `y` of `s` starts; the length of `s` for the line
/// after the last.
pub open spec fn line_start_of(s: Seq<char>, y: int) -> int
    decreases y,
{
    if y <= 0 {
        0
    } else {
        let p = next_nl(s, line_start_of(s, y - 1)) + 1;
        if p <= s.len() { p } else { s.len() as int }
    }
}

/// The length of line `y` of `s`, its separator excluded.
pub open spec fn line_len_of(s: Seq<char>, y: int) -> int {
    let a = line_start_of(s, y);
    let b = line_start_of(s, y + 1);
    if b > a && s[b - 1] == '\n' { b - a - 1 } else { b - a }
}

/// The nearest valid position of `s`.
pub open spec fn rope_clamp(s: Seq<char>, p: Pos) -> Pos {
    let y: int = if p.y < line_total(s) { p.y as int } else { line_total(s) - 1 };
    let len = line_len_of(s, y);
    Pos { y: y as usize, x: (if p.x <= len { p.x as int } else { len }) as usize }
}

/// The offset of `p` in `s`: the column is capped at the line's length, and a line
/// past the end gives the end of the text.
pub open spec fn offset_of(s: Seq<char>, p: Pos) -> int {
    if p.y >= line_total(s) {
        s.len() as int
    } else {
        let len = line_len_of(s, p.y as int);
        line_start_of(s, p.y as int) + if p.x <= len { p.x as int } else { len }
    }
}

/// The position of offset `i` (capped at the end) in `s`.
pub open spec fn pos_at(s: Seq<char>, i: int) -> Pos {
    let j = if i <= s.len() { i } else { s.len() as int };
    let y = nl_count(s, j);
    Pos { y: y as usize, x: (j - line_start_of(s, y as int)) as usize }
}

proof fn lemma_nl_count_mono(s: Seq<char>, i: int, j: int)
    requires
        0 <= i <= j,
    ensures
        nl_count(s, i) <= nl_count(s, j),
        nl_count(s, j) <= nl_count(s, i) + (j - i),
    decreases j - i,
{
    if i < j {
        lemma_nl_count_mono(s, i, j - 1);
    }
}

proof fn lemma_next_nl_bounds(s: Seq<char>, a: int)
    requires
        0 <= a,
    ensures
        next_nl(s, a) <= s.len(),
        a <= s.len() ==> a <= next_nl(s, a),
    decreases s.len() - a,
{
    if a < s.len() && s[a] != '\n' {
        lemma_next_nl_bounds(s, a + 1);
    }
}

proof fn lemma_next_nl_le(s: Seq<char>, a: int, b: int)
    requires
        0 <= a <= b < s.len(),
        s[b] == '\n',
    ensures
        next_nl(s, a) <= b,
    decreases b - a,
{
    if s[a] != '\n' {
        lemma_next_nl_le(s, a + 1, b);
    }
}

proof fn lemma_line_start_bounds(s: Seq<char>, y: int)
    requires
        0 <= y,
    ensures
        0 <= line_start_of(s, y) <= s.len(),
        y > 0 ==> line_start_of(s, y - 1) <= line_start_of(s, y),
    decreases y,
{
    if y > 0 {
        lemma_line_start_bounds(s, y - 1);
        lemma_next_nl_bounds(s, line_start_of(s, y - 1));
    }
}

/// The line that holds offset `i` starts at or before it.
proof fn lemma_line_start_of_count(s: Seq<char>, i: int)
    requires
        0 <= i <= s.len(),
    ensures
        line_start_of(s, nl_count(s, i) as int) <= i,
    decreases i,
{
    if i > 0 {
        lemma_line_start_of_count(s, i - 1);
        let k = nl_count(s, i - 1) as int;
        if s[i - 1] == '\n' {
            lemma_line_start_bounds(s, k);
            lemma_next_nl_le(s, line_start_of(s, k), i - 1);
            assert(nl_count(s, i) == k + 1);
        }
    }
}

/// Relies on `ropey::Rope::new`: an empty rope.
#[verifier::external_body]
fn rope_new() -> (r: Rope)
    ensures
        rope_chars(r) == Seq::<char>::empty(),
{
    Rope::new()
}

/// Relies on `ropey::Rope::from_str`: a rope holding the characters of `s`.
#[verifier::external_body]
fn rope_from_str(s: &str) -> (r: Rope)
    ensures
        rope_chars(r) == s@,
{
    Rope::from_str(s)
}

/// Relies on `ropey::Rope::len_chars`: the number of characters.
#[verifier::external_body]
fn rope_len_chars(r: &Rope) -> (n: usize)
    ensures
        n == rope_chars(*r).len(),
{
    r.len_chars()
}

/// Relies on `ropey::Rope::len_lines`: one more than the line breaks, which are
/// `\n` alone with the crate's line features off.
#[verifier::external_body]
fn rope_len_lines(r: &Rope) -> (n: usize)
    ensures
        n == line_total(rope_chars(*r)),
{
    r.len_lines()
}

/// Relies on `ropey::Rope::char`: the character at `i`; panics past the end.
#[verifier::external_body]
fn rope_char(r: &Rope, i: usize) -> (c: char)
    requires
        i < rope_chars(*r).len(),
    ensures
        c == rope_chars(*r)[i as int],
{
    r.char(i)
}

/// Relies on `ropey::Rope::char_to_line`: the number of line breaks before
/// offset `i`; panics past the end.
#[verifier::external_body]
fn rope_char_to_line(r: &Rope, i: usize) -> (y: usize)
    requires
        i <= rope_chars(*r).len(),
    ensures
        y == nl_count(rope_chars(*r), i as int),
{
    r.char_to_line(i)
}

/// Relies on `ropey::Rope::line_to_char`: where line `y` starts, the length for
/// one past the last line; panics beyond that.
#[verifier::external_body]
fn rope_line_to_char(r: &Rope, y: usize) -> (i: usize)
    requires
        y <= line_total(rope_chars(*r)),
    ensures
        i == line_start_of(rope_chars(*r), y as int),
{
    r.line_to_char(y)
}

/// Relies on `ropey::Rope::insert`: `s` is inserted at offset `i`; panics past the
/// end.
#[verifier::external_body]
fn rope_insert(r: &mut Rope, i: usize, s: &str)
    requires
        i <= rope_chars(*old(r)).len(),
    ensures
        rope_chars(*final(r)) == rope_chars(*old(r)).take(i as int) + s@ + rope_chars(*old(r)).skip(i as int),
{
    r.insert(i, s)
}

/// Relies on `ropey::Rope::remove`: the characters `a..b` are removed; panics
/// unless `a <= b <= len`.
#[verifier::external_body]
fn rope_remove(r: &mut Rope, a: usize, b: usize)
    requires
        a <= b <= rope_chars(*old(r)).len(),
    ensures
        rope_chars(*final(r)) == rope_chars(*old(r)).take(a as int) + rope_chars(*old(r)).skip(b as int),
{
    r.remove(a..b)
}

/// Relies on `ropey::Rope::slice`: the characters `a..b` as a string; panics
/// unless `a <= b <= len`.
#[verifier::external_body]
fn rope_slice(r: &Rope, a: usize, b: usize) -> (s: String)
    requires
        a <= b <= rope_chars(*r).len(),
    ensures
        s@ == rope_chars(*r).subrange(a as int, b as int),
{
    String::from(r.slice(a..b))
}

/// The document store kept in a rope.
pub struct RopeBuffer {
    text: Rope,
    line_ending: LineEnding,
}

impl RopeBuffer {
    /// The characters of the document, lines separated by `\n`.
    pub closed spec fn chars(&self) -> Seq<char> {
        rope_chars(self.text)
    }

    pub closed spec fn spec_line_ending(&self) -> LineEnding {
        self.line_ending
    }

    /// An empty document with `LF` endings.
    pub fn new() -> (r: RopeBuffer)
        ensures
            r.chars() == Seq::<char>::empty(),
            r.spec_line_ending() == LineEnding::LF,
    {
        RopeBuffer { text: rope_new(), line_ending: LineEnding::LF }
    }

    /// A document from text as read from disk: `CRLF` style when the text holds
    /// `\r\n`, else `LF`; inside, every `\r\n` becomes `\n`.
    pub fn from_string(s: &str) -> (r: RopeBuffer)
        ensures
            r.chars() == normalize_crlf(s@),
            r.spec_line_ending() == (if has_crlf(s@) { LineEnding::CRLF } else { LineEnding::LF }),
    {
        let cs = chars_of(s);
        let line_ending = if contains_crlf(&cs) { LineEnding::CRLF } else { LineEnding::LF };
        let norm = normalize_newlines(&cs);
        let t = string_from_chars(&norm);
        RopeBuffer { text: rope_from_str(t.as_str()), line_ending }
    }

    /// The text for saving: each `\n` written as the document's line ending.
    pub fn to_string(&self) -> (r: String)
        ensures
            self.spec_line_ending() == LineEnding::LF ==> r@ == self.chars(),
            self.spec_line_ending() == LineEnding::CRLF ==> r@ == crlf_of(self.chars(), self.chars().len() as int),
    {
        let n = rope_len_chars(&self.text);
        let all = rope_slice(&self.text, 0, n);
        assert(self.chars().subrange(0, n as int) =~= self.chars());
        match self.line_ending {
            LineEnding::LF => all,
            LineEnding::CRLF => {
                let cs = chars_of(all.as_str());
                let mut out: Vec<char> = Vec::new();
                let mut i: usize = 0;
                while i < cs.len()
                    invariant
                        cs@ == rope_chars(self.text),
                        i <= cs@.len(),
                        out@ == crlf_of(cs@, i as int),
                    decreases cs@.len() - i,
                {
                    if cs[i] == '\n' {
                        out.push('\r');
                    }
                    out.push(cs[i]);
                    i = i + 1;
                }
                string_from_chars(&out)
            },
        }
    }

    /// The line ending style used when the document is written out.
    pub fn line_ending(&self) -> (r: LineEnding)
        ensures
            r == self.spec_line_ending(),
    {
        self.line_ending
    }

    /// Number of lines; at least one.
    pub fn line_count(&self) -> (r: usize)
        ensures
            r == line_total(self.chars()),
    {
        rope_len_lines(&self.text)
    }

    /// Length of line `y`, its separator excluded; zero for a line that does not
    /// exist.
    pub fn line_len_chars(&self, y: usize) -> (r: usize)
        ensures
            y < line_total(self.chars()) ==> r == line_len_of(self.chars(), y as int),
            y >= line_total(self.chars()) ==> r == 0,
    {
        let n = rope_len_lines(&self.text);
        if y >= n {
            return 0;
        }
        let a = rope_line_to_char(&self.text, y);
        let b = rope_line_to_char(&self.text, y + 1);
        proof {
            lemma_line_start_bounds(self.chars(), y + 1);
        }
        if b > a && rope_char(&self.text, b - 1) == '\n' {
            b - a - 1
        } else {
            b - a
        }
    }

    /// The text of line `y`, its separator excluded; empty for a line that does
    /// not exist.
    pub fn line(&self, y: usize) -> (r: String)
        ensures
            y < line_total(self.chars()) ==> r@ == self.chars().subrange(
                line_start_of(self.chars(), y as int),
                line_start_of(self.chars(), y as int) + line_len_of(self.chars(), y as int),
            ),
            y >= line_total(self.chars()) ==> r@.len() == 0,
    {
        let n = rope_len_lines(&self.text);
        if y >= n {
            return String::new();
        }
        let a = rope_line_to_char(&self.text, y);
        let len = self.line_len_chars(y);
        let total = rope_len_chars(&self.text);
        proof {
            lemma_line_len_bound(self.chars(), y as int);
        }
        rope_slice(&self.text, a, a + len)
    }

    /// Replaces the text of line `y` (its separator kept) with `content`; nothing
    /// happens for a line that does not exist.
    pub fn set_line(&mut self, y: usize, content: &str)
        ensures
            ({
                let s = old(self).chars();
                let a = line_start_of(s, y as int);
                if y < line_total(s) {
                    final(self).chars() == s.take(a) + content@ + s.skip(a + line_len_of(s, y as int))
                } else {
                    final(self).chars() == s
                }
            }),
            final(self).spec_line_ending() == old(self).spec_line_ending(),
    {
        let n = rope_len_lines(&self.text);
        if y >= n {
            return;
        }
        let a = rope_line_to_char(&self.text, y);
        let len = self.line_len_chars(y);
        let total = rope_len_chars(&self.text);
        proof {
            lemma_line_len_bound(old(self).chars(), y as int);
        }
        rope_remove(&mut self.text, a, a + len);
        proof {
            let s = old(self).chars();
            assert(s.take(a as int).len() == a);
        }
        rope_insert(&mut self.text, a, content);
        proof {
            let s = old(self).chars();
            let mid = s.take(a as int) + s.skip(a + len);
            assert(mid.take(a as int) =~= s.take(a as int));
            assert(mid.skip(a as int) =~= s.skip(a + len));
        }
    }

    /// Clamps a position to a valid line and a valid column within that line.
    pub fn clamp_pos(&self, p: Pos) -> (r: Pos)
        ensures
            r == rope_clamp(self.chars(), p),
    {
        let n = rope_len_lines(&self.text);
        let y = if p.y < n { p.y } else { n - 1 };
        let len = self.line_len_chars(y);
        Pos { y, x: if p.x <= len { p.x } else { len } }
    }

    /// The offset of `p`: the column is capped at the line's length, and a line
    /// past the end gives the end of the text.
    pub fn pos_to_char_idx_public(&self, p: Pos) -> (r: usize)
        ensures
            r == offset_of(self.chars(), p),
    {
        let n = rope_len_lines(&self.text);
        if p.y >= n {
            return rope_len_chars(&self.text);
        }
        let start = rope_line_to_char(&self.text, p.y);
        let len = self.line_len_chars(p.y);
        let total = rope_len_chars(&self.text);
        proof {
            lemma_line_len_bound(self.chars(), p.y as int);
        }
        start + if p.x <= len { p.x } else { len }
    }

    /// The position of offset `i`, capped at the end of the text.
    pub fn char_idx_to_pos_public(&self, i: usize) -> (r: Pos)
        ensures
            r == pos_at(self.chars(), i as int),
    {
        let n = rope_len_chars(&self.text);
        let j = if i <= n { i } else { n };
        let y = rope_char_to_line(&self.text, j);
        proof {
            lemma_nl_count_mono(self.chars(), j as int, n as int);
            lemma_line_start_of_count(self.chars(), j as int);
        }
        let start = rope_line_to_char(&self.text, y);
        Pos { y, x: j - start }
    }

    /// Inserts `text` at `p` (clamped first), `\r\n` becoming `\n`; returns the
    /// position just after the inserted text.
    pub fn insert_str(&mut self, p: Pos, text: &str) -> (r: Pos)
        ensures
            ({
                let s = old(self).chars();
                let i = offset_of(s, rope_clamp(s, p));
                &&& final(self).chars() == s.take(i) + normalize_crlf(text@) + s.skip(i)
                &&& r == pos_at(final(self).chars(), i + normalize_crlf(text@).len())
            }),
            final(self).spec_line_ending() == old(self).spec_line_ending(),
    {
        let q = self.clamp_pos(p);
        let i = self.pos_to_char_idx_public(q);
        let cs = chars_of(text);
        let norm = normalize_newlines(&cs);
        let t = string_from_chars(&norm);
        proof {
            lemma_offset_in_range(old(self).chars(), q);
        }
        rope_insert(&mut self.text, i, t.as_str());
        let n = rope_len_chars(&self.text);
        assert(i + norm@.len() <= n);
        self.char_idx_to_pos_public(i + norm.len())
    }

    /// Inserts one character at `p` (clamped first); `\n` splits the line.
    /// Returns the position after it.
    pub fn insert_char(&mut self, p: Pos, ch: char) -> (r: Pos)
        ensures
            ({
                let s = old(self).chars();
                let q = rope_clamp(s, p);
                let i = offset_of(s, q);
                &&& final(self).chars() == s.take(i) + seq![ch] + s.skip(i)
                &&& ch == '\n' ==> r == Pos { y: (q.y + 1) as usize, x: 0 }
                &&& ch != '\n' ==> r == Pos { y: q.y, x: (q.x + 1) as usize }
            }),
            final(self).spec_line_ending() == old(self).spec_line_ending(),
    {
        let q = self.clamp_pos(p);
        let i = self.pos_to_char_idx_public(q);
        let lines = rope_len_lines(&self.text);
        proof {
            lemma_offset_in_range(old(self).chars(), q);
        }
        let mut one: Vec<char> = Vec::new();
        one.push(ch);
        let t = string_from_chars(&one);
        assert(one@ =~= seq![ch]);
        rope_insert(&mut self.text, i, t.as_str());
        let n = rope_len_chars(&self.text);
        proof {
            lemma_clamp_fits(old(self).chars(), q, p);
        }
        if ch == '\n' {
            Pos { y: q.y + 1, x: 0 }
        } else {
            Pos { y: q.y, x: q.x + 1 }
        }
    }

    /// Splits the line at `p` (clamped first); returns the start of the new line.
    pub fn insert_newline(&mut self, p: Pos) -> (r: Pos)
        ensures
            ({
                let s = old(self).chars();
                let q = rope_clamp(s, p);
                let i = offset_of(s, q);
                &&& final(self).chars() == s.take(i) + seq!['\n'] + s.skip(i)
                &&& r == Pos { y: (q.y + 1) as usize, x: 0 }
            }),
            final(self).spec_line_ending() == old(self).spec_line_ending(),
    {
        self.insert_char(p, '\n')
    }

    /// Backspace at `p` (clamped first): deletes the character before it; when
    /// that is a separator the cursor goes to the end of the previous line.
    /// Nothing happens at the start of the document.
    pub fn delete_backspace(&mut self, p: Pos) -> (r: Pos)
        ensures
            ({
                let s = old(self).chars();
                let q = rope_clamp(s, p);
                let i = offset_of(s, q);
                if i == 0 {
                    final(self).chars() == s && r == q
                } else {
                    &&& final(self).chars() == s.take(i - 1) + s.skip(i)
                    &&& s[i - 1] == '\n' ==> r == Pos {
                        y: sub1(q.y),
                        x: line_len_of(s, sub1(q.y) as int) as usize,
                    }
                    &&& s[i - 1] != '\n' ==> r == Pos { y: q.y, x: sub1(q.x) }
                }
            }),
            final(self).spec_line_ending() == old(self).spec_line_ending(),
    {
        let q = self.clamp_pos(p);
        let i = self.pos_to_char_idx_public(q);
        proof {
            lemma_offset_in_range(old(self).chars(), q);
        }
        if i == 0 {
            return q;
        }
        let prev = rope_char(&self.text, i - 1);
        if prev == '\n' {
            let y = if q.y > 0 { q.y - 1 } else { 0 };
            let x = self.line_len_chars(y);
            proof {
                lemma_line_len_bound(old(self).chars(), y as int);
            }
            rope_remove(&mut self.text, i - 1, i);
            Pos { y, x }
        } else {
            rope_remove(&mut self.text, i - 1, i);
            Pos { y: q.y, x: if q.x > 0 { q.x - 1 } else { 0 } }
        }
    }

    /// Delete key at `p` (clamped first): deletes the character at it, joining
    /// the next line at a line end. Nothing happens at the end of the document.
    pub fn delete_delete(&mut self, p: Pos) -> (r: Pos)
        ensures
            ({
                let s = old(self).chars();
                let q = rope_clamp(s, p);
                let i = offset_of(s, q);
                &&& r == q
                &&& i >= s.len() ==> final(self).chars() == s
                &&& i < s.len() ==> final(self).chars() == s.take(i) + s.skip(i + 1)
            }),
            final(self).spec_line_ending() == old(self).spec_line_ending(),
    {
        let q = self.clamp_pos(p);
        let i = self.pos_to_char_idx_public(q);
        let n = rope_len_chars(&self.text);
        if i < n {
            rope_remove(&mut self.text, i, i + 1);
        }
        q
    }

    /// The text between `start` and `end`, in either order, after clamping both.
    pub fn get_range(&self, start: Pos, end: Pos) -> (r: String)
        ensures
            ({
                let s = self.chars();
                let a = offset_of(s, rope_clamp(s, start));
                let b = offset_of(s, rope_clamp(s, end));
                &&& a <= b ==> r@ == s.subrange(a, b)
                &&& b < a ==> r@ == s.subrange(b, a)
            }),
    {
        let a = self.clamp_pos(start);
        let b = self.clamp_pos(end);
        let ia = self.pos_to_char_idx_public(a);
        let ib = self.pos_to_char_idx_public(b);
        proof {
            lemma_offset_in_range(self.chars(), a);
            lemma_offset_in_range(self.chars(), b);
        }
        if ia <= ib {
            rope_slice(&self.text, ia, ib)
        } else {
            rope_slice(&self.text, ib, ia)
        }
    }

    /// Deletes the text between `start` and `end`, in either order, after
    /// clamping both; returns the earlier position.
    pub fn delete_range(&mut self, start: Pos, end: Pos) -> (r: Pos)
        ensures
            ({
                let s = old(self).chars();
                let a = rope_clamp(s, start);
                let b = rope_clamp(s, end);
                let (lo, hi) = if pos_le(a, b) { (a, b) } else { (b, a) };
                &&& r == lo
                &&& final(self).chars() == s.take(offset_of(s, lo)) + s.skip(offset_of(s, hi))
            }),
            final(self).spec_line_ending() == old(self).spec_line_ending(),
    {
        let a0 = self.clamp_pos(start);
        let b0 = self.clamp_pos(end);
        let (a, b) = Pos::ordered(a0, b0);
        let ia = self.pos_to_char_idx_public(a);
        let ib = self.pos_to_char_idx_public(b);
        let total = rope_len_chars(&self.text);
        let lines = rope_len_lines(&self.text);
        proof {
            lemma_offset_in_range(old(self).chars(), a);
            lemma_offset_in_range(old(self).chars(), b);
            lemma_clamp_valid(old(self).chars(), start);
            lemma_clamp_valid(old(self).chars(), end);
            lemma_offset_mono(old(self).chars(), a, b);
        }
        rope_remove(&mut self.text, ia, ib);
        a
    }

    /// Where `text` would end if it were inserted at `p`, without inserting it.
    pub fn calc_end_pos(&self, p: Pos, text: &str) -> (r: Pos)
        ensures
            r == end_of_insert(p, insert_parts(text@)),
    {
        predict_end(p, text)
    }

    /// The first offset at or after `start` where `query` occurs; an empty query
    /// matches nothing.
    pub fn search_from(&self, query: &str, start: usize) -> (r: Option<usize>)
        ensures
            match r {
                Some(i) => query@.len() > 0 && i >= start && matches_at(self.chars(), query@, i as int)
                    && forall|j: int| start <= j < i ==> !matches_at(self.chars(), query@, j),
                None => query@.len() == 0 || forall|j: int| start <= j ==> !matches_at(self.chars(), query@, j),
            },
    {
        let q = chars_of(query);
        if q.len() == 0 {
            return None;
        }
        let n = rope_len_chars(&self.text);
        let all = rope_slice(&self.text, 0, n);
        let cs = chars_of(all.as_str());
        assert(cs@ =~= self.chars());
        find_in_line(&cs, &q, start)
    }
}

/// `n - 1`, or zero.
pub open spec fn sub1(n: usize) -> usize {
    if n > 0 { (n - 1) as usize } else { 0 }
}

/// The first `k` characters of `s` with each `\n` written as `\r\n`.
pub open spec fn crlf_of(s: Seq<char>, k: int) -> Seq<char>
    decreases k,
{
    if k <= 0 {
        Seq::<char>::empty()
    } else if s[k - 1] == '\n' {
        crlf_of(s, k - 1) + seq!['\r', '\n']
    } else {
        crlf_of(s, k - 1).push(s[k - 1])
    }
}

proof fn lemma_line_len_bound(s: Seq<char>, y: int)
    requires
        0 <= y,
    ensures
        0 <= line_len_of(s, y),
        0 <= line_start_of(s, y),
        line_start_of(s, y) + line_len_of(s, y) <= s.len(),
{
    lemma_line_start_bounds(s, y);
    lemma_line_start_bounds(s, y + 1);
}

/// A clamped position is valid when the text's sizes fit in `usize`.
proof fn lemma_clamp_valid(s: Seq<char>, p: Pos)
    requires
        s.len() <= usize::MAX,
        line_total(s) <= usize::MAX,
    ensures
        rope_clamp(s, p).y < line_total(s),
        rope_clamp(s, p).x <= line_len_of(s, rope_clamp(s, p).y as int),
        rope_clamp(s, p).y == (if p.y < line_total(s) { p.y as int } else { line_total(s) - 1 }),
{
    let y: int = if p.y < line_total(s) { p.y as int } else { line_total(s) - 1 };
    lemma_line_len_bound(s, y);
}

proof fn lemma_offset_in_range(s: Seq<char>, p: Pos)
    ensures
        0 <= offset_of(s, p) <= s.len(),
{
    if p.y < line_total(s) {
        lemma_line_len_bound(s, p.y as int);
    }
}

proof fn lemma_offset_mono(s: Seq<char>, a: Pos, b: Pos)
    requires
        pos_le(a, b),
        a.y < line_total(s),
        b.y < line_total(s),
        a.x <= line_len_of(s, a.y as int),
        b.x <= line_len_of(s, b.y as int),
    ensures
        offset_of(s, a) <= offset_of(s, b),
{
    lemma_line_len_bound(s, a.y as int);
    if a.y < b.y {
        lemma_line_start_mono(s, a.y + 1, b.y as int);
    }
}

proof fn lemma_line_start_mono(s: Seq<char>, i: int, j: int)
    requires
        0 <= i <= j,
    ensures
        line_start_of(s, i) <= line_start_of(s, j),
    decreases j - i,
{
    if i < j {
        lemma_line_start_mono(s, i, j - 1);
        lemma_line_start_bounds(s, j);
    }
}

proof fn lemma_clamp_fits(s: Seq<char>, q: Pos, p: Pos)
    requires
        q == rope_clamp(s, p),
        line_total(s) <= usize::MAX,
        s.len() < usize::MAX,
    ensures
        q.y + 1 <= usize::MAX,
        q.x + 1 <= usize::MAX,
{
    lemma_clamp_valid(s, p);
    lemma_line_len_bound(s, q.y as int);
}

} // verus!
