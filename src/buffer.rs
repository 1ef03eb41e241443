//! The document store: an ordered list of lines, each a sequence of Unicode scalar
//! values, plus the line-ending style detected when the text was loaded.

use vstd::prelude::*;
use crate::pos::{LineEnding, Pos, pos_le};
use crate::text::{
    append_chars, contains_crlf, copy_range, has_crlf, lemma_normalize_concat, lemma_normalize_line,
    lemma_split_on_concat, string_from_chars, lemma_normalize_len, lemma_split_lines_wf, lemma_split_one,
    lemma_split_sizes, no_newline, normalize_crlf, normalize_newlines, split_lines,
    split_on_newlines,
};
use crate::utils::chars_of;

verus! {

/// The lines of `v` as character sequences.
pub open spec fn lines_view(v: Seq<Vec<char>>) -> Seq<Seq<char>> {
    Seq::new(v.len(), |i: int| v[i]@)
}

/// A document has at least one line and no line holds a separator.
pub open spec fn lines_wf(ls: Seq<Seq<char>>) -> bool {
    &&& ls.len() >= 1
    &&& forall|i: int| 0 <= i < ls.len() ==> no_newline(#[trigger] ls[i])
}

/// `p` addresses a line of `ls` and a column within or at the end of it.
pub open spec fn valid_pos(ls: Seq<Seq<char>>, p: Pos) -> bool {
    p.y < ls.len() && p.x <= ls[p.y as int].len()
}

/// The nearest valid position: the line is capped at the last one, the column at
/// the line's length.
pub open spec fn clamp(ls: Seq<Seq<char>>, p: Pos) -> Pos {
    let y: int = if p.y < ls.len() { p.y as int } else { ls.len() - 1 };
    let x: int = if p.x <= ls[y].len() { p.x as int } else { ls[y].len() as int };
    Pos { y: y as usize, x: x as usize }
}

/// `ls` with `parts` spliced in at `p`: the first piece joins the text before `p`,
/// the last piece joins the text after it, and the pieces between become lines.
pub open spec fn splice(ls: Seq<Seq<char>>, p: Pos, parts: Seq<Seq<char>>) -> Seq<Seq<char>> {
    let line = ls[p.y as int];
    let pre = line.take(p.x as int);
    let suf = line.skip(p.x as int);
    let k = parts.len() - 1;
    let mid = if parts.len() == 1 {
        seq![pre + parts[0] + suf]
    } else {
        seq![pre + parts[0]] + parts.subrange(1, k) + seq![parts[k] + suf]
    };
    ls.take(p.y as int) + mid + ls.skip(p.y + 1)
}

/// `n`, capped at `usize::MAX`.
pub open spec fn sat(n: int) -> usize {
    if n > usize::MAX { usize::MAX } else { n as usize }
}

/// Where the inserted text ends after `parts` are spliced in at `p` (each
/// coordinate capped at `usize::MAX`).
pub open spec fn end_of_insert(p: Pos, parts: Seq<Seq<char>>) -> Pos {
    if parts.len() == 1 {
        Pos { y: p.y, x: sat(p.x + parts[0].len()) }
    } else {
        Pos { y: sat(p.y + parts.len() - 1), x: sat(parts[parts.len() - 1].len() as int) }
    }
}

/// `ls` without the text between `a` and `b` (`a <= b`, both valid): the rest of
/// line `b.y` joins line `a.y` cut at `a.x`.
pub open spec fn remove_between(ls: Seq<Seq<char>>, a: Pos, b: Pos) -> Seq<Seq<char>> {
    ls.take(a.y as int) + seq![ls[a.y as int].take(a.x as int) + ls[b.y as int].skip(b.x as int)]
        + ls.skip(b.y + 1)
}

/// The earlier of the two clamped positions.
pub open spec fn ordered_start(ls: Seq<Seq<char>>, a: Pos, b: Pos) -> Pos {
    if pos_le(clamp(ls, a), clamp(ls, b)) { clamp(ls, a) } else { clamp(ls, b) }
}

/// The later of the two clamped positions.
pub open spec fn ordered_end(ls: Seq<Seq<char>>, a: Pos, b: Pos) -> Pos {
    if pos_le(clamp(ls, a), clamp(ls, b)) { clamp(ls, b) } else { clamp(ls, a) }
}

/// The pieces that inserting `t` splices in.
pub open spec fn insert_parts(t: Seq<char>) -> Seq<Seq<char>> {
    split_lines(normalize_crlf(t))
}

/// The end position predicted for an insertion at a valid position is the one the
/// insertion reports.
pub proof fn lemma_calc_end_matches_insert(ls: Seq<Seq<char>>, p: Pos, t: Seq<char>)
    requires
        lines_wf(ls),
        valid_pos(ls, p),
    ensures
        end_of_insert(clamp(ls, p), insert_parts(t)) == end_of_insert(p, insert_parts(t)),
{
    assert(clamp(ls, p) == p);
}

/// Inserting text at a valid position and then deleting from that position to the
/// predicted end restores the document exactly.
pub proof fn lemma_insert_then_delete_restores(ls: Seq<Seq<char>>, p: Pos, t: Seq<char>)
    requires
        lines_wf(ls),
        valid_pos(ls, p),
        ls.len() + t.len() <= usize::MAX,
        ls[p.y as int].len() + t.len() <= usize::MAX,
    ensures
        ({
            let parts = insert_parts(t);
            let after = splice(ls, p, parts);
            let e = end_of_insert(p, parts);
            &&& ordered_start(after, p, e) == p
            &&& ordered_end(after, p, e) == e
            &&& remove_between(after, p, e) == ls
        }),
{
    let parts = insert_parts(t);
    lemma_normalize_len(t);
    lemma_split_sizes(normalize_crlf(t));
    lemma_split_lines_wf(normalize_crlf(t));
    let after = splice(ls, p, parts);
    let e = end_of_insert(p, parts);
    let y = p.y as int;
    let x = p.x as int;
    let line = ls[y];
    let pre = line.take(x);
    let suf = line.skip(x);
    let k = parts.len() - 1;
    if k == 0 {
        let nl = pre + parts[0] + suf;
        assert(after[y] == nl);
        assert(after.len() == ls.len());
        assert(clamp(after, p) == p);
        assert(clamp(after, e) == e);
        assert(nl.take(x) =~= pre);
        assert(nl.skip(x + parts[0].len()) =~= suf);
        assert(pre + suf =~= line);
        assert(after.take(y) =~= ls.take(y));
        assert(after.skip(y + 1) =~= ls.skip(y + 1));
        assert(ls.take(y) + seq![line] + ls.skip(y + 1) =~= ls);
    } else {
        let first = pre + parts[0];
        let last = parts[k] + suf;
        assert(after.len() == ls.len() + k);
        assert(after[y] == first);
        assert(after[y + k] == last);
        assert(clamp(after, p) == p);
        assert(clamp(after, e) == e);
        assert(first.take(x) =~= pre);
        assert(last.skip(parts[k].len() as int) =~= suf);
        assert(pre + suf =~= line);
        assert(after.take(y) =~= ls.take(y));
        assert(after.skip(y + k + 1) =~= ls.skip(y + 1));
        assert(ls.take(y) + seq![line] + ls.skip(y + 1) =~= ls);
    }
}

/// The text of lines `lo..hi`, each followed by `\n`.
pub open spec fn join_between(ls: Seq<Seq<char>>, lo: int, hi: int) -> Seq<char>
    decreases hi - lo,
{
    if hi <= lo {
        Seq::<char>::empty()
    } else {
        join_between(ls, lo, hi - 1) + ls[hi - 1] + seq!['\n']
    }
}

/// The text between the valid positions `a <= b`, lines joined by `\n`.
pub open spec fn range_text(ls: Seq<Seq<char>>, a: Pos, b: Pos) -> Seq<char> {
    if a.y == b.y {
        ls[a.y as int].subrange(a.x as int, b.x as int)
    } else {
        ls[a.y as int].skip(a.x as int) + seq!['\n'] + join_between(ls, a.y + 1, b.y as int)
            + ls[b.y as int].take(b.x as int)
    }
}

/// Splitting the text of a range gives back its pieces: the tail of the first
/// line, the whole lines between, and the head of the last line.
proof fn lemma_split_range(ls: Seq<Seq<char>>, first: Seq<char>, lo: int, hi: int, last: Seq<char>)
    requires
        0 <= lo <= hi <= ls.len(),
        no_newline(first),
        no_newline(last),
        forall|k: int| lo <= k < hi ==> no_newline(#[trigger] ls[k]),
    ensures
        split_lines(first + seq!['\n'] + join_between(ls, lo, hi) + last)
            == seq![first] + ls.subrange(lo, hi) + seq![last],
    decreases hi - lo,
{
    lemma_split_lines_wf(first);
    lemma_split_lines_wf(last);
    if hi == lo {
        assert(first + seq!['\n'] + join_between(ls, lo, hi) + last =~= first + seq!['\n'] + last);
        lemma_split_on_concat(first, last, '\n');
        assert(seq![first] + seq![last] =~= seq![first] + ls.subrange(lo, hi) + seq![last]);
    } else {
        let x = first + seq!['\n'] + join_between(ls, lo, hi - 1) + ls[hi - 1];
        lemma_split_range(ls, first, lo, hi - 1, ls[hi - 1]);
        assert(first + seq!['\n'] + join_between(ls, lo, hi) + last =~= x + seq!['\n'] + last);
        lemma_split_on_concat(x, last, '\n');
        assert(seq![first] + ls.subrange(lo, hi - 1) + seq![ls[hi - 1]] + seq![last]
            =~= seq![first] + ls.subrange(lo, hi) + seq![last]);
    }
}

/// `l` does not end with a carriage return.
pub open spec fn no_trailing_cr(l: Seq<char>) -> bool {
    l.len() == 0 || l.last() != '\r'
}

/// The text of a range is unchanged by CRLF normalisation when no line inside it
/// ends with a carriage return.
proof fn lemma_normalize_range_head(ls: Seq<Seq<char>>, first: Seq<char>, lo: int, hi: int)
    requires
        0 <= lo <= hi <= ls.len(),
        no_newline(first),
        no_trailing_cr(first),
        forall|k: int| lo <= k < hi ==> no_newline(#[trigger] ls[k]) && no_trailing_cr(ls[k]),
    ensures
        normalize_crlf(first + seq!['\n'] + join_between(ls, lo, hi)) == first + seq!['\n'] + join_between(ls, lo, hi),
    decreases hi - lo,
{
    let nl = seq!['\n'];
    assert(nl.drop_last() =~= Seq::<char>::empty());
    assert(normalize_crlf(Seq::<char>::empty()) == Seq::<char>::empty());
    assert(nl.last() == '\n');
    assert(Seq::<char>::empty().push('\n') =~= nl);
    assert(normalize_crlf(nl) =~= nl);
    if hi == lo {
        assert(first + nl + join_between(ls, lo, hi) =~= first + nl);
        lemma_normalize_line(first);
        lemma_normalize_concat(first, nl);
    } else {
        let t = first + nl + join_between(ls, lo, hi - 1);
        lemma_normalize_range_head(ls, first, lo, hi - 1);
        let line = ls[hi - 1];
        assert(t.last() == '\n');
        lemma_normalize_line(line);
        lemma_normalize_concat(t, line);
        let u = t + line;
        assert(u.last() != '\r') by {
            if line.len() > 0 {
                assert(u.last() == line.last());
            }
        }
        lemma_normalize_concat(u, nl);
        assert(first + nl + join_between(ls, lo, hi) =~= u + nl);
    }
}

/// No line break inside the range between `a` and `b` follows a carriage return
/// (such a pair would read as `\r\n`).
pub open spec fn range_crlf_free(ls: Seq<Seq<char>>, a: Pos, b: Pos) -> bool {
    a.y < b.y ==> {
        &&& no_trailing_cr(ls[a.y as int].skip(a.x as int))
        &&& forall|k: int| a.y < k < b.y ==> no_trailing_cr(#[trigger] ls[k])
    }
}

/// Deleting a range and inserting its text again at the range's start restores
/// the document, when no line break inside the range follows a carriage return.
pub proof fn lemma_delete_then_reinsert_restores(ls: Seq<Seq<char>>, a: Pos, b: Pos)
    requires
        lines_wf(ls),
        valid_pos(ls, a),
        valid_pos(ls, b),
        pos_le(a, b),
        range_crlf_free(ls, a, b),
    ensures
        clamp(remove_between(ls, a, b), a) == a,
        splice(remove_between(ls, a, b), a, insert_parts(range_text(ls, a, b))) == ls,
{
    let d = remove_between(ls, a, b);
    let t = range_text(ls, a, b);
    let y = a.y as int;
    let la = ls[y];
    let lb = ls[b.y as int];
    assert(d[y] == la.take(a.x as int) + lb.skip(b.x as int));
    assert(clamp(d, a) == a);
    if a.y == b.y {
        let mid = la.subrange(a.x as int, b.x as int);
        assert(no_newline(mid)) by {
            assert forall|j: int| 0 <= j < mid.len() implies mid[j] != '\n' by {
                assert(mid[j] == la[a.x + j]);
            }
        }
        lemma_normalize_line(mid);
        lemma_split_lines_wf(mid);
        assert(insert_parts(t) == seq![mid]);
        assert(d[y].take(a.x as int) + mid + d[y].skip(a.x as int) =~= la);
        assert(splice(d, a, seq![mid]) =~= ls);
    } else {
        let first = la.skip(a.x as int);
        let last = lb.take(b.x as int);
        assert(no_newline(first)) by {
            assert forall|j: int| 0 <= j < first.len() implies first[j] != '\n' by {
                assert(first[j] == la[a.x + j]);
            }
        }
        assert(no_newline(last)) by {
            assert forall|j: int| 0 <= j < last.len() implies last[j] != '\n' by {
                assert(last[j] == lb[j]);
            }
        }
        lemma_normalize_range_head(ls, first, y + 1, b.y as int);
        let head = first + seq!['\n'] + join_between(ls, y + 1, b.y as int);
        assert(head.last() == '\n');
        lemma_normalize_line(last);
        lemma_normalize_concat(head, last);
        assert(normalize_crlf(t) == t);
        lemma_split_range(ls, first, y + 1, b.y as int, last);
        let parts = seq![first] + ls.subrange(y + 1, b.y as int) + seq![last];
        assert(insert_parts(t) == parts);
        let k = parts.len() - 1;
        assert(k == b.y - a.y);
        let pre = d[y].take(a.x as int);
        let suf = d[y].skip(a.x as int);
        assert(pre =~= la.take(a.x as int));
        assert(suf =~= lb.skip(b.x as int));
        assert(pre + parts[0] =~= la);
        assert(parts[k] + suf =~= lb);
        let mid = seq![pre + parts[0]] + parts.subrange(1, k) + seq![parts[k] + suf];
        assert(mid =~= ls.subrange(y, b.y + 1));
        assert(d.take(y) + mid + d.skip(y + 1) =~= ls);
    }
}

/// The lines joined by `sep`.
pub open spec fn join_with(ls: Seq<Seq<char>>, sep: Seq<char>) -> Seq<char>
    decreases ls.len(),
{
    if ls.len() == 0 {
        Seq::<char>::empty()
    } else if ls.len() == 1 {
        ls[0]
    } else {
        join_with(ls.drop_last(), sep) + sep + ls.last()
    }
}

/// The flat character offset at which line `y` starts (each line counts one
/// more for its separator).
pub open spec fn line_start(ls: Seq<Seq<char>>, y: int) -> nat
    decreases y,
{
    if y <= 0 {
        0
    } else {
        line_start(ls, y - 1) + ls[y - 1].len() + 1
    }
}

/// The number of characters of the whole text, separators included.
pub open spec fn doc_len(ls: Seq<Seq<char>>) -> nat {
    if ls.len() == 0 { 0 } else { (line_start(ls, ls.len() as int) - 1) as nat }
}

/// The flat offset of `p`: the column is capped at the line's length, and a line
/// past the end gives the end of the document.
pub open spec fn pos_offset(ls: Seq<Seq<char>>, p: Pos) -> nat {
    if p.y >= ls.len() {
        doc_len(ls)
    } else {
        let len = ls[p.y as int].len();
        line_start(ls, p.y as int) + if p.x <= len { p.x as nat } else { len }
    }
}

pub proof fn lemma_line_start_mono(ls: Seq<Seq<char>>, i: int, j: int)
    requires
        0 <= i <= j <= ls.len(),
    ensures
        line_start(ls, i) <= line_start(ls, j),
        i < j ==> line_start(ls, i) + ls[i].len() + 1 <= line_start(ls, j),
    decreases j - i,
{
    if i < j {
        lemma_line_start_mono(ls, i, j - 1);
    }
}

/// A match of `q` starts at column `i` of `l`.
pub open spec fn matches_at(l: Seq<char>, q: Seq<char>, i: int) -> bool {
    0 <= i && i + q.len() <= l.len() && l.subrange(i, i + q.len()) == q
}

/// `p` marks a match of `q` in `ls`.
pub open spec fn is_hit(ls: Seq<Seq<char>>, q: Seq<char>, p: Pos) -> bool {
    p.y < ls.len() && matches_at(ls[p.y as int], q, p.x as int)
}

/// `p` lies in the part a forward search from `from` scans first: from `from` to
/// the end of the document.
pub open spec fn in_forward_part(ls: Seq<Seq<char>>, from: Pos, p: Pos) -> bool {
    p.y < ls.len() && pos_le(from, p)
}

/// `p` lies in the part scanned after wrapping: the lines up to and including
/// `from`'s line.
pub open spec fn in_wrapped_part(ls: Seq<Seq<char>>, from: Pos, p: Pos) -> bool {
    p.y < ls.len() && p.y <= from.y
}

/// `p` is the first match at or after `from`.
pub open spec fn first_forward_hit(ls: Seq<Seq<char>>, q: Seq<char>, from: Pos, p: Pos) -> bool {
    &&& in_forward_part(ls, from, p)
    &&& is_hit(ls, q, p)
    &&& forall|h: Pos| #[trigger] is_hit(ls, q, h) && in_forward_part(ls, from, h) ==> pos_le(p, h)
}

/// `p` is the first match on the lines from the top through `from`'s line.
pub open spec fn first_wrapped_hit(ls: Seq<Seq<char>>, q: Seq<char>, from: Pos, p: Pos) -> bool {
    &&& in_wrapped_part(ls, from, p)
    &&& is_hit(ls, q, p)
    &&& forall|h: Pos| #[trigger] is_hit(ls, q, h) && in_wrapped_part(ls, from, h) ==> pos_le(p, h)
}

pub open spec fn has_forward_hit(ls: Seq<Seq<char>>, q: Seq<char>, from: Pos) -> bool {
    exists|h: Pos| #[trigger] is_hit(ls, q, h) && in_forward_part(ls, from, h)
}

pub open spec fn has_wrapped_hit(ls: Seq<Seq<char>>, q: Seq<char>, from: Pos) -> bool {
    exists|h: Pos| #[trigger] is_hit(ls, q, h) && in_wrapped_part(ls, from, h)
}

/// What a forward search for `q` from `from` finds.
pub open spec fn search_result(ls: Seq<Seq<char>>, q: Seq<char>, from: Pos, wrap: bool, r: Option<Pos>) -> bool {
    match r {
        Some(p) => {
            &&& q.len() > 0
            &&& (first_forward_hit(ls, q, from, p) || (wrap && !has_forward_hit(ls, q, from)
                && first_wrapped_hit(ls, q, from, p)))
        },
        None => q.len() == 0 || (!has_forward_hit(ls, q, from) && (!wrap || !has_wrapped_hit(ls, q, from))),
    }
}

/// With wrapping, a search for a text that occurs exactly once finds that
/// occurrence from every starting position.
pub proof fn lemma_unique_match_found(
    ls: Seq<Seq<char>>,
    q: Seq<char>,
    from: Pos,
    h: Pos,
    r: Option<Pos>,
)
    requires
        q.len() > 0,
        is_hit(ls, q, h),
        forall|g: Pos| #[trigger] is_hit(ls, q, g) ==> g == h,
        search_result(ls, q, from, true, r),
    ensures
        r == Some(h),
{
    match r {
        Some(p) => {
            assert(is_hit(ls, q, p));
        },
        None => {
            if pos_le(from, h) {
                assert(has_forward_hit(ls, q, from));
            } else {
                assert(has_wrapped_hit(ls, q, from));
            }
        },
    }
}

/// `h` comes before column `x` of line `y`.
pub open spec fn pos_lt_at(h: Pos, y: usize, x: usize) -> bool {
    h.y < y || (h.y == y && h.x < x)
}

/// The first column at or after `start` where `q` matches in `line`.
pub fn find_in_line(line: &Vec<char>, q: &Vec<char>, start: usize) -> (r: Option<usize>)
    ensures
        match r {
            Some(i) => i >= start && matches_at(line@, q@, i as int) && forall|j: int|
                start <= j < i ==> !matches_at(line@, q@, j),
            None => forall|j: int| start <= j ==> !matches_at(line@, q@, j),
        },
{
    let n = line.len();
    let m = q.len();
    if m > n || start > n - m {
        return None;
    }
    let mut i = start;
    while i <= n - m
        invariant
            m <= n,
            n == line@.len(),
            m == q@.len(),
            start <= i,
            forall|j: int| start <= j < i ==> !matches_at(line@, q@, j),
        decreases n - m + 1 - i,
    {
        let mut k: usize = 0;
        while k < m && line[i + k] == q[k]
            invariant
                i <= n - m,
                k <= m,
                m <= n,
                n == line@.len(),
                m == q@.len(),
                forall|t: int| 0 <= t < k ==> line@[i + t] == q@[t],
            decreases m - k,
        {
            k = k + 1;
        }
        if k == m {
            assert(line@.subrange(i as int, i + m) =~= q@);
            return Some(i);
        }
        assert(line@.subrange(i as int, i + m)[k as int] != q@[k as int]);
        if i == n - m {
            return None;
        }
        i = i + 1;
    }
    None
}

/// Where `text` would end if it were inserted at `p`.
pub fn predict_end(p: Pos, text: &str) -> (r: Pos)
    ensures
        r == end_of_insert(p, insert_parts(text@)),
{
    let cs = chars_of(text);
    let norm = normalize_newlines(&cs);
    let parts = split_on_newlines(&norm);
    proof {
        lemma_normalize_len(cs@);
        lemma_split_sizes(norm@);
        lemma_split_lines_wf(norm@);
        assert(lines_view(parts@) =~= insert_parts(text@));
    }
    let k = parts.len() - 1;
    if k == 0 {
        Pos { y: p.y, x: p.x.saturating_add(parts[0].len()) }
    } else {
        Pos { y: p.y.saturating_add(k), x: parts[k].len() }
    }
}

/// The document store.
pub struct Buffer {
    lines: Vec<Vec<char>>,
    line_ending: LineEnding,
}

impl View for Buffer {
    type V = Seq<Seq<char>>;

    closed spec fn view(&self) -> Seq<Seq<char>> {
        lines_view(self.lines@)
    }
}

impl Buffer {
    pub open spec fn wf(&self) -> bool {
        lines_wf(self@)
    }

    pub closed spec fn spec_line_ending(&self) -> LineEnding {
        self.line_ending
    }

    /// An empty document: one empty line, `LF` endings.
    pub fn new() -> (r: Buffer)
        ensures
            r.wf(),
            r@ == seq![Seq::<char>::empty()],
            r.spec_line_ending() == LineEnding::LF,
    {
        let mut lines: Vec<Vec<char>> = Vec::new();
        lines.push(Vec::new());
        let r = Buffer { lines, line_ending: LineEnding::LF };
        assert(r@ =~= seq![Seq::<char>::empty()]);
        r
    }

    /// Number of lines; at least one.
    pub fn line_count(&self) -> (r: usize)
        requires
            self.wf(),
        ensures
            r == self@.len(),
            r >= 1,
    {
        self.lines.len()
    }

    /// Length of line `y` in scalar values; zero for a line that does not exist.
    pub fn line_len_chars(&self, y: usize) -> (r: usize)
        ensures
            y < self@.len() ==> r == self@[y as int].len(),
            y >= self@.len() ==> r == 0,
    {
        if y < self.lines.len() {
            self.lines[y].len()
        } else {
            0
        }
    }

    /// The characters of line `y`; empty for a line that does not exist.
    pub fn line_chars(&self, y: usize) -> (r: Vec<char>)
        ensures
            y < self@.len() ==> r@ == self@[y as int],
            y >= self@.len() ==> r@.len() == 0,
    {
        if y < self.lines.len() {
            copy_range(&self.lines[y], 0, self.lines[y].len())
        } else {
            Vec::new()
        }
    }

    /// The line ending style used when the document is written out.
    pub fn line_ending(&self) -> (r: LineEnding)
        ensures
            r == self.spec_line_ending(),
    {
        self.line_ending
    }

    /// Sets the line ending style used when the document is written out.
    pub fn set_line_ending(&mut self, e: LineEnding)
        ensures
            final(self)@ == old(self)@,
            final(self).spec_line_ending() == e,
    {
        self.line_ending = e;
    }

    /// A document from text as read from disk. The line ending style is `CRLF` when
    /// the text holds `\r\n`, else `LF`; inside, every `\r\n` becomes `\n`.
    pub fn from_string(s: &str) -> (r: Buffer)
        ensures
            r.wf(),
            r@ == split_lines(normalize_crlf(s@)),
            r.spec_line_ending() == (if has_crlf(s@) { LineEnding::CRLF } else { LineEnding::LF }),
    {
        let cs = chars_of(s);
        let line_ending = if contains_crlf(&cs) { LineEnding::CRLF } else { LineEnding::LF };
        let norm = normalize_newlines(&cs);
        let lines = split_on_newlines(&norm);
        proof {
            lemma_split_lines_wf(norm@);
        }
        let r = Buffer { lines, line_ending };
        assert(r@ =~= split_lines(normalize_crlf(s@)));
        r
    }

    /// Replaces the whole text; `\r\n` becomes `\n`. The line ending style is kept.
    pub fn set_text(&mut self, s: &str)
        ensures
            final(self).wf(),
            final(self)@ == split_lines(normalize_crlf(s@)),
            final(self).spec_line_ending() == old(self).spec_line_ending(),
    {
        let cs = chars_of(s);
        let norm = normalize_newlines(&cs);
        self.lines = split_on_newlines(&norm);
        proof {
            lemma_split_lines_wf(norm@);
        }
        assert(self@ =~= split_lines(normalize_crlf(s@)));
    }

    fn joined(&self, sep: &Vec<char>) -> (r: Vec<char>)
        requires
            self.wf(),
        ensures
            r@ == join_with(self@, sep@),
    {
        let mut out = copy_range(&self.lines[0], 0, self.lines[0].len());
        let mut i: usize = 1;
        assert(self@.take(1).drop_last() =~= Seq::<Seq<char>>::empty());
        while i < self.lines.len()
            invariant
                self.wf(),
                1 <= i <= self@.len(),
                out@ == join_with(self@.take(i as int), sep@),
            decreases self.lines.len() - i,
        {
            append_chars(&mut out, sep);
            let line = copy_range(&self.lines[i], 0, self.lines[i].len());
            append_chars(&mut out, &line);
            i = i + 1;
            assert(self@.take(i as int).drop_last() =~= self@.take(i - 1));
        }
        assert(self@.take(self@.len() as int) =~= self@);
        out
    }

    /// The text for saving: lines joined by the document's line ending.
    pub fn to_string(&self) -> (r: String)
        requires
            self.wf(),
        ensures
            r@ == join_with(self@, self.spec_line_ending().spec_chars()),
    {
        let sep = chars_of(self.line_ending.as_str());
        let v = self.joined(&sep);
        string_from_chars(&v)
    }

    /// The whole text with lines joined by `\n`.
    pub fn text(&self) -> (r: String)
        requires
            self.wf(),
        ensures
            r@ == join_with(self@, seq!['\n']),
    {
        let mut sep: Vec<char> = Vec::new();
        sep.push('\n');
        assert(sep@ =~= seq!['\n']);
        let v = self.joined(&sep);
        string_from_chars(&v)
    }

    /// The first offset at or after `start` where `query` occurs in the whole
    /// text (lines joined by `\n`, so a match may span lines). An empty query
    /// matches nothing.
    pub fn search_from(&self, query: &str, start: usize) -> (r: Option<usize>)
        requires
            self.wf(),
        ensures
            ({
                let flat = join_with(self@, seq!['\n']);
                match r {
                    Some(i) => query@.len() > 0 && i >= start && matches_at(flat, query@, i as int)
                        && forall|j: int| start <= j < i ==> !matches_at(flat, query@, j),
                    None => query@.len() == 0 || forall|j: int| start <= j ==> !matches_at(flat, query@, j),
                }
            }),
    {
        let q = chars_of(query);
        if q.len() == 0 {
            return None;
        }
        let mut sep: Vec<char> = Vec::new();
        sep.push('\n');
        assert(sep@ =~= seq!['\n']);
        let flat = self.joined(&sep);
        find_in_line(&flat, &q, start)
    }

    /// The text of line `y`; empty for a line that does not exist.
    pub fn line(&self, y: usize) -> (r: String)
        ensures
            y < self@.len() ==> r@ == self@[y as int],
            y >= self@.len() ==> r@.len() == 0,
    {
        let v = self.line_chars(y);
        string_from_chars(&v)
    }

    /// The text between `start` and `end`, in either order, after clamping both;
    /// lines are joined by `\n`.
    pub fn get_range(&self, start: Pos, end: Pos) -> (r: String)
        requires
            self.wf(),
        ensures
            r@ == range_text(self@, ordered_start(self@, start, end), ordered_end(self@, start, end)),
    {
        let a0 = self.clamp_pos(start);
        let b0 = self.clamp_pos(end);
        let (a, b) = Pos::ordered(a0, b0);
        let v = self.range_chars(a, b);
        string_from_chars(&v)
    }

    fn range_chars(&self, a: Pos, b: Pos) -> (r: Vec<char>)
        requires
            self.wf(),
            valid_pos(self@, a),
            valid_pos(self@, b),
            pos_le(a, b),
        ensures
            r@ == range_text(self@, a, b),
    {
        let ghost ls = self@;
        if a.y == b.y {
            return copy_range(&self.lines[a.y], a.x, b.x);
        }
        let mut out = copy_range(&self.lines[a.y], a.x, self.lines[a.y].len());
        out.push('\n');
        let ghost head = out@;
        let mut i = a.y + 1;
        assert(join_between(ls, a.y + 1, a.y + 1) =~= Seq::<char>::empty());
        assert(out@ =~= head + join_between(ls, a.y + 1, i as int));
        while i < b.y
            invariant
                self.wf(),
                ls == self@,
                a.y < i <= b.y,
                b.y < ls.len(),
                out@ == head + join_between(ls, a.y + 1, i as int),
            decreases b.y - i,
        {
            let line = copy_range(&self.lines[i], 0, self.lines[i].len());
            append_chars(&mut out, &line);
            out.push('\n');
            i = i + 1;
            assert(out@ =~= head + join_between(ls, a.y + 1, i as int));
        }
        let last = copy_range(&self.lines[b.y], 0, b.x);
        append_chars(&mut out, &last);
        assert(ls[b.y as int].take(b.x as int) =~= last@);
        assert(out@ =~= range_text(ls, a, b));
        out
    }

    /// The number of characters of the whole text, separators included, or `None`
    /// when it does not fit in `usize`.
    pub fn char_count(&self) -> (r: Option<usize>)
        requires
            self.wf(),
        ensures
            doc_len(self@) <= usize::MAX ==> r == Some(doc_len(self@) as usize),
            doc_len(self@) > usize::MAX ==> r is None,
    {
        let n = self.lines.len();
        let mut acc: usize = 0;
        let mut y: usize = 0;
        while y + 1 < n
            invariant
                self.wf(),
                n == self@.len(),
                y < n,
                acc == line_start(self@, y as int),
            decreases n - y,
        {
            let len = self.lines[y].len();
            if len >= usize::MAX - acc {
                proof {
                    lemma_line_start_mono(self@, y + 1, n as int);
                }
                return None;
            }
            acc = acc + len + 1;
            y = y + 1;
        }
        let len = self.lines[y].len();
        assert(line_start(self@, n as int) == acc + len + 1);
        if len > usize::MAX - acc {
            return None;
        }
        Some(acc + len)
    }

    /// The flat character offset of `p`. The column is capped at the line's length;
    /// a line past the end gives the end of the document.
    pub fn pos_to_char_idx(&self, p: Pos) -> (r: usize)
        requires
            self.wf(),
            doc_len(self@) <= usize::MAX,
        ensures
            r == pos_offset(self@, p),
    {
        let n = self.lines.len();
        let stop = if p.y < n { p.y } else { n - 1 };
        let mut acc: usize = 0;
        let mut y: usize = 0;
        while y < stop
            invariant
                self.wf(),
                n == self@.len(),
                stop < n,
                y <= stop,
                doc_len(self@) <= usize::MAX,
                acc == line_start(self@, y as int),
            decreases stop - y,
        {
            proof {
                lemma_line_start_mono(self@, y + 1, n as int);
            }
            acc = acc + self.lines[y].len() + 1;
            y = y + 1;
        }
        proof {
            lemma_line_start_mono(self@, stop as int, n as int);
        }
        let len = self.lines[stop].len();
        if p.y >= n {
            acc + len
        } else if p.x <= len {
            acc + p.x
        } else {
            acc + len
        }
    }

    /// The position at flat character offset `idx`; an offset past the end gives
    /// the end of the document.
    pub fn char_idx_to_pos(&self, idx: usize) -> (r: Pos)
        requires
            self.wf(),
            doc_len(self@) <= usize::MAX,
        ensures
            valid_pos(self@, r),
            pos_offset(self@, r) == if idx <= doc_len(self@) { idx as nat } else { doc_len(self@) },
    {
        let n = self.lines.len();
        let mut start: usize = 0;
        let mut y: usize = 0;
        while y + 1 < n
            invariant
                self.wf(),
                n == self@.len(),
                y < n,
                doc_len(self@) <= usize::MAX,
                start == line_start(self@, y as int),
                start <= idx,
            decreases n - y,
        {
            proof {
                lemma_line_start_mono(self@, y + 1, n as int);
            }
            let len = self.lines[y].len();
            if idx <= start + len {
                return Pos { y, x: idx - start };
            }
            start = start + len + 1;
            y = y + 1;
        }
        let len = self.lines[y].len();
        assert(line_start(self@, n as int) == start + len + 1);
        if idx <= start + len {
            Pos { y, x: idx - start }
        } else {
            Pos { y, x: len }
        }
    }

    /// The first match of `query` at or after `from`; with `wrap`, when there is
    /// none, the first match on the lines from the top through `from`'s line. An
    /// empty query matches nothing.
    pub fn search_forward(&self, query: &str, from: Pos, wrap: bool) -> (r: Option<Pos>)
        requires
            self.wf(),
        ensures
            search_result(self@, query@, from, wrap, r),
    {
        let ghost ls = self@;
        let q = chars_of(query);
        if q.len() == 0 {
            return None;
        }
        let n = self.lines.len();
        let mut y = from.y;
        let mut x = from.x;
        while y < n
            invariant
                self.wf(),
                ls == self@,
                n == ls.len(),
                q@ == query@,
                q@.len() > 0,
                y >= from.y,
                y > from.y ==> x == 0,
                y == from.y ==> x == from.x,
                forall|h: Pos| #[trigger] is_hit(ls, q@, h) && in_forward_part(ls, from, h) ==> !pos_lt_at(h, y, x),
            decreases n - y,
        {
            match find_in_line(&self.lines[y], &q, x) {
                Some(cx) => {
                    let p = Pos { y, x: cx };
                    assert(is_hit(ls, q@, p));
                    assert forall|h: Pos| #[trigger] is_hit(ls, q@, h) && in_forward_part(ls, from, h) implies pos_le(p, h) by {
                        assert(!pos_lt_at(h, y, x));
                        if h.y == y && h.x < cx {
                            assert(matches_at(self.lines@[y as int]@, q@, h.x as int));
                        }
                    }
                    assert(first_forward_hit(ls, query@, from, p));
                    return Some(p);
                },
                None => {
                    assert forall|h: Pos| #[trigger] is_hit(ls, q@, h) && in_forward_part(ls, from, h) implies !pos_lt_at(h, (y + 1) as usize, 0) by {
                        assert(!pos_lt_at(h, y, x));
                        if h.y == y {
                            assert(matches_at(self.lines@[y as int]@, q@, h.x as int));
                        }
                    }
                },
            }
            y = y + 1;
            x = 0;
        }
        assert(!has_forward_hit(ls, query@, from)) by {
            assert forall|h: Pos| #[trigger] is_hit(ls, q@, h) implies !in_forward_part(ls, from, h) by {
                if in_forward_part(ls, from, h) {
                    assert(!pos_lt_at(h, y, x));
                }
            }
        }
        if !wrap {
            return None;
        }
        let mut y: usize = 0;
        while y <= from.y && y < n
            invariant
                self.wf(),
                ls == self@,
                n == ls.len(),
                q@ == query@,
                q@.len() > 0,
                wrap,
                !has_forward_hit(ls, query@, from),
                forall|h: Pos| #[trigger] is_hit(ls, q@, h) ==> h.y >= y,
            decreases n - y,
        {
            match find_in_line(&self.lines[y], &q, 0) {
                Some(cx) => {
                    let p = Pos { y, x: cx };
                    assert(is_hit(ls, q@, p));
                    assert forall|h: Pos| #[trigger] is_hit(ls, q@, h) && in_wrapped_part(ls, from, h) implies pos_le(p, h) by {
                        if h.y == y && h.x < cx {
                            assert(matches_at(self.lines@[y as int]@, q@, h.x as int));
                        }
                    }
                    assert(first_wrapped_hit(ls, query@, from, p));
                    return Some(p);
                },
                None => {
                    assert forall|h: Pos| #[trigger] is_hit(ls, q@, h) implies h.y >= y + 1 by {
                        if h.y == y {
                            assert(matches_at(self.lines@[y as int]@, q@, h.x as int));
                        }
                    }
                },
            }
            y = y + 1;
        }
        assert(!has_wrapped_hit(ls, query@, from)) by {
            assert forall|h: Pos| #[trigger] is_hit(ls, q@, h) implies !in_wrapped_part(ls, from, h) by {
                assert(h.y >= y);
            }
        }
        None
    }

    /// Clamps a position to a valid line and a valid column within that line.
    pub fn clamp_pos(&self, p: Pos) -> (r: Pos)
        requires
            self.wf(),
        ensures
            r == clamp(self@, p),
            valid_pos(self@, r),
    {
        let n = self.lines.len();
        let y = if p.y < n { p.y } else { n - 1 };
        let len = self.lines[y].len();
        let x = if p.x <= len { p.x } else { len };
        Pos { y, x }
    }

    /// Inserts `text` at `p` (clamped first). `\r\n` in `text` becomes `\n`; the text
    /// is split at `\n` and spliced in. Returns where the inserted text ends.
    pub fn insert_str(&mut self, p: Pos, text: &str) -> (r: Pos)
        requires
            old(self).wf(),
        ensures
            final(self).wf(),
            final(self).spec_line_ending() == old(self).spec_line_ending(),
            final(self)@ == splice(old(self)@, clamp(old(self)@, p), insert_parts(text@)),
            r == end_of_insert(clamp(old(self)@, p), insert_parts(text@)),
            valid_pos(final(self)@, r),
    {
        let q = self.clamp_pos(p);
        let cs = chars_of(text);
        let norm = normalize_newlines(&cs);
        let parts = split_on_newlines(&norm);
        proof {
            lemma_split_lines_wf(norm@);
            assert(lines_view(parts@) =~= insert_parts(text@));
        }
        self.splice_parts(q, &parts)
    }

    /// Inserts one character at `p` (clamped first); `\n` splits the line.
    pub fn insert_char(&mut self, p: Pos, ch: char) -> (r: Pos)
        requires
            old(self).wf(),
        ensures
            final(self).wf(),
            final(self).spec_line_ending() == old(self).spec_line_ending(),
            final(self)@ == splice(old(self)@, clamp(old(self)@, p), split_lines(seq![ch])),
            ch == '\n' ==> r == (Pos { y: (clamp(old(self)@, p).y + 1) as usize, x: 0 }),
            ch != '\n' ==> r == (Pos { y: clamp(old(self)@, p).y, x: (clamp(old(self)@, p).x + 1) as usize }),
            valid_pos(final(self)@, r),
    {
        let q = self.clamp_pos(p);
        let mut one: Vec<char> = Vec::new();
        one.push(ch);
        let parts = split_on_newlines(&one);
        proof {
            assert(one@ =~= seq![ch]);
            lemma_split_lines_wf(one@);
            lemma_split_one(ch);
            assert(lines_view(parts@) =~= split_lines(seq![ch]));
        }
        self.splice_parts(q, &parts)
    }

    /// Splits the line at `p` (clamped first); returns the start of the new line.
    pub fn insert_newline(&mut self, p: Pos) -> (r: Pos)
        requires
            old(self).wf(),
        ensures
            final(self).wf(),
            final(self).spec_line_ending() == old(self).spec_line_ending(),
            final(self)@ == splice(old(self)@, clamp(old(self)@, p), split_lines(seq!['\n'])),
            r == (Pos { y: (clamp(old(self)@, p).y + 1) as usize, x: 0 }),
    {
        self.insert_char(p, '\n')
    }

    /// Where `text` would end if it were inserted at `p`, without inserting it.
    pub fn calc_end_pos(&self, p: Pos, text: &str) -> (r: Pos)
        ensures
            r == end_of_insert(p, insert_parts(text@)),
    {
        predict_end(p, text)
    }

    /// Deletes the text between `start` and `end`, in either order, after clamping
    /// both. Returns the earlier of the two.
    pub fn delete_range(&mut self, start: Pos, end: Pos) -> (r: Pos)
        requires
            old(self).wf(),
        ensures
            final(self).wf(),
            final(self).spec_line_ending() == old(self).spec_line_ending(),
            r == ordered_start(old(self)@, start, end),
            final(self)@ == remove_between(
                old(self)@,
                ordered_start(old(self)@, start, end),
                ordered_end(old(self)@, start, end),
            ),
    {
        let a0 = self.clamp_pos(start);
        let b0 = self.clamp_pos(end);
        let (a, b) = Pos::ordered(a0, b0);
        self.remove_valid_range(a, b);
        a
    }

    /// Backspace: deletes the character before `p` (clamped first), or at a line
    /// start joins the line onto the previous one. Nothing happens at the start of
    /// the document. Returns the new cursor position.
    pub fn delete_backspace(&mut self, p: Pos) -> (r: Pos)
        requires
            old(self).wf(),
        ensures
            final(self).wf(),
            final(self).spec_line_ending() == old(self).spec_line_ending(),
            ({
                let q = clamp(old(self)@, p);
                if q.x > 0 {
                    &&& r == Pos { y: q.y, x: (q.x - 1) as usize }
                    &&& final(self)@ == remove_between(old(self)@, r, q)
                } else if q.y > 0 {
                    &&& r == Pos { y: (q.y - 1) as usize, x: old(self)@[q.y - 1].len() as usize }
                    &&& final(self)@ == remove_between(old(self)@, r, q)
                } else {
                    &&& r == q
                    &&& final(self)@ == old(self)@
                }
            }),
    {
        let q = self.clamp_pos(p);
        if q.x > 0 {
            let a = Pos { y: q.y, x: q.x - 1 };
            self.remove_valid_range(a, q);
            a
        } else if q.y > 0 {
            let a = Pos { y: q.y - 1, x: self.lines[q.y - 1].len() };
            self.remove_valid_range(a, q);
            a
        } else {
            q
        }
    }

    /// Delete key: deletes the character at `p` (clamped first), or at a line end
    /// joins the next line onto this one. Nothing happens at the end of the
    /// document. Returns the clamped position.
    pub fn delete_delete(&mut self, p: Pos) -> (r: Pos)
        requires
            old(self).wf(),
        ensures
            final(self).wf(),
            final(self).spec_line_ending() == old(self).spec_line_ending(),
            r == clamp(old(self)@, p),
            ({
                let q = clamp(old(self)@, p);
                if q.x < old(self)@[q.y as int].len() {
                    final(self)@ == remove_between(old(self)@, q, Pos { y: q.y, x: (q.x + 1) as usize })
                } else if q.y + 1 < old(self)@.len() {
                    final(self)@ == remove_between(old(self)@, q, Pos { y: (q.y + 1) as usize, x: 0 })
                } else {
                    final(self)@ == old(self)@
                }
            }),
    {
        let q = self.clamp_pos(p);
        let len = self.lines[q.y].len();
        if q.x < len {
            self.remove_valid_range(q, Pos { y: q.y, x: q.x + 1 });
        } else if q.y < self.lines.len() - 1 {
            self.remove_valid_range(q, Pos { y: q.y + 1, x: 0 });
        }
        q
    }

    /// Removes the text between the valid positions `a <= b`.
    fn remove_valid_range(&mut self, a: Pos, b: Pos)
        requires
            old(self).wf(),
            valid_pos(old(self)@, a),
            valid_pos(old(self)@, b),
            pos_le(a, b),
        ensures
            final(self).wf(),
            final(self).spec_line_ending() == old(self).spec_line_ending(),
            final(self)@ == remove_between(old(self)@, a, b),
    {
        let ghost ls = self@;
        let ghost joined = ls[a.y as int].take(a.x as int) + ls[b.y as int].skip(b.x as int);
        let mut first = copy_range(&self.lines[a.y], 0, a.x);
        let tail = copy_range(&self.lines[b.y], b.x, self.lines[b.y].len());
        append_chars(&mut first, &tail);
        let mut i = a.y;
        while i < b.y
            invariant
                a.y <= i <= b.y,
                b.y < ls.len(),
                self@ == ls.take(a.y + 1) + ls.skip(i + 1),
                self.line_ending == old(self).line_ending,
            decreases b.y - i,
        {
            let ghost before = self@;
            assert(self.lines@.len() == self@.len());
            self.lines.remove(a.y + 1);
            assert(self@ =~= before.remove(a.y + 1));
            i = i + 1;
            assert(self@ =~= ls.take(a.y + 1) + ls.skip(i + 1));
        }
        let ghost before = self@;
        self.lines.set(a.y, first);
        proof {
            assert(self@ =~= before.update(a.y as int, joined));
            assert(self@ =~= remove_between(ls, a, b));
            assert forall|k: int| 0 <= k < self@.len() implies no_newline(#[trigger] self@[k]) by {
                if k < a.y {
                    assert(self@[k] == ls[k]);
                } else if k == a.y {
                    assert forall|j: int| 0 <= j < joined.len() implies joined[j] != '\n' by {
                        if j < a.x {
                            assert(joined[j] == ls[a.y as int][j]);
                        } else {
                            assert(joined[j] == ls[b.y as int][b.x + j - a.x]);
                        }
                    }
                } else {
                    assert(self@[k] == ls[k + b.y - a.y]);
                }
            }
        }
    }

    /// Splices `parts` in at the valid position `p` and returns where they end.
    fn splice_parts(&mut self, p: Pos, parts: &Vec<Vec<char>>) -> (r: Pos)
        requires
            old(self).wf(),
            valid_pos(old(self)@, p),
            parts@.len() >= 1,
            forall|i: int| 0 <= i < parts@.len() ==> no_newline(#[trigger] parts@[i]@),
        ensures
            final(self).wf(),
            final(self).spec_line_ending() == old(self).spec_line_ending(),
            final(self)@ == splice(old(self)@, p, lines_view(parts@)),
            r == end_of_insert(p, lines_view(parts@)),
            valid_pos(final(self)@, r),
            r.y == p.y + parts@.len() - 1,
            parts@.len() == 1 ==> r.x == p.x + parts@[0]@.len(),
            parts@.len() > 1 ==> r.x == parts@[parts@.len() - 1]@.len(),
    {
        let ghost ls = self@;
        let ghost ps = lines_view(parts@);
        let y = p.y;
        let x = p.x;
        let line = self.lines.remove(y);
        let pre = copy_range(&line, 0, x);
        let suf = copy_range(&line, x, line.len());
        let k = parts.len() - 1;
        assert(ps.len() == parts@.len());
        let ghost mid: Seq<Seq<char>> = if ps.len() == 1 {
            seq![pre@ + ps[0] + suf@]
        } else {
            seq![pre@ + ps[0]] + ps.subrange(1, k as int) + seq![ps[k as int] + suf@]
        };
        assert(line@ == ls[y as int]);
        assert(self@ =~= ls.take(y as int) + ls.skip(y + 1));
        if k == 0 {
            let mut first = pre;
            append_chars(&mut first, &parts[0]);
            append_chars(&mut first, &suf);
            let ex = first.len() - suf.len();
            self.lines.insert(y, first);
            proof {
                assert(self@ =~= ls.take(y as int) + mid + ls.skip(y + 1));
                assert forall|i: int| 0 <= i < self@.len() implies no_newline(#[trigger] self@[i]) by {
                    if i == y {
                        let l = self@[i];
                        assert forall|j: int| 0 <= j < l.len() implies l[j] != '\n' by {
                            if j < x {
                                assert(l[j] == ls[y as int][j]);
                            } else if j < x + ps[0].len() {
                                assert(l[j] == ps[0][j - x]);
                            } else {
                                assert(l[j] == ls[y as int][j - ps[0].len()]);
                            }
                        }
                    } else if i < y {
                        assert(self@[i] == ls[i]);
                    } else {
                        assert(self@[i] == ls[i]);
                    }
                }
            }
            Pos { y, x: ex }
        } else {
            let mut first = pre;
            append_chars(&mut first, &parts[0]);
            self.lines.insert(y, first);
            let mut j: usize = 1;
            while j < k
                invariant
                    1 <= j <= k,
                    k + 1 == parts@.len(),
                    ps == lines_view(parts@),
                    y < ls.len(),
                    self@ == ls.take(y as int) + mid.take(j as int) + ls.skip(y + 1),
                    mid == seq![pre@ + ps[0]] + ps.subrange(1, k as int) + seq![ps[k as int] + suf@],
                    mid.len() == k + 1,
                    self.line_ending == old(self).line_ending,
                decreases k - j,
            {
                let piece = copy_range(&parts[j], 0, parts[j].len());
                assert(piece@ == mid[j as int]);
                let total = self.lines.len();
                assert(self@.len() == total);
                let ghost before = self@;
                let ghost pv = piece@;
                self.lines.insert(y + j, piece);
                assert(self@ =~= before.insert(y + j, pv));
                assert(mid.take(j + 1) =~= mid.take(j as int).push(pv));
                j = j + 1;
                assert(self@ =~= ls.take(y as int) + mid.take(j as int) + ls.skip(y + 1));
            }
            let mut last = copy_range(&parts[k], 0, parts[k].len());
            let ex = last.len();
            append_chars(&mut last, &suf);
            assert(last@ == mid[k as int]);
            let total = self.lines.len();
            assert(self@.len() == total);
            let ghost before = self@;
            let ghost lv = last@;
            self.lines.insert(y + k, last);
            proof {
                assert(self@ =~= before.insert(y + k, lv));
                assert(mid.take(k + 1) =~= mid.take(k as int).push(lv));
                assert(mid.take(k + 1) =~= mid);
                assert(self@ =~= ls.take(y as int) + mid + ls.skip(y + 1));
                assert forall|i: int| 0 <= i < self@.len() implies no_newline(#[trigger] self@[i]) by {
                    if i < y {
                        assert(self@[i] == ls[i]);
                    } else if i == y {
                        let l = self@[i];
                        assert forall|q: int| 0 <= q < l.len() implies l[q] != '\n' by {
                            if q < x {
                                assert(l[q] == ls[y as int][q]);
                            } else {
                                assert(l[q] == ps[0][q - x]);
                            }
                        }
                    } else if i < y + k {
                        assert(self@[i] == ps[i - y]);
                    } else if i == y + k {
                        let l = self@[i];
                        assert forall|q: int| 0 <= q < l.len() implies l[q] != '\n' by {
                            if q < ps[k as int].len() {
                                assert(l[q] == ps[k as int][q]);
                            } else {
                                assert(l[q] == ls[y as int][x + q - ps[k as int].len()]);
                            }
                        }
                    } else {
                        assert(self@[i] == ls[i - k]);
                    }
                }
            }
            Pos { y: y + k, x: ex }
        }
    }
}

} // verus!
