//! Document statistics: lines, words, characters, bytes and a histogram of line
//! lengths.

use vstd::prelude::*;
use crate::boundary::{is_white_space, white_space};
use crate::buffer::{Buffer, sat};
use crate::edit::Editor;
use crate::pos::LineEnding;
use crate::utils::{char_utf8_width, utf8_len, lemma_utf8_len_step};

verus! {

/// Statistics about a document.
#[derive(Clone, Debug)]
pub struct DocumentStats {
    pub line_count: usize,
    pub word_count: usize,
    pub char_count: usize,
    pub byte_count: usize,
    pub line_ending: LineEnding,
    pub encoding: &'static str,
    /// Line counts by length: bucket `b` holds lines of `10 * b` to `10 * b + 9`
    /// characters, the last bucket also all longer lines.
    pub line_length_histogram: Vec<usize>,
}

/// The number of words among the first `k` characters of `line`: maximal runs of
/// characters that are not white space.
pub open spec fn words_in(line: Seq<char>, k: int) -> nat
    decreases k,
{
    if k <= 0 {
        0
    } else {
        words_in(line, k - 1) + if !white_space(line[k - 1]) && (k == 1 || white_space(line[k - 2])) {
            1nat
        } else {
            0nat
        }
    }
}

/// The histogram bucket of a line of `len` characters.
pub open spec fn bucket(len: nat) -> int {
    if len / 10 < 9 { (len / 10) as int } else { 9 }
}

pub open spec fn sum_chars(ls: Seq<Seq<char>>, k: int) -> nat
    decreases k,
{
    if k <= 0 { 0 } else { sum_chars(ls, k - 1) + ls[k - 1].len() }
}

pub open spec fn sum_words(ls: Seq<Seq<char>>, k: int) -> nat
    decreases k,
{
    if k <= 0 { 0 } else { sum_words(ls, k - 1) + words_in(ls[k - 1], ls[k - 1].len() as int) }
}

pub open spec fn sum_bytes(ls: Seq<Seq<char>>, k: int) -> nat
    decreases k,
{
    if k <= 0 { 0 } else { sum_bytes(ls, k - 1) + utf8_len(ls[k - 1]) }
}

/// How many of the first `k` lines fall into bucket `b`.
pub open spec fn bucket_count(ls: Seq<Seq<char>>, k: int, b: int) -> nat
    decreases k,
{
    if k <= 0 {
        0
    } else {
        bucket_count(ls, k - 1, b) + if bucket(ls[k - 1].len()) == b { 1nat } else { 0nat }
    }
}

proof fn lemma_sat_add(a: int, b: int)
    requires
        a >= 0,
        b >= 0,
    ensures
        sat(sat(a) + b) == sat(a + b),
{
}

proof fn lemma_bucket_count_le(ls: Seq<Seq<char>>, k: int, b: int)
    requires
        k >= 0,
    ensures
        bucket_count(ls, k, b) <= k,
    decreases k,
{
    if k > 0 {
        lemma_bucket_count_le(ls, k - 1, b);
    }
}

/// Words and UTF-8 bytes of `line`, each capped at `usize::MAX`.
fn line_words_and_bytes(line: &Vec<char>) -> (r: (usize, usize))
    ensures
        r.0 == sat(words_in(line@, line@.len() as int) as int),
        r.1 == sat(utf8_len(line@) as int),
{
    let mut words: usize = 0;
    let mut bytes: usize = 0;
    let mut prev_space = true;
    let mut i: usize = 0;
    while i < line.len()
        invariant
            i <= line@.len(),
            words == sat(words_in(line@, i as int) as int),
            bytes == sat(utf8_len(line@.take(i as int)) as int),
            i > 0 ==> prev_space == white_space(line@[i - 1]),
            i == 0 ==> prev_space,
        decreases line@.len() - i,
    {
        let c = line[i];
        let space = is_white_space(c);
        if !space && prev_space {
            words = words.saturating_add(1);
        }
        proof {
            lemma_utf8_len_step(line@, i as int);
        }
        bytes = bytes.saturating_add(char_utf8_width(c));
        prev_space = space;
        i = i + 1;
    }
    assert(line@.take(line@.len() as int) =~= line@);
    (words, bytes)
}

impl Editor {
    /// Statistics about the document: line, word, character and byte counts (the
    /// bytes as saved, separators included), the line ending, the encoding and the
    /// histogram of line lengths. Counts are capped at `usize::MAX`.
    pub fn calculate_stats(&self) -> (r: DocumentStats)
        requires
            self.wf(),
        ensures
            ({
                let ls = self.buf@;
                let n = ls.len() as int;
                let sep = self.buf.spec_line_ending().spec_chars().len();
                &&& r.line_count == n
                &&& r.word_count == sat(sum_words(ls, n) as int)
                &&& r.char_count == sat(sum_chars(ls, n) as int)
                &&& r.byte_count == sat(sum_bytes(ls, n) + (n - 1) * sep)
                &&& r.line_ending == self.buf.spec_line_ending()
                &&& r.line_length_histogram@.len() == 10
                &&& forall|b: int| 0 <= b < 10 ==> r.line_length_histogram@[b] == bucket_count(ls, n, b)
            }),
    {
        let n = self.buf.line_count();
        let ghost ls = self.buf@;
        let mut words: usize = 0;
        let mut chars: usize = 0;
        let mut bytes: usize = 0;
        let mut histogram: Vec<usize> = Vec::new();
        let mut b: usize = 0;
        while b < 10
            invariant
                b <= 10,
                histogram@.len() == b,
                forall|k: int| 0 <= k < b ==> histogram@[k] == 0,
            decreases 10 - b,
        {
            histogram.push(0);
            b = b + 1;
        }
        let mut y: usize = 0;
        while y < n
            invariant
                self.wf(),
                ls == self.buf@,
                n == ls.len(),
                y <= n,
                words == sat(sum_words(ls, y as int) as int),
                chars == sat(sum_chars(ls, y as int) as int),
                bytes == sat(sum_bytes(ls, y as int) as int),
                histogram@.len() == 10,
                forall|k: int| 0 <= k < 10 ==> histogram@[k] == bucket_count(ls, y as int, k),
            decreases n - y,
        {
            let line = self.buf.line_chars(y);
            let (w, by) = line_words_and_bytes(&line);
            proof {
                lemma_sat_add(sum_words(ls, y as int) as int, words_in(ls[y as int], ls[y as int].len() as int) as int);
                lemma_sat_add(sum_chars(ls, y as int) as int, ls[y as int].len() as int);
                lemma_sat_add(sum_bytes(ls, y as int) as int, utf8_len(ls[y as int]) as int);
            }
            words = words.saturating_add(w);
            chars = chars.saturating_add(line.len());
            bytes = bytes.saturating_add(by);
            let tens = line.len() / 10;
            let bk = if tens < 9 { tens } else { 9 };
            proof {
                lemma_bucket_count_le(ls, y as int, bk as int);
            }
            let old_count = histogram[bk];
            histogram.set(bk, old_count + 1);
            y = y + 1;
        }
        let sep: usize = match self.buf.line_ending() {
            LineEnding::LF => 1,
            LineEnding::CRLF => 2,
        };
        let extra = if sep == 1 { n - 1 } else { (n - 1).saturating_add(n - 1) };
        proof {
            lemma_sat_add(sum_bytes(ls, n as int) as int, (n - 1) * sep);
        }
        bytes = bytes.saturating_add(extra);
        DocumentStats {
            line_count: n,
            word_count: words,
            char_count: chars,
            byte_count: bytes,
            line_ending: self.buf.line_ending(),
            encoding: "UTF-8 (Unicode)",
            line_length_histogram: histogram,
        }
    }
}

} // verus!
