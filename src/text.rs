//! Pure text functions on character sequences: line splitting, CRLF normalisation,
//! and the copying helpers the line store is built from.

use vstd::prelude::*;
use crate::utils::chars_of;

verus! {

/// `l` holds no line separator.
pub open spec fn no_newline(l: Seq<char>) -> bool {
    forall|i: int| 0 <= i < l.len() ==> l[i] != '\n'
}

/// `t` with every `\r\n` pair replaced by `\n`.
pub open spec fn normalize_crlf(t: Seq<char>) -> Seq<char>
    decreases t.len(),
{
    if t.len() == 0 {
        t
    } else if t.len() >= 2 && t.last() == '\n' && t[t.len() - 2] == '\r' {
        normalize_crlf(t.take(t.len() - 2)).push('\n')
    } else {
        normalize_crlf(t.drop_last()).push(t.last())
    }
}

/// The pieces of `t` between `sep` characters; always at least one piece.
pub open spec fn split_on(t: Seq<char>, sep: char) -> Seq<Seq<char>>
    decreases t.len(),
{
    if t.len() == 0 {
        seq![Seq::<char>::empty()]
    } else {
        let prev = split_on(t.drop_last(), sep);
        if t.last() == sep {
            prev.push(Seq::<char>::empty())
        } else {
            prev.update(prev.len() - 1, prev.last().push(t.last()))
        }
    }
}

/// The pieces of `t` between `\n` separators; always at least one piece.
pub open spec fn split_lines(t: Seq<char>) -> Seq<Seq<char>> {
    split_on(t, '\n')
}

pub proof fn lemma_split_lines_wf(t: Seq<char>)
    ensures
        split_lines(t).len() >= 1,
        forall|i: int| 0 <= i < split_lines(t).len() ==> no_newline(#[trigger] split_lines(t)[i]),
        no_newline(t) ==> split_lines(t) == seq![t],
        split_lines(t).len() == 1 ==> no_newline(t),
    decreases t.len(),
{
    if t.len() == 0 {
        assert(t =~= Seq::<char>::empty());
    } else {
        lemma_split_lines_wf(t.drop_last());
        let prev = split_lines(t.drop_last());
        if t.last() == '\n' {
            assert(!no_newline(t)) by {
                assert(t[t.len() - 1] == '\n');
            }
        } else {
            let cur = split_lines(t);
            assert forall|i: int| 0 <= i < cur.len() implies no_newline(#[trigger] cur[i]) by {
                if i == prev.len() - 1 {
                    assert forall|j: int| 0 <= j < cur[i].len() implies cur[i][j] != '\n' by {
                        if j < prev.last().len() {
                            assert(cur[i][j] == prev[i][j]);
                        }
                    }
                }
            }
            if no_newline(t) {
                assert(no_newline(t.drop_last()));
                assert(prev == seq![t.drop_last()]);
                assert(t.drop_last().push(t.last()) =~= t);
                assert(cur =~= seq![t]);
            }
            if cur.len() == 1 {
                assert(prev.len() == 1);
                assert forall|j: int| 0 <= j < t.len() implies t[j] != '\n' by {
                    if j < t.len() - 1 {
                        assert(t.drop_last()[j] == t[j]);
                    }
                }
            }
        }
    }
}

pub proof fn lemma_normalize_len(t: Seq<char>)
    ensures
        normalize_crlf(t).len() <= t.len(),
    decreases t.len(),
{
    if t.len() > 0 {
        if t.len() >= 2 && t.last() == '\n' && t[t.len() - 2] == '\r' {
            lemma_normalize_len(t.take(t.len() - 2));
        } else {
            lemma_normalize_len(t.drop_last());
        }
    }
}

/// No piece is longer than the text, and there is at most one piece more than
/// the text has characters.
pub proof fn lemma_split_sizes(t: Seq<char>)
    ensures
        split_lines(t).len() <= t.len() + 1,
        forall|i: int| 0 <= i < split_lines(t).len() ==> (#[trigger] split_lines(t)[i]).len() <= t.len(),
    decreases t.len(),
{
    if t.len() > 0 {
        lemma_split_sizes(t.drop_last());
        lemma_split_lines_wf(t.drop_last());
        let prev = split_lines(t.drop_last());
        let cur = split_lines(t);
        assert forall|i: int| 0 <= i < cur.len() implies (#[trigger] cur[i]).len() <= t.len() by {
            if i < prev.len() {
                assert(prev[i].len() <= t.len() - 1);
            }
        }
    }
}

/// The pieces of a single character.
pub proof fn lemma_split_one(c: char)
    ensures
        c == '\n' ==> split_lines(seq![c]) == seq![Seq::<char>::empty(), Seq::<char>::empty()],
        c != '\n' ==> split_lines(seq![c]) == seq![seq![c]],
{
    let t = seq![c];
    assert(t.drop_last() =~= Seq::<char>::empty());
    assert(t.last() == c);
    let prev = split_lines(t.drop_last());
    assert(prev == seq![Seq::<char>::empty()]);
    if c == '\n' {
        assert(split_lines(t) =~= seq![Seq::<char>::empty(), Seq::<char>::empty()]);
    } else {
        assert(Seq::<char>::empty().push(c) =~= seq![c]);
        assert(split_lines(t) =~= seq![seq![c]]);
    }
}

/// Splitting at a separator placed between two texts splits each of them.
pub proof fn lemma_split_on_concat(a: Seq<char>, b: Seq<char>, sep: char)
    ensures
        split_on(a + seq![sep] + b, sep) == split_on(a, sep) + split_on(b, sep),
    decreases b.len(),
{
    let t = a + seq![sep] + b;
    if b.len() == 0 {
        assert(t =~= a.push(sep));
        assert(t.drop_last() =~= a);
        assert(split_on(b, sep) == seq![Seq::<char>::empty()]);
        assert(split_on(t, sep) =~= split_on(a, sep) + split_on(b, sep));
    } else {
        lemma_split_on_concat(a, b.drop_last(), sep);
        assert(t.drop_last() =~= a + seq![sep] + b.drop_last());
        assert(t.last() == b.last());
        let x = split_on(a, sep);
        let y = split_on(b.drop_last(), sep);
        lemma_split_on_nonempty(b.drop_last(), sep);
        assert(split_on(t, sep) =~= x + split_on(b, sep));
    }
}

pub proof fn lemma_split_on_nonempty(t: Seq<char>, sep: char)
    ensures
        split_on(t, sep).len() >= 1,
    decreases t.len(),
{
    if t.len() > 0 {
        lemma_split_on_nonempty(t.drop_last(), sep);
    }
}

/// Normalising a concatenation normalises each side, unless a `\r` ending the
/// first meets a `\n` starting the second.
pub proof fn lemma_normalize_concat(x: Seq<char>, y: Seq<char>)
    requires
        !(x.len() > 0 && x.last() == '\r' && y.len() > 0 && y[0] == '\n'),
    ensures
        normalize_crlf(x + y) == normalize_crlf(x) + normalize_crlf(y),
    decreases y.len(),
{
    let t = x + y;
    if y.len() == 0 {
        assert(t =~= x);
        assert(normalize_crlf(y) =~= Seq::<char>::empty());
        assert(normalize_crlf(x) + normalize_crlf(y) =~= normalize_crlf(x));
    } else if y.len() >= 2 && y.last() == '\n' && y[y.len() - 2] == '\r' {
        let y2 = y.take(y.len() - 2);
        assert(t.take(t.len() - 2) =~= x + y2);
        assert(t[t.len() - 2] == y[y.len() - 2]);
        if y2.len() > 0 {
            assert(y2[0] == y[0]);
        }
        lemma_normalize_concat(x, y2);
        assert(normalize_crlf(t) =~= normalize_crlf(x) + normalize_crlf(y));
    } else {
        let y1 = y.drop_last();
        assert(t.drop_last() =~= x + y1);
        assert(t.last() == y.last());
        if y1.len() > 0 {
            assert(y1[0] == y[0]);
            assert(t[t.len() - 2] == y[y.len() - 2]);
        }
        lemma_normalize_concat(x, y1);
        assert(normalize_crlf(t) =~= normalize_crlf(x) + normalize_crlf(y));
    }
}

/// Text without a separator is left alone by normalisation.
pub proof fn lemma_normalize_line(l: Seq<char>)
    requires
        no_newline(l),
    ensures
        normalize_crlf(l) == l,
    decreases l.len(),
{
    if l.len() > 0 {
        assert(no_newline(l.drop_last()));
        lemma_normalize_line(l.drop_last());
        assert(l.drop_last().push(l.last()) =~= l);
    }
}

/// Relies on `String`'s `FromIterator<char>`: the string holds the characters in order.
#[verifier::external_body]
pub fn string_from_chars(v: &Vec<char>) -> (r: String)
    ensures
        r@ == v@,
{
    v.iter().collect()
}

/// Relies on `str::to_string`: an owned copy of the text.
#[verifier::external_body]
pub fn string_from_str(s: &str) -> (r: String)
    ensures
        r@ == s@,
{
    s.to_string()
}

/// Whether the characters of `a` are those of `lit`.
pub fn chars_eq_str(a: &Vec<char>, lit: &str) -> (r: bool)
    ensures
        r == (a@ == lit@),
{
    let b = chars_of(lit);
    if a.len() != b.len() {
        return false;
    }
    let mut i: usize = 0;
    while i < a.len()
        invariant
            a@.len() == b@.len(),
            b@ == lit@,
            i <= a@.len(),
            forall|k: int| 0 <= k < i ==> a@[k] == b@[k],
        decreases a@.len() - i,
    {
        if a[i] != b[i] {
            assert(a@[i as int] != b@[i as int]);
            return false;
        }
        i = i + 1;
    }
    assert(a@ =~= b@);
    true
}

/// `t` holds `\r\n` somewhere.
pub open spec fn has_crlf(t: Seq<char>) -> bool {
    exists|i: int| 0 <= i && i + 1 < t.len() && #[trigger] t[i] == '\r' && t[i + 1] == '\n'
}

/// Whether `t` holds `\r\n` somewhere.
pub fn contains_crlf(t: &Vec<char>) -> (r: bool)
    ensures
        r == has_crlf(t@),
{
    let mut i: usize = 0;
    while i < t.len()
        invariant
            i <= t@.len(),
            forall|j: int| 0 <= j < i && j + 1 < t@.len() ==> !(#[trigger] t@[j] == '\r' && t@[j + 1] == '\n'),
        decreases t.len() - i,
    {
        if t[i] == '\r' && i + 1 < t.len() && t[i + 1] == '\n' {
            return true;
        }
        i = i + 1;
    }
    false
}

/// A copy of `v[lo..hi]`.
pub fn copy_range(v: &Vec<char>, lo: usize, hi: usize) -> (r: Vec<char>)
    requires
        lo <= hi <= v@.len(),
    ensures
        r@ == v@.subrange(lo as int, hi as int),
{
    let mut out: Vec<char> = Vec::new();
    let mut i = lo;
    while i < hi
        invariant
            lo <= i <= hi,
            hi <= v@.len(),
            out@ == v@.subrange(lo as int, i as int),
        decreases hi - i,
    {
        out.push(v[i]);
        i = i + 1;
        assert(out@ =~= v@.subrange(lo as int, i as int));
    }
    out
}

/// Appends a copy of `b` to `a`.
pub fn append_chars(a: &mut Vec<char>, b: &Vec<char>)
    ensures
        final(a)@ == old(a)@ + b@,
{
    let mut i: usize = 0;
    while i < b.len()
        invariant
            i <= b@.len(),
            a@ == old(a)@ + b@.take(i as int),
        decreases b.len() - i,
    {
        a.push(b[i]);
        i = i + 1;
        assert(a@ =~= old(a)@ + b@.take(i as int));
    }
    assert(b@.take(b@.len() as int) =~= b@);
}

/// `t` with each `\r\n` pair replaced by `\n`.
pub fn normalize_newlines(t: &Vec<char>) -> (r: Vec<char>)
    ensures
        r@ == normalize_crlf(t@),
{
    let mut out: Vec<char> = Vec::new();
    let mut i: usize = 0;
    let n = t.len();
    while i < n
        invariant
            n == t@.len(),
            i <= n,
            out@ == normalize_crlf(t@.take(i as int)),
            i > 0 && i < n && t@[i - 1] == '\r' ==> t@[i as int] != '\n',
        decreases n - i,
    {
        if t[i] == '\r' && i + 1 < n && t[i + 1] == '\n' {
            proof {
                let s = t@.take(i + 2);
                assert(s.take(s.len() - 2) =~= t@.take(i as int));
            }
            out.push('\n');
            i = i + 2;
        } else {
            proof {
                let s = t@.take(i + 1);
                assert(s.drop_last() =~= t@.take(i as int));
                assert(s.last() == t@[i as int]);
                if s.len() >= 2 && s.last() == '\n' {
                    assert(s[s.len() - 2] == t@[i - 1]);
                }
            }
            out.push(t[i]);
            i = i + 1;
        }
    }
    assert(t@.take(n as int) =~= t@);
    out
}

/// The pieces of `t` between `\n` separators.
pub fn split_on_newlines(t: &Vec<char>) -> (r: Vec<Vec<char>>)
    ensures
        r@.len() == split_lines(t@).len(),
        forall|i: int| 0 <= i < r@.len() ==> (#[trigger] r@[i])@ == split_lines(t@)[i],
{
    split_on_char(t, '\n')
}

/// The pieces of `t` between `sep` characters.
pub fn split_on_char(t: &Vec<char>, sep: char) -> (r: Vec<Vec<char>>)
    ensures
        r@.len() == split_on(t@, sep).len(),
        forall|i: int| 0 <= i < r@.len() ==> (#[trigger] r@[i])@ == split_on(t@, sep)[i],
{
    let mut parts: Vec<Vec<char>> = Vec::new();
    let mut cur: Vec<char> = Vec::new();
    let mut i: usize = 0;
    while i < t.len()
        invariant
            i <= t@.len(),
            parts@.len() + 1 == split_on(t@.take(i as int), sep).len(),
            forall|j: int| 0 <= j < parts@.len() ==> (#[trigger] parts@[j])@ == split_on(t@.take(i as int), sep)[j],
            cur@ == split_on(t@.take(i as int), sep).last(),
        decreases t.len() - i,
    {
        let ghost s = t@.take(i + 1);
        proof {
            assert(s.drop_last() =~= t@.take(i as int));
        }
        if t[i] == sep {
            parts.push(cur);
            cur = Vec::new();
        } else {
            cur.push(t[i]);
        }
        i = i + 1;
    }
    assert(t@.take(t@.len() as int) =~= t@);
    parts.push(cur);
    parts
}

} // verus!
