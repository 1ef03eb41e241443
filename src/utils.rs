//! Index conversions between characters and UTF-8 bytes, and small numeric helpers.

use vstd::prelude::*;
use vstd::std_specs::iter::IteratorSpec;
use vstd::string::next_post;
use vstd::utf8::{encode_scalar, encode_utf8};

verus! {

broadcast use vstd::string::group_string_axioms, vstd::string::next_postcondition;

/// The number of bytes of the UTF-8 encoding of `cs`.
pub open spec fn utf8_len(cs: Seq<char>) -> nat {
    encode_utf8(cs).len()
}

pub proof fn lemma_encode_concat(a: Seq<char>, b: Seq<char>)
    ensures
        encode_utf8(a + b) == encode_utf8(a) + encode_utf8(b),
    decreases a.len(),
{
    if a.len() == 0 {
        assert(a + b =~= b);
        assert(encode_utf8(a) =~= Seq::<u8>::empty());
        assert(encode_utf8(a) + encode_utf8(b) =~= encode_utf8(b));
    } else {
        lemma_encode_concat(a.drop_first(), b);
        assert((a + b).drop_first() =~= a.drop_first() + b);
        assert((a + b)[0] == a[0]);
        assert(encode_utf8(a + b) =~= encode_scalar(a[0] as u32) + encode_utf8(a.drop_first() + b));
    }
}

/// Encoding one more character adds the length of that character's encoding.
pub proof fn lemma_utf8_len_step(cs: Seq<char>, k: int)
    requires
        0 <= k < cs.len(),
    ensures
        utf8_len(cs.take(k + 1)) == utf8_len(cs.take(k)) + encode_scalar(cs[k] as u32).len(),
{
    lemma_encode_concat(cs.take(k), seq![cs[k]]);
    assert(cs.take(k + 1) =~= cs.take(k) + seq![cs[k]]);
    assert(seq![cs[k]].drop_first() =~= Seq::<char>::empty());
    assert(encode_utf8(seq![cs[k]]) =~= encode_scalar(cs[k] as u32) + encode_utf8(Seq::<char>::empty()));
}

/// The encoding of a prefix is no longer than the encoding of the whole.
pub proof fn lemma_utf8_len_prefix(cs: Seq<char>, k: int)
    requires
        0 <= k <= cs.len(),
    ensures
        utf8_len(cs.take(k)) <= utf8_len(cs),
{
    lemma_encode_concat(cs.take(k), cs.skip(k));
    assert(cs.take(k) + cs.skip(k) =~= cs);
}

/// The number of UTF-8 bytes that encode `c`.
pub fn char_utf8_width(c: char) -> (r: usize)
    ensures
        r == encode_scalar(c as u32).len(),
        1 <= r <= 4,
{
    let v = c as u32;
    if v <= 0x7f {
        1
    } else if v <= 0x7ff {
        2
    } else if v <= 0xffff {
        proof {
            vstd::utf8::char_is_scalar(c);
        }
        3
    } else {
        4
    }
}

/// The characters of `s`, in order.
pub fn chars_of(s: &str) -> (r: Vec<char>)
    ensures
        r@ == s@,
{
    let mut it = s.chars();
    let mut out: Vec<char> = Vec::new();
    loop
        invariant
            out@ + it.remaining() == s@,
            it.decrease() is Some,
        ensures
            out@ == s@,
        decreases it.decrease()->0,
    {
        let ghost before = it;
        let next = it.next();
        proof {
            assert(next_post(&before, &it, next));
        }
        match next {
            Some(c) => {
                out.push(c);
            },
            None => {
                assert(it.remaining().len() == 0);
                assert(out@ =~= out@ + it.remaining());
                assert(out@ == s@);
                break;
            },
        }
    }
    out
}

/// Converts a character index into the byte offset at which that character starts.
/// An index at or beyond the end gives the length of `s` in bytes.
pub fn char_to_byte_index(s: &str, char_idx: usize) -> (r: usize)
    ensures
        char_idx <= s@.len() ==> r == utf8_len(s@.take(char_idx as int)),
        char_idx > s@.len() ==> r == utf8_len(s@),
{
    let cs = chars_of(s);
    let bytes = s.as_bytes();
    let total = bytes.len();
    assert(total == utf8_len(s@));
    let mut bi: usize = 0;
    let mut ci: usize = 0;
    while ci < cs.len() && ci < char_idx
        invariant
            cs@ == s@,
            total == utf8_len(s@),
            ci <= cs.len(),
            ci <= char_idx,
            bi == utf8_len(s@.take(ci as int)),
        decreases cs.len() - ci,
    {
        proof {
            lemma_utf8_len_step(s@, ci as int);
            lemma_utf8_len_prefix(s@, ci + 1);
        }
        bi = bi + char_utf8_width(cs[ci]);
        ci = ci + 1;
    }
    proof {
        if char_idx <= s@.len() {
            assert(ci == char_idx);
        } else {
            assert(ci == cs.len());
            assert(s@.take(s@.len() as int) =~= s@);
        }
    }
    bi
}

/// Converts a byte offset into a character index: the number of characters whose
/// encoding lies wholly within the first `byte_idx` bytes.
pub fn byte_to_char_index(s: &str, byte_idx: usize) -> (r: usize)
    ensures
        r <= s@.len(),
        utf8_len(s@.take(r as int)) <= byte_idx,
        r < s@.len() ==> utf8_len(s@.take(r + 1)) > byte_idx,
{
    let cs = chars_of(s);
    let bytes = s.as_bytes();
    let total = bytes.len();
    assert(total == utf8_len(s@));
    let mut bi: usize = 0;
    let mut ci: usize = 0;
    while ci < cs.len()
        invariant
            cs@ == s@,
            total == utf8_len(s@),
            ci <= cs.len(),
            bi == utf8_len(s@.take(ci as int)),
            bi <= byte_idx,
        decreases cs.len() - ci,
    {
        proof {
            lemma_utf8_len_step(s@, ci as int);
            lemma_utf8_len_prefix(s@, ci + 1);
        }
        let w = char_utf8_width(cs[ci]);
        if bi + w > byte_idx {
            return ci;
        }
        bi = bi + w;
        ci = ci + 1;
    }
    ci
}

/// The number of decimal digits of `n`.
pub open spec fn spec_digits(n: nat) -> nat
    decreases n,
{
    if n < 10 {
        1
    } else {
        1 + spec_digits(n / 10)
    }
}

pub open spec fn pow10(k: nat) -> nat
    decreases k,
{
    if k == 0 {
        1
    } else {
        10 * pow10((k - 1) as nat)
    }
}

proof fn lemma_digits_below_pow10(n: nat, k: nat)
    requires
        k >= 1,
        n < pow10(k),
    ensures
        spec_digits(n) <= k,
    decreases k,
{
    if n >= 10 {
        let p = pow10((k - 1) as nat);
        assert(k >= 2) by {
            if k == 1 {
                assert(pow10(0) == 1);
                assert(pow10(1) == 10);
            }
        }
        assert(n / 10 < p) by (nonlinear_arith)
            requires
                n < 10 * p,
        ;
        lemma_digits_below_pow10(n / 10, (k - 1) as nat);
    }
}

proof fn lemma_digits_of_usize(n: usize)
    ensures
        1 <= spec_digits(n as nat) <= 20,
{
    reveal_with_fuel(pow10, 21);
    assert(pow10(20) == 100000000000000000000nat);
    lemma_digits_below_pow10(n as nat, 20);
}

/// Number of decimal digits in `n` (sizes the line-number gutter).
pub fn digits(n: usize) -> (r: usize)
    ensures
        r == spec_digits(n as nat),
        1 <= r <= 20,
{
    proof {
        lemma_digits_of_usize(n);
    }
    let mut m = n;
    let mut d: usize = 1;
    while m >= 10
        invariant
            1 <= d,
            spec_digits(m as nat) >= 1,
            d + spec_digits(m as nat) == 1 + spec_digits(n as nat),
            spec_digits(n as nat) <= 20,
        decreases m,
    {
        m = m / 10;
        d = d + 1;
    }
    d
}

/// Clamps `v` into `[lo, hi]`; a negative `v` gives `lo`.
pub fn clamp_usize(v: isize, lo: usize, hi: usize) -> (r: usize)
    ensures
        (v as int) < (lo as int) ==> r == lo,
        (lo as int) <= (v as int) && (v as int) > (hi as int) ==> r == hi,
        (lo as int) <= (v as int) <= (hi as int) ==> r == v,
{
    if (v as i128) < (lo as i128) {
        lo
    } else if (v as i128) > (hi as i128) {
        hi
    } else {
        v as usize
    }
}

/// Clamps `v` into `[lo, hi]`; a negative `v` gives `lo`.
pub fn clamp_usize_i64(v: i64, lo: usize, hi: usize) -> (r: usize)
    ensures
        (v as int) < (lo as int) ==> r == lo,
        (lo as int) <= (v as int) && (v as int) > (hi as int) ==> r == hi,
        (lo as int) <= (v as int) <= (hi as int) ==> r == v,
{
    if (v as i128) < (lo as i128) {
        lo
    } else if (v as i128) > (hi as i128) {
        hi
    } else {
        v as usize
    }
}

/// `p` is a prefix of `s`.
pub open spec fn is_prefix(p: Seq<char>, s: Seq<char>) -> bool {
    p.len() <= s.len() && s.take(p.len() as int) == p
}

/// `ss[i]` ends at `n`, or differs from `ss[0]` there.
pub open spec fn stops_at(ss: Seq<Seq<char>>, i: int, n: int) -> bool {
    n == ss[i].len() || ss[i][n] != ss[0][n]
}

/// `p` is the longest prefix that all of `ss` share; empty for an empty list.
pub open spec fn is_longest_common_prefix(p: Seq<char>, ss: Seq<Seq<char>>) -> bool {
    &&& ss.len() == 0 ==> p.len() == 0
    &&& forall|i: int| 0 <= i < ss.len() ==> is_prefix(p, #[trigger] ss[i])
    &&& ss.len() > 0 ==> (p.len() == ss[0].len() || exists|i: int|
        0 <= i < ss.len() && #[trigger] stops_at(ss, i, p.len() as int))
}

/// The longest prefix that all of `strings` share, counted in characters.
pub fn longest_common_prefix(strings: &Vec<String>) -> (r: String)
    ensures
        is_longest_common_prefix(r@, Seq::new(strings@.len(), |i: int| strings@[i]@)),
{
    let ghost ss = Seq::new(strings@.len(), |i: int| strings@[i]@);
    if strings.len() == 0 {
        return String::new();
    }
    let first = chars_of(strings[0].as_str());
    let mut n = first.len();
    let mut k: usize = 1;
    while k < strings.len()
        invariant
            ss == Seq::new(strings@.len(), |i: int| strings@[i]@),
            1 <= k <= strings@.len(),
            first@ == ss[0],
            n <= first@.len(),
            forall|i: int| 0 <= i < k ==> is_prefix(first@.take(n as int), #[trigger] ss[i]),
            n == first@.len() || exists|i: int| 0 <= i < k && #[trigger] stops_at(ss, i, n as int),
        decreases strings@.len() - k,
    {
        let other = chars_of(strings[k].as_str());
        let mut m: usize = 0;
        while m < n && m < other.len() && first[m] == other[m]
            invariant
                m <= n <= first@.len(),
                m <= other@.len(),
                forall|t: int| 0 <= t < m ==> first@[t] == other@[t],
            decreases n - m,
        {
            m = m + 1;
        }
        proof {
            assert(other@ == ss[k as int]);
            assert(other@.take(m as int) =~= first@.take(m as int));
            assert forall|i: int| 0 <= i < k + 1 implies is_prefix(first@.take(m as int), #[trigger] ss[i]) by {
                if i < k {
                    let a = ss[i];
                    assert(is_prefix(first@.take(n as int), a));
                    assert(a.take(m as int) =~= a.take(n as int).take(m as int));
                    assert(first@.take(m as int) =~= first@.take(n as int).take(m as int));
                } else {
                    assert(ss[i] == other@);
                }
            }
            if m < n {
                assert(stops_at(ss, k as int, m as int));
            } else if n < first@.len() {
                let w = choose|i: int| 0 <= i < k && #[trigger] stops_at(ss, i, n as int);
                assert(stops_at(ss, w, m as int));
            }
        }
        n = m;
        k = k + 1;
    }
    let p = copy_prefix(&first, n);
    proof {
        assert forall|i: int| 0 <= i < ss.len() implies is_prefix(p@, #[trigger] ss[i]) by {
            assert(is_prefix(first@.take(n as int), ss[i]));
        }
        if n < first@.len() {
            let w = choose|i: int| 0 <= i < k && #[trigger] stops_at(ss, i, n as int);
            assert(stops_at(ss, w, p@.len() as int));
        }
    }
    crate::text::string_from_chars(&p)
}

fn copy_prefix(v: &Vec<char>, n: usize) -> (r: Vec<char>)
    requires
        n <= v@.len(),
    ensures
        r@ == v@.take(n as int),
{
    let r = crate::text::copy_range(v, 0, n);
    assert(v@.subrange(0, n as int) =~= v@.take(n as int));
    r
}

pub open spec fn min3(a: int, b: int, c: int) -> int {
    if a <= b && a <= c {
        a
    } else if b <= c {
        b
    } else {
        c
    }
}

/// The edit distance between `a` and `b`: the fewest single-character insertions,
/// deletions and substitutions that turn one into the other.
pub open spec fn lev(a: Seq<char>, b: Seq<char>) -> int
    decreases a.len() + b.len(),
{
    if a.len() == 0 {
        b.len() as int
    } else if b.len() == 0 {
        a.len() as int
    } else {
        let cost: int = if a.last() == b.last() { 0 } else { 1 };
        min3(
            lev(a.drop_last(), b) + 1,
            lev(a, b.drop_last()) + 1,
            lev(a.drop_last(), b.drop_last()) + cost,
        )
    }
}

pub proof fn lemma_lev_bounds(a: Seq<char>, b: Seq<char>)
    ensures
        0 <= lev(a, b) <= if a.len() >= b.len() { a.len() as int } else { b.len() as int },
    decreases a.len() + b.len(),
{
    if a.len() > 0 && b.len() > 0 {
        lemma_lev_bounds(a.drop_last(), b);
        lemma_lev_bounds(a, b.drop_last());
        lemma_lev_bounds(a.drop_last(), b.drop_last());
    }
}

/// The Levenshtein distance between two strings, counted in characters.
pub fn levenshtein_distance(s1: &str, s2: &str) -> (r: usize)
    ensures
        r == lev(s1@, s2@),
{
    let a = chars_of(s1);
    let b = chars_of(s2);
    let n = a.len();
    let m = b.len();
    // after row i, prev[k] == lev(a[..i], b[..k])
    let mut prev: Vec<usize> = Vec::new();
    prev.push(0);
    let mut j: usize = 0;
    while j < m
        invariant
            j <= m,
            m == b@.len(),
            prev@.len() == j + 1,
            forall|k: int| 0 <= k <= j ==> prev@[k] == lev(a@.take(0), b@.take(k)),
        decreases m - j,
    {
        proof {
            assert(a@.take(0).len() == 0);
        }
        prev.push(j + 1);
        j = j + 1;
    }
    let mut i: usize = 0;
    while i < n
        invariant
            i <= n,
            n == a@.len(),
            m == b@.len(),
            prev@.len() == m + 1,
            forall|k: int| 0 <= k <= m ==> prev@[k] == lev(a@.take(i as int), b@.take(k)),
        decreases n - i,
    {
        let mut cur: Vec<usize> = Vec::new();
        proof {
            assert(b@.take(0).len() == 0);
            assert(a@.take(i + 1).len() == i + 1);
        }
        cur.push(i + 1);
        let mut j: usize = 0;
        while j < m
            invariant
                i < n,
                j <= m,
                n == a@.len(),
                m == b@.len(),
                prev@.len() == m + 1,
                cur@.len() == j + 1,
                forall|k: int| 0 <= k <= m ==> prev@[k] == lev(a@.take(i as int), b@.take(k)),
                forall|k: int| 0 <= k <= j ==> cur@[k] == lev(a@.take(i + 1), b@.take(k)),
            decreases m - j,
        {
            let ghost ai = a@.take(i + 1);
            let ghost bj = b@.take(j + 1);
            proof {
                assert(ai.drop_last() =~= a@.take(i as int));
                assert(bj.drop_last() =~= b@.take(j as int));
                assert(ai.last() == a@[i as int]);
                assert(bj.last() == b@[j as int]);
                lemma_lev_bounds(ai, bj);
            }
            let cost: usize = if a[i] == b[j] { 0 } else { 1 };
            let del = prev[j + 1].saturating_add(1);
            let ins = cur[j].saturating_add(1);
            let sub = prev[j].saturating_add(cost);
            let best = if del <= ins && del <= sub {
                del
            } else if ins <= sub {
                ins
            } else {
                sub
            };
            cur.push(best);
            j = j + 1;
        }
        prev = cur;
        i = i + 1;
    }
    proof {
        assert(a@.take(n as int) =~= a@);
        assert(b@.take(m as int) =~= b@);
    }
    prev[m]
}

} // verus!
