//! Key-binding names as plugin manifests write them ("ctrl+s", "CTRL + Shift+u"),
//! brought into the canonical form the key handler produces ("Ctrl+S").

use vstd::prelude::*;
use crate::boundary::{is_white_space, white_space};
use crate::buffer::join_with;
use crate::text::{append_chars, chars_eq_str, copy_range, split_on, split_on_char, string_from_chars};
use crate::types::{lowercase_of, to_lowercase};
use crate::utils::chars_of;

verus! {

/// The first index at or after `i` that is not white space.
pub open spec fn trim_front(p: Seq<char>, i: int) -> int
    decreases p.len() - i,
{
    if 0 <= i < p.len() && white_space(p[i]) {
        trim_front(p, i + 1)
    } else {
        i
    }
}

/// The end of `p[..j]` once trailing white space is dropped.
pub open spec fn trim_back(p: Seq<char>, j: int) -> int
    decreases j,
{
    if 0 < j <= p.len() && white_space(p[j - 1]) {
        trim_back(p, j - 1)
    } else {
        j
    }
}

/// `p` without leading and trailing white space.
pub open spec fn trim_ws(p: Seq<char>) -> Seq<char> {
    let a = trim_front(p, 0);
    let b = trim_back(p, p.len() as int);
    if a < b { p.subrange(a, b) } else { Seq::<char>::empty() }
}

pub open spec fn is_ascii_digit(c: char) -> bool {
    0x30 <= (c as u32) <= 0x39
}

/// `c` with an ASCII lower-case letter made upper-case.
pub open spec fn ascii_upper(c: char) -> char {
    if 0x61 <= (c as u32) <= 0x7a { (((c as u32) - 32) as u8) as char } else { c }
}

/// The canonical name of a named key, given in lower case.
pub open spec fn named_key(l: Seq<char>) -> Option<Seq<char>> {
    if l == "enter"@ {
        Some("Enter"@)
    } else if l == "esc"@ || l == "escape"@ {
        Some("Esc"@)
    } else if l == "backspace"@ {
        Some("Backspace"@)
    } else if l == "delete"@ || l == "del"@ {
        Some("Delete"@)
    } else if l == "tab"@ {
        Some("Tab"@)
    } else if l == "left"@ {
        Some("Left"@)
    } else if l == "right"@ {
        Some("Right"@)
    } else if l == "up"@ {
        Some("Up"@)
    } else if l == "down"@ {
        Some("Down"@)
    } else if l == "home"@ {
        Some("Home"@)
    } else if l == "end"@ {
        Some("End"@)
    } else if l == "pageup"@ {
        Some("PageUp"@)
    } else if l == "pagedown"@ {
        Some("PageDown"@)
    } else {
        None
    }
}

/// The canonical name of the key part `part`, whose lower-case form is `l`: a
/// named key, a single ASCII character upper-cased, a function key `F<digits>`,
/// or else the part as written.
pub open spec fn key_name(l: Seq<char>, part: Seq<char>) -> Seq<char> {
    match named_key(l) {
        Some(n) => n,
        None => if l.len() == 1 && (l[0] as u32) < 0x80 {
            seq![ascii_upper(l[0])]
        } else if l.len() >= 1 && l[0] == 'f' && forall|i: int| 1 <= i < l.len() ==> is_ascii_digit(#[trigger] l[i]) {
            seq!['F'] + l.skip(1)
        } else {
            part
        },
    }
}

/// Modifiers and key after the first `k` parts: Ctrl, Alt, Shift and the last
/// key named.
pub open spec fn chord_after(parts: Seq<Seq<char>>, k: int) -> (bool, bool, bool, Option<Seq<char>>)
    decreases k,
{
    if k <= 0 {
        (false, false, false, None)
    } else {
        let st = chord_after(parts, k - 1);
        let p = trim_ws(parts[k - 1]);
        let l = lowercase_of(p);
        if p.len() == 0 {
            st
        } else if l == "ctrl"@ || l == "control"@ {
            (true, st.1, st.2, st.3)
        } else if l == "alt"@ {
            (st.0, true, st.2, st.3)
        } else if l == "shift"@ {
            (st.0, st.1, true, st.3)
        } else {
            (st.0, st.1, st.2, Some(key_name(l, p)))
        }
    }
}

/// The pieces of the canonical form: the modifiers in the order Ctrl, Alt,
/// Shift, then the key (`?` when none was named).
pub open spec fn chord_pieces(st: (bool, bool, bool, Option<Seq<char>>)) -> Seq<Seq<char>> {
    let a = if st.0 { seq!["Ctrl"@] } else { Seq::<Seq<char>>::empty() };
    let b = if st.1 { a.push("Alt"@) } else { a };
    let c = if st.2 { b.push("Shift"@) } else { b };
    c.push(
        match st.3 {
            Some(k) => k,
            None => "?"@,
        },
    )
}

/// The canonical form of the key binding `s`.
pub open spec fn normalized_key(s: Seq<char>) -> Seq<char> {
    let parts = split_on(s, '+');
    join_with(chord_pieces(chord_after(parts, parts.len() as int)), seq!['+'])
}

/// `p` without leading and trailing white space.
fn trim_chars(p: &Vec<char>) -> (r: Vec<char>)
    ensures
        r@ == trim_ws(p@),
{
    let n = p.len();
    let mut a: usize = 0;
    while a < n && is_white_space(p[a])
        invariant
            a <= n,
            n == p@.len(),
            trim_front(p@, 0) == trim_front(p@, a as int),
        decreases n - a,
    {
        a = a + 1;
    }
    let mut b: usize = n;
    while b > 0 && is_white_space(p[b - 1])
        invariant
            b <= n,
            n == p@.len(),
            trim_back(p@, n as int) == trim_back(p@, b as int),
        decreases b,
    {
        b = b - 1;
    }
    if a < b {
        copy_range(p, a, b)
    } else {
        Vec::new()
    }
}

fn ascii_upper_of(c: char) -> (r: char)
    ensures
        r == ascii_upper(c),
{
    let v = c as u32;
    if 0x61 <= v && v <= 0x7a {
        ((v - 32) as u8) as char
    } else {
        c
    }
}

/// The canonical name of a named key given in lower case.
fn named_key_of(l: &Vec<char>) -> (r: Option<Vec<char>>)
    ensures
        match named_key(l@) {
            Some(n) => r matches Some(v) && v@ == n,
            None => r is None,
        },
{
    if chars_eq_str(l, "enter") {
        Some(chars_of("Enter"))
    } else if chars_eq_str(l, "esc") || chars_eq_str(l, "escape") {
        Some(chars_of("Esc"))
    } else if chars_eq_str(l, "backspace") {
        Some(chars_of("Backspace"))
    } else if chars_eq_str(l, "delete") || chars_eq_str(l, "del") {
        Some(chars_of("Delete"))
    } else if chars_eq_str(l, "tab") {
        Some(chars_of("Tab"))
    } else if chars_eq_str(l, "left") {
        Some(chars_of("Left"))
    } else if chars_eq_str(l, "right") {
        Some(chars_of("Right"))
    } else if chars_eq_str(l, "up") {
        Some(chars_of("Up"))
    } else if chars_eq_str(l, "down") {
        Some(chars_of("Down"))
    } else if chars_eq_str(l, "home") {
        Some(chars_of("Home"))
    } else if chars_eq_str(l, "end") {
        Some(chars_of("End"))
    } else if chars_eq_str(l, "pageup") {
        Some(chars_of("PageUp"))
    } else if chars_eq_str(l, "pagedown") {
        Some(chars_of("PageDown"))
    } else {
        None
    }
}

fn key_name_of(l: &Vec<char>, part: &Vec<char>) -> (r: Vec<char>)
    ensures
        r@ == key_name(l@, part@),
{
    match named_key_of(l) {
        Some(n) => n,
        None => {
            if l.len() == 1 && (l[0] as u32) < 0x80 {
                let mut r: Vec<char> = Vec::new();
                r.push(ascii_upper_of(l[0]));
                assert(r@ =~= seq![ascii_upper(l@[0])]);
                return r;
            }
            if l.len() >= 1 && l[0] == 'f' {
                let mut i: usize = 1;
                while i < l.len() && 0x30 <= (l[i] as u32) && (l[i] as u32) <= 0x39
                    invariant
                        1 <= i <= l@.len(),
                        forall|t: int| 1 <= t < i ==> is_ascii_digit(#[trigger] l@[t]),
                    decreases l@.len() - i,
                {
                    i = i + 1;
                }
                if i == l.len() {
                    let mut r: Vec<char> = Vec::new();
                    r.push('F');
                    let rest = copy_range(l, 1, l.len());
                    append_chars(&mut r, &rest);
                    assert(r@ =~= seq!['F'] + l@.skip(1));
                    return r;
                }
                assert(!is_ascii_digit(l@[i as int]));
            }
            copy_range(part, 0, part.len())
        },
    }
}

/// Joins `pieces` with `+`.
fn join_plus(pieces: &Vec<Vec<char>>) -> (r: Vec<char>)
    requires
        pieces@.len() >= 1,
    ensures
        r@ == join_with(Seq::new(pieces@.len(), |i: int| pieces@[i]@), seq!['+']),
{
    let ghost ps = Seq::new(pieces@.len(), |i: int| pieces@[i]@);
    let mut sep: Vec<char> = Vec::new();
    sep.push('+');
    assert(sep@ =~= seq!['+']);
    let mut out = copy_range(&pieces[0], 0, pieces[0].len());
    assert(ps.take(1).drop_last() =~= Seq::<Seq<char>>::empty());
    let mut i: usize = 1;
    while i < pieces.len()
        invariant
            ps == Seq::new(pieces@.len(), |i: int| pieces@[i]@),
            1 <= i <= pieces@.len(),
            sep@ == seq!['+'],
            out@ == join_with(ps.take(i as int), seq!['+']),
        decreases pieces@.len() - i,
    {
        append_chars(&mut out, &sep);
        append_chars(&mut out, &pieces[i]);
        i = i + 1;
        assert(ps.take(i as int).drop_last() =~= ps.take(i - 1));
    }
    assert(ps.take(pieces@.len() as int) =~= ps);
    out
}

/// Brings a key binding as written in a plugin manifest into canonical form:
/// parts split at `+` and trimmed, empty parts skipped, modifiers (`ctrl` or
/// `control`, `alt`, `shift`, in any case) ordered Ctrl, Alt, Shift, and the last
/// other part named as the key (`?` when there is none).
pub fn normalize_key_string(s: &str) -> (r: String)
    ensures
        r@ == normalized_key(s@),
{
    let cs = chars_of(s);
    let parts = split_on_char(&cs, '+');
    let ghost ps = split_on(s@, '+');
    let mut ctrl = false;
    let mut alt = false;
    let mut shift = false;
    let mut key: Option<Vec<char>> = None;
    let mut k: usize = 0;
    while k < parts.len()
        invariant
            ps == split_on(s@, '+'),
            parts@.len() == ps.len(),
            forall|i: int| 0 <= i < parts@.len() ==> (#[trigger] parts@[i])@ == ps[i],
            k <= parts@.len(),
            ({
                let st = chord_after(ps, k as int);
                &&& ctrl == st.0
                &&& alt == st.1
                &&& shift == st.2
                &&& match st.3 {
                    Some(n) => key matches Some(v) && v@ == n,
                    None => key is None,
                }
            }),
        decreases parts@.len() - k,
    {
        let p = trim_chars(&parts[k]);
        if p.len() > 0 {
            let ps_str = string_from_chars(&p);
            let lower = to_lowercase(ps_str.as_str());
            let l = chars_of(lower.as_str());
            if chars_eq_str(&l, "ctrl") || chars_eq_str(&l, "control") {
                ctrl = true;
            } else if chars_eq_str(&l, "alt") {
                alt = true;
            } else if chars_eq_str(&l, "shift") {
                shift = true;
            } else {
                key = Some(key_name_of(&l, &p));
            }
        }
        k = k + 1;
    }
    let mut pieces: Vec<Vec<char>> = Vec::new();
    if ctrl {
        pieces.push(chars_of("Ctrl"));
    }
    if alt {
        pieces.push(chars_of("Alt"));
    }
    if shift {
        pieces.push(chars_of("Shift"));
    }
    match key {
        Some(v) => pieces.push(v),
        None => pieces.push(chars_of("?")),
    }
    let ghost st = chord_after(ps, ps.len() as int);
    assert(Seq::new(pieces@.len(), |i: int| pieces@[i]@) =~= chord_pieces(st));
    let out = join_plus(&pieces);
    string_from_chars(&out)
}

} // verus!
