use vstd::prelude::*;
use crate::cluster::{wildcard, wildcard_token};
use crate::tokenize::chars_of;

verus! {

pub open spec fn is_digit(c: char) -> bool {
    '0' <= c && c <= '9'
}

/// Length of the run of decimal digits that starts `s`.
pub open spec fn lead_digits(s: Seq<char>) -> nat
    decreases s.len(),
{
    if s.len() > 0 && is_digit(s[0]) {
        1 + lead_digits(s.drop_first())
    } else {
        0
    }
}

/// `s` without one leading `+` or `-`.
pub open spec fn strip_sign(s: Seq<char>) -> Seq<char> {
    if s.len() > 0 && (s[0] == '+' || s[0] == '-') {
        s.drop_first()
    } else {
        s
    }
}

/// Whether `s` spells the word whose lower and upper case forms are `lo`
/// and `up`, in any mix of cases.
pub open spec fn spells(s: Seq<char>, lo: Seq<char>, up: Seq<char>) -> bool {
    s.len() == lo.len() && forall|i: int| 0 <= i < s.len() ==> s[i] == lo[i] || s[i] == up[i]
}

/// `inf`, `infinity` or `nan`, in any case.
pub open spec fn is_special(b: Seq<char>) -> bool {
    spells(b, seq!['i', 'n', 'f'], seq!['I', 'N', 'F'])
        || spells(b, seq!['i', 'n', 'f', 'i', 'n', 'i', 't', 'y'], seq!['I', 'N', 'F', 'I', 'N', 'I', 'T', 'Y'])
        || spells(b, seq!['n', 'a', 'n'], seq!['N', 'A', 'N'])
}

/// Nothing, or `e` (either case), an optional sign and at least one digit.
pub open spec fn is_exponent(r: Seq<char>) -> bool {
    r.len() == 0 || ((r[0] == 'e' || r[0] == 'E') && {
        let x = strip_sign(r.drop_first());
        x.len() > 0 && lead_digits(x) == x.len()
    })
}

/// Digits with an optional point, at least one digit in all, then an
/// optional exponent.
pub open spec fn is_number(b: Seq<char>) -> bool {
    let k = lead_digits(b);
    let r = b.skip(k as int);
    if r.len() > 0 && r[0] == '.' {
        let f = lead_digits(r.drop_first());
        k + f > 0 && is_exponent(r.drop_first().skip(f as int))
    } else {
        k > 0 && is_exponent(r)
    }
}

/// Whether a text reads as a floating-point number: an optional sign, then
/// `inf`, `infinity`, `nan` or a decimal number.
pub open spec fn is_float_text(s: Seq<char>) -> bool {
    is_special(strip_sign(s)) || is_number(strip_sign(s))
}

/// The signature of a first token: the wildcard for a number, else the
/// token itself.
pub open spec fn signature_of(t: Seq<char>) -> Seq<char> {
    if is_float_text(t) {
        wildcard()
    } else {
        t
    }
}

/// Length of the run of digits in `v` from `start` on.
fn digits_from(v: &Vec<char>, start: usize) -> (r: usize)
    requires
        start <= v.len(),
    ensures
        r == lead_digits(v@.skip(start as int)),
        start + r <= v.len(),
{
    let mut i = start;
    while i < v.len() && '0' <= v[i] && v[i] <= '9'
        invariant
            start <= i <= v.len(),
            lead_digits(v@.skip(start as int)) == (i - start) + lead_digits(v@.skip(i as int)),
        decreases v.len() - i,
    {
        assert(v@.skip(i as int).drop_first() =~= v@.skip(i + 1));
        i = i + 1;
    }
    i - start
}

/// Whether `v` from `start` on spells the word with forms `lo` and `up`.
fn spells_from(v: &Vec<char>, start: usize, lo: &[char], up: &[char]) -> (r: bool)
    requires
        start <= v.len(),
        lo@.len() == up@.len(),
    ensures
        r == spells(v@.skip(start as int), lo@, up@),
{
    if v.len() - start != lo.len() {
        return false;
    }
    let mut i: usize = 0;
    while i < lo.len()
        invariant
            v.len() - start == lo@.len() == up@.len(),
            i <= lo@.len(),
            forall|k: int| 0 <= k < i ==> v@.skip(start as int)[k] == lo@[k] || v@.skip(start as int)[k] == up@[k],
        decreases lo.len() - i,
    {
        if v[start + i] != lo[i] && v[start + i] != up[i] {
            return false;
        }
        i = i + 1;
    }
    true
}

/// Whether `v` from `start` on is an exponent part, or nothing.
fn exponent_from(v: &Vec<char>, start: usize) -> (r: bool)
    requires
        start <= v.len(),
    ensures
        r == is_exponent(v@.skip(start as int)),
{
    let ghost r0 = v@.skip(start as int);
    if start == v.len() {
        return true;
    }
    if v[start] != 'e' && v[start] != 'E' {
        return false;
    }
    let mut p = start + 1;
    assert(r0.drop_first() =~= v@.skip(p as int));
    if p < v.len() && (v[p] == '+' || v[p] == '-') {
        assert(v@.skip(p as int).drop_first() =~= v@.skip(p + 1));
        p = p + 1;
    }
    let d = digits_from(v, p);
    assert(v@.skip(p as int).len() == v.len() - p);
    d > 0 && p + d == v.len()
}

/// Whether a text reads as a floating-point number (see `is_float_text`).
pub fn is_float(s: &str) -> (r: bool)
    ensures
        r == is_float_text(s@),
{
    let v = chars_of(s);
    let mut p: usize = 0;
    assert(v@.skip(0) =~= v@);
    if v.len() > 0 && (v[0] == '+' || v[0] == '-') {
        assert(v@.drop_first() =~= v@.skip(1));
        p = 1;
    }
    let ghost b = strip_sign(v@);
    assert(b =~= v@.skip(p as int));
    if spells_from(&v, p, &['i', 'n', 'f'], &['I', 'N', 'F'])
        || spells_from(&v, p, &['i', 'n', 'f', 'i', 'n', 'i', 't', 'y'], &['I', 'N', 'F', 'I', 'N', 'I', 'T', 'Y'])
        || spells_from(&v, p, &['n', 'a', 'n'], &['N', 'A', 'N']) {
        return true;
    }
    let k = digits_from(&v, p);
    let q = p + k;
    assert(b.skip(k as int) =~= v@.skip(q as int));
    if q < v.len() && v[q] == '.' {
        assert(v@.skip(q as int).drop_first() =~= v@.skip(q + 1));
        let f = digits_from(&v, q + 1);
        assert(v@.skip(q + 1).skip(f as int) =~= v@.skip(q + 1 + f));
        k + f > 0 && exponent_from(&v, q + 1 + f)
    } else {
        k > 0 && exponent_from(&v, q)
    }
}

/// The signature of a line's first token.
pub fn signature(first: &String) -> (r: String)
    ensures
        r@ == signature_of(first@),
{
    if is_float(first.as_str()) {
        wildcard_token()
    } else {
        first.clone()
    }
}

} // verus!
