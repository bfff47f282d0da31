//! Recognizer for the decimal floating-point literals that
//! `str::parse::<f64>` accepts:
//!
//! ```text
//! Float  ::= Sign? ( 'inf' | 'infinity' | 'nan' | Number )
//! Number ::= ( Digit+ | Digit+ '.' Digit* | Digit* '.' Digit+ ) Exp?
//! Exp    ::= [eE] Sign? Digit+
//! Sign   ::= [+-]
//! ```
//! (the words case-insensitively). The value itself is left to the caller.

use vstd::prelude::*;

use crate::text::{all_digits, find_char, find_char_in, is_digit, lemma_find_char, slice};

verus! {

/// ASCII lower case of `c`.
pub open spec fn ascii_lower(c: char) -> char {
    if 'A' <= c && c <= 'Z' {
        ((c as int) + 32) as char
    } else {
        c
    }
}

/// `s` equals the lower-case word `w`, ignoring ASCII case.
pub open spec fn eq_ignore_case(s: Seq<char>, w: Seq<char>) -> bool {
    s.len() == w.len() && forall|i: int| 0 <= i < s.len() ==> ascii_lower(#[trigger] s[i]) == w[i]
}

pub open spec fn is_sign(c: char) -> bool {
    c == '+' || c == '-'
}

/// `Digit* '.' Digit*` with a digit somewhere, or `Digit+`.
pub open spec fn is_mantissa(m: Seq<char>) -> bool {
    match find_char(m, '.') {
        None => m.len() > 0 && all_digits(m),
        Some(d) => all_digits(m.take(d)) && all_digits(m.skip(d + 1)) && m.len() > 1,
    }
}

/// `Sign? Digit+`.
pub open spec fn is_exponent(e: Seq<char>) -> bool {
    let d = if e.len() > 0 && is_sign(e[0]) {
        e.drop_first()
    } else {
        e
    };
    d.len() > 0 && all_digits(d)
}

/// Index of the first `e` or `E`.
pub open spec fn find_exp(s: Seq<char>) -> Option<int>
    decreases s.len(),
{
    if s.len() == 0 {
        None
    } else if s[0] == 'e' || s[0] == 'E' {
        Some(0)
    } else {
        match find_exp(s.drop_first()) {
            Some(i) => Some(i + 1),
            None => None,
        }
    }
}

pub open spec fn is_number(b: Seq<char>) -> bool {
    match find_exp(b) {
        None => is_mantissa(b),
        Some(e) => is_mantissa(b.take(e)) && is_exponent(b.skip(e + 1)),
    }
}

/// `s` is a literal that `str::parse::<f64>` accepts.
pub open spec fn is_float_literal(s: Seq<char>) -> bool {
    let b = if s.len() > 0 && is_sign(s[0]) {
        s.drop_first()
    } else {
        s
    };
    ||| eq_ignore_case(b, seq!['i', 'n', 'f'])
    ||| eq_ignore_case(b, seq!['i', 'n', 'f', 'i', 'n', 'i', 't', 'y'])
    ||| eq_ignore_case(b, seq!['n', 'a', 'n'])
    ||| is_number(b)
}

pub proof fn lemma_find_exp(s: Seq<char>)
    ensures
        match find_exp(s) {
            Some(i) => 0 <= i < s.len() && (s[i] == 'e' || s[i] == 'E') && forall|j: int|
                0 <= j < i ==> s[j] != 'e' && s[j] != 'E',
            None => forall|j: int| 0 <= j < s.len() ==> s[j] != 'e' && s[j] != 'E',
        },
    decreases s.len(),
{
    if s.len() > 0 && !(s[0] == 'e' || s[0] == 'E') {
        lemma_find_exp(s.drop_first());
        assert forall|j: int| 0 < j < s.len() implies s[j] == s.drop_first()[j - 1] by {}
    }
}

fn all_digits_in(v: &Vec<char>, lo: usize, hi: usize) -> (b: bool)
    requires
        lo <= hi <= v.len(),
    ensures
        b == all_digits(v@.subrange(lo as int, hi as int)),
{
    let mut i = lo;
    while i < hi
        invariant
            lo <= i <= hi <= v.len(),
            forall|j: int| lo <= j < i ==> is_digit(v@[j]),
        decreases hi - i,
    {
        if !('0' <= v[i] && v[i] <= '9') {
            assert(!is_digit(v@.subrange(lo as int, hi as int)[i - lo]));
            return false;
        }
        i = i + 1;
    }
    assert forall|j: int| 0 <= j < hi - lo implies is_digit(
        #[trigger] v@.subrange(lo as int, hi as int)[j],
    ) by {
        assert(v@.subrange(lo as int, hi as int)[j] == v@[lo + j]);
    }
    true
}

fn is_mantissa_in(m: &Vec<char>) -> (b: bool)
    ensures
        b == is_mantissa(m@),
{
    match find_char_in(m, '.') {
        None => m.len() > 0 && all_digits_in(m, 0, m.len()) && {
            assert(m@.subrange(0, m@.len() as int) =~= m@);
            true
        },
        Some(d) => {
            let left = all_digits_in(m, 0, d);
            let right = all_digits_in(m, d + 1, m.len());
            left && right && m.len() > 1
        },
    }
}

fn is_exponent_in(e: &Vec<char>) -> (b: bool)
    ensures
        b == is_exponent(e@),
{
    let start: usize = if e.len() > 0 && (e[0] == '+' || e[0] == '-') {
        1
    } else {
        0
    };
    assert(e@.subrange(start as int, e@.len() as int) =~= (if e@.len() > 0 && is_sign(e@[0]) {
        e@.drop_first()
    } else {
        e@
    }));
    start < e.len() && all_digits_in(e, start, e.len())
}

fn eq_ignore_case_in(s: &Vec<char>, lo: usize, w: &str) -> (b: bool)
    requires
        lo <= s.len(),
        w@.len() <= 16,
    ensures
        b == eq_ignore_case(s@.skip(lo as int), w@),
{
    let wv = crate::text::chars_of(w);
    if s.len() - lo != wv.len() {
        return false;
    }
    let mut i: usize = 0;
    while i < wv.len()
        invariant
            i <= wv.len(),
            lo + wv.len() == s.len(),
            wv@ == w@,
            forall|j: int| 0 <= j < i ==> ascii_lower(s@[lo + j]) == wv@[j],
        decreases wv.len() - i,
    {
        let c = s[lo + i];
        let lc = if 'A' <= c && c <= 'Z' {
            ((c as u8) + 32u8) as char
        } else {
            c
        };
        assert(lc == ascii_lower(c));
        if lc != wv[i] {
            assert(s@.skip(lo as int)[i as int] == c);
            return false;
        }
        i = i + 1;
    }
    assert forall|j: int| 0 <= j < s@.skip(lo as int).len() implies ascii_lower(
        #[trigger] s@.skip(lo as int)[j],
    ) == w@[j] by {
        assert(s@.skip(lo as int)[j] == s@[lo + j]);
    }
    true
}

/// Whether `s` is a literal that `str::parse::<f64>` accepts.
pub fn is_float_literal_in(s: &Vec<char>) -> (b: bool)
    ensures
        b == is_float_literal(s@),
{
    let lo: usize = if s.len() > 0 && (s[0] == '+' || s[0] == '-') {
        1
    } else {
        0
    };
    let ghost b = if s@.len() > 0 && is_sign(s@[0]) {
        s@.drop_first()
    } else {
        s@
    };
    assert(s@.skip(lo as int) =~= b);
    proof {
        reveal_strlit("inf");
        reveal_strlit("infinity");
        reveal_strlit("nan");
    }
    assert("inf"@ =~= seq!['i', 'n', 'f']);
    assert("infinity"@ =~= seq!['i', 'n', 'f', 'i', 'n', 'i', 't', 'y']);
    assert("nan"@ =~= seq!['n', 'a', 'n']);
    if eq_ignore_case_in(s, lo, "inf") || eq_ignore_case_in(s, lo, "infinity") || eq_ignore_case_in(
        s,
        lo,
        "nan",
    ) {
        return true;
    }
    let body = slice(s, lo, s.len());
    let mut e: usize = 0;
    while e < body.len() && body[e] != 'e' && body[e] != 'E'
        invariant
            e <= body.len(),
            forall|j: int| 0 <= j < e ==> body@[j] != 'e' && body@[j] != 'E',
        decreases body.len() - e,
    {
        e = e + 1;
    }
    proof {
        lemma_find_exp(body@);
    }
    if e == body.len() {
        assert(find_exp(body@) is None);
        is_mantissa_in(&body)
    } else {
        assert(find_exp(body@) == Some(e as int));
        let m = slice(&body, 0, e);
        let x = slice(&body, e + 1, body.len());
        is_mantissa_in(&m) && is_exponent_in(&x)
    }
}

} // verus!
