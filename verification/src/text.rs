//! Character and string primitives with exact specifications.
//!
//! Text is modelled as `Seq<char>`; executable code works on `Vec<char>`
//! copies of `&str` inputs and builds `String` outputs char by char.

use vstd::prelude::*;

verus! {

broadcast use vstd::string::group_string_axioms;

// ───────────────────────────── characters ─────────────────────────────

/// Unicode `White_Space` property (what `char::is_whitespace` tests).
pub open spec fn is_ws(c: char) -> bool {
    ||| ('\u{9}' <= c && c <= '\u{d}')
    ||| c == ' '
    ||| c == '\u{85}'
    ||| c == '\u{a0}'
    ||| c == '\u{1680}'
    ||| ('\u{2000}' <= c && c <= '\u{200a}')
    ||| c == '\u{2028}'
    ||| c == '\u{2029}'
    ||| c == '\u{202f}'
    ||| c == '\u{205f}'
    ||| c == '\u{3000}'
}

pub fn char_is_ws(c: char) -> (b: bool)
    ensures
        b == is_ws(c),
{
    ('\u{9}' <= c && c <= '\u{d}') || c == ' ' || c == '\u{85}' || c == '\u{a0}' || c
        == '\u{1680}' || ('\u{2000}' <= c && c <= '\u{200a}') || c == '\u{2028}' || c
        == '\u{2029}' || c == '\u{202f}' || c == '\u{205f}' || c == '\u{3000}'
}

pub open spec fn is_digit(c: char) -> bool {
    '0' <= c && c <= '9'
}

pub open spec fn all_digits(s: Seq<char>) -> bool {
    forall|i: int| 0 <= i < s.len() ==> #[trigger] is_digit(s[i])
}

/// Numeric value of an ASCII digit.
pub open spec fn digit_val(c: char) -> nat {
    (c as int - '0' as int) as nat
}

/// The ASCII digit for `d < 10`.
pub open spec fn digit_char(d: nat) -> char {
    (d + 48) as char
}

/// Number of bytes of `c` in UTF-8.
pub open spec fn utf8_len(c: char) -> nat {
    if (c as int) < 0x80 {
        1
    } else if (c as int) < 0x800 {
        2
    } else if (c as int) < 0x10000 {
        3
    } else {
        4
    }
}

/// Number of bytes of `s` in UTF-8.
pub open spec fn utf8_bytes(s: Seq<char>) -> nat
    decreases s.len(),
{
    if s.len() == 0 {
        0
    } else {
        utf8_bytes(s.drop_last()) + utf8_len(s.last())
    }
}

// ───────────────────────────── searching ──────────────────────────────

/// Index of the first occurrence of `c` in `s`.
pub open spec fn find_char(s: Seq<char>, c: char) -> Option<int>
    decreases s.len(),
{
    if s.len() == 0 {
        None
    } else if s[0] == c {
        Some(0)
    } else {
        match find_char(s.drop_first(), c) {
            Some(i) => Some(i + 1),
            None => None,
        }
    }
}

pub open spec fn has_char(s: Seq<char>, c: char) -> bool {
    exists|i: int| 0 <= i < s.len() && s[i] == c
}

pub proof fn lemma_find_char(s: Seq<char>, c: char)
    ensures
        match find_char(s, c) {
            Some(i) => 0 <= i < s.len() && s[i] == c && forall|j: int| 0 <= j < i ==> s[j] != c,
            None => forall|j: int| 0 <= j < s.len() ==> s[j] != c,
        },
        find_char(s, c) is Some <==> has_char(s, c),
    decreases s.len(),
{
    if s.len() > 0 && s[0] != c {
        lemma_find_char(s.drop_first(), c);
        assert forall|j: int| 0 < j < s.len() implies s[j] == s.drop_first()[j - 1] by {}
        if find_char(s, c) is None {
            assert forall|j: int| 0 <= j < s.len() implies s[j] != c by {
                if j > 0 {
                    assert(s[j] == s.drop_first()[j - 1]);
                }
            }
        }
        if has_char(s, c) {
            let k = choose|i: int| 0 <= i < s.len() && s[i] == c;
            assert(s.drop_first()[k - 1] == c);
        }
    }
}

/// First index of `c` in `v`.
pub fn find_char_in(v: &Vec<char>, c: char) -> (r: Option<usize>)
    ensures
        match r {
            Some(i) => i < v.len() && v@[i as int] == c && find_char(v@, c) == Some(i as int),
            None => find_char(v@, c) is None,
        },
{
    proof {
        lemma_find_char(v@, c);
    }
    let mut i: usize = 0;
    while i < v.len()
        invariant
            i <= v.len(),
            forall|j: int| 0 <= j < i ==> v@[j] != c,
        decreases v.len() - i,
    {
        if v[i] == c {
            proof {
                lemma_find_char(v@, c);
            }
            return Some(i);
        }
        i = i + 1;
    }
    None
}

/// Whether `v` holds `c`.
pub fn has_char_in(v: &Vec<char>, c: char) -> (b: bool)
    ensures
        b == has_char(v@, c),
{
    proof {
        lemma_find_char(v@, c);
    }
    find_char_in(v, c).is_some()
}

/// `p` occurs in `s` at index `i`.
pub open spec fn matches_at(s: Seq<char>, p: Seq<char>, i: int) -> bool {
    0 <= i && i + p.len() <= s.len() && s.subrange(i, i + p.len()) == p
}

/// `p` occurs in `s`.
pub open spec fn contains(s: Seq<char>, p: Seq<char>) -> bool {
    exists|i: int| matches_at(s, p, i)
}

pub open spec fn starts_with(s: Seq<char>, p: Seq<char>) -> bool {
    matches_at(s, p, 0)
}

/// Whether `p` occurs in `v` at index `i`.
pub fn matches_at_in(v: &Vec<char>, p: &Vec<char>, i: usize) -> (b: bool)
    ensures
        b == matches_at(v@, p@, i as int),
{
    if i > v.len() || p.len() > v.len() - i {
        return false;
    }
    let mut k: usize = 0;
    while k < p.len()
        invariant
            k <= p.len(),
            i + p.len() <= v.len(),
            forall|j: int| 0 <= j < k ==> v@[i + j] == p@[j],
        decreases p.len() - k,
    {
        if v[i + k] != p[k] {
            assert(v@.subrange(i as int, i + p.len())[k as int] != p@[k as int]);
            return false;
        }
        k = k + 1;
    }
    assert(v@.subrange(i as int, i + p.len()) =~= p@);
    true
}

/// Whether `v` starts with `p`.
pub fn starts_with_in(v: &Vec<char>, p: &Vec<char>) -> (b: bool)
    ensures
        b == starts_with(v@, p@),
{
    matches_at_in(v, p, 0)
}

/// Whether `p` occurs anywhere in `v`.
pub fn contains_in(v: &Vec<char>, p: &Vec<char>) -> (b: bool)
    ensures
        b == contains(v@, p@),
{
    if p.len() > v.len() {
        return false;
    }
    if p.len() == 0 {
        assert(v@.subrange(0, 0) =~= p@);
        assert(matches_at(v@, p@, 0));
        return true;
    }
    let mut i: usize = 0;
    while i <= v.len() - p.len()
        invariant
            1 <= p.len() <= v.len(),
            i <= v.len() - p.len() + 1,
            forall|j: int| 0 <= j < i ==> !matches_at(v@, p@, j),
        decreases v.len() - p.len() + 1 - i,
    {
        if matches_at_in(v, p, i) {
            return true;
        }
        i = i + 1;
    }
    false
}

/// Index of the first occurrence of `p` in `s`.
pub open spec fn find_seq(s: Seq<char>, p: Seq<char>) -> Option<int>
    decreases s.len(),
{
    if p.len() > s.len() {
        None
    } else if s.take(p.len() as int) == p {
        Some(0)
    } else if s.len() == 0 {
        None
    } else {
        match find_seq(s.drop_first(), p) {
            Some(i) => Some(i + 1),
            None => None,
        }
    }
}

pub proof fn lemma_find_seq(s: Seq<char>, p: Seq<char>)
    ensures
        match find_seq(s, p) {
            Some(i) => matches_at(s, p, i) && forall|j: int| 0 <= j < i ==> !matches_at(s, p, j),
            None => forall|j: int| !matches_at(s, p, j),
        },
    decreases s.len(),
{
    if p.len() <= s.len() && s.take(p.len() as int) != p && s.len() > 0 {
        lemma_find_seq(s.drop_first(), p);
        assert forall|j: int| 0 < j implies matches_at(s, p, j) == matches_at(
            s.drop_first(),
            p,
            j - 1,
        ) by {
            if 0 <= j - 1 && j - 1 + p.len() <= s.drop_first().len() {
                assert(s.drop_first().subrange(j - 1, j - 1 + p.len()) =~= s.subrange(
                    j,
                    j + p.len(),
                ));
            }
        }
        assert(!matches_at(s, p, 0));
    }
}

/// First index of `p` in `v`.
pub fn find_seq_in(v: &Vec<char>, p: &Vec<char>) -> (r: Option<usize>)
    ensures
        match r {
            Some(i) => find_seq(v@, p@) == Some(i as int),
            None => find_seq(v@, p@) is None,
        },
{
    proof {
        lemma_find_seq(v@, p@);
    }
    if p.len() > v.len() {
        return None;
    }
    if p.len() == 0 {
        assert(v@.subrange(0, 0) =~= p@);
        return Some(0);
    }
    let mut i: usize = 0;
    while i <= v.len() - p.len()
        invariant
            1 <= p.len() <= v.len(),
            i <= v.len() - p.len() + 1,
            forall|j: int| 0 <= j < i ==> !matches_at(v@, p@, j),
        decreases v.len() - p.len() + 1 - i,
    {
        if matches_at_in(v, p, i) {
            proof {
                lemma_find_seq(v@, p@);
            }
            return Some(i);
        }
        i = i + 1;
    }
    None
}

// ───────────────────────────── trimming ───────────────────────────────

/// Number of leading whitespace characters.
pub open spec fn lead_ws(s: Seq<char>) -> nat
    decreases s.len(),
{
    if s.len() > 0 && is_ws(s[0]) {
        1 + lead_ws(s.drop_first())
    } else {
        0
    }
}

/// Number of trailing whitespace characters.
pub open spec fn trail_ws(s: Seq<char>) -> nat
    decreases s.len(),
{
    if s.len() > 0 && is_ws(s.last()) {
        1 + trail_ws(s.drop_last())
    } else {
        0
    }
}

/// `str::trim_start`.
pub open spec fn trim_start(s: Seq<char>) -> Seq<char> {
    s.skip(lead_ws(s) as int)
}

/// `str::trim_end`.
pub open spec fn trim_end(s: Seq<char>) -> Seq<char> {
    s.take(s.len() - trail_ws(s))
}

/// `str::trim`.
pub open spec fn trim(s: Seq<char>) -> Seq<char> {
    trim_end(trim_start(s))
}

pub proof fn lemma_lead_ws(s: Seq<char>, k: int)
    requires
        0 <= k <= s.len(),
        forall|j: int| 0 <= j < k ==> is_ws(s[j]),
        k == s.len() || !is_ws(s[k]),
    ensures
        lead_ws(s) == k,
    decreases k,
{
    if k > 0 {
        assert forall|j: int| 0 <= j < k - 1 implies is_ws(s.drop_first()[j]) by {
            assert(s.drop_first()[j] == s[j + 1]);
        }
        if k < s.len() {
            assert(s.drop_first()[k - 1] == s[k]);
        }
        lemma_lead_ws(s.drop_first(), k - 1);
    }
}

pub proof fn lemma_trail_ws(s: Seq<char>, k: int)
    requires
        0 <= k <= s.len(),
        forall|j: int| s.len() - k <= j < s.len() ==> is_ws(s[j]),
        k == s.len() || !is_ws(s[s.len() - 1 - k]),
    ensures
        trail_ws(s) == k,
    decreases k,
{
    if k > 0 {
        assert forall|j: int| s.len() - 1 - (k - 1) <= j < s.len() - 1 implies is_ws(
            s.drop_last()[j],
        ) by {
            assert(s.drop_last()[j] == s[j]);
        }
        if k < s.len() {
            assert(s.drop_last()[s.len() - 1 - k] == s[s.len() - 1 - k]);
        }
        lemma_trail_ws(s.drop_last(), k - 1);
    }
}

pub proof fn lemma_lead_ws_bound(s: Seq<char>)
    ensures
        lead_ws(s) <= s.len(),
    decreases s.len(),
{
    if s.len() > 0 && is_ws(s[0]) {
        lemma_lead_ws_bound(s.drop_first());
    }
}

pub proof fn lemma_trail_ws_bound(s: Seq<char>)
    ensures
        trail_ws(s) <= s.len(),
    decreases s.len(),
{
    if s.len() > 0 && is_ws(s.last()) {
        lemma_trail_ws_bound(s.drop_last());
    }
}

/// Copy of `v[lo..hi]`.
pub fn slice(v: &Vec<char>, lo: usize, hi: usize) -> (r: Vec<char>)
    requires
        lo <= hi <= v.len(),
    ensures
        r@ == v@.subrange(lo as int, hi as int),
{
    let mut r: Vec<char> = Vec::new();
    let mut i = lo;
    while i < hi
        invariant
            lo <= i <= hi <= v.len(),
            r@ == v@.subrange(lo as int, i as int),
        decreases hi - i,
    {
        r.push(v[i]);
        assert(r@ =~= v@.subrange(lo as int, i + 1));
        i = i + 1;
    }
    r
}

/// Number of leading whitespace characters of `v`.
pub fn lead_ws_in(v: &Vec<char>) -> (k: usize)
    ensures
        k == lead_ws(v@),
{
    let mut k: usize = 0;
    while k < v.len() && char_is_ws(v[k])
        invariant
            k <= v.len(),
            forall|j: int| 0 <= j < k ==> is_ws(v@[j]),
        decreases v.len() - k,
    {
        k = k + 1;
    }
    proof {
        lemma_lead_ws(v@, k as int);
    }
    k
}

/// Number of trailing whitespace characters of `v`.
pub fn trail_ws_in(v: &Vec<char>) -> (k: usize)
    ensures
        k == trail_ws(v@),
{
    let mut k: usize = 0;
    while k < v.len() && char_is_ws(v[v.len() - 1 - k])
        invariant
            k <= v.len(),
            forall|j: int| v.len() - k <= j < v.len() ==> is_ws(v@[j]),
        decreases v.len() - k,
    {
        k = k + 1;
    }
    proof {
        lemma_trail_ws(v@, k as int);
    }
    k
}

/// `str::trim_start` on a char vector.
pub fn trim_start_in(v: &Vec<char>) -> (r: Vec<char>)
    ensures
        r@ == trim_start(v@),
{
    let k = lead_ws_in(v);
    proof {
        lemma_lead_ws_bound(v@);
    }
    slice(v, k, v.len())
}

/// `str::trim_end` on a char vector.
pub fn trim_end_in(v: &Vec<char>) -> (r: Vec<char>)
    ensures
        r@ == trim_end(v@),
{
    let k = trail_ws_in(v);
    proof {
        lemma_trail_ws_bound(v@);
    }
    slice(v, 0, v.len() - k)
}

/// `str::trim` on a char vector.
pub fn trim_in(v: &Vec<char>) -> (r: Vec<char>)
    ensures
        r@ == trim(v@),
{
    let s = trim_start_in(v);
    trim_end_in(&s)
}

/// The last character of `s` is whitespace.
pub open spec fn ends_with_ws(s: Seq<char>) -> bool {
    s.len() > 0 && is_ws(s.last())
}

// ──────────────────────────── conversions ─────────────────────────────

/// The optional text of an optional `String`.
pub open spec fn opt_str_view(o: Option<String>) -> Option<Seq<char>> {
    match o {
        Some(s) => Some(s@),
        None => None,
    }
}

/// The texts of a sequence of `String`s.
pub open spec fn strings_view(v: Seq<String>) -> Seq<Seq<char>> {
    v.map_values(|s: String| s@)
}

/// The characters of `s`.
pub fn chars_of(s: &str) -> (v: Vec<char>)
    ensures
        v@ == s@,
{
    let mut v: Vec<char> = Vec::new();
    for c in it: s.chars()
        invariant
            it.seq() == s@,
            v@ == it.seq().take(it.index() as int),
    {
        v.push(c);
        assert(v@ =~= it.seq().take(it.index() + 1));
    }
    assert(v@ =~= s@);
    v
}

/// Appends `c` to `s` (`String::push`).
#[verifier::external_body]
pub fn push_char(s: &mut String, c: char)
    ensures
        final(s)@ == old(s)@.push(c),
{
    s.push(c);
}

/// Appends the characters of `v` to `s`.
pub fn push_chars(s: &mut String, v: &Vec<char>)
    ensures
        final(s)@ == old(s)@ + v@,
{
    let ghost s0 = s@;
    let mut i: usize = 0;
    while i < v.len()
        invariant
            i <= v.len(),
            s@ == s0 + v@.take(i as int),
        decreases v.len() - i,
    {
        push_char(s, v[i]);
        assert(v@.take(i + 1) =~= v@.take(i as int).push(v@[i as int]));
        i = i + 1;
    }
    assert(v@.take(v.len() as int) =~= v@);
}

/// A `String` holding the characters of `v`.
pub fn string_of(v: &Vec<char>) -> (s: String)
    ensures
        s@ == v@,
{
    let mut s = String::new();
    push_chars(&mut s, v);
    assert(s@ =~= v@);
    s
}

/// First index `>= from` of `c` in `v`.
pub fn find_char_from(v: &Vec<char>, c: char, from: usize) -> (r: Option<usize>)
    requires
        from <= v.len(),
    ensures
        match r {
            Some(i) => from <= i < v.len() && find_char(v@.skip(from as int), c) == Some(i - from),
            None => find_char(v@.skip(from as int), c) is None,
        },
{
    let ghost t = v@.skip(from as int);
    let mut i: usize = from;
    while i < v.len()
        invariant
            from <= i <= v.len(),
            t == v@.skip(from as int),
            forall|j: int| from <= j < i ==> v@[j] != c,
        decreases v.len() - i,
    {
        if v[i] == c {
            proof {
                lemma_find_char(t, c);
                assert(t[i - from] == c);
                assert forall|j: int| 0 <= j < i - from implies t[j] != c by {
                    assert(t[j] == v@[j + from]);
                }
            }
            return Some(i);
        }
        i = i + 1;
    }
    proof {
        lemma_find_char(t, c);
        assert forall|j: int| 0 <= j < t.len() implies t[j] != c by {
            assert(t[j] == v@[j + from]);
        }
    }
    None
}

// ─────────────────────────────── lines ────────────────────────────────

/// Drops one trailing carriage return.
pub open spec fn strip_cr(l: Seq<char>) -> Seq<char> {
    if l.len() > 0 && l.last() == '\r' {
        l.drop_last()
    } else {
        l
    }
}

/// `str::lines`: split at `\n`, drop a `\r` before each `\n`, and yield no
/// final empty line.
pub open spec fn lines(s: Seq<char>) -> Seq<Seq<char>>
    decreases s.len(),
{
    if s.len() == 0 {
        seq![]
    } else {
        match find_char(s, '\n') {
            None => seq![s],
            Some(i) => {
                proof {
                    lemma_find_char(s, '\n');
                }
                seq![strip_cr(s.take(i))] + lines(s.skip(i + 1))
            },
        }
    }
}

/// Views of a vector of char vectors.
pub open spec fn seqs_view(v: Seq<Vec<char>>) -> Seq<Seq<char>> {
    v.map_values(|l: Vec<char>| l@)
}

/// Drops one trailing carriage return of `v`.
pub fn strip_cr_in(v: Vec<char>) -> (r: Vec<char>)
    ensures
        r@ == strip_cr(v@),
{
    let mut v = v;
    if v.len() > 0 && v[v.len() - 1] == '\r' {
        v.pop();
    }
    v
}

/// The lines of `v`, as `str::lines` yields them.
pub fn lines_in(v: &Vec<char>) -> (r: Vec<Vec<char>>)
    ensures
        seqs_view(r@) == lines(v@),
{
    let mut out: Vec<Vec<char>> = Vec::new();
    let mut pos: usize = 0;
    assert(v@.skip(0) =~= v@);
    assert(seqs_view(out@) =~= seq![]);
    while pos < v.len()
        invariant
            pos <= v.len(),
            lines(v@) == seqs_view(out@) + lines(v@.skip(pos as int)),
        decreases v.len() - pos,
    {
        let ghost rest = v@.skip(pos as int);
        let ghost prev = seqs_view(out@);
        match find_char_from(v, '\n', pos) {
            None => {
                let l = slice(v, pos, v.len());
                out.push(l);
                assert(seqs_view(out@) =~= prev.push(rest));
                assert(v@.skip(v.len() as int) =~= seq![]);
                assert(lines(v@.skip(v.len() as int)) =~= seq![]);
                pos = v.len();
            },
            Some(j) => {
                let l = strip_cr_in(slice(v, pos, j));
                proof {
                    lemma_find_char(rest, '\n');
                    assert(rest.take(j - pos) =~= v@.subrange(pos as int, j as int));
                    assert(rest.skip(j - pos + 1) =~= v@.skip(j + 1));
                }
                out.push(l);
                assert(seqs_view(out@) =~= prev.push(strip_cr(rest.take(j - pos))));
                pos = j + 1;
            },
        }
    }
    assert(v@.skip(pos as int) =~= seq![]);
    assert(seqs_view(out@) + seq![] =~= seqs_view(out@));
    out
}

// ────────────────────────────── numbers ───────────────────────────────

/// Value of a string of decimal digits.
pub open spec fn digits_value(s: Seq<char>) -> nat
    decreases s.len(),
{
    if s.len() == 0 {
        0
    } else {
        digits_value(s.drop_last()) * 10 + digit_val(s.last())
    }
}

/// The digits that `str::parse` of an unsigned integer reads: one leading
/// `+` is dropped.
pub open spec fn unsigned_digits(s: Seq<char>) -> Seq<char> {
    if s.len() > 0 && s[0] == '+' {
        s.drop_first()
    } else {
        s
    }
}

/// Some(value) when `d` is a non-empty run of digits whose value fits a `u64`.
pub open spec fn digits_u64(d: Seq<char>) -> Option<u64> {
    if d.len() > 0 && all_digits(d) && digits_value(d) <= u64::MAX {
        Some(digits_value(d) as u64)
    } else {
        None
    }
}

/// `str::parse::<u64>`.
pub open spec fn parse_u64(s: Seq<char>) -> Option<u64> {
    digits_u64(unsigned_digits(s))
}

/// `str::parse::<i64>`.
pub open spec fn parse_i64(s: Seq<char>) -> Option<i64> {
    if s.len() > 0 && (s[0] == '+' || s[0] == '-') {
        let d = s.drop_first();
        if d.len() > 0 && all_digits(d) {
            if s[0] == '-' {
                if digits_value(d) <= 0x8000_0000_0000_0000 {
                    Some((0 - digits_value(d)) as i64)
                } else {
                    None
                }
            } else if digits_value(d) <= i64::MAX {
                Some(digits_value(d) as i64)
            } else {
                None
            }
        } else {
            None
        }
    } else if s.len() > 0 && all_digits(s) && digits_value(s) <= i64::MAX {
        Some(digits_value(s) as i64)
    } else {
        None
    }
}

pub proof fn lemma_digits_value_prefix(s: Seq<char>, k: int)
    requires
        0 <= k <= s.len(),
    ensures
        digits_value(s) >= digits_value(s.take(k)),
    decreases s.len(),
{
    if k < s.len() {
        assert(s.drop_last().take(k) =~= s.take(k));
        lemma_digits_value_prefix(s.drop_last(), k);
    } else {
        assert(s.take(k) =~= s);
    }
}

/// Parses the digits `v[start..]`.
pub fn digits_u64_in(v: &Vec<char>, start: usize) -> (r: Option<u64>)
    requires
        start <= v.len(),
    ensures
        r == digits_u64(v@.skip(start as int)),
{
    let ghost d = v@.skip(start as int);
    if start == v.len() {
        return None;
    }
    let mut val: u64 = 0;
    let mut i: usize = start;
    assert(v@.subrange(start as int, start as int) =~= seq![]);
    while i < v.len()
        invariant
            start <= i <= v.len(),
            d == v@.skip(start as int),
            all_digits(v@.subrange(start as int, i as int)),
            val == digits_value(v@.subrange(start as int, i as int)),
        decreases v.len() - i,
    {
        let c = v[i];
        if !('0' <= c && c <= '9') {
            assert(!is_digit(d[i - start]));
            return None;
        }
        let dv: u64 = (c as u32 - 48u32) as u64;
        let ghost pre = v@.subrange(start as int, i + 1);
        assert(pre.drop_last() =~= v@.subrange(start as int, i as int));
        assert(pre =~= d.take(i + 1 - start));
        if val > (u64::MAX - dv) / 10 {
            assert(val * 10 + dv > u64::MAX) by (nonlinear_arith)
                requires
                    val > (u64::MAX - dv) / 10,
                    dv <= 9,
            ;
            proof {
                lemma_digits_value_prefix(d, i + 1 - start);
            }
            return None;
        }
        assert(val * 10 + dv <= u64::MAX) by (nonlinear_arith)
            requires
                val <= (u64::MAX - dv) / 10,
                dv <= 9,
        ;
        val = val * 10 + dv;
        assert(all_digits(pre));
        i = i + 1;
    }
    assert(v@.subrange(start as int, v.len() as int) =~= d);
    Some(val)
}

/// `str::parse::<u64>` on a char vector.
pub fn parse_u64_in(v: &Vec<char>) -> (r: Option<u64>)
    ensures
        r == parse_u64(v@),
{
    if v.len() > 0 && v[0] == '+' {
        assert(v@.skip(1) =~= v@.drop_first());
        digits_u64_in(v, 1)
    } else {
        assert(v@.skip(0) =~= v@);
        digits_u64_in(v, 0)
    }
}

/// `str::parse::<i64>` on a char vector.
pub fn parse_i64_in(v: &Vec<char>) -> (r: Option<i64>)
    ensures
        r == parse_i64(v@),
{
    if v.len() > 0 && (v[0] == '+' || v[0] == '-') {
        assert(v@.skip(1) =~= v@.drop_first());
        let neg = v[0] == '-';
        match digits_u64_in(v, 1) {
            None => None,
            Some(x) => {
                if neg {
                    if x <= 0x8000_0000_0000_0000u64 {
                        if x == 0x8000_0000_0000_0000u64 {
                            Some(i64::MIN)
                        } else {
                            Some(0i64 - (x as i64))
                        }
                    } else {
                        None
                    }
                } else if x <= 0x7fff_ffff_ffff_ffffu64 {
                    Some(x as i64)
                } else {
                    None
                }
            },
        }
    } else {
        assert(v@.skip(0) =~= v@);
        match digits_u64_in(v, 0) {
            None => None,
            Some(x) => {
                if x <= 0x7fff_ffff_ffff_ffffu64 {
                    Some(x as i64)
                } else {
                    None
                }
            },
        }
    }
}

/// Decimal digits of `n`, without padding.
pub open spec fn dec(n: nat) -> Seq<char>
    decreases n,
{
    if n < 10 {
        seq![digit_char(n)]
    } else {
        dec(n / 10).push(digit_char(n % 10))
    }
}

/// `s` left-padded with `'0'` to at least `w` characters.
pub open spec fn zero_pad(s: Seq<char>, w: nat) -> Seq<char> {
    if s.len() >= w {
        s
    } else {
        Seq::new((w - s.len()) as nat, |i: int| '0') + s
    }
}

/// The ASCII digit for `d`.
pub fn digit_of(d: u64) -> (c: char)
    requires
        d < 10,
    ensures
        c == digit_char(d as nat),
{
    ((d as u8) + 48u8) as char
}

/// Decimal digits of `n` (`format!("{}", n)`).
pub fn dec_in(n: u64) -> (r: Vec<char>)
    ensures
        r@ == dec(n as nat),
    decreases n,
{
    if n < 10 {
        let mut v: Vec<char> = Vec::new();
        v.push(digit_of(n));
        assert(v@ =~= seq![digit_char(n as nat)]);
        v
    } else {
        let mut v = dec_in(n / 10);
        v.push(digit_of(n % 10));
        v
    }
}

/// `v` left-padded with `'0'` to at least `w` characters.
pub fn zero_pad_in(v: Vec<char>, w: usize) -> (r: Vec<char>)
    ensures
        r@ == zero_pad(v@, w as nat),
{
    if v.len() >= w {
        return v;
    }
    let mut r: Vec<char> = Vec::new();
    let mut k: usize = 0;
    let fill = w - v.len();
    while k < fill
        invariant
            k <= fill,
            fill == w - v.len(),
            r@ == Seq::new(k as nat, |i: int| '0'),
        decreases fill - k,
    {
        r.push('0');
        assert(r@ =~= Seq::new((k + 1) as nat, |i: int| '0'));
        k = k + 1;
    }
    let mut i: usize = 0;
    let ghost z = r@;
    while i < v.len()
        invariant
            i <= v.len(),
            z == Seq::new(fill as nat, |i: int| '0'),
            fill == w - v.len(),
            r@ == z + v@.take(i as int),
        decreases v.len() - i,
    {
        r.push(v[i]);
        assert(v@.take(i + 1) =~= v@.take(i as int).push(v@[i as int]));
        assert(r@ =~= z + v@.take(i + 1));
        i = i + 1;
    }
    assert(v@.take(v.len() as int) =~= v@);
    r
}

/// Lower-case hexadecimal digit for `d < 16`.
pub open spec fn hex_char(d: nat) -> char {
    if d < 10 {
        (d + 48) as char
    } else {
        (d + 87) as char
    }
}

/// Lower-case hexadecimal digits of `n`, without padding.
pub open spec fn hex(n: nat) -> Seq<char>
    decreases n,
{
    if n < 16 {
        seq![hex_char(n)]
    } else {
        hex(n / 16).push(hex_char(n % 16))
    }
}

/// The lower-case hexadecimal digit for `d`.
pub fn hex_digit_of(d: u64) -> (c: char)
    requires
        d < 16,
    ensures
        c == hex_char(d as nat),
{
    if d < 10 {
        ((d as u8) + 48u8) as char
    } else {
        ((d as u8) + 87u8) as char
    }
}

/// Lower-case hexadecimal digits of `n` (`format!("{:x}", n)`).
pub fn hex_in(n: u64) -> (r: Vec<char>)
    ensures
        r@ == hex(n as nat),
    decreases n,
{
    if n < 16 {
        let mut v: Vec<char> = Vec::new();
        v.push(hex_digit_of(n));
        assert(v@ =~= seq![hex_char(n as nat)]);
        v
    } else {
        let mut v = hex_in(n / 16);
        v.push(hex_digit_of(n % 16));
        v
    }
}

/// Appends a literal.
pub fn push_str(s: &mut String, t: &str)
    ensures
        final(s)@ == old(s)@ + t@,
{
    s.append(t);
}

/// A document has at most as many lines as characters.
pub proof fn lemma_lines_count(s: Seq<char>)
    ensures
        lines(s).len() <= s.len(),
    decreases s.len(),
{
    if s.len() > 0 {
        lemma_find_char(s, '\n');
        match find_char(s, '\n') {
            Some(i) => {
                lemma_lines_count(s.skip(i + 1));
            },
            None => {},
        }
    }
}

/// The first occurrence of `c` in `x + y` is the first in `x` when `x`
/// holds `c`.
pub proof fn lemma_find_char_append(x: Seq<char>, y: Seq<char>, c: char)
    requires
        has_char(x, c),
    ensures
        find_char(x + y, c) == find_char(x, c),
{
    lemma_find_char(x, c);
    lemma_find_char(x + y, c);
    let i = find_char(x, c)->0;
    assert((x + y)[i] == c);
    assert(has_char(x + y, c));
    let j = find_char(x + y, c)->0;
    if j < i {
        assert((x + y)[j] == x[j]);
    }
}

/// Splitting into lines distributes over a text that ends a line.
pub proof fn lemma_lines_append(x: Seq<char>, y: Seq<char>)
    requires
        x.len() == 0 || x.last() == '\n',
    ensures
        lines(x + y) == lines(x) + lines(y),
    decreases x.len(),
{
    if x.len() == 0 {
        assert(x + y =~= y);
        assert(lines(x) + lines(y) =~= lines(y));
    } else {
        assert(has_char(x, '\n')) by {
            assert(x[x.len() - 1] == '\n');
        }
        lemma_find_char_append(x, y, '\n');
        lemma_find_char(x, '\n');
        let i = find_char(x, '\n')->0;
        let r = x.skip(i + 1);
        assert((x + y).take(i) =~= x.take(i));
        assert((x + y).skip(i + 1) =~= r + y);
        if r.len() > 0 {
            assert(r.last() == x.last());
        }
        lemma_lines_append(r, y);
        assert(lines(x + y) =~= seq![strip_cr(x.take(i))] + (lines(r) + lines(y)));
        assert(lines(x) =~= seq![strip_cr(x.take(i))] + lines(r));
        assert(lines(x + y) =~= lines(x) + lines(y));
    }
}

/// A text without a newline, followed by one, is a single line.
pub proof fn lemma_one_line(a: Seq<char>)
    requires
        !has_char(a, '\n'),
    ensures
        lines(a + seq!['\n']) == seq![strip_cr(a)],
{
    let x = a + seq!['\n'];
    assert(x[a.len() as int] == '\n');
    lemma_find_char(x, '\n');
    assert(has_char(x, '\n'));
    let i = find_char(x, '\n')->0;
    if i < a.len() {
        assert(x[i] == a[i]);
    }
    assert(i == a.len());
    assert(x.take(i) =~= a);
    assert(x.skip(i + 1) =~= Seq::<char>::empty());
    assert(lines(x) =~= seq![strip_cr(a)] + lines(Seq::<char>::empty()));
}

/// The decimal digits of `n` are digits, read back as `n`, and are as
/// many as `n` needs.
pub proof fn lemma_dec(n: nat)
    ensures
        all_digits(dec(n)),
        digits_value(dec(n)) == n,
        dec(n).len() >= 1,
        n < 10 ==> dec(n).len() == 1,
        n < 100 ==> dec(n).len() <= 2,
        n < 1000 ==> dec(n).len() <= 3,
    decreases n,
{
    if n < 10 {
        assert(dec(n) =~= seq![digit_char(n)]);
        assert(dec(n).drop_last() =~= Seq::<char>::empty());
        assert(digit_val(digit_char(n)) == n);
        assert(digits_value(dec(n)) == digits_value(dec(n).drop_last()) * 10 + digit_val(
            dec(n).last(),
        ));
    } else {
        lemma_dec(n / 10);
        let d = dec(n / 10);
        assert(dec(n).drop_last() =~= d);
        assert(digit_val(digit_char(n % 10)) == n % 10);
        assert(n == (n / 10) * 10 + n % 10);
        assert forall|i: int| 0 <= i < dec(n).len() implies #[trigger] is_digit(dec(n)[i]) by {
            if i < d.len() {
                assert(dec(n)[i] == d[i]);
            }
        }
    }
}

proof fn lemma_digits_value_zeros(z: Seq<char>)
    requires
        forall|i: int| 0 <= i < z.len() ==> z[i] == '0',
    ensures
        digits_value(z) == 0,
    decreases z.len(),
{
    if z.len() > 0 {
        lemma_digits_value_zeros(z.drop_last());
    }
}

proof fn lemma_digits_value_after_zeros(z: Seq<char>, s: Seq<char>)
    requires
        forall|i: int| 0 <= i < z.len() ==> z[i] == '0',
    ensures
        digits_value(z + s) == digits_value(s),
    decreases s.len(),
{
    if s.len() == 0 {
        assert(z + s =~= z);
        lemma_digits_value_zeros(z);
    } else {
        assert((z + s).drop_last() =~= z + s.drop_last());
        lemma_digits_value_after_zeros(z, s.drop_last());
    }
}

/// Zero padding keeps a run of digits a run of digits with the same value,
/// `w` long when it was no longer.
pub proof fn lemma_zero_pad(s: Seq<char>, w: nat)
    requires
        all_digits(s),
    ensures
        all_digits(zero_pad(s, w)),
        digits_value(zero_pad(s, w)) == digits_value(s),
        s.len() <= w ==> zero_pad(s, w).len() == w,
{
    if s.len() < w {
        let z = Seq::new((w - s.len()) as nat, |i: int| '0');
        assert(zero_pad(s, w) == z + s);
        lemma_digits_value_after_zeros(z, s);
        assert forall|i: int| 0 <= i < zero_pad(s, w).len() implies #[trigger] is_digit(
            zero_pad(s, w)[i],
        ) by {
            if i < z.len() {
                assert(zero_pad(s, w)[i] == '0');
            } else {
                assert(zero_pad(s, w)[i] == s[i - z.len()]);
            }
        }
    }
}

/// A run of digits has no other character in it.
pub proof fn lemma_digits_lack(s: Seq<char>, c: char)
    requires
        all_digits(s),
        !is_digit(c),
    ensures
        !has_char(s, c),
        find_char(s, c) is None,
{
    lemma_find_char(s, c);
    if has_char(s, c) {
        let i = choose|i: int| 0 <= i < s.len() && s[i] == c;
        assert(is_digit(s[i]));
    }
}

/// A run of digits takes one byte per digit.
pub proof fn lemma_digits_bytes(s: Seq<char>)
    requires
        all_digits(s),
    ensures
        utf8_bytes(s) == s.len(),
    decreases s.len(),
{
    if s.len() > 0 {
        assert(is_digit(s[s.len() - 1]));
        assert(all_digits(s.drop_last())) by {
            assert forall|i: int| 0 <= i < s.drop_last().len() implies #[trigger] is_digit(
                s.drop_last()[i],
            ) by {
                assert(s.drop_last()[i] == s[i]);
            }
        }
        lemma_digits_bytes(s.drop_last());
    }
}

} // verus!
