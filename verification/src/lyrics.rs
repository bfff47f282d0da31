//! Lyric format detection and LRC → TTML conversion.
//!
//! Every LRC variant (standard, multi-timestamp, enhanced word-synced,
//! old-style inline word-synced, bilingual) becomes a TTML document; YRC,
//! QRC and TTML pass through unchanged.

use vstd::prelude::*;

use crate::paths::{file_stem_of, path_file_stem, path_with_extension, path_with_file_name, with_extension, with_file_name};

use crate::text::{
    lemma_dec, lemma_digits_bytes, lemma_digits_lack, lemma_zero_pad,
    contains, contains_in, lines, lines_in, trim_start, trim_start_in, parse_i64, parse_i64_in, seqs_view, starts_with, starts_with_in, char_is_ws, ends_with_ws, find_char_from, trim, trim_in, chars_of, dec, dec_in, find_char_in, has_char_in, lemma_find_char, push_char, push_chars,
    push_str, zero_pad, zero_pad_in, all_digits, digits_value, find_char, has_char, is_digit, lemma_digits_value_prefix,
    parse_u64, parse_u64_in, slice, unsigned_digits, utf8_bytes, utf8_len,
};

verus! {

broadcast use vstd::string::group_string_axioms;

/// End time given to the last lyric line: 999:59.999 in milliseconds.
pub const SENTINEL_END_MS: u64 = 60_039_999;

/// The lyric formats the player understands.
#[derive(Debug, Clone, Copy, PartialEq, Eq, Structural)]
pub enum LyricFormat {
    Ttml,
    Yrc,
    Qrc,
    Lrc,
}

pub open spec fn format_name(f: LyricFormat) -> Seq<char> {
    match f {
        LyricFormat::Ttml => "ttml"@,
        LyricFormat::Yrc => "yrc"@,
        LyricFormat::Qrc => "qrc"@,
        LyricFormat::Lrc => "lrc"@,
    }
}

impl LyricFormat {
    /// The lower-case tag of the format.
    pub fn as_str(self) -> (s: &'static str)
        ensures
            s@ == format_name(self),
    {
        match self {
            LyricFormat::Ttml => "ttml",
            LyricFormat::Yrc => "yrc",
            LyricFormat::Qrc => "qrc",
            LyricFormat::Lrc => "lrc",
        }
    }
}

// ───────────────────────────── timestamps ─────────────────────────────

/// Outcome of reading an LRC timestamp.
#[derive(Debug, Clone, Copy, PartialEq, Eq, Structural)]
pub enum Stamp {
    /// Not a timestamp.
    NotTime,
    /// A timestamp, in milliseconds.
    At(u64),
    /// The text makes the reader abort: its fraction is cut inside a
    /// multi-byte character, or the millisecond count exceeds `u64`.
    Aborts,
}

/// `s` looks like `mm:...` (digits before the first `:`), not like a
/// metadata tag such as `ar:Artist`.
pub open spec fn is_stamp_like(s: Seq<char>) -> bool {
    match find_char(s, ':') {
        None => false,
        Some(i) => i > 0 && all_digits(s.take(i)),
    }
}

/// Characters of the first 3 bytes of `f` (`&f[..3]`), when byte 3 is a
/// character boundary. Only asked for when `f` has at least 4 bytes.
pub open spec fn three_byte_prefix(f: Seq<char>) -> Option<int> {
    if f.len() == 0 {
        None
    } else if utf8_len(f[0]) == 3 {
        Some(1)
    } else if utf8_len(f[0]) == 1 && f.len() > 1 && utf8_len(f[1]) == 2 {
        Some(2)
    } else if utf8_len(f[0]) == 2 && f.len() > 1 && utf8_len(f[1]) == 1 {
        Some(2)
    } else if utf8_len(f[0]) == 1 && f.len() > 2 && utf8_len(f[1]) == 1 && utf8_len(f[2]) == 1 {
        Some(3)
    } else {
        None
    }
}

/// Milliseconds that the fractional part `f` stands for: two digits are
/// hundredths, one digit tenths, three or more digits thousandths (the
/// first three bytes count).
pub open spec fn fraction_millis(f: Seq<char>) -> Stamp {
    let b = utf8_bytes(f);
    if b == 0 {
        Stamp::At(0)
    } else if b <= 3 {
        match parse_u64(f) {
            None => Stamp::NotTime,
            Some(x) => Stamp::At(
                if b == 1 {
                    (x * 100) as u64
                } else if b == 2 {
                    (x * 10) as u64
                } else {
                    x
                },
            ),
        }
    } else {
        match three_byte_prefix(f) {
            None => Stamp::Aborts,
            Some(k) => match parse_u64(f.take(k)) {
                None => Stamp::NotTime,
                Some(x) => Stamp::At(x),
            },
        }
    }
}

/// The text after the first `.` of `rest`, up to the next `.`.
pub open spec fn second_field(rest: Seq<char>, j: int) -> Seq<char> {
    let after = rest.skip(j + 1);
    match find_char(after, '.') {
        None => after,
        Some(k) => after.take(k),
    }
}

/// Reads `mm:ss`, `mm:ss.x`, `mm:ss.xx` or `mm:ss.xxx` as milliseconds.
pub open spec fn read_stamp(s: Seq<char>) -> Stamp {
    match find_char(s, ':') {
        None => Stamp::NotTime,
        Some(i) => {
            let rest = s.skip(i + 1);
            if has_char(rest, ':') {
                Stamp::NotTime
            } else {
                match parse_u64(s.take(i)) {
                    None => Stamp::NotTime,
                    Some(m) => {
                        let sec_text = match find_char(rest, '.') {
                            None => rest,
                            Some(j) => rest.take(j),
                        };
                        match parse_u64(sec_text) {
                            None => Stamp::NotTime,
                            Some(sec) => {
                                let frac = match find_char(rest, '.') {
                                    None => Stamp::At(0),
                                    Some(j) => fraction_millis(second_field(rest, j)),
                                };
                                match frac {
                                    Stamp::At(ms) => {
                                        let total = (m * 60 + sec) * 1000 + ms;
                                        if total > u64::MAX {
                                            Stamp::Aborts
                                        } else {
                                            Stamp::At(total as u64)
                                        }
                                    },
                                    other => other,
                                }
                            },
                        }
                    },
                }
            }
        },
    }
}

/// Bytes of `c` in UTF-8.
pub fn utf8_len_of(c: char) -> (n: usize)
    ensures
        n == utf8_len(c),
{
    let x = c as u32;
    if x < 0x80 {
        1
    } else if x < 0x800 {
        2
    } else if x < 0x10000 {
        3
    } else {
        4
    }
}

pub proof fn lemma_utf8_bytes_prefix(s: Seq<char>, k: int)
    requires
        0 <= k <= s.len(),
    ensures
        utf8_bytes(s) >= utf8_bytes(s.take(k)),
    decreases s.len(),
{
    if k < s.len() {
        assert(s.drop_last().take(k) =~= s.take(k));
        lemma_utf8_bytes_prefix(s.drop_last(), k);
    } else {
        assert(s.take(k) =~= s);
    }
}

/// UTF-8 byte length of `f`, or 4 when it has 4 bytes or more.
pub fn utf8_bytes_upto4(f: &Vec<char>) -> (b: usize)
    ensures
        b == if utf8_bytes(f@) < 4 {
            utf8_bytes(f@)
        } else {
            4
        },
{
    let mut acc: usize = 0;
    let mut i: usize = 0;
    assert(f@.take(0) =~= seq![]);
    while i < f.len() && acc < 4
        invariant
            i <= f.len(),
            acc == utf8_bytes(f@.take(i as int)),
        decreases f.len() - i,
    {
        assert(f@.take(i + 1).drop_last() =~= f@.take(i as int));
        acc = acc + utf8_len_of(f[i]);
        i = i + 1;
    }
    proof {
        lemma_utf8_bytes_prefix(f@, i as int);
        if i == f.len() {
            assert(f@.take(i as int) =~= f@);
        }
    }
    if acc >= 4 {
        4
    } else {
        acc
    }
}

/// Milliseconds of the fractional part `f`.
pub fn fraction_millis_in(f: &Vec<char>) -> (r: Stamp)
    ensures
        r == fraction_millis(f@),
{
    let b = utf8_bytes_upto4(f);
    if b == 0 {
        Stamp::At(0)
    } else if b <= 3 {
        match parse_u64_in(f) {
            None => Stamp::NotTime,
            Some(x) => {
                proof {
                    lemma_small_number(f@, b as nat);
                }
                if b == 1 {
                    Stamp::At(x * 100)
                } else if b == 2 {
                    Stamp::At(x * 10)
                } else {
                    Stamp::At(x)
                }
            },
        }
    } else {
        let k: usize = if f.len() == 0 {
            0
        } else if utf8_len_of(f[0]) == 3 {
            1
        } else if utf8_len_of(f[0]) == 1 && f.len() > 1 && utf8_len_of(f[1]) == 2 {
            2
        } else if utf8_len_of(f[0]) == 2 && f.len() > 1 && utf8_len_of(f[1]) == 1 {
            2
        } else if utf8_len_of(f[0]) == 1 && f.len() > 2 && utf8_len_of(f[1]) == 1
            && utf8_len_of(f[2]) == 1 {
            3
        } else {
            0
        };
        if k == 0 {
            return Stamp::Aborts;
        }
        let p = slice(f, 0, k);
        match parse_u64_in(&p) {
            None => Stamp::NotTime,
            Some(x) => Stamp::At(x),
        }
    }
}

/// A number read from at most 3 bytes is below 1000; from 1 byte below 10,
/// from 2 bytes below 100.
pub proof fn lemma_small_number(f: Seq<char>, b: nat)
    requires
        b == utf8_bytes(f),
        1 <= b <= 3,
        parse_u64(f) is Some,
    ensures
        b == 1 ==> parse_u64(f).unwrap() < 10,
        b == 2 ==> parse_u64(f).unwrap() < 100,
        parse_u64(f).unwrap() < 1000,
{
    let d = unsigned_digits(f);
    lemma_digits_short(f, d);
}

/// Digits are one byte each, so a run of them is as long as its bytes.
proof fn lemma_digits_short(f: Seq<char>, d: Seq<char>)
    requires
        d == unsigned_digits(f),
        all_digits(d),
        d.len() > 0,
        utf8_bytes(f) <= 3,
    ensures
        d.len() <= utf8_bytes(f),
        d.len() == 1 ==> digits_value(d) < 10,
        d.len() == 2 ==> digits_value(d) < 100,
        d.len() <= 3 ==> digits_value(d) < 1000,
{
    lemma_ascii_bytes(d);
    if f.len() > 0 && f[0] == '+' {
        lemma_utf8_bytes_first(f);
        assert(f.drop_first() == d);
    }
    lemma_digits_value_bound(d);
}

proof fn lemma_ascii_bytes(d: Seq<char>)
    requires
        all_digits(d),
    ensures
        utf8_bytes(d) == d.len(),
    decreases d.len(),
{
    if d.len() > 0 {
        assert(is_digit(d[d.len() - 1]));
        assert(all_digits(d.drop_last())) by {
            assert forall|i: int| 0 <= i < d.drop_last().len() implies is_digit(
                d.drop_last()[i],
            ) by {
                assert(d.drop_last()[i] == d[i]);
            }
        }
        lemma_ascii_bytes(d.drop_last());
    }
}

proof fn lemma_utf8_bytes_first(f: Seq<char>)
    requires
        f.len() > 0,
    ensures
        utf8_bytes(f) == utf8_len(f[0]) + utf8_bytes(f.drop_first()),
    decreases f.len(),
{
    if f.len() > 1 {
        lemma_utf8_bytes_first(f.drop_last());
        assert(f.drop_last().drop_first() =~= f.drop_first().drop_last());
    } else {
        assert(f.drop_first() =~= seq![]);
        assert(f.drop_last() =~= seq![]);
    }
}

proof fn lemma_digits_value_bound(d: Seq<char>)
    requires
        all_digits(d),
        d.len() <= 3,
    ensures
        d.len() == 1 ==> digits_value(d) < 10,
        d.len() == 2 ==> digits_value(d) < 100,
        d.len() == 3 ==> digits_value(d) < 1000,
        d.len() == 0 ==> digits_value(d) == 0,
    decreases d.len(),
{
    if d.len() > 0 {
        assert(is_digit(d[d.len() - 1]));
        assert(all_digits(d.drop_last())) by {
            assert forall|i: int| 0 <= i < d.drop_last().len() implies is_digit(
                d.drop_last()[i],
            ) by {
                assert(d.drop_last()[i] == d[i]);
            }
        }
        lemma_digits_value_bound(d.drop_last());
    }
}

/// Reads an LRC timestamp from `s`.
#[verifier::rlimit(50)]
pub fn read_stamp_in(s: &Vec<char>) -> (r: Stamp)
    ensures
        r == read_stamp(s@),
{
    let i = match find_char_in(s, ':') {
        None => {
            return Stamp::NotTime;
        },
        Some(i) => i,
    };
    proof {
        lemma_find_char(s@, ':');
    }
    let rest = slice(s, i + 1, s.len());
    if has_char_in(&rest, ':') {
        return Stamp::NotTime;
    }
    let min_text = slice(s, 0, i);
    let m = match parse_u64_in(&min_text) {
        None => {
            return Stamp::NotTime;
        },
        Some(m) => m,
    };
    let dot = find_char_in(&rest, '.');
    proof {
        lemma_find_char(rest@, '.');
    }
    let sec_text = match dot {
        None => slice(&rest, 0, rest.len()),
        Some(j) => slice(&rest, 0, j),
    };
    assert(rest@.subrange(0, rest@.len() as int) =~= rest@);
    let sec = match parse_u64_in(&sec_text) {
        None => {
            return Stamp::NotTime;
        },
        Some(sec) => sec,
    };
    let frac = match dot {
        None => Stamp::At(0),
        Some(j) => {
            let after = slice(&rest, j + 1, rest.len());
            proof {
                lemma_find_char(after@, '.');
            }
            let f = match find_char_in(&after, '.') {
                None => slice(&after, 0, after.len()),
                Some(k) => slice(&after, 0, k),
            };
            assert(after@.subrange(0, after@.len() as int) =~= after@);
            fraction_millis_in(&f)
        },
    };
    match frac {
        Stamp::At(ms) => {
            let total: u128 = ((m as u128) * 60 + (sec as u128)) * 1000 + (ms as u128);
            if total > 0xffff_ffff_ffff_ffffu128 {
                Stamp::Aborts
            } else {
                Stamp::At(total as u64)
            }
        },
        other => other,
    }
}

/// Parses `mm:ss.xx` / `mm:ss.xxx` / `mm:ss` into milliseconds.
pub fn parse_lrc_timestamp(s: &str) -> (r: Option<u64>)
    requires
        read_stamp(s@) != Stamp::Aborts,
    ensures
        r == match read_stamp(s@) {
            Stamp::At(ms) => Some(ms),
            _ => None,
        },
{
    let v = chars_of(s);
    match read_stamp_in(&v) {
        Stamp::At(ms) => Some(ms),
        _ => None,
    }
}

/// Whether `v` looks like a timestamp rather than a metadata tag.
pub fn is_stamp_like_in(v: &Vec<char>) -> (b: bool)
    ensures
        b == is_stamp_like(v@),
{
    match find_char_in(v, ':') {
        None => false,
        Some(i) => {
            if i == 0 {
                return false;
            }
            let mut k: usize = 0;
            while k < i
                invariant
                    k <= i <= v.len(),
                    find_char(v@, ':') == Some(i as int),
                    forall|j: int| 0 <= j < k ==> is_digit(v@[j]),
                decreases i - k,
            {
                if !('0' <= v[k] && v[k] <= '9') {
                    assert(v@.take(i as int)[k as int] == v@[k as int]);
                    assert(!is_digit(v@.take(i as int)[k as int]));
                    assert(!all_digits(v@.take(i as int)));
                    return false;
                }
                k = k + 1;
            }
            assert(all_digits(v@.take(i as int))) by {
                assert forall|j: int| 0 <= j < i implies is_digit(v@.take(i as int)[j]) by {
                    assert(v@.take(i as int)[j] == v@[j]);
                }
            }
            true
        },
    }
}

/// Returns `true` if `s` looks like an LRC timestamp (`mm:ss.xx`) rather
/// than a metadata tag (`ar:Artist`): the part before the first `:` is a
/// non-empty run of ASCII digits.
pub fn is_timestamp(s: &str) -> (b: bool)
    ensures
        b == is_stamp_like(s@),
{
    let v = chars_of(s);
    is_stamp_like_in(&v)
}

// ───────────────────────────── time codes ─────────────────────────────

/// `n` in decimal, zero-padded to `w` digits.
pub open spec fn pad_dec(n: nat, w: nat) -> Seq<char> {
    zero_pad(dec(n), w)
}

/// `MM:SS.fff`.
pub open spec fn clock_tail(minutes: nat, seconds: nat, millis: nat) -> Seq<char> {
    pad_dec(minutes, 2) + seq![':'] + pad_dec(seconds, 2) + seq!['.'] + pad_dec(millis, 3)
}

/// TTML time code of `ms`: `MM:SS.fff` below an hour, `HH:MM:SS.fff` from
/// an hour on, and plain `SSSS.fff` from the sentinel end time on.
pub open spec fn time_code(ms: u64) -> Seq<char> {
    if ms >= SENTINEL_END_MS {
        dec((ms / 1000) as nat) + seq!['.'] + pad_dec((ms % 1000) as nat, 3)
    } else {
        let total_seconds = ms / 1000;
        let total_minutes = total_seconds / 60;
        let hours = total_minutes / 60;
        let tail = clock_tail((total_minutes % 60) as nat, (total_seconds % 60) as nat, (ms % 1000) as nat);
        if hours > 0 {
            pad_dec(hours as nat, 2) + seq![':'] + tail
        } else {
            tail
        }
    }
}

fn push_pad_dec(out: &mut String, n: u64, w: usize)
    ensures
        final(out)@ == old(out)@ + pad_dec(n as nat, w as nat),
{
    push_chars(out, &zero_pad_in(dec_in(n), w));
}

fn push_clock_tail(out: &mut String, minutes: u64, seconds: u64, millis: u64)
    ensures
        final(out)@ == old(out)@ + clock_tail(minutes as nat, seconds as nat, millis as nat),
{
    let ghost o = out@;
    push_pad_dec(out, minutes, 2);
    push_char(out, ':');
    push_pad_dec(out, seconds, 2);
    push_char(out, '.');
    push_pad_dec(out, millis, 3);
    assert(out@ =~= o + clock_tail(minutes as nat, seconds as nat, millis as nat));
}

/// Appends the TTML time code of `ms`.
pub fn push_time_code(out: &mut String, ms: u64)
    ensures
        final(out)@ == old(out)@ + time_code(ms),
{
    let ghost o = out@;
    if ms >= SENTINEL_END_MS {
        push_chars(out, &dec_in(ms / 1000));
        push_char(out, '.');
        push_pad_dec(out, ms % 1000, 3);
        assert(out@ =~= o + time_code(ms));
        return;
    }
    let total_seconds = ms / 1000;
    let total_minutes = total_seconds / 60;
    let hours = total_minutes / 60;
    if hours > 0 {
        push_pad_dec(out, hours, 2);
        push_char(out, ':');
    }
    let ghost h = out@;
    push_clock_tail(out, total_minutes % 60, total_seconds % 60, ms % 1000);
    assert(out@ =~= o + time_code(ms));
}

/// Formats milliseconds as a TTML time code.
pub fn format_time(ms: u64) -> (s: String)
    ensures
        s@ == time_code(ms),
{
    let mut s = String::new();
    push_time_code(&mut s, ms);
    s
}

// ───────────────────────────── XML escaping ───────────────────────────

/// The XML form of one character.
pub open spec fn xml_char(c: char) -> Seq<char> {
    if c == '&' {
        "&amp;"@
    } else if c == '<' {
        "&lt;"@
    } else if c == '>' {
        "&gt;"@
    } else if c == '"' {
        "&quot;"@
    } else if c == '\'' {
        "&apos;"@
    } else {
        seq![c]
    }
}

/// `s` with the five XML special characters replaced by entities.
pub open spec fn xml_escape(s: Seq<char>) -> Seq<char>
    decreases s.len(),
{
    if s.len() == 0 {
        seq![]
    } else {
        xml_escape(s.drop_last()) + xml_char(s.last())
    }
}

/// Appends the XML-escaped form of `v`.
pub fn push_escaped(out: &mut String, v: &Vec<char>)
    ensures
        final(out)@ == old(out)@ + xml_escape(v@),
{
    let ghost o = out@;
    let mut i: usize = 0;
    assert(v@.take(0) =~= seq![]);
    while i < v.len()
        invariant
            i <= v.len(),
            out@ == o + xml_escape(v@.take(i as int)),
        decreases v.len() - i,
    {
        let c = v[i];
        if c == '&' {
            push_str(out, "&amp;");
        } else if c == '<' {
            push_str(out, "&lt;");
        } else if c == '>' {
            push_str(out, "&gt;");
        } else if c == '"' {
            push_str(out, "&quot;");
        } else if c == '\'' {
            push_str(out, "&apos;");
        } else {
            push_char(out, c);
        }
        assert(v@.take(i + 1).drop_last() =~= v@.take(i as int));
        assert(out@ =~= o + xml_escape(v@.take(i + 1)));
        i = i + 1;
    }
    assert(v@.take(v.len() as int) =~= v@);
}

/// Escapes the XML special characters of `s`.
pub fn escape_xml(s: &str) -> (r: String)
    ensures
        r@ == xml_escape(s@),
{
    let v = chars_of(s);
    let mut r = String::new();
    push_escaped(&mut r, &v);
    r
}

// ───────────────────────────── parsed LRC ─────────────────────────────

/// A word of a word-synced lyric line, as a value.
pub struct WordS {
    pub start: u64,
    pub end: u64,
    pub text: Seq<char>,
    /// The source had whitespace after the word.
    pub spaced: bool,
}

/// A lyric line, as a value.
pub struct LineS {
    pub start: u64,
    pub end: u64,
    pub words: Seq<WordS>,
    pub text: Seq<char>,
    pub translation: Option<Seq<char>>,
}

/// A word of a word-synced lyric line.
pub struct LrcWord {
    pub start_ms: u64,
    pub end_ms: u64,
    pub text: Vec<char>,
    /// Whether the LRC source had whitespace after this word; the TTML
    /// emitter then puts a space between this word's span and the next.
    pub ends_with_space: bool,
}

impl View for LrcWord {
    type V = WordS;

    open spec fn view(&self) -> WordS {
        WordS {
            start: self.start_ms,
            end: self.end_ms,
            text: self.text@,
            spaced: self.ends_with_space,
        }
    }
}

/// A parsed lyric line: either line-level `text` or word-level `words`,
/// with an optional translation.
pub struct LrcLine {
    pub start_ms: u64,
    pub end_ms: u64,
    pub words: Vec<LrcWord>,
    pub text: Vec<char>,
    pub translation: Option<Vec<char>>,
}

pub open spec fn words_view(ws: Seq<LrcWord>) -> Seq<WordS> {
    ws.map_values(|w: LrcWord| w@)
}

pub open spec fn opt_view(t: Option<Vec<char>>) -> Option<Seq<char>> {
    match t {
        Some(v) => Some(v@),
        None => None,
    }
}

impl View for LrcLine {
    type V = LineS;

    open spec fn view(&self) -> LineS {
        LineS {
            start: self.start_ms,
            end: self.end_ms,
            words: words_view(self.words@),
            text: self.text@,
            translation: opt_view(self.translation),
        }
    }
}

pub open spec fn lines_view(ls: Seq<LrcLine>) -> Seq<LineS> {
    ls.map_values(|l: LrcLine| l@)
}

/// The word starting at `start` whose source text (up to the next
/// timestamp) is `raw`.
pub open spec fn word_of(start: u64, raw: Seq<char>) -> WordS {
    WordS { start, end: 0, text: trim(raw), spaced: ends_with_ws(raw) }
}

/// `ws` with the last word's trailing-space flag cleared.
pub open spec fn unspace_last(ws: Seq<WordS>) -> Seq<WordS> {
    if ws.len() == 0 {
        ws
    } else {
        let w = ws.last();
        ws.update(ws.len() - 1, WordS { start: w.start, end: w.end, text: w.text, spaced: false })
    }
}

/// A line-level lyric line.
pub open spec fn text_line(start: u64, text: Seq<char>) -> LineS {
    LineS { start, end: 0, words: seq![], text, translation: None }
}

/// A word-level lyric line.
pub open spec fn word_line(start: u64, words: Seq<WordS>) -> LineS {
    LineS { start, end: 0, words, text: seq![], translation: None }
}

/// Prepends `head` to the words in `tail`, when there are any.
pub open spec fn prepend_words(head: Seq<WordS>, tail: Option<Seq<WordS>>) -> Option<Seq<WordS>> {
    match tail {
        None => None,
        Some(t) => Some(head + t),
    }
}

/// The word for `raw`, if its trimmed text is not empty.
pub open spec fn word_if_any(start: u64, raw: Seq<char>) -> Seq<WordS> {
    if trim(raw).len() > 0 {
        seq![word_of(start, raw)]
    } else {
        seq![]
    }
}

/// Enhanced (word-synced) LRC: `<mm:ss.xx>word <mm:ss.xx>word ...`.
/// `None` when a timestamp makes the reader abort.
pub open spec fn enhanced_words(rest: Seq<char>) -> Option<Seq<WordS>>
    decreases rest.len(),
{
    match find_char(rest, '<') {
        None => Some(seq![]),
        Some(open) => {
            proof {
                lemma_find_char(rest, '<');
                lemma_find_char(rest.skip(open), '>');
            }
            match find_char(rest.skip(open), '>') {
                None => Some(seq![]),
                Some(k) => {
                    let close = open + k;
                    let after = rest.skip(close + 1);
                    match read_stamp(rest.subrange(open + 1, close)) {
                        Stamp::Aborts => None,
                        Stamp::NotTime => enhanced_words(after),
                        Stamp::At(ms) => {
                            proof {
                                lemma_find_char(after, '<');
                            }
                            let we = match find_char(after, '<') {
                                Some(w) => w,
                                None => after.len() as int,
                            };
                            prepend_words(
                                word_if_any(ms, after.take(we)),
                                enhanced_words(after.skip(we)),
                            )
                        },
                    }
                },
            }
        },
    }
}

/// A word built from its start and raw source text.
pub fn make_word(start: u64, raw: &Vec<char>) -> (w: LrcWord)
    ensures
        w@ == word_of(start, raw@),
{
    let text = trim_in(raw);
    let spaced = raw.len() > 0 && char_is_ws(raw[raw.len() - 1]);
    LrcWord { start_ms: start, end_ms: 0, text, ends_with_space: spaced }
}

/// Clears the last word's trailing-space flag.
pub fn unspace_last_in(ws: &mut Vec<LrcWord>)
    ensures
        words_view(final(ws)@) == unspace_last(words_view(old(ws)@)),
{
    let n = ws.len();
    if n > 0 {
        let w = ws.pop().unwrap();
        let w2 = LrcWord { start_ms: w.start_ms, end_ms: w.end_ms, text: w.text, ends_with_space: false };
        ws.push(w2);
        assert(words_view(ws@) =~= unspace_last(words_view(old(ws)@)));
    } else {
        assert(words_view(ws@) =~= unspace_last(words_view(old(ws)@)));
    }
}

/// Words of enhanced LRC in `rest`; `None` when a timestamp aborts.
#[verifier::rlimit(50)]
pub fn enhanced_words_in(rest: &Vec<char>) -> (r: Option<Vec<LrcWord>>)
    ensures
        match r {
            None => enhanced_words(rest@) is None,
            Some(ws) => enhanced_words(rest@) == Some(words_view(ws@)),
        },
{
    let mut acc: Vec<LrcWord> = Vec::new();
    let mut pos: usize = 0;
    assert(rest@.skip(0) =~= rest@);
    loop
        invariant
            pos <= rest.len(),
            enhanced_words(rest@) == prepend_words(words_view(acc@), enhanced_words(rest@.skip(pos as int))),
        decreases rest.len() - pos,
    {
        let ghost cur = rest@.skip(pos as int);
        let ghost acc0 = words_view(acc@);
        let open = match find_char_from(rest, '<', pos) {
            None => {
                assert(words_view(acc@) + seq![] =~= words_view(acc@));
                return Some(acc);
            },
            Some(o) => o,
        };
        proof {
            lemma_find_char(cur, '<');
            assert(cur.skip(open - pos) =~= rest@.skip(open as int));
        }
        let close = match find_char_from(rest, '>', open) {
            None => {
                assert(words_view(acc@) + seq![] =~= words_view(acc@));
                return Some(acc);
            },
            Some(c) => c,
        };
        proof {
            lemma_find_char(rest@.skip(open as int), '>');
            assert(rest@.skip(open as int)[0] == '<');
            assert(cur.subrange(open - pos + 1, close - pos) =~= rest@.subrange(open + 1, close as int));
            assert(cur.skip(close - pos + 1) =~= rest@.skip(close + 1));
        }
        let ts = slice(rest, open + 1, close);
        match read_stamp_in(&ts) {
            Stamp::Aborts => {
                return None;
            },
            Stamp::NotTime => {
                pos = close + 1;
            },
            Stamp::At(ms) => {
                let we = match find_char_from(rest, '<', close + 1) {
                    Some(w) => w,
                    None => rest.len(),
                };
                let ghost after = rest@.skip(close + 1);
                proof {
                    lemma_find_char(after, '<');
                    assert(after.take(we - close - 1) =~= rest@.subrange(close + 1, we as int));
                    assert(after.skip(we - close - 1) =~= rest@.skip(we as int));
                }
                let raw = slice(rest, close + 1, we);
                let w = make_word(ms, &raw);
                if w.text.len() > 0 {
                    acc.push(w);
                    assert(words_view(acc@) =~= acc0 + seq![word_of(ms, raw@)]);
                }
                assert(forall|t: Seq<WordS>| acc0 + (word_if_any(ms, raw@) + t) == words_view(acc@) + t) by {
                    assert forall|t: Seq<WordS>| acc0 + (word_if_any(ms, raw@) + t) =~= words_view(acc@) + t by {}
                }
                pos = we;
            },
        }
    }
}

/// Old-style inline LRC after the first word: `[mm:ss.xx]word[mm:ss.xx]word`.
/// `None` when a timestamp makes the reader abort.
pub open spec fn inline_tail(rest: Seq<char>) -> Option<Seq<WordS>>
    decreases rest.len(),
{
    if !(rest.len() > 0 && rest[0] == '[') {
        Some(seq![])
    } else {
        match find_char(rest, ']') {
            None => Some(seq![]),
            Some(close) => {
                proof {
                    lemma_find_char(rest, ']');
                }
                let after = rest.skip(close + 1);
                match read_stamp(rest.subrange(1, close)) {
                    Stamp::Aborts => None,
                    Stamp::NotTime => inline_tail(after),
                    Stamp::At(ms) => {
                        proof {
                            lemma_find_char(after, '[');
                        }
                        let we = match find_char(after, '[') {
                            Some(w) => w,
                            None => after.len() as int,
                        };
                        prepend_words(word_if_any(ms, after.take(we)), inline_tail(after.skip(we)))
                    },
                }
            },
        }
    }
}

/// Old-style inline LRC: `word[mm:ss.xx]word[mm:ss.xx]word`, the first word
/// starting at `start`. The last word never carries the trailing-space flag.
pub open spec fn inline_words(content: Seq<char>, start: u64) -> Option<Seq<WordS>> {
    match find_char(content, '[') {
        None => {
            let t = trim(content);
            Some(
                if t.len() > 0 {
                    seq![WordS { start, end: 0, text: t, spaced: false }]
                } else {
                    seq![]
                },
            )
        },
        Some(fb) => match inline_tail(content.skip(fb)) {
            None => None,
            Some(t) => Some(unspace_last(word_if_any(start, content.take(fb)) + t)),
        },
    }
}

/// Words of inline LRC after the first one.
#[verifier::rlimit(50)]
pub fn inline_tail_in(rest: &Vec<char>, from: usize) -> (r: Option<Vec<LrcWord>>)
    requires
        from <= rest.len(),
    ensures
        match r {
            None => inline_tail(rest@.skip(from as int)) is None,
            Some(ws) => inline_tail(rest@.skip(from as int)) == Some(words_view(ws@)),
        },
{
    let mut acc: Vec<LrcWord> = Vec::new();
    let mut pos: usize = from;
    assert(words_view(acc@) + words_view(acc@) =~= words_view(acc@));
    loop
        invariant
            from <= pos <= rest.len(),
            inline_tail(rest@.skip(from as int)) == prepend_words(
                words_view(acc@),
                inline_tail(rest@.skip(pos as int)),
            ),
        decreases rest.len() - pos,
    {
        let ghost cur = rest@.skip(pos as int);
        let ghost acc0 = words_view(acc@);
        if !(pos < rest.len() && rest[pos] == '[') {
            assert(words_view(acc@) + seq![] =~= words_view(acc@));
            return Some(acc);
        }
        let close = match find_char_from(rest, ']', pos) {
            None => {
                assert(words_view(acc@) + seq![] =~= words_view(acc@));
                return Some(acc);
            },
            Some(c) => c,
        };
        proof {
            lemma_find_char(cur, ']');
            assert(cur.subrange(1, close - pos) =~= rest@.subrange(pos + 1, close as int));
            assert(cur.skip(close - pos + 1) =~= rest@.skip(close + 1));
        }
        let ts = slice(rest, pos + 1, close);
        match read_stamp_in(&ts) {
            Stamp::Aborts => {
                return None;
            },
            Stamp::NotTime => {
                pos = close + 1;
            },
            Stamp::At(ms) => {
                let we = match find_char_from(rest, '[', close + 1) {
                    Some(w) => w,
                    None => rest.len(),
                };
                let ghost after = rest@.skip(close + 1);
                proof {
                    lemma_find_char(after, '[');
                    assert(after.take(we - close - 1) =~= rest@.subrange(close + 1, we as int));
                    assert(after.skip(we - close - 1) =~= rest@.skip(we as int));
                }
                let raw = slice(rest, close + 1, we);
                let w = make_word(ms, &raw);
                if w.text.len() > 0 {
                    acc.push(w);
                    assert(words_view(acc@) =~= acc0 + seq![word_of(ms, raw@)]);
                }
                assert(forall|t: Seq<WordS>| acc0 + (word_if_any(ms, raw@) + t) == words_view(acc@) + t) by {
                    assert forall|t: Seq<WordS>| acc0 + (word_if_any(ms, raw@) + t) =~= words_view(acc@) + t by {}
                }
                pos = we;
            },
        }
    }
}

/// Words of inline LRC, the first one starting at `start`.
pub fn inline_words_in(content: &Vec<char>, start: u64) -> (r: Option<Vec<LrcWord>>)
    ensures
        match r {
            None => inline_words(content@, start) is None,
            Some(ws) => inline_words(content@, start) == Some(words_view(ws@)),
        },
{
    match find_char_in(content, '[') {
        None => {
            let t = trim_in(content);
            let mut ws: Vec<LrcWord> = Vec::new();
            if t.len() > 0 {
                ws.push(LrcWord { start_ms: start, end_ms: 0, text: t, ends_with_space: false });
            }
            assert(words_view(ws@) =~= inline_words(content@, start).unwrap());
            Some(ws)
        },
        Some(fb) => {
            let raw = slice(content, 0, fb);
            let w = make_word(start, &raw);
            let mut ws: Vec<LrcWord> = Vec::new();
            if w.text.len() > 0 {
                ws.push(w);
            }
            assert(words_view(ws@) =~= word_if_any(start, content@.take(fb as int)));
            match inline_tail_in(content, fb) {
                None => None,
                Some(tail) => {
                    let ghost head = words_view(ws@);
                    let ghost tv = words_view(tail@);
                    let mut tail = tail;
                    ws.append(&mut tail);
                    assert(words_view(ws@) =~= head + tv);
                    unspace_last_in(&mut ws);
                    Some(ws)
                },
            }
        },
    }
}

/// A run of timestamps `[t][t]...` at the start of `rest`, and the text
/// after it. `None` when a timestamp makes the reader abort.
pub open spec fn stamp_run(rest: Seq<char>) -> Option<(Seq<u64>, Seq<char>)>
    decreases rest.len(),
{
    if !(rest.len() > 0 && rest[0] == '[') {
        Some((seq![], rest))
    } else {
        match find_char(rest, ']') {
            None => Some((seq![], rest)),
            Some(c) => {
                proof {
                    lemma_find_char(rest, ']');
                }
                let inside = rest.subrange(1, c);
                if !is_stamp_like(inside) {
                    Some((seq![], rest))
                } else {
                    match read_stamp(inside) {
                        Stamp::Aborts => None,
                        Stamp::NotTime => Some((seq![], rest)),
                        Stamp::At(ms) => match stamp_run(rest.skip(c + 1)) {
                            None => None,
                            Some(r) => Some((seq![ms] + r.0, r.1)),
                        },
                    }
                }
            },
        }
    }
}

pub open spec fn prepend_stamps(head: Seq<u64>, r: Option<(Seq<u64>, Seq<char>)>) -> Option<
    (Seq<u64>, Seq<char>),
> {
    match r {
        None => None,
        Some(x) => Some((head + x.0, x.1)),
    }
}

/// The run of timestamps at the start of `rest` and where the text after
/// it begins.
#[verifier::rlimit(50)]
pub fn stamp_run_in(rest: &Vec<char>) -> (r: Option<(Vec<u64>, usize)>)
    ensures
        match r {
            None => stamp_run(rest@) is None,
            Some(x) => x.1 <= rest.len() && stamp_run(rest@) == Some((x.0@, rest@.skip(x.1 as int))),
        },
{
    let mut acc: Vec<u64> = Vec::new();
    let mut pos: usize = 0;
    assert(rest@.skip(0) =~= rest@);
    assert(forall|t: Seq<u64>| acc@ + t =~= t);
    loop
        invariant
            pos <= rest.len(),
            stamp_run(rest@) == prepend_stamps(acc@, stamp_run(rest@.skip(pos as int))),
        decreases rest.len() - pos,
    {
        let ghost cur = rest@.skip(pos as int);
        if !(pos < rest.len() && rest[pos] == '[') {
            assert(acc@ + seq![] =~= acc@);
            return Some((acc, pos));
        }
        let c = match find_char_from(rest, ']', pos) {
            None => {
                assert(acc@ + seq![] =~= acc@);
                return Some((acc, pos));
            },
            Some(c) => c,
        };
        proof {
            lemma_find_char(cur, ']');
            assert(cur.subrange(1, c - pos) =~= rest@.subrange(pos + 1, c as int));
            assert(cur.skip(c - pos + 1) =~= rest@.skip(c + 1));
        }
        let inside = slice(rest, pos + 1, c);
        if !is_stamp_like_in(&inside) {
            assert(acc@ + seq![] =~= acc@);
            return Some((acc, pos));
        }
        match read_stamp_in(&inside) {
            Stamp::Aborts => {
                return None;
            },
            Stamp::NotTime => {
                assert(acc@ + seq![] =~= acc@);
                return Some((acc, pos));
            },
            Stamp::At(ms) => {
                let ghost a0 = acc@;
                acc.push(ms);
                assert(forall|t: Seq<u64>| a0 + (seq![ms] + t) =~= acc@ + t);
                pos = c + 1;
            },
        }
    }
}

/// The second bracket of `after` holds a timestamp-like text.
pub open spec fn second_is_stamp(after: Seq<char>) -> bool {
    match find_char(after, ']') {
        Some(sc) => sc >= 1 && is_stamp_like(after.subrange(1, sc)),
        None => false,
    }
}

/// Enhanced-LRC words of `after`, when it has both `<` and `>`.
pub open spec fn enhanced_part(after: Seq<char>) -> Option<Seq<WordS>> {
    if has_char(after, '<') && has_char(after, '>') {
        match enhanced_words(after) {
            None => None,
            Some(w) => Some(unspace_last(w)),
        }
    } else {
        Some(seq![])
    }
}

/// Inline-LRC words of `after`, when it has a `[`.
pub open spec fn inline_part(after: Seq<char>, first: u64) -> Option<Seq<WordS>> {
    if has_char(after, '[') {
        inline_words(after, first)
    } else {
        Some(seq![])
    }
}

/// The lyric lines that the rest of a line after its first timestamp
/// `first` gives.
pub open spec fn lines_after_stamp(first: u64, after: Seq<char>) -> Option<Seq<LineS>> {
    if after.len() > 0 && after[0] == '[' && second_is_stamp(after) {
        match stamp_run(after) {
            None => None,
            Some(r) => Some((seq![first] + r.0).map_values(|t: u64| text_line(t, r.1))),
        }
    } else {
        match enhanced_part(after) {
            None => None,
            Some(ew) => if ew.len() > 0 {
                Some(seq![word_line(first, ew)])
            } else {
                match inline_part(after, first) {
                    None => None,
                    Some(iw) => if iw.len() > 0 {
                        Some(seq![word_line(first, iw)])
                    } else {
                        Some(seq![text_line(first, after)])
                    },
                }
            },
        }
    }
}

/// The lyric lines of one physical LRC line: none for metadata tags and
/// non-lyric text, one per timestamp for `[t][t]text`, one word-level line
/// for enhanced or inline word-synced LRC, one line-level line otherwise.
/// `None` when a timestamp makes the reader abort.
pub open spec fn parse_line(raw: Seq<char>) -> Option<Seq<LineS>> {
    let line = trim(raw);
    if line.len() == 0 || line[0] != '[' {
        Some(seq![])
    } else {
        match find_char(line, ']') {
            None => Some(seq![]),
            Some(close) => {
                let first_inside = line.subrange(1, close);
                if close < 1 || !is_stamp_like(first_inside) {
                    Some(seq![])
                } else {
                    match read_stamp(first_inside) {
                        Stamp::Aborts => None,
                        Stamp::NotTime => Some(seq![]),
                        Stamp::At(first) => lines_after_stamp(first, line.skip(close + 1)),
                    }
                }
            },
        }
    }
}

/// A line-level line.
pub fn make_text_line(start: u64, text: Vec<char>) -> (l: LrcLine)
    ensures
        l@ == text_line(start, text@),
{
    let l = LrcLine { start_ms: start, end_ms: 0, words: Vec::new(), text, translation: None };
    assert(l@.words =~= seq![]);
    l
}

/// A word-level line.
pub fn make_word_line(start: u64, words: Vec<LrcWord>) -> (l: LrcLine)
    ensures
        l@ == word_line(start, words_view(words@)),
{
    let l = LrcLine { start_ms: start, end_ms: 0, words, text: Vec::new(), translation: None };
    assert(l@.text =~= seq![]);
    l
}

/// One line-level line per start time, all with the same text.
pub fn text_lines(first: u64, stamps: &Vec<u64>, text: &Vec<char>) -> (r: Vec<LrcLine>)
    ensures
        lines_view(r@) == (seq![first] + stamps@).map_values(|t: u64| text_line(t, text@)),
{
    let ghost all = seq![first] + stamps@;
    let mut r: Vec<LrcLine> = Vec::new();
    r.push(make_text_line(first, slice(text, 0, text.len())));
    assert(text@.subrange(0, text@.len() as int) =~= text@);
    let mut k: usize = 0;
    while k < stamps.len()
        invariant
            k <= stamps.len(),
            all == seq![first] + stamps@,
            lines_view(r@) == all.take(k + 1).map_values(|t: u64| text_line(t, text@)),
        decreases stamps.len() - k,
    {
        let ghost before = lines_view(r@);
        r.push(make_text_line(stamps[k], slice(text, 0, text.len())));
        assert(text@.subrange(0, text@.len() as int) =~= text@);
        assert(all[k + 1] == stamps@[k as int]);
        assert(lines_view(r@) =~= before.push(text_line(stamps@[k as int], text@)));
        assert(lines_view(r@) =~= all.take(k + 2).map_values(|t: u64| text_line(t, text@)));
        k = k + 1;
    }
    assert(all.take(stamps.len() + 1) =~= all);
    r
}

/// The lyric lines of the rest of a line after its first timestamp.
#[verifier::rlimit(50)]
pub fn lines_after_stamp_in(first: u64, after: &Vec<char>) -> (r: Option<Vec<LrcLine>>)
    ensures
        match r {
            None => lines_after_stamp(first, after@) is None,
            Some(ls) => lines_after_stamp(first, after@) == Some(lines_view(ls@)),
        },
{
    if after.len() > 0 && after[0] == '[' {
        match find_char_in(after, ']') {
            Some(sc) => {
                let inside = slice(after, 1, sc);
                if sc >= 1 && is_stamp_like_in(&inside) {
                    match stamp_run_in(after) {
                        None => {
                            return None;
                        },
                        Some(run) => {
                            let text = slice(after, run.1, after.len());
                            let ls = text_lines(first, &run.0, &text);
                            return Some(ls);
                        },
                    }
                }
            },
            None => {},
        }
    }
    if has_char_in(after, '<') && has_char_in(after, '>') {
        match enhanced_words_in(after) {
            None => {
                return None;
            },
            Some(ws) => {
                let mut ws = ws;
                unspace_last_in(&mut ws);
                if ws.len() > 0 {
                    let mut out: Vec<LrcLine> = Vec::new();
                    out.push(make_word_line(first, ws));
                    assert(lines_view(out@) =~= lines_after_stamp(first, after@).unwrap());
                    return Some(out);
                }
            },
        }
    }
    if has_char_in(after, '[') {
        match inline_words_in(after, first) {
            None => {
                return None;
            },
            Some(ws) => {
                if ws.len() > 0 {
                    let mut out: Vec<LrcLine> = Vec::new();
                    out.push(make_word_line(first, ws));
                    assert(lines_view(out@) =~= lines_after_stamp(first, after@).unwrap());
                    return Some(out);
                }
            },
        }
    }
    let mut out: Vec<LrcLine> = Vec::new();
    out.push(make_text_line(first, slice(after, 0, after.len())));
    assert(after@.subrange(0, after@.len() as int) =~= after@);
    assert(lines_view(out@) =~= lines_after_stamp(first, after@).unwrap());
    Some(out)
}

/// The lyric lines of one physical LRC line; `None` when a timestamp makes
/// the reader abort.
pub fn parse_line_in(raw: &Vec<char>) -> (r: Option<Vec<LrcLine>>)
    ensures
        match r {
            None => parse_line(raw@) is None,
            Some(ls) => parse_line(raw@) == Some(lines_view(ls@)),
        },
{
    let empty: Vec<LrcLine> = Vec::new();
    assert(lines_view(empty@) =~= seq![]);
    let line = trim_in(raw);
    if line.len() == 0 || line[0] != '[' {
        return Some(empty);
    }
    let close = match find_char_in(&line, ']') {
        None => {
            return Some(empty);
        },
        Some(c) => c,
    };
    if close < 1 {
        return Some(empty);
    }
    let first_inside = slice(&line, 1, close);
    if !is_stamp_like_in(&first_inside) {
        return Some(empty);
    }
    match read_stamp_in(&first_inside) {
        Stamp::Aborts => None,
        Stamp::NotTime => Some(empty),
        Stamp::At(first) => {
            let after = slice(&line, close + 1, line.len());
            lines_after_stamp_in(first, &after)
        },
    }
}

// ───────────────────────────── whole documents ────────────────────────

/// The lyric lines of all physical lines; `None` when one aborts.
pub open spec fn parse_lines(ls: Seq<Seq<char>>) -> Option<Seq<LineS>>
    decreases ls.len(),
{
    if ls.len() == 0 {
        Some(seq![])
    } else {
        match parse_lines(ls.drop_last()) {
            None => None,
            Some(a) => match parse_line(ls.last()) {
                None => None,
                Some(b) => Some(a + b),
            },
        }
    }
}

/// The lyric lines of all physical lines.
pub fn parse_lines_in(ls: &Vec<Vec<char>>) -> (r: Option<Vec<LrcLine>>)
    ensures
        match r {
            None => parse_lines(seqs_view(ls@)) is None,
            Some(out) => parse_lines(seqs_view(ls@)) == Some(lines_view(out@)),
        },
{
    let ghost all = seqs_view(ls@);
    let mut out: Vec<LrcLine> = Vec::new();
    let mut i: usize = 0;
    assert(all.take(0) =~= seq![]);
    assert(lines_view(out@) =~= seq![]);
    while i < ls.len()
        invariant
            i <= ls.len(),
            all == seqs_view(ls@),
            parse_lines(all.take(i as int)) == Some(lines_view(out@)),
        decreases ls.len() - i,
    {
        assert(all.take(i + 1).drop_last() =~= all.take(i as int));
        assert(all.take(i + 1).last() == ls@[i as int]@);
        match parse_line_in(&ls[i]) {
            None => {
                proof {
                    lemma_parse_lines_none(all, i as int);
                }
                return None;
            },
            Some(more) => {
                let ghost a = lines_view(out@);
                let ghost b = lines_view(more@);
                let mut more = more;
                out.append(&mut more);
                assert(lines_view(out@) =~= a + b);
            },
        }
        i = i + 1;
    }
    assert(all.take(ls.len() as int) =~= all);
    Some(out)
}

/// Once a line aborts, the whole document does.
pub proof fn lemma_parse_lines_none(all: Seq<Seq<char>>, i: int)
    requires
        0 <= i < all.len(),
        parse_line(all[i]) is None,
    ensures
        parse_lines(all) is None,
    decreases all.len(),
{
    if i < all.len() - 1 {
        lemma_parse_lines_none(all.drop_last(), i);
    } else {
        assert(all.last() == all[i]);
    }
}

/// Text inside the first `[...]` of a trimmed line that starts with `[`.
pub open spec fn bracket_inside(raw: Seq<char>) -> Option<Seq<char>> {
    let l = trim(raw);
    if l.len() > 0 && l[0] == '[' {
        match find_char(l, ']') {
            Some(c) => if c >= 1 {
                Some(l.subrange(1, c))
            } else {
                None
            },
            None => None,
        }
    } else {
        None
    }
}

/// Text inside the first `[...]` of a trimmed line that starts with `[`.
pub fn bracket_inside_in(raw: &Vec<char>) -> (r: Option<Vec<char>>)
    ensures
        opt_view(r) == bracket_inside(raw@),
{
    let l = trim_in(raw);
    if l.len() > 0 && l[0] == '[' {
        match find_char_in(&l, ']') {
            Some(c) => if c >= 1 {
                Some(slice(&l, 1, c))
            } else {
                None
            },
            None => None,
        }
    } else {
        None
    }
}

pub open spec fn offset_tag() -> Seq<char> {
    seq!['o', 'f', 'f', 's', 'e', 't', ':']
}

/// The offset that one line sets, if it is an `[offset:...]` tag; an
/// unreadable value counts as 0.
pub open spec fn line_offset(raw: Seq<char>) -> Option<i64> {
    match bracket_inside(raw) {
        Some(inside) => if starts_with(inside, offset_tag()) {
            Some(
                match parse_i64(trim(inside.skip(7))) {
                    Some(v) => v,
                    None => 0,
                },
            )
        } else {
            None
        },
        None => None,
    }
}

/// The offset of the first `[offset:...]` tag, or 0.
pub open spec fn offset_of(ls: Seq<Seq<char>>) -> i64
    decreases ls.len(),
{
    if ls.len() == 0 {
        0
    } else {
        match line_offset(ls[0]) {
            Some(v) => v,
            None => offset_of(ls.drop_first()),
        }
    }
}

/// The offset that one line sets.
pub fn line_offset_in(raw: &Vec<char>) -> (r: Option<i64>)
    ensures
        r == line_offset(raw@),
{
    match bracket_inside_in(raw) {
        None => None,
        Some(inside) => {
            let mut tag: Vec<char> = Vec::new();
            tag.push('o');
            tag.push('f');
            tag.push('f');
            tag.push('s');
            tag.push('e');
            tag.push('t');
            tag.push(':');
            assert(tag@ =~= offset_tag());
            if starts_with_in(&inside, &tag) {
                let value = trim_in(&slice(&inside, 7, inside.len()));
                Some(
                    match parse_i64_in(&value) {
                        Some(v) => v,
                        None => 0,
                    },
                )
            } else {
                None
            }
        },
    }
}

/// The offset of the first `[offset:...]` tag, or 0.
pub fn offset_of_in(ls: &Vec<Vec<char>>) -> (r: i64)
    ensures
        r == offset_of(seqs_view(ls@)),
{
    let ghost all = seqs_view(ls@);
    let mut i: usize = 0;
    assert(all.skip(0) =~= all);
    while i < ls.len()
        invariant
            i <= ls.len(),
            all == seqs_view(ls@),
            offset_of(all) == offset_of(all.skip(i as int)),
        decreases ls.len() - i,
    {
        assert(all.skip(i as int)[0] == ls@[i as int]@);
        assert(all.skip(i as int).drop_first() =~= all.skip(i + 1));
        match line_offset_in(&ls[i]) {
            Some(v) => {
                return v;
            },
            None => {},
        }
        i = i + 1;
    }
    0
}

/// Title, artist and album tags of an LRC document.
pub struct MetaS {
    pub title: Option<Seq<char>>,
    pub artist: Option<Seq<char>>,
    pub album: Option<Seq<char>>,
}

/// Title, artist and album tags of an LRC document.
pub struct LrcMetadata {
    pub title: Option<Vec<char>>,
    pub artist: Option<Vec<char>>,
    pub album: Option<Vec<char>>,
}

impl View for LrcMetadata {
    type V = MetaS;

    open spec fn view(&self) -> MetaS {
        MetaS {
            title: opt_view(self.title),
            artist: opt_view(self.artist),
            album: opt_view(self.album),
        }
    }
}

pub open spec fn tag2(a: char, b: char) -> Seq<char> {
    seq![a, b, ':']
}

/// The tags after reading one more line: `[ti:..]`, `[ar:..]` and
/// `[al:..]` set the title, artist and album.
pub open spec fn meta_step(m: MetaS, raw: Seq<char>) -> MetaS {
    match bracket_inside(raw) {
        None => m,
        Some(inside) => if starts_with(inside, tag2('t', 'i')) {
            MetaS { title: Some(trim(inside.skip(3))), artist: m.artist, album: m.album }
        } else if starts_with(inside, tag2('a', 'r')) {
            MetaS { title: m.title, artist: Some(trim(inside.skip(3))), album: m.album }
        } else if starts_with(inside, tag2('a', 'l')) {
            MetaS { title: m.title, artist: m.artist, album: Some(trim(inside.skip(3))) }
        } else {
            m
        },
    }
}

/// The tags of a document; a later tag overrides an earlier one.
pub open spec fn meta_of(ls: Seq<Seq<char>>) -> MetaS
    decreases ls.len(),
{
    if ls.len() == 0 {
        MetaS { title: None, artist: None, album: None }
    } else {
        meta_step(meta_of(ls.drop_last()), ls.last())
    }
}

fn tag2_in(a: char, b: char) -> (v: Vec<char>)
    ensures
        v@ == tag2(a, b),
{
    let mut v: Vec<char> = Vec::new();
    v.push(a);
    v.push(b);
    v.push(':');
    assert(v@ =~= tag2(a, b));
    v
}

/// The tags of a document.
#[verifier::rlimit(50)]
pub fn meta_of_in(ls: &Vec<Vec<char>>) -> (m: LrcMetadata)
    ensures
        m@ == meta_of(seqs_view(ls@)),
{
    let ghost all = seqs_view(ls@);
    let mut m = LrcMetadata { title: None, artist: None, album: None };
    let mut i: usize = 0;
    assert(all.take(0) =~= seq![]);
    let ti = tag2_in('t', 'i');
    let ar = tag2_in('a', 'r');
    let al = tag2_in('a', 'l');
    while i < ls.len()
        invariant
            i <= ls.len(),
            all == seqs_view(ls@),
            ti@ == tag2('t', 'i'),
            ar@ == tag2('a', 'r'),
            al@ == tag2('a', 'l'),
            m@ == meta_of(all.take(i as int)),
        decreases ls.len() - i,
    {
        assert(all.take(i + 1).drop_last() =~= all.take(i as int));
        assert(all.take(i + 1).last() == ls@[i as int]@);
        match bracket_inside_in(&ls[i]) {
            None => {},
            Some(inside) => {
                if starts_with_in(&inside, &ti) {
                    m.title = Some(trim_in(&slice(&inside, 3, inside.len())));
                } else if starts_with_in(&inside, &ar) {
                    m.artist = Some(trim_in(&slice(&inside, 3, inside.len())));
                } else if starts_with_in(&inside, &al) {
                    m.album = Some(trim_in(&slice(&inside, 3, inside.len())));
                }
            },
        }
        i = i + 1;
    }
    assert(all.take(ls.len() as int) =~= all);
    m
}

// ───────────────────────────── offsets ────────────────────────────────

/// `t as i64`: the two's complement reading of `t`.
pub open spec fn signed_of(t: u64) -> int {
    if t <= i64::MAX {
        t as int
    } else {
        t - 0x1_0000_0000_0000_0000
    }
}

/// `((t as i64) + off).max(0) as u64`; `None` when the sum leaves `i64`.
pub open spec fn shifted(t: u64, off: i64) -> Option<u64> {
    let y = signed_of(t) + off;
    if y < i64::MIN || y > i64::MAX {
        None
    } else if y < 0 {
        Some(0)
    } else {
        Some(y as u64)
    }
}

pub open spec fn shift_words(ws: Seq<WordS>, off: i64) -> Option<Seq<WordS>>
    decreases ws.len(),
{
    if ws.len() == 0 {
        Some(seq![])
    } else {
        match shift_words(ws.drop_last(), off) {
            None => None,
            Some(a) => match shifted(ws.last().start, off) {
                None => None,
                Some(t) => Some(
                    a.push(
                        WordS {
                            start: t,
                            end: ws.last().end,
                            text: ws.last().text,
                            spaced: ws.last().spaced,
                        },
                    ),
                ),
            },
        }
    }
}

pub open spec fn shift_line(l: LineS, off: i64) -> Option<LineS> {
    match shifted(l.start, off) {
        None => None,
        Some(t) => match shift_words(l.words, off) {
            None => None,
            Some(ws) => Some(
                LineS { start: t, end: l.end, words: ws, text: l.text, translation: l.translation },
            ),
        },
    }
}

/// Every line and word start moved by `off` milliseconds (clamped at 0);
/// `None` when a sum leaves `i64`.
pub open spec fn shift_lines(ls: Seq<LineS>, off: i64) -> Option<Seq<LineS>>
    decreases ls.len(),
{
    if ls.len() == 0 {
        Some(seq![])
    } else {
        match shift_lines(ls.drop_last(), off) {
            None => None,
            Some(a) => match shift_line(ls.last(), off) {
                None => None,
                Some(l) => Some(a.push(l)),
            },
        }
    }
}

/// `t` moved by `off`.
pub fn shift_ms(t: u64, off: i64) -> (r: Option<u64>)
    ensures
        r == shifted(t, off),
{
    let x: i128 = if t <= 0x7fff_ffff_ffff_ffffu64 {
        t as i128
    } else {
        (t as i128) - 0x1_0000_0000_0000_0000i128
    };
    let y: i128 = x + (off as i128);
    if y < -0x8000_0000_0000_0000i128 || y > 0x7fff_ffff_ffff_ffffi128 {
        None
    } else if y < 0 {
        Some(0)
    } else {
        Some(y as u64)
    }
}

pub proof fn lemma_shift_words_prefix_none(ws: Seq<WordS>, off: i64, k: int)
    requires
        0 <= k <= ws.len(),
        shift_words(ws.take(k), off) is None,
    ensures
        shift_words(ws, off) is None,
    decreases ws.len(),
{
    if k < ws.len() {
        assert(ws.drop_last().take(k) =~= ws.take(k));
        lemma_shift_words_prefix_none(ws.drop_last(), off, k);
    } else {
        assert(ws.take(k) =~= ws);
    }
}

pub proof fn lemma_shift_lines_prefix_none(ls: Seq<LineS>, off: i64, k: int)
    requires
        0 <= k <= ls.len(),
        shift_lines(ls.take(k), off) is None,
    ensures
        shift_lines(ls, off) is None,
    decreases ls.len(),
{
    if k < ls.len() {
        assert(ls.drop_last().take(k) =~= ls.take(k));
        lemma_shift_lines_prefix_none(ls.drop_last(), off, k);
    } else {
        assert(ls.take(k) =~= ls);
    }
}

/// Moves every word start by `off`.
#[verifier::rlimit(50)]
pub fn shift_words_in(ws: Vec<LrcWord>, off: i64) -> (r: Option<Vec<LrcWord>>)
    ensures
        match r {
            None => shift_words(words_view(ws@), off) is None,
            Some(out) => shift_words(words_view(ws@), off) == Some(words_view(out@)),
        },
{
    let ghost orig = words_view(ws@);
    let mut src = ws;
    let mut out: Vec<LrcWord> = Vec::new();
    assert(orig.take(0) =~= seq![]);
    assert(words_view(out@) =~= seq![]);
    assert(orig.skip(0) =~= orig);
    while src.len() > 0
        invariant
            orig == words_view(ws@),
            out.len() <= orig.len(),
            words_view(src@) == orig.skip(out.len() as int),
            shift_words(orig.take(out.len() as int), off) == Some(words_view(out@)),
        decreases src.len(),
    {
        let k = out.len();
        let ghost pre = src@;
        assert(words_view(pre) == orig.skip(k as int));
        assert(words_view(pre)[0] == pre[0]@);
        let w = src.remove(0);
        assert(w@ == orig[k as int]);
        assert(words_view(src@) =~= words_view(pre).skip(1));
        assert(words_view(src@) =~= orig.skip(k + 1));
        assert(orig.take(k + 1).drop_last() =~= orig.take(k as int));
        match shift_ms(w.start_ms, off) {
            None => {
                proof {
                    lemma_shift_words_prefix_none(orig, off, k + 1);
                }
                return None;
            },
            Some(t) => {
                let ghost before = words_view(out@);
                out.push(LrcWord { start_ms: t, end_ms: w.end_ms, text: w.text, ends_with_space: w.ends_with_space });
                assert(words_view(out@) =~= before.push(
                    WordS { start: t, end: orig[k as int].end, text: orig[k as int].text, spaced: orig[k as int].spaced },
                ));
            },
        }
    }
    assert(orig.take(orig.len() as int) =~= orig);
    Some(out)
}

/// Moves every line and word start by `off`.
#[verifier::rlimit(50)]
pub fn shift_lines_in(ls: Vec<LrcLine>, off: i64) -> (r: Option<Vec<LrcLine>>)
    ensures
        match r {
            None => shift_lines(lines_view(ls@), off) is None,
            Some(out) => shift_lines(lines_view(ls@), off) == Some(lines_view(out@)),
        },
{
    let ghost orig = lines_view(ls@);
    let mut src = ls;
    let mut out: Vec<LrcLine> = Vec::new();
    assert(orig.take(0) =~= seq![]);
    assert(lines_view(out@) =~= seq![]);
    assert(orig.skip(0) =~= orig);
    while src.len() > 0
        invariant
            orig == lines_view(ls@),
            out.len() <= orig.len(),
            lines_view(src@) == orig.skip(out.len() as int),
            shift_lines(orig.take(out.len() as int), off) == Some(lines_view(out@)),
        decreases src.len(),
    {
        let k = out.len();
        let ghost pre = src@;
        assert(lines_view(pre) == orig.skip(k as int));
        assert(lines_view(pre)[0] == pre[0]@);
        let l = src.remove(0);
        assert(l@ == orig[k as int]);
        assert(lines_view(src@) =~= lines_view(pre).skip(1));
        assert(lines_view(src@) =~= orig.skip(k + 1));
        assert(orig.take(k + 1).drop_last() =~= orig.take(k as int));
        let t = match shift_ms(l.start_ms, off) {
            None => {
                proof {
                    lemma_shift_lines_prefix_none(orig, off, k + 1);
                }
                return None;
            },
            Some(t) => t,
        };
        let ws = match shift_words_in(l.words, off) {
            None => {
                proof {
                    lemma_shift_lines_prefix_none(orig, off, k + 1);
                }
                return None;
            },
            Some(ws) => ws,
        };
        let ghost before = lines_view(out@);
        let nl = LrcLine { start_ms: t, end_ms: l.end_ms, words: ws, text: l.text, translation: l.translation };
        assert(shift_line(orig[k as int], off) == Some(nl@));
        out.push(nl);
        assert(lines_view(out@) =~= before.push(nl@));
    }
    assert(orig.take(orig.len() as int) =~= orig);
    Some(out)
}

// ────────────────────────────── ordering ──────────────────────────────

/// `x` placed after every line of `s` that does not start later than it.
pub open spec fn insert_by_start(s: Seq<LineS>, x: LineS) -> Seq<LineS>
    decreases s.len(),
{
    if s.len() == 0 {
        seq![x]
    } else if x.start < s.last().start {
        insert_by_start(s.drop_last(), x).push(s.last())
    } else {
        s.push(x)
    }
}

/// Stable sort of the lines by start time (what `sort_by_key` yields).
pub open spec fn sort_by_start(s: Seq<LineS>) -> Seq<LineS>
    decreases s.len(),
{
    if s.len() == 0 {
        seq![]
    } else {
        insert_by_start(sort_by_start(s.drop_last()), s.last())
    }
}

pub proof fn lemma_insert_at(s: Seq<LineS>, x: LineS, j: int)
    requires
        0 <= j <= s.len(),
        forall|m: int| j <= m < s.len() ==> x.start < #[trigger] s[m].start,
        j == 0 || !(x.start < s[j - 1].start),
    ensures
        insert_by_start(s, x) == s.take(j) + seq![x] + s.skip(j),
    decreases s.len(),
{
    if s.len() == 0 {
        assert(s.take(j) + seq![x] + s.skip(j) =~= seq![x]);
    } else if j == s.len() {
        assert(s.take(j) + seq![x] + s.skip(j) =~= s.push(x));
    } else {
        let d = s.drop_last();
        assert forall|m: int| j <= m < d.len() implies x.start < #[trigger] d[m].start by {
            assert(d[m] == s[m]);
        }
        if j > 0 {
            assert(d[j - 1] == s[j - 1]);
        }
        lemma_insert_at(d, x, j);
        assert(s.take(j) + seq![x] + s.skip(j) =~= (d.take(j) + seq![x] + d.skip(j)).push(s.last()));
    }
}

/// Lines in stable start-time order.
#[verifier::rlimit(50)]
pub fn sort_lines_in(ls: Vec<LrcLine>) -> (r: Vec<LrcLine>)
    ensures
        lines_view(r@) == sort_by_start(lines_view(ls@)),
{
    let ghost orig = lines_view(ls@);
    let n = ls.len();
    let mut src = ls;
    let mut out: Vec<LrcLine> = Vec::new();
    let mut k: usize = 0;
    assert(orig.take(0) =~= seq![]);
    assert(lines_view(out@) =~= seq![]);
    assert(orig.skip(0) =~= orig);
    while src.len() > 0
        invariant
            orig == lines_view(ls@),
            n == orig.len(),
            k <= orig.len(),
            lines_view(src@) == orig.skip(k as int),
            lines_view(out@) == sort_by_start(orig.take(k as int)),
        decreases src.len(),
    {
        let ghost pre = src@;
        assert(lines_view(pre) == orig.skip(k as int));
        assert(lines_view(pre)[0] == pre[0]@);
        let x = src.remove(0);
        assert(x@ == orig[k as int]);
        assert(lines_view(src@) =~= lines_view(pre).skip(1));
        assert(lines_view(src@) =~= orig.skip(k + 1));
        assert(orig.take(k + 1).drop_last() =~= orig.take(k as int));
        let ghost s0 = lines_view(out@);
        let mut j = out.len();
        while j > 0 && out[j - 1].start_ms > x.start_ms
            invariant
                j <= out.len(),
                s0 == lines_view(out@),
                forall|m: int| j <= m < out.len() ==> x.start_ms < #[trigger] s0[m].start,
            decreases j,
        {
            j = j - 1;
        }
        proof {
            lemma_insert_at(s0, x@, j as int);
        }
        let ghost xv = x@;
        out.insert(j, x);
        assert(lines_view(out@) =~= s0.take(j as int) + seq![xv] + s0.skip(j as int));
        k = k + 1;
    }
    assert(orig.take(orig.len() as int) =~= orig);
    out
}

// ───────────────────────────── end times ──────────────────────────────

/// Each word ends where the next one starts; the last ends with its line.
pub open spec fn with_word_ends(ws: Seq<WordS>, line_end: u64) -> Seq<WordS> {
    Seq::new(
        ws.len(),
        |j: int|
            WordS {
                start: ws[j].start,
                end: if j + 1 < ws.len() {
                    ws[j + 1].start
                } else {
                    line_end
                },
                text: ws[j].text,
                spaced: ws[j].spaced,
            },
    )
}

/// End time of line `i`: the next line's start, or the sentinel.
pub open spec fn line_end_at(ls: Seq<LineS>, i: int) -> u64 {
    if i + 1 < ls.len() {
        ls[i + 1].start
    } else {
        SENTINEL_END_MS
    }
}

/// Each line ends where the next starts; the last ends at the sentinel.
pub open spec fn with_ends(ls: Seq<LineS>) -> Seq<LineS> {
    Seq::new(
        ls.len(),
        |i: int|
            LineS {
                start: ls[i].start,
                end: line_end_at(ls, i),
                words: with_word_ends(ls[i].words, line_end_at(ls, i)),
                text: ls[i].text,
                translation: ls[i].translation,
            },
    )
}

/// Sets word end times.
#[verifier::rlimit(50)]
pub fn word_ends_in(ws: Vec<LrcWord>, line_end: u64) -> (r: Vec<LrcWord>)
    ensures
        words_view(r@) == with_word_ends(words_view(ws@), line_end),
{
    let ghost orig = words_view(ws@);
    let ghost want = with_word_ends(orig, line_end);
    let n = ws.len();
    let mut starts: Vec<u64> = Vec::new();
    let mut i: usize = 0;
    while i < n
        invariant
            i <= n == ws.len(),
            starts.len() == i,
            forall|m: int| 0 <= m < i ==> starts@[m] == ws@[m].start_ms,
        decreases n - i,
    {
        starts.push(ws[i].start_ms);
        i = i + 1;
    }
    let mut src = ws;
    let mut out: Vec<LrcWord> = Vec::new();
    assert(words_view(out@) =~= want.take(0));
    assert(orig.skip(0) =~= orig);
    while src.len() > 0
        invariant
            out.len() <= n,
            n == orig.len(),
            starts.len() == n,
            want == with_word_ends(orig, line_end),
            forall|m: int| 0 <= m < n ==> starts@[m] == orig[m].start,
            words_view(src@) == orig.skip(out.len() as int),
            words_view(out@) == want.take(out.len() as int),
        decreases src.len(),
    {
        let k = out.len();
        let ghost pre = src@;
        assert(words_view(pre) == orig.skip(k as int));
        assert(words_view(pre)[0] == pre[0]@);
        let w = src.remove(0);
        assert(w@ == orig[k as int]);
        assert(words_view(src@) =~= words_view(pre).skip(1));
        assert(words_view(src@) =~= orig.skip(k + 1));
        let e = if k + 1 < n {
            starts[k + 1]
        } else {
            line_end
        };
        let ghost before = words_view(out@);
        let nw = LrcWord { start_ms: w.start_ms, end_ms: e, text: w.text, ends_with_space: w.ends_with_space };
        out.push(nw);
        assert(words_view(out@) =~= want.take(k + 1));
    }
    assert(want.take(n as int) =~= want);
    out
}

/// Sets line and word end times.
#[verifier::rlimit(50)]
pub fn ends_in(ls: Vec<LrcLine>) -> (r: Vec<LrcLine>)
    ensures
        lines_view(r@) == with_ends(lines_view(ls@)),
{
    let ghost orig = lines_view(ls@);
    let ghost want = with_ends(orig);
    let n = ls.len();
    let mut starts: Vec<u64> = Vec::new();
    let mut i: usize = 0;
    while i < n
        invariant
            i <= n == ls.len(),
            starts.len() == i,
            forall|m: int| 0 <= m < i ==> starts@[m] == ls@[m].start_ms,
        decreases n - i,
    {
        starts.push(ls[i].start_ms);
        i = i + 1;
    }
    let mut src = ls;
    let mut out: Vec<LrcLine> = Vec::new();
    assert(lines_view(out@) =~= want.take(0));
    assert(orig.skip(0) =~= orig);
    while src.len() > 0
        invariant
            out.len() <= n,
            n == orig.len(),
            starts.len() == n,
            want == with_ends(orig),
            forall|m: int| 0 <= m < n ==> starts@[m] == orig[m].start,
            lines_view(src@) == orig.skip(out.len() as int),
            lines_view(out@) == want.take(out.len() as int),
        decreases src.len(),
    {
        let k = out.len();
        let ghost pre = src@;
        assert(lines_view(pre) == orig.skip(k as int));
        assert(lines_view(pre)[0] == pre[0]@);
        let l = src.remove(0);
        assert(l@ == orig[k as int]);
        assert(lines_view(src@) =~= lines_view(pre).skip(1));
        assert(lines_view(src@) =~= orig.skip(k + 1));
        let e = if k + 1 < n {
            starts[k + 1]
        } else {
            SENTINEL_END_MS
        };
        assert(e == line_end_at(orig, k as int));
        let ws = word_ends_in(l.words, e);
        let nl = LrcLine { start_ms: l.start_ms, end_ms: e, words: ws, text: l.text, translation: l.translation };
        assert(nl@ == want[k as int]);
        out.push(nl);
        assert(lines_view(out@) =~= want.take(k + 1));
    }
    assert(want.take(n as int) =~= want);
    out
}

// ──────────────────────────── translations ────────────────────────────

/// Whether `line` becomes the translation of `prev`: same start, `prev`
/// has none yet, and `line` is a non-empty line-level lyric.
pub open spec fn is_translation_of(prev: LineS, line: LineS) -> bool {
    prev.start == line.start && prev.translation is None && line.text.len() > 0 && line.words.len()
        == 0
}

pub open spec fn max_u64(a: u64, b: u64) -> u64 {
    if a >= b {
        a
    } else {
        b
    }
}

/// Bilingual LRC: a line-level line right after a line with the same start
/// becomes that line's translation.
pub open spec fn merge_translations(ls: Seq<LineS>) -> Seq<LineS>
    decreases ls.len(),
{
    if ls.len() == 0 {
        seq![]
    } else {
        let out = merge_translations(ls.drop_last());
        let line = ls.last();
        if out.len() > 0 && is_translation_of(out.last(), line) {
            let prev = out.last();
            out.update(
                out.len() - 1,
                LineS {
                    start: prev.start,
                    end: max_u64(prev.end, line.end),
                    words: prev.words,
                    text: prev.text,
                    translation: Some(line.text),
                },
            )
        } else {
            out.push(line)
        }
    }
}

/// Merges bilingual lines.
#[verifier::rlimit(50)]
pub fn merge_translations_in(ls: Vec<LrcLine>) -> (r: Vec<LrcLine>)
    ensures
        lines_view(r@) == merge_translations(lines_view(ls@)),
{
    let ghost orig = lines_view(ls@);
    let n = ls.len();
    let mut src = ls;
    let mut out: Vec<LrcLine> = Vec::new();
    let mut k: usize = 0;
    assert(orig.take(0) =~= seq![]);
    assert(lines_view(out@) =~= seq![]);
    assert(orig.skip(0) =~= orig);
    while src.len() > 0
        invariant
            orig == lines_view(ls@),
            n == orig.len(),
            k <= orig.len(),
            lines_view(src@) == orig.skip(k as int),
            lines_view(out@) == merge_translations(orig.take(k as int)),
        decreases src.len(),
    {
        let ghost pre = src@;
        assert(lines_view(pre) == orig.skip(k as int));
        assert(lines_view(pre)[0] == pre[0]@);
        let line = src.remove(0);
        assert(line@ == orig[k as int]);
        assert(lines_view(src@) =~= lines_view(pre).skip(1));
        assert(lines_view(src@) =~= orig.skip(k + 1));
        assert(orig.take(k + 1).drop_last() =~= orig.take(k as int));
        let ghost o = lines_view(out@);
        let n = out.len();
        if n > 0 && out[n - 1].start_ms == line.start_ms && out[n - 1].translation.is_none()
            && line.text.len() > 0 && line.words.len() == 0 {
            let prev = out.pop().unwrap();
            assert(prev@ == o.last());
            let end = if prev.end_ms >= line.end_ms {
                prev.end_ms
            } else {
                line.end_ms
            };
            let merged = LrcLine {
                start_ms: prev.start_ms,
                end_ms: end,
                words: prev.words,
                text: prev.text,
                translation: Some(line.text),
            };
            let ghost mv = merged@;
            out.push(merged);
            assert(lines_view(out@) =~= o.update(o.len() - 1, mv));
        } else {
            let ghost lv = line@;
            out.push(line);
            assert(lines_view(out@) =~= o.push(lv));
        }
        k = k + 1;
    }
    assert(orig.take(orig.len() as int) =~= orig);
    out
}

// ───────────────────────────── TTML output ────────────────────────────

/// Some line has word-level timing.
pub open spec fn has_word_timing(ls: Seq<LineS>) -> bool {
    exists|i: int| 0 <= i < ls.len() && ls[i].words.len() > 0
}

/// XML declaration, `<tt>` opening tag and the start of the metadata.
pub open spec fn ttml_head(word_timing: bool) -> Seq<char> {
    "<?xml version=\"1.0\" encoding=\"UTF-8\"?>\n"@
        + "<tt xmlns=\"http://www.w3.org/ns/ttml\" xmlns:ttm=\"http://www.w3.org/ns/ttml#metadata\" xmlns:itunes=\"http://music.apple.com/lyric-ttml-internal\" xmlns:amll=\"http://www.example.com/ns/amll\" xml:lang=\"und\""@
        + (if word_timing {
        " itunes:timing=\"Word\""@
    } else {
        seq![]
    }) + ">\n"@ + "<head><metadata>"@ + "<ttm:agent type=\"person\" xml:id=\"v1\"/>"@
}

/// An `<amll:meta>` element whose opening text up to the value is `open`.
pub open spec fn meta_item(open: Seq<char>, v: Option<Seq<char>>) -> Seq<char> {
    match v {
        Some(t) => open + xml_escape(t) + "\"/>"@,
        None => seq![],
    }
}

pub open spec fn meta_xml(m: MetaS) -> Seq<char> {
    meta_item("<amll:meta key=\"musicName\" value=\""@, m.title) + meta_item(
        "<amll:meta key=\"artists\" value=\""@,
        m.artist,
    ) + meta_item("<amll:meta key=\"album\" value=\""@, m.album)
}

/// The `<span>` of a word.
pub open spec fn span_xml(w: WordS) -> Seq<char> {
    "<span begin=\""@ + time_code(w.start) + "\" end=\""@ + time_code(w.end) + "\">"@
        + xml_escape(w.text) + "</span>"@
}

/// The `<span>` of word `j`, followed by a space when the source had one
/// and another word follows.
pub open spec fn word_xml(ws: Seq<WordS>, j: int) -> Seq<char> {
    span_xml(ws[j]) + (if j + 1 < ws.len() && ws[j].spaced {
        seq![' ']
    } else {
        seq![]
    })
}

/// The spans of the first `n` words.
pub open spec fn words_xml(ws: Seq<WordS>, n: int) -> Seq<char>
    decreases n,
{
    if n <= 0 {
        seq![]
    } else {
        words_xml(ws, n - 1) + word_xml(ws, n - 1)
    }
}

pub open spec fn translation_xml(t: Option<Seq<char>>) -> Seq<char> {
    match t {
        Some(x) => "<span ttm:role=\"x-translation\" xml:lang=\"und\">"@ + xml_escape(x)
            + "</span>"@,
        None => seq![],
    }
}

/// The opening `<p>` tag of line `i` (keyed `L{i+1}`).
pub open spec fn p_open(i: int, l: LineS) -> Seq<char> {
    "<p begin=\""@ + time_code(l.start) + "\" end=\""@ + time_code(l.end) + "\" itunes:key=\"L"@
        + dec((i + 1) as nat) + "\" ttm:agent=\"v1\">"@
}

/// The lyric text of a line: escaped text, or one span per word.
pub open spec fn line_body(l: LineS) -> Seq<char> {
    if l.words.len() == 0 {
        xml_escape(l.text)
    } else {
        words_xml(l.words, l.words.len() as int)
    }
}

/// The `<p>` element of line `i`.
pub open spec fn line_xml(i: int, l: LineS) -> Seq<char> {
    p_open(i, l) + line_body(l) + translation_xml(l.translation) + "</p>\n"@
}

/// The `<p>` elements of the first `n` lines.
pub open spec fn lines_xml(ls: Seq<LineS>, n: int) -> Seq<char>
    decreases n,
{
    if n <= 0 {
        seq![]
    } else {
        lines_xml(ls, n - 1) + line_xml(n - 1, ls[n - 1])
    }
}

/// The TTML document for the lines and metadata.
pub open spec fn ttml_document(ls: Seq<LineS>, m: MetaS) -> Seq<char> {
    ttml_head(has_word_timing(ls)) + meta_xml(m) + "</metadata></head>\n"@ + "<body><div>\n"@
        + lines_xml(ls, ls.len() as int) + "</div></body>\n</tt>"@
}

fn push_meta_item(out: &mut String, open: &str, v: &Option<Vec<char>>)
    ensures
        final(out)@ == old(out)@ + meta_item(open@, opt_view(*v)),
{
    match v {
        Some(t) => {
            push_str(out, open);
            push_escaped(out, t);
            push_str(out, "\"/>");
        },
        None => {
            assert(out@ =~= out@ + seq![]);
        },
    }
}

fn push_span(out: &mut String, w: &LrcWord)
    ensures
        final(out)@ == old(out)@ + span_xml(w@),
{
    let ghost o = out@;
    push_str(out, "<span begin=\"");
    push_time_code(out, w.start_ms);
    push_str(out, "\" end=\"");
    push_time_code(out, w.end_ms);
    push_str(out, "\">");
    push_escaped(out, &w.text);
    push_str(out, "</span>");
    assert(out@ =~= o + span_xml(w@));
}

fn push_words(out: &mut String, ws: &Vec<LrcWord>)
    ensures
        final(out)@ == old(out)@ + words_xml(words_view(ws@), ws.len() as int),
{
    let ghost o = out@;
    let ghost wv = words_view(ws@);
    let mut j: usize = 0;
    assert(o + words_xml(wv, 0) =~= o);
    while j < ws.len()
        invariant
            j <= ws.len(),
            wv == words_view(ws@),
            out@ == o + words_xml(wv, j as int),
        decreases ws.len() - j,
    {
        let ghost before = out@;
        let w = &ws[j];
        assert(wv[j as int] == w@);
        push_span(out, w);
        let ghost after_span = out@;
        if j + 1 < ws.len() && w.ends_with_space {
            push_char(out, ' ');
        }
        assert(out@ =~= after_span + (if j + 1 < wv.len() && wv[j as int].spaced {
            seq![' ']
        } else {
            seq![]
        }));
        assert(out@ =~= before + word_xml(wv, j as int));
        assert(o + words_xml(wv, j + 1) =~= (o + words_xml(wv, j as int)) + word_xml(wv, j as int));
        j = j + 1;
    }
}

fn push_p_open(out: &mut String, i: usize, l: &LrcLine)
    requires
        i < usize::MAX,
    ensures
        final(out)@ == old(out)@ + p_open(i as int, l@),
{
    let ghost o = out@;
    push_str(out, "<p begin=\"");
    push_time_code(out, l.start_ms);
    push_str(out, "\" end=\"");
    push_time_code(out, l.end_ms);
    push_str(out, "\" itunes:key=\"L");
    push_chars(out, &dec_in((i + 1) as u64));
    push_str(out, "\" ttm:agent=\"v1\">");
    assert(out@ =~= o + p_open(i as int, l@));
}

fn push_line(out: &mut String, i: usize, l: &LrcLine)
    requires
        i < usize::MAX,
    ensures
        final(out)@ == old(out)@ + line_xml(i as int, l@),
{
    let ghost o = out@;
    push_p_open(out, i, l);
    let ghost a = out@;
    if l.words.len() == 0 {
        push_escaped(out, &l.text);
    } else {
        push_words(out, &l.words);
    }
    let ghost b = out@;
    assert(b == a + line_body(l@));
    match &l.translation {
        Some(t) => {
            push_str(out, "<span ttm:role=\"x-translation\" xml:lang=\"und\">");
            push_escaped(out, t);
            push_str(out, "</span>");
        },
        None => {},
    }
    assert(out@ =~= b + translation_xml(l@.translation));
    let ghost c = out@;
    push_str(out, "</p>\n");
    assert(out@ =~= o + line_xml(i as int, l@));
}

/// Whether some line is word-timed.
fn any_word_timing(ls: &Vec<LrcLine>) -> (b: bool)
    ensures
        b == has_word_timing(lines_view(ls@)),
{
    let mut i: usize = 0;
    while i < ls.len()
        invariant
            i <= ls.len(),
            forall|m: int| 0 <= m < i ==> ls@[m].words.len() == 0,
        decreases ls.len() - i,
    {
        if ls[i].words.len() > 0 {
            assert(lines_view(ls@)[i as int].words.len() > 0);
            return true;
        }
        i = i + 1;
    }
    assert forall|m: int| 0 <= m < ls.len() implies lines_view(ls@)[m].words.len() == 0 by {
        assert(lines_view(ls@)[m] == ls@[m]@);
    }
    false
}

/// Generates the TTML document from parsed lines and metadata.
#[verifier::rlimit(50)]
pub fn generate_ttml(ls: &Vec<LrcLine>, meta: &LrcMetadata) -> (s: String)
    ensures
        s@ == ttml_document(lines_view(ls@), meta@),
{
    let ghost lv = lines_view(ls@);
    let mut out = String::new();
    push_str(&mut out, "<?xml version=\"1.0\" encoding=\"UTF-8\"?>\n");
    push_str(
        &mut out,
        "<tt xmlns=\"http://www.w3.org/ns/ttml\" xmlns:ttm=\"http://www.w3.org/ns/ttml#metadata\" xmlns:itunes=\"http://music.apple.com/lyric-ttml-internal\" xmlns:amll=\"http://www.example.com/ns/amll\" xml:lang=\"und\"",
    );
    let timing = any_word_timing(ls);
    let ghost before_timing = out@;
    if timing {
        push_str(&mut out, " itunes:timing=\"Word\"");
    }
    assert(out@ =~= before_timing + (if timing {
        " itunes:timing=\"Word\""@
    } else {
        seq![]
    }));
    push_str(&mut out, ">\n");
    push_str(&mut out, "<head><metadata>");
    push_str(&mut out, "<ttm:agent type=\"person\" xml:id=\"v1\"/>");
    assert(out@ =~= ttml_head(has_word_timing(lv)));
    push_meta_item(&mut out, "<amll:meta key=\"musicName\" value=\"", &meta.title);
    push_meta_item(&mut out, "<amll:meta key=\"artists\" value=\"", &meta.artist);
    push_meta_item(&mut out, "<amll:meta key=\"album\" value=\"", &meta.album);
    assert(out@ =~= ttml_head(has_word_timing(lv)) + meta_xml(meta@));
    push_str(&mut out, "</metadata></head>\n");
    push_str(&mut out, "<body><div>\n");
    let ghost pre = out@;
    let mut i: usize = 0;
    assert(pre + lines_xml(lv, 0) =~= pre);
    while i < ls.len()
        invariant
            i <= ls.len(),
            lv == lines_view(ls@),
            out@ == pre + lines_xml(lv, i as int),
        decreases ls.len() - i,
    {
        let ghost before = out@;
        push_line(&mut out, i, &ls[i]);
        assert(lv[i as int] == ls@[i as int]@);
        assert(out@ =~= before + line_xml(i as int, lv[i as int]));
        i = i + 1;
    }
    push_str(&mut out, "</div></body>\n</tt>");
    assert(out@ =~= ttml_document(lv, meta@));
    out
}

// ───────────────────────────── LRC → TTML ─────────────────────────────

/// The TTML document for LRC `content`: read the `[offset:]` and
/// `ti`/`ar`/`al` tags, parse every line, shift by the offset, order by
/// start time (stably), set end times, merge translations, and emit TTML.
/// `None` when the conversion aborts (a timestamp whose fraction is cut
/// inside a multi-byte character, a millisecond count beyond `u64`, or an
/// offset that overflows `i64`).
pub open spec fn lrc_ttml(content: Seq<char>) -> Option<Seq<char>> {
    let ls = lines(content);
    let offset = offset_of(ls);
    let meta = meta_of(ls);
    match parse_lines(ls) {
        None => None,
        Some(parsed) => {
            let shifted = if offset != 0 {
                shift_lines(parsed, offset)
            } else {
                Some(parsed)
            };
            match shifted {
                None => None,
                Some(sh) => Some(
                    ttml_document(merge_translations(with_ends(sort_by_start(sh))), meta),
                ),
            }
        },
    }
}

/// Converts LRC to TTML; `None` exactly when the conversion aborts.
pub fn try_lrc_to_ttml(content: &str) -> (r: Option<String>)
    ensures
        match r {
            None => lrc_ttml(content@) is None,
            Some(s) => lrc_ttml(content@) == Some(s@),
        },
{
    let v = chars_of(content);
    let ls = lines_in(&v);
    let offset = offset_of_in(&ls);
    let meta = meta_of_in(&ls);
    let parsed = match parse_lines_in(&ls) {
        None => {
            return None;
        },
        Some(p) => p,
    };
    let shifted = if offset != 0 {
        match shift_lines_in(parsed, offset) {
            None => {
                return None;
            },
            Some(x) => x,
        }
    } else {
        parsed
    };
    let sorted = sort_lines_in(shifted);
    let timed = ends_in(sorted);
    let merged = merge_translations_in(timed);
    Some(generate_ttml(&merged, &meta))
}

/// Converts LRC lyrics to a TTML document.
pub fn lrc_to_ttml(content: &str) -> (s: String)
    requires
        lrc_ttml(content@) is Some,
    ensures
        s@ == lrc_ttml(content@).unwrap(),
{
    match try_lrc_to_ttml(content) {
        Some(s) => s,
        None => String::new(),
    }
}

// ─────────────────────────── format detection ─────────────────────────

/// Line `l` (after leading whitespace) starts with `[digits,digits]`: a
/// bracket holding a comma and nothing but digits and commas.
pub open spec fn numeric_header(l: Seq<char>) -> bool {
    let t = trim_start(l);
    t.len() > 0 && t[0] == '[' && match find_char(t, ']') {
        None => false,
        Some(close) => {
            let inside = t.subrange(1, close);
            close >= 1 && has_char(inside, ',') && forall|i: int|
                0 <= i < inside.len() ==> is_digit(#[trigger] inside[i]) || inside[i] == ','
        },
    }
}

/// Some line among the first ten has a numeric header.
pub open spec fn has_numeric_header(content: Seq<char>) -> bool {
    let ls = lines(content);
    exists|i: int| 0 <= i < ls.len() && i < 10 && numeric_header(#[trigger] ls[i])
}

pub open spec fn head_512(content: Seq<char>) -> Seq<char> {
    if content.len() > 512 {
        content.take(512)
    } else {
        content
    }
}

/// TTML when the first 512 characters start (after whitespace) with
/// `<?xml` or `<tt`, or `<tt` occurs anywhere; YRC when a numeric header is
/// among the first ten lines and `,0)` occurs; QRC when such a header is
/// there and `](` occurs; LRC otherwise.
pub open spec fn format_of(content: Seq<char>) -> LyricFormat {
    let trimmed = trim_start(head_512(content));
    if starts_with(trimmed, "<?xml"@) || starts_with(trimmed, "<tt"@) {
        LyricFormat::Ttml
    } else if contains(content, "<tt"@) {
        LyricFormat::Ttml
    } else if has_numeric_header(content) && contains(content, ",0)"@) {
        LyricFormat::Yrc
    } else if has_numeric_header(content) && contains(content, "]("@) {
        LyricFormat::Qrc
    } else {
        LyricFormat::Lrc
    }
}

fn numeric_header_in(l: &Vec<char>) -> (b: bool)
    ensures
        b == numeric_header(l@),
{
    let t = trim_start_in(l);
    if !(t.len() > 0 && t[0] == '[') {
        return false;
    }
    let close = match find_char_in(&t, ']') {
        None => {
            return false;
        },
        Some(c) => c,
    };
    if close < 1 {
        return false;
    }
    let inside = slice(&t, 1, close);
    if !has_char_in(&inside, ',') {
        return false;
    }
    let mut i: usize = 0;
    while i < inside.len()
        invariant
            i <= inside.len(),
            t@ == trim_start(l@),
            t@.len() > 0 && t@[0] == '[',
            find_char(t@, ']') == Some(close as int),
            close >= 1,
            inside@ == t@.subrange(1, close as int),
            has_char(inside@, ','),
            forall|m: int| 0 <= m < i ==> is_digit(#[trigger] inside@[m]) || inside@[m] == ',',
        decreases inside.len() - i,
    {
        let c = inside[i];
        if !(('0' <= c && c <= '9') || c == ',') {
            assert(!(is_digit(inside@[i as int]) || inside@[i as int] == ','));
            return false;
        }
        i = i + 1;
    }
    true
}

/// Detects the format of lyric `content`.
#[verifier::rlimit(50)]
pub fn detect_format(content: &str) -> (f: LyricFormat)
    ensures
        f == format_of(content@),
{
    let v = chars_of(content);
    let head = if v.len() > 512 {
        slice(&v, 0, 512)
    } else {
        slice(&v, 0, v.len())
    };
    assert(v@.subrange(0, v@.len() as int) =~= v@);
    let trimmed = trim_start_in(&head);
    let xml_decl = chars_of("<?xml");
    let tt = chars_of("<tt");
    if starts_with_in(&trimmed, &xml_decl) || starts_with_in(&trimmed, &tt) {
        return LyricFormat::Ttml;
    }
    if contains_in(&v, &tt) {
        return LyricFormat::Ttml;
    }
    let ls = lines_in(&v);
    let ghost lv = seqs_view(ls@);
    let mut numeric = false;
    let mut i: usize = 0;
    while i < ls.len() && i < 10 && !numeric
        invariant
            i <= ls.len(),
            i <= 10,
            lv == seqs_view(ls@),
            lv == lines(v@),
            numeric ==> exists|m: int| 0 <= m < lv.len() && m < 10 && numeric_header(#[trigger] lv[m]),
            !numeric ==> forall|m: int| 0 <= m < i ==> !numeric_header(#[trigger] lv[m]),
        decreases ls.len() - i,
    {
        assert(lv[i as int] == ls@[i as int]@);
        if numeric_header_in(&ls[i]) {
            numeric = true;
        }
        i = i + 1;
    }
    assert(numeric == has_numeric_header(content@));
    if numeric && contains_in(&v, &chars_of(",0)")) {
        return LyricFormat::Yrc;
    }
    if numeric && contains_in(&v, &chars_of("](")) {
        return LyricFormat::Qrc;
    }
    LyricFormat::Lrc
}

// ─────────────────────────────── payloads ─────────────────────────────

/// What the player hands to its lyric view: a format tag and the content.
/// `format` is `"ttml"` for TTML (converted from LRC or passed through),
/// `"yrc"` or `"qrc"` for raw YRC / QRC.
pub struct LyricPayload {
    pub format: String,
    pub content: String,
}

/// The payload for lyric `content`: LRC becomes TTML, other formats pass
/// through with their own tag. `None` when the LRC conversion aborts.
pub open spec fn payload_of(content: Seq<char>) -> Option<(Seq<char>, Seq<char>)> {
    match format_of(content) {
        LyricFormat::Lrc => match lrc_ttml(content) {
            None => None,
            Some(t) => Some(("ttml"@, t)),
        },
        f => Some((format_name(f), content)),
    }
}

/// The payload for lyric `content`; `None` exactly when converting its LRC
/// aborts.
pub fn try_convert_to_payload(content: &str) -> (r: Option<LyricPayload>)
    ensures
        match r {
            None => payload_of(content@) is None,
            Some(p) => payload_of(content@) == Some((p.format@, p.content@)),
        },
{
    match detect_format(content) {
        LyricFormat::Lrc => match try_lrc_to_ttml(content) {
            None => None,
            Some(t) => Some(LyricPayload { format: String::from_str("ttml"), content: t }),
        },
        f => Some(LyricPayload { format: String::from_str(f.as_str()), content: String::from_str(content) }),
    }
}

/// The payload for lyric `content`: LRC is converted to TTML, YRC / QRC /
/// TTML pass through.
pub fn convert_to_payload(content: &str) -> (p: LyricPayload)
    requires
        payload_of(content@) is Some,
    ensures
        payload_of(content@) == Some((p.format@, p.content@)),
{
    match try_convert_to_payload(content) {
        Some(p) => p,
        None => LyricPayload { format: String::new(), content: String::new() },
    }
}


// ──────────────────────────── laws ─────────────────────────────────────

/// Lines in non-decreasing start order.
pub open spec fn sorted_by_start(s: Seq<LineS>) -> bool {
    forall|i: int, j: int| 0 <= i < j < s.len() ==> #[trigger] s[i].start <= #[trigger] s[j].start
}

proof fn lemma_insert_by_start(s: Seq<LineS>, x: LineS)
    requires
        sorted_by_start(s),
    ensures
        sorted_by_start(insert_by_start(s, x)),
        insert_by_start(s, x).to_multiset() =~= s.to_multiset().insert(x),
    decreases s.len(),
{
    broadcast use vstd::seq_lib::group_to_multiset_ensures;

    if s.len() == 0 {
        assert(seq![x] =~= Seq::<LineS>::empty().push(x));
    } else {
        let d = s.drop_last();
        let l = s.last();
        assert(s =~= d.push(l));
        if x.start < l.start {
            assert(sorted_by_start(d)) by {
                assert forall|i: int, j: int| 0 <= i < j < d.len() implies #[trigger] d[i].start
                    <= #[trigger] d[j].start by {
                    assert(d[i] == s[i] && d[j] == s[j]);
                }
            }
            lemma_insert_by_start(d, x);
            let t = insert_by_start(d, x);
            assert forall|i: int| 0 <= i < t.len() implies t[i].start <= l.start by {
                assert(t.contains(t[i]));
                assert(t.to_multiset().count(t[i]) > 0);
                if t[i] != x {
                    assert(d.to_multiset().count(t[i]) > 0);
                    assert(d.contains(t[i]));
                    let k = choose|k: int| 0 <= k < d.len() && d[k] == t[i];
                    assert(s[k] == d[k]);
                    assert(s[k].start <= s[s.len() - 1].start);
                }
            }
            let r = t.push(l);
            assert forall|i: int, j: int| 0 <= i < j < r.len() implies #[trigger] r[i].start
                <= #[trigger] r[j].start by {
                if j == r.len() - 1 {
                    assert(r[i] == t[i]);
                } else {
                    assert(r[i] == t[i] && r[j] == t[j]);
                }
            }
            assert(r.to_multiset() =~= t.to_multiset().insert(l));
            assert(s.to_multiset() =~= d.to_multiset().insert(l));
        } else {
            let r = s.push(x);
            assert forall|i: int, j: int| 0 <= i < j < r.len() implies #[trigger] r[i].start
                <= #[trigger] r[j].start by {
                if j == r.len() - 1 {
                    assert(r[i] == s[i]);
                    if i < s.len() - 1 {
                        assert(s[i].start <= s[s.len() - 1].start);
                    }
                } else {
                    assert(r[i] == s[i] && r[j] == s[j]);
                }
            }
        }
    }
}

/// Sorting lyric lines by start time puts them in start order and keeps
/// every line: the result is a rearrangement of the input.
pub proof fn lemma_sort_by_start(s: Seq<LineS>)
    ensures
        sorted_by_start(sort_by_start(s)),
        sort_by_start(s).to_multiset() =~= s.to_multiset(),
    decreases s.len(),
{
    broadcast use vstd::seq_lib::group_to_multiset_ensures;

    if s.len() > 0 {
        lemma_sort_by_start(s.drop_last());
        lemma_insert_by_start(sort_by_start(s.drop_last()), s.last());
        assert(s =~= s.drop_last().push(s.last()));
    }
}

/// A character that escaping never leaves in its output.
pub open spec fn xml_special(c: char) -> bool {
    c == '<' || c == '>' || c == '"' || c == '\''
}

/// XML-escaped text holds none of `<`, `>`, `"` and `'`: each became an
/// entity.
pub proof fn lemma_xml_escape_clean(s: Seq<char>)
    ensures
        forall|i: int| 0 <= i < xml_escape(s).len() ==> !xml_special(#[trigger] xml_escape(s)[i]),
    decreases s.len(),
{
    if s.len() > 0 {
        lemma_xml_escape_clean(s.drop_last());
        reveal_strlit("&amp;");
        reveal_strlit("&lt;");
        reveal_strlit("&gt;");
        reveal_strlit("&quot;");
        reveal_strlit("&apos;");
        let a = xml_escape(s.drop_last());
        let b = xml_char(s.last());
        assert forall|i: int| 0 <= i < b.len() implies !xml_special(#[trigger] b[i]) by {}
        assert forall|i: int| 0 <= i < xml_escape(s).len() implies !xml_special(
            #[trigger] xml_escape(s)[i],
        ) by {
            if i < a.len() {
                assert(xml_escape(s)[i] == a[i]);
            } else {
                assert(xml_escape(s)[i] == b[i - a.len()]);
            }
        }
    }
}

/// Setting end times keeps the start times: each line then ends where the
/// next one starts, and the last at the sentinel end time.
pub proof fn lemma_with_ends(ls: Seq<LineS>)
    ensures
        with_ends(ls).len() == ls.len(),
        forall|i: int| 0 <= i < ls.len() ==> (#[trigger] with_ends(ls)[i]).start == ls[i].start,
        forall|i: int|
            0 <= i < ls.len() - 1 ==> (#[trigger] with_ends(ls)[i]).end == with_ends(ls)[i
                + 1].start,
        ls.len() > 0 ==> with_ends(ls)[ls.len() - 1].end == SENTINEL_END_MS,
{
}

proof fn lemma_merge_sorted(ls: Seq<LineS>)
    requires
        sorted_by_start(ls),
    ensures
        sorted_by_start(merge_translations(ls)),
        ls.len() > 0 ==> merge_translations(ls).len() > 0 && merge_translations(ls).last().start
            == ls.last().start,
    decreases ls.len(),
{
    if ls.len() > 0 {
        let d = ls.drop_last();
        assert(sorted_by_start(d)) by {
            assert forall|i: int, j: int| 0 <= i < j < d.len() implies #[trigger] d[i].start
                <= #[trigger] d[j].start by {
                assert(d[i] == ls[i] && d[j] == ls[j]);
            }
        }
        lemma_merge_sorted(d);
        let out = merge_translations(d);
        let line = ls.last();
        if out.len() > 0 && is_translation_of(out.last(), line) {
            let r = merge_translations(ls);
            assert forall|i: int, j: int| 0 <= i < j < r.len() implies #[trigger] r[i].start
                <= #[trigger] r[j].start by {
                assert(r[i].start == out[i].start && r[j].start == out[j].start);
            }
        } else {
            let r = out.push(line);
            if out.len() > 0 {
                assert(d.len() > 0);
                assert(ls[d.len() - 1].start <= ls[ls.len() - 1].start);
                assert(out.last().start <= line.start);
            }
            assert forall|i: int, j: int| 0 <= i < j < r.len() implies #[trigger] r[i].start
                <= #[trigger] r[j].start by {
                if j == r.len() - 1 {
                    assert(r[i] == out[i]);
                    if i < out.len() - 1 {
                        assert(out[i].start <= out[out.len() - 1].start);
                    }
                } else {
                    assert(r[i] == out[i] && r[j] == out[j]);
                }
            }
        }
    }
}

/// The lines of a converted lyric come in start order: sorting, setting end
/// times and merging translations leave them so, whatever the input order.
pub proof fn lemma_converted_lines_in_order(s: Seq<LineS>)
    ensures
        sorted_by_start(merge_translations(with_ends(sort_by_start(s)))),
{
    lemma_sort_by_start(s);
    let t = sort_by_start(s);
    lemma_with_ends(t);
    let w = with_ends(t);
    assert forall|i: int, j: int| 0 <= i < j < w.len() implies #[trigger] w[i].start
        <= #[trigger] w[j].start by {
        assert(w[i].start == t[i].start && w[j].start == t[j].start);
    }
    lemma_merge_sorted(w);
}

/// Lyrics in TTML, YRC or QRC are handed on unchanged under their own
/// format name; LRC that converts is handed on as TTML.
pub proof fn lemma_payload_formats(content: Seq<char>)
    ensures
        format_of(content) != LyricFormat::Lrc ==> payload_of(content) == Some(
            (format_name(format_of(content)), content),
        ),
        format_of(content) == LyricFormat::Lrc && lrc_ttml(content) is Some ==> payload_of(
            content,
        ) == Some(("ttml"@, lrc_ttml(content)->0)),
        format_of(content) != LyricFormat::Lrc ==> match payload_of(content) {
            Some(p) => p.0 != "lrc"@,
            None => false,
        },
{
    reveal_strlit("ttml");
    reveal_strlit("yrc");
    reveal_strlit("qrc");
    reveal_strlit("lrc");
    if format_of(content) != LyricFormat::Lrc {
        let n = format_name(format_of(content));
        assert(n[0] != "lrc"@[0] || n.len() != "lrc"@.len());
    }
}

/// Text that holds `<tt` anywhere is taken for TTML.
pub proof fn lemma_tt_means_ttml(content: Seq<char>)
    requires
        contains(content, "<tt"@),
    ensures
        format_of(content) == LyricFormat::Ttml,
{
}

proof fn lemma_pad_dec(n: nat, w: nat)
    requires
        w == 2 || w == 3,
        w == 2 ==> n < 100,
        w == 3 ==> n < 1000,
    ensures
        all_digits(pad_dec(n, w)),
        pad_dec(n, w).len() == w,
        parse_u64(pad_dec(n, w)) == Some(n as u64),
{
    lemma_dec(n);
    lemma_zero_pad(dec(n), w);
    let p = pad_dec(n, w);
    assert(is_digit(p[0]));
    assert(unsigned_digits(p) == p);
}

/// A time code below an hour reads back as the time it was written for:
/// what `format_time` writes, `parse_lrc_timestamp` reads as the same
/// number of milliseconds.
pub proof fn lemma_time_code_round_trip(ms: u64)
    requires
        ms < 3_600_000,
    ensures
        read_stamp(time_code(ms)) == Stamp::At(ms),
{
    let total_seconds = ms / 1000;
    let total_minutes = total_seconds / 60;
    let minutes = (total_minutes % 60) as nat;
    let seconds = (total_seconds % 60) as nat;
    let millis = (ms % 1000) as nat;
    assert(total_minutes < 60);
    assert(minutes == total_minutes);
    lemma_pad_dec(minutes, 2);
    lemma_pad_dec(seconds, 2);
    lemma_pad_dec(millis, 3);
    let mm = pad_dec(minutes, 2);
    let ss = pad_dec(seconds, 2);
    let fff = pad_dec(millis, 3);
    let t = time_code(ms);
    assert(t == clock_tail(minutes, seconds, millis));
    assert(t =~= mm + seq![':'] + ss + seq!['.'] + fff);
    lemma_digits_lack(mm, ':');
    lemma_digits_lack(ss, ':');
    lemma_digits_lack(fff, ':');
    lemma_digits_lack(ss, '.');
    lemma_digits_lack(fff, '.');
    lemma_digits_bytes(fff);
    // the colon after the minutes
    lemma_find_char(t, ':');
    assert(t[2] == ':');
    assert(has_char(t, ':'));
    let i = find_char(t, ':')->0;
    if i < 2 {
        assert(t[i] == mm[i]);
    }
    assert(i == 2);
    assert(t.take(2) =~= mm);
    let rest = t.skip(3);
    assert(rest =~= ss + seq!['.'] + fff);
    assert(!has_char(rest, ':')) by {
        if has_char(rest, ':') {
            let k = choose|k: int| 0 <= k < rest.len() && rest[k] == ':';
            if k < 2 {
                assert(rest[k] == ss[k]);
                assert(has_char(ss, ':'));
            } else if k > 2 {
                assert(rest[k] == fff[k - 3]);
                assert(has_char(fff, ':'));
            }
        }
    }
    // the point after the seconds
    lemma_find_char(rest, '.');
    assert(rest[2] == '.');
    assert(has_char(rest, '.'));
    let j = find_char(rest, '.')->0;
    if j < 2 {
        assert(rest[j] == ss[j]);
    }
    assert(j == 2);
    assert(rest.take(2) =~= ss);
    assert(rest.skip(3) =~= fff);
    assert(second_field(rest, 2) == fff);
    assert(fraction_millis(fff) == Stamp::At(millis as u64));
    assert((total_minutes * 60 + total_seconds % 60) * 1000 + ms % 1000 == ms);
}

/// Consecutive lines that meet: each ends where the next one starts.
pub open spec fn lines_meet(ls: Seq<LineS>) -> bool {
    forall|i: int| 0 <= i < ls.len() - 1 ==> (#[trigger] ls[i]).end == ls[i + 1].start
}

proof fn lemma_merge_meets(w: Seq<LineS>)
    requires
        lines_meet(w),
        forall|i: int| 0 <= i < w.len() - 1 ==> (#[trigger] w[i]).start <= w[i].end,
    ensures
        lines_meet(merge_translations(w)),
        w.len() > 0 ==> merge_translations(w).len() > 0,
        w.len() > 0 && w.last().start <= w.last().end ==> merge_translations(w).last().end
            == w.last().end,
    decreases w.len(),
{
    if w.len() > 0 {
        let d = w.drop_last();
        assert forall|i: int| 0 <= i < d.len() - 1 implies (#[trigger] d[i]).end == d[i
            + 1].start by {
            assert(d[i] == w[i] && d[i + 1] == w[i + 1]);
        }
        assert forall|i: int| 0 <= i < d.len() - 1 implies (#[trigger] d[i]).start <= d[i].end by {
            assert(d[i] == w[i]);
        }
        lemma_merge_meets(d);
        let out = merge_translations(d);
        let line = w.last();
        if d.len() > 0 {
            assert(d.last() == w[w.len() - 2]);
            assert(w[w.len() - 2].end == w[w.len() - 1].start);
        }
        if out.len() > 0 && is_translation_of(out.last(), line) {
            let r = merge_translations(w);
            assert(d.len() > 0);
            assert(out.last().end == d.last().end);
            assert forall|i: int| 0 <= i < r.len() - 1 implies (#[trigger] r[i]).end == r[i
                + 1].start by {
                assert(r[i] == out[i]);
                assert(r[i + 1].start == out[i + 1].start);
            }
        } else {
            let r = out.push(line);
            assert forall|i: int| 0 <= i < r.len() - 1 implies (#[trigger] r[i]).end == r[i
                + 1].start by {
                assert(r[i] == out[i]);
                if i < out.len() - 1 {
                    assert(r[i + 1] == out[i + 1]);
                }
            }
        }
    }
}

/// In a converted lyric every line ends where the next one begins, also
/// after a translation was merged into it (which then runs until the next
/// line); the last line ends at the sentinel end time when no line starts
/// after it.
pub proof fn lemma_converted_lines_meet(s: Seq<LineS>)
    ensures
        ({
            let out = merge_translations(with_ends(sort_by_start(s)));
            &&& forall|i: int|
                0 <= i < out.len() - 1 ==> (#[trigger] out[i]).end == out[i + 1].start
            &&& (s.len() > 0 && forall|i: int| 0 <= i < s.len() ==> (#[trigger] s[i]).start
                <= SENTINEL_END_MS) ==> out.len() > 0 && out[out.len() - 1].end
                == SENTINEL_END_MS
        }),
{
    broadcast use vstd::seq_lib::group_to_multiset_ensures;

    lemma_sort_by_start(s);
    let t = sort_by_start(s);
    lemma_with_ends(t);
    let w = with_ends(t);
    assert forall|i: int| 0 <= i < w.len() - 1 implies (#[trigger] w[i]).start <= w[i].end by {
        assert(t[i].start <= t[i + 1].start);
    }
    lemma_merge_meets(w);
    if s.len() > 0 && forall|i: int| 0 <= i < s.len() ==> (#[trigger] s[i]).start
        <= SENTINEL_END_MS {
        assert(t.len() == s.len()) by {
            assert(t.to_multiset().len() == s.to_multiset().len());
        }
        let l = t[t.len() - 1];
        assert(t.contains(l));
        assert(t.to_multiset().count(l) > 0);
        assert(s.to_multiset().count(l) > 0);
        assert(s.contains(l));
        assert(w.last().start == l.start);
        assert(w.last().end == SENTINEL_END_MS);
    }
}

/// Text with a `[digits,digits]` header on one of its first ten lines
/// (after leading whitespace) and `,0)` somewhere, and no TTML marker, is
/// YRC; with `](` instead of `,0)` it is QRC.
pub proof fn lemma_numeric_header_formats(content: Seq<char>, k: int)
    requires
        0 <= k < 10,
        k < lines(content).len(),
        numeric_header(lines(content)[k]),
        !starts_with(trim_start(head_512(content)), "<?xml"@),
        !starts_with(trim_start(head_512(content)), "<tt"@),
        !contains(content, "<tt"@),
    ensures
        contains(content, ",0)"@) ==> format_of(content) == LyricFormat::Yrc,
        !contains(content, ",0)"@) && contains(content, "]("@) ==> format_of(content)
            == LyricFormat::Qrc,
{
    assert(has_numeric_header(content));
}

// ──────────────────────────── sidecar files ────────────────────────────

/// The sidecar lyric file of an audio file: the file stem (or nothing)
/// put in place of the file name, with the extension `lrc`.
pub open spec fn lrc_path_of(p: Seq<char>) -> Seq<char> {
    path_with_extension(
        path_with_file_name(
            p,
            match path_file_stem(p) {
                Some(s) => s,
                None => seq![],
            },
        ),
        "lrc"@,
    )
}

/// The path of the `.lrc` file that sits beside an audio file.
pub fn derive_lrc_path(audio_path: &str) -> (r: String)
    ensures
        r@ == lrc_path_of(audio_path@),
{
    let stem = match file_stem_of(audio_path) {
        Some(s) => s,
        None => String::new(),
    };
    let named = with_file_name(audio_path, stem.as_str());
    proof {
        reveal_strlit("lrc");
    }
    with_extension(named.as_str(), "lrc")
}

} // verus!
