//! m3u8 playlists: parsing, serialization, and the rules by which tracks
//! enter, move within and leave a stored playlist.

use vstd::prelude::*;

use crate::floats::{is_float_literal, is_float_literal_in};
use crate::paths::{file_name_of, file_stem_of, path_file_name, path_file_stem};
use crate::text::{
    opt_str_view, strings_view,
    chars_of, find_char, find_char_from, find_seq, find_seq_in, has_char, lemma_find_char,
    lemma_find_seq, lines, lines_in, push_char, push_chars, push_str, seqs_view, slice,
    starts_with, starts_with_in, string_of, trim, trim_in, utf8_len,
};

verus! {

// ──────────────────────────── artist / title ───────────────────────────

pub open spec fn dash_sep() -> Seq<char> {
    seq![' ', '-', ' ']
}

/// An `#EXTINF` title `"Artist - Title"` split at its first `" - "`;
/// a title without separator is all title; no or empty text gives nothing.
pub open spec fn artist_title(input: Option<Seq<char>>) -> (Option<Seq<char>>, Option<Seq<char>>) {
    match input {
        None => (None, None),
        Some(s) => if s.len() == 0 {
            (None, None)
        } else {
            match find_seq(s, dash_sep()) {
                Some(m) => (Some(trim(s.take(m))), Some(trim(s.skip(m + 3)))),
                None => (None, Some(s)),
            }
        },
    }
}

/// Splits `"Artist - Title"` into artist and title.
pub fn split_artist_title(input: Option<&str>) -> (r: (Option<String>, Option<String>))
    ensures
        (opt_str_view(r.0), opt_str_view(r.1)) == artist_title(
            match input {
                Some(s) => Some(s@),
                None => None,
            },
        ),
{
    let s = match input {
        None => {
            return (None, None);
        },
        Some(s) => s,
    };
    let v = chars_of(s);
    if v.len() == 0 {
        return (None, None);
    }
    let mut sep: Vec<char> = Vec::new();
    sep.push(' ');
    sep.push('-');
    sep.push(' ');
    assert(sep@ =~= dash_sep());
    match find_seq_in(&v, &sep) {
        Some(m) => {
            proof {
                lemma_find_seq(v@, sep@);
            }
            let artist = trim_in(&slice(&v, 0, m));
            let title = trim_in(&slice(&v, m + 3, v.len()));
            (Some(string_of(&artist)), Some(string_of(&title)))
        },
        None => (None, Some(String::from_str(s))),
    }
}

// ─────────────────────────────── paths ────────────────────────────────

/// `/path`, `\\server\share` and `C:...` count as absolute (the check
/// looks at byte 1 for the `:`).
pub open spec fn looks_absolute(p: Seq<char>) -> bool {
    ||| (p.len() > 0 && p[0] == '/')
    ||| (p.len() > 1 && p[0] == '\\' && p[1] == '\\')
    ||| (p.len() > 1 && utf8_len(p[0]) == 1 && p[1] == ':')
}

/// Number of trailing `/` and `\` characters.
pub open spec fn trail_seps(s: Seq<char>) -> nat
    decreases s.len(),
{
    if s.len() > 0 && (s.last() == '/' || s.last() == '\\') {
        1 + trail_seps(s.drop_last())
    } else {
        0
    }
}

/// `p` resolved against the base directory: absolute paths stay, relative
/// ones become `base/p` (the base without trailing separators); all trimmed.
pub open spec fn resolved_path(path: Seq<char>, base: Option<Seq<char>>) -> Seq<char> {
    let t = trim(path);
    if looks_absolute(t) {
        t
    } else {
        match base {
            Some(b) => if b.len() > 0 {
                b.take(b.len() - trail_seps(b)) + seq!['/'] + t
            } else {
                t
            },
            None => t,
        }
    }
}

pub(crate) fn looks_absolute_in(p: &Vec<char>) -> (b: bool)
    ensures
        b == looks_absolute(p@),
{
    (p.len() > 0 && p[0] == '/') || (p.len() > 1 && p[0] == '\\' && p[1] == '\\') || (p.len() > 1
        && crate::lyrics::utf8_len_of(p[0]) == 1 && p[1] == ':')
}

proof fn lemma_trail_seps(s: Seq<char>, k: int)
    requires
        0 <= k <= s.len(),
        forall|j: int| s.len() - k <= j < s.len() ==> (s[j] == '/' || s[j] == '\\'),
        k == s.len() || !(s[s.len() - 1 - k] == '/' || s[s.len() - 1 - k] == '\\'),
    ensures
        trail_seps(s) == k,
    decreases k,
{
    if k > 0 {
        assert forall|j: int| s.len() - 1 - (k - 1) <= j < s.len() - 1 implies (s.drop_last()[j]
            == '/' || s.drop_last()[j] == '\\') by {
            assert(s.drop_last()[j] == s[j]);
        }
        if k < s.len() {
            assert(s.drop_last()[s.len() - 1 - k] == s[s.len() - 1 - k]);
        }
        lemma_trail_seps(s.drop_last(), k - 1);
    }
}

/// A path separator: `/` or `\`.
pub open spec fn is_sep(c: char) -> bool {
    c == '/' || c == '\\'
}

proof fn lemma_trail_seps_split(b: Seq<char>)
    ensures
        trail_seps(b) <= b.len(),
        forall|j: int| b.len() - trail_seps(b) <= j < b.len() ==> is_sep(#[trigger] b[j]),
        trail_seps(b) < b.len() ==> !is_sep(b[b.len() - trail_seps(b) - 1]),
    decreases b.len(),
{
    if b.len() > 0 && is_sep(b.last()) {
        lemma_trail_seps_split(b.drop_last());
        assert forall|j: int| b.len() - trail_seps(b) <= j < b.len() implies is_sep(
            #[trigger] b[j],
        ) by {
            if j < b.len() - 1 {
                assert(b[j] == b.drop_last()[j]);
            }
        }
        if trail_seps(b) < b.len() {
            assert(b[b.len() - trail_seps(b) - 1] == b.drop_last()[b.drop_last().len() - trail_seps(
                b.drop_last(),
            ) - 1]);
        }
    }
}

/// A relative entry resolved against a non-empty directory is that
/// directory without its trailing separators, one `/`, and the trimmed
/// entry: the result ends with the trimmed entry, right after a `/`; what
/// comes before that `/` begins the directory, does not end in a separator
/// (unless empty), and the rest of the directory is all separators.
/// Absolute or directory-less entries are just trimmed.
pub proof fn lemma_resolved_path(path: Seq<char>, b: Seq<char>)
    ensures
        resolved_path(path, None) == trim(path),
        looks_absolute(trim(path)) || b.len() == 0 ==> resolved_path(path, Some(b)) == trim(path),
        !looks_absolute(trim(path)) && b.len() > 0 ==> ({
            let t = trim(path);
            let r = resolved_path(path, Some(b));
            let k = r.len() - t.len() - 1;
            &&& 0 <= k <= b.len()
            &&& r.skip(k + 1) == t
            &&& r[k] == '/'
            &&& r.take(k) == b.take(k)
            &&& (k > 0 ==> !is_sep(r[k - 1]))
            &&& forall|j: int| k <= j < b.len() ==> is_sep(#[trigger] b[j])
        }),
{
    let t = trim(path);
    if !looks_absolute(t) && b.len() > 0 {
        lemma_trail_seps_split(b);
        let m = b.len() - trail_seps(b);
        let r = resolved_path(path, Some(b));
        assert(r == b.take(m) + seq!['/'] + t);
        assert(r.len() - t.len() - 1 == m);
        assert(r.skip(m + 1) =~= t);
        assert(r[m] == '/');
        assert(r.take(m) =~= b.take(m));
        if m > 0 {
            assert(r[m - 1] == b[m - 1]);
        }
    }
}

/// Resolves a playlist entry against the playlist's directory.
pub fn resolve_path(path: &str, base_dir: Option<&str>) -> (r: String)
    ensures
        r@ == resolved_path(
            path@,
            match base_dir {
                Some(b) => Some(b@),
                None => None,
            },
        ),
{
    let t = trim_in(&chars_of(path));
    if looks_absolute_in(&t) {
        return string_of(&t);
    }
    match base_dir {
        Some(b) => {
            let bv = chars_of(b);
            if bv.len() > 0 {
                let mut k: usize = 0;
                while k < bv.len() && (bv[bv.len() - 1 - k] == '/' || bv[bv.len() - 1 - k] == '\\')
                    invariant
                        k <= bv.len(),
                        forall|j: int|
                            bv.len() - k <= j < bv.len() ==> (bv@[j] == '/' || bv@[j] == '\\'),
                    decreases bv.len() - k,
                {
                    k = k + 1;
                }
                proof {
                    lemma_trail_seps(bv@, k as int);
                }
                let mut out = string_of(&slice(&bv, 0, bv.len() - k));
                push_char(&mut out, '/');
                push_chars(&mut out, &t);
                out
            } else {
                string_of(&t)
            }
        },
        None => string_of(&t),
    }
}

// ───────────────────────────── m3u8 parsing ────────────────────────────

/// A playlist entry before library lookup.
pub struct RawTrack {
    pub position: i64,
    pub path: String,
    pub title: Option<String>,
    pub artist: Option<String>,
    /// The `#EXTINF` duration text; `str::parse::<f64>` accepts it.
    pub duration: Option<String>,
}

/// A playlist entry, as a value.
pub struct RawTrackS {
    pub position: int,
    pub path: Seq<char>,
    pub title: Option<Seq<char>>,
    pub artist: Option<Seq<char>>,
    pub duration: Option<Seq<char>>,
}

impl View for RawTrack {
    type V = RawTrackS;

    open spec fn view(&self) -> RawTrackS {
        RawTrackS {
            position: self.position as int,
            path: self.path@,
            title: opt_str_view(self.title),
            artist: opt_str_view(self.artist),
            duration: opt_str_view(self.duration),
        }
    }
}

pub open spec fn raw_view(ts: Seq<RawTrack>) -> Seq<RawTrackS> {
    ts.map_values(|t: RawTrack| t@)
}

/// Parser state between lines: entries so far and what the last
/// `#EXTINF` said.
pub struct M3uState {
    pub tracks: Seq<RawTrackS>,
    pub duration: Option<Seq<char>>,
    pub title: Option<Seq<char>>,
}

pub open spec fn extinf() -> Seq<char> {
    seq!['#', 'E', 'X', 'T', 'I', 'N', 'F']
}

/// The text of an `#EXTINF` line after `#EXTINF:` (or the whole line if
/// the colon is missing).
pub open spec fn extinf_rest(line: Seq<char>) -> Seq<char> {
    if starts_with(line, extinf().push(':')) {
        line.skip(8)
    } else {
        line
    }
}

/// One more line of the playlist: an `#EXTINF:duration,title` line sets
/// the pending duration (when it is a number) and title (when not empty);
/// other `#` lines are skipped; an empty line drops the pending values;
/// any other line is an entry's path.
pub open spec fn m3u_step(st: M3uState, raw: Seq<char>, base: Option<Seq<char>>) -> M3uState {
    let line = trim(raw);
    if line.len() == 0 {
        M3uState { tracks: st.tracks, duration: None, title: None }
    } else if starts_with(line, extinf()) {
        let rest = extinf_rest(line);
        let comma = match find_char(rest, ',') {
            Some(c) => c,
            None => rest.len() as int,
        };
        let dur = trim(rest.take(comma));
        let title = trim(rest.skip(comma + 1));
        M3uState {
            tracks: st.tracks,
            duration: if is_float_literal(dur) {
                Some(dur)
            } else {
                st.duration
            },
            title: if title.len() > 0 {
                Some(title)
            } else {
                st.title
            },
        }
    } else if line[0] == '#' {
        st
    } else {
        let path = resolved_path(line, base);
        let at = artist_title(st.title);
        let track = RawTrackS {
            position: st.tracks.len() as int,
            path,
            title: match at.1 {
                Some(t) => Some(t),
                None => path_file_stem(path),
            },
            artist: at.0,
            duration: st.duration,
        };
        M3uState { tracks: st.tracks.push(track), duration: None, title: None }
    }
}

/// Parser state after the lines `ls`.
pub open spec fn m3u_run(ls: Seq<Seq<char>>, base: Option<Seq<char>>) -> M3uState
    decreases ls.len(),
{
    if ls.len() == 0 {
        M3uState { tracks: seq![], duration: None, title: None }
    } else {
        m3u_step(m3u_run(ls.drop_last(), base), ls.last(), base)
    }
}

/// The entries of an m3u8 document.
pub open spec fn m3u_tracks(content: Seq<char>, base: Option<Seq<char>>) -> Seq<RawTrackS> {
    m3u_run(lines(content), base).tracks
}

/// Every `#EXTINF` line has a comma: the reader cuts the text after it and
/// aborts when there is none.
pub open spec fn extinf_lines_have_commas(content: Seq<char>) -> bool {
    let ls = lines(content);
    forall|i: int|
        0 <= i < ls.len() && starts_with(trim(#[trigger] ls[i]), extinf()) ==> has_char(
            extinf_rest(trim(ls[i])),
            ',',
        )
}

pub proof fn lemma_m3u_run_len(ls: Seq<Seq<char>>, base: Option<Seq<char>>)
    ensures
        m3u_run(ls, base).tracks.len() <= ls.len(),
    decreases ls.len(),
{
    if ls.len() > 0 {
        lemma_m3u_run_len(ls.drop_last(), base);
    }
}

/// Parses an m3u8 document into its entries; relative paths are resolved
/// against `base_dir`. An entry takes the title (and artist, from
/// `"Artist - Title"`) and duration of the `#EXTINF` line before it, and
/// falls back to the file stem for its title.
pub fn parse_m3u8_content(content: &str, base_dir: Option<&str>) -> (r: Vec<RawTrack>)
    requires
        extinf_lines_have_commas(content@),
        content@.len() < 0x7fff_ffff_ffff_ffff,
    ensures
        raw_view(r@) == m3u_tracks(
            content@,
            match base_dir {
                Some(b) => Some(b@),
                None => None,
            },
        ),
{
    let ghost base = match base_dir {
        Some(b) => Some(b@),
        None => None,
    };
    let v = chars_of(content);
    let ls = lines_in(&v);
    let ghost lv = seqs_view(ls@);
    proof {
        crate::text::lemma_lines_count(v@);
    }
    let mut tracks: Vec<RawTrack> = Vec::new();
    let mut duration: Option<String> = None;
    let mut title: Option<String> = None;
    let mut hash_extinf: Vec<char> = Vec::new();
    hash_extinf.push('#');
    hash_extinf.push('E');
    hash_extinf.push('X');
    hash_extinf.push('T');
    hash_extinf.push('I');
    hash_extinf.push('N');
    hash_extinf.push('F');
    assert(hash_extinf@ =~= extinf());
    let mut with_colon: Vec<char> = Vec::new();
    with_colon.push('#');
    with_colon.push('E');
    with_colon.push('X');
    with_colon.push('T');
    with_colon.push('I');
    with_colon.push('N');
    with_colon.push('F');
    with_colon.push(':');
    assert(with_colon@ =~= extinf().push(':'));
    let mut i: usize = 0;
    assert(lv.take(0) =~= seq![]);
    assert(raw_view(tracks@) =~= seq![]);
    while i < ls.len()
        invariant
            i <= ls.len(),
            lv == seqs_view(ls@),
            lv == lines(v@),
            v@ == content@,
            lv.len() <= v@.len(),
            content@.len() < 0x7fff_ffff_ffff_ffff,
            hash_extinf@ == extinf(),
            with_colon@ == extinf().push(':'),
            extinf_lines_have_commas(content@),
            base == match base_dir {
                Some(b) => Some(b@),
                None => None,
            },
            m3u_run(lv.take(i as int), base) == (M3uState {
                tracks: raw_view(tracks@),
                duration: opt_str_view(duration),
                title: opt_str_view(title),
            }),
        decreases ls.len() - i,
    {
        assert(lv.take(i + 1).drop_last() =~= lv.take(i as int));
        assert(lv.take(i + 1).last() == ls@[i as int]@);
        proof {
            lemma_m3u_run_len(lv.take(i as int), base);
        }
        let line = trim_in(&ls[i]);
        if line.len() == 0 {
            duration = None;
            title = None;
        } else if starts_with_in(&line, &hash_extinf) {
            let rest = if starts_with_in(&line, &with_colon) {
                slice(&line, 8, line.len())
            } else {
                slice(&line, 0, line.len())
            };
            assert(line@.subrange(0, line@.len() as int) =~= line@);
            assert(rest@ == extinf_rest(line@));
            assert(lv[i as int] == ls@[i as int]@);
            proof {
                lemma_find_char(rest@, ',');
            }
            let comma = match crate::text::find_char_in(&rest, ',') {
                Some(c) => c,
                None => {
                    assert(!has_char(rest@, ','));
                    assert(false);
                    rest.len()
                },
            };
            let dur = trim_in(&slice(&rest, 0, comma));
            let t = trim_in(&slice(&rest, comma + 1, rest.len()));
            if is_float_literal_in(&dur) {
                duration = Some(string_of(&dur));
            }
            if t.len() > 0 {
                title = Some(string_of(&t));
            }
        } else if line[0] == '#' {
        } else {
            let path = resolve_path(&string_of(&line).as_str(), base_dir);
            let at = match &title {
                Some(t) => split_artist_title(Some(t.as_str())),
                None => split_artist_title(None),
            };
            let track_title = match at.1 {
                Some(t) => Some(t),
                None => file_stem_of(path.as_str()),
            };
            let position = tracks.len() as i64;
            let ghost before = raw_view(tracks@);
            let track = RawTrack { position, path, title: track_title, artist: at.0, duration };
            tracks.push(track);
            assert(raw_view(tracks@) =~= before.push(track@));
            duration = None;
            title = None;
        }
        i = i + 1;
    }
    assert(lv.take(ls.len() as int) =~= lv);
    tracks
}

/// Whether every `#EXTINF` line of a document has a comma.
pub fn extinf_commas_ok(content: &str) -> (b: bool)
    ensures
        b == extinf_lines_have_commas(content@),
{
    let v = chars_of(content);
    let ls = lines_in(&v);
    let ghost lv = seqs_view(ls@);
    let mut hash_extinf: Vec<char> = Vec::new();
    hash_extinf.push('#');
    hash_extinf.push('E');
    hash_extinf.push('X');
    hash_extinf.push('T');
    hash_extinf.push('I');
    hash_extinf.push('N');
    hash_extinf.push('F');
    assert(hash_extinf@ =~= extinf());
    let mut with_colon = hash_extinf.clone();
    with_colon.push(':');
    assert(with_colon@ =~= extinf().push(':'));
    let mut i: usize = 0;
    while i < ls.len()
        invariant
            i <= ls.len(),
            lv == seqs_view(ls@),
            lv == lines(content@),
            hash_extinf@ == extinf(),
            with_colon@ == extinf().push(':'),
            forall|k: int|
                0 <= k < i && starts_with(trim(#[trigger] lv[k]), extinf()) ==> has_char(
                    extinf_rest(trim(lv[k])),
                    ',',
                ),
        decreases ls.len() - i,
    {
        assert(lv[i as int] == ls@[i as int]@);
        let line = trim_in(&ls[i]);
        if starts_with_in(&line, &hash_extinf) {
            let rest = if starts_with_in(&line, &with_colon) {
                slice(&line, 8, line.len())
            } else {
                slice(&line, 0, line.len())
            };
            assert(line@.subrange(0, line@.len() as int) =~= line@);
            if !crate::text::has_char_in(&rest, ',') {
                return false;
            }
        }
        i = i + 1;
    }
    true
}

/// Parses an m3u8 document as `parse_m3u8_content` does, or gives `None`
/// for a document that reader cannot take: one with an `#EXTINF` line
/// without a comma, or of more characters than an `i64` counts.
pub fn try_parse_m3u8_content(content: &str, base_dir: Option<&str>) -> (r: Option<Vec<RawTrack>>)
    ensures
        r is Some <==> extinf_lines_have_commas(content@) && content@.len()
            < 0x7fff_ffff_ffff_ffff,
        match r {
            Some(ts) => raw_view(ts@) == m3u_tracks(
                content@,
                match base_dir {
                    Some(b) => Some(b@),
                    None => None,
                },
            ),
            None => true,
        },
{
    if content.unicode_len() as u64 >= 0x7fff_ffff_ffff_ffffu64 {
        return None;
    }
    if !extinf_commas_ok(content) {
        return None;
    }
    Some(parse_m3u8_content(content, base_dir))
}

/// The paths of the entries whose file does not exist (`exists[i]` tells
/// whether entry `i`'s file does).
pub open spec fn missing_of(ts: Seq<RawTrackS>, exists: Seq<bool>) -> Seq<Seq<char>>
    decreases ts.len(),
{
    if ts.len() == 0 {
        seq![]
    } else {
        let rest = missing_of(ts.drop_last(), exists);
        if exists[ts.len() - 1] {
            rest
        } else {
            rest.push(ts.last().path)
        }
    }
}

/// The paths of the entries whose file does not exist.
pub fn missing_paths(tracks: &Vec<RawTrack>, exists: &Vec<bool>) -> (r: Vec<String>)
    requires
        exists.len() == tracks.len(),
    ensures
        strings_view(r@) == missing_of(raw_view(tracks@), exists@),
{
    let ghost tv = raw_view(tracks@);
    let mut out: Vec<String> = Vec::new();
    let mut i: usize = 0;
    assert(tv.take(0) =~= seq![]);
    assert(strings_view(out@) =~= seq![]);
    while i < tracks.len()
        invariant
            i <= tracks.len() == exists.len(),
            tv == raw_view(tracks@),
            strings_view(out@) == missing_of(tv.take(i as int), exists@),
        decreases tracks.len() - i,
    {
        assert(tv.take(i + 1).drop_last() =~= tv.take(i as int));
        assert(tv.take(i + 1).last() == tracks@[i as int]@);
        if !exists[i] {
            let ghost before = strings_view(out@);
            out.push(tracks[i].path.clone());
            assert(strings_view(out@) =~= before.push(tracks@[i as int].path@));
        }
        i = i + 1;
    }
    assert(tv.take(tracks.len() as int) =~= tv);
    out
}


// ──────────────────────────── m3u8 writing ─────────────────────────────

/// A playlist entry to write.
pub struct M3uEntry {
    pub path: String,
    pub title: String,
    /// The `#EXTINF` duration field: whole seconds, or `-1` when unknown.
    pub duration: String,
}

/// The title written for an entry: its own, else its file name, else
/// `Unknown`.
pub open spec fn display_title(path: Seq<char>, title: Seq<char>) -> Seq<char> {
    if title.len() > 0 {
        title
    } else {
        match path_file_name(path) {
            Some(n) => n,
            None => "Unknown"@,
        }
    }
}

/// `#EXTINF:duration,title` and the path, each on its own line.
pub open spec fn entry_text(e: M3uEntry) -> Seq<char> {
    "#EXTINF:"@ + e.duration@ + seq![','] + display_title(e.path@, e.title@) + seq!['\n'] + e.path@
        + seq!['\n']
}

/// The texts of the first `n` entries.
pub open spec fn entries_text(es: Seq<M3uEntry>, n: int) -> Seq<char>
    decreases n,
{
    if n <= 0 {
        seq![]
    } else {
        entries_text(es, n - 1) + entry_text(es[n - 1])
    }
}

/// An m3u8 document: `#EXTM3U`, `#PLAYLIST:name` when there is a name,
/// then the entries; every line ends with a newline.
pub open spec fn m3u_document(es: Seq<M3uEntry>, name: Seq<char>) -> Seq<char> {
    "#EXTM3U\n"@ + (if name.len() > 0 {
        "#PLAYLIST:"@ + name + seq!['\n']
    } else {
        seq![]
    }) + entries_text(es, es.len() as int)
}

/// An entry with a title is written with exactly that title, whatever it
/// holds; an entry without one gets its file name, or `Unknown`:
/// `#EXTINF:duration,title`, then the path, each line ending in a newline.
pub proof fn lemma_entry_text(e: M3uEntry)
    ensures
        e.title@.len() > 0 ==> entry_text(e) == "#EXTINF:"@ + e.duration@ + seq![','] + e.title@
            + seq!['\n'] + e.path@ + seq!['\n'],
        e.title@.len() == 0 ==> entry_text(e) == "#EXTINF:"@ + e.duration@ + seq![',']
            + match path_file_name(e.path@) {
            Some(n) => n,
            None => "Unknown"@,
        } + seq!['\n'] + e.path@ + seq!['\n'],
{
}

/// A written playlist is `#EXTM3U`, the `#PLAYLIST:` line when it has a
/// name, then each entry's text in order.
pub proof fn lemma_document_entries(es: Seq<M3uEntry>, name: Seq<char>, n: int)
    requires
        0 < n <= es.len(),
    ensures
        entries_text(es, n) == entries_text(es, n - 1) + entry_text(es[n - 1]),
        m3u_document(es, name) == "#EXTM3U\n"@ + (if name.len() > 0 {
            "#PLAYLIST:"@ + name + seq!['\n']
        } else {
            seq![]
        }) + entries_text(es, es.len() as int),
{
}

fn push_entry(out: &mut String, e: &M3uEntry)
    ensures
        final(out)@ == old(out)@ + entry_text(*e),
{
    let ghost o = out@;
    push_str(out, "#EXTINF:");
    push_str(out, e.duration.as_str());
    push_char(out, ',');
    if e.title.as_str().unicode_len() > 0 {
        push_str(out, e.title.as_str());
    } else {
        match file_name_of(e.path.as_str()) {
            Some(n) => push_str(out, n.as_str()),
            None => push_str(out, "Unknown"),
        }
    }
    push_char(out, '\n');
    push_str(out, e.path.as_str());
    push_char(out, '\n');
    assert(out@ =~= o + entry_text(*e));
}

/// Serializes playlist entries to an m3u8 document.
pub fn serialize_tracks_to_m3u8(tracks: &Vec<M3uEntry>, playlist_name: &str) -> (s: String)
    ensures
        s@ == m3u_document(tracks@, playlist_name@),
{
    let mut out = String::new();
    push_str(&mut out, "#EXTM3U\n");
    let ghost h = out@;
    if playlist_name.unicode_len() > 0 {
        push_str(&mut out, "#PLAYLIST:");
        push_str(&mut out, playlist_name);
        push_char(&mut out, '\n');
    }
    let ghost pre = out@;
    assert(pre =~= "#EXTM3U\n"@ + (if playlist_name@.len() > 0 {
        "#PLAYLIST:"@ + playlist_name@ + seq!['\n']
    } else {
        seq![]
    }));
    let mut i: usize = 0;
    assert(pre + entries_text(tracks@, 0) =~= pre);
    while i < tracks.len()
        invariant
            i <= tracks.len(),
            out@ == pre + entries_text(tracks@, i as int),
        decreases tracks.len() - i,
    {
        let ghost before = out@;
        push_entry(&mut out, &tracks[i]);
        assert(out@ =~= pre + entries_text(tracks@, i + 1));
        i = i + 1;
    }
    out
}

// ───────────────────────────── storing ─────────────────────────────────

/// Indices of the first occurrence of each path, in order.
pub open spec fn first_indices(ps: Seq<Seq<char>>) -> Seq<int>
    decreases ps.len(),
{
    if ps.len() == 0 {
        seq![]
    } else {
        let f = first_indices(ps.drop_last());
        if ps.drop_last().contains(ps.last()) {
            f
        } else {
            f.push(ps.len() - 1)
        }
    }
}

/// The position the first new entry gets: one past the current largest,
/// or 0 in an empty playlist.
pub open spec fn first_free_position(max_position: Option<i64>) -> int {
    match max_position {
        Some(m) => m + 1,
        None => 0,
    }
}

/// Which tracks to add to a playlist and at which positions: the first
/// occurrence of each path, at consecutive positions after the playlist's
/// current last position.
pub fn plan_inserts(max_position: Option<i64>, paths: &Vec<String>) -> (r: Vec<(usize, i64)>)
    requires
        first_free_position(max_position) + first_indices(strings_view(paths@)).len()
            <= i64::MAX,
    ensures
        r@.len() == first_indices(strings_view(paths@)).len(),
        forall|k: int|
            #![trigger r@[k]]
            0 <= k < r@.len() ==> r@[k].0 == first_indices(strings_view(paths@))[k] && r@[k].1
                == first_free_position(max_position) + k,
{
    let ghost ps = strings_view(paths@);
    let start: i64 = match max_position {
        Some(m) => m + 1,
        None => 0,
    };
    let mut out: Vec<(usize, i64)> = Vec::new();
    let mut pos: i64 = start;
    let mut i: usize = 0;
    assert(ps.take(0) =~= seq![]);
    while i < paths.len()
        invariant
            i <= paths.len(),
            ps == strings_view(paths@),
            start == first_free_position(max_position),
            start + first_indices(ps).len() <= i64::MAX,
            out@.len() == first_indices(ps.take(i as int)).len(),
            pos == start + out@.len(),
            forall|k: int|
                0 <= k < out@.len() ==> out@[k].0 == first_indices(ps.take(i as int))[k]
                    && out@[k].1 == start + k,
        decreases paths.len() - i,
    {
        let ghost pre = ps.take(i as int);
        assert(ps.take(i + 1).drop_last() =~= pre);
        assert(ps.take(i + 1).last() == ps[i as int]);
        let mut seen = false;
        let mut j: usize = 0;
        while j < i
            invariant
                j <= i < paths.len(),
                ps == strings_view(paths@),
                seen == exists|m: int| 0 <= m < j && ps[m] == ps[i as int],
            decreases i - j,
        {
            assert(ps[j as int] == paths@[j as int]@);
            assert(ps[i as int] == paths@[i as int]@);
            if paths[j] == paths[i] {
                seen = true;
            }
            j = j + 1;
        }
        assert(seen == pre.contains(ps[i as int])) by {
            if seen {
                let m = choose|m: int| 0 <= m < i && ps[m] == ps[i as int];
                assert(pre[m] == ps[i as int]);
            }
            if pre.contains(ps[i as int]) {
                let m = choose|m: int| 0 <= m < pre.len() && pre[m] == ps[i as int];
                assert(ps[m] == pre[m]);
            }
        }
        if !seen {
            proof {
                lemma_first_indices_prefix(ps, i + 1);
            }
            out.push((i, pos));
            pos = pos + 1;
        }
        i = i + 1;
    }
    assert(ps.take(paths.len() as int) =~= ps);
    assert(first_indices(ps.take(i as int)) == first_indices(ps));
    assert forall|k: int|
        #![trigger out@[k]]
        0 <= k < out@.len() implies out@[k].0 == first_indices(strings_view(paths@))[k]
            && out@[k].1 == first_free_position(max_position) + k by {
        assert(out@[k].0 == first_indices(ps.take(i as int))[k]);
    }
    out
}

/// A prefix has no more first occurrences than the whole.
pub proof fn lemma_first_indices_prefix(ps: Seq<Seq<char>>, k: int)
    requires
        0 <= k <= ps.len(),
    ensures
        first_indices(ps.take(k)).len() <= first_indices(ps).len(),
    decreases ps.len(),
{
    if k < ps.len() {
        assert(ps.drop_last().take(k) =~= ps.take(k));
        lemma_first_indices_prefix(ps.drop_last(), k);
    } else {
        assert(ps.take(k) =~= ps);
    }
}

proof fn lemma_fi_order(ps: Seq<Seq<char>>)
    ensures
        forall|k: int|
            0 <= k < first_indices(ps).len() ==> 0 <= #[trigger] first_indices(ps)[k] < ps.len(),
        forall|a: int, b: int|
            0 <= a < b < first_indices(ps).len() ==> #[trigger] first_indices(ps)[a]
                < #[trigger] first_indices(ps)[b],
    decreases ps.len(),
{
    if ps.len() > 0 {
        let d = ps.drop_last();
        lemma_fi_order(d);
        let f = first_indices(d);
        let g = first_indices(ps);
        assert forall|k: int| 0 <= k < g.len() implies 0 <= #[trigger] g[k] < ps.len() by {
            if k < f.len() {
                assert(g[k] == f[k]);
            }
        }
        assert forall|a: int, b: int| 0 <= a < b < g.len() implies #[trigger] g[a]
            < #[trigger] g[b] by {
            assert(g[a] == f[a]);
            if b < f.len() {
                assert(g[b] == f[b]);
            }
        }
    }
}

proof fn lemma_fi_bounds_only(ps: Seq<Seq<char>>)
    ensures
        forall|k: int|
            0 <= k < first_indices(ps).len() ==> 0 <= #[trigger] first_indices(ps)[k] < ps.len(),
{
    lemma_fi_order(ps);
}

proof fn lemma_fi_first(ps: Seq<Seq<char>>)
    ensures
        forall|k: int, m: int|
            #![trigger first_indices(ps)[k], ps[m]]
            0 <= k < first_indices(ps).len() && 0 <= m < first_indices(ps)[k] ==> ps[m]
                != ps[first_indices(ps)[k]],
    decreases ps.len(),
{
    if ps.len() > 0 {
        let d = ps.drop_last();
        lemma_fi_first(d);
        lemma_fi_order(d);
        let f = first_indices(d);
        let g = first_indices(ps);
        assert forall|k: int, m: int|
            #![trigger g[k], ps[m]]
            0 <= k < g.len() && 0 <= m < g[k] implies ps[m] != ps[g[k]] by {
            assert(d[m] == ps[m]);
            if k < f.len() {
                assert(g[k] == f[k]);
                assert(d[f[k]] == ps[f[k]]);
            } else {
                if ps[m] == ps[g[k]] {
                    assert(d.contains(ps.last()));
                }
            }
        }
    }
}

proof fn lemma_fi_covers(ps: Seq<Seq<char>>)
    ensures
        forall|i: int|
            #![trigger ps[i]]
            0 <= i < ps.len() ==> exists|k: int|
                0 <= k < first_indices(ps).len() && ps[#[trigger] first_indices(ps)[k]] == ps[i],
    decreases ps.len(),
{
    if ps.len() > 0 {
        let d = ps.drop_last();
        lemma_fi_covers(d);
        lemma_fi_bounds_only(d);
        let f = first_indices(d);
        let g = first_indices(ps);
        assert forall|k: int| 0 <= k < f.len() implies g[k] == f[k] && ps[f[k]] == d[f[k]] by {}
        assert forall|i: int| #![trigger ps[i]] 0 <= i < ps.len() implies exists|k: int|
            0 <= k < g.len() && ps[#[trigger] g[k]] == ps[i] by {
            if i < d.len() {
                assert(d[i] == ps[i]);
                let k = choose|k: int| 0 <= k < f.len() && d[#[trigger] f[k]] == d[i];
                assert(ps[g[k]] == ps[i]);
            } else if d.contains(ps.last()) {
                let j = choose|j: int| 0 <= j < d.len() && d[j] == ps.last();
                assert(d[j] == ps[i]);
                let k = choose|k: int| 0 <= k < f.len() && d[#[trigger] f[k]] == d[j];
                assert(ps[g[k]] == ps[i]);
            } else {
                assert(g[g.len() - 1] == ps.len() - 1);
            }
        }
    }
}

/// The planned entries are the first occurrence of each path: their
/// indices rise, none has an earlier duplicate, no two of them hold the
/// same path, and every path of the input is among them.
pub proof fn lemma_first_indices(ps: Seq<Seq<char>>)
    ensures
        forall|k: int|
            0 <= k < first_indices(ps).len() ==> 0 <= #[trigger] first_indices(ps)[k] < ps.len(),
        forall|a: int, b: int|
            0 <= a < b < first_indices(ps).len() ==> #[trigger] first_indices(ps)[a]
                < #[trigger] first_indices(ps)[b] && ps[first_indices(ps)[a]] != ps[first_indices(
                ps,
            )[b]],
        forall|k: int, m: int|
            #![trigger first_indices(ps)[k], ps[m]]
            0 <= k < first_indices(ps).len() && 0 <= m < first_indices(ps)[k] ==> ps[m]
                != ps[first_indices(ps)[k]],
        forall|i: int|
            #![trigger ps[i]]
            0 <= i < ps.len() ==> exists|k: int|
                0 <= k < first_indices(ps).len() && ps[#[trigger] first_indices(ps)[k]] == ps[i],
{
    lemma_fi_order(ps);
    lemma_fi_first(ps);
    lemma_fi_covers(ps);
    let g = first_indices(ps);
    assert forall|a: int, b: int| 0 <= a < b < g.len() implies #[trigger] g[a] < #[trigger] g[b]
        && ps[g[a]] != ps[g[b]] by {
        assert(ps[g[a]] != ps[g[b]]);
    }
}

/// Whether two char sequences are equal.
pub fn same_chars(a: &Vec<char>, b: &Vec<char>) -> (r: bool)
    ensures
        r == (a@ == b@),
{
    if a.len() != b.len() {
        return false;
    }
    let mut i: usize = 0;
    while i < a.len()
        invariant
            i <= a.len() == b.len(),
            forall|j: int| 0 <= j < i ==> a@[j] == b@[j],
        decreases a.len() - i,
    {
        if a[i] != b[i] {
            return false;
        }
        i = i + 1;
    }
    assert(a@ =~= b@);
    true
}

/// The position a track moving `direction` from `pos` trades places with.
pub open spec fn swap_position(pos: i64, direction: Seq<char>) -> Option<int> {
    if direction == "up"@ {
        Some(pos - 1)
    } else if direction == "down"@ {
        Some(pos + 1)
    } else {
        None
    }
}

/// Where a track at `pos` moves: one up or one down; nowhere for another
/// direction or past the top.
pub fn move_target(pos: i64, direction: &str) -> (r: Option<i64>)
    requires
        direction@ == "up"@ ==> pos > i64::MIN,
        direction@ == "down"@ ==> pos < i64::MAX,
    ensures
        r == match swap_position(pos, direction@) {
            Some(p) => if p >= 0 {
                Some(p as i64)
            } else {
                None
            },
            None => None,
        },
{
    let d = chars_of(direction);
    let swap = if same_chars(&d, &chars_of("up")) {
        pos - 1
    } else if same_chars(&d, &chars_of("down")) {
        pos + 1
    } else {
        return None;
    };
    if swap < 0 {
        None
    } else {
        Some(swap)
    }
}

/// Moving a track down and then up brings it back where it was, and so
/// does moving it up and then down, unless it was at the top.
pub proof fn lemma_move_round_trip(pos: i64)
    ensures
        0 <= pos < i64::MAX ==> swap_position(pos, "down"@) == Some(pos + 1)
            && swap_position((pos + 1) as i64, "up"@) == Some(pos as int),
        0 < pos ==> swap_position(pos, "up"@) == Some(pos - 1) && swap_position(
            (pos - 1) as i64,
            "down"@,
        ) == Some(pos as int),
{
    reveal_strlit("up");
    reveal_strlit("down");
    assert("down"@ != "up"@) by {
        assert("down"@.len() != "up"@.len());
    }
}

} // verus!
