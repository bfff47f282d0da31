//! The library index's own rules: which files a scan looks at, how a scan
//! entry becomes an index row, how the stored schema is brought up to date,
//! how scan roots and search queries are normalised, and where cached album
//! art lives. The database and the file system are driven elsewhere.

use std::hash::Hash;
use std::hash::Hasher;
use vstd::prelude::*;

use crate::text::{
    opt_str_view, strings_view, chars_of, hex, hex_in, push_char, push_chars, push_str, string_of, trim, trim_in, zero_pad,
    zero_pad_in,
};

verus! {

// ──────────────────────────── indexed tracks ───────────────────────────

/// A track of the library index.
pub struct Track {
    pub id: i64,
    pub path: String,
    pub title: String,
    pub artist: String,
    pub album: String,
    /// The duration in seconds, as the bit pattern of its `f64`.
    pub duration_bits: u64,
    pub mtime: i64,
    pub indexed_at: i64,
    pub album_art_path: Option<String>,
    pub sample_rate: Option<u32>,
    pub bits_per_sample: Option<u32>,
}

/// A track of the library index, as a value.
pub struct TrackS {
    pub path: Seq<char>,
    pub title: Seq<char>,
    pub artist: Seq<char>,
    pub album: Seq<char>,
    pub duration_bits: u64,
    pub album_art_path: Option<Seq<char>>,
    pub sample_rate: Option<u32>,
    pub bits_per_sample: Option<u32>,
}

impl View for Track {
    type V = TrackS;

    open spec fn view(&self) -> TrackS {
        TrackS {
            path: self.path@,
            title: self.title@,
            artist: self.artist@,
            album: self.album@,
            duration_bits: self.duration_bits,
            album_art_path: opt_str_view(self.album_art_path),
            sample_rate: self.sample_rate,
            bits_per_sample: self.bits_per_sample,
        }
    }
}

pub open spec fn tracks_view(ts: Seq<Track>) -> Seq<TrackS> {
    ts.map_values(|t: Track| t@)
}

/// Where the index entry for `path` is among `cache`: the last entry with
/// that path, as a map filled in this order keeps it.
pub open spec fn cache_index(cache: Seq<TrackS>, path: Seq<char>) -> Option<int>
    decreases cache.len(),
{
    if cache.len() == 0 {
        None
    } else if cache.last().path == path {
        Some(cache.len() - 1)
    } else {
        cache_index(cache.drop_last(), path)
    }
}

pub proof fn lemma_cache_index(cache: Seq<TrackS>, path: Seq<char>)
    ensures
        match cache_index(cache, path) {
            Some(j) => 0 <= j < cache.len() && cache[j].path == path && forall|k: int|
                j < k < cache.len() ==> cache[k].path != path,
            None => forall|k: int| 0 <= k < cache.len() ==> cache[k].path != path,
        },
    decreases cache.len(),
{
    if cache.len() > 0 && cache.last().path != path {
        lemma_cache_index(cache.drop_last(), path);
        assert forall|k: int| 0 <= k < cache.len() - 1 implies cache.drop_last()[k] == cache[k] by {}
    }
}

/// The index entry for `path`, if the index has one.
pub fn find_cached(cache: &Vec<Track>, path: &String) -> (r: Option<usize>)
    ensures
        match r {
            Some(j) => cache_index(tracks_view(cache@), path@) == Some(j as int) && j < cache.len(),
            None => cache_index(tracks_view(cache@), path@) is None,
        },
{
    let ghost cv = tracks_view(cache@);
    proof {
        lemma_cache_index(cv, path@);
    }
    let mut k: usize = cache.len();
    while k > 0
        invariant
            k <= cache.len(),
            cv == tracks_view(cache@),
            forall|m: int| k <= m < cache.len() ==> cv[m].path != path@,
        decreases k,
    {
        assert(cv[k - 1] == cache@[k - 1]@);
        if cache[k - 1].path == *path {
            proof {
                lemma_cache_index(cv, path@);
                match cache_index(cv, path@) {
                    Some(j) => {
                        if j < k - 1 {
                            assert(cv[k - 1].path == path@);
                        }
                    },
                    None => {
                        assert(cv[k - 1].path == path@);
                    },
                }
            }
            return Some(k - 1);
        }
        k = k - 1;
    }
    proof {
        match cache_index(cv, path@) {
            Some(j) => {
                assert(cv[j].path == path@);
            },
            None => {},
        }
    }
    None
}

// ──────────────────────────── scanning ─────────────────────────────────

/// The file extensions a library scan looks for.
pub open spec fn audio_exts() -> Seq<Seq<char>> {
    seq![
        ".flac"@,
        ".wav"@,
        ".mp3"@,
        ".opus"@,
        ".ogg"@,
        ".aac"@,
        ".m4a"@,
        ".wv"@,
        ".dsf"@,
        ".dff"@,
        ".aiff"@,
        ".ape"@,
        ".wma"@,
    ]
}

/// The audio extensions a rescan passes to the directory walk.
pub fn audio_ext_list() -> (r: Vec<String>)
    ensures
        strings_view(r@) == audio_exts(),
{
    let r = vec![
        String::from_str(".flac"),
        String::from_str(".wav"),
        String::from_str(".mp3"),
        String::from_str(".opus"),
        String::from_str(".ogg"),
        String::from_str(".aac"),
        String::from_str(".m4a"),
        String::from_str(".wv"),
        String::from_str(".dsf"),
        String::from_str(".dff"),
        String::from_str(".aiff"),
        String::from_str(".ape"),
        String::from_str(".wma"),
    ];
    assert(strings_view(r@) =~= audio_exts());
    r
}

/// What a directory walk reports for one file or directory.
pub struct ScanEntry {
    pub path: String,
    pub name: String,
    pub is_directory: bool,
    pub title: Option<String>,
    pub artist: Option<String>,
    pub album: Option<String>,
    pub modified: Option<i64>,
    pub sample_rate: Option<u32>,
    pub bits_per_sample: Option<u32>,
}

/// The values a rescan stores for one audio file (its album art and the
/// zero duration are added when the row is written).
pub struct IndexRow {
    pub path: String,
    pub title: String,
    pub artist: String,
    pub album: String,
    pub mtime: i64,
    pub indexed_at: i64,
    pub sample_rate: Option<u32>,
    pub bits_per_sample: Option<u32>,
}

/// An index row, as a value.
pub struct IndexRowS {
    pub path: Seq<char>,
    pub title: Seq<char>,
    pub artist: Seq<char>,
    pub album: Seq<char>,
    pub mtime: i64,
    pub indexed_at: i64,
    pub sample_rate: Option<u32>,
    pub bits_per_sample: Option<u32>,
}

impl View for IndexRow {
    type V = IndexRowS;

    open spec fn view(&self) -> IndexRowS {
        IndexRowS {
            path: self.path@,
            title: self.title@,
            artist: self.artist@,
            album: self.album@,
            mtime: self.mtime,
            indexed_at: self.indexed_at,
            sample_rate: self.sample_rate,
            bits_per_sample: self.bits_per_sample,
        }
    }
}

pub open spec fn or_empty(o: Option<String>) -> Seq<char> {
    match o {
        Some(s) => s@,
        None => seq![],
    }
}

/// The row for a scanned file: its tag title or else its file name, its
/// tag artist and album or else nothing, its modification time or else the
/// scan time.
pub open spec fn index_row(e: ScanEntry, now: i64) -> IndexRowS {
    IndexRowS {
        path: e.path@,
        title: match e.title {
            Some(t) => t@,
            None => e.name@,
        },
        artist: or_empty(e.artist),
        album: or_empty(e.album),
        mtime: match e.modified {
            Some(m) => m,
            None => now,
        },
        indexed_at: now,
        sample_rate: e.sample_rate,
        bits_per_sample: e.bits_per_sample,
    }
}

/// The rows of a scan: one per file, in scan order; directories are skipped.
pub open spec fn index_rows(es: Seq<ScanEntry>, now: i64) -> Seq<IndexRowS>
    decreases es.len(),
{
    if es.len() == 0 {
        seq![]
    } else {
        let rest = index_rows(es.drop_last(), now);
        if es.last().is_directory {
            rest
        } else {
            rest.push(index_row(es.last(), now))
        }
    }
}

/// How many of the first `i` scan entries are files.
pub open spec fn files_before(es: Seq<ScanEntry>, i: int) -> nat
    decreases i,
{
    if i <= 0 {
        0
    } else {
        files_before(es, i - 1) + if es[i - 1].is_directory {
            0nat
        } else {
            1nat
        }
    }
}

proof fn lemma_files_before_mono(es: Seq<ScanEntry>, i: int, j: int)
    requires
        0 <= i <= j,
    ensures
        files_before(es, i) <= files_before(es, j),
    decreases j,
{
    if i < j {
        lemma_files_before_mono(es, i, j - 1);
    }
}

proof fn lemma_index_rows_at(es: Seq<ScanEntry>, now: i64)
    ensures
        index_rows(es, now).len() == files_before(es, es.len() as int),
        forall|i: int|
            0 <= i < es.len() && !(#[trigger] es[i]).is_directory ==> files_before(es, i)
                < index_rows(es, now).len() && index_rows(es, now)[files_before(es, i) as int]
                == index_row(es[i], now),
    decreases es.len(),
{
    if es.len() > 0 {
        let d = es.drop_last();
        lemma_index_rows_at(d, now);
        assert forall|i: int| 0 <= i <= d.len() implies files_before(d, i) == files_before(es, i) by {
            lemma_files_before_same(d, es, i);
        }
        let rows = index_rows(es, now);
        let prev = index_rows(d, now);
        assert forall|i: int|
            0 <= i < es.len() && !(#[trigger] es[i]).is_directory implies files_before(es, i)
            < rows.len() && rows[files_before(es, i) as int] == index_row(es[i], now) by {
            if i < d.len() {
                assert(d[i] == es[i]);
                lemma_files_before_mono(es, i + 1, d.len() as int);
                assert(prev[files_before(d, i) as int] == index_row(d[i], now));
            }
        }
    }
}

/// A rescan stores one row per file, in scan order, and none for a
/// directory. The row of a file carries its path; its tag title, or else
/// its file name; its tag artist and album, or else empty text; its
/// modification time, or else the scan time; the scan time as index time;
/// and its sample rate and bit depth.
pub proof fn lemma_index_rows(es: Seq<ScanEntry>, now: i64)
    ensures
        index_rows(es, now).len() == files_before(es, es.len() as int),
        forall|i: int|
            0 <= i < es.len() && !(#[trigger] es[i]).is_directory ==> {
                let row = index_rows(es, now)[files_before(es, i) as int];
                let e = es[i];
                &&& files_before(es, i) < index_rows(es, now).len()
                &&& row.path == e.path@
                &&& row.title == (match e.title {
                    Some(t) => t@,
                    None => e.name@,
                })
                &&& (e.artist matches Some(a) ==> row.artist == a@)
                &&& (e.artist is None ==> row.artist.len() == 0)
                &&& (e.album matches Some(a) ==> row.album == a@)
                &&& (e.album is None ==> row.album.len() == 0)
                &&& row.mtime == (match e.modified {
                    Some(m) => m,
                    None => now,
                })
                &&& row.indexed_at == now
                &&& row.sample_rate == e.sample_rate
                &&& row.bits_per_sample == e.bits_per_sample
            },
{
    lemma_index_rows_at(es, now);
}

proof fn lemma_files_before_same(d: Seq<ScanEntry>, es: Seq<ScanEntry>, i: int)
    requires
        0 <= i <= d.len(),
        d.len() <= es.len(),
        forall|j: int| 0 <= j < d.len() ==> d[j] == es[j],
    ensures
        files_before(d, i) == files_before(es, i),
    decreases i,
{
    if i > 0 {
        lemma_files_before_same(d, es, i - 1);
    }
}

pub open spec fn rows_view(rs: Seq<IndexRow>) -> Seq<IndexRowS> {
    rs.map_values(|r: IndexRow| r@)
}

fn string_or_empty(o: &Option<String>) -> (s: String)
    ensures
        s@ == or_empty(*o),
{
    match o {
        Some(t) => t.clone(),
        None => String::new(),
    }
}

/// The index rows a rescan writes for the entries of a directory walk.
pub fn index_rows_of(entries: &Vec<ScanEntry>, now: i64) -> (r: Vec<IndexRow>)
    ensures
        rows_view(r@) == index_rows(entries@, now),
{
    let mut out: Vec<IndexRow> = Vec::new();
    let mut i: usize = 0;
    assert(entries@.take(0) =~= seq![]);
    assert(rows_view(out@) =~= seq![]);
    while i < entries.len()
        invariant
            i <= entries.len(),
            rows_view(out@) == index_rows(entries@.take(i as int), now),
        decreases entries.len() - i,
    {
        assert(entries@.take(i + 1).drop_last() =~= entries@.take(i as int));
        let e = &entries[i];
        if !e.is_directory {
            let title = match &e.title {
                Some(t) => t.clone(),
                None => e.name.clone(),
            };
            let row = IndexRow {
                path: e.path.clone(),
                title,
                artist: string_or_empty(&e.artist),
                album: string_or_empty(&e.album),
                mtime: match e.modified {
                    Some(m) => m,
                    None => now,
                },
                indexed_at: now,
                sample_rate: e.sample_rate,
                bits_per_sample: e.bits_per_sample,
            };
            let ghost before = rows_view(out@);
            out.push(row);
            assert(rows_view(out@) =~= before.push(index_row(entries@[i as int], now)));
        }
        i = i + 1;
    }
    assert(entries@.take(entries.len() as int) =~= entries@);
    out
}

// ──────────────────────────── schema ───────────────────────────────────

/// The schema version this build writes.
pub fn schema_version() -> (v: &'static str)
    ensures
        v@ == seq!['4'],
{
    proof {
        reveal_strlit("4");
    }
    "4"
}

/// The one migration step an open performs, chosen by the stored version.
#[derive(Debug, Clone, Copy, PartialEq, Eq, Structural)]
pub enum SchemaStep {
    /// A fresh database: record the current version.
    Stamp,
    /// Version 1: add the album art column (to version 2).
    AddArtColumn,
    /// Version 2: add the playback queue table (to version 3).
    AddQueueTable,
    /// Version 3: add the sample rate and bit depth columns (to version 4).
    AddAudioColumns,
    /// Any other version: nothing to do.
    Keep,
}

/// The step for a stored version.
pub open spec fn step_for(stored: Option<Seq<char>>) -> SchemaStep {
    match stored {
        None => SchemaStep::Stamp,
        Some(v) => if v == seq!['1'] {
            SchemaStep::AddArtColumn
        } else if v == seq!['2'] {
            SchemaStep::AddQueueTable
        } else if v == seq!['3'] {
            SchemaStep::AddAudioColumns
        } else {
            SchemaStep::Keep
        },
    }
}

/// The stored version after a step.
pub open spec fn version_after(stored: Option<Seq<char>>) -> Option<Seq<char>> {
    match step_for(stored) {
        SchemaStep::Stamp => Some(seq!['4']),
        SchemaStep::AddArtColumn => Some(seq!['2']),
        SchemaStep::AddQueueTable => Some(seq!['3']),
        SchemaStep::AddAudioColumns => Some(seq!['4']),
        SchemaStep::Keep => stored,
    }
}

/// The stored version after `n` opens.
pub open spec fn version_after_opens(stored: Option<Seq<char>>, n: nat) -> Option<Seq<char>>
    decreases n,
{
    if n == 0 {
        stored
    } else {
        version_after_opens(version_after(stored), (n - 1) as nat)
    }
}

fn is_one_char(v: &Vec<char>, c: char) -> (b: bool)
    ensures
        b == (v@ == seq![c]),
{
    if v.len() == 1 && v[0] == c {
        assert(v@ =~= seq![c]);
        true
    } else {
        false
    }
}

pub open spec fn opt_str(o: Option<&str>) -> Option<Seq<char>> {
    match o {
        Some(v) => Some(v@),
        None => None,
    }
}

/// Which migration step an open runs for the stored schema version.
pub fn schema_step(stored: Option<&str>) -> (s: SchemaStep)
    ensures
        s == step_for(opt_str(stored)),
{
    match stored {
        None => SchemaStep::Stamp,
        Some(v) => {
            let c = chars_of(v);
            if is_one_char(&c, '1') {
                SchemaStep::AddArtColumn
            } else if is_one_char(&c, '2') {
                SchemaStep::AddQueueTable
            } else if is_one_char(&c, '3') {
                SchemaStep::AddAudioColumns
            } else {
                SchemaStep::Keep
            }
        },
    }
}

/// Opening the database brings every version it knows (none, 1, 2, 3) to
/// the current version 4 within four opens, one step per open, and leaves
/// the current version as it is.
pub proof fn lemma_schema_reaches_current(stored: Option<Seq<char>>)
    requires
        stored is None || stored == Some(seq!['1']) || stored == Some(seq!['2']) || stored == Some(
            seq!['3'],
        ) || stored == Some(seq!['4']),
    ensures
        version_after_opens(stored, 4) == Some(seq!['4']),
        version_after(Some(seq!['4'])) == Some(seq!['4']),
{
    let one = Some(seq!['1']);
    let two = Some(seq!['2']);
    let three = Some(seq!['3']);
    let four = Some(seq!['4']);
    assert(seq!['4'][0] != seq!['1'][0] && seq!['4'][0] != seq!['2'][0] && seq!['4'][0] != seq!['3'][0]);
    assert(seq!['3'][0] != seq!['1'][0] && seq!['3'][0] != seq!['2'][0] && seq!['2'][0] != seq!['1'][0]);
    assert(version_after(four) == four);
    assert(version_after(three) == four);
    assert(version_after(two) == three);
    assert(version_after(one) == two);
    assert(version_after(None) == four);
    assert(version_after_opens(four, 0) == four);
    assert(version_after_opens(four, 1) == four);
    assert(version_after_opens(four, 2) == four);
    assert(version_after_opens(four, 3) == four);
    assert(version_after_opens(four, 4) == four);
    assert(version_after_opens(three, 1) == four);
    assert(version_after_opens(two, 2) == four);
    assert(version_after_opens(one, 3) == four);
    assert(version_after_opens(three, 4) == four) by {
        assert(version_after_opens(three, 4) == version_after_opens(four, 3));
    }
    assert(version_after_opens(two, 4) == four) by {
        assert(version_after_opens(two, 4) == version_after_opens(three, 3));
        assert(version_after_opens(three, 3) == version_after_opens(four, 2));
    }
    assert(version_after_opens(one, 4) == four) by {
        assert(version_after_opens(one, 4) == version_after_opens(two, 3));
        assert(version_after_opens(two, 3) == version_after_opens(three, 2));
        assert(version_after_opens(three, 2) == version_after_opens(four, 1));
    }
    assert(version_after_opens(None, 4) == four) by {
        assert(version_after_opens(None, 4) == version_after_opens(four, 3));
    }
}

// ──────────────────────────── scan roots ───────────────────────────────

/// A scan root is stored trimmed; an empty one is refused.
pub fn scan_root_of(path: &str) -> (r: Result<String, String>)
    ensures
        match r {
            Ok(s) => trim(path@).len() > 0 && s@ == trim(path@),
            Err(e) => trim(path@).len() == 0 && e@ == "scan root path is empty"@,
        },
{
    let t = trim_in(&chars_of(path));
    if t.len() == 0 {
        Err(String::from_str("scan root path is empty"))
    } else {
        Ok(string_of(&t))
    }
}

/// `a` sorts before `b`: character by character, a proper prefix first.
/// This is the byte order of their UTF-8 forms, the order in which SQLite
/// sorts text by default.
pub open spec fn text_lt(a: Seq<char>, b: Seq<char>) -> bool
    decreases a.len(),
{
    if a.len() == 0 {
        b.len() > 0
    } else if b.len() == 0 {
        false
    } else if (a[0] as int) < (b[0] as int) {
        true
    } else if a[0] == b[0] {
        text_lt(a.drop_first(), b.drop_first())
    } else {
        false
    }
}

proof fn lemma_text_lt_irreflexive(a: Seq<char>)
    ensures
        !text_lt(a, a),
    decreases a.len(),
{
    if a.len() > 0 {
        lemma_text_lt_irreflexive(a.drop_first());
    }
}

proof fn lemma_text_lt_total(a: Seq<char>, b: Seq<char>)
    ensures
        a == b || text_lt(a, b) || text_lt(b, a),
    decreases a.len(),
{
    if a.len() > 0 && b.len() > 0 && a[0] == b[0] {
        lemma_text_lt_total(a.drop_first(), b.drop_first());
        if a.drop_first() == b.drop_first() {
            assert(a =~= seq![a[0]] + a.drop_first());
            assert(b =~= seq![b[0]] + b.drop_first());
        }
    } else if a.len() == 0 && b.len() == 0 {
        assert(a =~= b);
    }
}

proof fn lemma_text_lt_transitive(a: Seq<char>, b: Seq<char>, c: Seq<char>)
    requires
        text_lt(a, b),
        text_lt(b, c),
    ensures
        text_lt(a, c),
    decreases a.len(),
{
    if a.len() > 0 && a[0] == b[0] && b[0] == c[0] {
        lemma_text_lt_transitive(a.drop_first(), b.drop_first(), c.drop_first());
    }
}

proof fn lemma_text_lt_asymmetric(a: Seq<char>, b: Seq<char>)
    requires
        text_lt(a, b),
    ensures
        !text_lt(b, a),
{
    if text_lt(b, a) {
        lemma_text_lt_transitive(a, b, a);
        lemma_text_lt_irreflexive(a);
    }
}

/// Texts in strictly rising order: sorted, no two alike.
pub open spec fn strictly_sorted(s: Seq<Seq<char>>) -> bool {
    forall|i: int, j: int| 0 <= i < j < s.len() ==> text_lt(#[trigger] s[i], #[trigger] s[j])
}

/// How many of `s` sort before `x`.
pub open spec fn count_before(s: Seq<Seq<char>>, x: Seq<char>) -> nat
    decreases s.len(),
{
    if s.len() == 0 {
        0
    } else {
        count_before(s.drop_last(), x) + if text_lt(s.last(), x) {
            1nat
        } else {
            0nat
        }
    }
}

/// The stored scan roots after adding `x`: unchanged when `x` is there,
/// else `x` in its sorted place.
pub open spec fn with_root(s: Seq<Seq<char>>, x: Seq<char>) -> Seq<Seq<char>> {
    if s.contains(x) {
        s
    } else {
        s.take(count_before(s, x) as int) + seq![x] + s.skip(count_before(s, x) as int)
    }
}

proof fn lemma_count_before(s: Seq<Seq<char>>, x: Seq<char>)
    requires
        strictly_sorted(s),
    ensures
        count_before(s, x) <= s.len(),
        forall|i: int| 0 <= i < count_before(s, x) ==> text_lt(#[trigger] s[i], x),
        forall|i: int| count_before(s, x) <= i < s.len() ==> !text_lt(#[trigger] s[i], x),
    decreases s.len(),
{
    if s.len() > 0 {
        let d = s.drop_last();
        assert(strictly_sorted(d)) by {
            assert forall|i: int, j: int| 0 <= i < j < d.len() implies text_lt(
                #[trigger] d[i],
                #[trigger] d[j],
            ) by {
                assert(d[i] == s[i] && d[j] == s[j]);
            }
        }
        lemma_count_before(d, x);
        let k = count_before(d, x);
        if text_lt(s.last(), x) {
            assert forall|i: int| 0 <= i < s.len() implies text_lt(#[trigger] s[i], x) by {
                if i < s.len() - 1 {
                    assert(s[i] == d[i]);
                    assert(text_lt(s[i], s[s.len() - 1]));
                    lemma_text_lt_transitive(s[i], s[s.len() - 1], x);
                }
            }
        } else {
            assert forall|i: int| k <= i < s.len() implies !text_lt(#[trigger] s[i], x) by {
                if i < s.len() - 1 {
                    assert(s[i] == d[i]);
                }
            }
            assert forall|i: int| 0 <= i < k implies text_lt(#[trigger] s[i], x) by {
                assert(s[i] == d[i]);
            }
        }
    }
}

/// Adding a scan root keeps the stored roots strictly sorted, adds exactly
/// that root to their set, and adding it again changes nothing.
pub proof fn lemma_with_root(s: Seq<Seq<char>>, x: Seq<char>)
    requires
        strictly_sorted(s),
    ensures
        strictly_sorted(with_root(s, x)),
        with_root(s, x).to_set() == s.to_set().insert(x),
        with_root(with_root(s, x), x) == with_root(s, x),
{
    lemma_count_before(s, x);
    let r = with_root(s, x);
    if s.contains(x) {
        assert(s.to_set().insert(x) =~= s.to_set());
    } else {
        let k = count_before(s, x) as int;
        assert forall|i: int| k <= i < s.len() implies text_lt(x, #[trigger] s[i]) by {
            lemma_text_lt_total(x, s[i]);
            if x == s[i] {
                assert(s.contains(x));
            }
        }
        assert forall|i: int| 0 <= i < r.len() implies (i < k ==> r[i] == s[i]) && (i == k ==> r[i]
            == x) && (i > k ==> r[i] == s[i - 1]) by {}
        assert forall|i: int, j: int| 0 <= i < j < r.len() implies text_lt(
            #[trigger] r[i],
            #[trigger] r[j],
        ) by {
            if j < k {
                assert(r[i] == s[i] && r[j] == s[j]);
            } else if j == k {
                assert(r[i] == s[i]);
            } else if i == k {
                assert(r[j] == s[j - 1]);
            } else if i < k {
                assert(r[i] == s[i] && r[j] == s[j - 1]);
                assert(text_lt(s[i], x));
                lemma_text_lt_transitive(s[i], x, s[j - 1]);
            } else {
                assert(r[i] == s[i - 1] && r[j] == s[j - 1]);
            }
        }
        assert forall|y: Seq<char>| r.contains(y) <==> s.to_set().insert(x).contains(y) by {
            if r.contains(y) {
                let i = choose|i: int| 0 <= i < r.len() && r[i] == y;
                if i < k {
                    assert(s[i] == y);
                } else if i > k {
                    assert(s[i - 1] == y);
                }
            }
            if s.contains(y) {
                let i = choose|i: int| 0 <= i < s.len() && s[i] == y;
                if i < k {
                    assert(r[i] == y);
                } else {
                    assert(r[i + 1] == y);
                }
            }
            if y == x {
                assert(r[k] == x);
            }
        }
        assert(r.to_set() =~= s.to_set().insert(x));
        assert(r[k] == x);
        assert(r.contains(x));
    }
}

/// Whether `a` sorts before `b`.
pub fn text_lt_in(a: &Vec<char>, b: &Vec<char>) -> (r: bool)
    ensures
        r == text_lt(a@, b@),
{
    let mut i: usize = 0;
    assert(a@.skip(0) =~= a@);
    assert(b@.skip(0) =~= b@);
    while i < a.len() && i < b.len() && a[i] == b[i]
        invariant
            i <= a.len(),
            i <= b.len(),
            text_lt(a@, b@) == text_lt(a@.skip(i as int), b@.skip(i as int)),
        decreases a.len() - i,
    {
        assert(a@.skip(i as int).drop_first() =~= a@.skip(i + 1));
        assert(b@.skip(i as int).drop_first() =~= b@.skip(i + 1));
        i = i + 1;
    }
    let ghost sa = a@.skip(i as int);
    let ghost sb = b@.skip(i as int);
    if i == a.len() {
        assert(sa.len() == 0);
        i < b.len()
    } else if i == b.len() {
        assert(sb.len() == 0);
        false
    } else {
        assert(sa[0] == a@[i as int] && sb[0] == b@[i as int]);
        a[i] < b[i]
    }
}

/// Adds a scan root to the stored roots, kept in strictly rising order:
/// the path is trimmed; an empty one is refused; a root already stored
/// leaves the roots as they are.
pub fn add_scan_root_to(roots: &Vec<String>, path: &str) -> (r: Result<Vec<String>, String>)
    requires
        strictly_sorted(strings_view(roots@)),
    ensures
        match r {
            Ok(v) => {
                &&& trim(path@).len() > 0
                &&& strings_view(v@) == with_root(strings_view(roots@), trim(path@))
                &&& strictly_sorted(strings_view(v@))
                &&& strings_view(v@).to_set() == strings_view(roots@).to_set().insert(
                    trim(path@),
                )
            },
            Err(e) => trim(path@).len() == 0 && e@ == "scan root path is empty"@,
        },
{
    proof {
        lemma_with_root(strings_view(roots@), trim(path@));
    }
    let root = match scan_root_of(path) {
        Ok(t) => t,
        Err(e) => {
            return Err(e);
        },
    };
    let ghost sv = strings_view(roots@);
    let ghost x = root@;
    let rc = chars_of(root.as_str());
    proof {
        lemma_count_before(sv, x);
    }
    let mut k: usize = 0;
    while k < roots.len() && text_lt_in(&chars_of(roots[k].as_str()), &rc)
        invariant
            k <= roots.len(),
            sv == strings_view(roots@),
            rc@ == x,
            strictly_sorted(sv),
            forall|i: int| 0 <= i < k ==> text_lt(#[trigger] sv[i], x),
            count_before(sv, x) <= sv.len(),
            forall|i: int| 0 <= i < count_before(sv, x) ==> text_lt(#[trigger] sv[i], x),
            forall|i: int| count_before(sv, x) <= i < sv.len() ==> !text_lt(#[trigger] sv[i], x),
        decreases roots.len() - k,
    {
        assert(sv[k as int] == roots@[k as int]@);
        k = k + 1;
    }
    assert(k == count_before(sv, x)) by {
        if k < count_before(sv, x) {
            assert(sv[k as int] == roots@[k as int]@);
            assert(text_lt(sv[k as int], x));
        }
        if k > count_before(sv, x) {
            let c = count_before(sv, x) as int;
            assert(text_lt(sv[c], x));
        }
    }
    if k < roots.len() && roots[k] == root {
        assert(sv[k as int] == roots@[k as int]@);
        assert(sv.contains(x));
        return Ok(roots.clone());
    }
    assert(!sv.contains(x)) by {
        if sv.contains(x) {
            let i = choose|i: int| 0 <= i < sv.len() && sv[i] == x;
            lemma_text_lt_irreflexive(x);
            if i < k {
                assert(text_lt(sv[i], x));
            } else if i > k {
                assert(sv[k as int] == roots@[k as int]@);
                lemma_text_lt_total(sv[k as int], x);
                assert(text_lt(sv[k as int], sv[i]));
                lemma_text_lt_asymmetric(sv[k as int], x);
            }
        }
    }
    let mut out: Vec<String> = Vec::new();
    let mut i: usize = 0;
    while i < roots.len()
        invariant
            i <= roots.len(),
            k <= roots.len(),
            sv == strings_view(roots@),
            x == root@,
            strings_view(out@) == if i <= k {
                sv.take(i as int)
            } else {
                sv.take(k as int) + seq![x] + sv.subrange(k as int, i as int)
            },
        decreases roots.len() - i,
    {
        if i == k {
            out.push(root.clone());
        }
        let ghost before = strings_view(out@);
        out.push(roots[i].clone());
        assert(sv[i as int] == roots@[i as int]@);
        assert(strings_view(out@) =~= before.push(sv[i as int]));
        assert(strings_view(out@) =~= if i + 1 <= k {
            sv.take(i + 1)
        } else {
            sv.take(k as int) + seq![x] + sv.subrange(k as int, i + 1)
        });
        i = i + 1;
    }
    if k == roots.len() {
        let ghost before = strings_view(out@);
        out.push(root);
        assert(strings_view(out@) =~= before.push(x));
    }
    assert(strings_view(out@) =~= sv.take(k as int) + seq![x] + sv.skip(k as int));
    Ok(out)
}

/// Whether the texts are in strictly rising order.
pub fn strictly_sorted_in(v: &Vec<String>) -> (b: bool)
    ensures
        b == strictly_sorted(strings_view(v@)),
{
    let ghost sv = strings_view(v@);
    let mut i: usize = 1;
    if v.len() == 0 {
        return true;
    }
    while i < v.len()
        invariant
            1 <= i <= v.len(),
            sv == strings_view(v@),
            forall|a: int, b: int| 0 <= a < b < i ==> text_lt(#[trigger] sv[a], #[trigger] sv[b]),
        decreases v.len() - i,
    {
        assert(sv[i - 1] == v@[i - 1]@ && sv[i as int] == v@[i as int]@);
        if !text_lt_in(&chars_of(v[i - 1].as_str()), &chars_of(v[i].as_str())) {
            return false;
        }
        assert forall|a: int, b: int| 0 <= a < b < i + 1 implies text_lt(
            #[trigger] sv[a],
            #[trigger] sv[b],
        ) by {
            if b == i && a < i - 1 {
                lemma_text_lt_transitive(sv[a], sv[i - 1], sv[b]);
            }
        }
        i = i + 1;
    }
    true
}

// ──────────────────────────── queries ──────────────────────────────────

/// `n` SQL placeholders separated by commas.
pub open spec fn placeholders(n: nat) -> Seq<char>
    decreases n,
{
    if n == 0 {
        seq![]
    } else if n == 1 {
        seq!['?']
    } else {
        placeholders((n - 1) as nat) + seq![',', '?']
    }
}

/// The placeholder list for a query over `n` paths.
pub fn sql_placeholders(n: usize) -> (s: String)
    ensures
        s@ == placeholders(n as nat),
{
    let mut s = String::new();
    let mut i: usize = 0;
    while i < n
        invariant
            i <= n,
            s@ == placeholders(i as nat),
        decreases n - i,
    {
        if i > 0 {
            push_char(&mut s, ',');
        }
        push_char(&mut s, '?');
        assert(s@ =~= placeholders((i + 1) as nat));
        i = i + 1;
    }
    s
}

/// What `str::to_lowercase` gives for `s`.
pub uninterp spec fn lowercase(s: Seq<char>) -> Seq<char>;

/// `s.to_lowercase()`, as `lowercase` names it.
#[verifier::external_body]
fn to_lower(s: &str) -> (r: String)
    ensures
        r@ == lowercase(s@),
{
    s.to_lowercase()
}

/// A character escaped as itself after `\` in a `LIKE ... ESCAPE '\'`
/// pattern: the escape character and the two wildcards.
pub open spec fn like_special(c: char) -> bool {
    c == '\\' || c == '%' || c == '_'
}

/// `s` with `\`, `%` and `_` escaped, so that a `LIKE` pattern matches
/// them literally.
pub open spec fn like_escape(s: Seq<char>) -> Seq<char>
    decreases s.len(),
{
    if s.len() == 0 {
        seq![]
    } else {
        like_escape(s.drop_last()) + if like_special(s.last()) {
            seq!['\\', s.last()]
        } else {
            seq![s.last()]
        }
    }
}

/// The `LIKE ... ESCAPE '\'` pattern of a search: the lower-cased query,
/// with its wildcards escaped, between `%`s, so that it matches exactly
/// the texts whose lower-cased form contains the lower-cased query.
pub fn search_pattern(query: &str) -> (p: String)
    ensures
        p@ == seq!['%'] + like_escape(lowercase(query@)) + seq!['%'],
{
    let mut p = String::new();
    push_char(&mut p, '%');
    let l = chars_of(to_lower(query).as_str());
    let ghost start = p@;
    let mut i: usize = 0;
    assert(l@.take(0) =~= seq![]);
    while i < l.len()
        invariant
            i <= l.len(),
            start == seq!['%'],
            p@ == start + like_escape(l@.take(i as int)),
        decreases l.len() - i,
    {
        let c = l[i];
        if c == '\\' || c == '%' || c == '_' {
            push_char(&mut p, '\\');
        }
        push_char(&mut p, c);
        assert(l@.take(i + 1).drop_last() =~= l@.take(i as int));
        assert(p@ =~= start + like_escape(l@.take(i + 1)));
        i = i + 1;
    }
    assert(l@.take(l.len() as int) =~= l@);
    push_char(&mut p, '%');
    p
}

// ──────────────────────────── album art ────────────────────────────────

/// The file name under which art for an audio file with path hash `h` is
/// cached: the hash as 16 lower-case hex digits, then `.jpg`.
pub open spec fn art_file_name(h: u64) -> Seq<char> {
    zero_pad(hex(h as nat), 16) + ".jpg"@
}

/// What `DefaultHasher::new()` gives after hashing the string `p`.
pub uninterp spec fn default_hash(p: Seq<char>) -> u64;

/// The std default hash of the path text (SipHash with the fixed keys of
/// `DefaultHasher::new`), as `default_hash` names it.
#[verifier::external_body]
fn path_hash(p: &str) -> (h: u64)
    ensures
        h == default_hash(p@),
{
    let mut hasher = std::collections::hash_map::DefaultHasher::new();
    p.hash(&mut hasher);
    hasher.finish()
}

/// The cache file name for a hash.
pub fn art_file_name_of(h: u64) -> (s: String)
    ensures
        s@ == art_file_name(h),
{
    let digits = zero_pad_in(hex_in(h), 16);
    let mut s = string_of(&digits);
    push_str(&mut s, ".jpg");
    s
}

/// The cache file name of the album art of the audio file at `audio_path`.
pub fn art_cache_name(audio_path: &str) -> (s: String)
    ensures
        s@ == art_file_name(default_hash(audio_path@)),
{
    art_file_name_of(path_hash(audio_path))
}

// ──────────────────────────── clock ────────────────────────────────────

#[verifier::external_type_specification]
#[verifier::external_body]
pub struct ExSystemTime(std::time::SystemTime);

/// `SystemTime::now`: a reading of the system clock. Nothing is promised
/// of it: it is the time.
#[verifier::external_body]
fn clock_now() -> (t: std::time::SystemTime) {
    std::time::SystemTime::now()
}

/// `t.duration_since(UNIX_EPOCH)`, with the error std gives for a reading
/// earlier than the epoch as `None`. Nothing is promised of the duration.
#[verifier::external_body]
fn since_epoch(t: &std::time::SystemTime) -> (d: Option<std::time::Duration>) {
    t.duration_since(std::time::UNIX_EPOCH).ok()
}

/// `Duration::as_secs`: the whole seconds of `d`. A `Duration` is opaque
/// here, so nothing is stated of the count.
#[verifier::external_body]
fn whole_secs(d: &std::time::Duration) -> (s: u64) {
    d.as_secs()
}

/// The timestamp for a clock reading: its seconds as an `i64`, or 0 for a
/// clock before the epoch.
pub open spec fn stamp_of(reading: Option<u64>) -> i64 {
    match reading {
        Some(s) => s as i64,
        None => 0,
    }
}

/// The timestamp stored for a clock reading.
pub fn epoch_seconds(reading: Option<u64>) -> (t: i64)
    ensures
        t == stamp_of(reading),
{
    match reading {
        Some(s) => s as i64,
        None => 0,
    }
}

/// The current time as stored in the index: seconds since the epoch.
pub fn now_secs() -> (t: i64)
    ensures
        exists|r: Option<u64>| t == #[trigger] stamp_of(r),
{
    let reading = match since_epoch(&clock_now()) {
        Some(d) => Some(whole_secs(&d)),
        None => None,
    };
    epoch_seconds(reading)
}

} // verus!
