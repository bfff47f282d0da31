//! Adding tracks to a playlist: the rows built from the library index or
//! from a file's tags, and the plan by which an m3u8 import sorts its
//! entries into indexed, readable and missing ones.

use vstd::prelude::*;

use crate::library::{cache_index, find_cached, tracks_view, Track, TrackS};
use crate::paths::{file_stem_of, is_under, join_path, parent_of, path_file_stem, path_join, path_parent, path_under};
use crate::playlist::{looks_absolute, looks_absolute_in, raw_view, RawTrack, RawTrackS};
use crate::text::{chars_of, opt_str_view, strings_view};

verus! {

// ──────────────────────────── playlist rows ────────────────────────────

/// A row's duration: the `#EXTINF` text the playlist gave (a number that
/// `str::parse::<f64>` reads), or seconds as the bit pattern of an `f64`.
pub enum RowDuration {
    Text(String),
    Bits(u64),
}

pub enum RowDurationS {
    Text(Seq<char>),
    Bits(u64),
}

impl View for RowDuration {
    type V = RowDurationS;

    open spec fn view(&self) -> RowDurationS {
        match self {
            RowDuration::Text(t) => RowDurationS::Text(t@),
            RowDuration::Bits(b) => RowDurationS::Bits(*b),
        }
    }
}

/// A track row of a playlist, with the metadata the player shows.
pub struct PlaylistTrackRow {
    pub id: i64,
    pub playlist_id: i64,
    pub position: i64,
    pub path: String,
    pub title: String,
    pub artist: String,
    pub album: String,
    pub duration: RowDuration,
    pub album_art_path: Option<String>,
    pub sample_rate: Option<u32>,
    pub bits_per_sample: Option<u32>,
    pub file_size: Option<u64>,
}

/// A playlist row, as a value.
pub struct RowS {
    pub id: i64,
    pub playlist_id: i64,
    pub position: int,
    pub path: Seq<char>,
    pub title: Seq<char>,
    pub artist: Seq<char>,
    pub album: Seq<char>,
    pub duration: RowDurationS,
    pub album_art_path: Option<Seq<char>>,
    pub sample_rate: Option<u32>,
    pub bits_per_sample: Option<u32>,
    pub file_size: Option<u64>,
}

impl View for PlaylistTrackRow {
    type V = RowS;

    open spec fn view(&self) -> RowS {
        RowS {
            id: self.id,
            playlist_id: self.playlist_id,
            position: self.position as int,
            path: self.path@,
            title: self.title@,
            artist: self.artist@,
            album: self.album@,
            duration: self.duration@,
            album_art_path: opt_str_view(self.album_art_path),
            sample_rate: self.sample_rate,
            bits_per_sample: self.bits_per_sample,
            file_size: self.file_size,
        }
    }
}

pub open spec fn rows_view(rs: Seq<PlaylistTrackRow>) -> Seq<RowS> {
    rs.map_values(|r: PlaylistTrackRow| r@)
}

/// The row for a playlist entry the library index knows: the entry's own
/// title, artist and duration where it has them, the index's otherwise,
/// and the index's album, art and audio format.
pub open spec fn row_from_cache(t: RawTrackS, c: TrackS) -> RowS {
    RowS {
        id: 0,
        playlist_id: 0,
        position: t.position,
        path: t.path,
        title: match t.title {
            Some(x) => x,
            None => c.title,
        },
        artist: match t.artist {
            Some(a) => a,
            None => c.artist,
        },
        album: c.album,
        duration: match t.duration {
            Some(d) => RowDurationS::Text(d),
            None => RowDurationS::Bits(c.duration_bits),
        },
        album_art_path: c.album_art_path,
        sample_rate: c.sample_rate,
        bits_per_sample: c.bits_per_sample,
        file_size: None,
    }
}

/// The rows of the entries the index knows, in order; the others are left
/// out.
pub open spec fn rows_from_cache(ts: Seq<RawTrackS>, cache: Seq<TrackS>) -> Seq<RowS>
    decreases ts.len(),
{
    if ts.len() == 0 {
        seq![]
    } else {
        let rest = rows_from_cache(ts.drop_last(), cache);
        match cache_index(cache, ts.last().path) {
            Some(j) => rest.push(row_from_cache(ts.last(), cache[j])),
            None => rest,
        }
    }
}

fn clone_opt(o: &Option<String>) -> (r: Option<String>)
    ensures
        opt_str_view(r) == opt_str_view(*o),
{
    match o {
        Some(s) => Some(s.clone()),
        None => None,
    }
}

fn cached_row(t: &RawTrack, c: &Track) -> (r: PlaylistTrackRow)
    ensures
        r@ == row_from_cache(t@, c@),
{
    let title = match &t.title {
        Some(x) => x.clone(),
        None => c.title.clone(),
    };
    let artist = match &t.artist {
        Some(a) => a.clone(),
        None => c.artist.clone(),
    };
    let duration = match &t.duration {
        Some(d) => RowDuration::Text(d.clone()),
        None => RowDuration::Bits(c.duration_bits),
    };
    PlaylistTrackRow {
        id: 0,
        playlist_id: 0,
        position: t.position,
        path: t.path.clone(),
        title,
        artist,
        album: c.album.clone(),
        duration,
        album_art_path: clone_opt(&c.album_art_path),
        sample_rate: c.sample_rate,
        bits_per_sample: c.bits_per_sample,
        file_size: None,
    }
}

/// Rows for the entries found in the library index, without reading any
/// file; entries the index does not know are skipped.
pub fn enrich_tracks_from_cache(tracks: &Vec<RawTrack>, library_cache: &Vec<Track>) -> (r: Result<
    Vec<PlaylistTrackRow>,
    String,
>)
    ensures
        match r {
            Ok(rows) => rows_view(rows@) == rows_from_cache(raw_view(tracks@), tracks_view(library_cache@)),
            Err(_) => false,
        },
{
    let ghost tv = raw_view(tracks@);
    let ghost cv = tracks_view(library_cache@);
    let mut out: Vec<PlaylistTrackRow> = Vec::new();
    let mut i: usize = 0;
    assert(tv.take(0) =~= seq![]);
    assert(rows_view(out@) =~= seq![]);
    while i < tracks.len()
        invariant
            i <= tracks.len(),
            tv == raw_view(tracks@),
            cv == tracks_view(library_cache@),
            rows_view(out@) == rows_from_cache(tv.take(i as int), cv),
        decreases tracks.len() - i,
    {
        assert(tv.take(i + 1).drop_last() =~= tv.take(i as int));
        assert(tv.take(i + 1).last() == tracks@[i as int]@);
        match find_cached(library_cache, &tracks[i].path) {
            Some(j) => {
                assert(cv[j as int] == library_cache@[j as int]@);
                let row = cached_row(&tracks[i], &library_cache[j]);
                let ghost before = rows_view(out@);
                out.push(row);
                assert(rows_view(out@) =~= before.push(row@));
            },
            None => {},
        }
        i = i + 1;
    }
    assert(tv.take(tracks.len() as int) =~= tv);
    Ok(out)
}

/// The entries for paths added to a playlist directly: position `i` for
/// the `i`-th path, nothing else known.
pub open spec fn raw_of_paths(paths: Seq<Seq<char>>) -> Seq<RawTrackS> {
    Seq::new(
        paths.len(),
        |i: int| RawTrackS { position: i, path: paths[i], title: None, artist: None, duration: None },
    )
}

/// The playlist entries for a list of paths to add.
pub fn raw_tracks_of(paths: &Vec<String>) -> (r: Vec<RawTrack>)
    requires
        paths.len() <= i64::MAX,
    ensures
        raw_view(r@) == raw_of_paths(strings_view(paths@)),
{
    let mut out: Vec<RawTrack> = Vec::new();
    let mut i: usize = 0;
    while i < paths.len()
        invariant
            i <= paths.len() <= i64::MAX,
            out@.len() == i,
            raw_view(out@) == raw_of_paths(strings_view(paths@)).take(i as int),
        decreases paths.len() - i,
    {
        let ghost before = raw_view(out@);
        assert(strings_view(paths@)[i as int] == paths@[i as int]@);
        out.push(
            RawTrack {
                position: i as i64,
                path: paths[i].clone(),
                title: None,
                artist: None,
                duration: None,
            },
        );
        assert(out@.len() == i + 1);
        assert(raw_view(out@)[i as int] == out@[i as int]@);
        assert(raw_view(out@)[i as int] == raw_of_paths(strings_view(paths@))[i as int]);
        assert(raw_view(out@) =~= raw_of_paths(strings_view(paths@)).take(i + 1));
        i = i + 1;
    }
    assert(raw_of_paths(strings_view(paths@)).take(paths.len() as int) =~= raw_of_paths(
        strings_view(paths@),
    ));
    out
}

// ──────────────────────────── reading tags ─────────────────────────────

/// What a file's tags and audio properties say, where it says anything.
pub struct TagInfo {
    pub title: Option<String>,
    pub artist: Option<String>,
    pub album: Option<String>,
    pub sample_rate: Option<u32>,
    pub bits_per_sample: Option<u32>,
}

pub open spec fn first_of(a: Option<Seq<char>>, b: Option<Seq<char>>) -> Seq<char> {
    match a {
        Some(x) => x,
        None => match b {
            Some(y) => y,
            None => seq![],
        },
    }
}

/// The row for a playlist entry read from its file: the entry's title and
/// artist where it has them, else the tags', else nothing; the tags' album
/// and format; the entry's duration or zero; the art and size found.
pub open spec fn row_from_tags(
    t: RawTrackS,
    tags: TagInfo,
    art: Option<Seq<char>>,
    size: Option<u64>,
) -> RowS {
    RowS {
        id: 0,
        playlist_id: 0,
        position: t.position,
        path: t.path,
        title: first_of(t.title, opt_str_view(tags.title)),
        artist: first_of(t.artist, opt_str_view(tags.artist)),
        album: first_of(None, opt_str_view(tags.album)),
        duration: match t.duration {
            Some(d) => RowDurationS::Text(d),
            None => RowDurationS::Bits(0),
        },
        album_art_path: art,
        sample_rate: tags.sample_rate,
        bits_per_sample: tags.bits_per_sample,
        file_size: size,
    }
}

fn first_string(a: &Option<String>, b: &Option<String>) -> (s: String)
    ensures
        s@ == first_of(opt_str_view(*a), opt_str_view(*b)),
{
    match a {
        Some(x) => x.clone(),
        None => match b {
            Some(y) => y.clone(),
            None => String::new(),
        },
    }
}

/// The row for an entry whose file was read: combines the entry with the
/// file's tags, its cached album art and its size.
pub fn enrich_track(
    track: &RawTrack,
    tags: &TagInfo,
    album_art_path: Option<String>,
    file_size: Option<u64>,
) -> (r: PlaylistTrackRow)
    ensures
        r@ == row_from_tags(track@, *tags, opt_str_view(album_art_path), file_size),
{
    let none: Option<String> = None;
    PlaylistTrackRow {
        id: 0,
        playlist_id: 0,
        position: track.position,
        path: track.path.clone(),
        title: first_string(&track.title, &tags.title),
        artist: first_string(&track.artist, &tags.artist),
        album: first_string(&none, &tags.album),
        duration: match &track.duration {
            Some(d) => RowDuration::Text(d.clone()),
            None => RowDuration::Bits(0),
        },
        album_art_path,
        sample_rate: tags.sample_rate,
        bits_per_sample: tags.bits_per_sample,
        file_size,
    }
}

/// A row read from a file keeps its title; with none it takes the file
/// stem of its path, or stays empty.
pub open spec fn titled(r: RowS) -> RowS {
    if r.title.len() == 0 {
        RowS {
            title: match path_file_stem(r.path) {
                Some(s) => s,
                None => seq![],
            },
            ..r
        }
    } else {
        r
    }
}

/// Gives a row without a title its file stem as title.
pub fn fill_title(row: PlaylistTrackRow) -> (r: PlaylistTrackRow)
    ensures
        r@ == titled(row@),
{
    let mut row = row;
    if row.title.as_str().unicode_len() == 0 {
        row.title = match file_stem_of(row.path.as_str()) {
            Some(s) => s,
            None => String::new(),
        };
    }
    row
}

// ──────────────────────────── importing ────────────────────────────────

/// The text of the error an import gives when no scan root is configured.
pub open spec fn no_roots_message() -> Seq<char> {
    "No scan roots configured. Add scan directories in Settings → Library."@
}

/// An import needs at least one scan root.
pub fn check_scan_roots(scan_roots: &Vec<String>) -> (r: Result<(), String>)
    ensures
        r is Ok <==> scan_roots.len() > 0,
        match r {
            Err(e) => e@ == no_roots_message(),
            Ok(_) => true,
        },
{
    if scan_roots.len() == 0 {
        Err(String::from_str("No scan roots configured. Add scan directories in Settings → Library."))
    } else {
        Ok(())
    }
}

/// The directory an imported playlist's relative entries are taken from:
/// the parent of the playlist file's path.
pub fn import_base_dir(m3u8_path: &str) -> (r: Option<String>)
    ensures
        opt_str_view(r) == path_parent(m3u8_path@),
{
    parent_of(m3u8_path)
}

/// An entry path after import: absolute paths stay, others are joined to
/// the playlist's directory when there is one.
pub open spec fn reresolved(p: Seq<char>, base: Option<Seq<char>>) -> Seq<char> {
    if looks_absolute(p) {
        p
    } else {
        match base {
            Some(b) => path_join(b, p),
            None => p,
        }
    }
}

/// Resolves an entry path once more against the playlist's directory.
pub fn reresolve_path(path: &String, base_dir: Option<&str>) -> (r: String)
    ensures
        r@ == reresolved(
            path@,
            match base_dir {
                Some(b) => Some(b@),
                None => None,
            },
        ),
{
    if looks_absolute_in(&chars_of(path.as_str())) {
        path.clone()
    } else {
        match base_dir {
            Some(b) => join_path(b, path.as_str()),
            None => path.clone(),
        }
    }
}

/// The entries with their paths resolved once more.
pub open spec fn reresolved_tracks(ts: Seq<RawTrackS>, base: Option<Seq<char>>) -> Seq<RawTrackS> {
    Seq::new(ts.len(), |i: int| RawTrackS { path: reresolved(ts[i].path, base), ..ts[i] })
}

/// Resolves the paths of all entries once more against the playlist's
/// directory.
pub fn reresolve_tracks(tracks: Vec<RawTrack>, base_dir: Option<&str>) -> (r: Vec<RawTrack>)
    ensures
        raw_view(r@) == reresolved_tracks(
            raw_view(tracks@),
            match base_dir {
                Some(b) => Some(b@),
                None => None,
            },
        ),
{
    let ghost base = match base_dir {
        Some(b) => Some(b@),
        None => None,
    };
    let ghost want = reresolved_tracks(raw_view(tracks@), base);
    let mut out: Vec<RawTrack> = Vec::new();
    let mut i: usize = 0;
    while i < tracks.len()
        invariant
            i <= tracks.len(),
            base == match base_dir {
                Some(b) => Some(b@),
                None => None,
            },
            want == reresolved_tracks(raw_view(tracks@), base),
            out@.len() == i,
            raw_view(out@) == want.take(i as int),
        decreases tracks.len() - i,
    {
        let t = &tracks[i];
        assert(raw_view(tracks@)[i as int] == t@);
        let path = reresolve_path(&t.path, base_dir);
        let ghost before = raw_view(out@);
        out.push(
            RawTrack {
                position: t.position,
                path,
                title: clone_opt(&t.title),
                artist: clone_opt(&t.artist),
                duration: clone_opt(&t.duration),
            },
        );
        assert(out@.len() == i + 1);
        assert(raw_view(out@)[i as int] == out@[i as int]@);
        assert(raw_view(out@)[i as int] == want[i as int]);
        assert(raw_view(out@) =~= want.take(i + 1));
        i = i + 1;
    }
    assert(want.take(tracks.len() as int) =~= want);
    out
}

/// Whether `p` lies under one of the scan roots.
pub open spec fn under_some_root(p: Seq<char>, roots: Seq<Seq<char>>) -> bool {
    exists|k: int| 0 <= k < roots.len() && #[trigger] path_under(p, roots[k])
}

/// Whether `path` lies under one of the scan roots.
pub fn under_any_root(path: &String, scan_roots: &Vec<String>) -> (b: bool)
    ensures
        b == under_some_root(path@, strings_view(scan_roots@)),
{
    let ghost rv = strings_view(scan_roots@);
    let mut k: usize = 0;
    while k < scan_roots.len()
        invariant
            k <= scan_roots.len(),
            rv == strings_view(scan_roots@),
            forall|m: int| 0 <= m < k ==> !path_under(path@, #[trigger] rv[m]),
        decreases scan_roots.len() - k,
    {
        if is_under(path.as_str(), scan_roots[k].as_str()) {
            assert(path_under(path@, rv[k as int]));
            return true;
        }
        k = k + 1;
    }
    false
}

/// What an import does with one entry.
pub enum ImportStep {
    /// The index knows the entry: its row.
    Cached(PlaylistTrackRow),
    /// The entry's file lies under a scan root and exists: read it (the
    /// entry's artist is dropped, its title and duration kept).
    Enrich(RawTrack),
    /// Neither: the path is reported missing.
    Missing(String),
}

pub enum ImportStepS {
    Cached(RowS),
    Enrich(RawTrackS),
    Missing(Seq<char>),
}

impl View for ImportStep {
    type V = ImportStepS;

    open spec fn view(&self) -> ImportStepS {
        match self {
            ImportStep::Cached(r) => ImportStepS::Cached(r@),
            ImportStep::Enrich(t) => ImportStepS::Enrich(t@),
            ImportStep::Missing(p) => ImportStepS::Missing(p@),
        }
    }
}

/// The step for one entry; `exists` tells whether its file exists.
pub open spec fn import_step(
    t: RawTrackS,
    cache: Seq<TrackS>,
    roots: Seq<Seq<char>>,
    exists: bool,
) -> ImportStepS {
    match cache_index(cache, t.path) {
        Some(j) => ImportStepS::Cached(row_from_cache(t, cache[j])),
        None => if under_some_root(t.path, roots) && exists {
            ImportStepS::Enrich(RawTrackS { artist: None, ..t })
        } else {
            ImportStepS::Missing(t.path)
        },
    }
}

pub open spec fn import_steps(
    ts: Seq<RawTrackS>,
    cache: Seq<TrackS>,
    roots: Seq<Seq<char>>,
    exists: Seq<bool>,
) -> Seq<ImportStepS> {
    Seq::new(ts.len(), |i: int| import_step(ts[i], cache, roots, exists[i]))
}

pub open spec fn steps_view(ss: Seq<ImportStep>) -> Seq<ImportStepS> {
    ss.map_values(|s: ImportStep| s@)
}

/// Sorts the entries of an import: those the index knows become rows,
/// existing files under a scan root are to be read, the rest are missing.
/// `exists[i]` tells whether entry `i`'s file exists.
pub fn plan_import(
    tracks: &Vec<RawTrack>,
    library_cache: &Vec<Track>,
    scan_roots: &Vec<String>,
    exists: &Vec<bool>,
) -> (r: Vec<ImportStep>)
    requires
        exists.len() == tracks.len(),
    ensures
        steps_view(r@) == import_steps(
            raw_view(tracks@),
            tracks_view(library_cache@),
            strings_view(scan_roots@),
            exists@,
        ),
{
    let ghost want = import_steps(
        raw_view(tracks@),
        tracks_view(library_cache@),
        strings_view(scan_roots@),
        exists@,
    );
    let mut out: Vec<ImportStep> = Vec::new();
    let mut i: usize = 0;
    while i < tracks.len()
        invariant
            i <= tracks.len() == exists.len(),
            want == import_steps(
                raw_view(tracks@),
                tracks_view(library_cache@),
                strings_view(scan_roots@),
                exists@,
            ),
            out@.len() == i,
            steps_view(out@) == want.take(i as int),
        decreases tracks.len() - i,
    {
        let t = &tracks[i];
        assert(raw_view(tracks@)[i as int] == t@);
        let step = match find_cached(library_cache, &t.path) {
            Some(j) => {
                assert(tracks_view(library_cache@)[j as int] == library_cache@[j as int]@);
                ImportStep::Cached(cached_row(t, &library_cache[j]))
            },
            None => {
                if under_any_root(&t.path, scan_roots) && exists[i] {
                    ImportStep::Enrich(
                        RawTrack {
                            position: t.position,
                            path: t.path.clone(),
                            title: clone_opt(&t.title),
                            artist: None,
                            duration: clone_opt(&t.duration),
                        },
                    )
                } else {
                    ImportStep::Missing(t.path.clone())
                }
            },
        };
        let ghost before = steps_view(out@);
        assert(step@ == want[i as int]);
        out.push(step);
        assert(steps_view(out@) =~= want.take(i + 1));
        i = i + 1;
    }
    assert(want.take(tracks.len() as int) =~= want);
    out
}

/// The path an import step is about.
pub open spec fn step_path(s: ImportStepS) -> Seq<char> {
    match s {
        ImportStepS::Cached(r) => r.path,
        ImportStepS::Enrich(t) => t.path,
        ImportStepS::Missing(p) => p,
    }
}

/// An import accounts for every entry: one step per entry, in order, about
/// that entry's path and keeping its position; an entry is reported
/// missing exactly when the index does not know it and it is not an
/// existing file under a scan root.
pub proof fn lemma_import_accounts_for_every_entry(
    ts: Seq<RawTrackS>,
    cache: Seq<TrackS>,
    roots: Seq<Seq<char>>,
    exists: Seq<bool>,
)
    requires
        exists.len() == ts.len(),
    ensures
        import_steps(ts, cache, roots, exists).len() == ts.len(),
        forall|i: int|
            0 <= i < ts.len() ==> step_path(#[trigger] import_steps(ts, cache, roots, exists)[i])
                == ts[i].path,
        forall|i: int|
            0 <= i < ts.len() ==> ((#[trigger] import_steps(ts, cache, roots, exists)[i]
                is Missing) <==> (cache_index(cache, ts[i].path) is None && !(under_some_root(
                ts[i].path,
                roots,
            ) && exists[i]))),
        forall|i: int|
            0 <= i < ts.len() ==> match #[trigger] import_steps(ts, cache, roots, exists)[i] {
                ImportStepS::Cached(r) => r.position == ts[i].position,
                ImportStepS::Enrich(t) => t.position == ts[i].position,
                ImportStepS::Missing(_) => true,
            },
{
}

/// The paths an import reports missing, in entry order.
pub open spec fn missing_steps(ss: Seq<ImportStepS>) -> Seq<Seq<char>>
    decreases ss.len(),
{
    if ss.len() == 0 {
        seq![]
    } else {
        let rest = missing_steps(ss.drop_last());
        match ss.last() {
            ImportStepS::Missing(p) => rest.push(p),
            _ => rest,
        }
    }
}

/// The missing paths of an import plan.
pub fn missing_of_steps(steps: &Vec<ImportStep>) -> (r: Vec<String>)
    ensures
        strings_view(r@) == missing_steps(steps_view(steps@)),
{
    let ghost sv = steps_view(steps@);
    let mut out: Vec<String> = Vec::new();
    let mut i: usize = 0;
    assert(sv.take(0) =~= seq![]);
    assert(strings_view(out@) =~= seq![]);
    while i < steps.len()
        invariant
            i <= steps.len(),
            sv == steps_view(steps@),
            strings_view(out@) == missing_steps(sv.take(i as int)),
        decreases steps.len() - i,
    {
        assert(sv.take(i + 1).drop_last() =~= sv.take(i as int));
        assert(sv.take(i + 1).last() == steps@[i as int]@);
        match &steps[i] {
            ImportStep::Missing(p) => {
                let ghost before = strings_view(out@);
                out.push(p.clone());
                assert(strings_view(out@) =~= before.push(p@));
            },
            _ => {},
        }
        i = i + 1;
    }
    assert(sv.take(steps.len() as int) =~= sv);
    out
}

} // verus!
