use utoaudio::import::{
    check_scan_roots, enrich_track, enrich_tracks_from_cache, fill_title, import_base_dir,
    missing_of_steps, plan_import, raw_tracks_of, reresolve_path, reresolve_tracks,
    under_any_root, ImportStep, PlaylistTrackRow, RowDuration, TagInfo,
};
use utoaudio::library::Track;
use utoaudio::playlist::RawTrack;

fn raw(position: i64, path: &str, title: Option<&str>, artist: Option<&str>, duration: Option<&str>) -> RawTrack {
    RawTrack {
        position,
        path: path.to_string(),
        title: title.map(|s| s.to_string()),
        artist: artist.map(|s| s.to_string()),
        duration: duration.map(|s| s.to_string()),
    }
}

fn indexed(path: &str, title: &str, seconds: f64) -> Track {
    Track {
        id: 1,
        path: path.to_string(),
        title: title.to_string(),
        artist: "Indexed Artist".to_string(),
        album: "Indexed Album".to_string(),
        duration_bits: seconds.to_bits(),
        mtime: 0,
        indexed_at: 0,
        album_art_path: Some("/art/x.jpg".to_string()),
        sample_rate: Some(96000),
        bits_per_sample: Some(24),
    }
}

#[test]
fn cache_rows_prefer_the_entry_and_skip_unknown() {
    let tracks = vec![
        raw(0, "/m/a.flac", Some("Own"), None, Some("12.5")),
        raw(1, "/m/unknown.flac", None, None, None),
        raw(2, "/m/b.flac", None, Some("Own Artist"), None),
    ];
    let cache = vec![indexed("/m/b.flac", "B title", 200.0), indexed("/m/a.flac", "A title", 100.0)];
    let rows = enrich_tracks_from_cache(&tracks, &cache).unwrap();
    assert_eq!(rows.len(), 2);
    assert_eq!(rows[0].path, "/m/a.flac");
    assert_eq!(rows[0].position, 0);
    assert_eq!(rows[0].title, "Own");
    assert_eq!(rows[0].artist, "Indexed Artist");
    assert!(matches!(&rows[0].duration, RowDuration::Text(t) if t == "12.5"));
    assert_eq!(rows[1].path, "/m/b.flac");
    assert_eq!(rows[1].position, 2);
    assert_eq!(rows[1].title, "B title");
    assert_eq!(rows[1].artist, "Own Artist");
    assert_eq!(rows[1].album, "Indexed Album");
    assert!(matches!(rows[1].duration, RowDuration::Bits(b) if f64::from_bits(b) == 200.0));
    assert_eq!(rows[1].sample_rate, Some(96000));
    assert_eq!(rows[1].file_size, None);
}

#[test]
fn later_index_entries_win() {
    let tracks = vec![raw(0, "/m/a.flac", None, None, None)];
    let cache = vec![indexed("/m/a.flac", "old", 1.0), indexed("/m/a.flac", "new", 2.0)];
    let rows = enrich_tracks_from_cache(&tracks, &cache).unwrap();
    assert_eq!(rows[0].title, "new");
}

#[test]
fn added_paths_take_their_index_as_position() {
    let paths = vec!["/x.flac".to_string(), "/y.flac".to_string()];
    let ts = raw_tracks_of(&paths);
    assert_eq!(ts.len(), 2);
    assert_eq!((ts[1].position, ts[1].path.as_str()), (1, "/y.flac"));
    assert!(ts[1].title.is_none() && ts[1].artist.is_none() && ts[1].duration.is_none());
}

#[test]
fn tag_rows_fall_back_in_order() {
    let tags = TagInfo {
        title: Some("Tag Title".to_string()),
        artist: Some("Tag Artist".to_string()),
        album: None,
        sample_rate: Some(44100),
        bits_per_sample: None,
    };
    let row = enrich_track(&raw(3, "/m/c.flac", None, Some("Listed"), None), &tags, None, Some(1234));
    assert_eq!(row.title, "Tag Title");
    assert_eq!(row.artist, "Listed");
    assert_eq!(row.album, "");
    assert!(matches!(row.duration, RowDuration::Bits(0)));
    assert_eq!(row.file_size, Some(1234));
    assert_eq!(row.position, 3);
}

#[test]
fn untitled_rows_take_the_file_stem() {
    let tags = TagInfo { title: None, artist: None, album: None, sample_rate: None, bits_per_sample: None };
    let row = enrich_track(&raw(0, "/m/deep cut.flac", None, None, None), &tags, None, None);
    assert_eq!(row.title, "");
    let row = fill_title(row);
    assert_eq!(row.title, "deep cut");
    let kept = fill_title(PlaylistTrackRow { title: "Named".to_string(), ..row });
    assert_eq!(kept.title, "Named");
}

#[test]
fn import_needs_a_scan_root() {
    assert_eq!(
        check_scan_roots(&Vec::new()),
        Err("No scan roots configured. Add scan directories in Settings → Library.".to_string())
    );
    assert_eq!(check_scan_roots(&vec!["/m".to_string()]), Ok(()));
}

#[test]
fn playlist_directory_and_reresolution() {
    assert_eq!(import_base_dir("/lists/road.m3u8").as_deref(), Some("/lists"));
    assert_eq!(import_base_dir("road.m3u8").as_deref(), Some(""));
    assert_eq!(reresolve_path(&"/abs.flac".to_string(), Some("/lists")), "/abs.flac");
    assert_eq!(reresolve_path(&"rel/x.flac".to_string(), Some("lists")), "lists/rel/x.flac");
    assert_eq!(reresolve_path(&"rel/x.flac".to_string(), None), "rel/x.flac");
    let ts = reresolve_tracks(vec![raw(0, "a.flac", Some("T"), None, None)], Some("/l"));
    assert_eq!(ts[0].path, "/l/a.flac");
    assert_eq!(ts[0].title.as_deref(), Some("T"));
}

#[test]
fn scan_roots_match_whole_components() {
    let roots = vec!["/music".to_string(), "/other".to_string()];
    assert!(under_any_root(&"/music/a.flac".to_string(), &roots));
    assert!(under_any_root(&"/other/x/y.flac".to_string(), &roots));
    assert!(!under_any_root(&"/musicx/a.flac".to_string(), &roots));
    assert!(!under_any_root(&"/tmp/a.flac".to_string(), &Vec::new()));
}

#[test]
fn import_plan_sorts_entries() {
    let tracks = vec![
        raw(0, "/music/known.flac", None, None, None),
        raw(1, "/music/new.flac", Some("T"), Some("A"), Some("5")),
        raw(2, "/music/gone.flac", None, None, None),
        raw(3, "/elsewhere/x.flac", None, None, None),
    ];
    let cache = vec![indexed("/music/known.flac", "K", 1.0)];
    let roots = vec!["/music".to_string()];
    let steps = plan_import(&tracks, &cache, &roots, &vec![true, true, false, true]);
    assert_eq!(steps.len(), 4);
    assert!(matches!(&steps[0], ImportStep::Cached(r) if r.title == "K"));
    match &steps[1] {
        ImportStep::Enrich(t) => {
            assert_eq!(t.path, "/music/new.flac");
            assert_eq!(t.title.as_deref(), Some("T"));
            assert_eq!(t.artist, None);
            assert_eq!(t.duration.as_deref(), Some("5"));
        }
        _ => panic!("expected a file read"),
    }
    assert!(matches!(&steps[2], ImportStep::Missing(p) if p == "/music/gone.flac"));
    assert!(matches!(&steps[3], ImportStep::Missing(p) if p == "/elsewhere/x.flac"));
    assert_eq!(
        missing_of_steps(&steps),
        vec!["/music/gone.flac".to_string(), "/elsewhere/x.flac".to_string()]
    );
}
