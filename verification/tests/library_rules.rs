use utoaudio::library::{
    add_scan_root_to, strictly_sorted_in,
    art_cache_name, art_file_name_of, audio_ext_list, epoch_seconds, find_cached, index_rows_of,
    now_secs, scan_root_of, schema_step, schema_version, search_pattern, sql_placeholders,
    ScanEntry, SchemaStep, Track,
};

#[test]
fn scan_looks_for_audio_extensions() {
    assert_eq!(
        audio_ext_list(),
        vec![
            ".flac", ".wav", ".mp3", ".opus", ".ogg", ".aac", ".m4a", ".wv", ".dsf", ".dff",
            ".aiff", ".ape", ".wma"
        ]
    );
}

#[test]
fn scan_roots_are_trimmed_and_must_not_be_empty() {
    assert_eq!(scan_root_of("  /music  "), Ok("/music".to_string()));
    assert_eq!(scan_root_of("   "), Err("scan root path is empty".to_string()));
    assert_eq!(scan_root_of(""), Err("scan root path is empty".to_string()));
}

#[test]
fn placeholders_for_lookups() {
    assert_eq!(sql_placeholders(0), "");
    assert_eq!(sql_placeholders(1), "?");
    assert_eq!(sql_placeholders(3), "?,?,?");
}

#[test]
fn search_pattern_lowercases_and_escapes_wildcards() {
    assert_eq!(search_pattern("AbC"), "%abc%");
    assert_eq!(search_pattern(""), "%%");
    assert_eq!(search_pattern("ÉCOLE"), "%école%");
    assert_eq!(search_pattern("100%_Hits"), "%100\\%\\_hits%");
    assert_eq!(search_pattern("a\\b"), "%a\\\\b%");
}

#[test]
fn schema_migrates_one_step_per_open() {
    assert_eq!(schema_version(), "4");
    assert_eq!(schema_step(None), SchemaStep::Stamp);
    assert_eq!(schema_step(Some("1")), SchemaStep::AddArtColumn);
    assert_eq!(schema_step(Some("2")), SchemaStep::AddQueueTable);
    assert_eq!(schema_step(Some("3")), SchemaStep::AddAudioColumns);
    assert_eq!(schema_step(Some("4")), SchemaStep::Keep);
    assert_eq!(schema_step(Some("10")), SchemaStep::Keep);
}

#[test]
fn art_cache_names() {
    assert_eq!(art_file_name_of(0xff), "00000000000000ff.jpg");
    assert_eq!(art_file_name_of(u64::MAX), "ffffffffffffffff.jpg");
    let a = art_cache_name("/music/a.flac");
    assert_eq!(a.len(), 20);
    assert!(a.ends_with(".jpg"));
    assert_eq!(a, art_cache_name("/music/a.flac"));
    assert_ne!(a, art_cache_name("/music/b.flac"));
}

#[test]
fn clock_readings_become_timestamps() {
    assert_eq!(epoch_seconds(Some(1_700_000_000)), 1_700_000_000);
    assert_eq!(epoch_seconds(None), 0);
    assert!(now_secs() > 1_600_000_000);
}

fn entry(path: &str, dir: bool, title: Option<&str>, modified: Option<i64>) -> ScanEntry {
    ScanEntry {
        path: path.to_string(),
        name: path.rsplit('/').next().unwrap().to_string(),
        is_directory: dir,
        title: title.map(|s| s.to_string()),
        artist: None,
        album: Some("Album".to_string()),
        modified,
        sample_rate: Some(48000),
        bits_per_sample: None,
    }
}

#[test]
fn rescan_rows_skip_directories_and_fill_defaults() {
    let es = vec![
        entry("/m/sub", true, None, None),
        entry("/m/a.flac", false, Some("A"), Some(5)),
        entry("/m/b.flac", false, None, None),
    ];
    let rows = index_rows_of(&es, 99);
    assert_eq!(rows.len(), 2);
    assert_eq!(rows[0].path, "/m/a.flac");
    assert_eq!(rows[0].title, "A");
    assert_eq!(rows[0].mtime, 5);
    assert_eq!(rows[0].indexed_at, 99);
    assert_eq!(rows[1].title, "b.flac");
    assert_eq!(rows[1].artist, "");
    assert_eq!(rows[1].album, "Album");
    assert_eq!(rows[1].mtime, 99);
    assert_eq!(rows[1].sample_rate, Some(48000));
}

#[test]
fn lookup_finds_the_last_entry_for_a_path() {
    let t = |p: &str, id: i64| Track {
        id,
        path: p.to_string(),
        title: String::new(),
        artist: String::new(),
        album: String::new(),
        duration_bits: 0,
        mtime: 0,
        indexed_at: 0,
        album_art_path: None,
        sample_rate: None,
        bits_per_sample: None,
    };
    let cache = vec![t("/a", 1), t("/b", 2), t("/a", 3)];
    assert_eq!(find_cached(&cache, &"/a".to_string()), Some(2));
    assert_eq!(find_cached(&cache, &"/b".to_string()), Some(1));
    assert_eq!(find_cached(&cache, &"/c".to_string()), None);
}

fn strings(v: &[&str]) -> Vec<String> {
    v.iter().map(|s| s.to_string()).collect()
}

#[test]
fn adding_scan_roots_keeps_one_sorted_copy() {
    let roots = strings(&["/a", "/m"]);
    let once = add_scan_root_to(&roots, "  /f ").unwrap();
    assert_eq!(once, strings(&["/a", "/f", "/m"]));
    assert_eq!(add_scan_root_to(&once, "/f").unwrap(), once);
    assert_eq!(add_scan_root_to(&roots, "/z").unwrap(), strings(&["/a", "/m", "/z"]));
    assert_eq!(add_scan_root_to(&Vec::new(), "/x").unwrap(), strings(&["/x"]));
    assert_eq!(add_scan_root_to(&roots, "   "), Err("scan root path is empty".to_string()));
    assert!(strictly_sorted_in(&once));
}

#[test]
fn root_order_is_byte_order() {
    assert!(strictly_sorted_in(&strings(&["/B", "/a", "/a/b", "/z", "/é"])));
    assert!(!strictly_sorted_in(&strings(&["/a", "/a"])));
    assert!(!strictly_sorted_in(&strings(&["/b", "/a"])));
    assert!(strictly_sorted_in(&Vec::new()));
}
