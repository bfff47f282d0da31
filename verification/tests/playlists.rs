use utoaudio::playlist::{
    extinf_commas_ok, missing_paths, move_target, parse_m3u8_content, plan_inserts, resolve_path,
    serialize_tracks_to_m3u8, split_artist_title, try_parse_m3u8_content, M3uEntry,
};

fn entry(path: &str, title: &str, duration: &str) -> M3uEntry {
    M3uEntry { path: path.to_string(), title: title.to_string(), duration: duration.to_string() }
}

#[test]
fn parses_entries_with_extinf() {
    let doc = "#EXTM3U\n#EXTINF:215,Daft Punk - One More Time\n/music/one.flac\n#EXTINF:-1,\nsong two.mp3\n";
    let ts = parse_m3u8_content(doc, Some("/lists/"));
    assert_eq!(ts.len(), 2);
    assert_eq!(ts[0].position, 0);
    assert_eq!(ts[0].path, "/music/one.flac");
    assert_eq!(ts[0].artist.as_deref(), Some("Daft Punk"));
    assert_eq!(ts[0].title.as_deref(), Some("One More Time"));
    assert_eq!(ts[0].duration.as_deref(), Some("215"));
    assert_eq!(ts[1].position, 1);
    assert_eq!(ts[1].path, "/lists/song two.mp3");
    assert_eq!(ts[1].artist, None);
    assert_eq!(ts[1].title.as_deref(), Some("song two"));
    assert_eq!(ts[1].duration.as_deref(), Some("-1"));
}

#[test]
fn blank_line_drops_pending_extinf() {
    let doc = "#EXTINF:10,Lost Title\n\n/a/b.flac\n";
    let ts = parse_m3u8_content(doc, None);
    assert_eq!(ts.len(), 1);
    assert_eq!(ts[0].title.as_deref(), Some("b"));
    assert_eq!(ts[0].duration, None);
}

#[test]
fn non_numeric_duration_is_ignored() {
    let ts = parse_m3u8_content("#EXTINF:abc,T\n/x.flac", None);
    assert_eq!(ts[0].duration, None);
    assert_eq!(ts[0].title.as_deref(), Some("T"));
}

#[test]
fn comments_and_crlf_are_handled() {
    let ts = parse_m3u8_content("#EXTM3U\r\n# a comment\r\n  C:\\music\\x.flac  \r\n", Some("/base"));
    assert_eq!(ts.len(), 1);
    assert_eq!(ts[0].path, "C:\\music\\x.flac");
}

#[test]
fn extinf_without_comma_is_refused() {
    assert!(!extinf_commas_ok("#EXTINF:100\n/a.flac"));
    assert!(try_parse_m3u8_content("#EXTINF:100\n/a.flac", None).is_none());
    assert!(extinf_commas_ok("#EXTINF:100,x\n/a.flac"));
    assert_eq!(try_parse_m3u8_content("#EXTINF:100,x\n/a.flac", None).unwrap().len(), 1);
}

#[test]
fn resolves_relative_paths() {
    assert_eq!(resolve_path("a.flac", Some("/music//")), "/music/a.flac");
    assert_eq!(resolve_path(" /abs.flac ", Some("/music")), "/abs.flac");
    assert_eq!(resolve_path("\\\\server\\x.flac", Some("/music")), "\\\\server\\x.flac");
    assert_eq!(resolve_path("D:x.flac", Some("/music")), "D:x.flac");
    assert_eq!(resolve_path("a.flac", Some("")), "a.flac");
    assert_eq!(resolve_path("a.flac", None), "a.flac");
}

#[test]
fn splits_artist_and_title() {
    assert_eq!(
        split_artist_title(Some("A - B - C")),
        (Some("A".to_string()), Some("B - C".to_string()))
    );
    assert_eq!(split_artist_title(Some("Solo")), (None, Some("Solo".to_string())));
    assert_eq!(split_artist_title(Some("")), (None, None));
    assert_eq!(split_artist_title(None), (None, None));
}

#[test]
fn serializes_with_header_and_fallback_titles() {
    let es = vec![entry("/m/a.flac", "Song A", "215"), entry("/m/b.mp3", "", "-1")];
    let doc = serialize_tracks_to_m3u8(&es, "Mix");
    assert_eq!(
        doc,
        "#EXTM3U\n#PLAYLIST:Mix\n#EXTINF:215,Song A\n/m/a.flac\n#EXTINF:-1,b.mp3\n/m/b.mp3\n"
    );
    assert_eq!(serialize_tracks_to_m3u8(&Vec::new(), ""), "#EXTM3U\n");
}

#[test]
fn exported_playlist_reads_back() {
    let es = vec![
        entry("/m/one.flac", "One", "100"),
        entry("/m/two.flac", "Two - Part", "-1"),
        entry("/m/three.flac", "", "7"),
    ];
    let doc = serialize_tracks_to_m3u8(&es, "Road");
    let back = parse_m3u8_content(&doc, Some("/elsewhere"));
    assert_eq!(back.len(), 3);
    for (k, t) in back.iter().enumerate() {
        assert_eq!(t.path, es[k].path);
        assert_eq!(t.position, k as i64);
    }
}

#[test]
fn missing_files_are_listed() {
    let ts = parse_m3u8_content("/a.flac\n/b.flac\n/c.flac\n", None);
    let missing = missing_paths(&ts, &vec![true, false, false]);
    assert_eq!(missing, vec!["/b.flac".to_string(), "/c.flac".to_string()]);
}

#[test]
fn inserts_skip_duplicates_and_continue_positions() {
    let paths: Vec<String> = ["/a", "/b", "/a", "/c", "/b"].iter().map(|s| s.to_string()).collect();
    assert_eq!(plan_inserts(Some(4), &paths), vec![(0, 5), (1, 6), (3, 7)]);
    assert_eq!(plan_inserts(None, &paths), vec![(0, 0), (1, 1), (3, 2)]);
    assert_eq!(plan_inserts(None, &Vec::new()), vec![]);
}

#[test]
fn moves_up_and_down() {
    assert_eq!(move_target(3, "up"), Some(2));
    assert_eq!(move_target(3, "down"), Some(4));
    assert_eq!(move_target(0, "up"), None);
    assert_eq!(move_target(3, "sideways"), None);
    assert_eq!(move_target(move_target(5, "down").unwrap(), "up"), Some(5));
}

#[test]
fn exported_titles_and_durations_read_back() {
    let es = vec![entry("/m/one.flac", "One", "100"), entry("/m/two.flac", "", "-1"), entry("/m/x.flac", "X", "n/a")];
    let back = parse_m3u8_content(&serialize_tracks_to_m3u8(&es, "List"), None);
    assert_eq!(back.len(), 3);
    assert_eq!(back[0].title.as_deref(), Some("One"));
    assert_eq!(back[0].artist, None);
    assert_eq!(back[0].duration.as_deref(), Some("100"));
    assert_eq!(back[1].title.as_deref(), Some("two.flac"));
    assert_eq!(back[1].duration.as_deref(), Some("-1"));
    assert_eq!(back[2].title.as_deref(), Some("X"));
    assert_eq!(back[2].duration, None);
}
