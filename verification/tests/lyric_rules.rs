use utoaudio::lyrics::{
    convert_to_payload, derive_lrc_path, detect_format, escape_xml, format_time, lrc_to_ttml,
    parse_lrc_timestamp,
    try_convert_to_payload, try_lrc_to_ttml, LyricFormat,
};

fn begins(ttml: &str) -> Vec<String> {
    let mut out = Vec::new();
    let mut rest = ttml;
    while let Some(i) = rest.find("<p begin=\"") {
        let after = &rest[i + 10..];
        let end = after.find('"').unwrap();
        out.push(after[..end].to_string());
        rest = &after[end..];
    }
    out
}

#[test]
fn lines_come_out_in_start_order() {
    let content = "[00:30.00]third\n[00:10.00]first\n[00:20.00]second";
    let ttml = lrc_to_ttml(content);
    assert_eq!(begins(&ttml), vec!["00:10.000", "00:20.000", "00:30.000"]);
    let a = ttml.find("first").unwrap();
    let b = ttml.find("second").unwrap();
    let c = ttml.find("third").unwrap();
    assert!(a < b && b < c);
}

#[test]
fn each_line_ends_where_the_next_begins() {
    let ttml = lrc_to_ttml("[00:01.00]a\n[00:02.50]b");
    assert!(ttml.contains("begin=\"00:01.000\" end=\"00:02.500\""));
    assert!(ttml.contains("begin=\"00:02.500\" end=\"60039.999\""));
}

#[test]
fn escaping_removes_markup_characters() {
    let escaped = escape_xml("<a href=\"x\">Tom's & Jerry</a>");
    assert_eq!(
        escaped,
        "&lt;a href=&quot;x&quot;&gt;Tom&apos;s &amp; Jerry&lt;/a&gt;"
    );
    for c in ['<', '>', '"', '\''] {
        assert!(!escaped.contains(c));
    }
    assert_eq!(escape_xml("plain"), "plain");
}

#[test]
fn time_codes_past_an_hour() {
    assert_eq!(format_time(3_600_000), "01:00:00.000");
    assert_eq!(format_time(3_723_004), "01:02:03.004");
    assert_eq!(format_time(60_040_000), "60040.000");
}

#[test]
fn offset_shifts_every_line() {
    let ttml = lrc_to_ttml("[offset:500]\n[00:01.00]a\n[00:02.00]b");
    assert_eq!(begins(&ttml), vec!["00:01.500", "00:02.500"]);
}

#[test]
fn negative_offset_below_zero_clamps() {
    let ttml = lrc_to_ttml("[offset:-5000]\n[00:01.00]a");
    assert!(ttml.contains("begin=\"00:00.000\""));
}

#[test]
fn fraction_cut_inside_a_character_aborts() {
    assert_eq!(try_lrc_to_ttml("[00:12.1\u{20ac}]text"), None);
    assert!(try_convert_to_payload("[00:12.1\u{20ac}]text").is_none());
}

#[test]
fn oversized_timestamp_aborts() {
    assert_eq!(try_lrc_to_ttml("[999999999999999999:00]text"), None);
}

#[test]
fn lrc_becomes_ttml_payload() {
    let p = convert_to_payload("[00:01.00]hello");
    assert_eq!(p.format, "ttml");
    assert!(p.content.contains(">hello</p>"));
}

#[test]
fn other_formats_pass_through() {
    let yrc = "[12340,1760](12340,460,0)Never";
    let p = convert_to_payload(yrc);
    assert_eq!(p.format, "yrc");
    assert_eq!(p.content, yrc);
    let qrc = "[12340,1760](12340,460,1)Never";
    assert_eq!(detect_format(qrc), LyricFormat::Qrc);
    let p = convert_to_payload(qrc);
    assert_eq!(p.format, "qrc");
    assert_eq!(p.content, qrc);
    let ttml = "<tt xmlns=\"http://www.w3.org/ns/ttml\"></tt>";
    let p = convert_to_payload(ttml);
    assert_eq!(p.format, "ttml");
    assert_eq!(p.content, ttml);
}

#[test]
fn tt_anywhere_means_ttml() {
    assert_eq!(detect_format("[00:01.00]x\n<tt>"), LyricFormat::Ttml);
    assert_eq!(LyricFormat::Qrc.as_str(), "qrc");
    assert_eq!(LyricFormat::Lrc.as_str(), "lrc");
}

#[test]
fn translation_attaches_to_its_line() {
    let ttml = lrc_to_ttml("[00:05.00]Hello\n[00:05.00]Bonjour\n[00:07.00]Next");
    assert_eq!(begins(&ttml), vec!["00:05.000", "00:07.000"]);
    assert!(ttml.contains("Bonjour"));
    assert!(ttml.contains("x-translation"));
}

#[test]
fn metadata_is_escaped() {
    let ttml = lrc_to_ttml("[ti:A & B]\n[00:01.00]x");
    assert!(ttml.contains("A &amp; B"));
}

#[test]
fn sidecar_path_replaces_the_extension() {
    assert_eq!(derive_lrc_path("/music/album/song.flac"), "/music/album/song.lrc");
    assert_eq!(derive_lrc_path("/music/song"), "/music/song.lrc");
    assert_eq!(derive_lrc_path("relative/track.mp3"), "relative/track.lrc");
}

#[test]
fn time_codes_read_back_below_an_hour() {
    for ms in [0u64, 1, 999, 1_000, 12_340, 59_999, 60_000, 754_321, 3_599_999] {
        assert_eq!(parse_lrc_timestamp(&format_time(ms)), Some(ms), "{ms}");
    }
}
