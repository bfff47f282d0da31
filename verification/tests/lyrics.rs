use utoaudio::lyrics::{
    detect_format, format_time, is_timestamp, lrc_to_ttml, parse_lrc_timestamp, LyricFormat,
    SENTINEL_END_MS,
};

#[test]
fn test_standard_lrc() {
    let content = "[00:12.34]Never gonna give you up\n[00:15.67]Never gonna let you down";
    let ttml = lrc_to_ttml(content);
    assert!(ttml.contains("<tt"));
    assert!(ttml.contains("begin=\"00:12.340\""));
    assert!(ttml.contains(">Never gonna give you up</p>"));
    assert!(ttml.contains("itunes:key=\"L1\""));
    assert!(ttml.contains("ttm:agent=\"v1\""));
}

#[test]
fn test_inline_lrc() {
    let content = "[00:12.34]Never[00:12.80]gonna[00:13.15]give[00:13.50]you[00:13.80]up";
    let ttml = lrc_to_ttml(content);
    assert!(ttml.contains("<span begin=\"00:12.340\" end=\"00:12.800\">Never</span>"));
    assert!(ttml.contains("<span begin=\"00:12.800\" end=\"00:13.150\">gonna</span>"));
    assert!(ttml.contains("<span begin=\"00:13.150\" end=\"00:13.500\">give</span>"));
    // No whitespace in the source → no ` ` separator between spans.
    assert!(!ttml.contains("</span> <span"));
}

#[test]
fn test_inline_lrc_cjk() {
    // CJK word-synced LRC: no whitespace anywhere in the source — no space
    // text-node between spans.
    let content = "[00:12.34]這是[00:12.80]逐[00:13.10]字歌";
    let ttml = lrc_to_ttml(content);
    assert!(ttml.contains("<span begin=\"00:12.340\" end=\"00:12.800\">這是</span>"));
    assert!(ttml.contains("<span begin=\"00:12.800\" end=\"00:13.100\">逐</span>"));
    assert!(ttml.contains("<span begin=\"00:13.100\" end=\"60039.999\">字歌</span>"));
    assert!(ttml.contains("</span><span begin=\"00:12.800\""));
    assert!(!ttml.contains("</span> <span"));
}

#[test]
fn test_enhanced_lrc_with_spaces() {
    let content = "[00:12.34] <00:12.34>Never <00:12.80>gonna <00:13.10>give <00:13.40>you <00:13.70>up";
    let ttml = lrc_to_ttml(content);
    assert!(ttml.contains("</span> <span"));
}

#[test]
fn test_enhanced_lrc() {
    let content = "[00:12.34] <00:12.34>Never <00:12.80>gonna <00:13.10>give <00:13.40>you <00:13.70>up";
    let ttml = lrc_to_ttml(content);
    assert!(ttml.contains("<span begin=\"00:12.340\" end=\"00:12.800\">Never</span>"));
    assert!(ttml.contains("<span begin=\"00:12.800\" end=\"00:13.100\">gonna</span>"));
    assert!(ttml.contains("<span begin=\"00:13.100\" end=\"00:13.400\">give</span>"));
}

#[test]
fn test_bilingual_lrc() {
    let content = "[00:12.34]Never gonna give you up\n[00:12.34]永远不会放弃你";
    let ttml = lrc_to_ttml(content);
    assert!(ttml.contains("Never gonna give you up"));
    assert!(ttml.contains("x-translation"));
    assert!(ttml.contains("永远不会放弃你"));
}

#[test]
fn test_word_level_with_translation() {
    let content = "[00:12.34]Never[00:12.80]gonna\n[00:12.34]永远不会";
    let ttml = lrc_to_ttml(content);
    assert!(ttml.contains("<span begin=\"00:12.340\""));
    assert!(ttml.contains("x-translation"));
    assert!(ttml.contains("永远不会"));
}

#[test]
fn test_metadata_tags() {
    let content = "[ti:Test Song]\n[ar:Test Artist]\n[al:Test Album]\n[00:12.34]Lyric text";
    let ttml = lrc_to_ttml(content);
    assert!(ttml.contains("musicName"));
    assert!(ttml.contains("Test Song"));
    assert!(ttml.contains("artists"));
    assert!(ttml.contains("Test Artist"));
    assert!(ttml.contains("album"));
    assert!(ttml.contains("Test Album"));
}

#[test]
fn test_offset() {
    let content = "[offset:1000]\n[00:12.34]Lyric text";
    let ttml = lrc_to_ttml(content);
    assert!(ttml.contains("begin=\"00:13.340\""));
}

#[test]
fn test_negative_offset() {
    let content = "[offset:-2000]\n[00:12.34]Lyric text";
    let ttml = lrc_to_ttml(content);
    assert!(ttml.contains("begin=\"00:10.340\""));
}

#[test]
fn test_multi_timestamp() {
    let content = "[00:12.34][00:45.67]Same lyric at two points";
    let ttml = lrc_to_ttml(content);
    assert!(ttml.contains("begin=\"00:12.340\""));
    assert!(ttml.contains("begin=\"00:45.670\""));
    assert!(ttml.contains("Same lyric at two points"));
}

#[test]
fn test_detect_ttml() {
    assert_eq!(detect_format("<?xml version=\"1.0\"?><tt></tt>"), LyricFormat::Ttml);
    assert_eq!(detect_format("<tt xmlns=\"...\"></tt>"), LyricFormat::Ttml);
}

#[test]
fn test_detect_lrc() {
    assert_eq!(detect_format("[00:12.34]text"), LyricFormat::Lrc);
    assert_eq!(detect_format("[ti:Title]\n[00:12.34]text"), LyricFormat::Lrc);
}

#[test]
fn test_detect_yrc() {
    assert_eq!(detect_format("[12340,1760](12340,460,0)Never"), LyricFormat::Yrc);
}

#[test]
fn test_xml_escaping() {
    let content = "[00:12.34]This & that < or > \"text\"";
    let ttml = lrc_to_ttml(content);
    assert!(ttml.contains("This \x26amp; that \x26lt; or \x26gt; \x26quot;text\x26quot;"));
}

#[test]
fn test_parse_lrc_timestamp() {
    assert_eq!(parse_lrc_timestamp("00:12.34"), Some(12340));
    assert_eq!(parse_lrc_timestamp("01:30.500"), Some(90500));
    assert_eq!(parse_lrc_timestamp("0:12"), Some(12000));
    assert_eq!(parse_lrc_timestamp("99:59.99"), Some(5999990));
}

#[test]
fn test_is_timestamp() {
    assert!(is_timestamp("00:12.34"));
    assert!(is_timestamp("1:30.5"));
    assert!(!is_timestamp("ar:Artist"));
    assert!(!is_timestamp("offset:500"));
    assert!(!is_timestamp("ti:Title"));
}

#[test]
fn test_format_time() {
    assert_eq!(format_time(12340), "00:12.340");
    assert_eq!(format_time(90500), "01:30.500");
    assert_eq!(format_time(0), "00:00.000");
    assert_eq!(format_time(SENTINEL_END_MS), "60039.999");
}
