use play::subtitle::{
    bitmap_codec, decode_embedded_subtitles, extract_subtitle_text, find_srt_files, parse_srt,
    parse_srt_content, strip_ass_tags, SrtEntry, SubtitleEvent, SubtitleRect, SubtitleTrack,
};

fn names(list: &[&str]) -> Vec<String> {
    list.iter().map(|s| s.to_string()).collect()
}

#[test]
fn parse_srt_basic() {
    let srt = "\
1
00:00:01,000 --> 00:00:03,000
Hello world

2
00:00:05,000 --> 00:00:07,500
Second subtitle
";
    let entries = parse_srt(srt.as_bytes());
    assert_eq!(entries.len(), 2);
    assert_eq!(entries[0].start_us, 1_000_000);
    assert_eq!(entries[0].end_us, 3_000_000);
    assert_eq!(entries[0].text, "Hello world");
    assert_eq!(entries[1].start_us, 5_000_000);
    assert_eq!(entries[1].end_us, 7_500_000);
    assert_eq!(entries[1].text, "Second subtitle");
}

#[test]
fn parse_srt_multiline_text() {
    let srt = "\
1
00:00:01,000 --> 00:00:03,000
Line one
Line two
";
    let entries = parse_srt(srt.as_bytes());
    assert_eq!(entries.len(), 1);
    assert_eq!(entries[0].text, "Line one\nLine two");
}

#[test]
fn parse_srt_empty_file() {
    let entries = parse_srt("".as_bytes());
    assert!(entries.is_empty());
}

#[test]
fn parse_srt_no_trailing_blank_line() {
    let srt = "\
1
00:00:01,000 --> 00:00:02,000
No newline at end";
    let entries = parse_srt(srt.as_bytes());
    assert_eq!(entries.len(), 1);
    assert_eq!(entries[0].text, "No newline at end");
}

#[test]
fn parse_srt_bom_prefix() {
    let srt = "\u{FEFF}1
00:00:00,500 --> 00:00:01,500
BOM test";
    let entries = parse_srt(srt.as_bytes());
    // BOM is part of the sequence number line, which is skipped by the
    // u32-parse check. The entry should still parse.
    assert_eq!(entries.len(), 1);
    assert_eq!(entries[0].text, "BOM test");
}

#[test]
fn text_at_before_first() {
    let track = SubtitleTrack {
        label: "test".into(),
        entries: vec![SrtEntry {
            start_us: 1_000_000,
            end_us: 2_000_000,
            text: "hi".into(),
        }],
    };
    assert_eq!(track.text_at(500_000), None);
}

#[test]
fn text_at_during_entry() {
    let track = SubtitleTrack {
        label: "test".into(),
        entries: vec![SrtEntry {
            start_us: 1_000_000,
            end_us: 2_000_000,
            text: "hi".into(),
        }],
    };
    assert_eq!(track.text_at(1_500_000), Some("hi"));
}

#[test]
fn text_at_between_and_after() {
    let track = SubtitleTrack {
        label: "test".into(),
        entries: vec![
            SrtEntry {
                start_us: 1_000_000,
                end_us: 2_000_000,
                text: "first".into(),
            },
            SrtEntry {
                start_us: 3_000_000,
                end_us: 4_000_000,
                text: "second".into(),
            },
        ],
    };
    assert_eq!(track.text_at(2_500_000), None); // between
    assert_eq!(track.text_at(5_000_000), None); // after
}

#[test]
fn text_at_exact_boundary() {
    let track = SubtitleTrack {
        label: "test".into(),
        entries: vec![SrtEntry {
            start_us: 1_000_000,
            end_us: 2_000_000,
            text: "hi".into(),
        }],
    };
    assert_eq!(track.text_at(1_000_000), Some("hi")); // start
    assert_eq!(track.text_at(2_000_000), Some("hi")); // end (inclusive)
}

#[test]
fn text_at_empty_track() {
    let track = SubtitleTrack {
        label: "empty".into(),
        entries: vec![],
    };
    assert_eq!(track.text_at(0), None);
    assert_eq!(track.text_at(1_000_000), None);
}

#[test]
fn text_at_adjacent_entries() {
    let track = SubtitleTrack {
        label: "test".into(),
        entries: vec![
            SrtEntry {
                start_us: 1_000_000,
                end_us: 2_000_000,
                text: "first".into(),
            },
            SrtEntry {
                start_us: 2_000_001,
                end_us: 3_000_000,
                text: "second".into(),
            },
        ],
    };
    assert_eq!(track.text_at(2_000_000), Some("first"));
    assert_eq!(track.text_at(2_000_001), Some("second"));
}

#[test]
fn parse_srt_extra_blank_lines() {
    let srt = "\n\n\
1
00:00:01,000 --> 00:00:02,000
Hello


2
00:00:03,000 --> 00:00:04,000
World

";
    let entries = parse_srt(srt.as_bytes());
    assert_eq!(entries.len(), 2);
    assert_eq!(entries[0].text, "Hello");
    assert_eq!(entries[1].text, "World");
}

#[test]
fn parse_srt_time_precision() {
    let srt = "\
1
01:02:03,456 --> 01:02:04,789
precise";
    let entries = parse_srt(srt.as_bytes());
    assert_eq!(
        entries[0].start_us,
        (3600 + 2 * 60 + 3) * 1_000_000 + 456_000
    );
    assert_eq!(entries[0].end_us, (3600 + 2 * 60 + 4) * 1_000_000 + 789_000);
}

#[test]
fn parse_srt_malformed_timing_skipped() {
    let srt = "\
1
not a timing line
This should be skipped

2
00:00:01,000 --> 00:00:02,000
Valid entry
";
    let entries = parse_srt(srt.as_bytes());
    assert_eq!(entries.len(), 1);
    assert_eq!(entries[0].text, "Valid entry");
}

#[test]
fn parse_srt_latin1_fallback() {
    // ISO-8859-1 encoded: "Héllo wörld" with bytes that are invalid UTF-8
    let mut bytes = Vec::new();
    bytes.extend_from_slice(b"1\r\n");
    bytes.extend_from_slice(b"00:00:01,000 --> 00:00:03,000\r\n");
    // "Héllo wörld" in Latin-1: é=0xE9, ö=0xF6
    bytes.extend_from_slice(&[
        b'H', 0xE9, b'l', b'l', b'o', b' ', b'w', 0xF6, b'r', b'l', b'd',
    ]);
    bytes.extend_from_slice(b"\r\n");

    let entries = parse_srt(&bytes);
    assert_eq!(entries.len(), 1);
    assert_eq!(entries[0].text, "H\u{e9}llo w\u{f6}rld");
}

#[test]
fn parse_srt_latin1_with_crlf() {
    // Real-world pattern: Latin-1 SRT with CRLF line endings
    let mut bytes = Vec::new();
    bytes.extend_from_slice(b"1\r\n");
    bytes.extend_from_slice(b"00:00:01,000 --> 00:00:02,000\r\n");
    // "ça va" in Latin-1: ç=0xE7
    bytes.extend_from_slice(&[0xE7, b'a', b' ', b'v', b'a']);
    bytes.extend_from_slice(b"\r\n\r\n");
    bytes.extend_from_slice(b"2\r\n");
    bytes.extend_from_slice(b"00:00:03,000 --> 00:00:04,000\r\n");
    // "über" in Latin-1: ü=0xFC
    bytes.extend_from_slice(&[0xFC, b'b', b'e', b'r']);
    bytes.extend_from_slice(b"\r\n");

    let entries = parse_srt(&bytes);
    assert_eq!(entries.len(), 2);
    assert_eq!(entries[0].text, "\u{e7}a va");
    assert_eq!(entries[1].text, "\u{fc}ber");
}

#[test]
fn parse_srt_utf8_still_works() {
    // UTF-8 with multi-byte characters should still parse correctly
    let srt = "\
1
00:00:01,000 --> 00:00:02,000
日本語テスト
";
    let entries = parse_srt(srt.as_bytes());
    assert_eq!(entries.len(), 1);
    assert_eq!(entries[0].text, "日本語テスト");
}

// --- strip_ass_tags ---

#[test]
fn strip_ass_plain_text() {
    assert_eq!(strip_ass_tags("Hello world"), "Hello world");
}

#[test]
fn strip_ass_override_tags() {
    assert_eq!(strip_ass_tags(r"{\b1}bold{\b0} text"), "bold text");
    assert_eq!(strip_ass_tags(r"{\i1}italic{\i0}"), "italic");
    assert_eq!(strip_ass_tags(r"{\an8}top text"), "top text");
    assert_eq!(strip_ass_tags(r"{\pos(320,50)}positioned"), "positioned");
}

#[test]
fn strip_ass_line_breaks() {
    assert_eq!(strip_ass_tags(r"line one\Nline two"), "line one\nline two");
    assert_eq!(strip_ass_tags(r"line one\nline two"), "line one\nline two");
}

#[test]
fn strip_ass_dialogue_prefix() {
    // Full ASS dialogue line: 9 fields separated by commas, text after 8th comma
    let ass = "0,0,Default,,0,0,0,,The actual subtitle text";
    assert_eq!(strip_ass_tags(ass), "The actual subtitle text");
}

#[test]
fn strip_ass_dialogue_with_tags() {
    let ass = r"0,0,Default,,0,0,0,,{\b1}Bold{\b0} and {\i1}italic{\i0}";
    assert_eq!(strip_ass_tags(ass), "Bold and italic");
}

#[test]
fn strip_ass_dialogue_with_line_break() {
    let ass = r"0,0,Default,,0,0,0,,First line\NSecond line";
    assert_eq!(strip_ass_tags(ass), "First line\nSecond line");
}

#[test]
fn strip_ass_empty_input() {
    assert_eq!(strip_ass_tags(""), "");
}

#[test]
fn strip_ass_only_tags() {
    assert_eq!(strip_ass_tags(r"{\an8}{\pos(320,50)}"), "");
}

#[test]
fn strip_ass_commas_in_text() {
    // Text field itself may contain commas
    let ass = "0,0,Default,,0,0,0,,Hello, world, how are you?";
    assert_eq!(strip_ass_tags(ass), "Hello, world, how are you?");
}

#[test]
fn find_srt_files_discovers_variants() {
    let listing = names(&["movie.mp4", "movie.srt", "movie.en.srt"]);
    let found = find_srt_files("movie", true, &listing);
    assert!(found.len() >= 2);
    assert!(found.iter().any(|p| p == "movie.srt"));
    assert!(found.iter().any(|p| p == "movie.en.srt"));
}

#[test]
fn find_srt_files_keeps_to_the_stem() {
    let listing = names(&["movie2.srt", "movie.de.srt", "other.srt", "movie.srt", "movie..srt", "m"]);
    assert_eq!(find_srt_files("movie", false, &listing), names(&["movie.de.srt", "movie..srt"]));
    assert_eq!(
        find_srt_files("movie", true, &listing),
        names(&["movie.srt", "movie.de.srt", "movie..srt"])
    );
}

#[test]
fn parse_srt_orders_entries() {
    let srt = "2\n00:00:05,000 --> 00:00:06,000\nlater\n\n1\n00:00:01,000 --> 00:00:02,000\nfirst\n\n\
3\n00:00:05,000 --> 00:00:07,000\nlater still\n";
    let entries = parse_srt_content(srt);
    let texts: Vec<&str> = entries.iter().map(|e| e.text.as_str()).collect();
    assert_eq!(texts, vec!["first", "later", "later still"]);
    let track = SubtitleTrack { label: "ordered".to_string(), entries };
    assert_eq!(track.text_at(1_500_000), Some("first"));
    assert_eq!(track.text_at(5_000_000), Some("later still"));
    assert_eq!(track.text_at(3_000_000), None);
}

#[test]
fn parse_srt_passes_over_cues_without_text() {
    let srt = "1\n00:00:01,000 --> 00:00:02,000\n\n2\n00:00:03,000 --> 00:00:04,000\nshown";
    let entries = parse_srt_content(srt);
    assert_eq!(entries.len(), 1);
    assert_eq!((entries[0].start_us, entries[0].end_us), (3_000_000, 4_000_000));
    assert!(parse_srt_content("00:00:01 --> 00:02\nno hours").is_empty());
    assert!(parse_srt_content("00:00:01,5 -> 00:00:02\nno arrow").is_empty());
}

#[test]
fn strip_ass_leaves_no_tag() {
    for s in ["{a", "a{b}c{", "{{}}", "\\N{\\n}\\"] {
        assert!(!strip_ass_tags(s).contains('{'), "{s}");
    }
    assert_eq!(strip_ass_tags("{{}}"), "}");
    assert_eq!(strip_ass_tags("a\\"), "a\\");
    assert_eq!(strip_ass_tags("  plain, text \u{3000}"), "plain, text");
}

fn event(pts_us: Option<i64>, start_ms: u32, end_ms: u32, rects: Vec<SubtitleRect>) -> SubtitleEvent {
    SubtitleEvent { pts_us, start_ms, end_ms, rects }
}

#[test]
fn embedded_subtitles_become_ordered_entries() {
    let text = |s: &str| vec![SubtitleRect::Text(s.to_string())];
    let events = vec![
        event(Some(5_000_000), 0, 1000, text("second")),
        event(None, 500, 1500, text(" first ")),
        event(Some(9_000_000), 0, 0, text("never seen")),
        event(Some(9_000_000), 0, 1000, vec![SubtitleRect::Other]),
    ];
    let entries = decode_embedded_subtitles("subrip", &events);
    assert_eq!(entries.len(), 2);
    assert_eq!((entries[0].start_us, entries[0].end_us), (500_000, 1_500_000));
    assert_eq!(entries[0].text, "first");
    assert_eq!((entries[1].start_us, entries[1].end_us), (5_000_000, 6_000_000));
    assert_eq!(entries[1].text, "second");
    assert!(decode_embedded_subtitles("dvd_subtitle", &events).is_empty());
}

#[test]
fn rectangles_join_as_lines() {
    let rects = vec![
        SubtitleRect::Text(" one ".to_string()),
        SubtitleRect::Text("  ".to_string()),
        SubtitleRect::Other,
        SubtitleRect::Ass("0,0,Default,,0,0,0,,{\\i1}two".to_string()),
    ];
    assert_eq!(extract_subtitle_text(&event(None, 0, 1, rects)), "one\ntwo");
}

#[test]
fn bitmap_codecs_are_known() {
    for name in ["dvd_subtitle", "hdmv_pgs_subtitle", "dvb_subtitle", "xsub"] {
        assert!(bitmap_codec(name));
    }
    assert!(!bitmap_codec("ass"));
}

#[test]
fn text_at_takes_the_last_that_started() {
    let entry = |start_us, end_us, text: &str| SrtEntry { start_us, end_us, text: text.to_string() };
    let track = SubtitleTrack {
        label: "x".to_string(),
        entries: vec![entry(30, 90, "a"), entry(10, 50, "b"), entry(40, 60, "c")],
    };
    assert_eq!(track.text_at(5), None);
    assert_eq!(track.text_at(35), Some("b"));
    assert_eq!(track.text_at(45), Some("c"));
    assert_eq!(track.text_at(70), None);
}

#[test]
fn parse_srt_times_are_exact_to_the_millisecond() {
    for ms in 0..1000 {
        let srt = format!("1\n00:00:01,{ms:03} --> 99:59:59,{ms:03}\nx\n");
        let entries = parse_srt_content(&srt);
        assert_eq!(entries[0].start_us, 1_000_000 + ms * 1_000, "{ms}");
        assert_eq!(entries[0].end_us, 359_999_000_000 + ms * 1_000, "{ms}");
    }
    let entries = parse_srt_content("1\n00:00:01,001 --> 00:00:02,005\nx\n");
    assert_eq!((entries[0].start_us, entries[0].end_us), (1_001_000, 2_005_000));
}
