use playlist_modify_rs::playlist::{Attributes, Entry, MasterPlaylist};
use playlist_modify_rs::read::{classify, parse_lines_of, parse_playlist, split_lines, tag, LineKind};
use playlist_modify_rs::sort::{by_fields, compare, precedes, Direction, SortField, SortableByField};
use playlist_modify_rs::text;
use playlist_modify_rs::variant::VariantSortFieldName;
use std::cmp::Ordering;

const SAMPLE: &str = "#EXTM3U\n\
#EXT-X-INDEPENDENT-SEGMENTS\n\
\n\
#EXT-X-MEDIA:TYPE=AUDIO,GROUP-ID=\"aud\",NAME=\"English, main\",URI=\"audio/en.m3u8\"\n\
#EXT-X-STREAM-INF:BANDWIDTH=2000000,AVERAGE-BANDWIDTH=1800000,RESOLUTION=1280x720,CODECS=\"avc1.64001f,mp4a.40.2\"\n\
v720.m3u8\n\
#EXT-X-STREAM-INF:BANDWIDTH=5000000,AVERAGE-BANDWIDTH=4500000,RESOLUTION=1920x1080\n\
v1080.m3u8\n\
#EXT-X-STREAM-INF:RESOLUTION=640x360,BANDWIDTH=800000\n\
v360.m3u8\n\
#EXT-X-I-FRAME-STREAM-INF:BANDWIDTH=150000,URI=\"iframe.m3u8\"\n";

fn attributes(pairs: &[(&str, &str)]) -> Attributes {
    let mut a = Attributes::new();
    for (k, v) in pairs {
        a.insert(k.to_string(), v.to_string());
    }
    a
}

fn stream(pairs: &[(&str, &str)], uri: &str) -> Entry {
    Entry::ExtXStreamInf {
        attributes: attributes(pairs),
        uri: uri.to_string(),
    }
}

fn uris(p: &MasterPlaylist) -> Vec<String> {
    let mut out = Vec::new();
    for e in &p.entries {
        if let Entry::ExtXStreamInf { uri, .. } = e {
            out.push(uri.clone());
        }
    }
    out
}

fn by(field: VariantSortFieldName, direction: Direction) -> SortField<VariantSortFieldName> {
    SortField { field, direction }
}

#[test]
fn basic_parse_alt() {
    let playlist = parse_playlist(SAMPLE);
    println!("{}", playlist.render());
    assert!(playlist.valid_header);
    assert!(playlist.independent_segments);
    assert_eq!(playlist.entries.len(), 5);
}

#[test]
fn parse_reads_each_kind_of_line() {
    let playlist = parse_playlist(SAMPLE);
    assert_eq!(
        playlist.entries[0],
        Entry::Alternative {
            attributes: attributes(&[
                ("TYPE", "AUDIO"),
                ("GROUP-ID", "\"aud\""),
                ("NAME", "\"English, main\""),
                ("URI", "\"audio/en.m3u8\""),
            ])
        }
    );
    assert_eq!(
        playlist.entries[2],
        stream(
            &[
                ("BANDWIDTH", "5000000"),
                ("AVERAGE-BANDWIDTH", "4500000"),
                ("RESOLUTION", "1920x1080"),
            ],
            "v1080.m3u8"
        )
    );
    assert_eq!(
        playlist.entries[4],
        Entry::ExtXIFrame {
            attributes: attributes(&[("BANDWIDTH", "150000"), ("URI", "\"iframe.m3u8\"")])
        }
    );
}

#[test]
fn sort_by_bandwidth_descending() {
    let mut playlist = parse_playlist(
        "#EXT-X-STREAM-INF:BANDWIDTH=2000000,RESOLUTION=1280x720\nstream2.m3u8\n\
         #EXT-X-STREAM-INF:BANDWIDTH=5000000,RESOLUTION=1920x1080\nstream1.m3u8\n",
    );
    by_fields(
        &mut playlist.entries,
        &[by(VariantSortFieldName::Bandwidth, Direction::Desc)],
    );
    assert_eq!(uris(&playlist), vec!["stream1.m3u8", "stream2.m3u8"]);

    let mut same = parse_playlist(
        "#EXT-X-STREAM-INF:BANDWIDTH=5000000,RESOLUTION=1920x1080\nstream1.m3u8\n\
         #EXT-X-STREAM-INF:BANDWIDTH=2000000,RESOLUTION=1280x720\nstream2.m3u8\n",
    );
    by_fields(
        &mut same.entries,
        &[by(VariantSortFieldName::Bandwidth, Direction::Desc)],
    );
    assert_eq!(uris(&same), vec!["stream1.m3u8", "stream2.m3u8"]);
}

#[test]
fn stream_without_uri_is_dropped() {
    let playlist = parse_playlist("#EXT-X-STREAM-INF:BANDWIDTH=100");
    assert_eq!(playlist.entries.len(), 0);
    let playlist = parse_playlist("#EXTM3U\n#EXT-X-MEDIA:TYPE=AUDIO\n#EXT-X-STREAM-INF:BANDWIDTH=100\n\n  \n");
    assert!(playlist.valid_header);
    assert_eq!(playlist.entries.len(), 1);
    assert_eq!(
        playlist.entries[0],
        Entry::Alternative {
            attributes: attributes(&[("TYPE", "AUDIO")])
        }
    );
}

#[test]
fn stream_takes_the_next_line_whatever_it_is() {
    let playlist = parse_playlist("#EXT-X-STREAM-INF:BANDWIDTH=1\n#EXT-X-MEDIA:TYPE=AUDIO\nlast\n");
    assert_eq!(
        playlist.entries,
        vec![stream(&[("BANDWIDTH", "1")], "#EXT-X-MEDIA:TYPE=AUDIO")]
    );
}

#[test]
fn blank_lines_and_unknown_lines_are_passed_over() {
    let playlist = parse_playlist(
        "\r\n  #EXTM3U  \r\n\r\n# a comment\r\n#EXT-X-VERSION:4\r\n   \n#EXT-X-STREAM-INF:BANDWIDTH=7 \r\n\r\n\t low.m3u8 \r\n",
    );
    assert!(playlist.valid_header);
    assert!(!playlist.independent_segments);
    assert_eq!(
        playlist.entries,
        vec![stream(&[("BANDWIDTH", "7")], "low.m3u8")]
    );
}

#[test]
fn lines_are_split_and_trimmed() {
    assert_eq!(split_lines(" a \n\n\tb\r\n \nc"), vec!["a", "b", "c"]);
    assert_eq!(split_lines(""), Vec::<&str>::new());
    assert_eq!(split_lines("\n\n"), Vec::<&str>::new());
    assert_eq!(split_lines("\u{3000}x\u{a0}"), vec!["x"]);
}

#[test]
fn lines_are_classified_by_their_tag() {
    assert_eq!(classify("#EXT-X-STREAM-INF:A=1"), LineKind::StreamInf);
    assert_eq!(classify("#EXT-X-I-FRAME-STREAM-INF:A=1"), LineKind::IFrame);
    assert_eq!(classify("#EXT-X-MEDIA:A=1"), LineKind::Media);
    assert_eq!(
        classify("#EXT-X-INDEPENDENT-SEGMENTS"),
        LineKind::IndependentSegments
    );
    assert_eq!(classify("#EXTM3U"), LineKind::Header);
    assert_eq!(classify("#EXTM3U8"), LineKind::Header);
    assert_eq!(classify("#EXT-X-STREAM-INF"), LineKind::Unknown);
    assert_eq!(classify(" #EXTM3U"), LineKind::Unknown);
    assert_eq!(classify(""), LineKind::Unknown);
}

#[test]
fn parse_lines_takes_lines_as_they_are() {
    let playlist = parse_lines_of(&vec!["#EXT-X-STREAM-INF:A=1", "", " #EXTM3U"]);
    assert!(!playlist.valid_header);
    assert_eq!(playlist.entries, vec![stream(&[("A", "1")], "")]);
}

#[test]
fn later_duplicate_key_wins() {
    let playlist = parse_playlist("#EXT-X-MEDIA:A=1,B=2,A=3\n");
    assert_eq!(
        playlist.entries,
        vec![Entry::Alternative {
            attributes: attributes(&[("A", "3"), ("B", "2")])
        }]
    );
}

#[test]
fn attributes_are_held_in_key_order() {
    let mut a = Attributes::new();
    a.insert("b".to_string(), "2".to_string());
    a.insert("a".to_string(), "1".to_string());
    a.insert("B".to_string(), "3".to_string());
    a.insert("ab".to_string(), "4".to_string());
    a.insert("\u{e9}".to_string(), "5".to_string());
    a.insert("".to_string(), "6".to_string());
    assert_eq!(a.len(), 6);
    assert_eq!(a.render(), "=6,B=3,a=1,ab=4,b=2,\u{e9}=5");
    a.insert("a".to_string(), "7".to_string());
    assert_eq!(a.len(), 6);
    assert_eq!(a.render(), "=6,B=3,a=7,ab=4,b=2,\u{e9}=5");
    assert_eq!(a.get("ab"), Some(&"4".to_string()));
    assert_eq!(a.get("a"), Some(&"7".to_string()));
    assert_eq!(a.get("c"), None);
    assert_eq!(Attributes::new().render(), "");
}

#[test]
fn key_order_is_that_of_str() {
    let mut keys = vec!["b", "a", "", "ab", "B", "\u{e9}", "z", "a\u{10000}", "a\u{ffff}", "aa"];
    let mut a = Attributes::new();
    for k in &keys {
        a.insert(k.to_string(), String::new());
    }
    keys.sort();
    let expected = keys
        .iter()
        .map(|k| format!("{}=", k))
        .collect::<Vec<_>>()
        .join(",");
    assert_eq!(a.render(), expected);
}

#[test]
fn render_writes_header_marker_and_entries() {
    let playlist = MasterPlaylist {
        valid_header: false,
        independent_segments: true,
        entries: vec![
            stream(&[("RESOLUTION", "1x2"), ("BANDWIDTH", "10")], "a.m3u8"),
            Entry::ExtXIFrame {
                attributes: attributes(&[("URI", "\"i.m3u8\"")]),
            },
            Entry::Alternative {
                attributes: attributes(&[]),
            },
        ],
    };
    let expected = "#EXTM3U\n#EXT-X-INDEPENDENT-SEGMENTS\n#EXT-X-STREAM-INF:BANDWIDTH=10,RESOLUTION=1x2\na.m3u8\n#EXT-X-I-FRAME-STREAM-INF:URI=\"i.m3u8\"\n#EXT-X-MEDIA:\n";
    assert_eq!(playlist.render(), expected);
    let mut out = b"> ".to_vec();
    playlist.write_to(&mut out);
    assert_eq!(out, format!("> {}", expected).into_bytes());
    assert_eq!(MasterPlaylist::default().render(), "#EXTM3U\n");
}

#[test]
fn write_to_writes_utf8() {
    let playlist = MasterPlaylist {
        valid_header: true,
        independent_segments: false,
        entries: vec![stream(&[("NAME", "\"\u{65e5}\u{672c}\"")], "\u{e9}.m3u8")],
    };
    let mut out = Vec::new();
    playlist.write_to(&mut out);
    assert_eq!(
        String::from_utf8(out).unwrap(),
        "#EXTM3U\n#EXT-X-STREAM-INF:NAME=\"\u{65e5}\u{672c}\"\n\u{e9}.m3u8\n"
    );
}

#[test]
fn render_then_parse_then_render_is_stable() {
    let messy = "  #EXTM3U\r\n\r\n#EXT-X-STREAM-INF: RESOLUTION = 1280x720 ,BANDWIDTH=2000000 , CODECS=\"a,b\"\r\n  v.m3u8  \r\n#EXT-X-MEDIA:TYPE=AUDIO\r\n#EXT-X-INDEPENDENT-SEGMENTS\r\nnoise\r\n";
    let first = parse_playlist(messy).render();
    assert_eq!(
        first,
        "#EXTM3U\n#EXT-X-INDEPENDENT-SEGMENTS\n#EXT-X-STREAM-INF:BANDWIDTH=2000000,CODECS=\"a,b\",RESOLUTION=1280x720\nv.m3u8\n#EXT-X-MEDIA:TYPE=AUDIO\n"
    );
    let again = parse_playlist(&first);
    assert_eq!(again.render(), first);
    assert_eq!(again, parse_playlist(&again.render()));
    let sample = parse_playlist(SAMPLE).render();
    assert_eq!(parse_playlist(&sample).render(), sample);
}

#[test]
fn numbers_are_read_from_variants_only() {
    let s = stream(
        &[
            ("BANDWIDTH", "5000000"),
            ("AVERAGE-BANDWIDTH", "+42"),
            ("RESOLUTION", "1920x1080"),
        ],
        "u",
    );
    assert_eq!(s.get_bandwidth(), Some(5000000));
    assert_eq!(s.get_average_bandwidth(), Some(42));
    assert_eq!(s.get_resolution_height(), Some(1080));
    let i = Entry::ExtXIFrame {
        attributes: attributes(&[("BANDWIDTH", "007")]),
    };
    assert_eq!(i.get_bandwidth(), Some(7));
    assert_eq!(i.get_average_bandwidth(), None);
    assert_eq!(i.get_resolution_height(), None);
    let a = Entry::Alternative {
        attributes: attributes(&[
            ("BANDWIDTH", "1"),
            ("AVERAGE-BANDWIDTH", "2"),
            ("RESOLUTION", "3x4"),
        ]),
    };
    assert_eq!(a.get_bandwidth(), None);
    assert_eq!(a.get_average_bandwidth(), None);
    assert_eq!(a.get_resolution_height(), None);
}

#[test]
fn a_value_that_is_no_number_counts_as_absent() {
    for bad in ["", "+", "-1", "12a", " 12", "1.5", "18446744073709551616", "0x10", "++1", "\"100\""] {
        let s = stream(&[("BANDWIDTH", bad), ("AVERAGE-BANDWIDTH", bad)], "u");
        assert_eq!(s.get_bandwidth(), None, "{:?}", bad);
        assert_eq!(s.get_average_bandwidth(), None, "{:?}", bad);
        assert!(bad.parse::<u64>().is_err());
    }
    let s = stream(&[("BANDWIDTH", "18446744073709551615")], "u");
    assert_eq!(s.get_bandwidth(), Some(u64::MAX));
    let s = stream(&[("BANDWIDTH", "00018446744073709551615")], "u");
    assert_eq!(s.get_bandwidth(), Some(u64::MAX));
}

#[test]
fn decimal_reading_agrees_with_std() {
    for text in ["0", "+0", "9", "10", "+18446744073709551615", "18446744073709551616", "99999999999999999999", "", "+", "-0", "1_0", "\u{663}", "12 "] {
        let chars: Vec<char> = text.chars().collect();
        assert_eq!(
            text::parse_decimal(&chars, 0, chars.len()),
            text.parse::<u64>().ok(),
            "{:?}",
            text
        );
    }
    let chars: Vec<char> = "ab123cd".chars().collect();
    assert_eq!(text::parse_decimal(&chars, 2, 5), Some(123));
    assert_eq!(text::parse_decimal(&chars, 2, 2), None);
}

#[test]
fn resolution_height_is_what_follows_the_first_x() {
    let height = |r: &str| stream(&[("RESOLUTION", r)], "u").get_resolution_height();
    assert_eq!(height("1920x1080"), Some(1080));
    assert_eq!(height("x720"), Some(720));
    assert_eq!(height("1920"), Some(0));
    assert_eq!(height("1920x"), Some(0));
    assert_eq!(height("1920X1080"), Some(0));
    assert_eq!(height("1x2x3"), Some(0));
    assert_eq!(height(""), Some(0));
    assert_eq!(height("axb"), Some(0));
}

#[test]
fn trimming_follows_str_trim() {
    for text in ["", " ", "a", " a", "a ", " a b ", "\t\r\n a\u{a0}\u{3000}", "\u{200b}a\u{200b}", "\u{2000}\u{200a}x\u{2028}\u{2029}\u{202f}\u{205f}\u{1680}\u{85}", "\u{b}\u{c}y\u{1c}", "  \u{feff} "] {
        let chars: Vec<char> = text.chars().collect();
        let (a, b) = text::trim_range(&chars, 0, chars.len());
        let got: String = chars[a..b].iter().collect();
        assert_eq!(got, text.trim(), "{:?}", text);
    }
    for c in 0..0x3100u32 {
        if let Some(c) = char::from_u32(c) {
            assert_eq!(text::is_space_char(c), c.is_whitespace(), "{:?}", c);
        }
    }
}

#[test]
fn text_helpers_agree_with_std() {
    let words = ["", "a", "ab", "b", "B", "\u{e9}", "a\u{10000}", "a\u{ffff}", "#EXTM3U"];
    for x in words {
        for y in words {
            let xs: Vec<char> = x.chars().collect();
            let ys: Vec<char> = y.chars().collect();
            assert_eq!(text::text_lt(&xs, &ys), x < y, "{:?} {:?}", x, y);
            assert_eq!(text::text_eq(&xs, &ys), x == y, "{:?} {:?}", x, y);
            assert_eq!(text::has_prefix(&xs, &ys), x.starts_with(y), "{:?} {:?}", x, y);
        }
    }
    assert_eq!(text::chars_of("a\u{e9}\u{10000}"), vec!['a', '\u{e9}', '\u{10000}']);
    let chars = text::chars_of("abcabc");
    assert_eq!(text::find_char(&chars, 'c', 0, 6), 2);
    assert_eq!(text::find_char(&chars, 'c', 3, 6), 5);
    assert_eq!(text::find_char(&chars, 'x', 1, 4), 4);
}

#[test]
fn sort_is_stable() {
    let mut entries = vec![
        stream(&[("BANDWIDTH", "2")], "a"),
        stream(&[("BANDWIDTH", "1")], "b"),
        stream(&[("BANDWIDTH", "2")], "c"),
        stream(&[("BANDWIDTH", "1")], "d"),
        stream(&[("BANDWIDTH", "2")], "e"),
    ];
    by_fields(
        &mut entries,
        &[by(VariantSortFieldName::Bandwidth, Direction::Asc)],
    );
    let p = MasterPlaylist {
        valid_header: true,
        independent_segments: false,
        entries,
    };
    assert_eq!(uris(&p), vec!["b", "d", "a", "c", "e"]);
    let mut entries = p.entries;
    by_fields(
        &mut entries,
        &[by(VariantSortFieldName::Bandwidth, Direction::Desc)],
    );
    let p = MasterPlaylist {
        valid_header: true,
        independent_segments: false,
        entries,
    };
    assert_eq!(uris(&p), vec!["a", "c", "e", "b", "d"]);
}

#[test]
fn sort_without_fields_keeps_the_order() {
    let mut entries = vec![
        stream(&[("BANDWIDTH", "2")], "a"),
        stream(&[("BANDWIDTH", "1")], "b"),
    ];
    let before = entries.clone();
    by_fields::<Entry, VariantSortFieldName>(&mut entries, &[]);
    assert_eq!(entries, before);
    let mut none: Vec<Entry> = Vec::new();
    by_fields(
        &mut none,
        &[by(VariantSortFieldName::Bandwidth, Direction::Asc)],
    );
    assert!(none.is_empty());
}

#[test]
fn missing_value_sorts_as_zero() {
    let mut entries = vec![
        stream(&[("BANDWIDTH", "5")], "five"),
        stream(&[("RESOLUTION", "1x1")], "none"),
        stream(&[("BANDWIDTH", "0")], "zero"),
        Entry::Alternative {
            attributes: attributes(&[("BANDWIDTH", "9")]),
        },
        stream(&[("BANDWIDTH", "junk")], "junk"),
        stream(&[("BANDWIDTH", "3")], "three"),
    ];
    by_fields(
        &mut entries,
        &[by(VariantSortFieldName::Bandwidth, Direction::Asc)],
    );
    assert!(matches!(entries[2], Entry::Alternative { .. }));
    let p = MasterPlaylist {
        valid_header: true,
        independent_segments: false,
        entries,
    };
    assert_eq!(uris(&p), vec!["none", "zero", "junk", "three", "five"]);
    let mut entries = p.entries;
    by_fields(
        &mut entries,
        &[by(VariantSortFieldName::Bandwidth, Direction::Desc)],
    );
    assert!(matches!(entries[4], Entry::Alternative { .. }));
    let p = MasterPlaylist {
        valid_header: true,
        independent_segments: false,
        entries,
    };
    assert_eq!(uris(&p), vec!["five", "three", "none", "zero", "junk"]);
}

#[test]
fn earlier_field_counts_first() {
    let a = stream(&[("BANDWIDTH", "1"), ("RESOLUTION", "1x9"), ("AVERAGE-BANDWIDTH", "5")], "a");
    let b = stream(&[("BANDWIDTH", "1"), ("RESOLUTION", "1x3"), ("AVERAGE-BANDWIDTH", "7")], "b");
    let c = stream(&[("BANDWIDTH", "0"), ("RESOLUTION", "1x5"), ("AVERAGE-BANDWIDTH", "6")], "c");
    let fields = [
        by(VariantSortFieldName::Bandwidth, Direction::Desc),
        by(VariantSortFieldName::Resolution, Direction::Asc),
        by(VariantSortFieldName::AvgBandwidth, Direction::Asc),
    ];
    assert_eq!(compare(&a, &b, &fields), Ordering::Greater);
    assert_eq!(compare(&b, &a, &fields), Ordering::Less);
    assert_eq!(compare(&a, &c, &fields), Ordering::Less);
    assert_eq!(compare(&c, &b, &fields), Ordering::Greater);
    assert_eq!(compare(&a, &a, &fields), Ordering::Equal);
    assert_eq!(compare(&a, &b, &fields[..1]), Ordering::Equal);
    assert_eq!(compare(&a, &b, &fields[..0]), Ordering::Equal);
    assert!(precedes(&b, &a, &fields));
    assert!(!precedes(&a, &b, &fields));
    assert!(!precedes(&a, &a, &fields));
    let mut entries = vec![c.clone(), a.clone(), b.clone()];
    by_fields(&mut entries, &fields);
    assert_eq!(entries, vec![b, a, c]);
}

#[test]
fn entries_compare_on_one_field() {
    let a = stream(&[("BANDWIDTH", "1"), ("RESOLUTION", "1x9")], "a");
    let b = stream(&[("BANDWIDTH", "2"), ("AVERAGE-BANDWIDTH", "3")], "b");
    assert_eq!(a.sort(&b, &VariantSortFieldName::Bandwidth), Ordering::Less);
    assert_eq!(a.sort(&b, &VariantSortFieldName::Resolution), Ordering::Greater);
    assert_eq!(a.sort(&b, &VariantSortFieldName::AvgBandwidth), Ordering::Less);
    assert_eq!(a.sort(&a, &VariantSortFieldName::AvgBandwidth), Ordering::Equal);
    assert_eq!(a.get_field(&VariantSortFieldName::Resolution), Some(9));
    assert_eq!(b.get_field(&VariantSortFieldName::Resolution), None);
}

#[test]
fn defaults() {
    assert_eq!(Direction::default(), Direction::Asc);
    assert_eq!(VariantSortFieldName::default(), VariantSortFieldName::Bandwidth);
    let p = MasterPlaylist::default();
    assert!(!p.valid_header && !p.independent_segments && p.entries.is_empty());
}

#[test]
fn unsettled_lists_are_not_written_stably() {
    let first = parse_playlist("#EXT-X-MEDIA:=,").render();
    assert_eq!(first, "#EXTM3U\n#EXT-X-MEDIA:=\n");
    assert_eq!(parse_playlist(&first).render(), "#EXTM3U\n#EXT-X-MEDIA:\n");
    let first = parse_playlist("#EXT-X-MEDIA:B=\"y,z\",C=3,A=\"x").render();
    assert_eq!(first, "#EXTM3U\n#EXT-X-MEDIA:A=\"x,B=\"y,z\",C=3\n");
    assert_eq!(
        parse_playlist(&first).render(),
        "#EXTM3U\n#EXT-X-MEDIA:A=\"x,B=\"y\n"
    );
}

#[test]
fn an_open_quote_in_the_last_value_is_written_stably() {
    let first = parse_playlist("#EXT-X-MEDIA:A=1,B=\"x,y").render();
    assert_eq!(first, "#EXTM3U\n#EXT-X-MEDIA:A=1,B=\"x,y\n");
    assert_eq!(parse_playlist(&first).render(), first);
}

#[test]
fn tag_cuts_the_tag_off_the_trimmed_line() {
    assert_eq!(tag("#EXT-X-MEDIA:TYPE=AUDIO  ", "#EXT-X-MEDIA:"), "TYPE=AUDIO");
    assert_eq!(tag("#EXT-X-MEDIA:TYPE=AUDIO", "#EXT-X-MEDIA:"), "TYPE=AUDIO");
    assert_eq!(tag(" \t#EXT-X-STREAM-INF:A=1 \r", "#EXT-X-STREAM-INF:"), "A=1");
    assert_eq!(tag("#EXT-X-MEDIA:", "#EXT-X-MEDIA:"), "");
    assert_eq!(tag("#EXT-X-MEDIA: = ", "#EXT-X-MEDIA:"), " =");
    assert_eq!(tag("\u{3000}\u{e9}t\u{e9} x\u{a0}", "\u{e9}t"), "\u{e9} x");
    assert_eq!(tag("abc", ""), "abc");
}

#[test]
fn a_tag_line_is_trimmed_before_its_list_is_read() {
    let playlist = parse_lines_of(&vec!["#EXT-X-MEDIA:= "]);
    assert_eq!(
        playlist.entries,
        vec![Entry::Alternative {
            attributes: attributes(&[])
        }]
    );
    let playlist = parse_lines_of(&vec!["#EXT-X-MEDIA:A=1  ", "#EXT-X-STREAM-INF:B= 2\t", " u "]);
    assert_eq!(
        playlist.entries,
        vec![
            Entry::Alternative {
                attributes: attributes(&[("A", "1")])
            },
            stream(&[("B", "2")], " u "),
        ]
    );
}

#[test]
fn sort_agrees_with_a_stable_sort_of_std() {
    let mut seed: u64 = 12345;
    for n in [0usize, 1, 2, 3, 4, 5, 7, 8, 16, 33, 100] {
        let mut entries = Vec::new();
        for i in 0..n {
            seed = seed.wrapping_mul(6364136223846793005).wrapping_add(1442695040888963407);
            let bandwidth = (seed >> 33) % 5;
            let height = (seed >> 40) % 3;
            entries.push(stream(
                &[
                    ("BANDWIDTH", &bandwidth.to_string()),
                    ("RESOLUTION", &format!("1x{}", height)),
                ],
                &format!("u{}", i),
            ));
        }
        let fields = [
            by(VariantSortFieldName::Resolution, Direction::Desc),
            by(VariantSortFieldName::Bandwidth, Direction::Asc),
        ];
        let mut expected = entries.clone();
        expected.sort_by(|a, b| {
            let ha = a.get_resolution_height().unwrap_or(0);
            let hb = b.get_resolution_height().unwrap_or(0);
            let ba = a.get_bandwidth().unwrap_or(0);
            let bb = b.get_bandwidth().unwrap_or(0);
            hb.cmp(&ha).then(ba.cmp(&bb))
        });
        by_fields(&mut entries, &fields);
        assert_eq!(entries, expected, "{}", n);
    }
}

#[test]
fn sort_of_a_part_leaves_the_rest() {
    let mut entries = vec![
        stream(&[("BANDWIDTH", "9")], "a"),
        stream(&[("BANDWIDTH", "3")], "b"),
        stream(&[("BANDWIDTH", "2")], "c"),
        stream(&[("BANDWIDTH", "1")], "d"),
        stream(&[("BANDWIDTH", "0")], "e"),
    ];
    by_fields(
        &mut entries[1..4],
        &[by(VariantSortFieldName::Bandwidth, Direction::Asc)],
    );
    let p = MasterPlaylist {
        valid_header: true,
        independent_segments: false,
        entries,
    };
    assert_eq!(uris(&p), vec!["a", "d", "c", "b", "e"]);
}
