use simple_reader::config::{default_true, AppConfig};
use simple_reader::epub_reader::{
    add_toc_title, build_toc_titles, collect_toc_titles, deobfuscate_adobe, deobfuscate_idpf,
    find_encryption_info, find_in_resource_map, find_toc_title, font_data_uri_mime, hex_digit,
    is_font_mime, lookup, percent_decode, resolve_path, EncryptionInfo, NamedText, NavPoint,
    ObfuscationAlgorithm,
};
use sha1::Digest;
use simple_reader::search::utf16_len;

fn table(items: &[(&str, &str)]) -> Vec<NamedText> {
    items
        .iter()
        .map(|(n, t)| NamedText { name: n.to_string(), text: t.to_string() })
        .collect()
}

fn nav(label: &str, content: &str, children: Vec<NavPoint>) -> NavPoint {
    NavPoint { label: label.to_string(), content: content.to_string(), children }
}

fn pairs(titles: &[NamedText]) -> Vec<(String, String)> {
    titles.iter().map(|t| (t.name.clone(), t.text.clone())).collect()
}

#[test]
fn font_types_are_told_by_their_names() {
    assert!(is_font_mime("application/x-font-ttf"));
    assert!(is_font_mime("font/woff2"));
    assert!(is_font_mime("application/vnd.ms-opentype"));
    assert!(is_font_mime("application/x-truetype"));
    assert!(!is_font_mime("image/png"));
    assert!(!is_font_mime(""));
    assert!(!is_font_mime("FONT/TTF"));
    assert_eq!(font_data_uri_mime("font/woff2"), "font/woff2");
    assert_eq!(font_data_uri_mime("application/font-woff"), "font/woff");
    assert_eq!(font_data_uri_mime("application/vnd.ms-opentype"), "font/otf");
    assert_eq!(font_data_uri_mime("font/otf"), "font/otf");
    assert_eq!(font_data_uri_mime("application/x-font-ttf"), "font/ttf");
    assert_eq!(font_data_uri_mime(""), "font/ttf");
}

#[test]
fn encryption_record_is_found_by_path_or_name() {
    let infos = vec![
        EncryptionInfo { uri: "OEBPS/fonts/a.otf".to_string(), algorithm: ObfuscationAlgorithm::Idpf },
        EncryptionInfo { uri: "fonts/b.ttf".to_string(), algorithm: ObfuscationAlgorithm::Adobe },
    ];
    let found = find_encryption_info("fonts/a.otf", &infos).unwrap();
    assert_eq!(found.uri, "OEBPS/fonts/a.otf");
    assert_eq!(found.algorithm, ObfuscationAlgorithm::Idpf);
    assert_eq!(find_encryption_info("x/b.ttf", &infos).unwrap().algorithm, ObfuscationAlgorithm::Adobe);
    assert_eq!(find_encryption_info("fonts/b.ttf", &infos).unwrap().uri, "fonts/b.ttf");
    assert_eq!(find_encryption_info("root/fonts/b.ttf", &infos).unwrap().uri, "fonts/b.ttf");
    assert!(find_encryption_info("c.ttf", &infos).is_none());
    assert!(find_encryption_info("a.otf", &Vec::new()).is_none());
}

#[test]
fn adobe_fonts_are_restored_with_the_uuid() {
    let id = "urn:uuid:00112233-4455-6677-8899-aabbccddeeff";
    let key: Vec<u8> = (0..16u8).map(|i| i * 0x11).collect();
    let mut data = vec![0u8; 2000];
    deobfuscate_adobe(&mut data, id);
    for i in 0..2000 {
        assert_eq!(data[i], if i < 1024 { key[i % 16] } else { 0 });
    }
    // Twice is as good as not at all.
    deobfuscate_adobe(&mut data, "urn:uuid:urn:uuid:00112233445566778899AABBCCDDEEFF-more");
    assert_eq!(data, vec![0u8; 2000]);
    // Only a leading `urn:uuid:` in lower case is passed over; of any
    // other text the hexadecimal digits count, here the D of UUID.
    let mut other = vec![0u8; 16];
    deobfuscate_adobe(&mut other, "UUID:00112233445566778899AABBCCDDEEFF");
    assert_eq!(other[0], 0xD0);
    assert_eq!(other[1], 0x01);
    let mut short = vec![7u8; 5];
    deobfuscate_adobe(&mut short, id);
    assert_eq!(short, vec![7, 7 ^ 0x11, 7 ^ 0x22, 7 ^ 0x33, 7 ^ 0x44]);
    // An id with fewer than 32 hexadecimal digits gives no key.
    let mut same = vec![1u8, 2, 3];
    deobfuscate_adobe(&mut same, "urn:uuid:0011");
    assert_eq!(same, vec![1, 2, 3]);
    deobfuscate_adobe(&mut same, "");
    assert_eq!(same, vec![1, 2, 3]);
    assert_eq!(hex_digit('f'), Some(15));
    assert_eq!(hex_digit('A'), Some(10));
    assert_eq!(hex_digit('9'), Some(9));
    assert_eq!(hex_digit('g'), None);
}

#[test]
fn idpf_fonts_are_restored_with_the_digest_of_the_id() {
    let key = sha1::Sha1::digest(b"urn:isbn:123ab").to_vec();
    assert_eq!(key.len(), 20);
    let mut data: Vec<u8> = (0..3000u32).map(|i| (i % 251) as u8).collect();
    let before = data.clone();
    deobfuscate_idpf(&mut data, " urn:isbn:\t123 ab\u{3000}\n");
    for i in 0..3000 {
        let expected = if i < 1040 { before[i] ^ key[i % 20] } else { before[i] };
        assert_eq!(data[i], expected);
    }
    let mut tiny = vec![0u8; 3];
    deobfuscate_idpf(&mut tiny, "urn:isbn:123ab");
    assert_eq!(tiny, key[..3].to_vec());
    let mut none: Vec<u8> = Vec::new();
    deobfuscate_idpf(&mut none, "x");
    assert!(none.is_empty());
}

#[test]
fn percent_escapes_are_decoded() {
    assert_eq!(percent_decode("a%20b%2Fc"), "a b/c");
    assert_eq!(percent_decode("%zz%4"), "%zz%4");
    assert_eq!(percent_decode("%E4"), "\u{E4}");
    assert_eq!(percent_decode("%%41"), "%A");
    assert_eq!(percent_decode("%41%"), "A%");
    assert_eq!(percent_decode("%4"), "%4");
    assert_eq!(percent_decode(""), "");
    assert_eq!(percent_decode("fonts/My%20Font.otf"), "fonts/My Font.otf");
}

#[test]
fn references_are_resolved_against_the_file_they_stand_in() {
    assert_eq!(resolve_path("OEBPS/text/ch1.xhtml", "../images/a.png"), "OEBPS/images/a.png");
    assert_eq!(resolve_path("ch1.xhtml", "img/a.png"), "img/a.png");
    assert_eq!(resolve_path("a/b/c.html", "/abs/x.css"), "abs/x.css");
    assert_eq!(resolve_path("a/b/c.html", "./x/../y.css"), "a/b/y.css");
    assert_eq!(resolve_path("a/c.html", "../../../z"), "z");
    assert_eq!(resolve_path("/a//b/c", "d"), "a/b/d");
    assert_eq!(resolve_path("a/b/c.html", ""), "a/b");
    assert_eq!(resolve_path("", ""), "");
    assert_eq!(resolve_path("a/b/", "c"), "a/b/c");
    assert_eq!(resolve_path("a/b", ".."), "");
    assert_eq!(resolve_path("x", "/"), "");
}

#[test]
fn resources_are_found_by_narrowing_the_name() {
    let map = table(&[("OEBPS/images/a.png", "A"), ("b.png", "B"), ("x/c.png", "C")]);
    assert_eq!(find_in_resource_map("OEBPS/images/a.png", "../images/a.png", &map), Some("A".to_string()));
    assert_eq!(find_in_resource_map("zzz", "b.png", &map), Some("B".to_string()));
    assert_eq!(find_in_resource_map("zzz", "q/b.png", &map), Some("B".to_string()));
    assert_eq!(find_in_resource_map("root/x/c.png", "../c2.png", &map), Some("C".to_string()));
    assert_eq!(find_in_resource_map("none", "dir/a.png", &map), Some("A".to_string()));
    assert_eq!(find_in_resource_map("none", "nothing.gif", &map), None);
    assert_eq!(find_in_resource_map("a", "b", &Vec::new()), None);
    assert_eq!(lookup(&map, "b.png"), Some("B".to_string()));
    assert_eq!(lookup(&map, "B.png"), None);
}

#[test]
fn chapter_titles_are_found_by_path() {
    let titles = table(&[("text/ch1.xhtml", "One"), ("ch2.xhtml", "Two")]);
    assert_eq!(find_toc_title("text/ch1.xhtml", &titles), Some("One".to_string()));
    assert_eq!(find_toc_title("OEBPS/text/ch1.xhtml", &titles), Some("One".to_string()));
    assert_eq!(find_toc_title("2.xhtml", &titles), Some("Two".to_string()));
    assert_eq!(find_toc_title("ch3.xhtml", &titles), None);
}

#[test]
fn contents_are_gone_through_depth_first() {
    let toc = vec![
        nav("Part I", "p1.xhtml#top", vec![
            nav("Chapter 1", "c1.xhtml", vec![nav("Section", "c1.xhtml#s1", vec![])]),
            nav("Chapter 2", "c2.xhtml#a", vec![]),
        ]),
        nav("Part I again", "p1.xhtml", vec![]),
        nav("End", "#only", vec![]),
    ];
    let titles = build_toc_titles(&toc);
    assert_eq!(
        pairs(&titles),
        vec![
            ("p1.xhtml".to_string(), "Part I".to_string()),
            ("c1.xhtml".to_string(), "Chapter 1".to_string()),
            ("c2.xhtml".to_string(), "Chapter 2".to_string()),
            ("".to_string(), "End".to_string()),
        ]
    );
    let mut more = titles;
    collect_toc_titles(&vec![nav("Late", "late.xhtml", vec![])], &mut more);
    add_toc_title(&mut more, "late.xhtml#x", "Later");
    assert_eq!(more.len(), 5);
    assert_eq!(more[4].text, "Late");
    assert_eq!(build_toc_titles(&Vec::new()).len(), 0);
}

#[test]
fn utf16_length_counts_pairs_twice() {
    assert_eq!(utf16_len(""), Some(0));
    assert_eq!(utf16_len("abc"), Some(3));
    assert_eq!(utf16_len("a😀b"), Some(4));
    assert_eq!(utf16_len("한글\u{FFFF}\u{10000}"), Some(5));
    for s in ["", "héllo", "😀😀", "a\u{10FFFF}"] {
        assert_eq!(utf16_len(s), Some(s.encode_utf16().count()));
    }
}

#[test]
fn settings_start_with_their_defaults() {
    let c = AppConfig::default();
    assert_eq!(c.font_family, "Segoe UI");
    assert_eq!(c.font_size, 14);
    assert_eq!(c.theme, "dark");
    assert!(!c.font_bold);
    assert!(c.show_line_numbers);
    assert!(!c.word_wrap);
    assert!(c.recent_files.is_empty());
    assert_eq!((c.window_width, c.window_height), (1200, 800));
    assert!(default_true());
}
