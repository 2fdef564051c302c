use simple_reader::epub_builder::{
    add_resource, build_chapters, build_css_and_font_styles, build_font_map, build_image_map,
    data_uri, decimal_text, extend_table, get_unique_identifier, insert_named, parse_encryption_xml,
    parse_epub, BookError, EpubSource, Resource, SpineChapter,
};
use simple_reader::epub_reader::{EncryptionInfo, NamedText, NavPoint, ObfuscationAlgorithm};

fn named(items: &[(&str, &str)]) -> Vec<NamedText> {
    items
        .iter()
        .map(|(n, t)| NamedText { name: n.to_string(), text: t.to_string() })
        .collect()
}

fn listed(table: &[NamedText]) -> Vec<(String, String)> {
    table.iter().map(|e| (e.name.clone(), e.text.clone())).collect()
}

fn owned(items: &[(&str, &str)]) -> Vec<(String, String)> {
    items.iter().map(|(n, t)| (n.to_string(), t.to_string())).collect()
}

fn resource(path: &str, mime: &str, data: &[u8]) -> Resource {
    Resource { path: path.to_string(), mime: mime.to_string(), data: data.to_vec() }
}

fn encoded(data: &[u8]) -> String {
    base64::Engine::encode(&base64::engine::general_purpose::STANDARD, data)
}

#[test]
fn bytes_become_a_data_uri() {
    assert_eq!(data_uri("image/png", b"hi"), "data:image/png;base64,aGk=");
    assert_eq!(data_uri("font/ttf", &[0xff, 0xfe, 0xfd]), "data:font/ttf;base64,//79");
    assert_eq!(data_uri("", b""), "data:;base64,");
    assert_eq!(data_uri("a/b", b"hello world~"), "data:a/b;base64,aGVsbG8gd29ybGR+");
}

#[test]
fn a_name_stands_once_in_a_table() {
    let mut table = named(&[("a", "1"), ("b", "2")]);
    insert_named(&mut table, "c".to_string(), "3".to_string());
    insert_named(&mut table, "a".to_string(), "4".to_string());
    assert_eq!(listed(&table), owned(&[("a", "4"), ("b", "2"), ("c", "3")]));
}

#[test]
fn a_resource_stands_under_its_path_and_its_file_name() {
    let mut table = Vec::new();
    add_resource(&mut table, "OEBPS/images/a.png", "A".to_string());
    add_resource(&mut table, "cover.jpg", "C".to_string());
    add_resource(&mut table, "other/a.png", "B".to_string());
    add_resource(&mut table, "dir/", "D".to_string());
    assert_eq!(
        listed(&table),
        owned(&[
            ("OEBPS/images/a.png", "A"),
            ("a.png", "B"),
            ("cover.jpg", "C"),
            ("other/a.png", "B"),
            ("dir/", "D"),
            ("", "D"),
        ])
    );
}

#[test]
fn one_table_is_put_into_another() {
    let images = named(&[("a.png", "A"), ("b.png", "B")]);
    let fonts = named(&[("f.ttf", "F"), ("a.png", "G")]);
    assert_eq!(
        listed(&extend_table(&images, &fonts)),
        owned(&[("a.png", "G"), ("b.png", "B"), ("f.ttf", "F")])
    );
    assert_eq!(listed(&extend_table(&images, &Vec::new())), listed(&images));
}

#[test]
fn images_are_collected_as_data_uris() {
    let resources = vec![
        resource("OEBPS/images/a.png", "image/png", b"hi"),
        resource("OEBPS/css/s.css", "text/css", b"p{}"),
        resource("cover.jpg", "image/jpeg", &[0xff, 0xfe, 0xfd]),
        resource("x.bin", "application/image/png", b"no"),
    ];
    assert_eq!(
        listed(&build_image_map(&resources)),
        owned(&[
            ("OEBPS/images/a.png", "data:image/png;base64,aGk="),
            ("a.png", "data:image/png;base64,aGk="),
            ("cover.jpg", "data:image/jpeg;base64,//79"),
        ])
    );
    assert!(build_image_map(&Vec::new()).is_empty());
}

#[test]
fn fonts_are_restored_and_collected() {
    let plain: Vec<u8> = (0..2000u32).map(|i| (i % 251) as u8).collect();
    let key = <sha1::Sha1 as sha1::Digest>::digest(b"urn:x");
    let mut masked = plain.clone();
    for i in 0..1040 {
        masked[i] ^= key[i % 20];
    }
    let resources = vec![
        resource("OEBPS/fonts/f.otf", "application/vnd.ms-opentype", &masked),
        resource("OEBPS/fonts/g.woff", "font/woff", b"plain"),
        resource("OEBPS/a.png", "image/png", b"hi"),
    ];
    let infos = vec![EncryptionInfo {
        uri: "OEBPS/fonts/f.otf".to_string(),
        algorithm: ObfuscationAlgorithm::Idpf,
    }];
    let restored = format!("data:font/otf;base64,{}", encoded(&plain));
    let kept = format!("data:font/otf;base64,{}", encoded(&masked));
    let woff = format!("data:font/woff;base64,{}", encoded(b"plain"));
    assert_eq!(
        listed(&build_font_map(&resources, &infos, &Some("urn: x".to_string()))),
        owned(&[
            ("OEBPS/fonts/f.otf", &restored),
            ("f.otf", &restored),
            ("OEBPS/fonts/g.woff", &woff),
            ("g.woff", &woff),
        ])
    );
    // Without an id, and without a record, the bytes stay as they are.
    assert_eq!(listed(&build_font_map(&resources, &infos, &None))[0].1, kept);
    assert_eq!(
        listed(&build_font_map(&resources, &Vec::new(), &Some("urn:x".to_string())))[0].1,
        kept
    );
}

#[test]
fn fonts_of_the_other_scheme_are_restored() {
    let plain: Vec<u8> = (0..1500u32).map(|i| (i % 7) as u8).collect();
    let key: Vec<u8> = (0..16u8).map(|i| i * 16 + i).collect();
    let mut masked = plain.clone();
    for i in 0..1024 {
        masked[i] ^= key[i % 16];
    }
    let resources = vec![resource("f.ttf", "font/ttf", &masked)];
    let infos =
        vec![EncryptionInfo { uri: "f.ttf".to_string(), algorithm: ObfuscationAlgorithm::Adobe }];
    let id = "urn:uuid:00112233-4455-6677-8899-aabbccddeeff".to_string();
    assert_eq!(
        listed(&build_font_map(&resources, &infos, &Some(id))),
        vec![("f.ttf".to_string(), format!("data:font/ttf;base64,{}", encoded(&plain)))]
    );
}

#[test]
fn the_list_of_obfuscated_resources_is_read() {
    let content = "<encryption xmlns:enc=\"http://www.w3.org/2001/04/xmlenc#\">\n\
        <enc:EncryptedData>\n\
          <enc:EncryptionMethod Algorithm=\"http://www.idpf.org/2008/embedding\"/>\n\
          <enc:CipherData><enc:CipherReference URI=\"OEBPS/fonts/My%20Font.otf\"/></enc:CipherData>\n\
        </enc:EncryptedData>\n\
        <EncryptedData Id=\"x\"><EncryptionMethod Algorithm='http://ns.adobe.com/pdf/enc#RC'/>\
        <CipherData><CipherReference URI='fonts/b.ttf'/></CipherData></EncryptedData>\n\
        <EncryptedData><EncryptionMethod Algorithm=\"other\"/>\
        <CipherData><CipherReference URI=\"c\"/></CipherData></EncryptedData>\n\
        <EncryptedData><EncryptionMethod Algorithm=\"http://www.idpf.org/2008/embedding\"/>\
        </EncryptedData>\n\
        </encryption>";
    let infos = parse_encryption_xml(content);
    let found: Vec<(String, ObfuscationAlgorithm)> =
        infos.iter().map(|i| (i.uri.clone(), i.algorithm)).collect();
    assert_eq!(
        found,
        vec![
            ("OEBPS/fonts/My Font.otf".to_string(), ObfuscationAlgorithm::Idpf),
            ("fonts/b.ttf".to_string(), ObfuscationAlgorithm::Adobe),
        ]
    );
    assert!(parse_encryption_xml("").is_empty());
    assert!(parse_encryption_xml("<EncryptedData>").is_empty());
}

#[test]
fn style_sheets_are_parted_and_their_references_replaced() {
    let resources = vec![
        resource(
            "OEBPS/css/s.css",
            "text/css",
            b"@font-face{font-family:F;src:url(../fonts/f.ttf)} p{background:url(../images/a.png)}",
        ),
        resource("OEBPS/css/bad.css", "text/css", &[b'p', 0xff, b'{', b'}']),
        resource("OEBPS/css/plain.css", "text/css", b"h1{}"),
        resource("OEBPS/a.txt", "text/plain", b"@font-face{}"),
    ];
    let images = named(&[("OEBPS/images/a.png", "data:IMG")]);
    let fonts = named(&[("OEBPS/fonts/f.ttf", "data:FONT")]);
    let (sheets, font_styles) = build_css_and_font_styles(&resources, &images, &fonts);
    assert_eq!(font_styles, "@font-face{font-family:F;src:url(\"data:FONT\")}\n");
    assert_eq!(
        listed(&sheets),
        owned(&[
            ("OEBPS/css/s.css", " p{background:url(\"data:IMG\")}"),
            ("s.css", " p{background:url(\"data:IMG\")}"),
            ("OEBPS/css/plain.css", "h1{}"),
            ("plain.css", "h1{}"),
        ])
    );
}

#[test]
fn the_id_of_a_book_is_picked() {
    let some = |s: &str| Some(s.to_string());
    assert_eq!(get_unique_identifier(&some("id"), &some("x")), some("id"));
    assert_eq!(get_unique_identifier(&some(""), &some("x")), some("x"));
    assert_eq!(get_unique_identifier(&None, &some("x")), some("x"));
    assert_eq!(get_unique_identifier(&some(""), &None), None);
    assert_eq!(get_unique_identifier(&None, &None), None);
}

#[test]
fn numbers_are_written_in_decimal() {
    assert_eq!(decimal_text(0), "0");
    assert_eq!(decimal_text(9), "9");
    assert_eq!(decimal_text(10), "10");
    assert_eq!(decimal_text(12345), "12345");
    assert_eq!(decimal_text(1_000_000), "1000000");
    assert_eq!(decimal_text(usize::MAX), usize::MAX.to_string());
}

fn chapter(path: Option<&str>, content: &str, mime: &str) -> SpineChapter {
    SpineChapter {
        path: path.map(|p| p.to_string()),
        content: content.to_string(),
        mime: mime.to_string(),
    }
}

#[test]
fn chapters_are_made_of_the_readable_items() {
    let spine = vec![
        chapter(Some("OEBPS/ch1.xhtml"), "<body>one</body>", "application/xhtml+xml"),
        chapter(Some("OEBPS/notes.txt"), "<body>skipped</body>", "text/plain"),
        chapter(None, "<body><img src=\"a.png\"/></body>", "text/html"),
        chapter(Some("OEBPS/ch3.xhtml"), "three", "text/xml"),
    ];
    let images = named(&[("a.png", "data:A")]);
    let titles = named(&[("OEBPS/ch1.xhtml", "One")]);
    let chapters = build_chapters(&spine, &images, &Vec::new(), &titles);
    let made: Vec<(String, String)> =
        chapters.iter().map(|c| (c.title.clone(), c.html.clone())).collect();
    assert_eq!(
        made,
        owned(&[
            ("One", "one"),
            ("Chapter 2", "<img src=\"data:A\"/>"),
            ("Chapter 3", "three"),
        ])
    );
}

#[test]
fn a_book_is_put_together() {
    let source = EpubSource {
        unique_identifier: Some(String::new()),
        identifier: Some("urn:x".to_string()),
        encryption_xml: None,
        resources: vec![
            resource("OEBPS/images/a.png", "image/png", b"hi"),
            resource(
                "OEBPS/css/s.css",
                "text/css",
                b"@font-face{src:url(../fonts/f.ttf)}p{color:red}",
            ),
            resource("OEBPS/fonts/f.ttf", "font/ttf", &[0xff, 0xfe, 0xfd]),
        ],
        toc: vec![NavPoint {
            label: "One".to_string(),
            content: "OEBPS/ch1.xhtml#top".to_string(),
            children: Vec::new(),
        }],
        spine: vec![
            chapter(
                Some("OEBPS/ch1.xhtml"),
                "<html><head><link rel=\"stylesheet\" href=\"css/s.css\"/></head><body><img src=\"images/a.png\"/></body></html>",
                "application/xhtml+xml",
            ),
            chapter(None, "<body>z</body>", "text/html"),
        ],
    };
    let book = parse_epub(&source).unwrap();
    assert_eq!(book.font_styles, "@font-face{src:url(\"data:font/ttf;base64,//79\")}\n");
    assert_eq!(book.total_chapters(), 2);
    assert_eq!(book.chapters[0].title, "One");
    assert_eq!(
        book.chapters[0].html,
        "<style>p{color:red}\n</style>\n<img src=\"data:image/png;base64,aGk=\"/>"
    );
    assert_eq!(book.chapters[1].title, "Chapter 2");
    assert_eq!(book.chapters[1].html, "z");
}

#[test]
fn a_book_without_chapters_is_none() {
    let mut source = EpubSource {
        unique_identifier: None,
        identifier: None,
        encryption_xml: Some("<x/>".to_string()),
        resources: Vec::new(),
        toc: Vec::new(),
        spine: vec![chapter(Some("a.png"), "", "image/png")],
    };
    assert_eq!(parse_epub(&source).err(), Some(BookError::NoReadableChapters));
    source.spine.clear();
    assert_eq!(parse_epub(&source).err(), Some(BookError::NoReadableChapters));
}
