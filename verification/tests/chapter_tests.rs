use simple_reader::chapter_html::{
    extract_body_content, extract_font_face_blocks, extract_head_styles,
    inline_linked_stylesheets, process_chapter_html, replace_css_urls, replace_image_sources,
};
use simple_reader::epub_reader::NamedText;
use simple_reader::text::{find_bytes, str_between, trim};

fn resources(items: &[(&str, &str)]) -> Vec<NamedText> {
    items
        .iter()
        .map(|(n, t)| NamedText { name: n.to_string(), text: t.to_string() })
        .collect()
}

#[test]
fn font_rules_are_parted_from_the_rest() {
    let css = "a{color:red}@font-face { font-family: X;\n src: url(f.ttf) }b{}@font-face{font-family:Y}";
    let (faces, rest) = extract_font_face_blocks(css);
    assert_eq!(faces, "@font-face { font-family: X;\n src: url(f.ttf) }\n@font-face{font-family:Y}");
    assert_eq!(rest, "a{color:red}b{}");
}

#[test]
fn a_sheet_without_font_rules_stays_whole() {
    let (faces, rest) = extract_font_face_blocks("/* é */ p { margin: 0 }");
    assert_eq!(faces, "");
    assert_eq!(rest, "/* é */ p { margin: 0 }");
    let (faces, rest) = extract_font_face_blocks("");
    assert_eq!(faces, "");
    assert_eq!(rest, "");
    let (faces, rest) = extract_font_face_blocks("@font-face{a:b}");
    assert_eq!(faces, "@font-face{a:b}");
    assert_eq!(rest, "");
}

#[test]
fn references_in_a_sheet_become_resources() {
    let map = resources(&[("OEBPS/css/img/a.png", "data:X")]);
    let css = "/* é */ a{background:url( 'img/a.png' )} b{background:url(data:image/png;base64,AA)} c{background:url(missing.gif)}";
    assert_eq!(
        replace_css_urls(css, "OEBPS/css/style.css", &map),
        "/* é */ a{background:url(\"data:X\")} b{background:url(data:image/png;base64,AA)} c{background:url(missing.gif)}"
    );
    assert_eq!(replace_css_urls("p{}", "x.css", &map), "p{}");
    assert_eq!(
        replace_css_urls("url(\"../css/img/a.png\")url(img/a.png)", "OEBPS/css/style.css", &map),
        "url(\"data:X\")url(\"data:X\")"
    );
}

#[test]
fn linked_sheets_are_put_in_place() {
    let sheets = resources(&[("OEBPS/css/s.css", "p{}")]);
    let html = "<head>é<LINK rel=\"stylesheet\" href=\"../css/s.css\"><link rel=\"icon\" href=\"../css/s.css\"><link rel='stylesheet' href='none.css'/></head>";
    assert_eq!(
        inline_linked_stylesheets(html, "OEBPS/text/ch1.xhtml", &sheets),
        "<head>é<style>p{}</style><link rel=\"icon\" href=\"../css/s.css\"><link rel='stylesheet' href='none.css'/></head>"
    );
    assert_eq!(
        inline_linked_stylesheets("<link rel=\"stylesheet\">", "a", &sheets),
        "<link rel=\"stylesheet\">"
    );
    assert_eq!(inline_linked_stylesheets("<p>x</p>", "a", &sheets), "<p>x</p>");
}

#[test]
fn references_to_images_become_images() {
    let map = resources(&[("OEBPS/img/a.png", "data:A")]);
    let html = "<img SRC='../img/a.png' alt=\"é\"><image xlink:href=\"b.gif\"/><img src=\"data:zz\">";
    assert_eq!(
        replace_image_sources(html, "OEBPS/text/ch1.xhtml", &map),
        "<img SRC='data:A' alt=\"é\"><image xlink:href=\"b.gif\"/><img src=\"data:zz\">"
    );
    assert_eq!(
        replace_image_sources("<img src = \"../img/a.png\">", "OEBPS/text/ch1.xhtml", &map),
        "<img src = \"data:A\">"
    );
    assert_eq!(replace_image_sources("", "a", &map), "");
}

#[test]
fn the_body_is_cut_out() {
    assert_eq!(
        extract_body_content("<html><BODY class=\"x\">\n  <p>Hé</p>\n</Body></html>"),
        "<p>Hé</p>"
    );
    assert_eq!(extract_body_content("<p>no body</p>"), "<p>no body</p>");
    assert_eq!(extract_body_content("<body> open end "), "open end");
    assert_eq!(extract_body_content("<body"), "<body");
    assert_eq!(extract_body_content("<body></body>"), "");
    assert_eq!(extract_body_content(""), "");
}

#[test]
fn the_body_is_found_in_the_lower_case_copy() {
    // The capital dotted I grows by a byte in lower case: the closing tag is
    // found one byte later than it stands.
    assert_eq!(extract_body_content("\u{130}<body>é</body>"), "é<");
    // The Kelvin sign shrinks: the opening tag is found inside the sign.
    assert_eq!(extract_body_content("\u{212A}<body>x</body>"), "\u{212A}<body>x</body>");
    // The closing tag before the content.
    assert_eq!(extract_body_content("</body><body>x"), "</body><body>x");
}

#[test]
fn the_styles_are_collected() {
    assert_eq!(
        extract_head_styles("<style>a{}</style><p/><STYLE type=\"text/css\">b{é}</STYLE><style>c"),
        "a{}\nb{é}\n"
    );
    assert_eq!(extract_head_styles("<p>none</p>"), "");
    assert_eq!(extract_head_styles("<style"), "");
    assert_eq!(extract_head_styles("<style></style>"), "\n");
    assert_eq!(extract_head_styles("\u{212A}<style>x</style>"), "");
}

#[test]
fn a_chapter_is_made_ready() {
    let images = resources(&[("OEBPS/a.png", "data:A")]);
    let sheets = resources(&[("OEBPS/s.css", "h1{}")]);
    let html = "<html><head><link rel=\"stylesheet\" href=\"s.css\"/><style>@font-face{font-family:F} p{background:url(a.png)}</style></head><body> <img src=\"a.png\"/> </body></html>";
    assert_eq!(
        process_chapter_html(html, "OEBPS/ch1.xhtml", &images, &sheets),
        "<style>h1{}\n p{background:url(\"data:A\")}\n</style>\n<img src=\"data:A\"/>"
    );
    assert_eq!(
        process_chapter_html("<body><p>x</p></body>", "OEBPS/ch1.xhtml", &images, &sheets),
        "<p>x</p>"
    );
    assert_eq!(
        process_chapter_html("<style> </style><body>y</body>", "c", &images, &sheets),
        "y"
    );
}

#[test]
fn pieces_are_cut_at_character_boundaries() {
    assert_eq!(str_between("aé€b", 1, 3), Some("é".to_string()));
    assert_eq!(str_between("aé€b", 0, 7), Some("aé€b".to_string()));
    assert_eq!(str_between("aé€b", 3, 3), Some(String::new()));
    assert_eq!(str_between("aé€b", 2, 3), None);
    assert_eq!(str_between("aé€b", 1, 4), None);
    assert_eq!(str_between("aé€b", 3, 1), None);
    assert_eq!(str_between("aé€b", 0, 8), None);
}

#[test]
fn bytes_are_found_from_a_place_on() {
    assert_eq!(find_bytes(b"abcabc", b"bc", 0), Some(1));
    assert_eq!(find_bytes(b"abcabc", b"bc", 2), Some(4));
    assert_eq!(find_bytes(b"abcabc", b"bc", 5), None);
    assert_eq!(find_bytes(b"abcabc", b"", 6), Some(6));
    assert_eq!(find_bytes(b"abcabc", b"", 7), None);
    assert_eq!(find_bytes(b"ab", b"abc", 0), None);
    assert_eq!(find_bytes(b"", b"", 0), Some(0));
}

#[test]
fn white_space_leaves_both_ends() {
    assert_eq!(trim("  a b \n"), "a b");
    assert_eq!(trim("\u{3000}é\u{a0}"), "é");
    assert_eq!(trim(" \t\r\n"), "");
    assert_eq!(trim(""), "");
    assert_eq!(trim("x"), "x");
    assert_eq!(trim("\u{200b}x"), "\u{200b}x");
}

#[test]
fn trimming_agrees_with_the_standard_library() {
    let mut code: u32 = 0;
    while code <= 0x10FFFF {
        if let Some(c) = char::from_u32(code) {
            let text = format!("{}a{}", c, c);
            assert_eq!(trim(&text), text.trim(), "U+{:04X}", code);
        }
        code += 1;
    }
}
