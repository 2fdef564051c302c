use simple_reader::epub_reader::{EpubBook, EpubChapter};
use simple_reader::sorting::{
    compare_chunks, compare_keys, compare_text, sort_by_key, stable_sort, Keyed, Order, SortChunk,
};
use simple_reader::text::{
    chars_contain, chars_end_with, chars_of, is_ascii_digit, split_chars, str_eq, string_of,
};

fn chars(s: &str) -> Vec<char> {
    s.chars().collect()
}

fn keyed(key: u64, value: &str) -> Keyed {
    Keyed { key: vec![SortChunk::Num(key)], value: value.to_string() }
}

#[test]
fn book_gives_its_chapters() {
    let book = EpubBook {
        font_styles: "@font-face {}".to_string(),
        chapters: vec![
            EpubChapter { title: "One".to_string(), html: "<p>1</p>".to_string() },
            EpubChapter { title: "Two".to_string(), html: "<p>2</p>".to_string() },
        ],
    };
    assert_eq!(book.total_chapters(), 2);
    let infos = book.get_chapter_infos();
    assert_eq!(infos.len(), 2);
    assert_eq!((infos[0].index, infos[0].title.as_str()), (0, "One"));
    assert_eq!((infos[1].index, infos[1].title.as_str()), (1, "Two"));
    assert_eq!(book.get_chapter_html(1), Some("<p>2</p>".to_string()));
    assert_eq!(book.get_chapter_html(2), None);
    let empty = EpubBook { font_styles: String::new(), chapters: Vec::new() };
    assert_eq!(empty.total_chapters(), 0);
    assert_eq!(empty.get_chapter_infos().len(), 0);
    assert_eq!(empty.get_chapter_html(0), None);
}

#[test]
fn texts_compare_by_code_point() {
    assert_eq!(compare_text(&chars("abc"), &chars("abd")), Order::Less);
    assert_eq!(compare_text(&chars("abc"), &chars("ab")), Order::Greater);
    assert_eq!(compare_text(&chars(""), &chars("")), Order::Equal);
    assert_eq!(compare_text(&chars(""), &chars("a")), Order::Less);
    assert_eq!(compare_text(&chars("Z"), &chars("a")), Order::Less);
    assert_eq!(compare_text(&chars("é"), &chars("z")), Order::Greater);
    assert_eq!(compare_text(&chars("\u{FFFF}"), &chars("\u{10000}")), Order::Less);
    for (a, b) in [("abc", "abd"), ("", "x"), ("é", "z"), ("same", "same"), ("\u{FFFF}", "\u{10000}")] {
        let expected = match a.cmp(b) {
            std::cmp::Ordering::Less => Order::Less,
            std::cmp::Ordering::Equal => Order::Equal,
            std::cmp::Ordering::Greater => Order::Greater,
        };
        assert_eq!(compare_text(&chars(a), &chars(b)), expected);
    }
}

#[test]
fn chunks_and_keys_compare() {
    let t = |s: &str| SortChunk::Text(chars(s));
    assert_eq!(compare_chunks(&SortChunk::Num(2), &SortChunk::Num(10)), Order::Less);
    assert_eq!(compare_chunks(&SortChunk::Num(2), &SortChunk::Num(2)), Order::Equal);
    assert_eq!(compare_chunks(&t("z"), &SortChunk::Num(0)), Order::Less);
    assert_eq!(compare_chunks(&SortChunk::Num(0), &t("")), Order::Greater);
    assert_eq!(compare_chunks(&t("a"), &t("b")), Order::Less);
    assert_eq!(compare_keys(&vec![t("a"), SortChunk::Num(1)], &vec![t("a")]), Order::Greater);
    assert_eq!(compare_keys(&vec![], &vec![]), Order::Equal);
    assert_eq!(
        compare_keys(&vec![t("a"), SortChunk::Num(1)], &vec![t("a"), SortChunk::Num(2)]),
        Order::Less
    );
}

#[test]
fn sort_is_stable() {
    let items = vec![
        keyed(2, "b1"),
        keyed(1, "a1"),
        keyed(2, "b2"),
        keyed(0, "z"),
        keyed(1, "a2"),
        keyed(2, "b3"),
    ];
    assert_eq!(sort_by_key(items), vec!["z", "a1", "a2", "b1", "b2", "b3"]);
    assert_eq!(sort_by_key(Vec::new()), Vec::<String>::new());
    let sorted = stable_sort(vec![keyed(3, "c"), keyed(1, "a"), keyed(2, "b")]);
    let values: Vec<&str> = sorted.iter().map(|k| k.value.as_str()).collect();
    assert_eq!(values, vec!["a", "b", "c"]);
}

#[test]
fn text_is_cut_at_separators() {
    let pieces = |s: &str| -> Vec<String> {
        split_chars(&chars(s), '/').iter().map(|p| p.iter().collect()).collect()
    };
    assert_eq!(pieces("a/b/c"), vec!["a", "b", "c"]);
    assert_eq!(pieces(""), vec![""]);
    assert_eq!(pieces("/"), vec!["", ""]);
    assert_eq!(pieces("a//b/"), vec!["a", "", "b", ""]);
    assert_eq!(pieces("abc"), vec!["abc"]);
    for s in ["a/b/c", "", "/", "a//b/", "//", "no"] {
        let expected: Vec<String> = s.split('/').map(|p| p.to_string()).collect();
        assert_eq!(pieces(s), expected);
    }
}

#[test]
fn text_helpers_agree_with_the_standard_library() {
    assert_eq!(chars_of("héllo"), chars("héllo"));
    assert_eq!(string_of(&chars("héllo")), "héllo");
    assert!(str_eq("a", "a"));
    assert!(!str_eq("a", "A"));
    assert!(chars_end_with(&chars("photo.png"), &chars(".png")));
    assert!(!chars_end_with(&chars("png"), &chars(".png")));
    assert!(chars_end_with(&chars("x"), &chars("")));
    assert!(chars_contain(&chars("hello world"), &chars("o w")));
    assert!(chars_contain(&chars("hello"), &chars("")));
    assert!(chars_contain(&chars(""), &chars("")));
    assert!(!chars_contain(&chars("hello"), &chars("hello!")));
    assert!(!chars_contain(&chars("aab"), &chars("abb")));
    assert!(chars_contain(&chars("aab"), &chars("ab")));
    assert!(is_ascii_digit('0') && is_ascii_digit('9'));
    assert!(!is_ascii_digit('a') && !is_ascii_digit('\u{0663}') && !is_ascii_digit('/'));
}

#[test]
fn white_space_is_the_listed_set() {
    let mut code: u32 = 0;
    while code <= 0x10FFFF {
        if let Some(c) = char::from_u32(code) {
            let listed = (0x09..=0x0D).contains(&code)
                || code == 0x20
                || code == 0x85
                || code == 0xA0
                || code == 0x1680
                || (0x2000..=0x200A).contains(&code)
                || code == 0x2028
                || code == 0x2029
                || code == 0x202F
                || code == 0x205F
                || code == 0x3000;
            assert_eq!(c.is_whitespace(), listed, "U+{:04X}", code);
        }
        code += 1;
    }
}

#[test]
fn many_items_are_sorted_as_a_stable_sort_sorts_them() {
    let mut seed: u64 = 12345;
    let mut pairs: Vec<(u64, String)> = Vec::new();
    for i in 0..5000u32 {
        seed = seed.wrapping_mul(6364136223846793005).wrapping_add(1442695040888963407);
        pairs.push(((seed >> 33) % 97, format!("v{}", i)));
    }
    let items: Vec<Keyed> = pairs.iter().map(|(k, v)| keyed(*k, v)).collect();
    let mut expected = pairs.clone();
    expected.sort_by(|a, b| a.0.cmp(&b.0));
    let expected: Vec<String> = expected.into_iter().map(|(_, v)| v).collect();
    assert_eq!(sort_by_key(items), expected);
}

#[test]
fn sorted_and_reversed_items_are_sorted() {
    let up: Vec<Keyed> = (0..300u64).map(|k| keyed(k, &k.to_string())).collect();
    let down: Vec<Keyed> = (0..300u64).rev().map(|k| keyed(k, &k.to_string())).collect();
    let expected: Vec<String> = (0..300u64).map(|k| k.to_string()).collect();
    assert_eq!(sort_by_key(up), expected);
    assert_eq!(sort_by_key(down), expected);
    assert_eq!(sort_by_key(vec![keyed(7, "one")]), vec!["one"]);
}
