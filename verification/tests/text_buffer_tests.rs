use simple_reader::search::{
    find_chars, replace_all_in_rope, replace_next, search_in_rope, SearchMatch,
};
use simple_reader::text_buffer::{decode_file, EditOperation, TextBuffer, MAX_UNDO};

fn places(found: &[SearchMatch]) -> Vec<(usize, usize, usize, usize, usize)> {
    found
        .iter()
        .map(|m| (m.line, m.char_start, m.char_end, m.line_char_start, m.line_char_end))
        .collect()
}

#[test]
fn buffer_starts_unmodified() {
    let b = TextBuffer::new();
    assert_eq!(b.to_string_full(), "");
    assert_eq!(b.get_total_chars(), 0);
    assert_eq!(b.get_total_lines(), 1);
    assert!(!b.is_modified);
    let b = TextBuffer::from_string("héllo\nwörld\n");
    assert_eq!(b.get_total_chars(), 12);
    assert_eq!(b.get_total_lines(), 3);
    assert_eq!(b.rope().len_chars(), 12);
    assert!(!b.is_modified);
    assert_eq!(MAX_UNDO, 100);
}

#[test]
fn chunks_are_lines_with_their_breaks() {
    let b = TextBuffer::from_string("one\ntwo\r\nthree");
    assert_eq!(b.get_chunk(0, 10), vec!["one\n", "two\r\n", "three"]);
    assert_eq!(b.get_chunk(1, 2), vec!["two\r\n"]);
    assert_eq!(b.get_chunk(2, 1), Vec::<String>::new());
    assert_eq!(b.get_chunk(7, 9), Vec::<String>::new());
    assert_eq!(TextBuffer::from_string("a\n").get_chunk(0, 5), vec!["a\n", ""]);
}

#[test]
fn insert_and_delete_can_be_undone_and_redone() {
    let mut b = TextBuffer::from_string("hello world");
    b.insert_text(5, ",");
    assert_eq!(b.to_string_full(), "hello, world");
    assert!(b.is_modified);
    b.delete_text(0, 7);
    assert_eq!(b.to_string_full(), "world");
    b.insert_text(999, "!");
    assert_eq!(b.to_string_full(), "world!");
    b.delete_text(3, 3);
    b.delete_text(4, 2);
    b.delete_text(100, 200);
    assert_eq!(b.to_string_full(), "world!");
    assert!(b.undo());
    assert_eq!(b.to_string_full(), "world");
    assert!(b.undo());
    assert_eq!(b.to_string_full(), "hello, world");
    assert!(b.is_modified);
    assert!(b.undo());
    assert_eq!(b.to_string_full(), "hello world");
    assert!(!b.is_modified);
    assert!(!b.undo());
    assert!(b.redo());
    assert_eq!(b.to_string_full(), "hello, world");
    assert!(b.is_modified);
    assert!(b.redo());
    assert!(b.redo());
    assert_eq!(b.to_string_full(), "world!");
    assert!(!b.redo());
    // A new edit forgets what could be made again.
    assert!(b.undo());
    b.insert_text(0, ">");
    assert!(!b.redo());
    assert_eq!(b.to_string_full(), ">world");
    b.delete_text(1, 99);
    assert_eq!(b.to_string_full(), ">");
}

#[test]
fn lines_are_replaced_without_their_breaks() {
    let mut b = TextBuffer::from_string("one\ntwo\r\nthree");
    assert!(b.replace_line(1, "TWO\n\r\n"));
    assert_eq!(b.to_string_full(), "one\nTWO\r\nthree");
    assert!(b.replace_line(2, ""));
    assert_eq!(b.to_string_full(), "one\nTWO\r\n");
    assert!(b.replace_line(0, "first line"));
    assert_eq!(b.to_string_full(), "first line\nTWO\r\n");
    assert!(b.replace_line(2, "end"));
    assert_eq!(b.to_string_full(), "first line\nTWO\r\nend");
    assert!(!b.replace_line(3, "none"));
    assert!(b.undo());
    assert!(b.undo());
    assert!(b.undo());
    assert_eq!(b.to_string_full(), "one\nTWO\r\nthree");
    assert!(b.redo());
    assert_eq!(b.to_string_full(), "one\nTWO\r\n");
    assert!(b.undo());
    assert!(b.undo());
    assert_eq!(b.to_string_full(), "one\ntwo\r\nthree");
    assert!(!b.is_modified);
}

#[test]
fn only_the_last_hundred_edits_can_be_undone() {
    let mut b = TextBuffer::new();
    for i in 0..150 {
        b.insert_text(i, "x");
    }
    assert_eq!(b.get_total_chars(), 150);
    for _ in 0..100 {
        assert!(b.undo());
    }
    assert!(!b.undo());
    assert_eq!(b.get_total_chars(), 50);
    assert!(!b.is_modified);
}

#[test]
fn whole_text_is_replaced_in_two_steps() {
    let mut b = TextBuffer::from_string("old text");
    b.replace_all("new");
    assert_eq!(b.to_string_full(), "new");
    assert!(b.is_modified);
    assert!(b.undo());
    assert_eq!(b.to_string_full(), "");
    assert!(b.undo());
    assert_eq!(b.to_string_full(), "old text");
    assert!(b.redo());
    assert!(b.redo());
    assert_eq!(b.to_string_full(), "new");
    b.mark_saved();
    assert!(!b.is_modified);
    assert!(!b.undo());
    assert!(!b.redo());
    assert_eq!(b.to_string_full(), "new");
    b.set_rope(ropey::Rope::from_str("swapped"));
    assert_eq!(b.to_string_full(), "swapped");
    let op = EditOperation::Insert { position: 1, text: "a".to_string() };
    assert!(matches!(op, EditOperation::Insert { position: 1, .. }));
}

#[test]
fn files_are_read_in_their_encoding() {
    assert_eq!(decode_file(b"plain"), "plain");
    assert_eq!(decode_file(&[0xEF, 0xBB, 0xBF, b'h', b'i']), "hi");
    assert_eq!(decode_file(&[0xEF, 0xBB]), decode_file(&[0xEF, 0xBB]));
    assert_eq!(decode_file("한글 텍스트".as_bytes()), "한글 텍스트");
    assert_eq!(decode_file(&[]), "");
    let korean = "안녕하세요. 이것은 한국어로 쓰여진 텍스트 파일입니다. 인코딩 감지를 시험합니다.";
    let (bytes, _, _) = encoding_rs::EUC_KR.encode(korean);
    assert_eq!(decode_file(&bytes), korean);
    let japanese = "これは日本語のテキストファイルです。エンコーディングの検出を試します。";
    let (bytes, _, _) = encoding_rs::SHIFT_JIS.encode(japanese);
    assert_eq!(decode_file(&bytes), japanese);
    let b = TextBuffer::from_bytes(&[0xEF, 0xBB, 0xBF, b'a', b'\n', b'b']);
    assert_eq!(b.to_string_full(), "a\nb");
    assert!(!b.is_modified);
}

#[test]
fn search_finds_every_match_line_by_line() {
    let rope = ropey::Rope::from_str("Hello hello\r\nHeLLo\nno\n");
    let found = search_in_rope(&rope, "hello", false);
    assert_eq!(
        places(&found),
        vec![(0, 0, 5, 0, 5), (0, 6, 11, 6, 11), (1, 13, 18, 0, 5)]
    );
    assert_eq!(found[0].context, "Hello hello");
    assert_eq!(found[2].context, "HeLLo");
    let found = search_in_rope(&rope, "hello", true);
    assert_eq!(places(&found), vec![(0, 6, 11, 6, 11)]);
    assert_eq!(search_in_rope(&rope, "", false).len(), 0);
    assert_eq!(search_in_rope(&rope, "xyz", false).len(), 0);
    assert_eq!(search_in_rope(&rope, "O\n", false).len(), 2);
}

#[test]
fn search_counts_places_in_utf16_units_too() {
    let rope = ropey::Rope::from_str("a\n😀 hi 😀hi\n");
    let found = search_in_rope(&rope, "hi", true);
    assert_eq!(places(&found), vec![(1, 4, 6, 3, 5), (1, 8, 10, 8, 10)]);
    let found = search_in_rope(&rope, "😀", true);
    assert_eq!(places(&found), vec![(1, 2, 3, 0, 2), (1, 7, 8, 6, 8)]);
}

#[test]
fn search_does_not_overlap_its_matches() {
    let rope = ropey::Rope::from_str("aaaaa");
    assert_eq!(
        places(&search_in_rope(&rope, "aa", true)),
        vec![(0, 0, 2, 0, 2), (0, 2, 4, 2, 4)]
    );
    let hay: Vec<char> = "abcabc".chars().collect();
    let needle: Vec<char> = "bc".chars().collect();
    assert_eq!(find_chars(&hay, &needle, 0), Some(1));
    assert_eq!(find_chars(&hay, &needle, 2), Some(4));
    assert_eq!(find_chars(&hay, &needle, 5), None);
    assert_eq!(find_chars(&hay, &needle, 99), None);
    assert_eq!(find_chars(&hay, &[], 6), Some(6));
    assert_eq!(find_chars(&hay, &[], 7), None);
}

#[test]
fn next_match_is_replaced() {
    let mut rope = ropey::Rope::from_str("hello hello");
    assert_eq!(replace_next(&mut rope, "l", "L", 3, true), Some(3));
    assert_eq!(rope.to_string(), "helLo hello");
    assert_eq!(replace_next(&mut rope, "HELLO", "bye", 1, false), Some(6));
    assert_eq!(rope.to_string(), "helLo bye");
    assert_eq!(replace_next(&mut rope, "helLo", "", 1, true), None);
    assert_eq!(replace_next(&mut rope, "", "x", 0, true), None);
    assert_eq!(replace_next(&mut rope, "bye", "x", 100, true), None);
    assert_eq!(rope.to_string(), "helLo bye");
    assert_eq!(replace_next(&mut rope, "é", "e", 0, true), None);
}

#[test]
fn all_matches_are_replaced() {
    let mut rope = ropey::Rope::from_str("a-a-a");
    assert_eq!(replace_all_in_rope(&mut rope, "a", "bb", true), 3);
    assert_eq!(rope.to_string(), "bb-bb-bb");
    assert_eq!(replace_all_in_rope(&mut rope, "BB-", "", false), 2);
    assert_eq!(rope.to_string(), "bb");
    assert_eq!(replace_all_in_rope(&mut rope, "x", "y", true), 0);
    assert_eq!(replace_all_in_rope(&mut rope, "", "y", true), 0);
    assert_eq!(rope.to_string(), "bb");
    let mut rope = ropey::Rope::from_str("aaa 한글 AAA");
    assert_eq!(replace_all_in_rope(&mut rope, "aa", "한", false), 2);
    assert_eq!(rope.to_string(), "한a 한글 한A");
}

fn decoded_as_a_detector_would(raw: &[u8]) -> String {
    let bytes = if raw.starts_with(&[0xEF, 0xBB, 0xBF]) { &raw[3..] } else { raw };
    match std::str::from_utf8(bytes) {
        Ok(s) => s.to_string(),
        Err(_) => {
            let mut detector = chardetng::EncodingDetector::new();
            detector.feed(bytes, true);
            let encoding = detector.guess(None, true);
            let (decoded, _, had_errors) = encoding.decode(bytes);
            if had_errors {
                let (decoded, _, _) = encoding_rs::Encoding::for_label(b"euc-kr")
                    .unwrap_or(encoding_rs::WINDOWS_1252)
                    .decode(bytes);
                decoded.into_owned()
            } else {
                decoded.into_owned()
            }
        }
    }
}

#[test]
fn broken_bytes_are_read_as_the_fallback_reads_them() {
    let inputs: Vec<Vec<u8>> = vec![
        vec![0xFF, 0xFE, 0x80, 0x81, b'a'],
        vec![0x80; 10],
        vec![0xC3, 0x28, b'x', 0xA0, 0xA1],
        vec![0xB0, 0xA1, 0xFF, 0xB0, 0xA2, 0x80, 0xC7, 0xD1],
        vec![0xEF, 0xBB, 0xBF, 0xB0, 0xA1, 0xB0],
        vec![0x82, 0xA0, 0x82, 0xFF, 0x00, 0x81],
        (0u8..=255).collect(),
    ];
    let mut fallback_seen = false;
    for raw in inputs.iter() {
        assert_eq!(decode_file(raw), decoded_as_a_detector_would(raw));
        let bytes = if raw.starts_with(&[0xEF, 0xBB, 0xBF]) { &raw[3..] } else { &raw[..] };
        let mut detector = chardetng::EncodingDetector::new();
        detector.feed(bytes, true);
        if detector.guess(None, true).decode(bytes).2 {
            fallback_seen = true;
        }
    }
    assert!(fallback_seen);
}
