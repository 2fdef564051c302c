use simple_reader::formatter::{
    add_sentence_breaks, apply_format, compress_blank_lines, line_is_blank, remove_blank_lines,
    FormatError,
};

#[test]
fn sentences_get_line_breaks() {
    assert_eq!(
        add_sentence_breaks("Hello. World! Yes?  No. end."),
        "Hello.\nWorld!\nYes?  No.\nend."
    );
    assert_eq!(add_sentence_breaks("Hi. "), "Hi. ");
    assert_eq!(add_sentence_breaks("Hi."), "Hi.");
    assert_eq!(add_sentence_breaks(""), "");
    assert_eq!(add_sentence_breaks("3.14 is pi.\tNext"), "3.14 is pi.\tNext");
    assert_eq!(add_sentence_breaks("A. \u{3000}B"), "A. \u{3000}B");
    assert_eq!(add_sentence_breaks("가. 나? 다"), "가.\n나?\n다");
    assert_eq!(add_sentence_breaks("a.. b"), "a..\nb");
    assert_eq!(add_sentence_breaks("a. . b"), "a.\n.\nb");
}

#[test]
fn blank_lines_are_compressed() {
    assert_eq!(compress_blank_lines("a\n\n\n\nb\n \nc"), "a\n\nb\n\nc");
    assert_eq!(compress_blank_lines("a\nb"), "a\nb");
    assert_eq!(compress_blank_lines("\n\nx"), "\nx");
    assert_eq!(compress_blank_lines("a\n"), "a\n\n");
    assert_eq!(compress_blank_lines(""), "\n");
    assert_eq!(compress_blank_lines("a\n\t \n\u{3000}\nb"), "a\n\nb");
    assert_eq!(compress_blank_lines(" x \n\n y"), " x \n\n y");
}

#[test]
fn blank_lines_are_removed() {
    assert_eq!(remove_blank_lines("a\n\n b \n\t\nc\n"), "a\n b \nc");
    assert_eq!(remove_blank_lines(""), "");
    assert_eq!(remove_blank_lines("\n\n"), "");
    assert_eq!(remove_blank_lines("\nonly"), "only");
    assert_eq!(remove_blank_lines("a\r\n\r\nb"), "a\r\nb");
}

#[test]
fn blank_means_nothing_but_white_space() {
    assert!(line_is_blank(&[]));
    assert!(line_is_blank(&[' ', '\t', '\r', '\u{3000}', '\u{00A0}']));
    assert!(!line_is_blank(&[' ', 'x']));
    assert!(!line_is_blank(&['\u{200B}']));
}

#[test]
fn formats_are_chosen_by_name() {
    assert_eq!(apply_format("A. b", "sentence_breaks").unwrap(), "A.\nb");
    assert_eq!(apply_format("a\n\n\nb", "compress_blank_lines").unwrap(), "a\n\nb");
    assert_eq!(apply_format("a\n\n\nb", "remove_blank_lines").unwrap(), "a\nb");
    match apply_format("a", "upper") {
        Err(FormatError::UnknownFormat(name)) => assert_eq!(name, "upper"),
        _ => panic!("an unknown format is refused"),
    }
    let e = apply_format("a", "").unwrap_err();
    assert_eq!(e.message(), "Unknown format type: ");
    assert_eq!(
        apply_format("a", "Sentence_Breaks").unwrap_err().message(),
        "Unknown format type: Sentence_Breaks"
    );
}
