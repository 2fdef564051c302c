//! Text formats: line breaks after sentences, and blank lines compressed
//! or removed.

use vstd::prelude::*;

use crate::outside::whitespace;
use crate::text::{chars_of, push_chars, split, split_chars, str_eq, texts_of};

verus! {

/// Whether `c` ends a sentence.
pub open spec fn is_terminator(c: char) -> bool {
    c == '.' || c == '?' || c == '!'
}

/// The text from `i` on with a line break after each sentence: a `.`, `?`
/// or `!` that is followed by one space and then by a character that is no
/// white space keeps its place, and the space behind it becomes a line
/// break.
pub open spec fn breaks_from(s: Seq<char>, i: int) -> Seq<char>
    decreases s.len() - i,
{
    if i < 0 || i >= s.len() {
        Seq::empty()
    } else if is_terminator(s[i]) && i + 2 < s.len() && s[i + 1] == ' ' && !whitespace(s[i + 2]) {
        seq![s[i], '\n'] + breaks_from(s, i + 2)
    } else {
        seq![s[i]] + breaks_from(s, i + 1)
    }
}

/// The text with a line break after each sentence.
pub open spec fn with_sentence_breaks(s: Seq<char>) -> Seq<char> {
    breaks_from(s, 0)
}

/// Puts a line break after each sentence end that is followed by a space
/// and another character.
pub fn add_sentence_breaks(text: &str) -> (result: String)
    ensures
        result@ == with_sentence_breaks(text@),
{
    let chars = chars_of(text);
    let len = chars.len();
    let mut result = String::new();
    let mut i: usize = 0;
    assert(Seq::<char>::empty() + breaks_from(chars@, 0) =~= breaks_from(chars@, 0));
    while i < len
        invariant
            len == chars@.len(),
            chars@ == text@,
            i <= len,
            result@ + breaks_from(chars@, i as int) == with_sentence_breaks(text@),
        decreases len - i,
    {
        let ch = chars[i];
        let ghost before = result@;
        result.push(ch);
        if (ch == '.' || ch == '?' || ch == '!') && len - i > 2 && chars[i + 1] == ' '
            && !chars[i + 2].is_whitespace() {
            result.push('\n');
            proof {
                let rest = breaks_from(chars@, i + 2);
                assert(before + (seq![ch, '\n'] + rest) =~= before.push(ch).push('\n') + rest);
            }
            i = i + 2;
        } else {
            proof {
                let rest = breaks_from(chars@, i + 1);
                assert(before + (seq![ch] + rest) =~= before.push(ch) + rest);
            }
            i = i + 1;
        }
    }
    assert(result@ + Seq::<char>::empty() =~= result@);
    result
}

/// Whether a line is blank: it holds nothing but white space.
pub open spec fn is_blank(line: Seq<char>) -> bool {
    forall|i: int| 0 <= i < line.len() ==> whitespace(#[trigger] line[i])
}

/// Whether a line is blank.
pub fn line_is_blank(line: &[char]) -> (b: bool)
    ensures
        b == is_blank(line@),
{
    let n = line.len();
    let mut i: usize = 0;
    while i < n
        invariant
            n == line@.len(),
            i <= n,
            forall|j: int| 0 <= j < i ==> whitespace(#[trigger] line@[j]),
        decreases n - i,
    {
        if !line[i].is_whitespace() {
            return false;
        }
        i = i + 1;
    }
    true
}

/// One line break, or nothing.
pub open spec fn break_if(wanted: bool) -> Seq<char> {
    if wanted {
        seq!['\n']
    } else {
        Seq::empty()
    }
}

/// The lines from `i` on with each run of blank lines made one empty line.
/// `prev_blank` says whether the line before was blank, `first` whether
/// line `i` is the first of the text. A run of blank lines gives one line
/// break more than separates the lines around it; a run at the very start
/// gives a single line break.
pub open spec fn compressed_from(lines: Seq<Seq<char>>, i: int, prev_blank: bool, first: bool) -> Seq<
    char,
>
    decreases lines.len() - i,
{
    if i < 0 || i >= lines.len() {
        Seq::empty()
    } else if is_blank(lines[i]) {
        if prev_blank {
            compressed_from(lines, i + 1, true, false)
        } else {
            break_if(!first) + seq!['\n'] + compressed_from(lines, i + 1, true, false)
        }
    } else {
        break_if(!first && !prev_blank) + lines[i] + compressed_from(lines, i + 1, false, false)
    }
}

/// The text with each run of blank lines made one empty line.
pub open spec fn blank_lines_compressed(s: Seq<char>) -> Seq<char> {
    compressed_from(split(s, '\n'), 0, false, true)
}

/// Compresses several blank lines in a row into a single blank line.
pub fn compress_blank_lines(text: &str) -> (result: String)
    ensures
        result@ == blank_lines_compressed(text@),
{
    let chars = chars_of(text);
    let lines = split_chars(chars.as_slice(), '\n');
    let ghost all = texts_of(lines@);
    let n = lines.len();
    let mut result = String::new();
    let mut prev_was_blank = false;
    let mut first = true;
    let mut i: usize = 0;
    assert(Seq::<char>::empty() + compressed_from(all, 0, false, true) =~= compressed_from(
        all,
        0,
        false,
        true,
    ));
    while i < n
        invariant
            n == lines@.len(),
            all == texts_of(lines@),
            all == split(text@, '\n'),
            i <= n,
            result@ + compressed_from(all, i as int, prev_was_blank, first)
                == blank_lines_compressed(text@),
        decreases n - i,
    {
        let line = lines[i].as_slice();
        assert(all[i as int] == line@);
        let ghost before = result@;
        let ghost rest = compressed_from(all, i + 1, true, false);
        let ghost rest_text = compressed_from(all, i + 1, false, false);
        if line_is_blank(line) {
            if !prev_was_blank {
                if !first {
                    result.push('\n');
                }
                result.push('\n');
                proof {
                    assert(before + (break_if(!first) + seq!['\n'] + rest) =~= result@ + rest);
                }
                prev_was_blank = true;
            }
        } else {
            if !first && !prev_was_blank {
                result.push('\n');
            }
            push_chars(&mut result, line);
            proof {
                assert(before + (break_if(!first && !prev_was_blank) + line@ + rest_text)
                    =~= result@ + rest_text);
            }
            prev_was_blank = false;
        }
        first = false;
        i = i + 1;
    }
    assert(result@ + Seq::<char>::empty() =~= result@);
    result
}

/// The lines from `i` on that are not blank, each on a line of its own.
/// `first` says whether no line was kept before.
pub open spec fn kept_from(lines: Seq<Seq<char>>, i: int, first: bool) -> Seq<char>
    decreases lines.len() - i,
{
    if i < 0 || i >= lines.len() {
        Seq::empty()
    } else if is_blank(lines[i]) {
        kept_from(lines, i + 1, first)
    } else {
        break_if(!first) + lines[i] + kept_from(lines, i + 1, false)
    }
}

/// The text without its blank lines.
pub open spec fn blank_lines_removed(s: Seq<char>) -> Seq<char> {
    kept_from(split(s, '\n'), 0, true)
}

/// Removes all blank lines from the text.
pub fn remove_blank_lines(text: &str) -> (result: String)
    ensures
        result@ == blank_lines_removed(text@),
{
    let chars = chars_of(text);
    let lines = split_chars(chars.as_slice(), '\n');
    let ghost all = texts_of(lines@);
    let n = lines.len();
    let mut result = String::new();
    let mut first = true;
    let mut i: usize = 0;
    assert(Seq::<char>::empty() + kept_from(all, 0, true) =~= kept_from(all, 0, true));
    while i < n
        invariant
            n == lines@.len(),
            all == texts_of(lines@),
            all == split(text@, '\n'),
            i <= n,
            result@ + kept_from(all, i as int, first) == blank_lines_removed(text@),
        decreases n - i,
    {
        let line = lines[i].as_slice();
        assert(all[i as int] == line@);
        if !line_is_blank(line) {
            let ghost before = result@;
            let ghost rest = kept_from(all, i + 1, false);
            if !first {
                result.push('\n');
            }
            push_chars(&mut result, line);
            proof {
                assert(before + (break_if(!first) + line@ + rest) =~= result@ + rest);
            }
            first = false;
        }
        i = i + 1;
    }
    assert(result@ + Seq::<char>::empty() =~= result@);
    result
}

/// Why a text was not formatted.
#[derive(Debug)]
pub enum FormatError {
    /// No format of this name is known.
    UnknownFormat(String),
}

impl FormatError {
    /// The text shown for this error.
    pub fn message(&self) -> (text: String)
        ensures
            match self {
                FormatError::UnknownFormat(name) => text@ == "Unknown format type: "@ + name@,
            },
    {
        match self {
            FormatError::UnknownFormat(name) => {
                let mut text = "Unknown format type: ".to_owned();
                vstd::string::StringExecFns::append(&mut text, name.as_str());
                text
            },
        }
    }
}

/// What the format called `format_type` makes of `text`, or `None` where
/// no format has that name.
pub open spec fn formatted(text: Seq<char>, format_type: Seq<char>) -> Option<Seq<char>> {
    if format_type == "sentence_breaks"@ {
        Some(with_sentence_breaks(text))
    } else if format_type == "compress_blank_lines"@ {
        Some(blank_lines_compressed(text))
    } else if format_type == "remove_blank_lines"@ {
        Some(blank_lines_removed(text))
    } else {
        None
    }
}

/// Applies the format called `format_type` to `text`.
pub fn apply_format(text: &str, format_type: &str) -> (res: Result<String, FormatError>)
    ensures
        match res {
            Ok(result) => formatted(text@, format_type@) == Some(result@),
            Err(FormatError::UnknownFormat(name)) => formatted(text@, format_type@) is None
                && name@ == format_type@,
        },
{
    if str_eq(format_type, "sentence_breaks") {
        Ok(add_sentence_breaks(text))
    } else if str_eq(format_type, "compress_blank_lines") {
        Ok(compress_blank_lines(text))
    } else if str_eq(format_type, "remove_blank_lines") {
        Ok(remove_blank_lines(text))
    } else {
        Err(FormatError::UnknownFormat(format_type.to_owned()))
    }
}

} // verus!
