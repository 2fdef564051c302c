//! Everything this crate takes from other crates, and from the parts of the
//! standard library that have no specification yet. The contracts in this
//! file are believed, not proved.

use vstd::prelude::*;
use vstd::utf8::{decode_utf8, encode_utf8, is_char_boundary, valid_utf8};

verus! {

// ── archives ────────────────────────────────────────────────────────

/// `memmap2::Mmap`, a read-only memory mapping of a file. Its bytes are
/// whatever the file holds when they are read, so nothing is stated about
/// them.
#[verifier::external_type_specification]
#[verifier::external_body]
pub struct ExMmap(memmap2::Mmap);

/// `encoding_rs::Encoding`, one of the character encodings that the crate
/// knows. A value of it is only handed from the detector to the decoder.
#[verifier::external_type_specification]
#[verifier::external_body]
pub struct ExEncoding(encoding_rs::Encoding);

/// The bytes that `flate2`'s raw DEFLATE decoder produces for a complete
/// compressed stream, or `None` where it reports an error.
pub uninterp spec fn inflated(compressed: Seq<u8>) -> Option<Seq<u8>>;

/// The encoding that `chardetng` guesses for a finished byte stream, with no
/// top-level domain given and UTF-8 allowed.
pub uninterp spec fn guessed_encoding(stream: Seq<u8>) -> &'static encoding_rs::Encoding;

/// What `encoding_rs` makes of `bytes` in the given encoding: the text,
/// malformed sequences replaced, and whether there were any.
pub uninterp spec fn decoding(encoding: &encoding_rs::Encoding, bytes: Seq<u8>) -> (
    Seq<char>,
    bool,
);

/// The encoding that `encoding_rs` knows under a label, if it knows one.
pub uninterp spec fn labelled_encoding(label: Seq<u8>) -> Option<&'static encoding_rs::Encoding>;

// ── names in other encodings ─────────────────────────────────────────

/// The text that `String::from_utf8_lossy` makes of `bytes`: each malformed
/// sequence replaced by U+FFFD.
pub uninterp spec fn lossy_utf8(bytes: Seq<u8>) -> Seq<char>;

/// `std::str::from_utf8`: claims that it succeeds exactly on well-formed
/// UTF-8.
#[verifier::external_body]
pub(crate) fn is_utf8(bytes: &[u8]) -> (ok: bool)
    ensures
        ok == valid_utf8(bytes@),
{
    std::str::from_utf8(bytes).is_ok()
}

/// `String::from_utf8_lossy`: claims that the text depends on the bytes
/// alone, and that it is their exact decoding where they are well-formed.
#[verifier::external_body]
pub(crate) fn utf8_lossy(bytes: &[u8]) -> (text: String)
    ensures
        text@ == lossy_utf8(bytes@),
        valid_utf8(bytes@) ==> text@ == decode_utf8(bytes@),
{
    String::from_utf8_lossy(bytes).into_owned()
}

/// `Deref` of `memmap2::Mmap`: the mapped bytes as they are now. Nothing
/// is claimed of them.
#[verifier::external_body]
pub(crate) fn mapped_bytes(map: &memmap2::Mmap) -> (bytes: &[u8]) {
    &map[..]
}

/// `flate2::read::DeflateDecoder::new` over the compressed bytes, read
/// with `read_to_end` into the empty buffer `out`. Claims that the outcome
/// depends on the compressed bytes alone: the decoded bytes, or `None`
/// where the decoder reports an error.
#[verifier::external_body]
pub(crate) fn inflate(compressed: &[u8], out: Vec<u8>) -> (res: Option<Vec<u8>>)
    requires
        out@.len() == 0,
    ensures
        res is Some <==> inflated(compressed@) is Some,
        res is Some ==> res->0@ == inflated(compressed@)->0,
{
    let mut out = out;
    let mut decoder = flate2::read::DeflateDecoder::new(compressed);
    match std::io::Read::read_to_end(&mut decoder, &mut out) {
        Ok(_) => Some(out),
        Err(_) => None,
    }
}

/// `chardetng::EncodingDetector::new`, `feed` with the whole stream as its
/// last chunk, then `guess` with no top-level domain and UTF-8 allowed.
/// Claims that the guess depends on the bytes of the stream alone; the
/// crate documents that it does not matter how a stream is cut into
/// chunks.
#[verifier::external_body]
pub(crate) fn guess_encoding(stream: &[u8]) -> (encoding: &'static encoding_rs::Encoding)
    ensures
        encoding == guessed_encoding(stream@),
{
    let mut detector = chardetng::EncodingDetector::new();
    detector.feed(stream, true);
    detector.guess(None, true)
}

/// `encoding_rs::Encoding::decode`: the text that the bytes decode to, and
/// whether they held malformed sequences. Claims that both depend on the
/// encoding and the bytes alone. The crate panics where the size of its
/// buffer overflows, which takes more bytes than are let in here.
#[verifier::external_body]
pub(crate) fn decode_text(encoding: &'static encoding_rs::Encoding, bytes: &[u8]) -> (res: (
    String,
    bool,
))
    requires
        bytes@.len() <= usize::MAX / 8,
    ensures
        (res.0@, res.1) == decoding(encoding, bytes@),
{
    let (text, _, had_errors) = encoding.decode(bytes);
    (text.into_owned(), had_errors)
}

/// `encoding_rs::Encoding::for_label`: the encoding of that label. Claims
/// that it depends on the label alone.
#[verifier::external_body]
pub(crate) fn encoding_for_label(label: &[u8]) -> (encoding: Option<
    &'static encoding_rs::Encoding,
>)
    ensures
        encoding == labelled_encoding(label@),
{
    encoding_rs::Encoding::for_label(label)
}

/// `encoding_rs::WINDOWS_1252`: the encoding that the crate keeps under
/// that name. Nothing is claimed of it.
#[verifier::external_body]
pub(crate) fn windows_1252() -> (encoding: &'static encoding_rs::Encoding) {
    encoding_rs::WINDOWS_1252
}

// ── text ────────────────────────────────────────────────────────────

/// `String::push`: claims that the character is appended.
pub assume_specification[ String::push ](s: &mut String, ch: char)
    ensures
        final(s)@ == old(s)@.push(ch),
;

/// The lower case of a text as `str::to_lowercase` gives it: by the Unicode
/// character database, the same in every locale.
pub uninterp spec fn lowercased(s: Seq<char>) -> Seq<char>;

/// `str::to_lowercase`: claims that the result depends on the text alone.
pub assume_specification[ str::to_lowercase ](s: &str) -> (lower: String)
    ensures
        lower@ == lowercased(s@),
;

/// Whether a character has the Unicode property `White_Space`: the
/// controls from tab to carriage return, the space, the next-line control,
/// the no-break space, the Ogham space mark, the spaces of fixed width, the
/// line and the paragraph separator, the narrow no-break space, the medium
/// mathematical space and the ideographic space.
pub open spec fn whitespace(c: char) -> bool {
    let code = c as u32;
    ||| 0x09 <= code <= 0x0D
    ||| code == 0x20
    ||| code == 0x85
    ||| code == 0xA0
    ||| code == 0x1680
    ||| 0x2000 <= code <= 0x200A
    ||| code == 0x2028
    ||| code == 0x2029
    ||| code == 0x202F
    ||| code == 0x205F
    ||| code == 0x3000
}

/// `char::is_whitespace`: claims that it is true of exactly the characters
/// with the property `White_Space`.
pub assume_specification[ char::is_whitespace ](c: char) -> (b: bool)
    ensures
        b == whitespace(c),
;

// ── paths ───────────────────────────────────────────────────────────

/// The last component of a path as `Path::file_name` gives it, if the path
/// ends in one.
pub uninterp spec fn path_file_name(path: Seq<char>) -> Option<Seq<char>>;

/// The file name without its extension as `Path::file_stem` gives it.
pub uninterp spec fn path_file_stem(path: Seq<char>) -> Option<Seq<char>>;

/// The extension of the file name as `Path::extension` gives it.
pub uninterp spec fn path_extension(path: Seq<char>) -> Option<Seq<char>>;

/// `Path::file_name` of the path written in `path`, as a text. Claims that
/// it depends on the text of the path alone.
#[verifier::external_body]
pub(crate) fn file_name_of(path: &str) -> (name: Option<String>)
    ensures
        match name {
            Some(n) => path_file_name(path@) == Some(n@),
            None => path_file_name(path@) is None,
        },
{
    match std::path::Path::new(path).file_name() {
        Some(name) => Some(name.to_string_lossy().into_owned()),
        None => None,
    }
}

/// `Path::file_stem` of the path written in `path`, as a text. Claims that
/// it depends on the text of the path alone.
#[verifier::external_body]
pub(crate) fn file_stem_of(path: &str) -> (stem: Option<String>)
    ensures
        match stem {
            Some(s) => path_file_stem(path@) == Some(s@),
            None => path_file_stem(path@) is None,
        },
{
    match std::path::Path::new(path).file_stem() {
        Some(stem) => Some(stem.to_string_lossy().into_owned()),
        None => None,
    }
}

/// `Path::extension` of the path written in `path`, as a text. Claims that
/// it depends on the text of the path alone.
#[verifier::external_body]
pub(crate) fn extension_of(path: &str) -> (extension: Option<String>)
    ensures
        match extension {
            Some(e) => path_extension(path@) == Some(e@),
            None => path_extension(path@) is None,
        },
{
    match std::path::Path::new(path).extension() {
        Some(extension) => Some(extension.to_string_lossy().into_owned()),
        None => None,
    }
}

// ── patterns ────────────────────────────────────────────────────────

/// The byte offsets at which the successive matches of a regular
/// expression start in a text, as `regex` finds them, or `None` where the
/// pattern is no regular expression that `regex` takes.
pub uninterp spec fn regex_match_starts(pattern: Seq<char>, haystack: Seq<char>) -> Option<
    Seq<int>,
>;

/// The offsets that a vector holds.
pub open spec fn offsets(v: Seq<usize>) -> Seq<int> {
    Seq::new(v.len(), |i: int| v[i] as int)
}

/// `regex::Regex::new`, then `Regex::find_iter` over the text, and of each
/// match its `start`. Claims that the offsets depend on the pattern and
/// the text alone, and that each lies on a character boundary of the text,
/// as the crate documents of `Match::start`.
#[verifier::external_body]
pub(crate) fn match_starts(pattern: &str, haystack: &str) -> (starts: Option<Vec<usize>>)
    ensures
        match starts {
            Some(v) => regex_match_starts(pattern@, haystack@) == Some(offsets(v@)),
            None => regex_match_starts(pattern@, haystack@) is None,
        },
        starts matches Some(v) ==> forall|i: int|
            0 <= i < v@.len() ==> is_char_boundary(encode_utf8(haystack@), #[trigger] v@[i] as int),
{
    match regex::Regex::new(pattern) {
        Ok(re) => Some(re.find_iter(haystack).map(|m| m.start()).collect()),
        Err(_) => None,
    }
}

// ── digests ─────────────────────────────────────────────────────────

/// The SHA-1 digest of a byte string, 20 bytes.
pub uninterp spec fn sha1_digest(data: Seq<u8>) -> Seq<u8>;

/// `Digest::digest` of `sha1::Sha1`. Claims that the digest depends on
/// the bytes alone and has 20 bytes.
#[verifier::external_body]
pub(crate) fn sha1_of(data: &[u8]) -> (digest: Vec<u8>)
    ensures
        digest@ == sha1_digest(data@),
        digest@.len() == 20,
{
    <sha1::Sha1 as sha1::Digest>::digest(data).to_vec()
}

// ── data in text ────────────────────────────────────────────────────

/// The Base64 text of a byte string: standard alphabet, padded.
pub uninterp spec fn base64_text(data: Seq<u8>) -> Seq<char>;

/// `Engine::encode` of `base64::engine::general_purpose::STANDARD`. Claims
/// that the text depends on the bytes alone and has four characters for
/// every three bytes begun. The bound keeps the length of the text within
/// what a buffer can hold.
#[verifier::external_body]
pub(crate) fn base64_of(data: &[u8]) -> (text: String)
    requires
        data@.len() <= usize::MAX / 4,
    ensures
        text@ == base64_text(data@),
        text@.len() == (data@.len() + 2) / 3 * 4,
{
    base64::Engine::encode(&base64::engine::general_purpose::STANDARD, data)
}

// ── ropes ───────────────────────────────────────────────────────────

/// `ropey::Rope`, a text kept as a tree of pieces.
#[verifier::external_type_specification]
#[verifier::external_body]
pub struct ExRope(ropey::Rope);

/// The characters that a rope holds.
pub uninterp spec fn rope_chars(rope: ropey::Rope) -> Seq<char>;

/// The number of lines that `ropey` counts in a text: one more than it
/// finds line breaks.
pub uninterp spec fn line_count(text: Seq<char>) -> nat;

/// The line of a text that `ropey` counts as line `index`, its line break
/// included: what stands from the start of that line up to the start of
/// the next.
pub open spec fn line_text(text: Seq<char>, index: int) -> Seq<char> {
    text.subrange(line_start(text, index), line_start(text, index + 1))
}

/// Where the line starts that `ropey` counts as line `index` of a text, in
/// characters; for the index behind the last line, the end of the text.
pub uninterp spec fn line_start(text: Seq<char>, index: int) -> int;

/// `Rope::new`: a rope that holds nothing.
#[verifier::external_body]
pub(crate) fn rope_new() -> (rope: ropey::Rope)
    ensures
        rope_chars(rope) == Seq::<char>::empty(),
{
    ropey::Rope::new()
}

/// `Rope::from_str`: a rope that holds the text.
#[verifier::external_body]
pub(crate) fn rope_from_str(text: &str) -> (rope: ropey::Rope)
    ensures
        rope_chars(rope) == text@,
{
    ropey::Rope::from_str(text)
}

/// `Rope::len_chars`: the number of characters.
#[verifier::external_body]
pub(crate) fn rope_len_chars(rope: &ropey::Rope) -> (n: usize)
    ensures
        n == rope_chars(*rope).len(),
{
    rope.len_chars()
}

/// `Rope::len_lines`: the number of lines. Claims that it depends on the
/// text alone.
#[verifier::external_body]
pub(crate) fn rope_len_lines(rope: &ropey::Rope) -> (n: usize)
    ensures
        n == line_count(rope_chars(*rope)),
{
    rope.len_lines()
}

/// `Rope::line`, as a string. Claims that the line is the slice of the
/// text from the start of line `index` to the start of the line behind it,
/// and that this slice lies in the text. The crate panics for an index
/// that is no line.
#[verifier::external_body]
pub(crate) fn rope_line(rope: &ropey::Rope, index: usize) -> (line: String)
    requires
        index < line_count(rope_chars(*rope)),
    ensures
        line@ == line_text(rope_chars(*rope), index as int),
        line@.len() == line_start(rope_chars(*rope), index + 1) - line_start(
            rope_chars(*rope),
            index as int,
        ),
        0 <= line_start(rope_chars(*rope), index as int) <= line_start(
            rope_chars(*rope),
            index + 1,
        ) <= line@.len() + line_start(rope_chars(*rope), index as int) <= rope_chars(*rope).len(),
{
    rope.line(index).to_string()
}

/// `Rope::line_to_char`. Claims that the place depends on the text and the
/// index alone, that it lies in the text, that line 0 starts at 0, and that
/// the index behind the last line gives the end of the text. The crate
/// panics for an index behind that one.
#[verifier::external_body]
pub(crate) fn rope_line_to_char(rope: &ropey::Rope, index: usize) -> (at: usize)
    requires
        index <= line_count(rope_chars(*rope)),
    ensures
        at == line_start(rope_chars(*rope), index as int),
        at <= rope_chars(*rope).len(),
        index == 0 ==> at == 0,
        index == line_count(rope_chars(*rope)) ==> at == rope_chars(*rope).len(),
{
    rope.line_to_char(index)
}

/// `Rope::slice`, as a string: the characters from `start` to `end`. The
/// crate panics for a range that does not lie in the text.
#[verifier::external_body]
pub(crate) fn rope_slice(rope: &ropey::Rope, start: usize, end: usize) -> (piece: String)
    requires
        start <= end <= rope_chars(*rope).len(),
    ensures
        piece@ == rope_chars(*rope).subrange(start as int, end as int),
{
    rope.slice(start..end).to_string()
}

/// `Rope::insert`: the text goes in before character `at`. The crate
/// panics for a place behind the end.
#[verifier::external_body]
pub(crate) fn rope_insert(rope: &mut ropey::Rope, at: usize, text: &str)
    requires
        at <= rope_chars(*old(rope)).len(),
    ensures
        rope_chars(*final(rope)) == rope_chars(*old(rope)).subrange(0, at as int) + text@
            + rope_chars(*old(rope)).subrange(at as int, rope_chars(*old(rope)).len() as int),
{
    rope.insert(at, text)
}

/// `Rope::remove`: the characters from `start` to `end` go. The crate
/// panics for a range that does not lie in the text.
#[verifier::external_body]
pub(crate) fn rope_remove(rope: &mut ropey::Rope, start: usize, end: usize)
    requires
        start <= end <= rope_chars(*old(rope)).len(),
    ensures
        rope_chars(*final(rope)) == rope_chars(*old(rope)).subrange(0, start as int)
            + rope_chars(*old(rope)).subrange(end as int, rope_chars(*old(rope)).len() as int),
{
    rope.remove(start..end)
}

/// `Rope`'s `to_string`: the whole text.
#[verifier::external_body]
pub(crate) fn rope_to_string(rope: &ropey::Rope) -> (text: String)
    ensures
        text@ == rope_chars(*rope),
{
    rope.to_string()
}

// ── patterns with groups ────────────────────────────────────────────

/// The successive matches of a regular expression in a text, as `regex`
/// finds them: of each match the spans of the whole match and of each of
/// its groups, in byte offsets, a group that took no part left out; or
/// `None` where the pattern is no regular expression that `regex` takes.
pub uninterp spec fn regex_captures(pattern: Seq<char>, haystack: Seq<char>) -> Option<
    Seq<Seq<Option<(usize, usize)>>>,
>;

/// The spans that vectors of spans hold.
pub open spec fn groups_of(v: Seq<Vec<Option<(usize, usize)>>>) -> Seq<Seq<Option<(usize, usize)>>> {
    Seq::new(v.len(), |i: int| v[i]@)
}

/// Whether a span lies in a text, from one character boundary to another.
pub open spec fn span_fits(text: Seq<char>, span: (usize, usize)) -> bool {
    &&& span.0 <= span.1 <= encode_utf8(text).len()
    &&& is_char_boundary(encode_utf8(text), span.0 as int)
    &&& is_char_boundary(encode_utf8(text), span.1 as int)
}

/// The span of the whole match.
pub open spec fn whole_span(hit: Seq<Option<(usize, usize)>>) -> (usize, usize) {
    hit[0]->0
}

/// Whether matches lie in a text as matches do: each has the span of the
/// whole match first, every span lies in the text between character
/// boundaries, and each match starts where the one before it has ended, or
/// behind.
pub open spec fn matches_fit(text: Seq<char>, hits: Seq<Seq<Option<(usize, usize)>>>) -> bool {
    &&& forall|i: int|
        0 <= i < hits.len() ==> (#[trigger] hits[i]).len() > 0 && hits[i][0] is Some
    &&& forall|i: int, g: int|
        0 <= i < hits.len() && 0 <= g < hits[i].len() && (#[trigger] hits[i][g]) is Some
            ==> span_fits(text, hits[i][g]->0)
    &&& forall|i: int|
        0 <= i && i + 1 < hits.len() ==> whole_span(#[trigger] hits[i]).1 <= whole_span(
            hits[i + 1],
        ).0
}

/// `regex::Regex::new`, then `Regex::captures_iter` over the text, and of
/// each match the `start` and `end` of each group. Claims that the spans
/// depend on the pattern and the text alone, and what the crate documents
/// of them: group 0 is the whole match and always there, every span lies
/// in the text on character boundaries, and the matches follow each other
/// without overlap.
#[verifier::external_body]
pub(crate) fn captures_of(pattern: &str, haystack: &str) -> (found: Option<
    Vec<Vec<Option<(usize, usize)>>>,
>)
    ensures
        match found {
            Some(v) => regex_captures(pattern@, haystack@) == Some(groups_of(v@)),
            None => regex_captures(pattern@, haystack@) is None,
        },
        found matches Some(v) ==> matches_fit(haystack@, groups_of(v@)),
{
    match regex::Regex::new(pattern) {
        Ok(re) => Some(
            re.captures_iter(haystack).map(
                |c| c.iter().map(|g| g.map(|m| (m.start(), m.end()))).collect(),
            ).collect(),
        ),
        Err(_) => None,
    }
}

} // verus!
