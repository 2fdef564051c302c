//! The chapters of a parsed book.

use vstd::prelude::*;
use vstd::utf8::encode_utf8;

use crate::outside::{sha1_digest, sha1_of, whitespace};
use crate::text::{
    chars_end_with, chars_of, chars_start_with, contains, ends_with, split, split_chars,
    split_from, starts_with, str_contains, texts_of,
};

verus! {

/// What the table of contents shows of one chapter.
#[derive(Debug, Clone)]
pub struct ChapterInfo {
    pub index: usize,
    pub title: String,
}

/// One chapter: its title and its markup.
#[derive(Debug, Clone)]
pub struct EpubChapter {
    pub title: String,
    pub html: String,
}

/// A parsed book: the font rules that all chapters share, and the chapters
/// in reading order.
pub struct EpubBook {
    pub font_styles: String,
    pub chapters: Vec<EpubChapter>,
}

impl EpubBook {
    /// One entry for each chapter, in reading order: its ordinal and its
    /// title.
    pub fn get_chapter_infos(&self) -> (infos: Vec<ChapterInfo>)
        ensures
            infos@.len() == self.chapters@.len(),
            forall|i: int|
                0 <= i < infos@.len() ==> (#[trigger] infos@[i]).index == i && infos@[i].title@
                    == self.chapters@[i].title@,
    {
        let n = self.chapters.len();
        let mut infos: Vec<ChapterInfo> = Vec::with_capacity(n);
        let mut i: usize = 0;
        while i < n
            invariant
                n == self.chapters@.len(),
                i <= n,
                infos@.len() == i,
                forall|j: int|
                    0 <= j < i ==> (#[trigger] infos@[j]).index == j && infos@[j].title@
                        == self.chapters@[j].title@,
            decreases n - i,
        {
            infos.push(ChapterInfo { index: i, title: self.chapters[i].title.clone() });
            i = i + 1;
        }
        infos
    }

    /// The markup of chapter `index`, if there is such a chapter.
    pub fn get_chapter_html(&self, index: usize) -> (html: Option<String>)
        ensures
            match html {
                Some(text) => index < self.chapters@.len() && text@
                    == self.chapters@[index as int].html@,
                None => index >= self.chapters@.len(),
            },
    {
        if index < self.chapters.len() {
            Some(self.chapters[index].html.clone())
        } else {
            None
        }
    }

    /// The number of chapters.
    pub fn total_chapters(&self) -> (n: usize)
        ensures
            n == self.chapters@.len(),
    {
        self.chapters.len()
    }
}

// ── fonts ───────────────────────────────────────────────────────────

/// How a font file of a book is obfuscated.
#[derive(Debug, Clone, Copy, PartialEq, Eq, Structural)]
pub enum ObfuscationAlgorithm {
    /// The scheme of the IDPF: the key is a digest of the book's id.
    Idpf,
    /// The scheme of Adobe: the key is the book's UUID.
    Adobe,
}

/// One obfuscated resource of a book: where it is and how it is obfuscated.
#[derive(Debug)]
pub struct EncryptionInfo {
    pub uri: String,
    pub algorithm: ObfuscationAlgorithm,
}

/// Whether a media type is that of a font.
pub open spec fn is_font_type(mime: Seq<char>) -> bool {
    contains(mime, "font"@) || contains(mime, "opentype"@) || contains(mime, "truetype"@)
        || contains(mime, "woff"@)
}

/// Whether a media type is that of a font.
pub fn is_font_mime(mime: &str) -> (b: bool)
    ensures
        b == is_font_type(mime@),
{
    str_contains(mime, "font") || str_contains(mime, "opentype") || str_contains(mime, "truetype")
        || str_contains(mime, "woff")
}

/// The media type under which a font is embedded in a style sheet.
pub open spec fn embedded_font_type(mime: Seq<char>) -> Seq<char> {
    if contains(mime, "woff2"@) {
        "font/woff2"@
    } else if contains(mime, "woff"@) {
        "font/woff"@
    } else if contains(mime, "opentype"@) || contains(mime, "otf"@) {
        "font/otf"@
    } else {
        "font/ttf"@
    }
}

/// The media type under which a font is embedded in a style sheet.
pub fn font_data_uri_mime(mime: &str) -> (embedded: &'static str)
    ensures
        embedded@ == embedded_font_type(mime@),
{
    if str_contains(mime, "woff2") {
        "font/woff2"
    } else if str_contains(mime, "woff") {
        "font/woff"
    } else if str_contains(mime, "opentype") || str_contains(mime, "otf") {
        "font/otf"
    } else {
        "font/ttf"
    }
}

/// The last component of a path written with slashes.
pub open spec fn last_segment(path: Seq<char>) -> Seq<char> {
    split(path, '/').last()
}

/// The last component of a path written with slashes.
pub(crate) fn last_segment_of(path: &str) -> (segment: Vec<char>)
    ensures
        segment@ == last_segment(path@),
{
    let chars = chars_of(path);
    let mut pieces = split_chars(chars.as_slice(), '/');
    proof {
        lemma_split_is_not_empty(path@, '/', 0);
        assert(texts_of(pieces@).last() == pieces@.last()@);
    }
    match pieces.pop() {
        Some(last) => last,
        None => Vec::new(),
    }
}

/// A text is cut into at least one piece.
pub proof fn lemma_split_is_not_empty(s: Seq<char>, sep: char, from: int)
    requires
        0 <= from <= s.len(),
    ensures
        split_from(s, sep, from).len() > 0,
{
}

/// Whether the record of an obfuscated resource is that of the font at
/// `font_path`: the two paths are the same, or one ends with the other, or
/// their last components are the same.
pub open spec fn is_info_for(uri: Seq<char>, font_path: Seq<char>) -> bool {
    uri == font_path || ends_with(font_path, uri) || ends_with(uri, font_path) || last_segment(
        uri,
    ) == last_segment(font_path)
}

/// The first record from `from` on that is that of the font.
pub open spec fn info_from(infos: Seq<EncryptionInfo>, font_path: Seq<char>, from: int) -> Option<
    int,
>
    decreases infos.len() - from,
{
    if from < 0 || from >= infos.len() {
        None
    } else if is_info_for(infos[from].uri@, font_path) {
        Some(from)
    } else {
        info_from(infos, font_path, from + 1)
    }
}

/// Finds the record that says how the font at `font_path` is obfuscated.
pub fn find_encryption_info<'a>(font_path: &str, infos: &'a Vec<EncryptionInfo>) -> (found: Option<
    &'a EncryptionInfo,
>)
    ensures
        match found {
            Some(info) => info_from(infos@, font_path@, 0) matches Some(i) && *info == infos@[i],
            None => info_from(infos@, font_path@, 0) is None,
        },
{
    let path = chars_of(font_path);
    let font_name = last_segment_of(font_path);
    let n = infos.len();
    let mut i: usize = 0;
    while i < n
        invariant
            n == infos@.len(),
            i <= n,
            path@ == font_path@,
            font_name@ == last_segment(font_path@),
            info_from(infos@, font_path@, 0) == info_from(infos@, font_path@, i as int),
        decreases n - i,
    {
        let uri = chars_of(infos[i].uri.as_str());
        let enc_name = last_segment_of(infos[i].uri.as_str());
        proof {
            lemma_ends_both_ways(enc_name@, font_name@);
            lemma_ends_both_ways(uri@, path@);
        }
        // Equal paths end with each other, so they need no test of their
        // own.
        if chars_end_with(path.as_slice(), uri.as_slice()) || chars_end_with(
            uri.as_slice(),
            path.as_slice(),
        ) || (chars_end_with(enc_name.as_slice(), font_name.as_slice()) && chars_end_with(
            font_name.as_slice(),
            enc_name.as_slice(),
        )) {
            return Some(&infos[i]);
        }
        i = i + 1;
    }
    None
}

/// Two texts that end with each other are the same text.
pub proof fn lemma_ends_both_ways(a: Seq<char>, b: Seq<char>)
    ensures
        (ends_with(a, b) && ends_with(b, a)) <==> a == b,
{
    if ends_with(a, b) && ends_with(b, a) {
        assert(a.subrange(0, a.len() as int) =~= a);
        assert(b.subrange(0, b.len() as int) =~= b);
    }
    if a == b {
        assert(a.subrange(0, a.len() as int) =~= a);
    }
}

/// The bytes `data` with each of the first `span` bytes combined with the
/// key by exclusive or, the key repeated as often as needed.
pub open spec fn unmasked(data: Seq<u8>, key: Seq<u8>, span: int) -> Seq<u8> {
    Seq::new(
        data.len(),
        |i: int|
            if i < span {
                data[i] ^ key[i % (key.len() as int)]
            } else {
                data[i]
            },
    )
}

/// Combines the first `span` bytes of `data` with the key.
fn unmask(data: &mut Vec<u8>, key: &Vec<u8>, span: usize)
    requires
        key@.len() > 0,
        span <= old(data)@.len(),
    ensures
        final(data)@ == unmasked(old(data)@, key@, span as int),
{
    let k = key.len();
    let mut i: usize = 0;
    while i < span
        invariant
            k == key@.len(),
            k > 0,
            span <= data@.len(),
            i <= span,
            data@.len() == old(data)@.len(),
            forall|j: int| 0 <= j < i ==> data@[j] == old(data)@[j] ^ key@[j % (k as int)],
            forall|j: int| i <= j < data@.len() ==> data@[j] == old(data)@[j],
        decreases span - i,
    {
        let byte = data[i] ^ key[i % k];
        data.set(i, byte);
        i = i + 1;
    }
    assert(data@ =~= unmasked(old(data)@, key@, span as int));
}

/// The characters of `s` that are not white space.
pub open spec fn without_whitespace(s: Seq<char>) -> Seq<char>
    decreases s.len(),
{
    if s.len() == 0 {
        s
    } else if whitespace(s.last()) {
        without_whitespace(s.drop_last())
    } else {
        without_whitespace(s.drop_last()).push(s.last())
    }
}

/// The smaller of two numbers.
pub open spec fn least(a: int, b: int) -> int {
    if a <= b {
        a
    } else {
        b
    }
}

/// A font as the IDPF scheme restores it: the first 1040 bytes combined
/// with the SHA-1 digest of the book's id, white space left out of the id.
pub open spec fn idpf_restored(data: Seq<u8>, unique_id: Seq<char>) -> Seq<u8> {
    unmasked(
        data,
        sha1_digest(encode_utf8(without_whitespace(unique_id))),
        least(data.len() as int, 1040),
    )
}

/// Restores a font that was obfuscated by the scheme of the IDPF.
pub fn deobfuscate_idpf(data: &mut Vec<u8>, unique_id: &str)
    ensures
        final(data)@ == idpf_restored(old(data)@, unique_id@),
{
    let id = chars_of(unique_id);
    let mut cleaned = String::new();
    let mut i: usize = 0;
    assert(id@.take(0) =~= Seq::<char>::empty());
    while i < id.len()
        invariant
            i <= id@.len(),
            cleaned@ == without_whitespace(id@.take(i as int)),
        decreases id@.len() - i,
    {
        proof {
            assert(id@.take(i + 1).drop_last() =~= id@.take(i as int));
            assert(id@.take(i + 1).last() == id@[i as int]);
        }
        if !id[i].is_whitespace() {
            cleaned.push(id[i]);
        }
        i = i + 1;
    }
    assert(id@.take(id@.len() as int) =~= id@);
    let key = sha1_of(cleaned.as_str().as_bytes());
    let span = if data.len() < 1040 {
        data.len()
    } else {
        1040
    };
    unmask(data, &key, span);
}

/// The value of a hexadecimal digit, `None` for other characters.
pub open spec fn hex_value(c: char) -> Option<int> {
    let code = c as u32;
    if 0x30 <= code <= 0x39 {
        Some(code - 0x30)
    } else if 0x61 <= code <= 0x66 {
        Some(code - 0x61 + 10)
    } else if 0x41 <= code <= 0x46 {
        Some(code - 0x41 + 10)
    } else {
        None
    }
}

/// The value of a hexadecimal digit.
pub fn hex_digit(c: char) -> (v: Option<u8>)
    ensures
        match v {
            Some(d) => hex_value(c) == Some(d as int) && d < 16,
            None => hex_value(c) is None,
        },
{
    let code = c as u32;
    if 0x30 <= code && code <= 0x39 {
        Some((code - 0x30) as u8)
    } else if 0x61 <= code && code <= 0x66 {
        Some((code - 0x61 + 10) as u8)
    } else if 0x41 <= code && code <= 0x46 {
        Some((code - 0x41 + 10) as u8)
    } else {
        None
    }
}

/// The text without every `prefix` that it starts with, one after the
/// other.
pub open spec fn trimmed_start(s: Seq<char>, prefix: Seq<char>) -> Seq<char>
    decreases s.len(),
{
    if prefix.len() > 0 && starts_with(s, prefix) {
        trimmed_start(s.skip(prefix.len() as int), prefix)
    } else {
        s
    }
}

/// The values of the hexadecimal digits in `s`, in their order; what is no
/// such digit is passed over.
pub open spec fn hex_digits(s: Seq<char>) -> Seq<int>
    decreases s.len(),
{
    if s.len() == 0 {
        Seq::empty()
    } else {
        match hex_value(s.last()) {
            Some(v) => hex_digits(s.drop_last()).push(v),
            None => hex_digits(s.drop_last()),
        }
    }
}

/// The key of the Adobe scheme: the first 32 hexadecimal digits of the
/// book's id, two to a byte, or `None` where the id has fewer. A leading
/// `urn:uuid:` does not count.
pub open spec fn adobe_key(unique_id: Seq<char>) -> Option<Seq<u8>> {
    let digits = hex_digits(trimmed_start(unique_id, "urn:uuid:"@));
    if digits.len() < 32 {
        None
    } else {
        Some(Seq::new(16, |i: int| (digits[2 * i] * 16 + digits[2 * i + 1]) as u8))
    }
}

/// A font as the Adobe scheme restores it: the first 1024 bytes combined
/// with the key; unchanged where the id gives no key.
pub open spec fn adobe_restored(data: Seq<u8>, unique_id: Seq<char>) -> Seq<u8> {
    match adobe_key(unique_id) {
        Some(key) => unmasked(data, key, least(data.len() as int, 1024)),
        None => data,
    }
}

/// Restores a font that was obfuscated by the scheme of Adobe.
pub fn deobfuscate_adobe(data: &mut Vec<u8>, unique_id: &str)
    ensures
        final(data)@ == adobe_restored(old(data)@, unique_id@),
{
    let id = chars_of(unique_id);
    let prefix = chars_of("urn:uuid:");
    proof {
        reveal_strlit("urn:uuid:");
    }
    // Pass over every leading `urn:uuid:`.
    let mut start: usize = 0;
    assert(id@.skip(0) =~= id@);
    while id.len() - start >= prefix.len() && chars_start_with(
        vstd::slice::slice_subrange(id.as_slice(), start, id.len()),
        prefix.as_slice(),
    )
        invariant
            start <= id@.len(),
            prefix@ == "urn:uuid:"@,
            prefix@.len() == 9,
            trimmed_start(id@, prefix@) == trimmed_start(id@.skip(start as int), prefix@),
        decreases id@.len() - start,
    {
        proof {
            assert(id@.subrange(start as int, id@.len() as int) =~= id@.skip(start as int));
            assert(id@.skip(start as int).skip(9) =~= id@.skip(start + 9));
        }
        start = start + prefix.len();
    }
    proof {
        assert(id@.subrange(start as int, id@.len() as int) =~= id@.skip(start as int));
    }
    let ghost rest = id@.skip(start as int);
    let mut digits: Vec<u8> = Vec::new();
    let mut i: usize = start;
    assert(rest.take(0) =~= Seq::<char>::empty());
    assert(Seq::new(digits@.len(), |k: int| digits@[k] as int) =~= hex_digits(rest.take(0)));
    while i < id.len()
        invariant
            start <= i <= id@.len(),
            rest == id@.skip(start as int),
            Seq::new(digits@.len(), |k: int| digits@[k] as int) == hex_digits(
                rest.take(i - start),
            ),
            forall|k: int| 0 <= k < digits@.len() ==> #[trigger] digits@[k] < 16,
        decreases id@.len() - i,
    {
        proof {
            assert(rest.take(i - start + 1).drop_last() =~= rest.take(i - start));
            assert(rest.take(i - start + 1).last() == id@[i as int]);
        }
        match hex_digit(id[i]) {
            Some(d) => {
                let ghost before = Seq::new(digits@.len(), |k: int| digits@[k] as int);
                digits.push(d);
                assert(Seq::new(digits@.len(), |k: int| digits@[k] as int) =~= before.push(
                    d as int,
                ));
            },
            None => {},
        }
        i = i + 1;
    }
    proof {
        assert(rest.take(id@.len() - start) =~= rest);
        assert(unique_id@ == id@);
    }
    if digits.len() < 32 {
        return ;
    }
    let mut key: Vec<u8> = Vec::with_capacity(16);
    let mut k: usize = 0;
    while k < 16
        invariant
            k <= 16,
            digits@.len() >= 32,
            key@.len() == k,
            forall|j: int| 0 <= j < digits@.len() ==> #[trigger] digits@[j] < 16,
            forall|j: int|
                0 <= j < k ==> #[trigger] key@[j] == (digits@[2 * j] as int * 16 + digits@[2 * j
                    + 1] as int) as u8,
        decreases 16 - k,
    {
        key.push(digits[2 * k] * 16 + digits[2 * k + 1]);
        k = k + 1;
    }
    proof {
        let ds = hex_digits(trimmed_start(unique_id@, "urn:uuid:"@));
        assert forall|j: int| 0 <= j < 16 implies key@[j] == (ds[2 * j] * 16 + ds[2 * j + 1]) as u8 by {
            assert(ds[2 * j] == digits@[2 * j] as int);
            assert(ds[2 * j + 1] == digits@[2 * j + 1] as int);
        }
        assert(key@ =~= adobe_key(unique_id@)->0);
    }
    let span = if data.len() < 1024 {
        data.len()
    } else {
        1024
    };
    unmask(data, &key, span);
}

/// The text from `i` on with each `%` and the two hexadecimal digits
/// behind it made the character of that code.
pub open spec fn percent_decoded_from(s: Seq<char>, i: int) -> Seq<char>
    decreases s.len() - i,
{
    if i < 0 || i >= s.len() {
        Seq::empty()
    } else if s[i] == '%' && i + 2 < s.len() && hex_value(s[i + 1]) is Some && hex_value(
        s[i + 2],
    ) is Some {
        seq![((hex_value(s[i + 1])->0 * 16 + hex_value(s[i + 2])->0) as u8) as char]
            + percent_decoded_from(s, i + 3)
    } else {
        seq![s[i]] + percent_decoded_from(s, i + 1)
    }
}

/// Decodes the percent escapes of a path.
pub fn percent_decode(s: &str) -> (decoded: String)
    ensures
        decoded@ == percent_decoded_from(s@, 0),
{
    let chars = chars_of(s);
    let n = chars.len();
    let mut decoded = String::new();
    let mut i: usize = 0;
    assert(Seq::<char>::empty() + percent_decoded_from(chars@, 0) =~= percent_decoded_from(
        chars@,
        0,
    ));
    while i < n
        invariant
            n == chars@.len(),
            chars@ == s@,
            i <= n,
            decoded@ + percent_decoded_from(chars@, i as int) == percent_decoded_from(s@, 0),
        decreases n - i,
    {
        let ghost before = decoded@;
        let mut escaped: Option<u8> = None;
        if chars[i] == '%' && n - i > 2 {
            match hex_digit(chars[i + 1]) {
                Some(high) => match hex_digit(chars[i + 2]) {
                    Some(low) => {
                        escaped = Some(high * 16 + low);
                    },
                    None => {},
                },
                None => {},
            }
        }
        match escaped {
            Some(byte) => {
                let c = byte as char;
                decoded.push(c);
                proof {
                    let rest = percent_decoded_from(chars@, i + 3);
                    assert(before + (seq![c] + rest) =~= before.push(c) + rest);
                }
                i = i + 3;
            },
            None => {
                decoded.push(chars[i]);
                proof {
                    let rest = percent_decoded_from(chars@, i + 1);
                    assert(before + (seq![chars@[i as int]] + rest) =~= before.push(
                        chars@[i as int],
                    ) + rest);
                }
                i = i + 1;
            },
        }
    }
    assert(decoded@ + Seq::<char>::empty() =~= decoded@);
    decoded
}

// ── resources by path ───────────────────────────────────────────────

/// A text under a name, as a value.
pub struct NamedView {
    pub name: Seq<char>,
    pub text: Seq<char>,
}

/// A text under a name: a resource under its path, a title under the path
/// of its chapter.
#[derive(Debug)]
pub struct NamedText {
    pub name: String,
    pub text: String,
}

impl View for NamedText {
    type V = NamedView;

    open spec fn view(&self) -> NamedView {
        NamedView { name: self.name@, text: self.text@ }
    }
}

/// What a table of named texts stands for.
pub open spec fn table_of(entries: Seq<NamedText>) -> Seq<NamedView> {
    Seq::new(entries.len(), |i: int| entries[i]@)
}

/// The first entry from `from` on that has the name.
pub open spec fn named_from(table: Seq<NamedView>, name: Seq<char>, from: int) -> Option<int>
    decreases table.len() - from,
{
    if from < 0 || from >= table.len() {
        None
    } else if table[from].name == name {
        Some(from)
    } else {
        named_from(table, name, from + 1)
    }
}

/// The text under a name.
pub open spec fn text_named(table: Seq<NamedView>, name: Seq<char>) -> Option<Seq<char>> {
    match named_from(table, name, 0) {
        Some(i) => Some(table[i].text),
        None => None,
    }
}

/// Looks a name up.
pub fn lookup(table: &Vec<NamedText>, name: &str) -> (found: Option<String>)
    ensures
        match found {
            Some(text) => text_named(table_of(table@), name@) == Some(text@),
            None => text_named(table_of(table@), name@) is None,
        },
{
    let wanted = name.to_owned();
    let n = table.len();
    let ghost t = table_of(table@);
    let mut i: usize = 0;
    while i < n
        invariant
            n == table@.len(),
            t == table_of(table@),
            i <= n,
            wanted@ == name@,
            named_from(t, name@, 0) == named_from(t, name@, i as int),
        decreases n - i,
    {
        assert(t[i as int] == table@[i as int]@);
        if table[i].name == wanted {
            return Some(table[i].text.clone());
        }
        i = i + 1;
    }
    None
}

/// The first entry from `from` on whose name ends with `file_name`, or
/// with whose name `resolved` ends.
pub open spec fn loosely_named_from(
    table: Seq<NamedView>,
    resolved: Seq<char>,
    file_name: Seq<char>,
    from: int,
) -> Option<int>
    decreases table.len() - from,
{
    if from < 0 || from >= table.len() {
        None
    } else if ends_with(table[from].name, file_name) || ends_with(resolved, table[from].name) {
        Some(from)
    } else {
        loosely_named_from(table, resolved, file_name, from + 1)
    }
}

/// The resource that a reference means: the one under the resolved path,
/// else the one under the reference as it is written, else the one under
/// its last component, else the first whose path ends with that component
/// or with whose path the resolved path ends.
pub open spec fn resource_for(table: Seq<NamedView>, resolved: Seq<char>, written: Seq<char>) -> Option<
    Seq<char>,
> {
    if text_named(table, resolved) is Some {
        text_named(table, resolved)
    } else if text_named(table, written) is Some {
        text_named(table, written)
    } else if text_named(table, last_segment(written)) is Some {
        text_named(table, last_segment(written))
    } else {
        match loosely_named_from(table, resolved, last_segment(written), 0) {
            Some(i) => Some(table[i].text),
            None => None,
        }
    }
}

/// Finds the resource that a reference means.
pub fn find_in_resource_map(resolved_path: &str, written_src: &str, resource_map: &Vec<NamedText>) -> (found:
    Option<String>)
    ensures
        match found {
            Some(text) => resource_for(table_of(resource_map@), resolved_path@, written_src@)
                == Some(text@),
            None => resource_for(table_of(resource_map@), resolved_path@, written_src@) is None,
        },
{
    match lookup(resource_map, resolved_path) {
        Some(uri) => {
            return Some(uri);
        },
        None => {},
    }
    match lookup(resource_map, written_src) {
        Some(uri) => {
            return Some(uri);
        },
        None => {},
    }
    let filename = last_segment_of(written_src);
    let filename_text = crate::text::string_of(filename.as_slice());
    match lookup(resource_map, filename_text.as_str()) {
        Some(uri) => {
            return Some(uri);
        },
        None => {},
    }
    let resolved = chars_of(resolved_path);
    let n = resource_map.len();
    let ghost t = table_of(resource_map@);
    let mut i: usize = 0;
    while i < n
        invariant
            n == resource_map@.len(),
            t == table_of(resource_map@),
            i <= n,
            resolved@ == resolved_path@,
            filename@ == last_segment(written_src@),
            text_named(t, resolved_path@) is None,
            text_named(t, written_src@) is None,
            text_named(t, last_segment(written_src@)) is None,
            loosely_named_from(t, resolved_path@, filename@, 0) == loosely_named_from(
                t,
                resolved_path@,
                filename@,
                i as int,
            ),
        decreases n - i,
    {
        assert(t[i as int] == resource_map@[i as int]@);
        let key = chars_of(resource_map[i].name.as_str());
        if chars_end_with(key.as_slice(), filename.as_slice()) || chars_end_with(
            resolved.as_slice(),
            key.as_slice(),
        ) {
            return Some(resource_map[i].text.clone());
        }
        i = i + 1;
    }
    None
}

/// The first title from `from` on whose path ends the resource's path, or
/// whose path ends with it.
pub open spec fn title_from(table: Seq<NamedView>, path: Seq<char>, from: int) -> Option<int>
    decreases table.len() - from,
{
    if from < 0 || from >= table.len() {
        None
    } else if ends_with(path, table[from].name) || ends_with(table[from].name, path) {
        Some(from)
    } else {
        title_from(table, path, from + 1)
    }
}

/// The title of the chapter at `path`: the one listed under that path,
/// else the first that is listed under a path that ends it or ends with
/// it.
pub open spec fn title_for(table: Seq<NamedView>, path: Seq<char>) -> Option<Seq<char>> {
    if text_named(table, path) is Some {
        text_named(table, path)
    } else {
        match title_from(table, path, 0) {
            Some(i) => Some(table[i].text),
            None => None,
        }
    }
}

/// Finds the title that the table of contents gives a chapter.
pub fn find_toc_title(resource_path: &str, toc_titles: &Vec<NamedText>) -> (found: Option<String>)
    ensures
        match found {
            Some(title) => title_for(table_of(toc_titles@), resource_path@) == Some(title@),
            None => title_for(table_of(toc_titles@), resource_path@) is None,
        },
{
    match lookup(toc_titles, resource_path) {
        Some(title) => {
            return Some(title);
        },
        None => {},
    }
    let path = chars_of(resource_path);
    let n = toc_titles.len();
    let ghost t = table_of(toc_titles@);
    let mut i: usize = 0;
    while i < n
        invariant
            n == toc_titles@.len(),
            t == table_of(toc_titles@),
            i <= n,
            path@ == resource_path@,
            text_named(t, resource_path@) is None,
            title_from(t, resource_path@, 0) == title_from(t, resource_path@, i as int),
        decreases n - i,
    {
        assert(t[i as int] == toc_titles@[i as int]@);
        let toc_path = chars_of(toc_titles[i].name.as_str());
        if chars_end_with(path.as_slice(), toc_path.as_slice()) || chars_end_with(
            toc_path.as_slice(),
            path.as_slice(),
        ) {
            return Some(toc_titles[i].text.clone());
        }
        i = i + 1;
    }
    None
}

// ── relative paths ──────────────────────────────────────────────────

/// The pieces that are not empty, in their order.
pub open spec fn non_empty(pieces: Seq<Seq<char>>) -> Seq<Seq<char>>
    decreases pieces.len(),
{
    if pieces.len() == 0 {
        pieces
    } else if pieces.last().len() == 0 {
        non_empty(pieces.drop_last())
    } else {
        non_empty(pieces.drop_last()).push(pieces.last())
    }
}

/// The directory `parts` after the first `n` of `components` were walked:
/// `..` goes up, as far as there is anything to go up from, `.` and the
/// empty component stay, and every other component goes down.
pub open spec fn walked(parts: Seq<Seq<char>>, components: Seq<Seq<char>>, n: nat) -> Seq<
    Seq<char>,
>
    decreases n,
{
    if n == 0 {
        parts
    } else {
        let before = walked(parts, components, (n - 1) as nat);
        let c = components[n - 1];
        if c == seq!['.', '.'] {
            if before.len() > 0 {
                before.drop_last()
            } else {
                before
            }
        } else if c == seq!['.'] || c.len() == 0 {
            before
        } else {
            before.push(c)
        }
    }
}

/// The path that `relative` means where it is written in the file `base`.
/// A reference that starts with a slash is taken from the root.
pub open spec fn resolved(base: Seq<char>, relative: Seq<char>) -> Seq<char> {
    if relative.len() > 0 && relative[0] == '/' {
        relative.skip(1)
    } else {
        let components = split(relative, '/');
        crate::text::joined(
            walked(non_empty(split(base, '/').drop_last()), components, components.len()),
            '/',
        )
    }
}

/// Resolves a reference that is written in the file `base`.
pub fn resolve_path(base: &str, relative: &str) -> (path: String)
    ensures
        path@ == resolved(base@, relative@),
{
    let rel = chars_of(relative);
    if rel.len() > 0 && rel[0] == '/' {
        let rest = vstd::slice::slice_subrange(rel.as_slice(), 1, rel.len());
        assert(rest@ =~= relative@.skip(1));
        return crate::text::string_of(rest);
    }
    let base_chars = chars_of(base);
    let base_pieces = split_chars(base_chars.as_slice(), '/');
    proof {
        lemma_split_is_not_empty(base@, '/', 0);
    }
    let ghost dirs = texts_of(base_pieces@).drop_last();
    let mut parts: Vec<Vec<char>> = Vec::new();
    let mut i: usize = 0;
    assert(dirs.take(0) =~= Seq::<Seq<char>>::empty());
    assert(texts_of(parts@) =~= Seq::<Seq<char>>::empty());
    let dir_count = base_pieces.len() - 1;
    while i < dir_count
        invariant
            base_pieces@.len() > 0,
            dir_count == base_pieces@.len() - 1,
            dirs == texts_of(base_pieces@).drop_last(),
            i <= dirs.len(),
            texts_of(parts@) == non_empty(dirs.take(i as int)),
        decreases base_pieces@.len() - i,
    {
        proof {
            assert(dirs.take(i + 1).drop_last() =~= dirs.take(i as int));
            assert(dirs.take(i + 1).last() == base_pieces@[i as int]@);
        }
        if base_pieces[i].len() > 0 {
            let piece = vstd::slice::slice_to_vec(base_pieces[i].as_slice());
            assert(texts_of(parts@.push(piece)) =~= texts_of(parts@).push(piece@));
            parts.push(piece);
        }
        i = i + 1;
    }
    assert(dirs.take(dirs.len() as int) =~= dirs);
    let components = split_chars(rel.as_slice(), '/');
    let ghost start = texts_of(parts@);
    let ghost comps = texts_of(components@);
    let mut k: usize = 0;
    while k < components.len()
        invariant
            k <= components@.len(),
            comps == texts_of(components@),
            texts_of(parts@) == walked(start, comps, k as nat),
        decreases components@.len() - k,
    {
        let c = components[k].as_slice();
        assert(comps[k as int] == c@);
        let ghost before = texts_of(parts@);
        if c.len() == 2 && c[0] == '.' && c[1] == '.' {
            assert(c@ =~= seq!['.', '.']);
            if parts.len() > 0 {
                parts.pop();
                assert(texts_of(parts@) =~= before.drop_last());
            }
        } else if c.len() == 0 || (c.len() == 1 && c[0] == '.') {
            if c.len() == 1 {
                assert(c@ =~= seq!['.']);
            }
        } else {
            proof {
                if c@ == seq!['.', '.'] {
                    assert(c@.len() == 2 && c@[0] == '.' && c@[1] == '.');
                }
                if c@ == seq!['.'] {
                    assert(c@.len() == 1 && c@[0] == '.');
                }
            }
            let piece = vstd::slice::slice_to_vec(c);
            assert(texts_of(parts@.push(piece)) =~= before.push(piece@));
            parts.push(piece);
        }
        k = k + 1;
    }
    crate::text::join_chars(&parts, '/')
}

// ── the table of contents ───────────────────────────────────────────

/// Whether a table has an entry of the name.
pub open spec fn has_name(table: Seq<NamedView>, name: Seq<char>) -> bool {
    named_from(table, name, 0) is Some
}

/// The path of a reference without its fragment: what stands before the
/// first `#`.
pub open spec fn without_fragment(content: Seq<char>) -> Seq<char> {
    split(content, '#')[0]
}

/// The titles with the title of one more place of the contents: it is
/// added under the path of the place, unless a title stands under that
/// path already.
pub open spec fn with_title(titles: Seq<NamedView>, content: Seq<char>, label: Seq<char>) -> Seq<
    NamedView,
> {
    if has_name(titles, without_fragment(content)) {
        titles
    } else {
        titles.push(NamedView { name: without_fragment(content), text: label })
    }
}

/// Adds the title of one place of the contents to the titles.
pub fn add_toc_title(titles: &mut Vec<NamedText>, content: &str, label: &str)
    ensures
        table_of(final(titles)@) == with_title(table_of(old(titles)@), content@, label@),
{
    let chars = chars_of(content);
    let pieces = split_chars(chars.as_slice(), '#');
    proof {
        lemma_split_is_not_empty(content@, '#', 0);
        assert(texts_of(pieces@)[0] == pieces@[0]@);
    }
    let clean_path = crate::text::string_of(pieces[0].as_slice());
    if lookup(titles, clean_path.as_str()).is_none() {
        let entry = NamedText { name: clean_path, text: label.to_owned() };
        assert(table_of(titles@.push(entry)) =~= table_of(titles@).push(entry@));
        titles.push(entry);
    }
}

/// One place of the table of contents: its title, the chapter it points
/// at, and the places below it.
#[derive(Debug)]
pub struct NavPoint {
    pub label: String,
    pub content: String,
    pub children: Vec<NavPoint>,
}

/// The titles after the first `n` of `navs` were gone through, each place
/// before the places below it, and those before the place that follows.
pub open spec fn collected(navs: Seq<NavPoint>, n: nat, titles: Seq<NamedView>) -> Seq<NamedView>
    decreases navs, n,
{
    if n == 0 || n > navs.len() {
        titles
    } else {
        let before = collected(navs, (n - 1) as nat, titles);
        let nav = navs[n - 1];
        collected(
            nav.children@,
            nav.children@.len(),
            with_title(before, nav.content@, nav.label@),
        )
    }
}

/// Adds the titles of the places `navpoints`, and of all places below
/// them, to the titles. The first title that is found for a chapter stays.
pub fn collect_toc_titles(navpoints: &Vec<NavPoint>, titles: &mut Vec<NamedText>)
    ensures
        table_of(final(titles)@) == collected(
            navpoints@,
            navpoints@.len(),
            table_of(old(titles)@),
        ),
    decreases navpoints,
{
    let n = navpoints.len();
    let mut i: usize = 0;
    while i < n
        invariant
            n == navpoints@.len(),
            i <= n,
            table_of(titles@) == collected(navpoints@, i as nat, table_of(old(titles)@)),
        decreases n - i,
    {
        let nav = &navpoints[i];
        add_toc_title(titles, nav.content.as_str(), nav.label.as_str());
        collect_toc_titles(&nav.children, titles);
        i = i + 1;
    }
}

/// The titles of the chapters by their paths, as the table of contents
/// gives them.
pub fn build_toc_titles(toc: &Vec<NavPoint>) -> (titles: Vec<NamedText>)
    ensures
        table_of(titles@) == collected(toc@, toc@.len(), Seq::empty()),
{
    let mut titles: Vec<NamedText> = Vec::new();
    assert(table_of(titles@) =~= Seq::<NamedView>::empty());
    collect_toc_titles(toc, &mut titles);
    titles
}

} // verus!
