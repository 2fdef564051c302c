//! A book put together from what was read of it: the resources become
//! tables of data URIs and of style sheets, the obfuscated fonts are
//! restored, and each readable item of the spine becomes a chapter.
//!
//! A table holds each name once. To put a text under a name that the
//! table has already replaces the text that stands there.

use vstd::prelude::*;
use vstd::string::StringExecFns;
use vstd::utf8::{decode_utf8, valid_utf8};

use crate::chapter_html::{
    chapter_html, css_with_resources, extract_font_face_blocks, find_hits, font_faces, group_of,
    group_text, hits_of, process_chapter_html, replace_css_urls, without_font_faces, Hit,
};
use crate::epub_reader::{
    adobe_restored, build_toc_titles, collected, deobfuscate_adobe, deobfuscate_idpf,
    embedded_font_type, find_encryption_info, find_toc_title, font_data_uri_mime, idpf_restored,
    info_from, is_font_mime, is_font_type, is_info_for, last_segment, lemma_split_is_not_empty,
    named_from, percent_decode, percent_decoded_from, table_of, title_for, EncryptionInfo,
    EpubBook, EpubChapter, NamedText, NamedView, NavPoint, ObfuscationAlgorithm,
};
use crate::outside::{base64_of, base64_text, groups_of, is_utf8, matches_fit, utf8_lossy};
use crate::text::{
    chars_of, chars_start_with, contains, split, split_chars, starts_with, str_contains,
    string_of, texts_of,
};

verus! {

// ── what was read ───────────────────────────────────────────────────

/// What one resource of a book stands for.
pub struct ResourceView {
    pub path: Seq<char>,
    pub mime: Seq<char>,
    pub data: Seq<u8>,
}

/// One resource of a book as it was read: where it stands in the book,
/// its media type and its bytes.
#[derive(Debug)]
pub struct Resource {
    pub path: String,
    pub mime: String,
    pub data: Vec<u8>,
}

impl View for Resource {
    type V = ResourceView;

    open spec fn view(&self) -> ResourceView {
        ResourceView { path: self.path@, mime: self.mime@, data: self.data@ }
    }
}

/// What resources stand for.
pub open spec fn resources_of(items: Seq<Resource>) -> Seq<ResourceView> {
    Seq::new(items.len(), |i: int| items[i]@)
}

/// Whether the text that encodes the bytes fits in memory.
pub open spec fn encodable(data: Seq<u8>) -> bool {
    data.len() <= usize::MAX / 4
}

/// Whether each of the resources can be encoded.
pub open spec fn all_encodable(resources: Seq<ResourceView>) -> bool {
    forall|i: int| 0 <= i < resources.len() ==> encodable((#[trigger] resources[i]).data)
}

// ── data URIs and tables ────────────────────────────────────────────

/// The data URI of bytes of a media type.
pub open spec fn data_uri_text(mime: Seq<char>, data: Seq<u8>) -> Seq<char> {
    "data:"@ + mime + ";base64,"@ + base64_text(data)
}

/// Makes the data URI of bytes of a media type.
pub fn data_uri(mime: &str, data: &[u8]) -> (uri: String)
    requires
        encodable(data@),
    ensures
        uri@ == data_uri_text(mime@, data@),
{
    let mut uri = String::from_str("data:");
    uri.append(mime);
    uri.append(";base64,");
    uri.append(base64_of(data).as_str());
    uri
}

/// The table with the text under the name: in the place of the text that
/// stood under it, or at the end.
pub open spec fn put(table: Seq<NamedView>, name: Seq<char>, text: Seq<char>) -> Seq<NamedView> {
    match named_from(table, name, 0) {
        Some(i) => table.update(i, NamedView { name, text }),
        None => table.push(NamedView { name, text }),
    }
}

/// Puts a text under a name.
pub fn insert_named(table: &mut Vec<NamedText>, name: String, text: String)
    ensures
        table_of(final(table)@) == put(table_of(old(table)@), name@, text@),
{
    let n = table.len();
    let ghost t = table_of(table@);
    let mut i: usize = 0;
    while i < n
        invariant
            n == table@.len(),
            table@ == old(table)@,
            t == table_of(table@),
            i <= n,
            named_from(t, name@, 0) == named_from(t, name@, i as int),
        decreases n - i,
    {
        assert(t[i as int] == table@[i as int]@);
        if table[i].name == name {
            let entry = NamedText { name, text };
            assert(table_of(table@.update(i as int, entry)) =~= t.update(i as int, entry@));
            table.set(i, entry);
            return;
        }
        i = i + 1;
    }
    let entry = NamedText { name, text };
    assert(table_of(table@.push(entry)) =~= t.push(entry@));
    table.push(entry);
}

/// The table with a resource: under its path, and under the last component
/// of the path where the path has more than one.
pub open spec fn with_resource(table: Seq<NamedView>, path: Seq<char>, text: Seq<char>) -> Seq<
    NamedView,
> {
    if split(path, '/').len() > 1 {
        put(put(table, path, text), last_segment(path), text)
    } else {
        put(table, path, text)
    }
}

/// Puts a resource under its path and under its file name.
pub fn add_resource(table: &mut Vec<NamedText>, path: &str, text: String)
    ensures
        table_of(final(table)@) == with_resource(table_of(old(table)@), path@, text@),
{
    let chars = chars_of(path);
    let mut pieces = split_chars(chars.as_slice(), '/');
    proof {
        lemma_split_is_not_empty(path@, '/', 0);
        assert(texts_of(pieces@).last() == pieces@.last()@);
    }
    if pieces.len() > 1 {
        let short = match pieces.pop() {
            Some(last) => string_of(last.as_slice()),
            None => String::new(),
        };
        insert_named(table, path.to_owned(), text.clone());
        insert_named(table, short, text);
    } else {
        insert_named(table, path.to_owned(), text);
    }
}

/// The table with the first `n` entries of another put into it.
pub open spec fn extended(table: Seq<NamedView>, more: Seq<NamedView>, n: nat) -> Seq<NamedView>
    decreases n,
{
    if n == 0 || n > more.len() {
        table
    } else {
        put(extended(table, more, (n - 1) as nat), more[n - 1].name, more[n - 1].text)
    }
}

/// One table with the entries of another put into it.
pub fn extend_table(table: &Vec<NamedText>, more: &Vec<NamedText>) -> (both: Vec<NamedText>)
    ensures
        table_of(both@) == extended(table_of(table@), table_of(more@), more@.len() as nat),
{
    let mut both: Vec<NamedText> = Vec::with_capacity(table.len());
    let mut i: usize = 0;
    while i < table.len()
        invariant
            i <= table@.len(),
            both@.len() == i,
            forall|k: int| 0 <= k < i ==> (#[trigger] both@[k])@ == table@[k]@,
        decreases table@.len() - i,
    {
        both.push(NamedText { name: table[i].name.clone(), text: table[i].text.clone() });
        i = i + 1;
    }
    assert(table_of(both@) =~= table_of(table@));
    let mut j: usize = 0;
    while j < more.len()
        invariant
            j <= more@.len(),
            table_of(both@) == extended(table_of(table@), table_of(more@), j as nat),
        decreases more@.len() - j,
    {
        assert(table_of(more@)[j as int] == more@[j as int]@);
        insert_named(&mut both, more[j].name.clone(), more[j].text.clone());
        j = j + 1;
    }
    both
}

// ── images ──────────────────────────────────────────────────────────

/// The table of images after the first `n` resources: each resource whose
/// media type begins with `image/`, as a data URI.
pub open spec fn image_map(resources: Seq<ResourceView>, n: nat) -> Seq<NamedView>
    decreases n,
{
    if n == 0 || n > resources.len() {
        Seq::empty()
    } else {
        let before = image_map(resources, (n - 1) as nat);
        let r = resources[n - 1];
        if starts_with(r.mime, "image/"@) {
            with_resource(before, r.path, data_uri_text(r.mime, r.data))
        } else {
            before
        }
    }
}

/// Makes the table of the images of a book.
pub fn build_image_map(resources: &Vec<Resource>) -> (map: Vec<NamedText>)
    requires
        all_encodable(resources_of(resources@)),
    ensures
        table_of(map@) == image_map(resources_of(resources@), resources@.len() as nat),
{
    let ghost all = resources_of(resources@);
    let mut map: Vec<NamedText> = Vec::new();
    let mut i: usize = 0;
    assert(table_of(map@) =~= Seq::<NamedView>::empty());
    while i < resources.len()
        invariant
            all == resources_of(resources@),
            all_encodable(all),
            i <= resources@.len(),
            table_of(map@) == image_map(all, i as nat),
        decreases resources@.len() - i,
    {
        let r = &resources[i];
        assert(all[i as int] == r@);
        if chars_start_with(chars_of(r.mime.as_str()).as_slice(), chars_of("image/").as_slice()) {
            let uri = data_uri(r.mime.as_str(), r.data.as_slice());
            add_resource(&mut map, r.path.as_str(), uri);
        }
        i = i + 1;
    }
    map
}

// ── fonts ───────────────────────────────────────────────────────────

/// What a record of an obfuscated resource stands for.
pub struct InfoView {
    pub uri: Seq<char>,
    pub algorithm: ObfuscationAlgorithm,
}

/// What records stand for.
pub open spec fn infos_of(infos: Seq<EncryptionInfo>) -> Seq<InfoView> {
    Seq::new(infos.len(), |i: int| InfoView { uri: infos[i].uri@, algorithm: infos[i].algorithm })
}

/// The first record from `from` on that is that of the font.
pub open spec fn info_index(infos: Seq<InfoView>, font_path: Seq<char>, from: int) -> Option<int>
    decreases infos.len() - from,
{
    if from < 0 || from >= infos.len() {
        None
    } else if is_info_for(infos[from].uri, font_path) {
        Some(from)
    } else {
        info_index(infos, font_path, from + 1)
    }
}

/// Records are found by what they stand for.
pub proof fn lemma_info_index(infos: Seq<EncryptionInfo>, font_path: Seq<char>, from: int)
    ensures
        info_from(infos, font_path, from) == info_index(infos_of(infos), font_path, from),
    decreases infos.len() - from,
{
    if 0 <= from < infos.len() {
        assert(infos_of(infos)[from].uri == infos[from].uri@);
        if !is_info_for(infos[from].uri@, font_path) {
            lemma_info_index(infos, font_path, from + 1);
        }
    }
}

/// A record that was found is one of the records.
pub proof fn lemma_info_in_range(infos: Seq<InfoView>, font_path: Seq<char>, from: int)
    requires
        0 <= from,
    ensures
        info_index(infos, font_path, from) matches Some(i) ==> from <= i < infos.len(),
    decreases infos.len() - from,
{
    if from < infos.len() && !is_info_for(infos[from].uri, font_path) {
        lemma_info_in_range(infos, font_path, from + 1);
    }
}

/// The bytes of a font as they are embedded: restored by the scheme of its
/// record where it has one and the book has an id, else as they are.
pub open spec fn restored_font(
    data: Seq<u8>,
    path: Seq<char>,
    infos: Seq<InfoView>,
    unique_id: Option<Seq<char>>,
) -> Seq<u8> {
    match (info_index(infos, path, 0), unique_id) {
        (Some(i), Some(id)) => match infos[i].algorithm {
            ObfuscationAlgorithm::Idpf => idpf_restored(data, id),
            ObfuscationAlgorithm::Adobe => adobe_restored(data, id),
        },
        _ => data,
    }
}

/// The table of fonts after the first `n` resources: each resource whose
/// media type is that of a font, restored, as a data URI.
pub open spec fn font_map(
    resources: Seq<ResourceView>,
    n: nat,
    infos: Seq<InfoView>,
    unique_id: Option<Seq<char>>,
) -> Seq<NamedView>
    decreases n,
{
    if n == 0 || n > resources.len() {
        Seq::empty()
    } else {
        let before = font_map(resources, (n - 1) as nat, infos, unique_id);
        let r = resources[n - 1];
        if is_font_type(r.mime) {
            with_resource(
                before,
                r.path,
                data_uri_text(
                    embedded_font_type(r.mime),
                    restored_font(r.data, r.path, infos, unique_id),
                ),
            )
        } else {
            before
        }
    }
}

/// The text of a string that may be there.
pub open spec fn text_of(s: Option<String>) -> Option<Seq<char>> {
    match s {
        Some(t) => Some(t@),
        None => None,
    }
}

/// Makes the table of the fonts of a book.
pub fn build_font_map(
    resources: &Vec<Resource>,
    encryption_infos: &Vec<EncryptionInfo>,
    unique_id: &Option<String>,
) -> (map: Vec<NamedText>)
    requires
        all_encodable(resources_of(resources@)),
    ensures
        table_of(map@) == font_map(
            resources_of(resources@),
            resources@.len() as nat,
            infos_of(encryption_infos@),
            text_of(*unique_id),
        ),
{
    let ghost all = resources_of(resources@);
    let ghost infos = infos_of(encryption_infos@);
    let mut map: Vec<NamedText> = Vec::new();
    let mut i: usize = 0;
    assert(table_of(map@) =~= Seq::<NamedView>::empty());
    while i < resources.len()
        invariant
            all == resources_of(resources@),
            infos == infos_of(encryption_infos@),
            all_encodable(all),
            i <= resources@.len(),
            table_of(map@) == font_map(all, i as nat, infos, text_of(*unique_id)),
        decreases resources@.len() - i,
    {
        let r = &resources[i];
        assert(all[i as int] == r@);
        if is_font_mime(r.mime.as_str()) {
            let mut data = vstd::slice::slice_to_vec(r.data.as_slice());
            proof {
                lemma_info_index(encryption_infos@, r.path@, 0);
            }
            match (find_encryption_info(r.path.as_str(), encryption_infos), unique_id) {
                (Some(info), Some(id)) => {
                    proof {
                        let at = info_from(encryption_infos@, r.path@, 0)->0;
                        lemma_info_in_range(infos, r.path@, 0);
                        assert(infos[at].algorithm == encryption_infos@[at].algorithm);
                        assert(text_of(*unique_id) == Some(id@));
                    }
                    match info.algorithm {
                        ObfuscationAlgorithm::Idpf => deobfuscate_idpf(&mut data, id.as_str()),
                        ObfuscationAlgorithm::Adobe => deobfuscate_adobe(&mut data, id.as_str()),
                    }
                },
                _ => {},
            }
            assert(data@ == restored_font(r.data@, r.path@, infos, text_of(*unique_id)));
            assert(data@.len() == r.data@.len());
            let uri = data_uri(font_data_uri_mime(r.mime.as_str()), data.as_slice());
            add_resource(&mut map, r.path.as_str(), uri);
        }
        i = i + 1;
    }
    map
}

// ── style sheets ────────────────────────────────────────────────────

/// The style sheets of a book and the font rules that were taken out of
/// them.
pub struct StylesView {
    pub sheets: Seq<NamedView>,
    pub font_styles: Seq<char>,
}

/// Whether a resource is a style sheet that can be read.
pub open spec fn is_sheet(r: ResourceView) -> bool {
    contains(r.mime, "css"@) && valid_utf8(r.data)
}

/// The styles after the first `n` resources. Each style sheet stands in
/// the table without its font rules, its references replaced by the
/// images; its font rules, their references replaced by the fonts and
/// images, are added to the font rules of the book with a line break.
pub open spec fn styles(
    resources: Seq<ResourceView>,
    n: nat,
    images: Seq<NamedView>,
    faces: Seq<NamedView>,
) -> StylesView
    decreases n,
{
    if n == 0 || n > resources.len() {
        StylesView { sheets: Seq::empty(), font_styles: Seq::empty() }
    } else {
        let before = styles(resources, (n - 1) as nat, images, faces);
        let r = resources[n - 1];
        if is_sheet(r) {
            let css = decode_utf8(r.data);
            StylesView {
                sheets: with_resource(
                    before.sheets,
                    r.path,
                    css_with_resources(without_font_faces(css), r.path, images),
                ),
                font_styles: if font_faces(css).len() == 0 {
                    before.font_styles
                } else {
                    before.font_styles + css_with_resources(font_faces(css), r.path, faces).push(
                        '\n',
                    )
                },
            }
        } else {
            before
        }
    }
}

/// Makes the table of the style sheets of a book and its font rules. The
/// fonts are looked up in the images with the fonts put into them.
pub fn build_css_and_font_styles(
    resources: &Vec<Resource>,
    image_map: &Vec<NamedText>,
    font_map: &Vec<NamedText>,
) -> (made: (Vec<NamedText>, String))
    ensures
        ({
            let faces = extended(
                table_of(image_map@),
                table_of(font_map@),
                font_map@.len() as nat,
            );
            let all = styles(
                resources_of(resources@),
                resources@.len() as nat,
                table_of(image_map@),
                faces,
            );
            table_of(made.0@) == all.sheets && made.1@ == all.font_styles
        }),
{
    let ghost all = resources_of(resources@);
    let ghost images = table_of(image_map@);
    let font_face_map = extend_table(image_map, font_map);
    let ghost faces = table_of(font_face_map@);
    let mut css_map: Vec<NamedText> = Vec::new();
    let mut all_font_styles = String::new();
    let mut i: usize = 0;
    assert(table_of(css_map@) =~= Seq::<NamedView>::empty());
    while i < resources.len()
        invariant
            all == resources_of(resources@),
            images == table_of(image_map@),
            faces == table_of(font_face_map@),
            i <= resources@.len(),
            table_of(css_map@) == styles(all, i as nat, images, faces).sheets,
            all_font_styles@ == styles(all, i as nat, images, faces).font_styles,
        decreases resources@.len() - i,
    {
        let r = &resources[i];
        assert(all[i as int] == r@);
        if str_contains(r.mime.as_str(), "css") && is_utf8(r.data.as_slice()) {
            let css_text = utf8_lossy(r.data.as_slice());
            let (font_rules, remaining) = extract_font_face_blocks(css_text.as_str());
            if chars_of(font_rules.as_str()).len() > 0 {
                let ghost before = all_font_styles@;
                let processed_fonts = replace_css_urls(
                    font_rules.as_str(),
                    r.path.as_str(),
                    &font_face_map,
                );
                all_font_styles.append(processed_fonts.as_str());
                all_font_styles.push('\n');
                assert(all_font_styles@ =~= before + processed_fonts@.push('\n'));
            }
            let processed = replace_css_urls(remaining.as_str(), r.path.as_str(), image_map);
            add_resource(&mut css_map, r.path.as_str(), processed);
        }
        i = i + 1;
    }
    (css_map, all_font_styles)
}

// ── obfuscated resources ────────────────────────────────────────────

/// The pattern of one record of the list of obfuscated resources, what
/// stands in it as group 1.
pub open spec fn encrypted_data_pattern() -> Seq<char> {
    r"(?s)<(?:\w+:)?EncryptedData[^>]*>(.*?)</(?:\w+:)?EncryptedData>"@
}

/// The pattern of the name of a scheme, the name as group 1.
pub open spec fn algorithm_pattern() -> Seq<char> {
    r#"(?i)Algorithm\s*=\s*["']([^"']+)["']"#@
}

/// The pattern of the place of an obfuscated resource, the place as group
/// 1.
pub open spec fn cipher_reference_pattern() -> Seq<char> {
    r#"(?i)<(?:\w+:)?CipherReference[^>]+URI\s*=\s*["']([^"']+)["']"#@
}

/// What group 1 of the first match of a pattern in a text holds.
pub open spec fn first_group(pattern: Seq<char>, text: Seq<char>) -> Option<Seq<char>> {
    let hits = hits_of(pattern, text);
    if hits.len() == 0 {
        None
    } else {
        group_text(text, hits[0], 1)
    }
}

/// What group 1 of the first match of a pattern in a text holds.
fn first_group_of(pattern: &str, text: &str) -> (found: Option<String>)
    ensures
        match found {
            Some(t) => first_group(pattern@, text@) == Some(t@),
            None => first_group(pattern@, text@) is None,
        },
{
    let hits = find_hits(pattern, text);
    if hits.len() == 0 {
        return None;
    }
    assert(groups_of(hits@)[0] == hits@[0]@);
    group_of(text, &hits[0], 1)
}

/// The scheme that a name stands for.
pub open spec fn scheme_named(name: Seq<char>) -> Option<ObfuscationAlgorithm> {
    if contains(name, "idpf.org/2008/embedding"@) {
        Some(ObfuscationAlgorithm::Idpf)
    } else if contains(name, "ns.adobe.com/pdf/enc"@) {
        Some(ObfuscationAlgorithm::Adobe)
    } else {
        None
    }
}

/// What one record says: the scheme it names, if it is one of the two, and
/// the place it refers to, its percent escapes decoded.
pub open spec fn block_info(block: Seq<char>) -> Option<InfoView> {
    match first_group(algorithm_pattern(), block) {
        None => None,
        Some(name) => match scheme_named(name) {
            None => None,
            Some(algorithm) => match first_group(cipher_reference_pattern(), block) {
                None => None,
                Some(uri) => Some(InfoView { uri: percent_decoded_from(uri, 0), algorithm }),
            },
        },
    }
}

/// What the first `n` records say, those left out that say nothing.
pub open spec fn infos_in(content: Seq<char>, hits: Seq<Hit>, n: nat) -> Seq<InfoView>
    decreases n,
{
    if n == 0 || n > hits.len() {
        Seq::empty()
    } else {
        let before = infos_in(content, hits, (n - 1) as nat);
        match group_text(content, hits[n - 1], 1) {
            None => before,
            Some(block) => match block_info(block) {
                Some(info) => before.push(info),
                None => before,
            },
        }
    }
}

/// What the list of obfuscated resources says.
pub open spec fn encryption_infos(content: Seq<char>) -> Seq<InfoView> {
    let hits = hits_of(encrypted_data_pattern(), content);
    infos_in(content, hits, hits.len())
}

/// What one record says.
fn parse_block(block: &str) -> (info: Option<EncryptionInfo>)
    ensures
        match info {
            Some(i) => block_info(block@) == Some(
                InfoView { uri: i.uri@, algorithm: i.algorithm },
            ),
            None => block_info(block@) is None,
        },
{
    let name = match first_group_of(r#"(?i)Algorithm\s*=\s*["']([^"']+)["']"#, block) {
        Some(name) => name,
        None => {
            return None;
        },
    };
    let algorithm = if str_contains(name.as_str(), "idpf.org/2008/embedding") {
        ObfuscationAlgorithm::Idpf
    } else if str_contains(name.as_str(), "ns.adobe.com/pdf/enc") {
        ObfuscationAlgorithm::Adobe
    } else {
        return None;
    };
    match first_group_of(
        r#"(?i)<(?:\w+:)?CipherReference[^>]+URI\s*=\s*["']([^"']+)["']"#,
        block,
    ) {
        Some(uri) => Some(EncryptionInfo { uri: percent_decode(uri.as_str()), algorithm }),
        None => None,
    }
}

/// Reads the list of the obfuscated resources of a book.
pub fn parse_encryption_xml(content: &str) -> (infos: Vec<EncryptionInfo>)
    ensures
        infos_of(infos@) == encryption_infos(content@),
{
    let hits = find_hits(
        r"(?s)<(?:\w+:)?EncryptedData[^>]*>(.*?)</(?:\w+:)?EncryptedData>",
        content,
    );
    let ghost all = groups_of(hits@);
    let mut infos: Vec<EncryptionInfo> = Vec::new();
    let mut i: usize = 0;
    assert(infos_of(infos@) =~= Seq::<InfoView>::empty());
    while i < hits.len()
        invariant
            all == groups_of(hits@),
            matches_fit(content@, all),
            i <= hits@.len(),
            infos_of(infos@) == infos_in(content@, all, i as nat),
        decreases hits@.len() - i,
    {
        assert(all[i as int] == hits@[i as int]@);
        match group_of(content, &hits[i], 1) {
            None => {},
            Some(block) => match parse_block(block.as_str()) {
                Some(info) => {
                    assert(infos_of(infos@.push(info)) =~= infos_of(infos@).push(
                        InfoView { uri: info.uri@, algorithm: info.algorithm },
                    ));
                    infos.push(info);
                },
                None => {},
            },
        }
        i = i + 1;
    }
    infos
}

// ── the id of the book ──────────────────────────────────────────────

/// The id of a book: its unique identifier where it has one that is not
/// empty, else the identifier among its metadata.
pub open spec fn unique_id(unique: Option<Seq<char>>, identifier: Option<Seq<char>>) -> Option<
    Seq<char>,
> {
    match unique {
        Some(id) => if id.len() > 0 {
            Some(id)
        } else {
            identifier
        },
        None => identifier,
    }
}

/// Picks the id of a book.
pub fn get_unique_identifier(unique: &Option<String>, identifier: &Option<String>) -> (id: Option<
    String,
>)
    ensures
        text_of(id) == unique_id(text_of(*unique), text_of(*identifier)),
{
    match unique {
        Some(id) => {
            if chars_of(id.as_str()).len() > 0 {
                return Some(id.clone());
            }
        },
        None => {},
    }
    match identifier {
        Some(id) => Some(id.clone()),
        None => None,
    }
}

// ── chapters ────────────────────────────────────────────────────────

/// The character of a digit.
pub open spec fn digit_char(d: nat) -> char {
    if d == 0 {
        '0'
    } else if d == 1 {
        '1'
    } else if d == 2 {
        '2'
    } else if d == 3 {
        '3'
    } else if d == 4 {
        '4'
    } else if d == 5 {
        '5'
    } else if d == 6 {
        '6'
    } else if d == 7 {
        '7'
    } else if d == 8 {
        '8'
    } else {
        '9'
    }
}

/// A number in decimal digits.
pub open spec fn decimal(n: nat) -> Seq<char>
    decreases n,
{
    if n < 10 {
        seq![digit_char(n)]
    } else {
        decimal(n / 10).push(digit_char(n % 10))
    }
}

/// The character of a digit.
fn digit_of(d: usize) -> (c: char)
    requires
        d < 10,
    ensures
        c == digit_char(d as nat),
{
    if d == 0 {
        '0'
    } else if d == 1 {
        '1'
    } else if d == 2 {
        '2'
    } else if d == 3 {
        '3'
    } else if d == 4 {
        '4'
    } else if d == 5 {
        '5'
    } else if d == 6 {
        '6'
    } else if d == 7 {
        '7'
    } else if d == 8 {
        '8'
    } else {
        '9'
    }
}

/// Writes a number in decimal digits.
pub fn decimal_text(n: usize) -> (text: String)
    ensures
        text@ == decimal(n as nat),
    decreases n,
{
    if n < 10 {
        let mut text = String::new();
        text.push(digit_of(n));
        assert(text@ =~= seq![digit_char(n as nat)]);
        text
    } else {
        let mut text = decimal_text(n / 10);
        text.push(digit_of(n % 10));
        text
    }
}

/// What one item of the spine stands for.
pub struct SpineView {
    pub path: Option<Seq<char>>,
    pub content: Seq<char>,
    pub mime: Seq<char>,
}

/// One item of the spine that could be read: where it stands in the book,
/// if that is known, its text and its media type.
#[derive(Debug)]
pub struct SpineChapter {
    pub path: Option<String>,
    pub content: String,
    pub mime: String,
}

impl View for SpineChapter {
    type V = SpineView;

    open spec fn view(&self) -> SpineView {
        SpineView { path: text_of(self.path), content: self.content@, mime: self.mime@ }
    }
}

/// What the items of a spine stand for.
pub open spec fn spine_of(items: Seq<SpineChapter>) -> Seq<SpineView> {
    Seq::new(items.len(), |i: int| items[i]@)
}

/// What a chapter stands for.
pub struct ChapterView {
    pub title: Seq<char>,
    pub html: Seq<char>,
}

/// What chapters stand for.
pub open spec fn chapters_of(chapters: Seq<EpubChapter>) -> Seq<ChapterView> {
    Seq::new(chapters.len(), |i: int| ChapterView { title: chapters[i].title@, html: chapters[i].html@ })
}

/// Whether an item of a media type is a chapter.
pub open spec fn is_chapter_type(mime: Seq<char>) -> bool {
    contains(mime, "html"@) || contains(mime, "xml"@)
}

/// The title of the chapter at `path` that is the `ordinal`-th of the
/// book: the one that the table of contents gives it, else `Chapter` and
/// the ordinal.
pub open spec fn chapter_title(path: Option<Seq<char>>, titles: Seq<NamedView>, ordinal: nat) -> Seq<
    char,
> {
    match path {
        Some(p) => match title_for(titles, p) {
            Some(title) => title,
            None => "Chapter "@ + decimal(ordinal),
        },
        None => "Chapter "@ + decimal(ordinal),
    }
}

/// The path that references in a chapter start from.
pub open spec fn base_path(path: Option<Seq<char>>) -> Seq<char> {
    match path {
        Some(p) => p,
        None => Seq::empty(),
    }
}

/// The chapters that the first `n` items of the spine make: one for each
/// item whose media type is that of a chapter.
pub open spec fn chapters_from(
    spine: Seq<SpineView>,
    n: nat,
    images: Seq<NamedView>,
    sheets: Seq<NamedView>,
    titles: Seq<NamedView>,
) -> Seq<ChapterView>
    decreases n,
{
    if n == 0 || n > spine.len() {
        Seq::empty()
    } else {
        let before = chapters_from(spine, (n - 1) as nat, images, sheets, titles);
        let item = spine[n - 1];
        if is_chapter_type(item.mime) {
            before.push(
                ChapterView {
                    title: chapter_title(item.path, titles, before.len() + 1),
                    html: chapter_html(item.content, base_path(item.path), images, sheets),
                },
            )
        } else {
            before
        }
    }
}

/// Makes the chapters of a book from the items of its spine.
pub fn build_chapters(
    spine: &Vec<SpineChapter>,
    image_map: &Vec<NamedText>,
    css_map: &Vec<NamedText>,
    toc_titles: &Vec<NamedText>,
) -> (chapters: Vec<EpubChapter>)
    ensures
        chapters_of(chapters@) == chapters_from(
            spine_of(spine@),
            spine@.len() as nat,
            table_of(image_map@),
            table_of(css_map@),
            table_of(toc_titles@),
        ),
{
    let ghost all = spine_of(spine@);
    let ghost images = table_of(image_map@);
    let ghost sheets = table_of(css_map@);
    let ghost titles = table_of(toc_titles@);
    let mut chapters: Vec<EpubChapter> = Vec::new();
    let mut i: usize = 0;
    assert(chapters_of(chapters@) =~= Seq::<ChapterView>::empty());
    while i < spine.len()
        invariant
            all == spine_of(spine@),
            images == table_of(image_map@),
            sheets == table_of(css_map@),
            titles == table_of(toc_titles@),
            i <= spine@.len(),
            chapters@.len() <= i,
            chapters_of(chapters@) == chapters_from(all, i as nat, images, sheets, titles),
        decreases spine@.len() - i,
    {
        let item = &spine[i];
        assert(all[i as int] == item@);
        if str_contains(item.mime.as_str(), "html") || str_contains(item.mime.as_str(), "xml") {
            let found = match &item.path {
                Some(p) => find_toc_title(p.as_str(), toc_titles),
                None => None,
            };
            let title = match found {
                Some(title) => title,
                None => {
                    let mut title = String::from_str("Chapter ");
                    title.append(decimal_text(chapters.len() + 1).as_str());
                    title
                },
            };
            let html = match &item.path {
                Some(p) => process_chapter_html(
                    item.content.as_str(),
                    p.as_str(),
                    image_map,
                    css_map,
                ),
                None => process_chapter_html(item.content.as_str(), "", image_map, css_map),
            };
            proof {
                reveal_strlit("");
                assert(""@ =~= Seq::<char>::empty());
            }
            let chapter = EpubChapter { title, html };
            assert(chapters_of(chapters@.push(chapter)) =~= chapters_of(chapters@).push(
                ChapterView { title: chapter.title@, html: chapter.html@ },
            ));
            chapters.push(chapter);
        }
        i = i + 1;
    }
    chapters
}

// ── the book ────────────────────────────────────────────────────────

/// What was read of a book: its ids, the list of its obfuscated resources
/// if it has one that can be read, its resources in the order in which
/// they were walked, its table of contents, and the items of its spine
/// that could be read, in reading order.
#[derive(Debug)]
pub struct EpubSource {
    pub unique_identifier: Option<String>,
    pub identifier: Option<String>,
    pub encryption_xml: Option<String>,
    pub resources: Vec<Resource>,
    pub toc: Vec<NavPoint>,
    pub spine: Vec<SpineChapter>,
}

/// Why no book was made.
#[derive(Debug, PartialEq, Eq)]
pub enum BookError {
    /// No item of the spine is a chapter.
    NoReadableChapters,
}

impl EpubSource {
    /// The obfuscated resources of the book.
    pub open spec fn infos(&self) -> Seq<InfoView> {
        match self.encryption_xml {
            Some(content) => encryption_infos(content@),
            None => Seq::empty(),
        }
    }

    /// The table of the images of the book.
    pub open spec fn images(&self) -> Seq<NamedView> {
        image_map(resources_of(self.resources@), self.resources@.len() as nat)
    }

    /// The table of the fonts of the book.
    pub open spec fn fonts(&self) -> Seq<NamedView> {
        font_map(
            resources_of(self.resources@),
            self.resources@.len() as nat,
            self.infos(),
            unique_id(text_of(self.unique_identifier), text_of(self.identifier)),
        )
    }

    /// The style sheets and font rules of the book.
    pub open spec fn styles(&self) -> StylesView {
        styles(
            resources_of(self.resources@),
            self.resources@.len() as nat,
            self.images(),
            extended(self.images(), self.fonts(), self.fonts().len()),
        )
    }

    /// The chapters of the book.
    pub open spec fn chapters(&self) -> Seq<ChapterView> {
        chapters_from(
            spine_of(self.spine@),
            self.spine@.len() as nat,
            self.images(),
            self.styles().sheets,
            collected(self.toc@, self.toc@.len(), Seq::empty()),
        )
    }
}

/// Makes a book of what was read of it. A book has at least one chapter.
pub fn parse_epub(source: &EpubSource) -> (made: Result<EpubBook, BookError>)
    requires
        all_encodable(resources_of(source.resources@)),
    ensures
        match made {
            Ok(book) => {
                &&& source.chapters().len() > 0
                &&& chapters_of(book.chapters@) == source.chapters()
                &&& book.font_styles@ == source.styles().font_styles
            },
            Err(e) => e == BookError::NoReadableChapters && source.chapters().len() == 0,
        },
{
    let id = get_unique_identifier(&source.unique_identifier, &source.identifier);
    let encryption_infos = match &source.encryption_xml {
        Some(content) => parse_encryption_xml(content.as_str()),
        None => {
            let none: Vec<EncryptionInfo> = Vec::new();
            assert(infos_of(none@) =~= Seq::<InfoView>::empty());
            none
        },
    };
    let image_map = build_image_map(&source.resources);
    let font_map = build_font_map(&source.resources, &encryption_infos, &id);
    let (css_map, font_styles) = build_css_and_font_styles(
        &source.resources,
        &image_map,
        &font_map,
    );
    let toc_titles = build_toc_titles(&source.toc);
    let chapters = build_chapters(&source.spine, &image_map, &css_map, &toc_titles);
    assert(chapters_of(chapters@).len() == chapters@.len());
    if chapters.len() == 0 {
        return Err(BookError::NoReadableChapters);
    }
    Ok(EpubBook { font_styles, chapters })
}

} // verus!
