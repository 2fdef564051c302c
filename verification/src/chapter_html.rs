//! The markup of a chapter made ready for showing: style sheets put in
//! place of the links to them, references to images and fonts replaced by
//! the resources themselves, and the body cut out of the page.
//!
//! Places in a text are byte offsets here, as patterns report them. Where
//! an offset that was found in the lower-case copy of a text cuts no piece
//! out of the text itself, the text is left as it is.

use vstd::prelude::*;
use vstd::string::StringExecFns;
use vstd::string::StringSliceAdditionalSpecFns;
use vstd::utf8::{
    encode_utf8, encode_utf8_valid_utf8, is_ascii_chars, is_ascii_chars_encode_utf8,
    is_char_boundary, is_char_boundary_start_end_of_seq,
};

use crate::epub_reader::{
    find_in_resource_map, resolve_path, resolved, resource_for, table_of, NamedText, NamedView,
};
use crate::outside::{
    captures_of, groups_of, lowercased, matches_fit, regex_captures, span_fits, whole_span,
};
use crate::text::{
    bytes_text, chars_of, chars_start_with, find_bytes, find_bytes_from, join_chars, joined,
    piece_fits, starts_with, str_between, texts_of, trim, trimmed,
};

verus! {

/// One match: the span of the whole match, then the spans of its groups.
pub type Hit = Seq<Option<(usize, usize)>>;

// ── matches and what is put in their place ──────────────────────────

/// The matches of a pattern in a text, none where the pattern is refused.
pub open spec fn hits_of(pattern: Seq<char>, text: Seq<char>) -> Seq<Hit> {
    match regex_captures(pattern, text) {
        Some(hits) => hits,
        None => Seq::empty(),
    }
}

/// What group `g` of a match holds, if it took part in the match.
pub open spec fn group_text(text: Seq<char>, hit: Hit, g: int) -> Option<Seq<char>> {
    if 0 <= g < hit.len() && hit[g] is Some {
        let span = hit[g]->0;
        Some(bytes_text(text, span.0 as int, span.1 as int))
    } else {
        None
    }
}

/// What the whole match holds.
pub open spec fn whole_text(text: Seq<char>, hit: Hit) -> Seq<char> {
    let span = whole_span(hit);
    bytes_text(text, span.0 as int, span.1 as int)
}

/// The text from byte `last` on with each match from the `i`-th on replaced
/// by its replacement: what stands between the matches stays.
pub open spec fn spliced_from(text: Seq<char>, hits: Seq<Hit>, reps: Seq<Seq<char>>, i: int, last: int) -> Seq<
    char,
>
    decreases hits.len() - i,
{
    if i < 0 || i >= hits.len() {
        bytes_text(text, last, encode_utf8(text).len() as int)
    } else {
        let whole = whole_span(hits[i]);
        bytes_text(text, last, whole.0 as int) + reps[i] + spliced_from(
            text,
            hits,
            reps,
            i + 1,
            whole.1 as int,
        )
    }
}

/// The text with each match replaced by its replacement.
pub open spec fn spliced(text: Seq<char>, hits: Seq<Hit>, reps: Seq<Seq<char>>) -> Seq<char> {
    spliced_from(text, hits, reps, 0, 0)
}

/// The texts that strings spell.
pub open spec fn spelled(v: Seq<String>) -> Seq<Seq<char>> {
    Seq::new(v.len(), |i: int| v[i]@)
}

/// The matches of a pattern in a text.
pub(crate) fn find_hits(pattern: &str, text: &str) -> (hits: Vec<Vec<Option<(usize, usize)>>>)
    ensures
        groups_of(hits@) == hits_of(pattern@, text@),
        matches_fit(text@, groups_of(hits@)),
{
    match captures_of(pattern, text) {
        Some(hits) => hits,
        None => {
            let none: Vec<Vec<Option<(usize, usize)>>> = Vec::new();
            assert(groups_of(none@) =~= Seq::<Hit>::empty());
            none
        },
    }
}

/// What group `g` of a match holds.
pub(crate) fn group_of(text: &str, hit: &Vec<Option<(usize, usize)>>, g: usize) -> (piece: Option<String>)
    requires
        forall|k: int| 0 <= k < hit@.len() && (#[trigger] hit@[k]) is Some ==> span_fits(
            text@,
            hit@[k]->0,
        ),
    ensures
        match piece {
            Some(t) => group_text(text@, hit@, g as int) == Some(t@),
            None => group_text(text@, hit@, g as int) is None,
        },
{
    if g >= hit.len() {
        return None;
    }
    match hit[g] {
        None => None,
        Some(span) => {
            assert(span_fits(text@, hit@[g as int]->0));
            str_between(text, span.0, span.1)
        },
    }
}

/// Puts the replacements in the places of the matches.
fn splice(text: &str, hits: &Vec<Vec<Option<(usize, usize)>>>, reps: &Vec<String>) -> (out: String)
    requires
        matches_fit(text@, groups_of(hits@)),
        reps@.len() == hits@.len(),
    ensures
        out@ == spliced(text@, groups_of(hits@), spelled(reps@)),
{
    let ghost all = groups_of(hits@);
    let ghost with = spelled(reps@);
    let len = text.as_bytes().len();
    let n = hits.len();
    let mut out = String::new();
    let mut last: usize = 0;
    let mut i: usize = 0;
    proof {
        encode_utf8_valid_utf8(text@);
        is_char_boundary_start_end_of_seq(encode_utf8(text@));
        assert(Seq::<char>::empty() + spliced_from(text@, all, with, 0, 0) =~= spliced(
            text@,
            all,
            with,
        ));
    }
    while i < n
        invariant
            all == groups_of(hits@),
            with == spelled(reps@),
            matches_fit(text@, all),
            n == hits@.len(),
            reps@.len() == n,
            i <= n,
            len == encode_utf8(text@).len(),
            last <= len,
            is_char_boundary(encode_utf8(text@), last as int),
            is_char_boundary(encode_utf8(text@), len as int),
            i < n ==> last <= whole_span(all[i as int]).0,
            out@ + spliced_from(text@, all, with, i as int, last as int) == spliced(
                text@,
                all,
                with,
            ),
        decreases n - i,
    {
        assert(all[i as int] == hits@[i as int]@);
        assert(all[i as int][0] is Some);
        let whole = match hits[i][0] {
            Some(span) => span,
            None => (last, last),
        };
        assert(whole == whole_span(all[i as int]));
        assert(span_fits(text@, all[i as int][0]->0));
        let ghost before = out@;
        let ghost rest = spliced_from(text@, all, with, i + 1, whole.1 as int);
        match str_between(text, last, whole.0) {
            Some(between) => {
                out.append(between.as_str());
            },
            None => {},
        }
        out.append(reps[i].as_str());
        proof {
            assert(with[i as int] == reps@[i as int]@);
            assert(before + (bytes_text(text@, last as int, whole.0 as int) + with[i as int]
                + rest) =~= out@ + rest);
            if i + 1 < n {
                assert(whole_span(all[i as int]).1 <= whole_span(all[i + 1]).0);
            }
        }
        last = whole.1;
        i = i + 1;
    }
    match str_between(text, last, len) {
        Some(tail) => {
            out.append(tail.as_str());
        },
        None => {},
    }
    out
}

// ── font rules ──────────────────────────────────────────────────────

/// The pattern of a font rule: `@font-face` and its block.
pub open spec fn font_face_pattern() -> Seq<char> {
    r"(?s)@font-face\s*\{[^}]*\}"@
}

/// The whole matches of a text, in their order.
pub open spec fn whole_texts(text: Seq<char>, hits: Seq<Hit>) -> Seq<Seq<char>> {
    Seq::new(hits.len(), |i: int| whole_text(text, hits[i]))
}

/// Nothing in the place of each match.
pub open spec fn nothing_for(hits: Seq<Hit>) -> Seq<Seq<char>> {
    Seq::new(hits.len(), |i: int| Seq::<char>::empty())
}

/// The font rules of a style sheet, one on each line.
pub open spec fn font_faces(css: Seq<char>) -> Seq<char> {
    joined(whole_texts(css, hits_of(font_face_pattern(), css)), '\n')
}

/// A style sheet without its font rules.
pub open spec fn without_font_faces(css: Seq<char>) -> Seq<char> {
    let hits = hits_of(font_face_pattern(), css);
    spliced(css, hits, nothing_for(hits))
}

/// Parts a style sheet into its font rules and the rest.
pub fn extract_font_face_blocks(css: &str) -> (parts: (String, String))
    ensures
        parts.0@ == font_faces(css@),
        parts.1@ == without_font_faces(css@),
{
    let hits = find_hits(r"(?s)@font-face\s*\{[^}]*\}", css);
    let ghost all = groups_of(hits@);
    let n = hits.len();
    let mut rules: Vec<Vec<char>> = Vec::with_capacity(n);
    let mut nothing: Vec<String> = Vec::with_capacity(n);
    let mut i: usize = 0;
    while i < n
        invariant
            all == groups_of(hits@),
            matches_fit(css@, all),
            n == hits@.len(),
            i <= n,
            rules@.len() == i,
            nothing@.len() == i,
            forall|k: int| 0 <= k < i ==> (#[trigger] rules@[k])@ == whole_text(css@, all[k]),
            forall|k: int| 0 <= k < i ==> (#[trigger] nothing@[k])@ == Seq::<char>::empty(),
        decreases n - i,
    {
        assert(all[i as int] == hits@[i as int]@);
        assert(all[i as int][0] is Some);
        let rule = match group_of(css, &hits[i], 0) {
            Some(rule) => rule,
            None => String::new(),
        };
        rules.push(chars_of(rule.as_str()));
        nothing.push(String::new());
        i = i + 1;
    }
    assert(texts_of(rules@) =~= whole_texts(css@, all));
    assert(spelled(nothing@) =~= nothing_for(all));
    (join_chars(&rules, '\n'), splice(css, &hits, &nothing))
}

// ── references in style sheets ──────────────────────────────────────

/// The pattern of a reference in a style sheet: `url(` … `)`, the
/// reference itself as group 1.
pub open spec fn css_url_pattern() -> Seq<char> {
    r#"url\(\s*['"]?([^'")]+?)['"]?\s*\)"#@
}

/// What stands in the place of a reference in a style sheet: the resource
/// it means, as a reference of its own; the reference as it is where it
/// holds its data already or means no resource.
pub open spec fn css_url_replacement(
    css: Seq<char>,
    hit: Hit,
    css_path: Seq<char>,
    table: Seq<NamedView>,
) -> Seq<char> {
    match group_text(css, hit, 1) {
        None => whole_text(css, hit),
        Some(raw) => {
            let src = trimmed(raw);
            if starts_with(src, "data:"@) {
                whole_text(css, hit)
            } else {
                match resource_for(table, resolved(css_path, src), src) {
                    Some(uri) => "url(\""@ + uri + "\")"@,
                    None => whole_text(css, hit),
                }
            }
        },
    }
}

/// A style sheet with its references replaced by the resources they mean.
pub open spec fn css_with_resources(css: Seq<char>, css_path: Seq<char>, table: Seq<NamedView>) -> Seq<
    char,
> {
    let hits = hits_of(css_url_pattern(), css);
    spliced(
        css,
        hits,
        Seq::new(hits.len(), |i: int| css_url_replacement(css, hits[i], css_path, table)),
    )
}

/// Replaces the references of a style sheet, which stands at `css_path`,
/// by the resources they mean.
pub fn replace_css_urls(css: &str, css_path: &str, resource_map: &Vec<NamedText>) -> (out: String)
    ensures
        out@ == css_with_resources(css@, css_path@, table_of(resource_map@)),
{
    let hits = find_hits(r#"url\(\s*['"]?([^'")]+?)['"]?\s*\)"#, css);
    let ghost all = groups_of(hits@);
    let ghost table = table_of(resource_map@);
    let n = hits.len();
    let mut reps: Vec<String> = Vec::with_capacity(n);
    let mut i: usize = 0;
    while i < n
        invariant
            all == groups_of(hits@),
            table == table_of(resource_map@),
            matches_fit(css@, all),
            n == hits@.len(),
            i <= n,
            reps@.len() == i,
            forall|k: int|
                0 <= k < i ==> (#[trigger] reps@[k])@ == css_url_replacement(
                    css@,
                    all[k],
                    css_path@,
                    table,
                ),
        decreases n - i,
    {
        assert(all[i as int] == hits@[i as int]@);
        assert(all[i as int][0] is Some);
        let whole = match group_of(css, &hits[i], 0) {
            Some(whole) => whole,
            None => String::new(),
        };
        let rep = match group_of(css, &hits[i], 1) {
            None => whole,
            Some(raw) => {
                let src = trim(raw.as_str());
                if chars_start_with(chars_of(src.as_str()).as_slice(), chars_of("data:").as_slice()) {
                    whole
                } else {
                    let target = resolve_path(css_path, src.as_str());
                    match find_in_resource_map(target.as_str(), src.as_str(), resource_map) {
                        Some(uri) => {
                            let mut rep = String::from_str("url(\"");
                            rep.append(uri.as_str());
                            rep.append("\")");
                            rep
                        },
                        None => whole,
                    }
                }
            },
        };
        reps.push(rep);
        i = i + 1;
    }
    assert(spelled(reps@) =~= Seq::new(
        all.len(),
        |i: int| css_url_replacement(css@, all[i], css_path@, table),
    ));
    splice(css, &hits, &reps)
}

// ── linked style sheets ─────────────────────────────────────────────

/// The pattern of a link tag.
pub open spec fn link_pattern() -> Seq<char> {
    r"(?i)<link\b[^>]*>"@
}

/// The pattern of the attribute that makes a link one to a style sheet.
pub open spec fn rel_pattern() -> Seq<char> {
    r#"(?i)rel\s*=\s*["']stylesheet["']"#@
}

/// The pattern of the target of a link, the target itself as group 1.
pub open spec fn href_pattern() -> Seq<char> {
    r#"(?i)href\s*=\s*["']([^"']+)["']"#@
}

/// What stands in the place of a link tag: the style sheet that it links
/// to, in a style tag; the tag as it is where it links to no style sheet
/// that is known.
pub open spec fn link_replacement(tag: Seq<char>, chapter_path: Seq<char>, table: Seq<NamedView>) -> Seq<
    char,
> {
    let targets = hits_of(href_pattern(), tag);
    if hits_of(rel_pattern(), tag).len() == 0 || targets.len() == 0 {
        tag
    } else {
        match group_text(tag, targets[0], 1) {
            None => tag,
            Some(href) => match resource_for(table, resolved(chapter_path, href), href) {
                Some(css) => "<style>"@ + css + "</style>"@,
                None => tag,
            },
        }
    }
}

/// A page with the style sheets it links to put in place of the links.
pub open spec fn with_inlined_styles(html: Seq<char>, chapter_path: Seq<char>, table: Seq<NamedView>) -> Seq<
    char,
> {
    let hits = hits_of(link_pattern(), html);
    spliced(
        html,
        hits,
        Seq::new(
            hits.len(),
            |i: int| link_replacement(whole_text(html, hits[i]), chapter_path, table),
        ),
    )
}

/// What stands in the place of one link tag.
fn replace_link(tag: String, chapter_path: &str, css_map: &Vec<NamedText>) -> (rep: String)
    ensures
        rep@ == link_replacement(tag@, chapter_path@, table_of(css_map@)),
{
    let rels = find_hits(r#"(?i)rel\s*=\s*["']stylesheet["']"#, tag.as_str());
    if rels.len() == 0 {
        return tag;
    }
    let targets = find_hits(r#"(?i)href\s*=\s*["']([^"']+)["']"#, tag.as_str());
    if targets.len() == 0 {
        return tag;
    }
    assert(groups_of(targets@)[0] == targets@[0]@);
    match group_of(tag.as_str(), &targets[0], 1) {
        None => tag,
        Some(href) => {
            let target = resolve_path(chapter_path, href.as_str());
            match find_in_resource_map(target.as_str(), href.as_str(), css_map) {
                Some(css) => {
                    let mut rep = String::from_str("<style>");
                    rep.append(css.as_str());
                    rep.append("</style>");
                    rep
                },
                None => tag,
            }
        },
    }
}

/// Puts the style sheets that a page links to in place of the links.
pub fn inline_linked_stylesheets(html: &str, chapter_path: &str, css_map: &Vec<NamedText>) -> (out:
    String)
    ensures
        out@ == with_inlined_styles(html@, chapter_path@, table_of(css_map@)),
{
    let hits = find_hits(r"(?i)<link\b[^>]*>", html);
    let ghost all = groups_of(hits@);
    let ghost table = table_of(css_map@);
    let n = hits.len();
    let mut reps: Vec<String> = Vec::with_capacity(n);
    let mut i: usize = 0;
    while i < n
        invariant
            all == groups_of(hits@),
            table == table_of(css_map@),
            matches_fit(html@, all),
            n == hits@.len(),
            i <= n,
            reps@.len() == i,
            forall|k: int|
                0 <= k < i ==> (#[trigger] reps@[k])@ == link_replacement(
                    whole_text(html@, all[k]),
                    chapter_path@,
                    table,
                ),
        decreases n - i,
    {
        assert(all[i as int] == hits@[i as int]@);
        assert(all[i as int][0] is Some);
        let tag = match group_of(html, &hits[i], 0) {
            Some(tag) => tag,
            None => String::new(),
        };
        reps.push(replace_link(tag, chapter_path, css_map));
        i = i + 1;
    }
    assert(spelled(reps@) =~= Seq::new(
        all.len(),
        |i: int| link_replacement(whole_text(html@, all[i]), chapter_path@, table),
    ));
    splice(html, &hits, &reps)
}

// ── images in the page ──────────────────────────────────────────────

/// The pattern of a reference to an image: the attribute up to its quote
/// as group 1, the reference as group 2, the closing quote as group 3.
pub open spec fn image_source_pattern() -> Seq<char> {
    r#"(?i)((?:src|xlink:href)\s*=\s*["'])([^"']+)(["'])"#@
}

/// What stands in the place of a reference to an image: the attribute with
/// the resource that the reference means; the attribute as it is where the
/// reference holds its data already or means no resource.
pub open spec fn image_source_replacement(
    html: Seq<char>,
    hit: Hit,
    chapter_path: Seq<char>,
    table: Seq<NamedView>,
) -> Seq<char> {
    match (group_text(html, hit, 1), group_text(html, hit, 2), group_text(html, hit, 3)) {
        (Some(prefix), Some(src), Some(suffix)) => if starts_with(src, "data:"@) {
            whole_text(html, hit)
        } else {
            match resource_for(table, resolved(chapter_path, src), src) {
                Some(uri) => prefix + uri + suffix,
                None => whole_text(html, hit),
            }
        },
        _ => whole_text(html, hit),
    }
}

/// A page with its references to images replaced by the images.
pub open spec fn with_images(html: Seq<char>, chapter_path: Seq<char>, table: Seq<NamedView>) -> Seq<
    char,
> {
    let hits = hits_of(image_source_pattern(), html);
    spliced(
        html,
        hits,
        Seq::new(hits.len(), |i: int| image_source_replacement(html, hits[i], chapter_path, table)),
    )
}

/// Replaces the references to images in a page, which stands at
/// `chapter_path`, by the images they mean.
pub fn replace_image_sources(html: &str, chapter_path: &str, image_map: &Vec<NamedText>) -> (out:
    String)
    ensures
        out@ == with_images(html@, chapter_path@, table_of(image_map@)),
{
    let hits = find_hits(r#"(?i)((?:src|xlink:href)\s*=\s*["'])([^"']+)(["'])"#, html);
    let ghost all = groups_of(hits@);
    let ghost table = table_of(image_map@);
    let n = hits.len();
    let mut reps: Vec<String> = Vec::with_capacity(n);
    let mut i: usize = 0;
    while i < n
        invariant
            all == groups_of(hits@),
            table == table_of(image_map@),
            matches_fit(html@, all),
            n == hits@.len(),
            i <= n,
            reps@.len() == i,
            forall|k: int|
                0 <= k < i ==> (#[trigger] reps@[k])@ == image_source_replacement(
                    html@,
                    all[k],
                    chapter_path@,
                    table,
                ),
        decreases n - i,
    {
        assert(all[i as int] == hits@[i as int]@);
        assert(all[i as int][0] is Some);
        let whole = match group_of(html, &hits[i], 0) {
            Some(whole) => whole,
            None => String::new(),
        };
        let prefix = group_of(html, &hits[i], 1);
        let src = group_of(html, &hits[i], 2);
        let suffix = group_of(html, &hits[i], 3);
        let rep = match (prefix, src, suffix) {
            (Some(prefix), Some(src), Some(suffix)) => {
                if chars_start_with(chars_of(src.as_str()).as_slice(), chars_of("data:").as_slice()) {
                    whole
                } else {
                    let target = resolve_path(chapter_path, src.as_str());
                    match find_in_resource_map(target.as_str(), src.as_str(), image_map) {
                        Some(uri) => {
                            let mut rep = prefix;
                            rep.append(uri.as_str());
                            rep.append(suffix.as_str());
                            rep
                        },
                        None => whole,
                    }
                }
            },
            _ => whole,
        };
        reps.push(rep);
        i = i + 1;
    }
    assert(spelled(reps@) =~= Seq::new(
        all.len(),
        |i: int| image_source_replacement(html@, all[i], chapter_path@, table),
    ));
    splice(html, &hits, &reps)
}

// ── body and styles of a page ───────────────────────────────────────

/// Where the byte `>` first stands at or behind byte `from` of a text.
pub open spec fn tag_end(text: Seq<char>, from: int) -> Option<int> {
    find_bytes_from(encode_utf8(text), encode_utf8(">"@), from)
}

/// Where a tag first stands at or behind byte `from` of a text in lower
/// case.
pub open spec fn tag_start(text: Seq<char>, tag: Seq<char>, from: int) -> Option<int> {
    find_bytes_from(encode_utf8(lowercased(text)), encode_utf8(tag), from)
}

/// Whether byte `at` cuts a text in two pieces.
pub open spec fn cuts(text: Seq<char>, at: int) -> bool {
    piece_fits(text, at, encode_utf8(text).len() as int)
}

/// What stands between the body tags of a page, without white space at
/// its ends: from behind the opening tag to the closing tag, or to the end
/// where there is no closing tag. The tags are looked for in the text in
/// lower case; a page without a body tag, and a page that the places found
/// there cut no piece out of, is left as it is.
pub open spec fn body_content(html: Seq<char>) -> Seq<char> {
    match tag_start(html, "<body"@, 0) {
        None => html,
        Some(body_start) => if !cuts(html, body_start) {
            html
        } else {
            match tag_end(html, body_start) {
                None => html,
                Some(gt) => match tag_start(html, "</body>"@, 0) {
                    Some(body_end) => if piece_fits(html, gt + 1, body_end) {
                        trimmed(bytes_text(html, gt + 1, body_end))
                    } else {
                        html
                    },
                    None => if cuts(html, gt + 1) {
                        trimmed(bytes_text(html, gt + 1, encode_utf8(html).len() as int))
                    } else {
                        html
                    },
                },
            }
        },
    }
}

/// How many bytes the closing bracket and the closing style tag take.
proof fn lemma_tag_lengths()
    ensures
        encode_utf8(">"@).len() == 1,
        encode_utf8("</style>"@).len() == 8,
{
    reveal_strlit(">");
    reveal_strlit("</style>");
    assert(is_ascii_chars(">"@));
    assert(is_ascii_chars("</style>"@));
    is_ascii_chars_encode_utf8(">"@);
    is_ascii_chars_encode_utf8("</style>"@);
}

/// Whether byte `at` cuts a text in two pieces.
fn is_cut(text: &str, at: usize) -> (b: bool)
    ensures
        b == cuts(text@, at as int),
{
    proof {
        encode_utf8_valid_utf8(text@);
        is_char_boundary_start_end_of_seq(encode_utf8(text@));
    }
    at <= text.as_bytes().len() && text.is_char_boundary(at)
}

/// Cuts the content of the body out of a page.
pub fn extract_body_content(html: &str) -> (body: String)
    ensures
        body@ == body_content(html@),
{
    let lower = html.to_lowercase();
    let len = html.as_bytes().len();
    let body_start = match find_bytes(lower.as_str().as_bytes(), "<body".as_bytes(), 0) {
        None => {
            return html.to_owned();
        },
        Some(at) => at,
    };
    if !is_cut(html, body_start) {
        return html.to_owned();
    }
    let gt = match find_bytes(html.as_bytes(), ">".as_bytes(), body_start) {
        None => {
            return html.to_owned();
        },
        Some(at) => at,
    };
    proof {
        lemma_tag_lengths();
    }
    let content_start = gt + 1;
    let content_end = match find_bytes(lower.as_str().as_bytes(), "</body>".as_bytes(), 0) {
        Some(body_end) => body_end,
        None => len,
    };
    proof {
        encode_utf8_valid_utf8(html@);
        is_char_boundary_start_end_of_seq(encode_utf8(html@));
    }
    match str_between(html, content_start, content_end) {
        Some(content) => trim(content.as_str()),
        None => html.to_owned(),
    }
}

/// The styles of a page from byte `from` on: what stands in each style
/// tag, each followed by a line break. The tags are looked for in the text
/// in lower case; the search ends at the first tag that is not closed, and
/// where a place that was found cuts no piece out of the page.
pub open spec fn head_styles_from(html: Seq<char>, from: int) -> Seq<char>
    decreases encode_utf8(lowercased(html)).len() - from,
{
    if !cuts(lowercased(html), from) {
        Seq::empty()
    } else {
        match tag_start(html, "<style"@, from) {
            None => Seq::empty(),
            Some(abs_start) => if !cuts(html, abs_start) {
                Seq::empty()
            } else {
                match tag_end(html, abs_start) {
                    None => Seq::empty(),
                    Some(gt) => if !cuts(lowercased(html), gt + 1) {
                        Seq::empty()
                    } else {
                        match tag_start(html, "</style>"@, gt + 1) {
                            None => Seq::empty(),
                            Some(abs_end) => if !piece_fits(html, gt + 1, abs_end) {
                                Seq::empty()
                            } else if from < abs_end + 8 <= encode_utf8(lowercased(html)).len() {
                                bytes_text(html, gt + 1, abs_end).push('\n') + head_styles_from(
                                    html,
                                    abs_end + 8,
                                )
                            } else {
                                bytes_text(html, gt + 1, abs_end).push('\n')
                            },
                        }
                    },
                }
            },
        }
    }
}

/// The styles of a page.
pub open spec fn head_styles(html: Seq<char>) -> Seq<char> {
    head_styles_from(html, 0)
}

/// Collects what stands in the style tags of a page.
pub fn extract_head_styles(html: &str) -> (styles: String)
    ensures
        styles@ == head_styles(html@),
{
    let lower = html.to_lowercase();
    let lower_len = lower.as_str().as_bytes().len();
    let html_len = html.as_bytes().len();
    let mut styles = String::new();
    let mut search_start: usize = 0;
    proof {
        assert(Seq::<char>::empty() + head_styles_from(html@, 0) =~= head_styles(html@));
    }
    loop
        invariant
            lower@ == lowercased(html@),
            lower_len == encode_utf8(lowercased(html@)).len(),
            html_len == encode_utf8(html@).len(),
            search_start <= lower_len,
            styles@ + head_styles_from(html@, search_start as int) == head_styles(html@),
        decreases lower_len - search_start,
    {
        let ghost before = styles@;
        if !is_cut(lower.as_str(), search_start) {
            assert(before + Seq::<char>::empty() =~= before);
            return styles;
        }
        let abs_start = match find_bytes(
            lower.as_str().as_bytes(),
            "<style".as_bytes(),
            search_start,
        ) {
            None => {
                assert(before + Seq::<char>::empty() =~= before);
                return styles;
            },
            Some(at) => at,
        };
        if !is_cut(html, abs_start) {
            assert(before + Seq::<char>::empty() =~= before);
            return styles;
        }
        let gt = match find_bytes(html.as_bytes(), ">".as_bytes(), abs_start) {
            None => {
                assert(before + Seq::<char>::empty() =~= before);
                return styles;
            },
            Some(at) => at,
        };
        proof {
            lemma_tag_lengths();
        }
        let content_start = gt + 1;
        if !is_cut(lower.as_str(), content_start) {
            assert(before + Seq::<char>::empty() =~= before);
            return styles;
        }
        let abs_end = match find_bytes(
            lower.as_str().as_bytes(),
            "</style>".as_bytes(),
            content_start,
        ) {
            None => {
                assert(before + Seq::<char>::empty() =~= before);
                return styles;
            },
            Some(at) => at,
        };
        let content = match str_between(html, content_start, abs_end) {
            None => {
                assert(before + Seq::<char>::empty() =~= before);
                return styles;
            },
            Some(content) => content,
        };
        styles.append(content.as_str());
        styles.push('\n');
        proof {
            let piece = bytes_text(html@, content_start as int, abs_end as int).push('\n');
            assert(styles@ =~= before + piece);
            let rest = head_styles_from(html@, abs_end + 8);
            assert(before + (piece + rest) =~= styles@ + rest);
            assert(before + piece =~= styles@);
        }
        search_start = abs_end + 8;
    }
}

// ── the chapter ─────────────────────────────────────────────────────

/// The markup of a chapter as it is shown: its body with the images in
/// place, and before it, in one style tag, its styles, those of the style
/// sheets it links to included, without font rules and with the images in
/// place. Where there are no styles the body stands alone.
pub open spec fn chapter_html(
    html: Seq<char>,
    chapter_path: Seq<char>,
    images: Seq<NamedView>,
    sheets: Seq<NamedView>,
) -> Seq<char> {
    let page = with_inlined_styles(html, chapter_path, sheets);
    let body = with_images(body_content(page), chapter_path, images);
    let styles = css_with_resources(without_font_faces(head_styles(page)), chapter_path, images);
    if trimmed(styles).len() == 0 {
        body
    } else {
        "<style>"@ + styles + "</style>\n"@ + body
    }
}

/// Makes the markup of a chapter, which stands at `chapter_path`, ready
/// for showing.
pub fn process_chapter_html(
    html: &str,
    chapter_path: &str,
    image_map: &Vec<NamedText>,
    css_map: &Vec<NamedText>,
) -> (out: String)
    ensures
        out@ == chapter_html(html@, chapter_path@, table_of(image_map@), table_of(css_map@)),
{
    let html_with_css = inline_linked_stylesheets(html, chapter_path, css_map);
    let body = extract_body_content(html_with_css.as_str());
    let styles = extract_head_styles(html_with_css.as_str());
    let (_, styles_no_fonts) = extract_font_face_blocks(styles.as_str());
    let processed_styles = replace_css_urls(styles_no_fonts.as_str(), chapter_path, image_map);
    let processed_body = replace_image_sources(body.as_str(), chapter_path, image_map);
    if chars_of(trim(processed_styles.as_str()).as_str()).len() == 0 {
        processed_body
    } else {
        let mut out = String::from_str("<style>");
        out.append(processed_styles.as_str());
        out.append("</style>\n");
        out.append(processed_body.as_str());
        out
    }
}

} // verus!
