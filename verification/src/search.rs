//! Search and replace in a text that is kept in a rope.
//!
//! Places are counted in characters. Where upper and lower case are taken
//! as the same, the text and the query are both searched in lower case.

use vstd::prelude::*;

use crate::outside::{
    line_count, line_start, line_text, lowercased, offsets, rope_chars, rope_from_str,
    rope_insert, rope_len_chars, rope_len_lines, rope_line, rope_line_to_char, rope_remove,
    rope_to_string,
};
use crate::text::{chars_of, chars_stand_at, push_chars, stands_at, string_of};
use crate::text_buffer::{clamped, spliced};

verus! {

/// The number of UTF-16 code units that a character takes.
pub open spec fn utf16_units(c: char) -> nat {
    if c as u32 >= 0x10000 {
        2
    } else {
        1
    }
}

/// The number of UTF-16 code units that a text takes.
pub open spec fn utf16_length(s: Seq<char>) -> nat
    decreases s.len(),
{
    if s.len() == 0 {
        0
    } else {
        utf16_length(s.drop_last()) + utf16_units(s.last())
    }
}

/// Counts the UTF-16 code units of a text, as a script indexes it. A count
/// that does not fit is `None`.
pub fn utf16_len(s: &str) -> (n: Option<usize>)
    ensures
        match n {
            Some(units) => units == utf16_length(s@),
            None => utf16_length(s@) > usize::MAX,
        },
{
    let chars = chars_of(s);
    let len = chars.len();
    let mut units: usize = 0;
    let mut i: usize = 0;
    assert(chars@.take(0) =~= Seq::<char>::empty());
    while i < len
        invariant
            len == chars@.len(),
            chars@ == s@,
            i <= len,
            units == utf16_length(chars@.take(i as int)),
        decreases len - i,
    {
        proof {
            assert(chars@.take(i + 1).drop_last() =~= chars@.take(i as int));
            assert(chars@.take(i + 1).last() == chars@[i as int]);
        }
        let step: usize = if chars[i] as u32 >= 0x10000 {
            2
        } else {
            1
        };
        if units > usize::MAX - step {
            proof {
                lemma_utf16_length_grows(chars@, i + 1);
            }
            return None;
        }
        units = units + step;
        i = i + 1;
    }
    assert(chars@.take(len as int) =~= chars@);
    Some(units)
}

/// A text takes at least as many code units as each of its beginnings.
pub proof fn lemma_utf16_length_grows(s: Seq<char>, n: int)
    requires
        0 <= n <= s.len(),
    ensures
        utf16_length(s.take(n)) <= utf16_length(s),
    decreases s.len() - n,
{
    if n < s.len() {
        lemma_utf16_length_grows(s, n + 1);
        assert(s.take(n + 1).drop_last() =~= s.take(n));
    } else {
        assert(s.take(n) =~= s);
    }
}

// ── finding ─────────────────────────────────────────────────────────

/// One place where a query was found.
#[derive(Debug)]
pub struct SearchMatch {
    pub line: usize,
    pub char_start: usize,
    pub char_end: usize,
    pub line_char_start: usize,
    pub line_char_end: usize,
    pub context: String,
}

/// One place where a query was found, as a value.
pub struct MatchView {
    pub line: nat,
    pub char_start: nat,
    pub char_end: nat,
    pub line_char_start: nat,
    pub line_char_end: nat,
    pub context: Seq<char>,
}

impl View for SearchMatch {
    type V = MatchView;

    open spec fn view(&self) -> MatchView {
        MatchView {
            line: self.line as nat,
            char_start: self.char_start as nat,
            char_end: self.char_end as nat,
            line_char_start: self.line_char_start as nat,
            line_char_end: self.line_char_end as nat,
            context: self.context@,
        }
    }
}

/// The matches that a vector holds.
pub open spec fn matches_of(v: Seq<SearchMatch>) -> Seq<MatchView> {
    Seq::new(v.len(), |i: int| v[i]@)
}

/// The text as it is searched.
pub open spec fn folded(s: Seq<char>, case_sensitive: bool) -> Seq<char> {
    if case_sensitive {
        s
    } else {
        lowercased(s)
    }
}

/// The first place from `from` on where `needle` stands in `hay`.
pub open spec fn find_from(hay: Seq<char>, needle: Seq<char>, from: int) -> Option<int>
    decreases hay.len() - from + 1,
{
    if from < 0 || from + needle.len() > hay.len() {
        None
    } else if stands_at(hay, needle, from) {
        Some(from)
    } else {
        find_from(hay, needle, from + 1)
    }
}

/// The places from `from` on where `needle` is found in `hay`, each search
/// going on `step` characters behind the place found before.
pub open spec fn found_from(hay: Seq<char>, needle: Seq<char>, step: int, from: int) -> Seq<int>
    decreases hay.len() - from,
{
    if step <= 0 {
        Seq::empty()
    } else {
        match find_from(hay, needle, from) {
            None => Seq::empty(),
            Some(p) => if from <= p && p + step <= hay.len() {
                seq![p] + found_from(hay, needle, step, p + step)
            } else {
                seq![p]
            },
        }
    }
}

/// A number as far as a `usize` can count.
pub open spec fn capped(n: int) -> nat {
    if n > usize::MAX {
        usize::MAX as nat
    } else if n < 0 {
        0
    } else {
        n as nat
    }
}

/// The sum of two numbers, as far as a `usize` can count.
fn add_capped(a: usize, b: usize) -> (sum: usize)
    ensures
        sum == capped(a + b),
{
    if a > usize::MAX - b {
        usize::MAX
    } else {
        a + b
    }
}

/// Looks for the first place from `from` on where `needle` stands in
/// `hay`.
pub fn find_chars(hay: &[char], needle: &[char], from: usize) -> (found: Option<usize>)
    ensures
        match found {
            Some(p) => find_from(hay@, needle@, from as int) == Some(p as int) && from <= p
                && p + needle@.len() <= hay@.len() && stands_at(hay@, needle@, p as int),
            None => find_from(hay@, needle@, from as int) is None,
        },
{
    let n = hay.len();
    let k = needle.len();
    if k > n || from > n - k {
        return None;
    }
    let last = n - k;
    let mut at: usize = from;
    loop
        invariant
            n == hay@.len(),
            k == needle@.len(),
            k <= n,
            last == n - k,
            from <= at <= last,
            find_from(hay@, needle@, from as int) == find_from(hay@, needle@, at as int),
        decreases last - at,
    {
        if chars_stand_at(hay, needle, at) {
            return Some(at);
        }
        if at == last {
            assert(find_from(hay@, needle@, at + 1) is None);
            return None;
        }
        at = at + 1;
    }
}

/// A line without the line feeds at its end, and then without the
/// carriage returns at its end.
pub open spec fn context_of(line: Seq<char>) -> Seq<char> {
    without_trailing(without_trailing(line, '\n'), '\r')
}

/// The text without every `c` at its end.
pub open spec fn without_trailing(s: Seq<char>, c: char) -> Seq<char>
    decreases s.len(),
{
    if s.len() > 0 && s.last() == c {
        without_trailing(s.drop_last(), c)
    } else {
        s
    }
}

/// The length of the text without every `c` at its end.
fn trailing_cut(s: &[char], len: usize, c: char) -> (keep: usize)
    requires
        len <= s@.len(),
    ensures
        keep <= len,
        s@.take(keep as int) == without_trailing(s@.take(len as int), c),
{
    let mut keep = len;
    while keep > 0 && s[keep - 1] == c
        invariant
            keep <= len <= s@.len(),
            without_trailing(s@.take(len as int), c) == without_trailing(s@.take(keep as int), c),
        decreases keep,
    {
        assert(s@.take(keep as int).drop_last() =~= s@.take(keep - 1));
        keep = keep - 1;
    }
    keep
}

/// The match for the place `p` of line `line`, whose text is `text` and
/// whose first character is character `offset` of the whole text.
pub open spec fn match_at(
    line: nat,
    text: Seq<char>,
    offset: nat,
    p: int,
    query: Seq<char>,
) -> MatchView {
    let start = capped(offset + p);
    let units = utf16_length(text.take(clamped(p, text.len() as int)));
    MatchView {
        line,
        char_start: start,
        char_end: capped((start + query.len()) as int),
        line_char_start: capped(units as int),
        line_char_end: capped(
            (capped(units as int) + capped(utf16_length(query) as int)) as int,
        ),
        context: context_of(text),
    }
}

/// The matches for the places `places` of one line.
pub open spec fn line_matches(
    line: nat,
    text: Seq<char>,
    offset: nat,
    places: Seq<int>,
    query: Seq<char>,
) -> Seq<MatchView> {
    Seq::new(places.len(), |i: int| match_at(line, text, offset, places[i], query))
}

/// The matches in the first `n` lines of a text. In each line the query
/// is found from left to right, each search going on behind the match
/// before. A match is placed in the whole text by the place where its line
/// starts.
pub open spec fn matches_in(text: Seq<char>, query: Seq<char>, case_sensitive: bool, n: nat) -> Seq<
    MatchView,
>
    decreases n,
{
    if n == 0 {
        Seq::empty()
    } else {
        let line = line_text(text, n - 1);
        let needle = folded(query, case_sensitive);
        matches_in(text, query, case_sensitive, (n - 1) as nat) + line_matches(
            (n - 1) as nat,
            line,
            line_start(text, n - 1) as nat,
            found_from(folded(line, case_sensitive), needle, needle.len() as int, 0),
            query,
        )
    }
}

/// Whether a match marks a place of the text where the query stands.
pub open spec fn stands_in(text: Seq<char>, query: Seq<char>, m: MatchView) -> bool {
    &&& m.char_end == m.char_start + query.len()
    &&& m.char_end <= text.len()
    &&& text.subrange(m.char_start as int, m.char_end as int) == query
}

/// Whether every match marks a place of the text where the query stands.
pub open spec fn all_stand_in(text: Seq<char>, query: Seq<char>, matches: Seq<MatchView>) -> bool {
    forall|k: int| 0 <= k < matches.len() ==> stands_in(text, query, #[trigger] matches[k])
}

/// All matches of a query in a text, none for the empty query.
pub open spec fn all_matches(text: Seq<char>, query: Seq<char>, case_sensitive: bool) -> Seq<
    MatchView,
> {
    if query.len() == 0 {
        Seq::empty()
    } else {
        matches_in(text, query, case_sensitive, line_count(text))
    }
}

/// The characters of a text as they are searched.
fn fold(text: &str, case_sensitive: bool) -> (chars: Vec<char>)
    ensures
        chars@ == folded(text@, case_sensitive),
{
    if case_sensitive {
        chars_of(text)
    } else {
        chars_of(text.to_lowercase().as_str())
    }
}

/// The number of UTF-16 code units of the first `n` characters, as far as
/// a `usize` can count.
fn units_before(chars: &[char], n: usize) -> (units: usize)
    requires
        n <= chars@.len(),
    ensures
        units == capped(utf16_length(chars@.take(n as int)) as int),
{
    let mut units: usize = 0;
    let mut i: usize = 0;
    assert(chars@.take(0) =~= Seq::<char>::empty());
    while i < n
        invariant
            i <= n <= chars@.len(),
            units == capped(utf16_length(chars@.take(i as int)) as int),
        decreases n - i,
    {
        proof {
            assert(chars@.take(i + 1).drop_last() =~= chars@.take(i as int));
            assert(chars@.take(i + 1).last() == chars@[i as int]);
        }
        let step: usize = if chars[i] as u32 >= 0x10000 {
            2
        } else {
            1
        };
        units = add_capped(units, step);
        i = i + 1;
    }
    units
}

/// Finds all places where a query stands in a text, line by line. The
/// places in a line are given in UTF-16 code units as well, as a script
/// counts them. Where upper and lower case count, every match marks a
/// place of the text where the query stands.
pub fn search_in_rope(rope: &ropey::Rope, query: &str, case_sensitive: bool) -> (results: Vec<
    SearchMatch,
>)
    ensures
        matches_of(results@) == all_matches(rope_chars(*rope), query@, case_sensitive),
        case_sensitive ==> all_stand_in(rope_chars(*rope), query@, matches_of(results@)),
{
    let mut results: Vec<SearchMatch> = Vec::new();
    let query_chars = chars_of(query);
    if query_chars.len() == 0 {
        assert(matches_of(results@) =~= Seq::<MatchView>::empty());
        return results;
    }
    let needle = fold(query, case_sensitive);
    let query_units = units_before(query_chars.as_slice(), query_chars.len());
    assert(query_chars@.take(query_chars@.len() as int) =~= query@);
    let ghost text = rope_chars(*rope);
    let total = rope_len_lines(rope);
    let total_chars = rope_len_chars(rope);
    let mut offset: usize = rope_line_to_char(rope, 0);
    let mut line_idx: usize = 0;
    assert(matches_of(results@) =~= matches_in(text, query@, case_sensitive, 0));
    while line_idx < total
        invariant
            text == rope_chars(*rope),
            total == line_count(text),
            line_idx <= total,
            query_chars@ == query@,
            query@.len() > 0,
            needle@ == folded(query@, case_sensitive),
            query_units == capped(utf16_length(query@) as int),
            total_chars == text.len(),
            offset == line_start(text, line_idx as int),
            case_sensitive ==> all_stand_in(text, query@, matches_of(results@)),
            matches_of(results@) == matches_in(text, query@, case_sensitive, line_idx as nat),
        decreases total - line_idx,
    {
        let line_string = rope_line(rope, line_idx);
        let line = chars_of(line_string.as_str());
        let search_line = fold(line_string.as_str(), case_sensitive);
        let cut = trailing_cut(line.as_slice(), line.len(), '\n');
        let keep = trailing_cut(line.as_slice(), cut, '\r');
        let ghost done = matches_of(results@);
        let ghost places = found_from(search_line@, needle@, needle@.len() as int, 0);
        let width = search_line.len();
        let mut from: usize = 0;
        let mut seen: Ghost<Seq<int>> = Ghost(Seq::empty());
        let mut going = needle.len() > 0;
        proof {
            assert(line@.take(line@.len() as int) =~= line@);
            assert(done + line_matches(
                line_idx as nat,
                line@,
                offset as nat,
                seen@,
                query@,
            ) =~= done);
        }
        while going
            invariant
                width == search_line@.len(),
                from <= search_line@.len(),
                line@ == line_text(text, line_idx as int),
                offset == line_start(text, line_idx as int),
                total_chars == text.len(),
                offset + line@.len() <= text.len(),
                line@ == text.subrange(offset as int, offset + line@.len()),
                needle@ == folded(query@, case_sensitive),
                case_sensitive ==> all_stand_in(text, query@, matches_of(results@)),
                search_line@ == folded(line@, case_sensitive),
                line@.take(keep as int) == context_of(line@),
                keep <= line@.len(),
                query_chars@ == query@,
                needle@.len() > 0 || !going,
                query_units == capped(utf16_length(query@) as int),
                places == found_from(search_line@, needle@, needle@.len() as int, 0),
                going ==> places == seen@ + found_from(
                    search_line@,
                    needle@,
                    needle@.len() as int,
                    from as int,
                ),
                !going ==> places == seen@,
                matches_of(results@) == done + line_matches(
                    line_idx as nat,
                    line@,
                    offset as nat,
                    seen@,
                    query@,
                ),
            decreases search_line@.len() - from + if going { 1int } else { 0int },
        {
            match find_chars(search_line.as_slice(), needle.as_slice(), from) {
                None => {
                    proof {
                        assert(seen@ + Seq::<int>::empty() =~= seen@);
                    }
                    going = false;
                },
                Some(p) => {
                    let within = if p < line.len() {
                        p
                    } else {
                        line.len()
                    };
                    let line_char_start = units_before(line.as_slice(), within);
                    let char_start = add_capped(offset, p);
                    let found = SearchMatch {
                        line: line_idx,
                        char_start,
                        char_end: add_capped(char_start, query_chars.len()),
                        line_char_start,
                        line_char_end: add_capped(line_char_start, query_units),
                        context: string_of(vstd::slice::slice_subrange(line.as_slice(), 0, keep)),
                    };
                    proof {
                        let rest = found_from(
                            search_line@,
                            needle@,
                            needle@.len() as int,
                            p + needle@.len(),
                        );
                        assert(seen@ + (seq![p as int] + rest) =~= seen@.push(p as int) + rest);
                        assert(found@ == match_at(
                            line_idx as nat,
                            line@,
                            offset as nat,
                            p as int,
                            query@,
                        ));
                        let so_far = line_matches(
                            line_idx as nat,
                            line@,
                            offset as nat,
                            seen@,
                            query@,
                        );
                        assert(matches_of(results@.push(found)) =~= matches_of(results@).push(
                            found@,
                        ));
                        assert(line_matches(
                            line_idx as nat,
                            line@,
                            offset as nat,
                            seen@.push(p as int),
                            query@,
                        ) =~= so_far.push(found@));
                        assert((done + so_far).push(found@) =~= done + so_far.push(found@));
                        if case_sensitive {
                            assert(text.subrange(offset + p, offset + p + query@.len())
                                =~= line@.subrange(p as int, p + query@.len()));
                            assert(stands_in(text, query@, found@));
                            assert forall|k: int|
                                0 <= k < matches_of(results@.push(found)).len() implies stands_in(
                                text,
                                query@,
                                #[trigger] matches_of(results@.push(found))[k],
                            ) by {
                                if k < results@.len() {
                                    assert(matches_of(results@)[k] == matches_of(
                                        results@.push(found),
                                    )[k]);
                                }
                            }
                        }
                        seen@ = seen@.push(p as int);
                    }
                    results.push(found);
                    from = p + needle.len();
                },
            }
        }
        offset = add_capped(offset, line.len());
        line_idx = line_idx + 1;
    }
    results
}

// ── replacing ───────────────────────────────────────────────────────

/// Where the next match of a query stands at or behind `from`.
pub open spec fn next_match(text: Seq<char>, query: Seq<char>, from: int, case_sensitive: bool) -> Option<
    int,
> {
    if query.len() == 0 {
        None
    } else {
        find_from(folded(text, case_sensitive), folded(query, case_sensitive), from)
    }
}

/// The text with the `count` characters from `at` on, as far as they are
/// there, replaced.
pub open spec fn replaced_at(text: Seq<char>, at: int, count: int, with: Seq<char>) -> Seq<char> {
    let start = clamped(at, text.len() as int);
    let end = clamped(at + count, text.len() as int);
    spliced(text, start, end, with)
}

/// Replaces the next match of a query at or behind character
/// `from_position` and says where it stood, or does nothing and says
/// `None` where there is no match.
pub fn replace_next(
    rope: &mut ropey::Rope,
    query: &str,
    replacement: &str,
    from_position: usize,
    case_sensitive: bool,
) -> (place: Option<usize>)
    ensures
        match place {
            Some(p) => {
                &&& next_match(
                    rope_chars(*old(rope)),
                    query@,
                    from_position as int,
                    case_sensitive,
                ) == Some(p as int)
                &&& rope_chars(*final(rope)) == replaced_at(
                    rope_chars(*old(rope)),
                    p as int,
                    query@.len() as int,
                    replacement@,
                )
            },
            None => {
                &&& next_match(
                    rope_chars(*old(rope)),
                    query@,
                    from_position as int,
                    case_sensitive,
                ) is None
                &&& rope_chars(*final(rope)) == rope_chars(*old(rope))
            },
        },
{
    let query_chars = chars_of(query);
    if query_chars.len() == 0 {
        return None;
    }
    let text = rope_to_string(rope);
    let search_text = fold(text.as_str(), case_sensitive);
    let needle = fold(query, case_sensitive);
    match find_chars(search_text.as_slice(), needle.as_slice(), from_position) {
        None => None,
        Some(p) => {
            let total = rope_len_chars(rope);
            let start = if p < total {
                p
            } else {
                total
            };
            let end = if query_chars.len() < total - start {
                start + query_chars.len()
            } else {
                total
            };
            rope_remove(rope, start, end);
            rope_insert(rope, start, replacement);
            assert(rope_chars(*rope) =~= replaced_at(
                rope_chars(*old(rope)),
                p as int,
                query@.len() as int,
                replacement@,
            ));
            Some(p)
        },
    }
}

/// The text from `last` on with each match at one of the places from
/// `i` on replaced: what stands between two matches stays, and so does
/// what stands behind the last.
pub open spec fn rebuilt(
    text: Seq<char>,
    places: Seq<int>,
    count: int,
    with: Seq<char>,
    i: int,
    last: int,
) -> Seq<char>
    decreases places.len() - i,
{
    let len = text.len() as int;
    if i < 0 || i >= places.len() {
        text.subrange(clamped(last, len), len)
    } else {
        let stop = if places[i] < clamped(last, len) {
            clamped(last, len)
        } else {
            clamped(places[i], len)
        };
        text.subrange(clamped(last, len), stop) + with + rebuilt(
            text,
            places,
            count,
            with,
            i + 1,
            places[i] + count,
        )
    }
}

/// The places where a query is replaced in a text: the matches from left
/// to right, each search going on as many characters behind the match
/// before as the query has.
pub open spec fn places_to_replace(text: Seq<char>, query: Seq<char>, case_sensitive: bool) -> Seq<
    int,
> {
    found_from(folded(text, case_sensitive), folded(query, case_sensitive), query.len() as int, 0)
}

/// Replaces every match of a query and says how many there were.
pub fn replace_all_in_rope(
    rope: &mut ropey::Rope,
    query: &str,
    replacement: &str,
    case_sensitive: bool,
) -> (count: usize)
    ensures
        ({
            let text = rope_chars(*old(rope));
            let places = places_to_replace(text, query@, case_sensitive);
            &&& count == places.len()
            &&& rope_chars(*final(rope)) == if places.len() == 0 {
                text
            } else {
                rebuilt(text, places, query@.len() as int, replacement@, 0, 0)
            }
        }),
{
    let query_chars = chars_of(query);
    let step = query_chars.len();
    if step == 0 {
        return 0;
    }
    let text = chars_of(rope_to_string(rope).as_str());
    let search_text = fold(string_of(text.as_slice()).as_str(), case_sensitive);
    let needle = fold(query, case_sensitive);
    let replacement_chars = chars_of(replacement);
    let mut match_positions: Vec<usize> = Vec::new();
    let ghost places = places_to_replace(text@, query@, case_sensitive);
    let mut from: usize = 0;
    let mut going = true;
    while going
        invariant
            step == query@.len(),
            step > 0,
            from <= search_text@.len(),
            text@ == rope_chars(*old(rope)),
            search_text@ == folded(text@, case_sensitive),
            needle@ == folded(query@, case_sensitive),
            places == places_to_replace(text@, query@, case_sensitive),
            going ==> places == offsets(match_positions@) + found_from(
                search_text@,
                needle@,
                step as int,
                from as int,
            ),
            !going ==> places == offsets(match_positions@),
        decreases search_text@.len() - from + if going { 1int } else { 0int },
    {
        match find_chars(search_text.as_slice(), needle.as_slice(), from) {
            None => {
                proof {
                    assert(offsets(match_positions@) + Seq::<int>::empty()
                        =~= offsets(match_positions@));
                }
                going = false;
            },
            Some(p) => {
                proof {
                    let rest = found_from(search_text@, needle@, step as int, p + step);
                    assert(offsets(match_positions@) + (seq![p as int] + rest)
                        =~= offsets(match_positions@.push(p)) + rest);
                    assert(offsets(match_positions@) + seq![p as int]
                        =~= offsets(match_positions@.push(p)));
                }
                match_positions.push(p);
                if step > search_text.len() - p {
                    going = false;
                } else {
                    from = p + step;
                }
            },
        }
    }
    let count = match_positions.len();
    if count == 0 {
        return 0;
    }
    let len = text.len();
    let mut result = String::new();
    let mut last_end: usize = 0;
    let mut i: usize = 0;
    let ghost whole = rebuilt(text@, places, step as int, replacement@, 0, 0);
    assert(Seq::<char>::empty() + rebuilt(text@, places, step as int, replacement@, 0, 0) =~= whole);
    while i < count
        invariant
            count == match_positions@.len(),
            len == text@.len(),
            i <= count,
            last_end <= len,
            replacement_chars@ == replacement@,
            places == offsets(match_positions@),
            result@ + rebuilt(text@, places, step as int, replacement@, i as int, last_end as int)
                == whole,
        decreases count - i,
    {
        let pos = match_positions[i];
        let stop = if pos < last_end {
            last_end
        } else if pos < len {
            pos
        } else {
            len
        };
        let ghost before = result@;
        push_chars(&mut result, vstd::slice::slice_subrange(text.as_slice(), last_end, stop));
        push_chars(&mut result, replacement_chars.as_slice());
        let next = if pos < len && step < len - pos {
            pos + step
        } else {
            len
        };
        proof {
            let rest = rebuilt(text@, places, step as int, replacement@, i + 1, pos + step);
            let rest_capped = rebuilt(text@, places, step as int, replacement@, i + 1, next as int);
            lemma_rebuilt_clamps(text@, places, step as int, replacement@, i + 1, pos + step);
            assert(rest == rest_capped);
            assert(before + (text@.subrange(last_end as int, stop as int) + replacement@ + rest)
                =~= result@ + rest);
        }
        last_end = next;
        i = i + 1;
    }
    push_chars(&mut result, vstd::slice::slice_subrange(text.as_slice(), last_end, len));
    *rope = rope_from_str(result.as_str());
    count
}

/// What stands behind the end of the text counts as standing at its end.
proof fn lemma_rebuilt_clamps(
    text: Seq<char>,
    places: Seq<int>,
    count: int,
    with: Seq<char>,
    i: int,
    last: int,
)
    ensures
        rebuilt(text, places, count, with, i, last) == rebuilt(
            text,
            places,
            count,
            with,
            i,
            clamped(last, text.len() as int),
        ),
{
}

} // verus!
