//! Text as sequences of characters.

use vstd::prelude::*;
use vstd::string::StringSliceAdditionalSpecFns;
use vstd::utf8::{
    decode_utf8, encode_utf8, encode_utf8_decode_utf8, encode_utf8_valid_utf8, is_char_boundary,
    is_char_boundary_iff_not_is_continuation_byte, is_char_boundary_start_end_of_seq,
    valid_utf8_split,
};

use crate::outside::whitespace;

verus! {

/// The characters of `s`.
pub fn chars_of(s: &str) -> (chars: Vec<char>)
    ensures
        chars@ == s@,
{
    let mut chars: Vec<char> = Vec::new();
    for c in it: s.chars()
        invariant
            chars@ == it.seq().take(it.index() as int),
            it.seq() == s@,
    {
        chars.push(c);
    }
    chars
}

/// Whether two texts are the same.
pub fn str_eq(a: &str, b: &str) -> (same: bool)
    ensures
        same == (a@ == b@),
{
    a.to_owned() == b.to_owned()
}

/// Whether `s` ends with `suffix`.
pub open spec fn ends_with(s: Seq<char>, suffix: Seq<char>) -> bool {
    suffix.len() <= s.len() && s.subrange(s.len() - suffix.len(), s.len() as int) == suffix
}

/// Whether `s` starts with `prefix`.
pub open spec fn starts_with(s: Seq<char>, prefix: Seq<char>) -> bool {
    prefix.len() <= s.len() && s.subrange(0, prefix.len() as int) == prefix
}

/// Whether the characters `s` end with the characters `suffix`.
pub fn chars_end_with(s: &[char], suffix: &[char]) -> (b: bool)
    ensures
        b == ends_with(s@, suffix@),
{
    let n = s.len();
    let k = suffix.len();
    if k > n {
        return false;
    }
    let start = n - k;
    let mut i: usize = 0;
    while i < k
        invariant
            n == s@.len(),
            k == suffix@.len(),
            k <= n,
            start == n - k,
            i <= k,
            forall|j: int| 0 <= j < i ==> s@[start + j] == suffix@[j],
        decreases k - i,
    {
        if s[start + i] != suffix[i] {
            assert(s@.subrange(n - k, n as int)[i as int] == s@[start + i]);
            return false;
        }
        i = i + 1;
    }
    assert(s@.subrange(n - k, n as int) =~= suffix@);
    true
}

/// The text that the characters `chars` spell.
pub fn string_of(chars: &[char]) -> (s: String)
    ensures
        s@ == chars@,
{
    let n = chars.len();
    let mut s = String::new();
    let mut i: usize = 0;
    while i < n
        invariant
            n == chars@.len(),
            i <= n,
            s@ == chars@.subrange(0, i as int),
        decreases n - i,
    {
        s.push(chars[i]);
        i = i + 1;
        assert(s@ =~= chars@.subrange(0, i as int));
    }
    assert(chars@.subrange(0, n as int) =~= chars@);
    s
}

/// The first place from `from` on where `sep` stands, or the length of
/// `s` where it stands nowhere.
pub open spec fn next_sep(s: Seq<char>, sep: char, from: int) -> int
    decreases s.len() - from,
{
    if from < 0 || from >= s.len() {
        s.len() as int
    } else if s[from] == sep {
        from
    } else {
        next_sep(s, sep, from + 1)
    }
}

/// The pieces of `s` from `from` on.
pub open spec fn split_from(s: Seq<char>, sep: char, from: int) -> Seq<Seq<char>>
    decreases s.len() - from,
{
    let end = next_sep(s, sep, from);
    if from < 0 || from > s.len() {
        Seq::empty()
    } else if from <= end < s.len() {
        seq![s.subrange(from, end)] + split_from(s, sep, end + 1)
    } else {
        seq![s.subrange(from, s.len() as int)]
    }
}

/// The pieces that `sep` cuts `s` into, as `str::split` gives them: one
/// more than `sep` occurs, empty pieces included.
pub open spec fn split(s: Seq<char>, sep: char) -> Seq<Seq<char>> {
    split_from(s, sep, 0)
}

/// The texts that vectors of characters spell.
pub open spec fn texts_of(pieces: Seq<Vec<char>>) -> Seq<Seq<char>> {
    Seq::new(pieces.len(), |i: int| pieces[i]@)
}

/// Cuts the characters `s` at every `sep`.
pub fn split_chars(s: &[char], sep: char) -> (pieces: Vec<Vec<char>>)
    ensures
        texts_of(pieces@) == split(s@, sep),
{
    let n = s.len();
    let mut pieces: Vec<Vec<char>> = Vec::new();
    let mut piece: Vec<char> = Vec::new();
    let mut from: usize = 0;
    let mut i: usize = 0;
    assert(texts_of(pieces@) =~= Seq::<Seq<char>>::empty());
    assert(Seq::<Seq<char>>::empty() + split_from(s@, sep, 0) =~= split(s@, sep));
    while i < n
        invariant
            n == s@.len(),
            from <= i <= n,
            piece@ == s@.subrange(from as int, i as int),
            next_sep(s@, sep, from as int) == next_sep(s@, sep, i as int),
            texts_of(pieces@) + split_from(s@, sep, from as int) == split(s@, sep),
        decreases n - i,
    {
        let c = s[i];
        if c == sep {
            proof {
                let done = texts_of(pieces@);
                let rest = split_from(s@, sep, i + 1);
                assert(split_from(s@, sep, from as int) == seq![piece@] + rest);
                assert(texts_of(pieces@.push(piece)) =~= done.push(piece@));
                assert(done + (seq![piece@] + rest) =~= done.push(piece@) + rest);
            }
            pieces.push(piece);
            piece = Vec::new();
            from = i + 1;
            i = i + 1;
            assert(piece@ =~= s@.subrange(from as int, i as int));
        } else {
            piece.push(c);
            i = i + 1;
            assert(piece@ =~= s@.subrange(from as int, i as int));
        }
    }
    proof {
        let done = texts_of(pieces@);
        assert(split_from(s@, sep, from as int) == seq![piece@]);
        assert(texts_of(pieces@.push(piece)) =~= done.push(piece@));
        assert(done + seq![piece@] =~= done.push(piece@));
    }
    pieces.push(piece);
    pieces
}

/// Whether `c` is one of the digits `0` to `9`.
pub open spec fn is_digit(c: char) -> bool {
    0x30 <= c as u32 <= 0x39
}

/// Whether `c` is one of the digits `0` to `9`.
pub fn is_ascii_digit(c: char) -> (b: bool)
    ensures
        b == is_digit(c),
{
    let code = c as u32;
    0x30 <= code && code <= 0x39
}

/// Appends the characters `chars` to `s`.
pub fn push_chars(s: &mut String, chars: &[char])
    ensures
        final(s)@ == old(s)@ + chars@,
{
    let n = chars.len();
    let mut i: usize = 0;
    assert(s@ =~= old(s)@ + chars@.subrange(0, 0));
    while i < n
        invariant
            n == chars@.len(),
            i <= n,
            s@ == old(s)@ + chars@.subrange(0, i as int),
        decreases n - i,
    {
        s.push(chars[i]);
        i = i + 1;
        assert(s@ =~= old(s)@ + chars@.subrange(0, i as int));
    }
    assert(chars@.subrange(0, n as int) =~= chars@);
}

/// Whether `needle` stands in `hay` at `at`.
pub open spec fn stands_at(hay: Seq<char>, needle: Seq<char>, at: int) -> bool {
    0 <= at && at + needle.len() <= hay.len() && hay.subrange(at, at + needle.len()) == needle
}

/// Whether `needle` occurs in `hay`. The empty text occurs in every text.
pub open spec fn contains(hay: Seq<char>, needle: Seq<char>) -> bool {
    exists|at: int| stands_at(hay, needle, at)
}

/// Whether the characters `needle` stand in `hay` at `at`.
pub fn chars_stand_at(hay: &[char], needle: &[char], at: usize) -> (b: bool)
    requires
        at + needle@.len() <= hay@.len(),
    ensures
        b == stands_at(hay@, needle@, at as int),
{
    let k = needle.len();
    let n = hay.len();
    let mut i: usize = 0;
    while i < k
        invariant
            k == needle@.len(),
            n == hay@.len(),
            at + k <= hay@.len(),
            i <= k,
            forall|j: int| 0 <= j < i ==> hay@[at + j] == needle@[j],
        decreases k - i,
    {
        if hay[at + i] != needle[i] {
            assert(hay@.subrange(at as int, at + k)[i as int] == hay@[at + i]);
            return false;
        }
        i = i + 1;
    }
    assert(hay@.subrange(at as int, at + k) =~= needle@);
    true
}

/// Whether the characters `needle` occur in the characters `hay`.
pub fn chars_contain(hay: &[char], needle: &[char]) -> (b: bool)
    ensures
        b == contains(hay@, needle@),
{
    let n = hay.len();
    let k = needle.len();
    if k > n {
        return false;
    }
    let last = n - k;
    let mut at: usize = 0;
    loop
        invariant
            n == hay@.len(),
            k == needle@.len(),
            k <= n,
            last == n - k,
            at <= last,
            forall|j: int| 0 <= j < at ==> !stands_at(hay@, needle@, j),
        decreases last - at,
    {
        if chars_stand_at(hay, needle, at) {
            return true;
        }
        if at == last {
            return false;
        }
        at = at + 1;
    }
}

/// Whether the characters `s` start with the characters `prefix`.
pub fn chars_start_with(s: &[char], prefix: &[char]) -> (b: bool)
    ensures
        b == starts_with(s@, prefix@),
{
    let n = s.len();
    let k = prefix.len();
    if k > n {
        return false;
    }
    let mut i: usize = 0;
    while i < k
        invariant
            n == s@.len(),
            k == prefix@.len(),
            k <= n,
            i <= k,
            forall|j: int| 0 <= j < i ==> s@[j] == prefix@[j],
        decreases k - i,
    {
        if s[i] != prefix[i] {
            assert(s@.subrange(0, k as int)[i as int] == s@[i as int]);
            return false;
        }
        i = i + 1;
    }
    assert(s@.subrange(0, k as int) =~= prefix@);
    true
}

/// Whether `needle` occurs in `hay`.
pub fn str_contains(hay: &str, needle: &str) -> (b: bool)
    ensures
        b == contains(hay@, needle@),
{
    let h = chars_of(hay);
    let n = chars_of(needle);
    chars_contain(h.as_slice(), n.as_slice())
}

/// Whether `s` ends with `suffix`.
pub fn str_ends_with(s: &str, suffix: &str) -> (b: bool)
    ensures
        b == ends_with(s@, suffix@),
{
    let a = chars_of(s);
    let b = chars_of(suffix);
    chars_end_with(a.as_slice(), b.as_slice())
}

/// The pieces with `sep` between each two of them.
pub open spec fn joined(pieces: Seq<Seq<char>>, sep: char) -> Seq<char>
    decreases pieces.len(),
{
    if pieces.len() == 0 {
        Seq::empty()
    } else if pieces.len() == 1 {
        pieces[0]
    } else {
        joined(pieces.drop_last(), sep).push(sep) + pieces.last()
    }
}

/// Joins the pieces with `sep` between each two of them.
pub fn join_chars(pieces: &Vec<Vec<char>>, sep: char) -> (s: String)
    ensures
        s@ == joined(texts_of(pieces@), sep),
{
    let n = pieces.len();
    let ghost all = texts_of(pieces@);
    let mut s = String::new();
    let mut i: usize = 0;
    assert(all.take(0) =~= Seq::<Seq<char>>::empty());
    while i < n
        invariant
            n == pieces@.len(),
            all == texts_of(pieces@),
            i <= n,
            s@ == joined(all.take(i as int), sep),
        decreases n - i,
    {
        proof {
            assert(all.take(i + 1).drop_last() =~= all.take(i as int));
            assert(all.take(i + 1).last() == pieces@[i as int]@);
            if i == 0 {
                assert(all.take(1)[0] == pieces@[0]@);
                assert(Seq::<char>::empty() + pieces@[0]@ =~= pieces@[0]@);
            }
        }
        if i > 0 {
            s.push(sep);
        }
        push_chars(&mut s, pieces[i].as_slice());
        i = i + 1;
    }
    assert(all.take(n as int) =~= all);
    s
}

// ── pieces of a text by byte offsets ────────────────────────────────

/// Whether the bytes from `a` to `b` of a text are a piece of it: both
/// offsets lie on character boundaries, in this order, inside the text.
pub open spec fn piece_fits(text: Seq<char>, a: int, b: int) -> bool {
    &&& 0 <= a <= b <= encode_utf8(text).len()
    &&& is_char_boundary(encode_utf8(text), a)
    &&& is_char_boundary(encode_utf8(text), b)
}

/// The text that the bytes from `a` to `b` of a text spell.
pub open spec fn bytes_text(text: Seq<char>, a: int, b: int) -> Seq<char> {
    decode_utf8(encode_utf8(text).subrange(a, b))
}

/// The piece of a text from byte `a` to byte `b`, or `None` where the two
/// do not cut a piece out of it.
pub fn str_between(s: &str, a: usize, b: usize) -> (piece: Option<String>)
    ensures
        match piece {
            Some(t) => piece_fits(s@, a as int, b as int) && t@ == bytes_text(
                s@,
                a as int,
                b as int,
            ),
            None => !piece_fits(s@, a as int, b as int),
        },
{
    if a > b || b > s.as_bytes().len() || !s.is_char_boundary(a) || !s.is_char_boundary(b) {
        return None;
    }
    let ghost bytes = encode_utf8(s@);
    let (head, _) = s.split_at(b);
    proof {
        encode_utf8_valid_utf8(s@);
        valid_utf8_split(bytes, b as int);
        let front = bytes.subrange(0, b as int);
        assert(head.spec_bytes() =~= front);
        if a == b {
            is_char_boundary_start_end_of_seq(front);
        } else {
            is_char_boundary_iff_not_is_continuation_byte(bytes, a as int);
            assert(front[a as int] == bytes[a as int]);
            is_char_boundary_iff_not_is_continuation_byte(front, a as int);
        }
    }
    let (_, piece) = head.split_at(a);
    proof {
        encode_utf8_decode_utf8(piece@);
        assert(piece.spec_bytes() =~= bytes.subrange(a as int, b as int));
    }
    Some(piece.to_owned())
}

/// The first place from `from` on where the bytes `needle` stand in `hay`.
pub open spec fn find_bytes_from(hay: Seq<u8>, needle: Seq<u8>, from: int) -> Option<int>
    decreases hay.len() - from + 1,
{
    if from < 0 || from + needle.len() > hay.len() {
        None
    } else if hay.subrange(from, from + needle.len()) == needle {
        Some(from)
    } else {
        find_bytes_from(hay, needle, from + 1)
    }
}

/// Looks for the first place from `from` on where the bytes `needle` stand
/// in `hay`.
pub fn find_bytes(hay: &[u8], needle: &[u8], from: usize) -> (found: Option<usize>)
    ensures
        match found {
            Some(p) => find_bytes_from(hay@, needle@, from as int) == Some(p as int) && from <= p
                && p + needle@.len() <= hay@.len(),
            None => find_bytes_from(hay@, needle@, from as int) is None,
        },
{
    let n = hay.len();
    let k = needle.len();
    if k > n || from > n - k {
        return None;
    }
    let last = n - k;
    let mut at: usize = from;
    loop
        invariant
            n == hay@.len(),
            k == needle@.len(),
            k <= n,
            last == n - k,
            from <= at <= last,
            find_bytes_from(hay@, needle@, from as int) == find_bytes_from(
                hay@,
                needle@,
                at as int,
            ),
        decreases last - at,
    {
        let mut i: usize = 0;
        while i < k && hay[at + i] == needle[i]
            invariant
                n == hay@.len(),
                k == needle@.len(),
                at + k <= n,
                i <= k,
                forall|j: int| 0 <= j < i ==> hay@[at + j] == needle@[j],
            decreases k - i,
        {
            i = i + 1;
        }
        if i == k {
            assert(hay@.subrange(at as int, at + k) =~= needle@);
            return Some(at);
        }
        assert(hay@.subrange(at as int, at + k)[i as int] == hay@[at + i]);
        if at == last {
            assert(find_bytes_from(hay@, needle@, at + 1) is None);
            return None;
        }
        at = at + 1;
    }
}

/// The number of white space characters that a text starts with.
pub open spec fn leading_space(s: Seq<char>) -> nat
    decreases s.len(),
{
    if s.len() > 0 && whitespace(s[0]) {
        1 + leading_space(s.drop_first())
    } else {
        0
    }
}

/// The length of a text without the white space at its end.
pub open spec fn length_without_trailing_space(s: Seq<char>) -> nat
    decreases s.len(),
{
    if s.len() > 0 && whitespace(s.last()) {
        length_without_trailing_space(s.drop_last())
    } else {
        s.len()
    }
}

/// The text without the white space at its start and at its end.
pub open spec fn trimmed(s: Seq<char>) -> Seq<char> {
    let rest = s.skip(leading_space(s) as int);
    rest.take(length_without_trailing_space(rest) as int)
}

/// Takes the white space off both ends of a text.
pub fn trim(s: &str) -> (t: String)
    ensures
        t@ == trimmed(s@),
{
    let chars = chars_of(s);
    let n = chars.len();
    let mut start: usize = 0;
    assert(chars@.skip(0) =~= chars@);
    while start < n && chars[start].is_whitespace()
        invariant
            n == chars@.len(),
            start <= n,
            leading_space(chars@) == start + leading_space(chars@.skip(start as int)),
        decreases n - start,
    {
        assert(chars@.skip(start as int).drop_first() =~= chars@.skip(start + 1));
        start = start + 1;
    }
    let ghost rest = chars@.skip(start as int);
    let mut end: usize = n;
    assert(rest.take(rest.len() as int) =~= rest);
    while end > start && chars[end - 1].is_whitespace()
        invariant
            start <= end <= n,
            n == chars@.len(),
            rest == chars@.skip(start as int),
            length_without_trailing_space(rest) == length_without_trailing_space(
                rest.take(end - start),
            ),
        decreases end,
    {
        assert(rest.take(end - start).drop_last() =~= rest.take(end - start - 1));
        end = end - 1;
    }
    let piece = vstd::slice::slice_subrange(chars.as_slice(), start, end);
    assert(piece@ =~= rest.take(end - start));
    string_of(piece)
}

} // verus!
