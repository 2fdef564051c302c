//! Where the images of a folder or of an archive are, and in which order
//! they are shown.

use std::cmp::Ordering;
use vstd::prelude::*;

use vstd::utf8::{decode_utf8, encode_utf8, encode_utf8_decode_utf8};

use crate::outside::{
    extension_of, file_name_of, file_stem_of, lowercased, match_starts, offsets, path_extension,
    path_file_name, path_file_stem, regex_match_starts,
};
use crate::sorting::{
    chunks_of, compare_keys, key_order, sort_by_key, sorted_by_key, views, ChunkView, Keyed,
    KeyedView, Order, SortChunk,
};
use crate::text::{
    chars_end_with, chars_of, ends_with, is_ascii_digit, is_digit, split, split_chars, str_eq,
    texts_of,
};
use crate::zip_fast::{entry_read, index_of, is_outcome, EntryView, ZipError, ZipIndex};

verus! {

/// The extensions of the files that are shown as images, in lower case.
pub open spec fn image_extensions() -> Seq<Seq<char>> {
    seq!["jpg"@, "jpeg"@, "png"@, "gif"@, "webp"@, "bmp"@, "svg"@]
}

/// The extensions of the files that are shown as images.
fn extension_list() -> (list: Vec<&'static str>)
    ensures
        list@.len() == image_extensions().len(),
        forall|i: int| 0 <= i < list@.len() ==> (#[trigger] list@[i])@ == image_extensions()[i],
{
    vec!["jpg", "jpeg", "png", "gif", "webp", "bmp", "svg"]
}

/// Whether `ext` is one of the image extensions, written in lower case.
pub fn is_image_extension(ext: &str) -> (b: bool)
    ensures
        b == image_extensions().contains(ext@),
{
    let list = extension_list();
    let mut i: usize = 0;
    while i < list.len()
        invariant
            list@.len() == image_extensions().len(),
            forall|j: int| 0 <= j < list@.len() ==> (#[trigger] list@[j])@ == image_extensions()[j],
            i <= list@.len(),
            forall|j: int| 0 <= j < i ==> image_extensions()[j] != ext@,
        decreases list@.len() - i,
    {
        if str_eq(list[i], ext) {
            assert(image_extensions()[i as int] == ext@);
            return true;
        }
        i = i + 1;
    }
    false
}

/// Whether a file of this name is shown as an image: its name ends, in
/// whatever case, with a dot and one of the image extensions.
pub open spec fn is_image_name(name: Seq<char>) -> bool {
    exists|i: int|
        0 <= i < image_extensions().len() && ends_with(
            lowercased(name),
            seq!['.'] + #[trigger] image_extensions()[i],
        )
}

/// Whether a file of this name is shown as an image.
pub fn is_image_file(name: &str) -> (b: bool)
    ensures
        b == is_image_name(name@),
{
    let lower = name.to_lowercase();
    let chars = chars_of(lower.as_str());
    let list = extension_list();
    let mut i: usize = 0;
    while i < list.len()
        invariant
            chars@ == lowercased(name@),
            list@.len() == image_extensions().len(),
            forall|j: int| 0 <= j < list@.len() ==> (#[trigger] list@[j])@ == image_extensions()[j],
            i <= list@.len(),
            forall|j: int|
                0 <= j < i ==> !ends_with(
                    lowercased(name@),
                    seq!['.'] + #[trigger] image_extensions()[j],
                ),
        decreases list@.len() - i,
    {
        let mut suffix: Vec<char> = Vec::new();
        suffix.push('.');
        let ext = chars_of(list[i]);
        let mut k: usize = 0;
        while k < ext.len()
            invariant
                k <= ext@.len(),
                suffix@ == seq!['.'] + ext@.subrange(0, k as int),
            decreases ext@.len() - k,
        {
            suffix.push(ext[k]);
            k = k + 1;
            assert(suffix@ =~= seq!['.'] + ext@.subrange(0, k as int));
        }
        assert(ext@.subrange(0, ext@.len() as int) =~= ext@);
        if chars_end_with(chars.as_slice(), suffix.as_slice()) {
            assert(ends_with(lowercased(name@), seq!['.'] + image_extensions()[i as int]));
            return true;
        }
        i = i + 1;
    }
    false
}

// ── natural order ───────────────────────────────────────────────────

/// Where the run of digits, or of other characters, ends that goes on at
/// `from`.
pub open spec fn run_end(s: Seq<char>, digits: bool, from: int) -> int
    decreases s.len() - from,
{
    if from < 0 || from >= s.len() {
        s.len() as int
    } else if is_digit(s[from]) != digits {
        from
    } else {
        run_end(s, digits, from + 1)
    }
}

/// The number that a run of digits spells, however large.
pub open spec fn digits_value(digits: Seq<char>) -> nat
    decreases digits.len(),
{
    if digits.len() == 0 {
        0
    } else {
        digits_value(digits.drop_last()) * 10 + (digits.last() as u32 - 0x30) as nat
    }
}

/// The number that a run of digits counts as in a key: its value, or 0
/// where that does not fit in 64 bits.
pub open spec fn number_of(digits: Seq<char>) -> nat {
    if digits_value(digits) <= u64::MAX {
        digits_value(digits)
    } else {
        0
    }
}

/// The chunks of `s` from `from` on: each maximal run of digits a number,
/// each maximal run of other characters a text.
pub open spec fn chunks_from(s: Seq<char>, from: int) -> Seq<ChunkView>
    decreases s.len() - from,
{
    if from < 0 || from >= s.len() {
        Seq::empty()
    } else {
        let end = run_end(s, is_digit(s[from]), from + 1);
        let piece = s.subrange(from, end);
        let chunk = if is_digit(s[from]) {
            ChunkView::Num(number_of(piece))
        } else {
            ChunkView::Text(piece)
        };
        if from < end <= s.len() {
            seq![chunk] + chunks_from(s, end)
        } else {
            seq![chunk]
        }
    }
}

/// The key by which a name is sorted in natural order: the chunks of the
/// name in lower case, so that `page2` comes before `page10`.
pub open spec fn natural_key(name: Seq<char>) -> Seq<ChunkView> {
    chunks_from(lowercased(name), 0)
}

/// The number that a run of digits counts as.
fn parse_digits(digits: &[char]) -> (n: u64)
    requires
        forall|j: int| 0 <= j < digits@.len() ==> is_digit(#[trigger] digits@[j]),
    ensures
        n == number_of(digits@),
{
    let len = digits.len();
    let mut value: Option<u64> = Some(0);
    let mut i: usize = 0;
    assert(digits@.subrange(0, 0) =~= Seq::<char>::empty());
    while i < len
        invariant
            len == digits@.len(),
            i <= len,
            forall|j: int| 0 <= j < digits@.len() ==> is_digit(#[trigger] digits@[j]),
            match value {
                Some(v) => v == digits_value(digits@.subrange(0, i as int)),
                None => digits_value(digits@.subrange(0, i as int)) > u64::MAX,
            },
        decreases len - i,
    {
        let d = (digits[i] as u32 - 0x30) as u64;
        proof {
            let next = digits@.subrange(0, i + 1);
            assert(next.drop_last() =~= digits@.subrange(0, i as int));
            assert(next.last() == digits@[i as int]);
        }
        value = match value {
            None => None,
            Some(v) => match v.checked_mul(10) {
                None => None,
                Some(shifted) => shifted.checked_add(d),
            },
        };
        i = i + 1;
    }
    assert(digits@.subrange(0, len as int) =~= digits@);
    match value {
        Some(v) => v,
        None => 0,
    }
}

/// Cuts a name into its chunks for the natural order.
pub fn natural_sort_key(s: &str) -> (chunks: Vec<SortChunk>)
    ensures
        chunks_of(chunks@) == natural_key(s@),
{
    let lower = s.to_lowercase();
    let chars = chars_of(lower.as_str());
    let n = chars.len();
    let mut chunks: Vec<SortChunk> = Vec::new();
    let mut start: usize = 0;
    assert(chunks_of(chunks@) =~= Seq::<ChunkView>::empty());
    assert(Seq::<ChunkView>::empty() + chunks_from(chars@, 0) =~= chunks_from(chars@, 0));
    while start < n
        invariant
            n == chars@.len(),
            start <= n,
            chars@ == lowercased(s@),
            chunks_of(chunks@) + chunks_from(chars@, start as int) == natural_key(s@),
        decreases n - start,
    {
        let digits = is_ascii_digit(chars[start]);
        let mut end: usize = start + 1;
        while end < n && is_ascii_digit(chars[end]) == digits
            invariant
                n == chars@.len(),
                start < end <= n,
                run_end(chars@, digits, start + 1) == run_end(chars@, digits, end as int),
                forall|j: int| start <= j < end ==> is_digit(#[trigger] chars@[j]) == digits,
            decreases n - end,
        {
            end = end + 1;
        }
        let mut piece: Vec<char> = Vec::new();
        let mut k: usize = start;
        while k < end
            invariant
                start <= k <= end <= n,
                n == chars@.len(),
                piece@ == chars@.subrange(start as int, k as int),
            decreases end - k,
        {
            piece.push(chars[k]);
            k = k + 1;
            assert(piece@ =~= chars@.subrange(start as int, k as int));
        }
        let chunk = if digits {
            SortChunk::Num(parse_digits(piece.as_slice()))
        } else {
            SortChunk::Text(piece)
        };
        proof {
            let done = chunks_of(chunks@);
            let rest = chunks_from(chars@, end as int);
            assert(run_end(chars@, digits, start + 1) == end);
            if end < n {
                assert(chunks_from(chars@, start as int) == seq![chunk@] + rest);
            } else {
                assert(rest =~= Seq::<ChunkView>::empty());
                assert(chunks_from(chars@, start as int) =~= seq![chunk@] + rest);
            }
            assert(chunks_of(chunks@.push(chunk)) =~= done.push(chunk@));
            assert(done + (seq![chunk@] + rest) =~= done.push(chunk@) + rest);
        }
        chunks.push(chunk);
        start = end;
    }
    assert(chunks_from(chars@, n as int) =~= Seq::<ChunkView>::empty());
    assert(chunks_of(chunks@) + Seq::<ChunkView>::empty() =~= chunks_of(chunks@));
    chunks
}

/// The file name of a path, empty where the path ends in none.
pub open spec fn name_of(path: Seq<char>) -> Seq<char> {
    match path_file_name(path) {
        Some(name) => name,
        None => Seq::empty(),
    }
}

/// The file name of a path, empty where the path ends in none.
pub fn file_name_or_empty(path: &str) -> (name: String)
    ensures
        name@ == name_of(path@),
{
    match file_name_of(path) {
        Some(name) => name,
        None => String::new(),
    }
}

/// How two paths compare in natural order: by the natural keys of their
/// file names.
pub open spec fn natural_order(a: Seq<char>, b: Seq<char>) -> Order {
    key_order(natural_key(name_of(a)), natural_key(name_of(b)))
}

/// Compares two paths in natural order.
pub fn compare_natural(a: &str, b: &str) -> (o: Order)
    ensures
        o == natural_order(a@, b@),
{
    let a_name = file_name_or_empty(a);
    let b_name = file_name_or_empty(b);
    compare_keys(&natural_sort_key(a_name.as_str()), &natural_sort_key(b_name.as_str()))
}

/// Compares two paths in natural order, for the sorts of the standard
/// library.
pub fn natural_sort_cmp(a: &str, b: &str) -> (o: Ordering)
    ensures
        o is Less <==> natural_order(a@, b@) is Less,
        o is Equal <==> natural_order(a@, b@) is Equal,
        o is Greater <==> natural_order(a@, b@) is Greater,
{
    match compare_natural(a, b) {
        Order::Less => Ordering::Less,
        Order::Equal => Ordering::Equal,
        Order::Greater => Ordering::Greater,
    }
}

// ── image sources ───────────────────────────────────────────────────

/// The images of one content, in viewing order: the image files of a
/// folder, or the image entries of an archive.
#[derive(Debug)]
pub enum ImageSource {
    Folder { dir_path: String, image_paths: Vec<String> },
    Zip { zip_path: String, entry_names: Vec<String> },
}

/// Where the bytes of one image are.
#[derive(Debug)]
pub enum ImageLocation {
    /// In the file at this path.
    File(String),
    /// In the entry of this name of the archive at this path.
    Entry { zip_path: String, entry_name: String },
}

impl ImageSource {
    /// The number of images.
    pub open spec fn count(self) -> nat {
        match self {
            ImageSource::Folder { image_paths, .. } => image_paths@.len(),
            ImageSource::Zip { entry_names, .. } => entry_names@.len(),
        }
    }

    /// The name under which image `i` is listed: the file name of a file,
    /// the full name of an archive entry.
    pub open spec fn listed_name(self, i: int) -> Seq<char> {
        match self {
            ImageSource::Folder { image_paths, .. } => name_of(image_paths@[i]@),
            ImageSource::Zip { entry_names, .. } => entry_names@[i]@,
        }
    }

    /// The number of images.
    pub fn len(&self) -> (n: usize)
        ensures
            n == self.count(),
    {
        match self {
            ImageSource::Folder { image_paths, .. } => image_paths.len(),
            ImageSource::Zip { entry_names, .. } => entry_names.len(),
        }
    }

    /// The names of the images, in viewing order.
    pub fn names(&self) -> (names: Vec<String>)
        ensures
            names@.len() == self.count(),
            forall|i: int|
                0 <= i < names@.len() ==> (#[trigger] names@[i])@ == self.listed_name(i),
    {
        let n = self.len();
        let mut names: Vec<String> = Vec::with_capacity(n);
        let mut i: usize = 0;
        while i < n
            invariant
                n == self.count(),
                i <= n,
                names@.len() == i,
                forall|j: int| 0 <= j < i ==> (#[trigger] names@[j])@ == self.listed_name(j),
            decreases n - i,
        {
            let name = match self {
                ImageSource::Folder { image_paths, .. } => file_name_or_empty(
                    image_paths[i].as_str(),
                ),
                ImageSource::Zip { entry_names, .. } => entry_names[i].clone(),
            };
            names.push(name);
            i = i + 1;
        }
        names
    }

    /// Whether `location` says where image `index` is: the file at its
    /// path, or the entry of its name in the archive; nothing where there
    /// is no such image.
    pub open spec fn is_location(self, index: nat, location: Option<ImageLocation>) -> bool {
        &&& location is Some <==> index < self.count()
        &&& location is Some ==> match self {
            ImageSource::Folder { image_paths, .. } => location->0 matches ImageLocation::File(
                path,
            ) && path@ == image_paths@[index as int]@,
            ImageSource::Zip { zip_path, entry_names } => {
                &&& location->0 matches ImageLocation::Entry { zip_path: archive, entry_name }
                &&& archive@ == zip_path@
                &&& entry_name@ == entry_names@[index as int]@
            },
        }
    }

    /// Where the bytes of image `index` are to be read, or `None` where
    /// there is no such image.
    pub fn locate(&self, index: usize) -> (location: Option<ImageLocation>)
        ensures
            self.is_location(index as nat, location),
    {
        match self {
            ImageSource::Folder { image_paths, .. } => {
                if index < image_paths.len() {
                    Some(ImageLocation::File(image_paths[index].clone()))
                } else {
                    None
                }
            },
            ImageSource::Zip { zip_path, entry_names } => {
                if index < entry_names.len() {
                    Some(
                        ImageLocation::Entry {
                            zip_path: zip_path.clone(),
                            entry_name: entry_names[index].clone(),
                        },
                    )
                } else {
                    None
                }
            },
        }
    }
}

// ── the images of an archive ────────────────────────────────────────

/// The key by which an entry name is sorted: its components between
/// slashes, each a text.
pub open spec fn component_key(name: Seq<char>) -> Seq<ChunkView> {
    Seq::new(split(name, '/').len(), |i: int| ChunkView::Text(split(name, '/')[i]))
}

/// Whether an entry of this name is listed as an image: it is no directory
/// and its name is that of an image file.
pub open spec fn is_listed(name: Seq<char>) -> bool {
    !(name.len() > 0 && name.last() == '/') && is_image_name(name)
}

/// The entries that are listed, each with its key, in the order of `names`.
pub open spec fn listed(names: Seq<Seq<char>>) -> Seq<KeyedView>
    decreases names.len(),
{
    if names.len() == 0 {
        Seq::empty()
    } else if is_listed(names.last()) {
        listed(names.drop_last()).push(
            KeyedView { key: component_key(names.last()), value: names.last() },
        )
    } else {
        listed(names.drop_last())
    }
}

/// The image entries among `names`, sorted by their components: the names
/// of one directory stand together, ordered as texts.
pub open spec fn image_list(names: Seq<Seq<char>>) -> Seq<Seq<char>> {
    sorted_by_key(listed(names))
}

/// The texts that strings spell.
pub open spec fn strings_of(v: Seq<String>) -> Seq<Seq<char>> {
    Seq::new(v.len(), |i: int| v[i]@)
}

/// The key of an entry name.
fn entry_key(name: &str) -> (key: Vec<SortChunk>)
    ensures
        chunks_of(key@) == component_key(name@),
{
    let chars = chars_of(name);
    let pieces = split_chars(chars.as_slice(), '/');
    let n = pieces.len();
    let mut key: Vec<SortChunk> = Vec::with_capacity(n);
    let mut i: usize = 0;
    while i < n
        invariant
            n == pieces@.len(),
            i <= n,
            texts_of(pieces@) == split(name@, '/'),
            key@.len() == i,
            forall|j: int| 0 <= j < i ==> (#[trigger] key@[j])@ == ChunkView::Text(pieces@[j]@),
        decreases n - i,
    {
        key.push(SortChunk::Text(vstd::slice::slice_to_vec(pieces[i].as_slice())));
        i = i + 1;
    }
    proof {
        assert forall|j: int| 0 <= j < n implies chunks_of(key@)[j] == component_key(name@)[j] by {
            assert(texts_of(pieces@)[j] == pieces@[j]@);
        }
        assert(chunks_of(key@) =~= component_key(name@));
    }
    key
}

/// Picks the image entries out of the names of an archive and sorts them
/// for viewing.
pub fn image_entries(names: &Vec<String>) -> (images: Vec<String>)
    ensures
        strings_of(images@) == image_list(strings_of(names@)),
{
    let n = names.len();
    let ghost all = strings_of(names@);
    let mut found: Vec<Keyed> = Vec::new();
    let mut i: usize = 0;
    assert(views(found@) =~= listed(all.take(0))) by {
        assert(all.take(0) =~= Seq::<Seq<char>>::empty());
    }
    while i < n
        invariant
            n == names@.len(),
            all == strings_of(names@),
            i <= n,
            views(found@) == listed(all.take(i as int)),
        decreases n - i,
    {
        let name = names[i].as_str();
        proof {
            assert(all.take(i + 1).drop_last() =~= all.take(i as int));
            assert(all.take(i + 1).last() == name@);
        }
        let chars = chars_of(name);
        let is_dir = chars.len() > 0 && chars[chars.len() - 1] == '/';
        if !is_dir && is_image_file(name) {
            let item = Keyed { key: entry_key(name), value: names[i].clone() };
            proof {
                assert(views(found@.push(item)) =~= views(found@).push(item@));
            }
            found.push(item);
        }
        i = i + 1;
    }
    assert(all.take(n as int) =~= all);
    let images = sort_by_key(found);
    assert(strings_of(images@) =~= Seq::new(images@.len(), |i: int| images@[i]@));
    images
}

/// The names of entries, in their order.
pub open spec fn entry_names_of(entries: Seq<EntryView>) -> Seq<Seq<char>> {
    Seq::new(entries.len(), |i: int| entries[i].name)
}

/// Whether `res` lists the images of the archive `d`.
pub open spec fn lists_images_of(res: Result<Vec<String>, ZipError>, d: Seq<u8>) -> bool {
    match index_of(d) {
        Ok(entries) => res matches Ok(images) && strings_of(images@) == image_list(
            entry_names_of(entries),
        ),
        Err(e) => res matches Err(failure) && failure == e,
    }
}

/// Lists the image entries of a mapped archive, sorted for viewing. Only
/// the central directory of the archive is read.
///
/// The result is stated of the bytes that were found in the mapping: they
/// are some byte sequence, and the result lists the images of that archive
/// or is the error that its index gives.
pub fn list_zip_images(mmap: memmap2::Mmap) -> (res: Result<Vec<String>, ZipError>)
    ensures
        exists|d: Seq<u8>| #[trigger] lists_images_of(res, d),
{
    match ZipIndex::open(mmap) {
        Err(e) => {
            proof {
                let d = choose|d: Seq<u8>| #[trigger]
                    index_of(d) == Err::<Seq<EntryView>, ZipError>(e);
                assert(lists_images_of(Err(e), d));
            }
            Err(e)
        },
        Ok(index) => {
            let names = index.entry_names();
            let images = image_entries(&names);
            proof {
                assert(strings_of(names@) =~= entry_names_of(index.entries()));
                let d = choose|d: Seq<u8>| #[trigger]
                    index_of(d) == Ok::<Seq<EntryView>, ZipError>(index.entries());
                assert(lists_images_of(Ok(images), d));
            }
            Ok(images)
        },
    }
}

/// Whether `res` is what reading the entry `name` gives in an archive that
/// showed the bytes `d` when it was indexed and the bytes `later` when the
/// entry was read.
pub open spec fn reads_entry_of(
    res: Result<Vec<u8>, ZipError>,
    d: Seq<u8>,
    later: Seq<u8>,
    name: Seq<char>,
) -> bool {
    match index_of(d) {
        Ok(entries) => is_outcome(res, entry_read(later, entries, name)),
        Err(e) => res == Err::<Vec<u8>, ZipError>(e),
    }
}

/// Reads one entry of a mapped archive.
///
/// The result is stated of the bytes that were found in the mapping: the
/// archive was indexed from some bytes and the entry was read from some
/// bytes.
pub fn read_zip_image(mmap: memmap2::Mmap, entry_name: &str) -> (res: Result<Vec<u8>, ZipError>)
    ensures
        exists|d: Seq<u8>, later: Seq<u8>| #[trigger] reads_entry_of(res, d, later, entry_name@),
{
    match ZipIndex::open(mmap) {
        Err(e) => {
            proof {
                let d = choose|d: Seq<u8>| #[trigger]
                    index_of(d) == Err::<Seq<EntryView>, ZipError>(e);
                assert(reads_entry_of(Err(e), d, d, entry_name@));
            }
            Err(e)
        },
        Ok(index) => {
            let res = index.read_entry(entry_name);
            proof {
                let d = choose|d: Seq<u8>| #[trigger]
                    index_of(d) == Ok::<Seq<EntryView>, ZipError>(index.entries());
                let later = choose|later: Seq<u8>|
                    is_outcome(res, #[trigger] entry_read(later, index.entries(), entry_name@));
                assert(reads_entry_of(res, d, later, entry_name@));
            }
            res
        },
    }
}

// ── the images of a folder ──────────────────────────────────────────

/// The file name of a path in lower case, if the path ends in a name.
pub open spec fn lowered_name(path: Seq<char>) -> Option<Seq<char>> {
    match path_file_name(path) {
        Some(name) => Some(lowercased(name)),
        None => None,
    }
}

/// The file name of a path in lower case.
pub fn lowered_name_of(path: &str) -> (name: Option<String>)
    ensures
        match name {
            Some(n) => lowered_name(path@) == Some(n@),
            None => lowered_name(path@) is None,
        },
{
    match file_name_of(path) {
        Some(name) => Some(name.to_lowercase()),
        None => None,
    }
}

/// Whether two optional texts are the same.
fn same_name(a: &Option<String>, b: &Option<String>) -> (same: bool)
    ensures
        same == match (*a, *b) {
            (Some(x), Some(y)) => x@ == y@,
            (None, None) => true,
            _ => false,
        },
{
    match a {
        Some(x) => match b {
            Some(y) => str_eq(x.as_str(), y.as_str()),
            None => false,
        },
        None => b.is_none(),
    }
}

/// Whether two optional texts are the same.
pub open spec fn same_text(a: Option<Seq<char>>, b: Option<Seq<char>>) -> bool {
    match (a, b) {
        (Some(x), Some(y)) => x == y,
        (None, None) => true,
        _ => false,
    }
}

/// The key by which the files of a folder are sorted: the file name in
/// lower case, as one text.
pub open spec fn folder_key(path: Seq<char>) -> Seq<ChunkView> {
    seq![ChunkView::Text(lowercased(name_of(path)))]
}

/// The image files among the first `n` paths, each with its key, in their
/// order.
pub open spec fn image_candidates(listing: Seq<Seq<char>>, n: nat) -> Seq<KeyedView>
    decreases n,
{
    if n == 0 {
        Seq::empty()
    } else if is_image_name(listing[n - 1]) {
        image_candidates(listing, (n - 1) as nat).push(
            KeyedView { key: folder_key(listing[n - 1]), value: listing[n - 1] },
        )
    } else {
        image_candidates(listing, (n - 1) as nat)
    }
}

/// The images of a folder whose files are `listing`: the files with an
/// image name, sorted by their file names without regard to case.
pub open spec fn folder_images(listing: Seq<Seq<char>>) -> Seq<Seq<char>> {
    sorted_by_key(image_candidates(listing, listing.len()))
}

/// Picks the image files out of the files of a directory and sorts them
/// by name, upper and lower case taken as the same. `listing` holds the
/// paths of the regular files of the directory.
pub fn scan_directory_images(listing: &Vec<String>) -> (images: Vec<String>)
    ensures
        strings_of(images@) == folder_images(strings_of(listing@)),
{
    let n = listing.len();
    let ghost all = strings_of(listing@);
    let mut found: Vec<Keyed> = Vec::new();
    let mut i: usize = 0;
    assert(views(found@) =~= image_candidates(all, 0));
    while i < n
        invariant
            n == listing@.len(),
            all == strings_of(listing@),
            i <= n,
            views(found@) == image_candidates(all, i as nat),
        decreases n - i,
    {
        let path = listing[i].as_str();
        assert(all[i as int] == path@);
        if is_image_file(path) {
            let name = file_name_or_empty(path);
            let mut key: Vec<SortChunk> = Vec::new();
            key.push(SortChunk::Text(chars_of(name.to_lowercase().as_str())));
            assert(chunks_of(key@) =~= folder_key(path@));
            let item = Keyed { key, value: listing[i].clone() };
            proof {
                assert(views(found@.push(item)) =~= views(found@).push(item@));
            }
            found.push(item);
        }
        i = i + 1;
    }
    let images = sort_by_key(found);
    assert(strings_of(images@) =~= Seq::new(images@.len(), |i: int| images@[i]@));
    images
}

/// The first of the paths from `from` on whose file name, in lower case,
/// is `name`.
pub open spec fn place_by_name(paths: Seq<Seq<char>>, name: Option<Seq<char>>, from: int) -> Option<
    int,
>
    decreases paths.len() - from,
{
    if from < 0 || from >= paths.len() {
        None
    } else if same_text(lowered_name(paths[from]), name) {
        Some(from)
    } else {
        place_by_name(paths, name, from + 1)
    }
}

/// Looks for the first path whose file name, in lower case, is `name`.
fn find_by_name(paths: &Vec<String>, name: &Option<String>) -> (found: Option<usize>)
    ensures
        match found {
            Some(i) => i < paths@.len() && place_by_name(
                strings_of(paths@),
                option_text(*name),
                0,
            ) == Some(i as int),
            None => place_by_name(strings_of(paths@), option_text(*name), 0) is None,
        },
{
    let n = paths.len();
    let ghost all = strings_of(paths@);
    let mut i: usize = 0;
    while i < n
        invariant
            n == paths@.len(),
            all == strings_of(paths@),
            i <= n,
            place_by_name(all, option_text(*name), 0) == place_by_name(
                all,
                option_text(*name),
                i as int,
            ),
        decreases n - i,
    {
        assert(all[i as int] == paths@[i as int]@);
        let candidate = lowered_name_of(paths[i].as_str());
        if same_name(&candidate, name) {
            return Some(i);
        }
        i = i + 1;
    }
    None
}

/// The text that an optional string spells.
pub open spec fn option_text(s: Option<String>) -> Option<Seq<char>> {
    match s {
        Some(text) => Some(text@),
        None => None,
    }
}

/// Picks the image files out of the files of a directory, sorts them by
/// name, and says where among them the file `file_path` stands: at the
/// first image of the same name, upper and lower case taken as the same,
/// or at 0 where there is none.
pub fn scan_folder_images(file_path: &str, listing: &Vec<String>) -> (res: (Vec<String>, usize))
    ensures
        strings_of(res.0@) == folder_images(strings_of(listing@)),
        res.1 == match place_by_name(
            folder_images(strings_of(listing@)),
            lowered_name(file_path@),
            0,
        ) {
            Some(i) => i,
            None => 0,
        },
{
    let images = scan_directory_images(listing);
    let target = lowered_name_of(file_path);
    let current_index = match find_by_name(&images, &target) {
        Some(i) => i,
        None => 0,
    };
    (images, current_index)
}

// ── neighbouring archives ───────────────────────────────────────────

/// The start of the last run of digits in a name, as a byte offset: where
/// the last match of the pattern `\d+` starts.
pub open spec fn last_digit_block(stem: Seq<char>) -> Option<int> {
    match regex_match_starts("\\d+"@, stem) {
        Some(starts) => if starts.len() > 0 {
            Some(starts.last())
        } else {
            None
        },
        None => None,
    }
}

/// The series that a file belongs to by its name: what stands before the
/// last run of digits of the name, in lower case; the whole name in lower
/// case where it holds no digits.
pub open spec fn series_prefix(stem: Seq<char>) -> Seq<char> {
    match last_digit_block(stem) {
        Some(start) => lowercased(decode_utf8(encode_utf8(stem).subrange(0, start))),
        None => lowercased(stem),
    }
}

/// The part of a file name, given without its extension, that stands
/// before its last run of digits, in lower case.
pub fn extract_series_prefix(stem: &str) -> (prefix: String)
    ensures
        prefix@ == series_prefix(stem@),
{
    match match_starts("\\d+", stem) {
        None => stem.to_lowercase(),
        Some(starts) => {
            if starts.len() == 0 {
                return stem.to_lowercase();
            }
            let start = starts[starts.len() - 1];
            assert(offsets(starts@).last() == start);
            let (head, _) = stem.split_at(start);
            proof {
                encode_utf8_decode_utf8(head@);
            }
            head.to_lowercase()
        },
    }
}

/// The file name of a path without its extension, empty where the path
/// ends in no name.
pub open spec fn stem_of(path: Seq<char>) -> Seq<char> {
    match path_file_stem(path) {
        Some(stem) => stem,
        None => Seq::empty(),
    }
}

/// Whether a path has the extension `zip`, in whatever case.
pub open spec fn is_zip_path(path: Seq<char>) -> bool {
    match path_extension(path) {
        Some(extension) => lowercased(extension) == "zip"@,
        None => false,
    }
}

/// Whether a path has the extension `zip`, in whatever case.
pub fn has_zip_extension(path: &str) -> (b: bool)
    ensures
        b == is_zip_path(path@),
{
    match extension_of(path) {
        Some(extension) => str_eq(extension.to_lowercase().as_str(), "zip"),
        None => false,
    }
}

/// The archives among the first `n` paths, each with its natural key.
pub open spec fn zip_candidates(listing: Seq<Seq<char>>, n: nat) -> Seq<KeyedView>
    decreases n,
{
    if n == 0 {
        Seq::empty()
    } else if is_zip_path(listing[n - 1]) {
        zip_candidates(listing, (n - 1) as nat).push(
            KeyedView { key: natural_key(name_of(listing[n - 1])), value: listing[n - 1] },
        )
    } else {
        zip_candidates(listing, (n - 1) as nat)
    }
}

/// Of the first `n` paths, those of the series `prefix`, in their order.
pub open spec fn same_series(paths: Seq<Seq<char>>, prefix: Seq<char>, n: nat) -> Seq<Seq<char>>
    decreases n,
{
    if n == 0 {
        Seq::empty()
    } else if series_prefix(stem_of(paths[n - 1])) == prefix {
        same_series(paths, prefix, (n - 1) as nat).push(paths[n - 1])
    } else {
        same_series(paths, prefix, (n - 1) as nat)
    }
}

/// The archives among which the neighbours of `current` are looked for:
/// the archives of the directory in natural order, and of them only those
/// of the series of `current` where that series has more than one.
pub open spec fn search_list(current: Seq<char>, listing: Seq<Seq<char>>) -> Seq<Seq<char>> {
    let zips = sorted_by_key(zip_candidates(listing, listing.len()));
    let group = same_series(zips, series_prefix(stem_of(current)), zips.len());
    if group.len() > 1 {
        group
    } else {
        zips
    }
}

/// The paths before and behind place `at`.
pub open spec fn neighbours(paths: Seq<Seq<char>>, at: Option<int>) -> (
    Option<Seq<char>>,
    Option<Seq<char>>,
) {
    match at {
        None => (None, None),
        Some(i) => (
            if i > 0 {
                Some(paths[i - 1])
            } else {
                None
            },
            if i + 1 < paths.len() {
                Some(paths[i + 1])
            } else {
                None
            },
        ),
    }
}

/// The archives before and behind `current` among the files `listing` of
/// its directory, or `None` where `current` ends in no file name.
pub open spec fn adjacent_zips(current: Seq<char>, listing: Seq<Seq<char>>) -> Option<
    (Option<Seq<char>>, Option<Seq<char>>),
> {
    if path_file_name(current) is None {
        None
    } else {
        let search = search_list(current, listing);
        Some(neighbours(search, place_by_name(search, lowered_name(current), 0)))
    }
}

/// Why the neighbours of an archive could not be told.
#[derive(Debug, Clone, Copy, PartialEq, Eq, Structural)]
pub enum AdjacentError {
    /// The path of the archive ends in no file name.
    NoFileName,
}

/// The archives of a directory in natural order.
fn sorted_zips(listing: &Vec<String>) -> (zips: Vec<String>)
    ensures
        strings_of(zips@) == sorted_by_key(
            zip_candidates(strings_of(listing@), listing@.len() as nat),
        ),
{
    let n = listing.len();
    let ghost all = strings_of(listing@);
    let mut found: Vec<Keyed> = Vec::new();
    let mut i: usize = 0;
    assert(views(found@) =~= zip_candidates(all, 0));
    while i < n
        invariant
            n == listing@.len(),
            all == strings_of(listing@),
            i <= n,
            views(found@) == zip_candidates(all, i as nat),
        decreases n - i,
    {
        let path = listing[i].as_str();
        assert(all[i as int] == path@);
        if has_zip_extension(path) {
            let name = file_name_or_empty(path);
            let item = Keyed { key: natural_sort_key(name.as_str()), value: listing[i].clone() };
            proof {
                assert(views(found@.push(item)) =~= views(found@).push(item@));
            }
            found.push(item);
        }
        i = i + 1;
    }
    let zips = sort_by_key(found);
    assert(strings_of(zips@) =~= Seq::new(zips@.len(), |i: int| zips@[i]@));
    zips
}

/// Of the paths, those of the series `prefix`.
fn series_of(paths: &Vec<String>, prefix: &str) -> (group: Vec<String>)
    ensures
        strings_of(group@) == same_series(strings_of(paths@), prefix@, paths@.len() as nat),
{
    let n = paths.len();
    let ghost all = strings_of(paths@);
    let mut group: Vec<String> = Vec::new();
    let mut i: usize = 0;
    assert(strings_of(group@) =~= same_series(all, prefix@, 0));
    while i < n
        invariant
            n == paths@.len(),
            all == strings_of(paths@),
            i <= n,
            strings_of(group@) == same_series(all, prefix@, i as nat),
        decreases n - i,
    {
        let path = paths[i].as_str();
        assert(all[i as int] == path@);
        let stem = match file_stem_of(path) {
            Some(stem) => stem,
            None => String::new(),
        };
        let theirs = extract_series_prefix(stem.as_str());
        if str_eq(theirs.as_str(), prefix) {
            proof {
                assert(strings_of(group@.push(paths@[i as int])) =~= strings_of(group@).push(
                    path@,
                ));
            }
            group.push(paths[i].clone());
        }
        i = i + 1;
    }
    group
}

/// Finds the archives before and behind `current_zip` in its directory.
/// `listing` holds the paths of the regular files of that directory. The
/// archives are taken in natural order; where the series of the current
/// archive has more than one archive, only that series is looked at.
pub fn find_adjacent_zips(current_zip: &str, listing: &Vec<String>) -> (res: Result<
    (Option<String>, Option<String>),
    AdjacentError,
>)
    ensures
        match res {
            Err(_) => adjacent_zips(current_zip@, strings_of(listing@)) is None,
            Ok(pair) => adjacent_zips(current_zip@, strings_of(listing@)) == Some(
                (option_text(pair.0), option_text(pair.1)),
            ),
        },
{
    let current_name = match file_name_of(current_zip) {
        Some(name) => name,
        None => {
            return Err(AdjacentError::NoFileName);
        },
    };
    let zips = sorted_zips(listing);
    let current_stem = match file_stem_of(current_zip) {
        Some(stem) => stem,
        None => String::new(),
    };
    let current_prefix = extract_series_prefix(current_stem.as_str());
    let group = series_of(&zips, current_prefix.as_str());
    let search = if group.len() > 1 {
        group
    } else {
        zips
    };
    assert(strings_of(search@) == search_list(current_zip@, strings_of(listing@)));
    let wanted = Some(current_name.to_lowercase());
    match find_by_name(&search, &wanted) {
        None => Ok((None, None)),
        Some(pos) => {
            assert(strings_of(search@)[pos as int] == search@[pos as int]@);
            let prev = if pos > 0 {
                assert(strings_of(search@)[pos - 1] == search@[pos - 1]@);
                Some(search[pos - 1].clone())
            } else {
                None
            };
            let next = if pos + 1 < search.len() {
                assert(strings_of(search@)[pos + 1] == search@[pos + 1]@);
                Some(search[pos + 1].clone())
            } else {
                None
            };
            Ok((prev, next))
        },
    }
}

} // verus!
