//! The cache manager: a registry of image sources, one open archive per
//! registered archive source, and the byte cache that serves their images.
//!
//! The manager owns all of its state and decides; it opens and reads no
//! file itself. A read that needs outside work says which, and the caller
//! reports back how that work ended. Whoever shares a manager between
//! threads puts the whole of it behind one lock.

use vstd::hash_map::StringHashMap;
use vstd::prelude::*;
use vstd::slice::slice_to_vec;
use vstd::string::StringExecFns;

use crate::lru_cache::{
    cached_bytes, distinct_keys, holds, holds_source, inserted, lemma_inserted_is_cached,
    lemma_inserted_members, lemma_position_from, lemma_touched_keeps_bytes,
    lemma_touched_members, lemma_without_source, touched, without_source, CachedImage,
    LruBytesCache,
};
use crate::zip_fast::{
    entry_read, index_of, is_outcome, EntryView, ErrorKind, ZipError, ZipIndex,
};

verus! {

/// How many images after the current one are fetched ahead of time.
pub const PREFETCH_AHEAD: usize = 2;

/// How many images before the current one are fetched ahead of time.
pub const PREFETCH_BEHIND: usize = 1;

/// Where the images of one content come from: the files of a folder, or the
/// entries of an archive, each in viewing order.
#[derive(Debug)]
pub enum ImageSourceInfo {
    Folder { image_paths: Vec<String> },
    Zip { zip_path: String, entry_names: Vec<String> },
}

impl ImageSourceInfo {
    /// The number of images.
    pub open spec fn count(self) -> nat {
        match self {
            ImageSourceInfo::Folder { image_paths } => image_paths@.len(),
            ImageSourceInfo::Zip { entry_names, .. } => entry_names@.len(),
        }
    }

    /// The path of the file that is read for image `index`: the image file
    /// of a folder, the archive of an archive source. Empty where a folder
    /// has no such image.
    pub open spec fn spec_file_path(self, index: nat) -> Seq<char> {
        match self {
            ImageSourceInfo::Folder { image_paths } => if index < image_paths@.len() {
                image_paths@[index as int]@
            } else {
                Seq::empty()
            },
            ImageSourceInfo::Zip { zip_path, .. } => zip_path@,
        }
    }

    /// The path of the archive of an archive source, empty for a folder.
    pub open spec fn spec_archive_path(self) -> Seq<char> {
        match self {
            ImageSourceInfo::Folder { .. } => Seq::empty(),
            ImageSourceInfo::Zip { zip_path, .. } => zip_path@,
        }
    }

    /// The path of the archive of an archive source, empty for a folder.
    pub fn archive_path(&self) -> (path: String)
        ensures
            path@ == self.spec_archive_path(),
    {
        match self {
            ImageSourceInfo::Folder { .. } => String::new(),
            ImageSourceInfo::Zip { zip_path, .. } => zip_path.clone(),
        }
    }

    /// The path of the file that is read for image `index`.
    pub fn file_path(&self, index: usize) -> (path: String)
        ensures
            path@ == self.spec_file_path(index as nat),
    {
        match self {
            ImageSourceInfo::Folder { image_paths } => if index < image_paths.len() {
                image_paths[index].clone()
            } else {
                String::new()
            },
            ImageSourceInfo::Zip { zip_path, .. } => zip_path.clone(),
        }
    }
}

/// Why an image could not be served.
#[derive(Debug)]
pub enum CacheError {
    /// No source is registered under the content id.
    SourceNotRegistered,
    /// The source has no image with this ordinal.
    IndexOutOfRange(usize),
    /// The archive could not be indexed, or the entry could not be read
    /// from it.
    Archive(ZipError),
    /// The file at `path` could not be opened or read; `reason` says why.
    ReadFailed { path: String, reason: String },
}

impl CacheError {
    /// The family of this error: an unknown content and a missing image
    /// are `NotFound`, a failed read of a file is `Io`, and an error of
    /// the archive is of the family that the archive gives it.
    pub open spec fn spec_kind(self) -> ErrorKind {
        match self {
            CacheError::SourceNotRegistered => ErrorKind::NotFound,
            CacheError::IndexOutOfRange(_) => ErrorKind::NotFound,
            CacheError::Archive(e) => e.spec_kind(),
            CacheError::ReadFailed { .. } => ErrorKind::Io,
        }
    }

    /// The family of this error.
    pub fn kind(&self) -> (k: ErrorKind)
        ensures
            k == self.spec_kind(),
    {
        match self {
            CacheError::SourceNotRegistered => ErrorKind::NotFound,
            CacheError::IndexOutOfRange(_) => ErrorKind::NotFound,
            CacheError::Archive(e) => e.kind(),
            CacheError::ReadFailed { .. } => ErrorKind::Io,
        }
    }

    /// The text shown for a file that could not be read: that reading
    /// failed, the path of the file, and the reason.
    pub open spec fn read_failure_text(path: Seq<char>, reason: Seq<char>) -> Seq<char> {
        "Failed to read image: "@ + path + ": "@ + reason
    }

    /// The text shown for this error where a file could not be read, with
    /// the path of the file in it; `None` for the other errors.
    pub fn read_failure(&self) -> (text: Option<String>)
        ensures
            match self {
                CacheError::ReadFailed { path, reason } => text matches Some(t) && t@
                    == Self::read_failure_text(path@, reason@),
                _ => text is None,
            },
    {
        match self {
            CacheError::ReadFailed { path, reason } => {
                let mut text = String::from_str("Failed to read image: ");
                text.append(path.as_str());
                text.append(": ");
                text.append(reason.as_str());
                assert(text@ =~= Self::read_failure_text(path@, reason@));
                Some(text)
            },
            _ => None,
        }
    }
}

/// What a read has come to.
#[derive(Debug)]
pub enum ReadStep {
    /// The bytes of the image.
    Ready(Vec<u8>),
    /// The file at this path holds the image: read it and report with
    /// [`ImageCacheManager::file_read`].
    NeedFile(String),
    /// The archive at this path holds the image and is not open: map it,
    /// report with [`ImageCacheManager::archive_opened`], and ask again.
    NeedArchive(String),
}

/// What the source of an image gives without looking at the cache.
#[derive(Debug)]
pub enum SourceRead {
    /// The bytes, read from an open archive.
    Bytes(Vec<u8>),
    /// The path of the file that holds the image.
    File(String),
    /// The path of the archive that has to be opened first.
    Archive(String),
}

/// What one step of a prefetch has come to.
#[derive(Debug)]
pub enum PrefetchStep {
    /// Nothing more to do for this image: go on with the next.
    Skip,
    /// The source is gone or the read failed: give up the rest.
    Stop,
    /// As in [`ReadStep::NeedFile`].
    NeedFile(String),
    /// As in [`ReadStep::NeedArchive`].
    NeedArchive(String),
}

/// What a read of image `index` of `file_id` finds, before any outside
/// work.
pub enum Plan {
    /// The image is cached with these bytes.
    Hit(Seq<u8>),
    /// No source is registered under the id.
    Unknown,
    /// The source has no such image.
    OutOfRange,
    /// The image is the file at this path.
    File(Seq<char>),
    /// The image is in the archive at this path, which is not open.
    Open(Seq<char>),
    /// The image is the entry of this name in the open archive.
    Entry(Seq<char>),
}

/// Where image `index` of a source is to be had, given whether the archive
/// of the source is open.
pub open spec fn source_plan(source: ImageSourceInfo, open: bool, index: nat) -> Plan {
    match source {
        ImageSourceInfo::Folder { image_paths } => if index < image_paths@.len() {
            Plan::File(image_paths@[index as int]@)
        } else {
            Plan::OutOfRange
        },
        ImageSourceInfo::Zip { zip_path, entry_names } => if index >= entry_names@.len() {
            Plan::OutOfRange
        } else if open {
            Plan::Entry(entry_names@[index as int]@)
        } else {
            Plan::Open(zip_path@)
        },
    }
}

/// What a read finds: the cache is asked first, then the registry.
pub open spec fn read_plan(
    sources: Map<Seq<char>, ImageSourceInfo>,
    open: Set<Seq<char>>,
    cache: Seq<CachedImage>,
    file_id: Seq<char>,
    index: nat,
) -> Plan {
    match cached_bytes(cache, file_id, index) {
        Some(bytes) => Plan::Hit(bytes),
        None => if sources.contains_key(file_id) {
            source_plan(sources[file_id], open.contains(file_id), index)
        } else {
            Plan::Unknown
        },
    }
}

// ── the prefetch window ─────────────────────────────────────────────

/// Of the `n` ordinals that follow `current`, those below `total`, rising.
pub open spec fn ahead(current: nat, total: nat, n: nat) -> Seq<nat>
    decreases n,
{
    if n == 0 {
        Seq::empty()
    } else if current + n < total {
        ahead(current, total, (n - 1) as nat).push(current + n)
    } else {
        ahead(current, total, (n - 1) as nat)
    }
}

/// Of the `n` ordinals before `current`, those that exist and lie below
/// `total`, falling.
pub open spec fn behind(current: nat, total: nat, n: nat) -> Seq<nat>
    decreases n,
{
    if n == 0 {
        Seq::empty()
    } else if current >= n && current - n < total {
        behind(current, total, (n - 1) as nat).push((current - n) as nat)
    } else {
        behind(current, total, (n - 1) as nat)
    }
}

/// The ordinals that are worth fetching when image `current` of `total` is
/// shown: two ahead, then one behind, each only if it is an ordinal of the
/// source, from 0 up to `total`, not including it.
pub open spec fn window(current: nat, total: nat) -> Seq<nat> {
    ahead(current, total, PREFETCH_AHEAD as nat) + behind(
        current,
        total,
        PREFETCH_BEHIND as nat,
    )
}

/// Whether every ordinal lies below `total`.
pub open spec fn all_below(indices: Seq<nat>, total: nat) -> bool {
    forall|i: int| 0 <= i < indices.len() ==> #[trigger] indices[i] < total
}

/// The ordinals ahead lie below `total`, and none is the current one.
pub proof fn lemma_ahead_is_clamped(current: nat, total: nat, n: nat)
    ensures
        all_below(ahead(current, total, n), total),
        !ahead(current, total, n).contains(current),
        ahead(current, total, n).len() <= n,
    decreases n,
{
    if n > 0 {
        lemma_ahead_is_clamped(current, total, (n - 1) as nat);
        let before = ahead(current, total, (n - 1) as nat);
        if current + n < total {
            assert forall|i: int| 0 <= i < before.push(current + n).len() implies (
            #[trigger] before.push(current + n)[i]) < total by {
                if i < before.len() {
                    assert(before[i] < total);
                }
            }
            let all = before.push(current + n);
            if all.contains(current) {
                let i = choose|i: int| 0 <= i < all.len() && #[trigger] all[i] == current;
                assert(before[i] == current);
                assert(before.contains(current));
            }
        }
    }
}

/// The ordinals behind lie below `total`, and none is the current one.
pub proof fn lemma_behind_is_clamped(current: nat, total: nat, n: nat)
    ensures
        all_below(behind(current, total, n), total),
        !behind(current, total, n).contains(current),
        behind(current, total, n).len() <= n,
    decreases n,
{
    if n > 0 {
        lemma_behind_is_clamped(current, total, (n - 1) as nat);
        let before = behind(current, total, (n - 1) as nat);
        if current >= n && current - n < total {
            let last = (current - n) as nat;
            assert forall|i: int| 0 <= i < before.push(last).len() implies (#[trigger] before.push(
                last,
            )[i]) < total by {
                if i < before.len() {
                    assert(before[i] < total);
                }
            }
            let all = before.push(last);
            if all.contains(current) {
                let i = choose|i: int| 0 <= i < all.len() && #[trigger] all[i] == current;
                assert(before[i] == current);
                assert(before.contains(current));
            }
        }
    }
}

/// The window is clamped: every ordinal in it is an ordinal of the source,
/// below `total`, whatever the current ordinal is; the current ordinal is
/// not in it; and it holds no more than three ordinals.
pub proof fn lemma_window_is_clamped(current: nat, total: nat)
    ensures
        all_below(window(current, total), total),
        !window(current, total).contains(current),
        window(current, total).len() <= PREFETCH_AHEAD + PREFETCH_BEHIND,
{
    lemma_ahead_is_clamped(current, total, PREFETCH_AHEAD as nat);
    lemma_behind_is_clamped(current, total, PREFETCH_BEHIND as nat);
    let a = ahead(current, total, PREFETCH_AHEAD as nat);
    let b = behind(current, total, PREFETCH_BEHIND as nat);
    assert forall|i: int| 0 <= i < (a + b).len() implies #[trigger] (a + b)[i] < total by {
        if i < a.len() {
            assert(a[i] < total);
        } else {
            assert(b[i - a.len()] < total);
        }
    }
    let both = a + b;
    if both.contains(current) {
        let i = choose|i: int| 0 <= i < both.len() && #[trigger] both[i] == current;
        if i < a.len() {
            assert(a[i] == current);
            assert(a.contains(current));
        } else {
            assert(b[i - a.len()] == current);
            assert(b.contains(current));
        }
    }
}

/// What a sequence with one more item holds: what it held, and the item.
pub proof fn lemma_push_contains(items: Seq<nat>, last: nat, j: nat)
    ensures
        items.push(last).contains(j) <==> items.contains(j) || last == j,
{
    let all = items.push(last);
    if all.contains(j) {
        let i = choose|i: int| 0 <= i < all.len() && #[trigger] all[i] == j;
        if i < items.len() {
            assert(items[i] == j);
        }
    }
    if items.contains(j) {
        let i = choose|i: int| 0 <= i < items.len() && #[trigger] items[i] == j;
        assert(all[i] == j);
    }
    if last == j {
        assert(all[items.len() as int] == j);
    }
}

/// The ordinals ahead are those of the `n` after the current one that lie
/// below `total`.
pub proof fn lemma_ahead_members(current: nat, total: nat, n: nat, j: nat)
    ensures
        ahead(current, total, n).contains(j) <==> j < total && current < j <= current + n,
    decreases n,
{
    if n > 0 {
        lemma_ahead_members(current, total, (n - 1) as nat, j);
        if current + n < total {
            lemma_push_contains(ahead(current, total, (n - 1) as nat), current + n, j);
        }
    }
}

/// The ordinals behind are those of the `n` before the current one that
/// lie below `total`.
pub proof fn lemma_behind_members(current: nat, total: nat, n: nat, j: nat)
    ensures
        behind(current, total, n).contains(j) <==> j < total && j < current <= j + n,
    decreases n,
{
    if n > 0 {
        lemma_behind_members(current, total, (n - 1) as nat, j);
        if current >= n && current - n < total {
            lemma_push_contains(
                behind(current, total, (n - 1) as nat),
                (current - n) as nat,
                j,
            );
        }
    }
}

/// What the window holds: an ordinal is in it exactly if it lies below
/// `total` and is one of the two after the current ordinal or the one
/// before it.
pub proof fn lemma_window_members(current: nat, total: nat, j: nat)
    ensures
        window(current, total).contains(j) <==> j < total && (current < j <= current
            + PREFETCH_AHEAD || j < current <= j + PREFETCH_BEHIND),
{
    let a = ahead(current, total, PREFETCH_AHEAD as nat);
    let b = behind(current, total, PREFETCH_BEHIND as nat);
    lemma_ahead_members(current, total, PREFETCH_AHEAD as nat, j);
    lemma_behind_members(current, total, PREFETCH_BEHIND as nat, j);
    let both = a + b;
    if both.contains(j) {
        let i = choose|i: int| 0 <= i < both.len() && #[trigger] both[i] == j;
        if i < a.len() {
            assert(a[i] == j);
        } else {
            assert(b[i - a.len()] == j);
        }
    }
    if a.contains(j) {
        let i = choose|i: int| 0 <= i < a.len() && #[trigger] a[i] == j;
        assert(both[i] == j);
    }
    if b.contains(j) {
        let i = choose|i: int| 0 <= i < b.len() && #[trigger] b[i] == j;
        assert(both[a.len() + i] == j);
    }
}

/// Those of `indices` that are not cached for `file_id`, in their order.
pub open spec fn uncached(cache: Seq<CachedImage>, file_id: Seq<char>, indices: Seq<nat>) -> Seq<
    nat,
>
    decreases indices.len(),
{
    if indices.len() == 0 {
        indices
    } else if holds(cache, file_id, indices.last()) {
        uncached(cache, file_id, indices.drop_last())
    } else {
        uncached(cache, file_id, indices.drop_last()).push(indices.last())
    }
}

/// What is left of ordinals without the cached ones: an ordinal is left
/// exactly if it was among them and is not cached.
pub proof fn lemma_uncached_members(
    cache: Seq<CachedImage>,
    file_id: Seq<char>,
    indices: Seq<nat>,
    j: nat,
)
    ensures
        uncached(cache, file_id, indices).contains(j) <==> indices.contains(j) && !holds(
            cache,
            file_id,
            j,
        ),
    decreases indices.len(),
{
    if indices.len() > 0 {
        let rest = indices.drop_last();
        lemma_uncached_members(cache, file_id, rest, j);
        assert(rest.push(indices.last()) =~= indices);
        lemma_push_contains(rest, indices.last(), j);
        if !holds(cache, file_id, indices.last()) {
            lemma_push_contains(uncached(cache, file_id, rest), indices.last(), j);
        }
    }
}

/// What a prefetch schedules: exactly the ordinals below `total` that are
/// one of the two after the current ordinal or the one before it, and that
/// are not cached.
pub proof fn lemma_prefetch_schedules(
    cache: Seq<CachedImage>,
    file_id: Seq<char>,
    current: nat,
    total: nat,
    j: nat,
)
    ensures
        uncached(cache, file_id, window(current, total)).contains(j) <==> j < total && (current
            < j <= current + PREFETCH_AHEAD || j < current <= j + PREFETCH_BEHIND) && !holds(
            cache,
            file_id,
            j,
        ),
{
    lemma_window_members(current, total, j);
    lemma_uncached_members(cache, file_id, window(current, total), j);
}

/// The ordinals that a vector holds.
pub open spec fn ordinals(v: Seq<usize>) -> Seq<nat> {
    Seq::new(v.len(), |i: int| v[i] as nat)
}

/// The ordinals to fetch ahead of time around image `current_index` of
/// `total`: those after it first, then those before it, none outside the
/// ordinals of the source.
pub fn prefetch_window(current_index: usize, total: usize) -> (indices: Vec<usize>)
    ensures
        ordinals(indices@) == window(current_index as nat, total as nat),
{
    let mut indices: Vec<usize> = Vec::new();
    let mut i: usize = 1;
    assert(ordinals(indices@) =~= ahead(current_index as nat, total as nat, 0));
    while i <= PREFETCH_AHEAD
        invariant
            1 <= i <= PREFETCH_AHEAD + 1,
            ordinals(indices@) == ahead(current_index as nat, total as nat, (i - 1) as nat),
        decreases PREFETCH_AHEAD + 1 - i,
    {
        if i < total && current_index < total - i {
            proof {
                assert(ordinals(indices@.push((current_index + i) as usize)) =~= ordinals(
                    indices@,
                ).push((current_index + i) as nat));
            }
            indices.push(current_index + i);
        }
        i = i + 1;
    }
    let ghost front = ordinals(indices@);
    let mut j: usize = 1;
    assert(front + behind(current_index as nat, total as nat, 0) =~= front);
    while j <= PREFETCH_BEHIND
        invariant
            1 <= j <= PREFETCH_BEHIND + 1,
            ordinals(indices@) == front + behind(
                current_index as nat,
                total as nat,
                (j - 1) as nat,
            ),
        decreases PREFETCH_BEHIND + 1 - j,
    {
        if current_index >= j && current_index - j < total {
            proof {
                assert(ordinals(indices@.push((current_index - j) as usize)) =~= front + behind(
                    current_index as nat,
                    total as nat,
                    (j - 1) as nat,
                ).push((current_index - j) as nat));
            }
            indices.push(current_index - j);
        }
        j = j + 1;
    }
    indices
}

/// Whether `res` is what the source of an image answers where the image is
/// to be had as `plan` says. An entry of an open archive, whose index is
/// `entries`, gives what reading it from the mapped bytes gives, whatever
/// bytes the mapping shows.
pub open spec fn source_answers(
    res: Result<SourceRead, CacheError>,
    plan: Plan,
    entries: Seq<EntryView>,
    index: usize,
) -> bool {
    match plan {
        Plan::OutOfRange => res matches Err(CacheError::IndexOutOfRange(i)) && i == index,
        Plan::File(path) => res matches Ok(SourceRead::File(p)) && p@ == path,
        Plan::Open(path) => res matches Ok(SourceRead::Archive(p)) && p@ == path,
        Plan::Entry(name) => match res {
            Ok(SourceRead::Bytes(bytes)) => exists|d: Seq<u8>| #[trigger]
                entry_read(d, entries, name) == Ok::<Seq<u8>, ZipError>(bytes@),
            Err(CacheError::Archive(e)) => exists|d: Seq<u8>| #[trigger]
                entry_read(d, entries, name) == Err::<Seq<u8>, ZipError>(e),
            _ => false,
        },
        _ => false,
    }
}

/// Whether `res`, with the cache going from `before` to `after`, is what a
/// read of image `index` of `file_id` comes to where it finds `plan`.
///
/// A hit hands the cached bytes out and makes the entry the most recently
/// used. An entry of an open archive, whose index is `entries`, is read and
/// cached. Everything else leaves the cache as it is.
pub open spec fn read_answers(
    res: Result<ReadStep, CacheError>,
    plan: Plan,
    entries: Seq<EntryView>,
    file_id: Seq<char>,
    index: usize,
    before: Seq<CachedImage>,
    after: Seq<CachedImage>,
    budget: nat,
) -> bool {
    match plan {
        Plan::Hit(bytes) => {
            &&& res matches Ok(ReadStep::Ready(b))
            &&& b@ == bytes
            &&& after == touched(before, file_id, index as nat)
        },
        Plan::Unknown => {
            &&& res matches Err(CacheError::SourceNotRegistered)
            &&& after == before
        },
        Plan::OutOfRange => {
            &&& res matches Err(CacheError::IndexOutOfRange(i))
            &&& i == index
            &&& after == before
        },
        Plan::File(path) => {
            &&& res matches Ok(ReadStep::NeedFile(p))
            &&& p@ == path
            &&& after == before
        },
        Plan::Open(path) => {
            &&& res matches Ok(ReadStep::NeedArchive(p))
            &&& p@ == path
            &&& after == before
        },
        Plan::Entry(name) => match res {
            Ok(ReadStep::Ready(b)) => {
                &&& after == inserted(before, budget, image(file_id, index as nat, b@))
                &&& exists|d: Seq<u8>| #[trigger]
                    entry_read(d, entries, name) == Ok::<Seq<u8>, ZipError>(b@)
            },
            Err(CacheError::Archive(e)) => {
                &&& after == before
                &&& exists|d: Seq<u8>| #[trigger]
                    entry_read(d, entries, name) == Err::<Seq<u8>, ZipError>(e)
            },
            _ => false,
        },
    }
}

/// Whether `step`, with the cache going from `before` to `after`, is what
/// one step of a prefetch comes to for image `index` of `file_id`.
///
/// A cached image is passed over, the order of use untouched; a content
/// that is not registered, or an image that cannot be had, ends the
/// prefetch; an entry of an open archive is read and cached.
pub open spec fn prefetch_answers(
    step: PrefetchStep,
    cached: bool,
    plan: Plan,
    entries: Seq<EntryView>,
    file_id: Seq<char>,
    index: usize,
    before: Seq<CachedImage>,
    after: Seq<CachedImage>,
    budget: nat,
) -> bool {
    if cached {
        step is Skip && after == before
    } else {
        match plan {
            Plan::Unknown => step is Stop && after == before,
            Plan::OutOfRange => step is Stop && after == before,
            Plan::File(path) => {
                &&& step matches PrefetchStep::NeedFile(p)
                &&& p@ == path
                &&& after == before
            },
            Plan::Open(path) => {
                &&& step matches PrefetchStep::NeedArchive(p)
                &&& p@ == path
                &&& after == before
            },
            Plan::Entry(name) => match step {
                PrefetchStep::Skip => exists|d: Seq<u8>, b: Seq<u8>|
                    #![trigger entry_read(d, entries, name), image(file_id, index as nat, b)]
                    entry_read(d, entries, name) == Ok::<Seq<u8>, ZipError>(b) && after
                        == inserted(before, budget, image(file_id, index as nat, b)),
                PrefetchStep::Stop => after == before,
                _ => false,
            },
            Plan::Hit(_) => false,
        }
    }
}

// ── the manager ─────────────────────────────────────────────────────

/// The registry of sources, the open archives, and the byte cache.
pub struct ImageCacheManager {
    zip_handles: StringHashMap<ZipIndex>,
    sources: StringHashMap<ImageSourceInfo>,
    lru: LruBytesCache,
}

/// The place of a key that is cached.
pub open spec fn position_of(cache: Seq<CachedImage>, file_id: Seq<char>, index: nat) -> int {
    crate::lru_cache::position(cache, file_id, index)->0
}

/// The entry that caches `bytes` as image `index` of `file_id`.
pub open spec fn image(file_id: Seq<char>, index: nat, bytes: Seq<u8>) -> CachedImage {
    CachedImage { file_id, index, bytes }
}

impl ImageCacheManager {
    /// The registered sources by content id.
    pub closed spec fn sources(&self) -> Map<Seq<char>, ImageSourceInfo> {
        self.sources@
    }

    /// The open archives by content id.
    pub closed spec fn handles(&self) -> Map<Seq<char>, ZipIndex> {
        self.zip_handles@
    }

    /// The cached images, from the least to the most recently used.
    pub closed spec fn cache(&self) -> Seq<CachedImage> {
        self.lru@
    }

    /// The budget of the byte cache.
    pub closed spec fn budget(&self) -> nat {
        self.lru.budget()
    }

    /// The byte cache is in order.
    pub closed spec fn cache_wf(&self) -> bool {
        self.lru.wf()
    }

    /// The manager is in order: the byte cache is, and neither an open
    /// archive nor a cached image belongs to a content that is not
    /// registered.
    pub open spec fn wf(&self) -> bool {
        &&& self.cache_wf()
        &&& forall|id: Seq<char>| #[trigger]
            self.handles().contains_key(id) ==> self.sources().contains_key(id)
        &&& forall|i: int|
            0 <= i < self.cache().len() ==> self.sources().contains_key(
                (#[trigger] self.cache()[i]).file_id,
            )
    }

    /// What a read of image `index` of `file_id` finds in this state.
    pub open spec fn plan(&self, file_id: Seq<char>, index: nat) -> Plan {
        read_plan(self.sources(), self.handles().dom(), self.cache(), file_id, index)
    }

    /// A manager with nothing registered and an empty cache of 100 MiB.
    pub fn new() -> (manager: Self)
        ensures
            manager.wf(),
            manager.sources() == Map::<Seq<char>, ImageSourceInfo>::empty(),
            manager.handles() == Map::<Seq<char>, ZipIndex>::empty(),
            manager.cache() == Seq::<CachedImage>::empty(),
            manager.budget() == crate::lru_cache::MAX_CACHE_BYTES,
    {
        ImageCacheManager {
            zip_handles: StringHashMap::new(),
            sources: StringHashMap::new(),
            lru: LruBytesCache::new(),
        }
    }

    /// A manager with nothing registered and an empty cache of the given
    /// budget in bytes.
    pub fn with_budget(budget: usize) -> (manager: Self)
        ensures
            manager.wf(),
            manager.sources() == Map::<Seq<char>, ImageSourceInfo>::empty(),
            manager.handles() == Map::<Seq<char>, ZipIndex>::empty(),
            manager.cache() == Seq::<CachedImage>::empty(),
            manager.budget() == budget,
    {
        ImageCacheManager {
            zip_handles: StringHashMap::new(),
            sources: StringHashMap::new(),
            lru: LruBytesCache::with_budget(budget),
        }
    }

    /// Registers a source under a content id, in place of any source that
    /// was registered under it. Touches neither the cache nor the open
    /// archives.
    pub fn register(&mut self, file_id: &str, source: ImageSourceInfo)
        requires
            old(self).wf(),
        ensures
            final(self).wf(),
            final(self).sources() == old(self).sources().insert(file_id@, source),
            final(self).handles() == old(self).handles(),
            final(self).cache() == old(self).cache(),
            final(self).budget() == old(self).budget(),
    {
        self.sources.insert(file_id.to_owned(), source);
        proof {
            assert(self.cache_wf());
            assert(self.handles() == old(self).handles());
            assert(self.sources() == old(self).sources().insert(file_id@, source));
            assert forall|id: Seq<char>| #[trigger]
                self.handles().contains_key(id) implies self.sources().contains_key(id) by {
                assert(old(self).handles().contains_key(id));
                assert(old(self).sources().contains_key(id));
            }
            assert forall|i: int| 0 <= i < self.cache().len() implies self.sources().contains_key(
                (#[trigger] self.cache()[i]).file_id,
            ) by {
                assert(old(self).sources().contains_key(old(self).cache()[i].file_id));
            }
        }
    }

    /// Forgets a content: closes its archive, drops its source and every
    /// cached image of it.
    pub fn unregister(&mut self, file_id: &str)
        requires
            old(self).wf(),
        ensures
            final(self).wf(),
            final(self).sources() == old(self).sources().remove(file_id@),
            final(self).handles() == old(self).handles().remove(file_id@),
            final(self).cache() == without_source(old(self).cache(), file_id@),
            final(self).budget() == old(self).budget(),
    {
        self.zip_handles.remove(file_id);
        self.sources.remove(file_id);
        self.lru.remove_file(file_id);
        proof {
            let before = old(self).cache();
            lemma_without_source(before, file_id@);
            assert forall|id: Seq<char>| #[trigger]
                self.handles().contains_key(id) implies self.sources().contains_key(id) by {
                assert(old(self).handles().contains_key(id));
                assert(old(self).sources().contains_key(id));
            }
            assert forall|i: int| 0 <= i < self.cache().len() implies self.sources().contains_key(
                (#[trigger] self.cache()[i]).file_id,
            ) by {
                let e = self.cache()[i];
                assert(before.contains(e));
                let k = choose|k: int| 0 <= k < before.len() && before[k] == e;
                assert(old(self).sources().contains_key(before[k].file_id));
                assert(e.file_id != file_id@);
            }
        }
    }

    /// Whether a source is registered under the content id.
    pub fn is_registered(&self, file_id: &str) -> (b: bool)
        ensures
            b == self.sources().contains_key(file_id@),
    {
        self.sources.contains_key(file_id)
    }

    /// Whether image `index` of `file_id` is cached. Leaves the order of
    /// use as it is.
    pub fn is_cached(&self, file_id: &str, index: usize) -> (b: bool)
        ensures
            b == holds(self.cache(), file_id@, index as nat),
    {
        self.lru.contains(file_id, index)
    }

    /// Asks the source of an image for it, the cache left aside. Bytes come
    /// back from an archive that is open; a folder names the file to read,
    /// and an archive that is not open is named to be opened.
    pub fn read_from_source(&self, file_id: &str, index: usize) -> (res: Result<
        SourceRead,
        CacheError,
    >)
        ensures
            !self.sources().contains_key(file_id@) ==> res matches Err(
                CacheError::SourceNotRegistered,
            ),
            self.sources().contains_key(file_id@) ==> source_answers(
                res,
                source_plan(
                    self.sources()[file_id@],
                    self.handles().contains_key(file_id@),
                    index as nat,
                ),
                self.handles()[file_id@].entries(),
                index,
            ),
    {
        match self.sources.get(file_id) {
            None => Err(CacheError::SourceNotRegistered),
            Some(source) => match source {
                ImageSourceInfo::Folder { image_paths } => {
                    if index < image_paths.len() {
                        Ok(SourceRead::File(image_paths[index].clone()))
                    } else {
                        Err(CacheError::IndexOutOfRange(index))
                    }
                },
                ImageSourceInfo::Zip { zip_path, entry_names } => {
                    if index >= entry_names.len() {
                        return Err(CacheError::IndexOutOfRange(index));
                    }
                    match self.zip_handles.get(file_id) {
                        None => Ok(SourceRead::Archive(zip_path.clone())),
                        Some(handle) => {
                            let read = handle.read_entry(entry_names[index].as_str());
                            proof {
                                let name = entry_names@[index as int]@;
                                let d = choose|d: Seq<u8>|
                                    is_outcome(
                                        read,
                                        #[trigger] entry_read(d, handle.entries(), name),
                                    );
                                assert(is_outcome(read, entry_read(d, handle.entries(), name)));
                            }
                            match read {
                                Ok(bytes) => Ok(SourceRead::Bytes(bytes)),
                                Err(e) => Err(CacheError::Archive(e)),
                            }
                        },
                    }
                },
            },
        }
    }

    /// In a manager that is in order no key is cached twice.
    pub proof fn lemma_cache_is_distinct(self)
        requires
            self.wf(),
        ensures
            distinct_keys(self.cache()),
    {
    }

    /// With the registry and the open archives as they were in `before`, no
    /// archive is open for a content that is not registered.
    proof fn lemma_same_registry(self, before: Self)
        requires
            before.wf(),
            self.sources() == before.sources(),
            self.handles() == before.handles(),
        ensures
            forall|id: Seq<char>| #[trigger]
                self.handles().contains_key(id) ==> self.sources().contains_key(id),
    {
        assert forall|id: Seq<char>| #[trigger]
            self.handles().contains_key(id) implies self.sources().contains_key(id) by {
            assert(before.handles().contains_key(id));
        }
    }

    /// With the registry and the cache as they were in `before`, no image
    /// is cached for a content that is not registered.
    proof fn lemma_same_cache(self, before: Self)
        requires
            before.wf(),
            self.sources() == before.sources(),
            self.cache() == before.cache(),
        ensures
            forall|i: int|
                0 <= i < self.cache().len() ==> self.sources().contains_key(
                    (#[trigger] self.cache()[i]).file_id,
                ),
    {
        assert forall|i: int| 0 <= i < self.cache().len() implies self.sources().contains_key(
            (#[trigger] self.cache()[i]).file_id,
        ) by {
            assert(before.sources().contains_key(before.cache()[i].file_id));
        }
    }

    /// Inserting the bytes of an image of a registered content keeps the
    /// manager in order.
    proof fn lemma_insert_keeps_wf(self, after: Seq<CachedImage>, item: CachedImage)
        requires
            self.wf(),
            self.sources().contains_key(item.file_id),
            after == inserted(self.cache(), self.budget(), item),
        ensures
            forall|i: int|
                0 <= i < after.len() ==> self.sources().contains_key((#[trigger] after[i]).file_id),
    {
        lemma_inserted_members(self.cache(), self.budget(), item);
        assert forall|i: int| 0 <= i < after.len() implies self.sources().contains_key(
            (#[trigger] after[i]).file_id,
        ) by {
            let e = after[i];
            if e != item {
                assert(self.cache().contains(e));
                let k = choose|k: int| 0 <= k < self.cache().len() && self.cache()[k] == e;
                assert(self.sources().contains_key(self.cache()[k].file_id));
            }
        }
    }

    /// Reads image `index` of `file_id`: from the cache where it is cached,
    /// else from its source. Bytes that come from an open archive are
    /// cached before they are handed out. Where a file has to be read or an
    /// archive has to be opened first, the step says so and nothing
    /// changes.
    pub fn read_image(&mut self, file_id: &str, index: usize) -> (res: Result<
        ReadStep,
        CacheError,
    >)
        requires
            old(self).wf(),
        ensures
            final(self).wf(),
            final(self).sources() == old(self).sources(),
            final(self).handles() == old(self).handles(),
            final(self).budget() == old(self).budget(),
            read_answers(
                res,
                old(self).plan(file_id@, index as nat),
                old(self).handles()[file_id@].entries(),
                file_id@,
                index,
                old(self).cache(),
                final(self).cache(),
                old(self).budget(),
            ),
    {
        match self.lru.get(file_id, index) {
            Some(bytes) => {
                proof {
                    lemma_touched_members(old(self).cache(), file_id@, index as nat);
                    assert forall|i: int|
                        0 <= i < self.cache().len() implies self.sources().contains_key(
                        (#[trigger] self.cache()[i]).file_id,
                    ) by {
                        let e = self.cache()[i];
                        assert(old(self).cache().contains(e));
                        let k = choose|k: int|
                            0 <= k < old(self).cache().len() && old(self).cache()[k] == e;
                        assert(old(self).sources().contains_key(old(self).cache()[k].file_id));
                    }
                    self.lemma_same_registry(*old(self));
                }
                return Ok(ReadStep::Ready(bytes));
            },
            None => {},
        }
        assert(self.cache() == old(self).cache());
        match self.read_from_source(file_id, index) {
            Ok(SourceRead::File(path)) => Ok(ReadStep::NeedFile(path)),
            Ok(SourceRead::Archive(path)) => Ok(ReadStep::NeedArchive(path)),
            Ok(SourceRead::Bytes(bytes)) => match self.entry_fetched(file_id, index, Ok(bytes)) {
                Ok(bytes) => Ok(ReadStep::Ready(bytes)),
                Err(e) => Err(e),
            },
            Err(CacheError::Archive(e)) => match self.entry_fetched(file_id, index, Err(e)) {
                Ok(bytes) => Ok(ReadStep::Ready(bytes)),
                Err(e) => Err(e),
            },
            Err(e) => Err(e),
        }
    }

    /// Takes the outcome of reading an entry from the open archive of a
    /// content. Bytes that were read are cached, unless the content is not
    /// registered, and handed on; a failure is handed on as the archive's
    /// error and changes nothing.
    pub fn entry_fetched(&mut self, file_id: &str, index: usize, outcome: Result<Vec<u8>, ZipError>) -> (res:
        Result<Vec<u8>, CacheError>)
        requires
            old(self).wf(),
        ensures
            final(self).wf(),
            final(self).sources() == old(self).sources(),
            final(self).handles() == old(self).handles(),
            final(self).budget() == old(self).budget(),
            if !old(self).sources().contains_key(file_id@) {
                &&& res matches Err(CacheError::SourceNotRegistered)
                &&& final(self).cache() == old(self).cache()
            } else {
                match outcome {
                    Ok(bytes) => {
                        &&& res matches Ok(b)
                        &&& b@ == bytes@
                        &&& final(self).cache() == inserted(
                            old(self).cache(),
                            old(self).budget(),
                            image(file_id@, index as nat, bytes@),
                        )
                    },
                    Err(e) => {
                        &&& res matches Err(CacheError::Archive(x))
                        &&& x == e
                        &&& final(self).cache() == old(self).cache()
                    },
                }
            },
    {
        if !self.sources.contains_key(file_id) {
            return Err(CacheError::SourceNotRegistered);
        }
        match outcome {
            Err(e) => Err(CacheError::Archive(e)),
            Ok(bytes) => {
                self.cache_bytes(file_id, index, slice_to_vec(bytes.as_slice()));
                Ok(bytes)
            },
        }
    }

    /// Caches the bytes of an image of a registered content.
    fn cache_bytes(&mut self, file_id: &str, index: usize, bytes: Vec<u8>)
        requires
            old(self).wf(),
            old(self).sources().contains_key(file_id@),
        ensures
            final(self).wf(),
            final(self).sources() == old(self).sources(),
            final(self).handles() == old(self).handles(),
            final(self).budget() == old(self).budget(),
            final(self).cache() == inserted(
                old(self).cache(),
                old(self).budget(),
                image(file_id@, index as nat, bytes@),
            ),
    {
        proof {
            old(self).lemma_insert_keeps_wf(
                inserted(
                    old(self).cache(),
                    old(self).budget(),
                    image(file_id@, index as nat, bytes@),
                ),
                image(file_id@, index as nat, bytes@),
            );
        }
        self.lru.insert(file_id, index, bytes);
        proof {
            self.lemma_same_registry(*old(self));
        }
    }

    /// Takes the outcome of reading the file that a step asked for. Bytes
    /// that were read are cached and handed on; a failure is handed on
    /// with the path of the file and its reason, and changes nothing. For
    /// a content that was unregistered in the meantime nothing is cached.
    pub fn file_read(&mut self, file_id: &str, index: usize, outcome: Result<Vec<u8>, String>) -> (res:
        Result<Vec<u8>, CacheError>)
        requires
            old(self).wf(),
        ensures
            final(self).wf(),
            final(self).sources() == old(self).sources(),
            final(self).handles() == old(self).handles(),
            final(self).budget() == old(self).budget(),
            if !old(self).sources().contains_key(file_id@) {
                &&& res matches Err(CacheError::SourceNotRegistered)
                &&& final(self).cache() == old(self).cache()
            } else {
                match outcome {
                    Ok(bytes) => {
                        &&& res matches Ok(b)
                        &&& b@ == bytes@
                        &&& final(self).cache() == inserted(
                            old(self).cache(),
                            old(self).budget(),
                            image(file_id@, index as nat, bytes@),
                        )
                    },
                    Err(reason) => {
                        &&& res matches Err(CacheError::ReadFailed { path, reason: why })
                        &&& path@ == old(self).sources()[file_id@].spec_file_path(index as nat)
                        &&& why@ == reason@
                        &&& final(self).cache() == old(self).cache()
                    },
                }
            },
    {
        let path = match self.sources.get(file_id) {
            None => {
                return Err(CacheError::SourceNotRegistered);
            },
            Some(source) => source.file_path(index),
        };
        match outcome {
            Err(reason) => Err(CacheError::ReadFailed { path, reason }),
            Ok(bytes) => {
                self.cache_bytes(file_id, index, slice_to_vec(bytes.as_slice()));
                Ok(bytes)
            },
        }
    }

    /// Takes the outcome of mapping the archive that a step asked for. A
    /// mapping is indexed and kept as the open archive of the content,
    /// unless the content is not registered or has an open archive
    /// already; a failure is handed on with the path of the archive and
    /// its reason. The open archives of other contents stay as they are.
    pub fn archive_opened(&mut self, file_id: &str, outcome: Result<memmap2::Mmap, String>) -> (res:
        Result<(), CacheError>)
        requires
            old(self).wf(),
        ensures
            final(self).wf(),
            final(self).sources() == old(self).sources(),
            final(self).cache() == old(self).cache(),
            final(self).budget() == old(self).budget(),
            res is Ok ==> final(self).handles().contains_key(file_id@),
            res is Err ==> final(self).handles() == old(self).handles(),
            forall|other: Seq<char>|
                other != file_id@ ==> (#[trigger] final(self).handles().contains_key(other)
                    <==> old(self).handles().contains_key(other)),
            forall|other: Seq<char>|
                other != file_id@ && old(self).handles().contains_key(other) ==> (
                #[trigger] final(self).handles()[other]) == old(self).handles()[other],
            if !old(self).sources().contains_key(file_id@) {
                res matches Err(CacheError::SourceNotRegistered)
            } else {
                match outcome {
                    Err(reason) => {
                        &&& res matches Err(CacheError::ReadFailed { path, reason: why })
                        &&& path@ == old(self).sources()[file_id@].spec_archive_path()
                        &&& why@ == reason@
                    },
                    Ok(_) => if old(self).handles().contains_key(file_id@) {
                        res is Ok && final(self).handles() == old(self).handles()
                    } else {
                        match res {
                            Ok(_) => exists|d: Seq<u8>| #[trigger]
                                index_of(d) == Ok::<Seq<EntryView>, ZipError>(
                                    final(self).handles()[file_id@].entries(),
                                ),
                            Err(CacheError::Archive(e)) => exists|d: Seq<u8>| #[trigger]
                                index_of(d) == Err::<Seq<EntryView>, ZipError>(e),
                            _ => false,
                        }
                    },
                }
            },
    {
        let path = match self.sources.get(file_id) {
            None => {
                return Err(CacheError::SourceNotRegistered);
            },
            Some(source) => source.archive_path(),
        };
        match outcome {
            Err(reason) => Err(CacheError::ReadFailed { path, reason }),
            Ok(mmap) => {
                if self.zip_handles.contains_key(file_id) {
                    return Ok(());
                }
                match ZipIndex::open(mmap) {
                    Err(e) => Err(CacheError::Archive(e)),
                    Ok(index) => {
                        self.zip_handles.insert(file_id.to_owned(), index);
                        proof {
                            assert forall|id: Seq<char>| #[trigger]
                                self.handles().contains_key(id) implies self.sources().contains_key(
                                id,
                            ) by {
                                if id != file_id@ {
                                    assert(old(self).handles().contains_key(id));
                                }
                            }
                            self.lemma_same_cache(*old(self));
                        }
                        Ok(())
                    },
                }
            },
        }
    }

    /// The ordinals to fetch ahead of time around image `current_index` of
    /// `total`: the window, without what is cached already.
    pub fn prefetch(&self, file_id: &str, current_index: usize, total: usize) -> (indices: Vec<
        usize,
    >)
        ensures
            ordinals(indices@) == uncached(
                self.cache(),
                file_id@,
                window(current_index as nat, total as nat),
            ),
    {
        let all = prefetch_window(current_index, total);
        let ghost wanted = window(current_index as nat, total as nat);
        let n = all.len();
        let mut indices: Vec<usize> = Vec::new();
        let mut i: usize = 0;
        assert(wanted.take(0) =~= Seq::<nat>::empty());
        assert(ordinals(indices@) =~= Seq::<nat>::empty());
        while i < n
            invariant
                n == all@.len(),
                i <= n,
                ordinals(all@) == wanted,
                ordinals(indices@) == uncached(self.cache(), file_id@, wanted.take(i as int)),
            decreases n - i,
        {
            let idx = all[i];
            proof {
                assert(wanted.take(i + 1).drop_last() =~= wanted.take(i as int));
                assert(wanted.take(i + 1).last() == ordinals(all@)[i as int]);
            }
            if !self.lru.contains(file_id, idx) {
                proof {
                    assert(ordinals(indices@.push(idx)) =~= ordinals(indices@).push(idx as nat));
                }
                indices.push(idx);
            }
            i = i + 1;
        }
        assert(wanted.take(n as int) =~= wanted);
        indices
    }

    /// One step of a prefetch, made under the same lock as every read. The
    /// image is passed over where it is cached by now; the prefetch ends
    /// where the content is no longer registered or the image cannot be
    /// had; bytes that come from an open archive are cached.
    pub fn prefetch_step(&mut self, file_id: &str, index: usize) -> (step: PrefetchStep)
        requires
            old(self).wf(),
        ensures
            final(self).wf(),
            final(self).sources() == old(self).sources(),
            final(self).handles() == old(self).handles(),
            final(self).budget() == old(self).budget(),
            prefetch_answers(
                step,
                holds(old(self).cache(), file_id@, index as nat),
                old(self).plan(file_id@, index as nat),
                old(self).handles()[file_id@].entries(),
                file_id@,
                index,
                old(self).cache(),
                final(self).cache(),
                old(self).budget(),
            ),
    {
        if self.lru.contains(file_id, index) {
            return PrefetchStep::Skip;
        }
        if !self.sources.contains_key(file_id) {
            return PrefetchStep::Stop;
        }
        match self.read_from_source(file_id, index) {
            Ok(SourceRead::File(path)) => PrefetchStep::NeedFile(path),
            Ok(SourceRead::Archive(path)) => PrefetchStep::NeedArchive(path),
            Ok(SourceRead::Bytes(bytes)) => {
                proof {
                    let name = old(self).plan(file_id@, index as nat)->Entry_0;
                    let entries = old(self).handles()[file_id@].entries();
                    let d = choose|d: Seq<u8>| #[trigger]
                        entry_read(d, entries, name) == Ok::<Seq<u8>, ZipError>(bytes@);
                    assert(entry_read(d, entries, name) == Ok::<Seq<u8>, ZipError>(bytes@));
                }
                match self.entry_fetched(file_id, index, Ok(bytes)) {
                    Ok(_) => PrefetchStep::Skip,
                    Err(_) => PrefetchStep::Stop,
                }
            },
            Err(CacheError::Archive(e)) => match self.entry_fetched(file_id, index, Err(e)) {
                Ok(_) => PrefetchStep::Skip,
                Err(_) => PrefetchStep::Stop,
            },
            Err(_) => PrefetchStep::Stop,
        }
    }
}

// ── what holds of every manager ─────────────────────────────────────

/// A read that was served is served again, from the cache and with the same
/// bytes: whatever the first read of an image found, if it handed out
/// bytes, the next read of that image finds them cached and needs no
/// outside work. This holds of every registry, so also where the source has
/// gone in between.
pub proof fn lemma_served_read_is_cached(
    before: ImageCacheManager,
    after: ImageCacheManager,
    file_id: Seq<char>,
    index: usize,
    res: Result<ReadStep, CacheError>,
)
    requires
        before.wf(),
        read_answers(
            res,
            before.plan(file_id, index as nat),
            before.handles()[file_id].entries(),
            file_id,
            index,
            before.cache(),
            after.cache(),
            before.budget(),
        ),
        res matches Ok(ReadStep::Ready(_)),
    ensures
        res matches Ok(ReadStep::Ready(bytes)) && after.plan(file_id, index as nat) == Plan::Hit(
            bytes@,
        ),
{
    before.lemma_cache_is_distinct();
    match res {
        Ok(ReadStep::Ready(bytes)) => {
            match before.plan(file_id, index as nat) {
                Plan::Hit(_) => {
                    lemma_touched_keeps_bytes(
                        before.cache(),
                        file_id,
                        index as nat,
                        file_id,
                        index as nat,
                    );
                },
                _ => {
                    lemma_inserted_is_cached(
                        before.cache(),
                        before.budget(),
                        image(file_id, index as nat, bytes@),
                    );
                },
            }
        },
        _ => {},
    }
}

/// A file that was read for a miss is cached: after its bytes were taken
/// in for a registered content, the next read of that image finds them
/// cached and needs no outside work.
pub proof fn lemma_read_file_is_cached(
    before: ImageCacheManager,
    after: ImageCacheManager,
    file_id: Seq<char>,
    index: nat,
    bytes: Seq<u8>,
)
    requires
        !holds(before.cache(), file_id, index),
        after.cache() == inserted(before.cache(), before.budget(), image(file_id, index, bytes)),
    ensures
        after.plan(file_id, index) == Plan::Hit(bytes),
{
    lemma_inserted_is_cached(before.cache(), before.budget(), image(file_id, index, bytes));
}

/// A content that is not registered has nothing cached, and every read of
/// it finds it unknown.
pub proof fn lemma_unregistered_is_unknown(
    manager: ImageCacheManager,
    file_id: Seq<char>,
    index: nat,
)
    requires
        manager.wf(),
        !manager.sources().contains_key(file_id),
    ensures
        !holds_source(manager.cache(), file_id),
        manager.plan(file_id, index) == Plan::Unknown,
{
    lemma_position_from(manager.cache(), file_id, index, 0);
    if holds_source(manager.cache(), file_id) {
        let i = choose|i: int|
            0 <= i < manager.cache().len() && (#[trigger] manager.cache()[i]).file_id == file_id;
        assert(manager.sources().contains_key(manager.cache()[i].file_id));
    }
    if holds(manager.cache(), file_id, index) {
        let p = position_of(manager.cache(), file_id, index);
        assert(manager.sources().contains_key(manager.cache()[p].file_id));
    }
}

/// After a content was unregistered, reading any image of it fails as not
/// registered. A prefetch of the content that is still under way changes
/// nothing of that: its next step finds the content unknown and stops, and
/// a file that it has read in the meantime is not taken in.
pub proof fn lemma_read_after_unregister(
    before: ImageCacheManager,
    after: ImageCacheManager,
    file_id: Seq<char>,
    index: usize,
    res: Result<ReadStep, CacheError>,
    later: Seq<CachedImage>,
)
    requires
        before.wf(),
        after.wf(),
        after.sources() == before.sources().remove(file_id),
        after.cache() == without_source(before.cache(), file_id),
        read_answers(
            res,
            after.plan(file_id, index as nat),
            after.handles()[file_id].entries(),
            file_id,
            index,
            after.cache(),
            later,
            after.budget(),
        ),
    ensures
        res matches Err(CacheError::SourceNotRegistered),
        later == after.cache(),
{
    lemma_unregistered_is_unknown(after, file_id, index as nat);
}

} // verus!
