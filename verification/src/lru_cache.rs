//! A byte cache with a total size budget and least-recently-used eviction.
//!
//! The cache is modelled as the sequence of its entries from the least to
//! the most recently used. It is not synchronised: whoever shares it puts it
//! behind a lock.

use std::collections::VecDeque;
use vstd::prelude::*;
use vstd::slice::slice_to_vec;

verus! {

/// The default budget: 100 MiB.
pub const MAX_CACHE_BYTES: usize = 104_857_600;

/// One cached blob: the content it belongs to, its ordinal there, and its
/// bytes.
pub struct CachedImage {
    pub file_id: Seq<char>,
    pub index: nat,
    pub bytes: Seq<u8>,
}

/// Whether `e` is the entry for image `index` of `file_id`.
pub open spec fn has_key(e: CachedImage, file_id: Seq<char>, index: nat) -> bool {
    e.file_id == file_id && e.index == index
}

/// The first place from `from` on that holds the given key.
pub open spec fn position_from(s: Seq<CachedImage>, file_id: Seq<char>, index: nat, from: int) -> Option<
    int,
>
    decreases s.len() - from,
{
    if from < 0 || from >= s.len() {
        None
    } else if has_key(s[from], file_id, index) {
        Some(from)
    } else {
        position_from(s, file_id, index, from + 1)
    }
}

/// Where the given key is cached.
pub open spec fn position(s: Seq<CachedImage>, file_id: Seq<char>, index: nat) -> Option<int> {
    position_from(s, file_id, index, 0)
}

/// Whether the given key is cached.
pub open spec fn holds(s: Seq<CachedImage>, file_id: Seq<char>, index: nat) -> bool {
    position(s, file_id, index) is Some
}

/// The bytes cached under the given key.
pub open spec fn cached_bytes(s: Seq<CachedImage>, file_id: Seq<char>, index: nat) -> Option<
    Seq<u8>,
> {
    match position(s, file_id, index) {
        Some(p) => Some(s[p].bytes),
        None => None,
    }
}

/// The sum of the sizes of all entries.
pub open spec fn total_size(s: Seq<CachedImage>) -> nat
    decreases s.len(),
{
    if s.len() == 0 {
        0
    } else {
        total_size(s.drop_last()) + s.last().bytes.len()
    }
}

/// The size of the largest entry, 0 for none.
pub open spec fn largest_size(s: Seq<CachedImage>) -> nat
    decreases s.len(),
{
    if s.len() == 0 {
        0
    } else if s.last().bytes.len() >= largest_size(s.drop_last()) {
        s.last().bytes.len()
    } else {
        largest_size(s.drop_last())
    }
}

/// No key is cached twice.
pub open spec fn distinct_keys(s: Seq<CachedImage>) -> bool {
    forall|i: int, j: int|
        0 <= i < j < s.len() ==> !has_key(#[trigger] s[i], (#[trigger] s[j]).file_id, s[j].index)
}

/// The budget holds, but for a single entry that is larger than all of it.
pub open spec fn within_budget(s: Seq<CachedImage>, budget: nat) -> bool {
    total_size(s) <= budget || s.len() == 1
}

/// The cache after a lookup of the given key: a hit moves the entry to the
/// most recently used end, a miss changes nothing.
pub open spec fn touched(s: Seq<CachedImage>, file_id: Seq<char>, index: nat) -> Seq<CachedImage> {
    match position(s, file_id, index) {
        Some(p) => s.remove(p).push(s[p]),
        None => s,
    }
}

/// What is left after room was made for `size` more bytes: the least
/// recently used entries go, one at a time, until the new bytes fit or
/// nothing is left.
pub open spec fn evicted(s: Seq<CachedImage>, budget: nat, size: nat) -> Seq<CachedImage>
    decreases s.len(),
{
    if s.len() > 0 && total_size(s) + size > budget {
        evicted(s.drop_first(), budget, size)
    } else {
        s
    }
}

/// The cache after `item` was offered: unchanged where its key is cached
/// already, else room is made and the item becomes the most recently used.
pub open spec fn inserted(s: Seq<CachedImage>, budget: nat, item: CachedImage) -> Seq<CachedImage> {
    if holds(s, item.file_id, item.index) {
        s
    } else {
        evicted(s, budget, item.bytes.len()).push(item)
    }
}

/// The cache without the entries of one content, the others in their order.
pub open spec fn without_source(s: Seq<CachedImage>, file_id: Seq<char>) -> Seq<CachedImage>
    decreases s.len(),
{
    if s.len() == 0 {
        s
    } else if s.last().file_id == file_id {
        without_source(s.drop_last(), file_id)
    } else {
        without_source(s.drop_last(), file_id).push(s.last())
    }
}

/// Whether any entry belongs to the given content.
pub open spec fn holds_source(s: Seq<CachedImage>, file_id: Seq<char>) -> bool {
    exists|i: int| 0 <= i < s.len() && (#[trigger] s[i]).file_id == file_id
}

// ── facts about the model ───────────────────────────────────────────

/// What a search from `from` finds is the first place with the key.
pub proof fn lemma_position_from(s: Seq<CachedImage>, file_id: Seq<char>, index: nat, from: int)
    requires
        0 <= from,
    ensures
        match position_from(s, file_id, index, from) {
            Some(p) => from <= p < s.len() && has_key(s[p], file_id, index) && forall|j: int|
                from <= j < p ==> !has_key(#[trigger] s[j], file_id, index),
            None => forall|j: int|
                from <= j < s.len() ==> !has_key(#[trigger] s[j], file_id, index),
        },
    decreases s.len() - from,
{
    if from < s.len() && !has_key(s[from], file_id, index) {
        lemma_position_from(s, file_id, index, from + 1);
    }
}

/// An entry with the key at `p`, and none before it, is what the search
/// finds.
pub proof fn lemma_position_is(s: Seq<CachedImage>, file_id: Seq<char>, index: nat, p: int)
    requires
        0 <= p < s.len(),
        has_key(s[p], file_id, index),
        forall|j: int| 0 <= j < p ==> !has_key(#[trigger] s[j], file_id, index),
    ensures
        position(s, file_id, index) == Some(p),
{
    lemma_position_from(s, file_id, index, 0);
}

/// Where no entry has the key, the search finds nothing.
pub proof fn lemma_position_none(s: Seq<CachedImage>, file_id: Seq<char>, index: nat)
    requires
        forall|j: int| 0 <= j < s.len() ==> !has_key(#[trigger] s[j], file_id, index),
    ensures
        position(s, file_id, index) is None,
{
    lemma_position_from(s, file_id, index, 0);
}

/// One more entry adds its size.
pub proof fn lemma_total_push(s: Seq<CachedImage>, e: CachedImage)
    ensures
        total_size(s.push(e)) == total_size(s) + e.bytes.len(),
{
    assert(s.push(e).drop_last() =~= s);
}

/// One entry less takes its size away.
pub proof fn lemma_total_remove(s: Seq<CachedImage>, p: int)
    requires
        0 <= p < s.len(),
    ensures
        total_size(s.remove(p)) + s[p].bytes.len() == total_size(s),
    decreases s.len(),
{
    if p == s.len() - 1 {
        assert(s.remove(p) =~= s.drop_last());
    } else {
        lemma_total_remove(s.drop_last(), p);
        assert(s.remove(p).drop_last() =~= s.drop_last().remove(p));
        assert(s.remove(p).last() == s.last());
    }
}

/// Eviction drops a prefix: what stays is the newest end of what was there,
/// and it fits, or nothing stays.
pub proof fn lemma_evicted(s: Seq<CachedImage>, budget: nat, size: nat)
    ensures
        evicted(s, budget, size).len() <= s.len(),
        evicted(s, budget, size) == s.skip(s.len() - evicted(s, budget, size).len()),
        evicted(s, budget, size).len() == 0 || total_size(evicted(s, budget, size)) + size
            <= budget,
        total_size(evicted(s, budget, size)) <= total_size(s),
    decreases s.len(),
{
    if s.len() > 0 && total_size(s) + size > budget {
        let t = s.drop_first();
        lemma_evicted(t, budget, size);
        let r = evicted(t, budget, size);
        assert(t.skip(t.len() - r.len()) =~= s.skip(s.len() - r.len()));
        assert(t =~= s.remove(0));
        lemma_total_remove(s, 0);
    } else {
        assert(s.skip(0) =~= s);
    }
}

/// What is left without one content has no entry of it, only entries that
/// were there, and is no larger.
pub proof fn lemma_without_source(s: Seq<CachedImage>, file_id: Seq<char>)
    ensures
        !holds_source(without_source(s, file_id), file_id),
        forall|i: int|
            0 <= i < without_source(s, file_id).len() ==> s.contains(
                #[trigger] without_source(s, file_id)[i],
            ),
        forall|j: int|
            0 <= j < s.len() && (#[trigger] s[j]).file_id != file_id ==> without_source(
                s,
                file_id,
            ).contains(s[j]),
        total_size(without_source(s, file_id)) <= total_size(s),
        without_source(s, file_id).len() <= s.len(),
        distinct_keys(s) ==> distinct_keys(without_source(s, file_id)),
    decreases s.len(),
{
    if s.len() > 0 {
        let t = s.drop_last();
        let wt = without_source(t, file_id);
        let ws = without_source(s, file_id);
        lemma_without_source(t, file_id);
        assert forall|i: int| 0 <= i < ws.len() implies s.contains(#[trigger] ws[i]) by {
            if i < wt.len() {
                assert(t.contains(wt[i]));
                let k = choose|k: int| 0 <= k < t.len() && t[k] == wt[i];
                assert(s[k] == wt[i]);
            } else {
                assert(ws[i] == s.last());
                assert(s[s.len() - 1] == ws[i]);
            }
        }
        assert forall|j: int| 0 <= j < s.len() && (#[trigger] s[j]).file_id
            != file_id implies ws.contains(s[j]) by {
            if j < t.len() {
                assert(t[j] == s[j]);
                assert(wt.contains(t[j]));
                let k = choose|k: int| 0 <= k < wt.len() && wt[k] == t[j];
                assert(ws[k] == s[j]);
            } else {
                assert(ws[ws.len() - 1] == s[j]);
            }
        }
        if s.last().file_id != file_id {
            lemma_total_push(wt, s.last());
            if distinct_keys(s) {
                assert forall|i: int, j: int| 0 <= i < j < ws.len() implies !has_key(
                    #[trigger] ws[i],
                    (#[trigger] ws[j]).file_id,
                    ws[j].index,
                ) by {
                    if j == ws.len() - 1 {
                        assert(t.contains(wt[i]));
                        let k = choose|k: int| 0 <= k < t.len() && t[k] == wt[i];
                        assert(!has_key(s[k], s[s.len() - 1].file_id, s[s.len() - 1].index));
                    } else {
                        assert(!has_key(wt[i], wt[j].file_id, wt[j].index));
                    }
                }
            }
        }
        assert(distinct_keys(s) ==> distinct_keys(t)) by {
            if distinct_keys(s) {
                assert forall|i: int, j: int| 0 <= i < j < t.len() implies !has_key(
                    #[trigger] t[i],
                    (#[trigger] t[j]).file_id,
                    t[j].index,
                ) by {
                    assert(!has_key(s[i], s[j].file_id, s[j].index));
                }
            }
        }
        assert(!holds_source(ws, file_id)) by {
            if holds_source(ws, file_id) {
                let i = choose|i: int| 0 <= i < ws.len() && (#[trigger] ws[i]).file_id == file_id;
                if i < wt.len() {
                    assert(wt[i].file_id == file_id);
                    assert(holds_source(wt, file_id));
                }
            }
        }
    }
}

/// A lookup keeps the entries that are cached.
pub proof fn lemma_touched_members(s: Seq<CachedImage>, file_id: Seq<char>, index: nat)
    ensures
        touched(s, file_id, index).len() == s.len(),
        forall|i: int|
            0 <= i < s.len() ==> s.contains(#[trigger] touched(s, file_id, index)[i]),
{
    lemma_position_from(s, file_id, index, 0);
    let t = touched(s, file_id, index);
    match position(s, file_id, index) {
        None => {
            assert forall|i: int| 0 <= i < s.len() implies s.contains(#[trigger] t[i]) by {
                assert(s[i] == t[i]);
            }
        },
        Some(p) => {
            assert forall|i: int| 0 <= i < s.len() implies s.contains(#[trigger] t[i]) by {
                let a = if i == s.len() - 1 {
                    p
                } else if i < p {
                    i
                } else {
                    i + 1
                };
                assert(s[a] == t[i]);
            }
        },
    }
}

/// After an insert the cache holds entries that were there, and the item.
pub proof fn lemma_inserted_members(s: Seq<CachedImage>, budget: nat, item: CachedImage)
    ensures
        forall|i: int|
            0 <= i < inserted(s, budget, item).len() ==> {
                let e = #[trigger] inserted(s, budget, item)[i];
                e == item || s.contains(e)
            },
{
    let t = inserted(s, budget, item);
    if holds(s, item.file_id, item.index) {
        assert forall|i: int| 0 <= i < t.len() implies s.contains(#[trigger] t[i]) by {
            assert(s[i] == t[i]);
        }
    } else {
        let r = evicted(s, budget, item.bytes.len());
        lemma_evicted(s, budget, item.bytes.len());
        assert forall|i: int| 0 <= i < t.len() implies {
            let e = #[trigger] t[i];
            e == item || s.contains(e)
        } by {
            if i < r.len() {
                assert(s[i + (s.len() - r.len())] == t[i]);
            }
        }
    }
}

// ── the cache ───────────────────────────────────────────────────────

/// One entry of the cache.
struct CacheEntry {
    file_id: String,
    index: usize,
    bytes: Vec<u8>,
}

impl View for CacheEntry {
    type V = CachedImage;

    closed spec fn view(&self) -> CachedImage {
        CachedImage { file_id: self.file_id@, index: self.index as nat, bytes: self.bytes@ }
    }
}

/// A cache of image bytes, keyed by content id and ordinal, that keeps the
/// sum of its entries' sizes within a budget by dropping the entries that
/// were used least recently.
///
/// The entries stand in one queue, each key once, and a lookup walks the
/// queue: the order of use and the contents are then one thing, and what
/// is evicted next can be read off its front.
pub struct LruBytesCache {
    /// From the least to the most recently used.
    order: VecDeque<CacheEntry>,
    total_bytes: usize,
    budget: usize,
}

impl View for LruBytesCache {
    type V = Seq<CachedImage>;

    /// The entries from the least to the most recently used.
    closed spec fn view(&self) -> Seq<CachedImage> {
        Seq::new(self.order@.len(), |i: int| self.order@[i]@)
    }
}

impl LruBytesCache {
    /// The budget that the cache was made with.
    pub closed spec fn budget(&self) -> nat {
        self.budget as nat
    }

    /// What the cache counts as the sum of its entries' sizes.
    pub closed spec fn counted(&self) -> nat {
        self.total_bytes as nat
    }

    /// The cache is in order: no key twice, the sizes summed up rightly, and
    /// the budget kept.
    pub open spec fn wf(&self) -> bool {
        &&& distinct_keys(self@)
        &&& within_budget(self@, self.budget())
        &&& self.counted() == total_size(self@)
    }

    /// An empty cache with the default budget of 100 MiB.
    pub fn new() -> (cache: Self)
        ensures
            cache.wf(),
            cache@ == Seq::<CachedImage>::empty(),
            cache.budget() == MAX_CACHE_BYTES,
    {
        Self::with_budget(MAX_CACHE_BYTES)
    }

    /// An empty cache with the given budget in bytes.
    pub fn with_budget(budget: usize) -> (cache: Self)
        ensures
            cache.wf(),
            cache@ == Seq::<CachedImage>::empty(),
            cache.budget() == budget,
    {
        let cache = LruBytesCache { order: VecDeque::new(), total_bytes: 0, budget };
        assert(cache@ =~= Seq::<CachedImage>::empty());
        cache
    }

    /// The sum of the sizes of all entries.
    pub fn total_bytes(&self) -> (total: usize)
        requires
            self.wf(),
        ensures
            total == total_size(self@),
    {
        self.total_bytes
    }

    /// The number of entries.
    pub fn len(&self) -> (n: usize)
        ensures
            n == self@.len(),
    {
        self.order.len()
    }

    /// Where the entry for the given key stands.
    fn find(&self, file_id: &str, index: usize) -> (found: Option<usize>)
        ensures
            match found {
                Some(p) => position(self@, file_id@, index as nat) == Some(p as int) && p
                    < self@.len(),
                None => position(self@, file_id@, index as nat) is None,
            },
    {
        let wanted = file_id.to_owned();
        let n = self.order.len();
        let mut i: usize = 0;
        while i < n
            invariant
                n == self.order@.len(),
                n == self@.len(),
                i <= n,
                wanted@ == file_id@,
                position(self@, file_id@, index as nat) == position_from(
                    self@,
                    file_id@,
                    index as nat,
                    i as int,
                ),
            decreases n - i,
        {
            let e = &self.order[i];
            if e.index == index && e.file_id == wanted {
                return Some(i);
            }
            i = i + 1;
        }
        None
    }

    /// Looks the key up. A hit returns a copy of the bytes and makes the
    /// entry the most recently used.
    pub fn get(&mut self, file_id: &str, index: usize) -> (res: Option<Vec<u8>>)
        requires
            old(self).wf(),
        ensures
            final(self).wf(),
            final(self).budget() == old(self).budget(),
            final(self)@ == touched(old(self)@, file_id@, index as nat),
            match res {
                Some(bytes) => cached_bytes(old(self)@, file_id@, index as nat) == Some(bytes@),
                None => !holds(old(self)@, file_id@, index as nat),
            },
    {
        match self.find(file_id, index) {
            None => None,
            Some(p) => {
                let ghost before = self@;
                match self.order.remove(p) {
                    Some(entry) => {
                        let bytes = slice_to_vec(entry.bytes.as_slice());
                        self.order.push_back(entry);
                        proof {
                            let after = before.remove(p as int).push(before[p as int]);
                            assert(self@ =~= after);
                            lemma_total_remove(before, p as int);
                            lemma_total_push(before.remove(p as int), before[p as int]);
                            lemma_touched_is_distinct(before, p as int);
                        }
                        Some(bytes)
                    },
                    None => None,
                }
            },
        }
    }

    /// Whether the key is cached. Changes nothing, the order of use
    /// included.
    pub fn contains(&self, file_id: &str, index: usize) -> (b: bool)
        ensures
            b == holds(self@, file_id@, index as nat),
    {
        self.find(file_id, index).is_some()
    }

    /// Offers bytes for a key. Where the key is cached already, nothing
    /// changes. Otherwise the least recently used entries are dropped until
    /// the new bytes fit in the budget or the cache is empty, and the new
    /// entry becomes the most recently used.
    pub fn insert(&mut self, file_id: &str, index: usize, bytes: Vec<u8>)
        requires
            old(self).wf(),
        ensures
            final(self).wf(),
            final(self).budget() == old(self).budget(),
            final(self)@ == inserted(
                old(self)@,
                old(self).budget(),
                (CachedImage { file_id: file_id@, index: index as nat, bytes: bytes@ }),
            ),
    {
        if self.contains(file_id, index) {
            return ;
        }
        let size = bytes.len();
        let ghost before = self@;
        let ghost item = CachedImage { file_id: file_id@, index: index as nat, bytes: bytes@ };
        proof {
            lemma_position_from(before, file_id@, index as nat, 0);
        }
        while self.order.len() > 0 && (size > self.budget || self.total_bytes > self.budget
            - size)
            invariant
                self.budget == old(self).budget,
                size == bytes@.len(),
                distinct_keys(self@),
                self.total_bytes == total_size(self@),
                self@.len() == self.order@.len(),
                evicted(before, self.budget as nat, size as nat) == evicted(
                    self@,
                    self.budget as nat,
                    size as nat,
                ),
                forall|j: int|
                    0 <= j < self@.len() ==> !has_key(#[trigger] self@[j], file_id@, index as nat),
            decreases self.order@.len(),
        {
            let ghost s = self@;
            match self.order.pop_front() {
                Some(old_entry) => {
                    proof {
                        assert(self@ =~= s.drop_first());
                        assert(s.drop_first() =~= s.remove(0));
                        lemma_total_remove(s, 0);
                        assert forall|i: int, j: int| 0 <= i < j < self@.len() implies !has_key(
                            #[trigger] self@[i],
                            (#[trigger] self@[j]).file_id,
                            self@[j].index,
                        ) by {
                            assert(!has_key(s[i + 1], s[j + 1].file_id, s[j + 1].index));
                        }
                        assert forall|j: int| 0 <= j < self@.len() implies !has_key(
                            #[trigger] self@[j],
                            file_id@,
                            index as nat,
                        ) by {
                            assert(!has_key(s[j + 1], file_id@, index as nat));
                        }
                    }
                    self.total_bytes = self.total_bytes - old_entry.bytes.len();
                },
                None => {},
            }
        }
        let ghost kept = self@;
        proof {
            assert(kept.len() == 0 ==> total_size(kept) == 0);
        }
        self.total_bytes = self.total_bytes + size;
        self.order.push_back(CacheEntry { file_id: file_id.to_owned(), index, bytes });
        proof {
            assert(self@ =~= kept.push(item));
            lemma_total_push(kept, item);
            assert forall|i: int, j: int| 0 <= i < j < self@.len() implies !has_key(
                #[trigger] self@[i],
                (#[trigger] self@[j]).file_id,
                self@[j].index,
            ) by {
                if j < kept.len() {
                    assert(!has_key(kept[i], kept[j].file_id, kept[j].index));
                } else {
                    assert(!has_key(kept[i], file_id@, index as nat));
                }
            }
        }
    }

    /// Drops every entry of one content.
    pub fn remove_file(&mut self, file_id: &str)
        requires
            old(self).wf(),
        ensures
            final(self).wf(),
            final(self).budget() == old(self).budget(),
            final(self)@ == without_source(old(self)@, file_id@),
    {
        let wanted = file_id.to_owned();
        let ghost before = self@;
        let n = self.order.len();
        let mut k: usize = 0;
        proof {
            assert(before.skip(0) =~= before);
            assert(before.take(0) =~= Seq::<CachedImage>::empty());
            assert(before + Seq::<CachedImage>::empty() =~= before);
        }
        while k < n
            invariant
                self.budget == old(self).budget,
                n == before.len(),
                k <= n,
                wanted@ == file_id@,
                self@.len() == self.order@.len(),
                self@ == before.skip(k as int) + without_source(before.take(k as int), file_id@),
                self.total_bytes == total_size(self@),
            decreases n - k,
        {
            let ghost s = self@;
            let ghost done = without_source(before.take(k as int), file_id@);
            proof {
                assert(before.take(k + 1).drop_last() =~= before.take(k as int));
                assert(before.take(k + 1).last() == before[k as int]);
                assert(s[0] == before[k as int]);
            }
            match self.order.pop_front() {
                Some(entry) => {
                    proof {
                        assert(self@ =~= s.remove(0));
                        lemma_total_remove(s, 0);
                        assert(s.remove(0) =~= before.skip(k + 1) + done);
                    }
                    if entry.file_id == wanted {
                        self.total_bytes = self.total_bytes - entry.bytes.len();
                    } else {
                        proof {
                            lemma_total_push(self@, entry@);
                            assert(self@.push(entry@) =~= before.skip(k + 1) + done.push(
                                before[k as int],
                            ));
                        }
                        self.order.push_back(entry);
                        proof {
                            assert(self@ =~= s.remove(0).push(s[0]));
                        }
                    }
                },
                None => {},
            }
            k = k + 1;
        }
        proof {
            assert(before.take(n as int) =~= before);
            assert(before.skip(n as int) =~= Seq::<CachedImage>::empty());
            assert(self@ =~= without_source(before, file_id@));
            lemma_without_source(before, file_id@);
            if !(total_size(before) <= self.budget) {
                // A single entry over the budget: it stays or it goes.
                assert(before.drop_last() =~= Seq::<CachedImage>::empty());
            }
        }
    }
}

/// Moving one entry to the end leaves every key cached once.
proof fn lemma_touched_is_distinct(s: Seq<CachedImage>, p: int)
    requires
        0 <= p < s.len(),
        distinct_keys(s),
    ensures
        distinct_keys(s.remove(p).push(s[p])),
{
    let t = s.remove(p).push(s[p]);
    assert forall|i: int, j: int| 0 <= i < j < t.len() implies !has_key(
        #[trigger] t[i],
        (#[trigger] t[j]).file_id,
        t[j].index,
    ) by {
        let a = if i < p {
            i
        } else {
            i + 1
        };
        assert(t[i] == s[a]);
        if j == t.len() - 1 {
            assert(t[j] == s[p]);
            if a < p {
                assert(!has_key(s[a], s[p].file_id, s[p].index));
            } else {
                assert(!has_key(s[p], s[a].file_id, s[a].index));
            }
        } else {
            let b = if j < p {
                j
            } else {
                j + 1
            };
            assert(t[j] == s[b]);
            assert(!has_key(s[a], s[b].file_id, s[b].index));
        }
    }
}

// ── what holds of every cache ───────────────────────────────────────

/// The cache that results from offering `items` one after the other to an
/// empty cache.
pub open spec fn after_inserts(budget: nat, items: Seq<CachedImage>) -> Seq<CachedImage>
    decreases items.len(),
{
    if items.len() == 0 {
        Seq::empty()
    } else {
        inserted(after_inserts(budget, items.drop_last()), budget, items.last())
    }
}

/// The size of the largest entry only grows with more entries.
proof fn lemma_largest_grows(items: Seq<CachedImage>)
    requires
        items.len() > 0,
    ensures
        largest_size(items.drop_last()) <= largest_size(items),
        items.last().bytes.len() <= largest_size(items),
{
}

/// After any sequence of inserts the sum of the entries' sizes is within
/// the budget, or it is the size of one inserted item that is larger than
/// the budget: it never exceeds the larger of the budget and the largest
/// item.
pub proof fn lemma_budget_after_inserts(budget: nat, items: Seq<CachedImage>)
    ensures
        total_size(after_inserts(budget, items)) <= budget || total_size(
            after_inserts(budget, items),
        ) <= largest_size(items),
        within_budget(after_inserts(budget, items), budget),
    decreases items.len(),
{
    if items.len() > 0 {
        let before = after_inserts(budget, items.drop_last());
        let item = items.last();
        lemma_budget_after_inserts(budget, items.drop_last());
        lemma_largest_grows(items);
        if !holds(before, item.file_id, item.index) {
            let kept = evicted(before, budget, item.bytes.len());
            lemma_evicted(before, budget, item.bytes.len());
            lemma_total_push(kept, item);
            if kept.len() == 0 {
                assert(total_size(kept) == 0);
            }
        } else {
            if !(total_size(before) <= budget) {
                assert(before.len() == 1);
            }
        }
    }
}

/// Eviction takes the least recently used entries first: what an insert
/// leaves of the old entries is their most recently used end, in order.
pub proof fn lemma_eviction_drops_oldest_first(
    s: Seq<CachedImage>,
    budget: nat,
    item: CachedImage,
)
    requires
        !holds(s, item.file_id, item.index),
    ensures
        ({
            let kept = inserted(s, budget, item).drop_last();
            kept.len() <= s.len() && kept == s.skip(s.len() - kept.len())
        }),
        inserted(s, budget, item).last() == item,
{
    let r = evicted(s, budget, item.bytes.len());
    lemma_evicted(s, budget, item.bytes.len());
    assert(r.push(item).drop_last() =~= r);
}

/// An entry is cached exactly where some place holds its key.
pub proof fn lemma_holds_iff_some_place(s: Seq<CachedImage>, file_id: Seq<char>, index: nat)
    ensures
        holds(s, file_id, index) <==> exists|j: int|
            0 <= j < s.len() && has_key(#[trigger] s[j], file_id, index),
{
    lemma_position_from(s, file_id, index, 0);
}

/// With every key cached once, the place of a key is the one place that
/// holds it.
pub proof fn lemma_position_unique(s: Seq<CachedImage>, file_id: Seq<char>, index: nat, p: int)
    requires
        distinct_keys(s),
        0 <= p < s.len(),
        has_key(s[p], file_id, index),
    ensures
        position(s, file_id, index) == Some(p),
        cached_bytes(s, file_id, index) == Some(s[p].bytes),
{
    lemma_position_from(s, file_id, index, 0);
    let q = position(s, file_id, index)->0;
    if q < p {
        assert(!has_key(s[q], s[p].file_id, s[p].index));
    }
}

/// A lookup changes what no key is cached as: it only changes the order of
/// use.
pub proof fn lemma_touched_keeps_bytes(
    s: Seq<CachedImage>,
    file_id: Seq<char>,
    index: nat,
    other_id: Seq<char>,
    other_index: nat,
)
    requires
        distinct_keys(s),
    ensures
        distinct_keys(touched(s, file_id, index)),
        cached_bytes(touched(s, file_id, index), other_id, other_index) == cached_bytes(
            s,
            other_id,
            other_index,
        ),
{
    lemma_position_from(s, file_id, index, 0);
    match position(s, file_id, index) {
        None => {},
        Some(p) => {
            let t = s.remove(p).push(s[p]);
            lemma_touched_is_distinct(s, p);
            lemma_position_from(s, other_id, other_index, 0);
            match position(s, other_id, other_index) {
                Some(q) => {
                    let q2 = if q == p {
                        t.len() - 1
                    } else if q < p {
                        q
                    } else {
                        q - 1
                    };
                    assert(t[q2] == s[q]);
                    lemma_position_unique(t, other_id, other_index, q2);
                },
                None => {
                    assert forall|j: int| 0 <= j < t.len() implies !has_key(
                        #[trigger] t[j],
                        other_id,
                        other_index,
                    ) by {
                        let a = if j == t.len() - 1 {
                            p
                        } else if j < p {
                            j
                        } else {
                            j + 1
                        };
                        assert(t[j] == s[a]);
                    }
                    lemma_position_none(t, other_id, other_index);
                },
            }
        },
    }
}

/// What was offered is cached afterwards: under a new key the offered
/// bytes, under a key that was cached already the bytes that were there.
pub proof fn lemma_inserted_is_cached(s: Seq<CachedImage>, budget: nat, item: CachedImage)
    ensures
        holds(inserted(s, budget, item), item.file_id, item.index),
        cached_bytes(inserted(s, budget, item), item.file_id, item.index) == if holds(
            s,
            item.file_id,
            item.index,
        ) {
            cached_bytes(s, item.file_id, item.index)
        } else {
            Some(item.bytes)
        },
{
    if !holds(s, item.file_id, item.index) {
        let r = evicted(s, budget, item.bytes.len());
        lemma_evicted(s, budget, item.bytes.len());
        lemma_position_from(s, item.file_id, item.index, 0);
        let t = r.push(item);
        assert forall|j: int| 0 <= j < r.len() implies !has_key(
            #[trigger] t[j],
            item.file_id,
            item.index,
        ) by {
            assert(t[j] == s[j + (s.len() - r.len())]);
        }
        lemma_position_is(t, item.file_id, item.index, r.len() as int);
    }
}

/// The entry that was looked up last is the last to go: an insert that
/// drops it has dropped every other entry before it.
pub proof fn lemma_recently_used_goes_last(
    s: Seq<CachedImage>,
    budget: nat,
    file_id: Seq<char>,
    index: nat,
    item: CachedImage,
)
    requires
        distinct_keys(s),
        holds(s, file_id, index),
        !holds(s, item.file_id, item.index),
    ensures
        ({
            let after = inserted(touched(s, file_id, index), budget, item);
            holds(after, file_id, index) || after == seq![item]
        }),
{
    lemma_position_from(s, file_id, index, 0);
    let p = position(s, file_id, index)->0;
    let t = touched(s, file_id, index);
    lemma_touched_keeps_bytes(s, file_id, index, item.file_id, item.index);
    let r = evicted(t, budget, item.bytes.len());
    lemma_evicted(t, budget, item.bytes.len());
    let after = r.push(item);
    assert(inserted(t, budget, item) == after);
    if r.len() > 0 {
        assert(r[r.len() - 1] == t[t.len() - 1]);
        assert(after[r.len() - 1] == s[p]);
        lemma_holds_iff_some_place(after, file_id, index);
    } else {
        assert(after =~= seq![item]);
    }
}

} // verus!
