//! Orders on names, and a stable sort by key.
//!
//! Every key is a sequence of chunks, each a text or a number, and keys are
//! ordered chunk by chunk. A plain text is the key of one text chunk, a path
//! inside an archive the key of its components, and a file name in natural
//! order the key of its runs of digits and of other characters.

use vstd::prelude::*;

verus! {

/// How one value stands to another in an order.
#[derive(Debug, Clone, Copy, PartialEq, Eq, Structural)]
pub enum Order {
    Less,
    Equal,
    Greater,
}

/// How two texts compare: character by character by code point, the first
/// difference deciding, and a text before every longer text that starts
/// with it.
pub open spec fn text_order(a: Seq<char>, b: Seq<char>) -> Order
    decreases a.len(),
{
    if a.len() == 0 {
        if b.len() == 0 {
            Order::Equal
        } else {
            Order::Less
        }
    } else if b.len() == 0 {
        Order::Greater
    } else if (a[0] as u32) < (b[0] as u32) {
        Order::Less
    } else if (a[0] as u32) > (b[0] as u32) {
        Order::Greater
    } else {
        text_order(a.drop_first(), b.drop_first())
    }
}

/// Compares two texts, given as their characters.
pub fn compare_text(a: &[char], b: &[char]) -> (o: Order)
    ensures
        o == text_order(a@, b@),
{
    let n = a.len();
    let m = b.len();
    let mut i: usize = 0;
    assert(a@.skip(0) =~= a@ && b@.skip(0) =~= b@);
    while i < n && i < m
        invariant
            n == a@.len(),
            m == b@.len(),
            i <= n,
            i <= m,
            text_order(a@, b@) == text_order(a@.skip(i as int), b@.skip(i as int)),
        decreases n - i,
    {
        let x = a[i] as u32;
        let y = b[i] as u32;
        proof {
            assert(a@.skip(i as int)[0] == a@[i as int]);
            assert(b@.skip(i as int)[0] == b@[i as int]);
            assert(a@.skip(i as int).drop_first() =~= a@.skip(i + 1));
            assert(b@.skip(i as int).drop_first() =~= b@.skip(i + 1));
        }
        if x < y {
            return Order::Less;
        }
        if x > y {
            return Order::Greater;
        }
        i = i + 1;
    }
    if i < m {
        Order::Less
    } else if i < n {
        Order::Greater
    } else {
        Order::Equal
    }
}

/// Turns an order around.
pub open spec fn reversed(o: Order) -> Order {
    match o {
        Order::Less => Order::Greater,
        Order::Equal => Order::Equal,
        Order::Greater => Order::Less,
    }
}

/// Two characters with the same code point are the same character.
pub proof fn lemma_same_code(x: char, y: char)
    requires
        x as u32 == y as u32,
    ensures
        x == y,
{
    vstd::utf8::char_u32_cast(x, x as u32);
    vstd::utf8::char_u32_cast(y, y as u32);
}

/// Texts compare the other way round when they change places, and only a
/// text is equal to itself.
pub proof fn lemma_text_order_flips(a: Seq<char>, b: Seq<char>)
    ensures
        text_order(b, a) == reversed(text_order(a, b)),
        text_order(a, b) is Equal <==> a == b,
    decreases a.len(),
{
    if a.len() > 0 && b.len() > 0 {
        lemma_text_order_flips(a.drop_first(), b.drop_first());
        assert(a =~= seq![a[0]] + a.drop_first());
        assert(b =~= seq![b[0]] + b.drop_first());
        if a[0] as u32 == b[0] as u32 {
            lemma_same_code(a[0], b[0]);
        }
    } else if a.len() == 0 && b.len() == 0 {
        assert(a =~= b);
    }
}

/// The order of texts is transitive.
pub proof fn lemma_text_order_chains(a: Seq<char>, b: Seq<char>, c: Seq<char>)
    requires
        !(text_order(a, b) is Greater),
        !(text_order(b, c) is Greater),
    ensures
        !(text_order(a, c) is Greater),
    decreases a.len(),
{
    if a.len() > 0 && b.len() > 0 && c.len() > 0 {
        if a[0] as u32 == b[0] as u32 && b[0] as u32 == c[0] as u32 {
            lemma_text_order_chains(a.drop_first(), b.drop_first(), c.drop_first());
        }
    }
}

/// One chunk of a key, as a value.
pub enum ChunkView {
    Text(Seq<char>),
    Num(nat),
}

/// One chunk of a key: a text, or the number that a run of digits spells.
#[derive(Debug)]
pub enum SortChunk {
    Text(Vec<char>),
    Num(u64),
}

impl View for SortChunk {
    type V = ChunkView;

    open spec fn view(&self) -> ChunkView {
        match self {
            SortChunk::Text(t) => ChunkView::Text(t@),
            SortChunk::Num(n) => ChunkView::Num(*n as nat),
        }
    }
}

/// How two chunks compare: numbers by value, texts as texts, and every text
/// before every number.
pub open spec fn chunk_order(a: ChunkView, b: ChunkView) -> Order {
    match (a, b) {
        (ChunkView::Num(x), ChunkView::Num(y)) => if x < y {
            Order::Less
        } else if x > y {
            Order::Greater
        } else {
            Order::Equal
        },
        (ChunkView::Text(x), ChunkView::Text(y)) => text_order(x, y),
        (ChunkView::Text(_), ChunkView::Num(_)) => Order::Less,
        (ChunkView::Num(_), ChunkView::Text(_)) => Order::Greater,
    }
}

/// Compares two chunks.
pub fn compare_chunks(a: &SortChunk, b: &SortChunk) -> (o: Order)
    ensures
        o == chunk_order(a@, b@),
{
    match a {
        SortChunk::Num(x) => match b {
            SortChunk::Num(y) => if *x < *y {
                Order::Less
            } else if *x > *y {
                Order::Greater
            } else {
                Order::Equal
            },
            SortChunk::Text(_) => Order::Greater,
        },
        SortChunk::Text(x) => match b {
            SortChunk::Text(y) => compare_text(x.as_slice(), y.as_slice()),
            SortChunk::Num(_) => Order::Less,
        },
    }
}

/// How two keys compare: chunk by chunk, the first difference deciding, and
/// a key before every longer key that starts with it.
pub open spec fn key_order(a: Seq<ChunkView>, b: Seq<ChunkView>) -> Order
    decreases a.len(),
{
    if a.len() == 0 {
        if b.len() == 0 {
            Order::Equal
        } else {
            Order::Less
        }
    } else if b.len() == 0 {
        Order::Greater
    } else if chunk_order(a[0], b[0]) != Order::Equal {
        chunk_order(a[0], b[0])
    } else {
        key_order(a.drop_first(), b.drop_first())
    }
}

/// Chunks compare the other way round when they change places, and only a
/// chunk is equal to itself.
pub proof fn lemma_chunk_order_flips(a: ChunkView, b: ChunkView)
    ensures
        chunk_order(b, a) == reversed(chunk_order(a, b)),
        chunk_order(a, b) is Equal <==> a == b,
{
    match (a, b) {
        (ChunkView::Text(x), ChunkView::Text(y)) => {
            lemma_text_order_flips(x, y);
        },
        _ => {},
    }
}

/// The order of chunks is transitive.
pub proof fn lemma_chunk_order_chains(a: ChunkView, b: ChunkView, c: ChunkView)
    requires
        !(chunk_order(a, b) is Greater),
        !(chunk_order(b, c) is Greater),
    ensures
        !(chunk_order(a, c) is Greater),
{
    match (a, b, c) {
        (ChunkView::Text(x), ChunkView::Text(y), ChunkView::Text(z)) => {
            lemma_text_order_chains(x, y, z);
        },
        _ => {},
    }
}

/// Keys compare the other way round when they change places, and only a
/// key is equal to itself.
pub proof fn lemma_key_order_flips(a: Seq<ChunkView>, b: Seq<ChunkView>)
    ensures
        key_order(b, a) == reversed(key_order(a, b)),
        key_order(a, b) is Equal <==> a == b,
    decreases a.len(),
{
    if a.len() > 0 && b.len() > 0 {
        lemma_chunk_order_flips(a[0], b[0]);
        lemma_key_order_flips(a.drop_first(), b.drop_first());
        assert(a =~= seq![a[0]] + a.drop_first());
        assert(b =~= seq![b[0]] + b.drop_first());
    } else if a.len() == 0 && b.len() == 0 {
        assert(a =~= b);
    }
}

/// The order of keys is transitive.
pub proof fn lemma_key_order_chains(a: Seq<ChunkView>, b: Seq<ChunkView>, c: Seq<ChunkView>)
    requires
        !(key_order(a, b) is Greater),
        !(key_order(b, c) is Greater),
    ensures
        !(key_order(a, c) is Greater),
    decreases a.len(),
{
    if a.len() > 0 && b.len() > 0 && c.len() > 0 {
        lemma_chunk_order_flips(a[0], b[0]);
        lemma_chunk_order_flips(b[0], c[0]);
        lemma_chunk_order_flips(a[0], c[0]);
        if chunk_order(a[0], b[0]) is Equal && chunk_order(b[0], c[0]) is Equal {
            lemma_key_order_chains(a.drop_first(), b.drop_first(), c.drop_first());
        } else {
            lemma_chunk_order_chains(a[0], b[0], c[0]);
        }
    }
}

/// The chunks that a vector of chunks stands for.
pub open spec fn chunks_of(key: Seq<SortChunk>) -> Seq<ChunkView> {
    Seq::new(key.len(), |i: int| key[i]@)
}

/// Compares two keys.
pub fn compare_keys(a: &Vec<SortChunk>, b: &Vec<SortChunk>) -> (o: Order)
    ensures
        o == key_order(chunks_of(a@), chunks_of(b@)),
{
    let n = a.len();
    let m = b.len();
    let ghost ka = chunks_of(a@);
    let ghost kb = chunks_of(b@);
    let mut i: usize = 0;
    assert(ka.skip(0) =~= ka && kb.skip(0) =~= kb);
    while i < n && i < m
        invariant
            n == a@.len(),
            m == b@.len(),
            ka == chunks_of(a@),
            kb == chunks_of(b@),
            i <= n,
            i <= m,
            key_order(ka, kb) == key_order(ka.skip(i as int), kb.skip(i as int)),
        decreases n - i,
    {
        proof {
            assert(ka.skip(i as int)[0] == a@[i as int]@);
            assert(kb.skip(i as int)[0] == b@[i as int]@);
            assert(ka.skip(i as int).drop_first() =~= ka.skip(i + 1));
            assert(kb.skip(i as int).drop_first() =~= kb.skip(i + 1));
        }
        let o = compare_chunks(&a[i], &b[i]);
        match o {
            Order::Equal => {},
            _ => {
                return o;
            },
        }
        i = i + 1;
    }
    if i < m {
        Order::Less
    } else if i < n {
        Order::Greater
    } else {
        Order::Equal
    }
}

// ── sorting ─────────────────────────────────────────────────────────

/// What can be sorted: values with an order on what they stand for.
pub trait Ranked: View + Sized {
    /// How `a` stands to `b`.
    spec fn order(a: Self::V, b: Self::V) -> Order;

    /// Two values compare the other way round when they change places.
    proof fn lemma_order_flips(a: Self::V, b: Self::V)
        ensures
            Self::order(b, a) == reversed(Self::order(a, b)),
    ;

    /// What is not behind a second value that is not behind a third is not
    /// behind the third.
    proof fn lemma_order_chains(a: Self::V, b: Self::V, c: Self::V)
        requires
            !(Self::order(a, b) is Greater),
            !(Self::order(b, c) is Greater),
        ensures
            !(Self::order(a, c) is Greater),
    ;

    /// Compares two values.
    fn compare(&self, other: &Self) -> (o: Order)
        ensures
            o == Self::order(self@, other@),
    ;
}

/// What the items of a vector stand for.
pub open spec fn views<T: View>(items: Seq<T>) -> Seq<T::V> {
    Seq::new(items.len(), |i: int| items[i]@)
}

/// Where `x` goes into the sorted sequence `sorted`, looking from `from`
/// on: before the first item that is greater, so behind every item that is
/// equal.
pub open spec fn place_from<T: Ranked>(sorted: Seq<T::V>, x: T::V, from: int) -> int
    decreases sorted.len() - from,
{
    if from < 0 || from >= sorted.len() {
        sorted.len() as int
    } else if T::order(sorted[from], x) == Order::Greater {
        from
    } else {
        place_from::<T>(sorted, x, from + 1)
    }
}

/// The sorted sequence `sorted` with `x` put in its place.
pub open spec fn placed<T: Ranked>(sorted: Seq<T::V>, x: T::V) -> Seq<T::V> {
    sorted.insert(place_from::<T>(sorted, x, 0), x)
}

/// The items in their order, equal items in the order in which they came.
pub open spec fn stable_sorted<T: Ranked>(items: Seq<T::V>) -> Seq<T::V>
    decreases items.len(),
{
    if items.len() == 0 {
        items
    } else {
        placed::<T>(stable_sorted::<T>(items.drop_last()), items.last())
    }
}

/// The place of an item lies inside the sequence or at its end.
pub proof fn lemma_place_in_range<T: Ranked>(sorted: Seq<T::V>, x: T::V, from: int)
    requires
        0 <= from <= sorted.len(),
    ensures
        from <= place_from::<T>(sorted, x, from) <= sorted.len(),
    decreases sorted.len() - from,
{
    if from < sorted.len() && T::order(sorted[from], x) != Order::Greater {
        lemma_place_in_range::<T>(sorted, x, from + 1);
    }
}

/// Sorting keeps the number of items.
pub proof fn lemma_sorted_len<T: Ranked>(items: Seq<T::V>)
    ensures
        stable_sorted::<T>(items).len() == items.len(),
    decreases items.len(),
{
    if items.len() > 0 {
        lemma_sorted_len::<T>(items.drop_last());
        lemma_place_in_range::<T>(stable_sorted::<T>(items.drop_last()), items.last(), 0);
    }
}

/// Sorting keeps the items: each as often as it came.
pub proof fn lemma_sorted_is_permutation<T: Ranked>(items: Seq<T::V>)
    ensures
        stable_sorted::<T>(items).to_multiset() == items.to_multiset(),
    decreases items.len(),
{
    broadcast use vstd::seq_lib::group_to_multiset_ensures;

    if items.len() > 0 {
        let rest = stable_sorted::<T>(items.drop_last());
        lemma_sorted_is_permutation::<T>(items.drop_last());
        lemma_place_in_range::<T>(rest, items.last(), 0);
        let p = place_from::<T>(rest, items.last(), 0);
        assert(items.drop_last().push(items.last()) =~= items);
        assert(rest.insert(p, items.last()).to_multiset() =~= rest.to_multiset().insert(
            items.last(),
        ));
    }
}

/// No item stands before an item that it is greater than.
pub open spec fn ordered<T: Ranked>(items: Seq<T::V>) -> bool {
    forall|i: int, j: int|
        0 <= i < j < items.len() ==> !(T::order(#[trigger] items[i], #[trigger] items[j])
            is Greater)
}

/// The place of an item: nothing before it is greater, and what stands at
/// it is.
pub proof fn lemma_place<T: Ranked>(sorted: Seq<T::V>, x: T::V, from: int)
    requires
        0 <= from <= sorted.len(),
    ensures
        ({
            let p = place_from::<T>(sorted, x, from);
            &&& from <= p <= sorted.len()
            &&& forall|i: int| from <= i < p ==> !(T::order(#[trigger] sorted[i], x) is Greater)
            &&& p < sorted.len() ==> T::order(sorted[p], x) is Greater
        }),
    decreases sorted.len() - from,
{
    if from < sorted.len() && T::order(sorted[from], x) != Order::Greater {
        lemma_place::<T>(sorted, x, from + 1);
    }
}

/// An item put in its place in an ordered sequence leaves it ordered, and
/// stands behind every item that it is equal to.
pub proof fn lemma_placed_is_ordered<T: Ranked>(sorted: Seq<T::V>, x: T::V)
    requires
        ordered::<T>(sorted),
    ensures
        ordered::<T>(placed::<T>(sorted, x)),
        forall|i: int|
            0 <= i < sorted.len() && T::order(#[trigger] sorted[i], x) is Equal ==> i
                < place_from::<T>(sorted, x, 0),
{
    lemma_place::<T>(sorted, x, 0);
    let p = place_from::<T>(sorted, x, 0);
    let after = placed::<T>(sorted, x);
    assert forall|i: int, j: int| 0 <= i < j < after.len() implies !(T::order(
        #[trigger] after[i],
        #[trigger] after[j],
    ) is Greater) by {
        if j < p {
            assert(after[i] == sorted[i] && after[j] == sorted[j]);
        } else if j == p {
            assert(after[i] == sorted[i]);
        } else if i == p {
            // Behind the place everything is at least what stands there,
            // and that is greater than the item.
            assert(after[j] == sorted[j - 1]);
            T::lemma_order_flips(sorted[p], x);
            if j - 1 > p {
                assert(!(T::order(sorted[p], sorted[j - 1]) is Greater));
            } else {
                T::lemma_order_flips(sorted[p], sorted[p]);
            }
            T::lemma_order_chains(x, sorted[p], sorted[j - 1]);
        } else if i < p {
            assert(after[i] == sorted[i] && after[j] == sorted[j - 1]);
        } else {
            assert(after[i] == sorted[i - 1] && after[j] == sorted[j - 1]);
        }
    }
    assert forall|i: int|
        0 <= i < sorted.len() && T::order(#[trigger] sorted[i], x) is Equal implies i < p by {
        if i >= p {
            T::lemma_order_flips(sorted[p], x);
            T::lemma_order_flips(sorted[i], x);
            if i > p {
                assert(!(T::order(sorted[p], sorted[i]) is Greater));
                T::lemma_order_chains(sorted[p], sorted[i], x);
            }
        }
    }
}

/// What was sorted is ordered.
pub proof fn lemma_sorted_is_ordered<T: Ranked>(items: Seq<T::V>)
    ensures
        ordered::<T>(stable_sorted::<T>(items)),
    decreases items.len(),
{
    if items.len() > 0 {
        lemma_sorted_is_ordered::<T>(items.drop_last());
        lemma_placed_is_ordered::<T>(stable_sorted::<T>(items.drop_last()), items.last());
    }
}

/// Nothing in the sequence is greater than `x`.
pub open spec fn none_greater<T: Ranked>(items: Seq<T::V>, x: T::V) -> bool {
    forall|i: int| 0 <= i < items.len() ==> !(T::order(#[trigger] items[i], x) is Greater)
}

/// Two ordered sequences in one, built from their ends: the greater of the
/// two last items goes last, and of two equal ones that of the second
/// sequence, so that an item of the first stands before its equals in the
/// second.
pub open spec fn merged<T: Ranked>(a: Seq<T::V>, b: Seq<T::V>) -> Seq<T::V>
    decreases a.len() + b.len(),
{
    if b.len() == 0 {
        a
    } else if a.len() == 0 {
        b
    } else if T::order(a.last(), b.last()) is Greater {
        merged::<T>(a.drop_last(), b).push(a.last())
    } else {
        merged::<T>(a, b.drop_last()).push(b.last())
    }
}

/// What is greater than nothing in either of two sequences is greater than
/// nothing in the two in one.
pub proof fn lemma_merged_none_greater<T: Ranked>(a: Seq<T::V>, b: Seq<T::V>, x: T::V)
    requires
        none_greater::<T>(a, x),
        none_greater::<T>(b, x),
    ensures
        none_greater::<T>(merged::<T>(a, b), x),
    decreases a.len() + b.len(),
{
    if b.len() == 0 || a.len() == 0 {
    } else if T::order(a.last(), b.last()) is Greater {
        lemma_merged_none_greater::<T>(a.drop_last(), b, x);
    } else {
        lemma_merged_none_greater::<T>(a, b.drop_last(), x);
    }
}

/// An item that nothing is greater than goes to the end.
pub proof fn lemma_placed_at_end<T: Ranked>(items: Seq<T::V>, x: T::V)
    requires
        none_greater::<T>(items, x),
    ensures
        placed::<T>(items, x) == items.push(x),
{
    lemma_place::<T>(items, x, 0);
    assert(items.insert(items.len() as int, x) =~= items.push(x));
}

/// In an ordered sequence whose last item is not greater than `x`, nothing
/// is.
pub proof fn lemma_none_greater<T: Ranked>(items: Seq<T::V>, x: T::V)
    requires
        ordered::<T>(items),
        items.len() > 0 ==> !(T::order(items.last(), x) is Greater),
    ensures
        none_greater::<T>(items, x),
{
    assert forall|i: int| 0 <= i < items.len() implies !(T::order(#[trigger] items[i], x)
        is Greater) by {
        if i < items.len() - 1 {
            assert(!(T::order(items[i], items[items.len() - 1]) is Greater));
            T::lemma_order_chains(items[i], items.last(), x);
        }
    }
}

/// An item goes to the same place whether or not a greater item stands at
/// the end.
pub proof fn lemma_place_before_greater<T: Ranked>(items: Seq<T::V>, g: T::V, x: T::V, from: int)
    requires
        T::order(g, x) is Greater,
        0 <= from <= items.len(),
    ensures
        place_from::<T>(items.push(g), x, from) == place_from::<T>(items, x, from),
    decreases items.len() - from,
{
    if from < items.len() {
        assert(items.push(g)[from] == items[from]);
        if T::order(items[from], x) != Order::Greater {
            lemma_place_before_greater::<T>(items, g, x, from + 1);
        }
    } else {
        assert(items.push(g)[from] == g);
    }
}

/// A greater item at the end stays at the end when `x` is put in its
/// place.
pub proof fn lemma_placed_before_greater<T: Ranked>(items: Seq<T::V>, g: T::V, x: T::V)
    requires
        T::order(g, x) is Greater,
    ensures
        placed::<T>(items.push(g), x) == placed::<T>(items, x).push(g),
{
    lemma_place_before_greater::<T>(items, g, x, 0);
    lemma_place_in_range::<T>(items, x, 0);
    let p = place_from::<T>(items, x, 0);
    assert(items.push(g).insert(p, x) =~= items.insert(p, x).push(g));
}

/// What is greater than an item that is greater than `x` is greater than
/// `x`.
pub proof fn lemma_greater_chains<T: Ranked>(a: T::V, b: T::V, x: T::V)
    requires
        T::order(a, b) is Greater,
        T::order(b, x) is Greater,
    ensures
        T::order(a, x) is Greater,
{
    T::lemma_order_flips(b, x);
    if !(T::order(a, x) is Greater) {
        T::lemma_order_chains(a, x, b);
    }
}

/// To put an item in its place in the second of two ordered sequences and
/// then make one of them gives what it gives to make one of them and then
/// put the item in its place.
pub proof fn lemma_merged_placed<T: Ranked>(a: Seq<T::V>, b: Seq<T::V>, x: T::V)
    requires
        ordered::<T>(a),
        ordered::<T>(b),
    ensures
        merged::<T>(a, placed::<T>(b, x)) == placed::<T>(merged::<T>(a, b), x),
    decreases a.len() + b.len(),
{
    let ad = a.drop_last();
    let bd = b.drop_last();
    if b.len() > 0 && T::order(b.last(), x) is Greater {
        // The item goes before the last of `b`.
        assert(bd.push(b.last()) =~= b);
        lemma_placed_before_greater::<T>(bd, b.last(), x);
        let with = placed::<T>(b, x);
        assert(with.last() == b.last());
        assert(with.drop_last() =~= placed::<T>(bd, x));
        if a.len() == 0 {
        } else if T::order(a.last(), b.last()) is Greater {
            lemma_merged_placed::<T>(ad, b, x);
            lemma_greater_chains::<T>(a.last(), b.last(), x);
            lemma_placed_before_greater::<T>(merged::<T>(ad, b), a.last(), x);
        } else {
            lemma_merged_placed::<T>(a, bd, x);
            lemma_placed_before_greater::<T>(merged::<T>(a, bd), b.last(), x);
        }
    } else {
        // The item goes behind all of `b`.
        lemma_none_greater::<T>(b, x);
        lemma_placed_at_end::<T>(b, x);
        let with = b.push(x);
        assert(with.last() == x);
        assert(with.drop_last() =~= b);
        if a.len() == 0 {
        } else if T::order(a.last(), x) is Greater {
            lemma_merged_placed::<T>(ad, b, x);
            assert(ad.push(a.last()) =~= a);
            if b.len() > 0 && !(T::order(a.last(), b.last()) is Greater) {
                T::lemma_order_chains(a.last(), b.last(), x);
            }
            assert(merged::<T>(a, b) == merged::<T>(ad, b).push(a.last()));
            lemma_placed_before_greater::<T>(merged::<T>(ad, b), a.last(), x);
        } else {
            lemma_none_greater::<T>(a, x);
            lemma_merged_none_greater::<T>(a, b, x);
            lemma_placed_at_end::<T>(merged::<T>(a, b), x);
        }
    }
}

/// Two sorted sequences in one are what follows the one and then the other,
/// sorted.
pub proof fn lemma_merged_is_sorted<T: Ranked>(a: Seq<T::V>, b: Seq<T::V>)
    ensures
        merged::<T>(stable_sorted::<T>(a), stable_sorted::<T>(b)) == stable_sorted::<T>(a + b),
    decreases b.len(),
{
    if b.len() == 0 {
        assert(a + b =~= a);
    } else {
        assert((a + b).drop_last() =~= a + b.drop_last());
        lemma_merged_is_sorted::<T>(a, b.drop_last());
        lemma_sorted_is_ordered::<T>(a);
        lemma_sorted_is_ordered::<T>(b.drop_last());
        lemma_merged_placed::<T>(
            stable_sorted::<T>(a),
            stable_sorted::<T>(b.drop_last()),
            b.last(),
        );
    }
}

/// A sequence from its end to its start.
pub open spec fn turned<A>(items: Seq<A>) -> Seq<A> {
    Seq::new(items.len(), |i: int| items[items.len() - 1 - i])
}

/// Makes one ordered vector of two.
fn merge<T: Ranked>(left: Vec<T>, right: Vec<T>) -> (out: Vec<T>)
    ensures
        views(out@) == merged::<T>(views(left@), views(right@)),
{
    let ghost all = merged::<T>(views(left@), views(right@));
    let mut left = left;
    let mut right = right;
    // The greatest items come first: they are collected from the end on.
    let mut back: Vec<T> = Vec::new();
    assert(merged::<T>(views(left@), views(right@)) + turned(views(back@)) =~= all);
    while left.len() > 0 && right.len() > 0
        invariant
            all == merged::<T>(views(left@), views(right@)) + turned(views(back@)),
        decreases left@.len() + right@.len(),
    {
        let ghost l = views(left@);
        let ghost r = views(right@);
        let ghost done = views(back@);
        assert(l.last() == left@[left@.len() - 1]@);
        assert(r.last() == right@[right@.len() - 1]@);
        let taken = match left[left.len() - 1].compare(&right[right.len() - 1]) {
            Order::Greater => left.pop(),
            _ => right.pop(),
        };
        match taken {
            Some(item) => {
                assert(views(left@) =~= l.drop_last() || views(right@) =~= r.drop_last());
                assert(views(left@) =~= l || views(right@) =~= r);
                back.push(item);
                assert(merged::<T>(l, r) == merged::<T>(views(left@), views(right@)).push(item@));
                assert(turned(views(back@)) =~= seq![item@] + turned(done));
                assert(merged::<T>(views(left@), views(right@)).push(item@) + turned(done)
                    =~= merged::<T>(views(left@), views(right@)) + (seq![item@] + turned(done)));
            },
            None => {},
        }
    }
    let mut out = if right.len() == 0 {
        left
    } else {
        right
    };
    while back.len() > 0
        invariant
            all == views(out@) + turned(views(back@)),
        decreases back@.len(),
    {
        let ghost done = views(out@);
        let ghost rest = views(back@);
        match back.pop() {
            Some(item) => {
                out.push(item);
                assert(item@ == rest.last());
                assert(views(back@) =~= rest.drop_last());
                assert(views(out@) =~= done.push(item@));
                assert(done.push(rest.last()) + turned(rest.drop_last()) =~= done + turned(rest));
            },
            None => {},
        }
    }
    assert(views(out@) + turned(views(back@)) =~= views(out@));
    out
}

/// Sorts the items. The sort is stable: equal items stay in the order in
/// which they came.
pub fn stable_sort<T: Ranked>(items: Vec<T>) -> (sorted: Vec<T>)
    ensures
        views(sorted@) == stable_sorted::<T>(views(items@)),
    decreases items@.len(),
{
    let n = items.len();
    let ghost all = views(items@);
    if n <= 1 {
        proof {
            if n == 1 {
                let none = all.drop_last();
                assert(stable_sorted::<T>(none) == none);
                assert(place_from::<T>(none, all.last(), 0) == 0);
                assert(none.insert(0, all.last()) =~= all);
                assert(stable_sorted::<T>(all) == placed::<T>(
                    stable_sorted::<T>(none),
                    all.last(),
                ));
            }
        }
        return items;
    }
    let mut left = items;
    let right = left.split_off(n / 2);
    proof {
        assert(views(left@) + views(right@) =~= all);
        lemma_merged_is_sorted::<T>(views(left@), views(right@));
    }
    merge(stable_sort(left), stable_sort(right))
}

// ── texts sorted by key ─────────────────────────────────────────────

/// A text with the key it is sorted by, as a value.
pub struct KeyedView {
    pub key: Seq<ChunkView>,
    pub value: Seq<char>,
}

/// A text with the key it is sorted by.
#[derive(Debug)]
pub struct Keyed {
    pub key: Vec<SortChunk>,
    pub value: String,
}

impl View for Keyed {
    type V = KeyedView;

    open spec fn view(&self) -> KeyedView {
        KeyedView { key: chunks_of(self.key@), value: self.value@ }
    }
}

impl Ranked for Keyed {
    open spec fn order(a: KeyedView, b: KeyedView) -> Order {
        key_order(a.key, b.key)
    }

    proof fn lemma_order_flips(a: KeyedView, b: KeyedView) {
        lemma_key_order_flips(a.key, b.key);
    }

    proof fn lemma_order_chains(a: KeyedView, b: KeyedView, c: KeyedView) {
        lemma_key_order_chains(a.key, b.key, c.key);
    }

    fn compare(&self, other: &Self) -> (o: Order) {
        compare_keys(&self.key, &other.key)
    }
}

/// The texts of keyed texts, in their order.
pub open spec fn values_of(items: Seq<KeyedView>) -> Seq<Seq<char>> {
    Seq::new(items.len(), |i: int| items[i].value)
}

/// The texts sorted by their keys, texts of equal keys in the order in
/// which they came.
pub open spec fn sorted_by_key(items: Seq<KeyedView>) -> Seq<Seq<char>> {
    values_of(stable_sorted::<Keyed>(items))
}

/// Sorts texts by their keys and hands out the texts.
pub fn sort_by_key(items: Vec<Keyed>) -> (texts: Vec<String>)
    ensures
        texts@.len() == items@.len(),
        Seq::new(texts@.len(), |i: int| texts@[i]@) == sorted_by_key(views(items@)),
{
    proof {
        lemma_sorted_len::<Keyed>(views(items@));
    }
    let sorted = stable_sort(items);
    let m = sorted.len();
    let mut texts: Vec<String> = Vec::with_capacity(m);
    let mut k: usize = 0;
    while k < m
        invariant
            m == sorted@.len(),
            k <= m,
            texts@.len() == k,
            forall|j: int| 0 <= j < k ==> (#[trigger] texts@[j])@ == sorted@[j].value@,
        decreases m - k,
    {
        texts.push(sorted[k].value.clone());
        k = k + 1;
    }
    assert(Seq::new(texts@.len(), |i: int| texts@[i]@) =~= values_of(views(sorted@)));
    texts
}

} // verus!
