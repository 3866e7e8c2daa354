//! What holds of the response cache whatever is stored in it, looked up and
//! evicted, and in whatever order.

use vstd::prelude::*;
use vstd::set_lib::{lemma_int_range, lemma_len_subset, lemma_set_disjoint_lens, set_int_range};

use crate::dns::arena::{block_size, fits, fits_at, has_room, is_first_fit, is_gap, range, GRAIN};
use crate::dns::cache::{
    lemma_filter, lemma_placed, lemma_remove, lemma_touch, lemma_without, lemma_without_last,
    placed, CacheModel, EntryView, KeyView,
};

verus! {

/// The cache holds the entries of the first `n` keys of `m`, and nothing else.
pub open spec fn keeps_first(kept: CacheModel, m: CacheModel, n: int) -> bool {
    &&& kept.capacity == m.capacity
    &&& kept.order == m.order.take(n)
    &&& forall|k: KeyView| #[trigger]
        kept.entries.contains_key(k) ==> m.entries.contains_key(k) && kept.entries[k]
            == m.entries[k]
}

pub(crate) proof fn lemma_make_room(m: CacheModel, block: int) -> (n: int)
    requires
        m.wf(),
    ensures
        0 <= n <= m.order.len(),
        m.make_room(block).wf(),
        keeps_first(m.make_room(block), m, n),
        fits(m.make_room(block).free(), block) || n == 0,
        fits(m.free(), block) ==> m.make_room(block) == m,
    decreases m.order.len(),
{
    if m.order.len() == 0 || fits(m.free(), block) {
        assert(m.order.take(m.order.len() as int) =~= m.order);
        m.order.len() as int
    } else {
        lemma_without_last(m.order);
        assert(m.order.contains(m.order.last()));
        lemma_remove(m, m.order.last());
        let smaller = m.remove(m.order.last());
        let n = lemma_make_room(smaller, block);
        assert(smaller.order.take(n) =~= m.order.take(n));
        n
    }
}

/// The first fit of a block lies within the pool, at a multiple of the grain, and
/// covers free space alone.
proof fn lemma_first_fit(m: CacheModel, len: nat)
    requires
        m.wf(),
        fits(m.free(), block_size(len) as int),
    ensures
        is_first_fit(m.free(), m.first_fit(block_size(len) as int), block_size(len) as int),
        m.first_fit(block_size(len) as int) >= 0,
        m.first_fit(block_size(len) as int) % (GRAIN as int) == 0,
        m.first_fit(block_size(len) as int) + block_size(len) <= m.capacity,
        range(
            m.first_fit(block_size(len) as int),
            m.first_fit(block_size(len) as int) + block_size(len),
        ).subset_of(m.free()),
{
    let block = block_size(len) as int;
    let s = choose|s: int| #[trigger] fits_at(m.free(), s, block);
    lemma_lowest(m.free(), block, s, m.capacity);
    let a = m.first_fit(block);
    let e = choose|e: int| #[trigger] is_gap(m.free(), a, e) && has_room(e - a, block);
    assert(m.free().contains(a));
    assert(m.free().contains(e - 1));
    assert forall|b: int| range(a, a + block).contains(b) implies #[trigger] m.free().contains(b) by {
        assert(a <= b < e);
    }
    if a > 0 {
        assert(!m.free().contains(a - 1));
        let k = choose|k: KeyView| #[trigger]
            m.entries.contains_key(k) && m.entries[k].covers(a - 1);
        assert(!m.entries[k].covers(a));
        assert(a == m.entries[k].offset + block_size(m.entries[k].bytes.len()));
    }
}

/// If a block fits at some offset of the pool, there is a lowest such offset.
proof fn lemma_lowest(free: Set<int>, block: int, s: int, capacity: int)
    requires
        fits_at(free, s, block),
        forall|b: int| #[trigger] free.contains(b) ==> 0 <= b < capacity,
    ensures
        exists|a: int| is_first_fit(free, a, block),
    decreases s,
{
    let e = choose|e: int| #[trigger] is_gap(free, s, e) && has_room(e - s, block);
    assert(free.contains(s));
    if exists|a: int| #[trigger] fits_at(free, a, block) && a < s {
        let a = choose|a: int| #[trigger] fits_at(free, a, block) && a < s;
        let f = choose|f: int| #[trigger] is_gap(free, a, f) && has_room(f - a, block);
        assert(free.contains(a));
        lemma_lowest(free, block, a, capacity);
    } else {
        assert(is_first_fit(free, s, block));
    }
}

/// A removed key leaves a well-formed cache behind, whether or not it was there.
pub(crate) proof fn lemma_remove_any(m: CacheModel, key: KeyView)
    requires
        m.wf(),
    ensures
        m.remove(key).wf(),
        !m.remove(key).order.contains(key),
{
    lemma_without(m.order, key);
    if m.entries.contains_key(key) {
        lemma_remove(m, key);
    } else {
        assert(m.remove(key).entries =~= m.entries);
    }
}

/// Every operation keeps the cache well-formed: the order of use lists each stored
/// key once and nothing else, and the stored responses lie apart from each other
/// within the pool.
pub proof fn law_operations_keep_the_cache_well_formed(
    m: CacheModel,
    key: KeyView,
    expires_at: int,
    bytes: Seq<u8>,
    now: int,
)
    requires
        m.wf(),
    ensures
        m.insert(key, expires_at, bytes).wf(),
        m.after_lookup(key, now).wf(),
        m.swept(now).wf(),
{
    let block = block_size(bytes.len()) as int;
    lemma_remove_any(m, key);
    let n = lemma_make_room(m.remove(key), block);
    let roomy = m.remove(key).make_room(block);
    if fits(roomy.free(), block) {
        lemma_first_fit(roomy, bytes.len());
        let entry = EntryView { offset: roomy.first_fit(block), expires_at, bytes };
        assert(!roomy.order.contains(key)) by {
            if roomy.order.contains(key) {
                let i = roomy.order.index_of(key);
                assert(m.remove(key).order[i] == key);
            }
        }
        lemma_placed(roomy, key, entry);
        assert(m.insert(key, expires_at, bytes) == placed(roomy, key, entry));
    }
    if m.is_live(key, now) {
        lemma_touch(m, key);
    }
    lemma_swept(m, now);
}

proof fn lemma_swept(m: CacheModel, now: int)
    requires
        m.wf(),
    ensures
        m.swept(now).wf(),
{
    let live = |k: KeyView| m.is_live(k, now);
    lemma_filter(m.order, live);
    let after = m.swept(now);
    assert forall|j: KeyView, k: KeyView, b: int|
        #![trigger after.entries[j].covers(b), after.entries[k].covers(b)]
        after.entries.contains_key(j) && after.entries.contains_key(k) && after.entries[j].covers(b)
            && after.entries[k].covers(b) implies j == k by {
        assert(m.entries[j].covers(b) && m.entries[k].covers(b));
    }
}

/// If a block fits into what the entries leave free, it fits into the empty pool.
proof fn lemma_fits_only_if_room(m: CacheModel, block: int)
    requires
        m.wf(),
        fits(m.free(), block),
    ensures
        has_room(m.capacity, block),
{
    let s = choose|s: int| #[trigger] fits_at(m.free(), s, block);
    let e = choose|e: int| #[trigger] is_gap(m.free(), s, e) && has_room(e - s, block);
    assert(m.free().contains(s));
    assert(m.free().contains(e - 1));
    if s > 0 {
        assert(!m.free().contains(s - 1));
        let k = choose|k: KeyView| #[trigger]
            m.entries.contains_key(k) && m.entries[k].covers(s - 1);
        assert(!m.entries[k].covers(s));
    }
    if e < m.capacity {
        assert(!m.free().contains(e));
        let k = choose|k: KeyView| #[trigger] m.entries.contains_key(k) && m.entries[k].covers(e);
        assert(!m.entries[k].covers(e - 1));
    }
}

/// A block for which the empty pool has room fits into the empty pool.
proof fn lemma_room_in_empty(m: CacheModel, block: int)
    requires
        m.wf(),
        m.order.len() == 0,
        has_room(m.capacity, block),
        block > 0,
    ensures
        fits(m.free(), block),
{
    assert forall|k: KeyView| !#[trigger] m.entries.contains_key(k) by {
        assert(!m.order.contains(k));
    }
    assert(is_gap(m.free(), 0, m.capacity));
    assert(fits_at(m.free(), 0, block));
}

/// What is inserted can be read back: a response is stored exactly if the pool,
/// were it empty, had room for it. It is then the most recently used one, with
/// its own bytes and expiry.
pub proof fn law_insert_stores_what_the_pool_has_room_for(
    m: CacheModel,
    key: KeyView,
    expires_at: int,
    bytes: Seq<u8>,
)
    requires
        m.wf(),
    ensures
        ({
            let after = m.insert(key, expires_at, bytes);
            &&& after.entries.contains_key(key) <==> has_room(
                m.capacity,
                block_size(bytes.len()) as int,
            )
            &&& after.entries.contains_key(key) ==> {
                &&& after.entries[key].bytes == bytes
                &&& after.entries[key].expires_at == expires_at
                &&& after.order[0] == key
            }
        }),
{
    let block = block_size(bytes.len()) as int;
    lemma_remove_any(m, key);
    let n = lemma_make_room(m.remove(key), block);
    let roomy = m.remove(key).make_room(block);
    if fits(roomy.free(), block) {
        lemma_fits_only_if_room(roomy, block);
    } else {
        if has_room(m.capacity, block) {
            lemma_room_in_empty(roomy, block);
        }
        assert(!roomy.entries.contains_key(key));
    }
}

/// A response that was just inserted is served, byte for byte, until it expires
/// and not after that.
pub proof fn law_get_returns_what_insert_stored(
    m: CacheModel,
    key: KeyView,
    expires_at: int,
    bytes: Seq<u8>,
    now: int,
)
    requires
        m.wf(),
        has_room(m.capacity, block_size(bytes.len()) as int),
    ensures
        m.insert(key, expires_at, bytes).is_live(key, now) <==> now < expires_at,
        m.insert(key, expires_at, bytes).entries[key].bytes == bytes,
{
    law_insert_stores_what_the_pool_has_room_for(m, key, expires_at, bytes);
}

/// Inserting a response changes no other entry that it does not evict.
pub proof fn law_insert_leaves_other_entries_alone(
    m: CacheModel,
    key: KeyView,
    expires_at: int,
    bytes: Seq<u8>,
    other: KeyView,
)
    requires
        m.wf(),
        other != key,
        m.insert(key, expires_at, bytes).entries.contains_key(other),
    ensures
        m.entries.contains_key(other),
        m.insert(key, expires_at, bytes).entries[other] == m.entries[other],
{
    let block = block_size(bytes.len()) as int;
    lemma_remove_any(m, key);
    let n = lemma_make_room(m.remove(key), block);
    let roomy = m.remove(key).make_room(block);
    assert(roomy.entries.contains_key(other));
}

/// Room is made by evicting the least recently used entries, and only as many of
/// them as needed: what remains are the `n` most recently used ones, unchanged,
/// for the largest `n` that leaves room, or nothing.
pub proof fn law_eviction_takes_the_least_recently_used(m: CacheModel, block: int)
    requires
        m.wf(),
    ensures
        exists|n: int| #[trigger] keeps_first(m.make_room(block), m, n) && 0 <= n <= m.order.len(),
        fits(m.make_room(block).free(), block) || m.make_room(block).order.len() == 0,
        forall|more: CacheModel, n: int| #[trigger]
            keeps_first(more, m, n) && more.wf() && m.make_room(block).order.len() < n
                <= m.order.len() ==> !fits(more.free(), block),
    decreases m.order.len(),
{
    let n = lemma_make_room(m, block);
    assert(keeps_first(m.make_room(block), m, n));
    assert forall|more: CacheModel, j: int| #[trigger]
        keeps_first(more, m, j) && more.wf() && m.make_room(block).order.len() < j
            <= m.order.len() implies !fits(more.free(), block) by {
        if j == m.order.len() {
            assert(m.order.take(j) =~= m.order);
            assert(more.entries =~= m.entries) by {
                assert forall|k: KeyView| #[trigger] more.entries.contains_key(k)
                    == m.entries.contains_key(k) by {}
            }
            assert(more == m);
        } else {
            let last = m.order.last();
            lemma_without_last(m.order);
            assert(m.order.contains(last));
            lemma_remove(m, last);
            let smaller = m.remove(last);
            assert(smaller.order.take(j) =~= m.order.take(j));
            assert forall|k: KeyView| #[trigger] more.entries.contains_key(k) implies
                smaller.entries.contains_key(k) && more.entries[k] == smaller.entries[k] by {
                assert(more.order.contains(k));
                let i = more.order.index_of(k);
                assert(m.order[i] == k);
                assert(i != m.order.len() - 1);
                assert(k != last);
            }
            assert(keeps_first(more, smaller, j));
            law_eviction_takes_the_least_recently_used(smaller, block);
        }
    }
}

/// Looking a key up, whatever came of it, leaves every other entry as it was; and
/// looking it up again at the same time gives the same answer.
pub proof fn law_lookup_is_repeatable(m: CacheModel, key: KeyView, other: KeyView, now: int)
    requires
        m.wf(),
    ensures
        m.after_lookup(key, now).is_live(key, now) == m.is_live(key, now),
        m.is_live(key, now) ==> m.after_lookup(key, now).entries[key] == m.entries[key],
        other != key ==> {
            &&& m.after_lookup(key, now).entries.contains_key(other)
                == m.entries.contains_key(other)
            &&& m.after_lookup(key, now).entries[other] == m.entries[other]
        },
{
}

/// A sweep evicts exactly what has expired, and so changes no later answer.
pub proof fn law_sweep_changes_no_answer(m: CacheModel, key: KeyView, swept_at: int, now: int)
    requires
        m.wf(),
        swept_at <= now,
    ensures
        m.swept(swept_at).entries.contains_key(key) <==> m.is_live(key, swept_at),
        m.swept(swept_at).is_live(key, now) == m.is_live(key, now),
        m.is_live(key, now) ==> m.swept(swept_at).entries[key] == m.entries[key],
{
}

/// The lengths of the responses of the first `n` keys, added up.
pub open spec fn stored_bytes(m: CacheModel, n: int) -> int
    decreases n,
{
    if n <= 0 {
        0
    } else {
        stored_bytes(m, n - 1) + m.entries[m.order[n - 1]].bytes.len()
    }
}

/// The offsets of the pool that the entries of the first `n` keys cover.
spec fn covered(m: CacheModel, n: int) -> Set<int> {
    Set::new(|b: int| exists|i: int| 0 <= i < n && m.entries[#[trigger] m.order[i]].covers(b))
}

proof fn lemma_covered(m: CacheModel, n: int)
    requires
        m.wf(),
        0 <= n <= m.order.len(),
    ensures
        covered(m, n).finite(),
        covered(m, n).len() >= stored_bytes(m, n),
    decreases n,
{
    if n == 0 {
        assert(covered(m, 0) =~= Set::empty());
    } else {
        lemma_covered(m, n - 1);
        let key = m.order[n - 1];
        assert(m.order.contains(key));
        let e = m.entries[key];
        let size = block_size(e.bytes.len()) as int;
        let block = set_int_range(e.offset, e.offset + size);
        lemma_int_range(e.offset, e.offset + size);
        assert forall|b: int| #[trigger] covered(m, n).contains(b) <==> (covered(m, n - 1)
            + block).contains(b) by {
            if covered(m, n).contains(b) {
                let i = choose|i: int|
                    0 <= i < n && m.entries[#[trigger] m.order[i]].covers(b);
                assert(i < n - 1 || i == n - 1);
            }
            if block.contains(b) {
                assert(m.entries[m.order[n - 1]].covers(b));
            }
        }
        assert(covered(m, n) =~= covered(m, n - 1) + block);
        assert(covered(m, n - 1).disjoint(block)) by {
            assert forall|b: int| !(covered(m, n - 1).contains(b) && #[trigger] block.contains(b)) by {
                if covered(m, n - 1).contains(b) && block.contains(b) {
                    let i = choose|i: int|
                        0 <= i < n - 1 && m.entries[#[trigger] m.order[i]].covers(b);
                    assert(m.order.contains(m.order[i]));
                    assert(m.entries[m.order[i]].covers(b) && m.entries[key].covers(b));
                    assert(m.order[i] == key);
                }
            }
        }
        lemma_set_disjoint_lens(covered(m, n - 1), block);
    }
}

/// The stored responses together never take more bytes than the pool has.
pub proof fn law_responses_stay_within_the_budget(m: CacheModel)
    requires
        m.wf(),
    ensures
        stored_bytes(m, m.order.len() as int) <= m.capacity,
{
    let n = m.order.len() as int;
    lemma_covered(m, n);
    lemma_int_range(0, m.capacity);
    assert(covered(m, n).subset_of(set_int_range(0, m.capacity))) by {
        assert forall|b: int| #[trigger] covered(m, n).contains(b) implies set_int_range(
            0,
            m.capacity,
        ).contains(b) by {
            let i = choose|i: int| 0 <= i < n && m.entries[#[trigger] m.order[i]].covers(b);
            assert(m.entries.contains_key(m.order[i]));
        }
    }
    lemma_len_subset(covered(m, n), set_int_range(0, m.capacity));
}

/// The run of free offsets that ends before `end`.
proof fn lemma_run_before(free: Set<int>, at: int, end: int) -> (start: int)
    requires
        forall|b: int| #[trigger] free.contains(b) ==> 0 <= b,
        0 <= at < end,
        forall|b: int| at <= b < end ==> #[trigger] free.contains(b),
        !free.contains(end),
    ensures
        is_gap(free, start, end),
    decreases at,
{
    if free.contains(at - 1) {
        lemma_run_before(free, at - 1, end)
    } else {
        at
    }
}

/// The run of free offsets that begins at `start`.
proof fn lemma_run_after(free: Set<int>, start: int, at: int, bound: int) -> (end: int)
    requires
        forall|b: int| #[trigger] free.contains(b) ==> b < bound,
        start < at <= bound,
        forall|b: int| start <= b < at ==> #[trigger] free.contains(b),
        !free.contains(start - 1),
    ensures
        is_gap(free, start, end),
    decreases bound - at,
{
    if free.contains(at) {
        lemma_run_after(free, start, at + 1, bound)
    } else {
        at
    }
}

/// Storing a response in the place of one that takes as much space evicts nothing
/// else: it reuses that space.
pub proof fn law_reinsertion_reuses_its_space(
    m: CacheModel,
    key: KeyView,
    expires_at: int,
    bytes: Seq<u8>,
    other: KeyView,
)
    requires
        m.wf(),
        m.no_slivers(),
        m.entries.contains_key(key),
        block_size(bytes.len()) == block_size(m.entries[key].bytes.len()),
        m.entries.contains_key(other),
        other != key,
    ensures
        m.insert(key, expires_at, bytes).entries.contains_key(other),
        m.insert(key, expires_at, bytes).entries[other] == m.entries[other],
        m.insert(key, expires_at, bytes).entries.contains_key(key),
{
    let block = block_size(bytes.len()) as int;
    let before = m.free();
    let without_key = m.remove(key);
    let free = without_key.free();
    lemma_remove(m, key);
    let left = m.entries[key].offset;
    let right = left + block;
    assert(forall|b: int| left <= b < right ==> range(left, right).contains(b));
    assert(forall|b: int| left <= b < right ==> !#[trigger] before.contains(b)) by {
        assert forall|b: int| left <= b < right implies !#[trigger] before.contains(b) by {
            assert(m.entries[key].covers(b));
        }
    }
    assert(forall|b: int| #[trigger]
        free.contains(b) <==> before.contains(b) || left <= b < right);
    let start = if before.contains(left - 1) {
        let s = lemma_run_before(before, left - 1, left);
        assert(is_gap(before, s, left));
        s
    } else {
        left
    };
    let end = if before.contains(right) {
        let e = lemma_run_after(before, right, right + 1, m.capacity);
        assert(is_gap(before, right, e));
        e
    } else {
        right
    };
    assert(is_gap(free, start, end));
    assert(has_room(end - start, block));
    assert(fits_at(free, start, block));
    assert(fits(free, block));
    assert(without_key.make_room(block) == without_key);
}

/// A call on the cache, with the time at which it is made.
pub enum CacheCall {
    Insert(KeyView, int, Seq<u8>),
    Lookup(KeyView, int),
    Sweep(int),
}

/// What the cache holds after a sequence of calls.
pub open spec fn after_calls(m: CacheModel, calls: Seq<CacheCall>) -> CacheModel
    decreases calls.len(),
{
    if calls.len() == 0 {
        m
    } else {
        let before = after_calls(m, calls.drop_last());
        match calls.last() {
            CacheCall::Insert(key, expires_at, bytes) => before.insert(key, expires_at, bytes),
            CacheCall::Lookup(key, now) => before.after_lookup(key, now),
            CacheCall::Sweep(now) => before.swept(now),
        }
    }
}

/// However calls are interleaved, the cache stays whole: the order of use lists each
/// stored key exactly once, no two responses share a byte of the pool, all lie within
/// it, and the pool keeps its size.
pub proof fn law_any_interleaving_keeps_the_cache_whole(
    m: CacheModel,
    calls: Seq<CacheCall>,
    a: KeyView,
    b: KeyView,
)
    requires
        m.wf(),
    ensures
        ({
            let now = after_calls(m, calls);
            &&& now.wf()
            &&& now.capacity == m.capacity
            &&& stored_bytes(now, now.order.len() as int) <= m.capacity
            &&& now.entries.contains_key(a) ==> now.order.contains(a) && 0 <= now.entries[a].offset
                && now.entries[a].offset + now.entries[a].bytes.len() <= m.capacity
            &&& a != b && now.entries.contains_key(a) && now.entries.contains_key(b) ==> {
                ||| now.entries[a].offset + now.entries[a].bytes.len() <= now.entries[b].offset
                ||| now.entries[b].offset + now.entries[b].bytes.len() <= now.entries[a].offset
            }
        }),
    decreases calls.len(),
{
    let now = after_calls(m, calls);
    if calls.len() > 0 {
        law_any_interleaving_keeps_the_cache_whole(m, calls.drop_last(), a, b);
        let before = after_calls(m, calls.drop_last());
        match calls.last() {
            CacheCall::Insert(key, expires_at, bytes) => {
                law_operations_keep_the_cache_well_formed(before, key, expires_at, bytes, 0);
                lemma_remove_any(before, key);
                let n = lemma_make_room(
                    before.remove(key),
                    block_size(bytes.len()) as int,
                );
            },
            CacheCall::Lookup(key, at) => {
                law_operations_keep_the_cache_well_formed(before, key, 0, seq![], at);
            },
            CacheCall::Sweep(at) => {
                law_operations_keep_the_cache_well_formed(before, a, 0, seq![], at);
            },
        }
    }
    law_responses_stay_within_the_budget(now);
    if a != b && now.entries.contains_key(a) && now.entries.contains_key(b) {
        let (x, y) = (now.entries[a], now.entries[b]);
        if x.offset <= y.offset && y.offset < x.offset + x.bytes.len() {
            assert(x.covers(y.offset) && y.covers(y.offset));
        }
        if y.offset <= x.offset && x.offset < y.offset + y.bytes.len() {
            assert(x.covers(x.offset) && y.covers(x.offset));
        }
    }
}

/// What the latest of the insertions under a key stored: expiry and bytes.
pub open spec fn latest_insert(calls: Seq<CacheCall>, key: KeyView) -> Option<(int, Seq<u8>)>
    decreases calls.len(),
{
    if calls.len() == 0 {
        None
    } else {
        match calls.last() {
            CacheCall::Insert(k, expires_at, bytes) if k == key => Some((expires_at, bytes)),
            _ => latest_insert(calls.drop_last(), key),
        }
    }
}

/// After any calls on an empty cache, what it holds under a key is exactly what the
/// latest insertion under that key stored, bytes and expiry: never something older, and
/// never anything of another key.
pub proof fn law_entries_are_what_was_inserted_last(
    m: CacheModel,
    calls: Seq<CacheCall>,
    key: KeyView,
)
    requires
        m.wf(),
        m.order.len() == 0,
        after_calls(m, calls).entries.contains_key(key),
    ensures
        ({
            let entry = after_calls(m, calls).entries[key];
            latest_insert(calls, key) == Some((entry.expires_at, entry.bytes))
        }),
    decreases calls.len(),
{
    if calls.len() == 0 {
        assert(m.order.contains(key));
    } else {
        let init = calls.drop_last();
        let before = after_calls(m, init);
        law_any_interleaving_keeps_the_cache_whole(m, init, key, key);
        match calls.last() {
            CacheCall::Insert(k, expires_at, bytes) => {
                if k == key {
                    law_insert_stores_what_the_pool_has_room_for(before, key, expires_at, bytes);
                } else {
                    law_insert_leaves_other_entries_alone(before, k, expires_at, bytes, key);
                    law_entries_are_what_was_inserted_last(m, init, key);
                }
            },
            _ => {
                law_entries_are_what_was_inserted_last(m, init, key);
            },
        }
    }
}

} // verus!
