//! What looking up and storing does to the order of use, and under what responses are
//! kept.

use vstd::prelude::*;
use vstd::utf8::{encode_utf8, encode_utf8_decode_utf8};

use crate::dns::arena::{block_size, fits, has_room};
use crate::dns::cache::{
    key_of, lemma_filter, lemma_without, storable, without, CacheModel, KeyView, MIN_POOL_BYTES,
    NANOS_PER_SECOND,
};
use crate::dns::cache_laws::{lemma_make_room, lemma_remove_any};

verus! {

/// Looking a response up makes it the most recently used one, and leaves the order of all
/// others as it was. Looking up one that has expired removes it and nothing else, and
/// looking up what is not there changes nothing.
pub proof fn law_lookups_count_as_use(m: CacheModel, key: KeyView, at: int, now: int)
    requires
        m.wf(),
        0 <= at <= m.order.len(),
        at < m.order.len() ==> m.order[at] == key,
        at == m.order.len() ==> !m.entries.contains_key(key),
    ensures
        ({
            let after = m.after_lookup(key, now);
            let others = m.order.take(at) + m.order.skip(at + 1);
            if at == m.order.len() {
                after == m
            } else if now < m.entries[key].expires_at {
                &&& after.order == seq![key] + others
                &&& after.entries == m.entries
                &&& after.capacity == m.capacity
            } else {
                &&& after.order == others
                &&& after.entries == m.entries.remove(key)
                &&& after.capacity == m.capacity
            }
        }),
{
    if at < m.order.len() {
        assert(m.order.contains(key));
        lemma_without_at(m.order, key, at);
    }
}

proof fn lemma_without_at(order: Seq<KeyView>, key: KeyView, at: int)
    requires
        order.no_duplicates(),
        0 <= at < order.len(),
        order[at] == key,
    ensures
        without(order, key) == order.take(at) + order.skip(at + 1),
{
    assert(order.contains(key));
    assert(order.index_of(key) == at);
    assert(order.remove(at) =~= order.take(at) + order.skip(at + 1));
}

/// Storing a response makes it the most recently used one. Whatever has to go for it was
/// used less recently than everything that stays; nothing goes if there is a gap for it;
/// and what stays, stays in its order.
pub proof fn law_storing_evicts_what_was_used_least_recently(
    m: CacheModel,
    key: KeyView,
    expires_at: int,
    bytes: Seq<u8>,
    i: int,
    j: int,
)
    requires
        m.wf(),
        0 <= i < m.order.len(),
        0 <= j < m.order.len(),
        m.order[i] != key,
        m.order[j] != key,
    ensures
        ({
            let after = m.insert(key, expires_at, bytes);
            let (a, b) = (m.order[i], m.order[j]);
            &&& after.entries.contains_key(a) && !after.entries.contains_key(b) ==> i < j
            &&& fits(m.remove(key).free(), block_size(bytes.len()) as int)
                ==> after.entries.contains_key(a) && after.entries.contains_key(key)
            &&& i < j && after.entries.contains_key(b) ==> after.order.index_of(a)
                < after.order.index_of(b)
            &&& after.entries.contains_key(key) ==> after.order[0] == key
        }),
{
    let block = block_size(bytes.len()) as int;
    let (a, b) = (m.order[i], m.order[j]);
    assert(m.order.contains(a) && m.order.contains(b));
    let less = m.remove(key);
    lemma_remove_any(m, key);
    lemma_without(m.order, key);
    let n = lemma_make_room(less, block);
    let roomy = less.make_room(block);
    let after = m.insert(key, expires_at, bytes);
    let at = m.order.index_of(key);
    let shift = |x: int|
        if m.order.contains(key) && at < x {
            x - 1
        } else {
            x
        };
    if m.order.contains(key) {
        lemma_without_at(m.order, key, at);
    }
    assert(less.order[shift(i)] == a);
    assert(less.order[shift(j)] == b);
    assert(less.order.contains(a) && less.order.contains(b));
    lemma_kept(less, roomy, n, shift(i));
    lemma_kept(less, roomy, n, shift(j));
    assert(!roomy.entries.contains_key(key)) by {
        if roomy.entries.contains_key(key) {
            assert(less.entries.contains_key(key));
        }
    }
    assert(after.entries.contains_key(a) == roomy.entries.contains_key(a));
    assert(after.entries.contains_key(b) == roomy.entries.contains_key(b));
    if i < j && after.entries.contains_key(b) {
        let front = if fits(roomy.free(), block) {
            1int
        } else {
            0
        };
        assert(after.order[shift(i) + front] == a);
        assert(after.order[shift(j) + front] == b);
        lemma_no_duplicates(after.order, roomy.order, key, front);
        assert(after.order.contains(a) && after.order.contains(b));
        assert(after.order.index_of(a) == shift(i) + front);
        assert(after.order.index_of(b) == shift(j) + front);
    }
    if fits(less.free(), block) {
        assert(roomy == less);
    }
}

proof fn lemma_no_duplicates(
    order: Seq<KeyView>,
    rest: Seq<KeyView>,
    key: KeyView,
    front: int,
)
    requires
        rest.no_duplicates(),
        !rest.contains(key),
        front == 0 && order == rest || front == 1 && order == seq![key] + rest,
    ensures
        order.no_duplicates(),
{
    if front == 1 {
        assert forall|x: int, y: int| 0 <= x < order.len() && 0 <= y < order.len() && x
            != y implies order[x] != order[y] by {
            if x > 0 {
                assert(order[x] == rest[x - 1]);
            }
            if y > 0 {
                assert(order[y] == rest[y - 1]);
            }
            if x == 0 {
                assert(rest.contains(order[y]));
            }
            if y == 0 {
                assert(rest.contains(order[x]));
            }
        }
    }
}

/// Of the keys in order of use, exactly the first `n` are kept.
proof fn lemma_kept(less: CacheModel, roomy: CacheModel, n: int, x: int)
    requires
        less.wf(),
        roomy.wf(),
        0 <= n <= less.order.len(),
        roomy.order == less.order.take(n),
        0 <= x < less.order.len(),
    ensures
        roomy.entries.contains_key(less.order[x]) <==> x < n,
        x < n ==> roomy.order[x] == less.order[x],
{
    if x < n {
        assert(roomy.order[x] == less.order[x]);
        assert(roomy.order.contains(less.order[x]));
    } else if roomy.order.contains(less.order[x]) {
        let y = roomy.order.index_of(less.order[x]);
        assert(less.order[y] == less.order[x]);
    }
}

/// A response that has not expired is looked up; one that expires at this very moment is
/// not. There are a thousand million steps of the clock to a second.
pub proof fn law_responses_expire_on_time(
    m: CacheModel,
    key: KeyView,
    stored_at: int,
    ttl: u32,
    now: int,
)
    requires
        m.entries.contains_key(key),
        m.entries[key].expires_at == stored_at + ttl * NANOS_PER_SECOND,
    ensures
        m.is_live(key, now) <==> now - stored_at < ttl * 1_000_000_000,
{
}

/// Responses to questions for different names, of different types or of different classes
/// are kept apart.
pub proof fn law_different_questions_have_different_keys(
    name: Seq<char>,
    record_type: u16,
    dns_class: u16,
    other_name: Seq<char>,
    other_type: u16,
    other_class: u16,
)
    ensures
        key_of(name, record_type, dns_class) == key_of(other_name, other_type, other_class) <==> {
            &&& name == other_name
            &&& record_type == other_type
            &&& dns_class == other_class
        },
{
    encode_utf8_decode_utf8(name);
    encode_utf8_decode_utf8(other_name);
}

/// Responses are kept for names of up to 255 bytes, all that a DNS name can have.
pub proof fn law_names_that_responses_are_kept_for(name: Seq<char>)
    ensures
        storable(name) <==> encode_utf8(name).len() <= 255,
{
}

/// A response takes its own length in the pool, rounded up to a multiple of 8, and 16
/// bytes at least. It fits where nothing is left over, or 16 bytes at least. No response is too long for a pool with 32 bytes to spare, and none
/// fits into a pool that is shorter than itself.
pub proof fn law_responses_take_their_own_length(len: nat, size: int, block: int)
    ensures
        block_size(len) >= len,
        block_size(len) >= 16,
        block_size(len) % 8 == 0,
        block_size(len) < len + 8 || block_size(len) == 16,
        has_room(size, block) <==> size == block || size - block >= 16,
        size >= len + 32 ==> has_room(size, block_size(len) as int),
        has_room(size, block_size(len) as int) ==> size >= len,
{
}

/// A pool has 64 bytes at least; with fewer there is no cache.
pub proof fn law_the_smallest_pool(size: u64)
    ensures
        size < MIN_POOL_BYTES <==> size < 64,
{
}

/// A sweep leaves the order of what stays as it was.
pub proof fn law_sweeps_keep_the_order_of_use(m: CacheModel, now: int, i: int, j: int)
    requires
        m.wf(),
        0 <= i < j < m.order.len(),
        now < m.entries[m.order[i]].expires_at,
        now < m.entries[m.order[j]].expires_at,
    ensures
        m.swept(now).order.contains(m.order[i]),
        m.swept(now).order.contains(m.order[j]),
        m.swept(now).order.index_of(m.order[i]) < m.swept(now).order.index_of(m.order[j]),
        m.swept(now).capacity == m.capacity,
{
    let live = |k: KeyView| m.is_live(k, now);
    assert(m.order.contains(m.order[i]) && m.order.contains(m.order[j]));
    lemma_filter(m.order, live);
    let (x, y) = lemma_filter_keeps_order(m.order, live, i, j);
    let kept = m.order.filter(live);
    assert(kept == m.swept(now).order);
    assert(kept.index_of(kept[x]) == x);
    assert(kept.index_of(kept[y]) == y);
}

proof fn lemma_filter_keeps_order(
    s: Seq<KeyView>,
    pred: spec_fn(KeyView) -> bool,
    i: int,
    j: int,
) -> (r: (int, int))
    requires
        0 <= i < j < s.len(),
        pred(s[i]),
        pred(s[j]),
    ensures
        0 <= r.0 < r.1 < s.filter(pred).len(),
        s.filter(pred)[r.0] == s[i],
        s.filter(pred)[r.1] == s[j],
    decreases s.len(),
{
    reveal(Seq::filter);
    let init = s.drop_last();
    let kept = init.filter(pred);
    if j < init.len() {
        let r = lemma_filter_keeps_order(init, pred, i, j);
        assert(init[i] == s[i] && init[j] == s[j]);
        r
    } else {
        assert(s.last() == s[j]);
        lemma_filter(init, pred);
        assert(init[i] == s[i]);
        assert(init.contains(s[i]));
        assert(kept.contains(s[i]));
        let x = kept.index_of(s[i]);
        assert(s.filter(pred)[x] == s[i]);
        (x, kept.len() as int)
    }
}

} // verus!
