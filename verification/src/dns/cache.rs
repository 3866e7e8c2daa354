//! TTL-aware cache of upstream responses' wire bytes, keyed by record type,
//! class and name.
//!
//! Storage is one preallocated pool that is never resized; responses are
//! suballocated from it, so each one uses only the bytes it needs. When the pool
//! is full, an insertion evicts the least recently used entries until the new
//! response fits, or until nothing is left. Expired entries are reclaimed by a
//! sweep, independently of that.

use rustc_hash::FxHashMap;
use vstd::prelude::*;
use vstd::slice::slice_subrange;
use vstd::string::*;
use vstd::utf8::encode_utf8;

use crate::dns::arena::{
    block_size, fits, has_room, is_first_fit, is_gap, range, Arena, GRAIN, MIN_BLOCK,
};
use crate::dns::inline_name::{InlineName, MAX_NAME_LEN};
use crate::octets::copied;

verus! {

/// Below this the pool cannot hold a useful number of responses.
pub const MIN_POOL_BYTES: u64 = 64;

/// Times are nanoseconds since some fixed moment in the past.
pub const NANOS_PER_SECOND: u64 = 1_000_000_000;

/// The hasher of `rustc_hash`'s hash maps and hash sets.
#[verifier::external_type_specification]
#[verifier::external_body]
pub struct ExFxBuildHasher(rustc_hash::FxBuildHasher);

#[derive(Clone, Copy)]
pub struct CacheKey {
    pub qtype: u16,
    pub qclass: u16,
    pub name: InlineName,
}

/// A key as plain values: record type, class and the bytes of the name.
pub type KeyView = (u16, u16, Seq<u8>);

impl View for CacheKey {
    type V = KeyView;

    open spec fn view(&self) -> KeyView {
        (self.qtype, self.qclass, self.name@)
    }
}

/// One cached response's bookkeeping. Its bytes live in the pool at
/// `[offset, offset + len)`.
#[derive(Clone, Copy)]
pub struct EntryMeta {
    pub offset: usize,
    pub len: usize,
    pub expires_at: u64,
    pub prev: Option<CacheKey>,
    pub next: Option<CacheKey>,
}

type EntryTable = FxHashMap<(u16, u16, u8, [u8; 255]), EntryMeta>;

/// The contents of the table of entries.
pub uninterp spec fn entries_of(table: FxHashMap<(u16, u16, u8, [u8; 255]), EntryMeta>) -> Map<
    (u16, u16, Seq<u8>),
    EntryMeta,
>;

/// `FxHashMap::default` is an empty map.
#[verifier::external_body]
fn new_table() -> (r: EntryTable)
    ensures
        entries_of(r).dom() == Set::<KeyView>::empty(),
{
    FxHashMap::default()
}

/// `FxHashMap::get` finds the value that the map holds for the key, if any. The
/// key goes in as its zero-padded parts, which are equal exactly for equal names.
#[verifier::external_body]
fn get_entry(table: &EntryTable, key: &CacheKey) -> (r: Option<EntryMeta>)
    requires
        key.name.wf(),
    ensures
        match r {
            Some(e) => entries_of(*table).contains_key(key@) && e == entries_of(*table)[key@],
            None => !entries_of(*table).contains_key(key@),
        },
{
    table.get(&(key.qtype, key.qclass, key.name.len, key.name.bytes)).copied()
}

/// `FxHashMap::insert` sets the value for the key and leaves all others alone.
#[verifier::external_body]
fn put_entry(table: &mut EntryTable, key: &CacheKey, meta: EntryMeta)
    requires
        key.name.wf(),
    ensures
        entries_of(*final(table)) == entries_of(*old(table)).insert(key@, meta),
{
    table.insert((key.qtype, key.qclass, key.name.len, key.name.bytes), meta);
}

/// `FxHashMap::remove` takes the key and its value out of the map and leaves all
/// others alone.
#[verifier::external_body]
fn remove_entry(table: &mut EntryTable, key: &CacheKey)
    requires
        key.name.wf(),
    ensures
        entries_of(*final(table)) == entries_of(*old(table)).remove(key@),
{
    table.remove(&(key.qtype, key.qclass, key.name.len, key.name.bytes));
}

/// A cached response: where it lies in the pool, when it expires, and its bytes.
pub struct EntryView {
    pub offset: int,
    pub expires_at: int,
    pub bytes: Seq<u8>,
}

impl EntryView {
    pub open spec fn covers(self, b: int) -> bool {
        self.offset <= b < self.offset + block_size(self.bytes.len())
    }
}

/// What the cache holds. `order` lists the keys, the most recently used first.
pub struct CacheModel {
    pub capacity: int,
    pub order: Seq<KeyView>,
    pub entries: Map<KeyView, EntryView>,
}

/// `order` without `key`.
pub open spec fn without(order: Seq<KeyView>, key: KeyView) -> Seq<KeyView> {
    if order.contains(key) {
        order.remove(order.index_of(key))
    } else {
        order
    }
}

impl CacheModel {
    /// The offsets of the pool that no entry covers.
    pub open spec fn free(self) -> Set<int> {
        Set::new(
            |b: int|
                0 <= b < self.capacity && !(exists|k: KeyView| #[trigger]
                    self.entries.contains_key(k) && self.entries[k].covers(b)),
        )
    }

    /// `order` lists exactly the keys of the entries, each once; every entry lies
    /// in the pool, and no two share a byte of it.
    pub open spec fn wf(self) -> bool {
        &&& self.capacity >= 0
        &&& self.capacity % (GRAIN as int) == 0
        &&& self.order.no_duplicates()
        &&& forall|k: KeyView| #[trigger]
            self.entries.contains_key(k) <==> self.order.contains(k)
        &&& forall|k: KeyView| #[trigger]
            self.entries.contains_key(k) ==> {
                &&& self.entries[k].offset >= 0
                &&& self.entries[k].offset % (GRAIN as int) == 0
                &&& self.entries[k].offset + block_size(self.entries[k].bytes.len())
                    <= self.capacity
            }
        &&& forall|j: KeyView, k: KeyView, b: int|
            #![trigger self.entries[j].covers(b), self.entries[k].covers(b)]
            self.entries.contains_key(j) && self.entries.contains_key(k)
                && self.entries[j].covers(b) && self.entries[k].covers(b) ==> j == k
    }

    /// No run of free bytes is too small for a response.
    pub open spec fn no_slivers(self) -> bool {
        forall|start: int, end: int| #[trigger]
            is_gap(self.free(), start, end) ==> end - start >= MIN_BLOCK
    }

    pub open spec fn remove(self, key: KeyView) -> Self {
        CacheModel {
            capacity: self.capacity,
            order: without(self.order, key),
            entries: self.entries.remove(key),
        }
    }

    /// `key` becomes the most recently used one.
    pub open spec fn touch(self, key: KeyView) -> Self {
        CacheModel {
            capacity: self.capacity,
            order: seq![key] + without(self.order, key),
            entries: self.entries,
        }
    }

    /// Evicts the least recently used entries, one after the other, until a block
    /// of the given size fits or nothing is left.
    pub open spec fn make_room(self, block: int) -> Self
        decreases self.order.len(),
    {
        if self.order.len() == 0 || fits(self.free(), block) {
            self
        } else {
            let last = self.order.last();
            CacheModel {
                capacity: self.capacity,
                order: self.order.drop_last(),
                entries: self.entries.remove(last),
            }.make_room(block)
        }
    }

    /// The lowest offset at which a block of the given size fits.
    pub open spec fn first_fit(self, block: int) -> int {
        choose|a: int| is_first_fit(self.free(), a, block)
    }

    /// Stores a response: an entry under the same key goes first, then as many of
    /// the least recently used ones as needed; if the response does not fit even
    /// then, it is not stored.
    pub open spec fn insert(self, key: KeyView, expires_at: int, bytes: Seq<u8>) -> Self {
        let block = block_size(bytes.len()) as int;
        let roomy = self.remove(key).make_room(block);
        if fits(roomy.free(), block) {
            CacheModel {
                capacity: roomy.capacity,
                order: seq![key] + roomy.order,
                entries: roomy.entries.insert(
                    key,
                    EntryView { offset: roomy.first_fit(block), expires_at, bytes },
                ),
            }
        } else {
            roomy
        }
    }

    pub open spec fn is_live(self, key: KeyView, now: int) -> bool {
        self.entries.contains_key(key) && self.entries[key].expires_at > now
    }

    /// Looking a key up evicts its entry if that has expired, and otherwise makes
    /// it the most recently used one.
    pub open spec fn after_lookup(self, key: KeyView, now: int) -> Self {
        if self.is_live(key, now) {
            self.touch(key)
        } else if self.entries.contains_key(key) {
            self.remove(key)
        } else {
            self
        }
    }

    /// All entries that have expired are gone; the others are as they were.
    pub open spec fn swept(self, now: int) -> Self {
        CacheModel {
            capacity: self.capacity,
            order: self.order.filter(|k: KeyView| self.is_live(k, now)),
            entries: self.entries.restrict(Set::new(|k: KeyView| self.is_live(k, now))),
        }
    }
}

pub(crate) proof fn lemma_without(order: Seq<KeyView>, key: KeyView)
    requires
        order.no_duplicates(),
    ensures
        without(order, key).no_duplicates(),
        forall|k: KeyView| #[trigger]
            without(order, key).contains(k) <==> order.contains(k) && k != key,
{
    let after = without(order, key);
    if order.contains(key) {
        let i = order.index_of(key);
        assert(0 <= i < order.len() && order[i] == key);
        assert forall|k: KeyView| #[trigger] after.contains(k) implies order.contains(k) && k
            != key by {
            let j = after.index_of(k);
            assert(after[j] == order[if j < i {
                j
            } else {
                j + 1
            }]);
        }
        assert forall|k: KeyView| order.contains(k) && k != key implies #[trigger] after.contains(
            k,
        ) by {
            let j = order.index_of(k);
            assert(after[if j < i {
                j
            } else {
                j - 1
            }] == k);
        }
    }
}

pub(crate) proof fn lemma_filter(order: Seq<KeyView>, pred: spec_fn(KeyView) -> bool)
    ensures
        forall|k: KeyView| #[trigger]
            order.filter(pred).contains(k) <==> order.contains(k) && pred(k),
        order.no_duplicates() ==> order.filter(pred).no_duplicates(),
    decreases order.len(),
{
    reveal(Seq::filter);
    if order.len() > 0 {
        let init = order.drop_last();
        lemma_filter(init, pred);
        let kept = init.filter(pred);
        assert forall|k: KeyView| order.contains(k) <==> init.contains(k) || k == order.last() by {
            if order.contains(k) && k != order.last() {
                let i = order.index_of(k);
                assert(init[i] == k);
            }
            if init.contains(k) {
                let i = init.index_of(k);
                assert(order[i] == k);
            }
            assert(order[order.len() - 1] == order.last());
        }
        if pred(order.last()) {
            let after = kept.push(order.last());
            assert forall|k: KeyView| #[trigger] after.contains(k) <==> kept.contains(k) || k
                == order.last() by {
                if kept.contains(k) {
                    let i = kept.index_of(k);
                    assert(after[i] == k);
                }
                assert(after[kept.len() as int] == order.last());
            }
            if order.no_duplicates() {
                assert(init.no_duplicates());
                assert(!init.contains(order.last()));
                assert(!kept.contains(order.last()));
                assert(after.no_duplicates());
            }
        }
    }
}

pub(crate) proof fn lemma_without_last(order: Seq<KeyView>)
    requires
        order.no_duplicates(),
        order.len() > 0,
    ensures
        without(order, order.last()) == order.drop_last(),
{
    let i = order.index_of(order.last());
    assert(order.contains(order.last()));
    assert(i == order.len() - 1);
    assert(order.remove(i) =~= order.drop_last());
}

pub(crate) proof fn lemma_remove(m: CacheModel, key: KeyView)
    requires
        m.wf(),
        m.entries.contains_key(key),
    ensures
        m.remove(key).wf(),
        m.free().disjoint(
            range(
                m.entries[key].offset,
                m.entries[key].offset + block_size(m.entries[key].bytes.len()),
            ),
        ),
        m.remove(key).free() == m.free().union(
            range(
                m.entries[key].offset,
                m.entries[key].offset + block_size(m.entries[key].bytes.len()),
            ),
        ),
{
    lemma_without(m.order, key);
    let after = m.remove(key);
    let e = m.entries[key];
    let block = range(e.offset, e.offset + block_size(e.bytes.len()));
    assert forall|b: int| #[trigger] after.free().contains(b) == m.free().union(block).contains(
        b,
    ) by {
        if after.free().contains(b) && !block.contains(b) {
            assert forall|k: KeyView| #[trigger] m.entries.contains_key(k) implies !m.entries[k].covers(
                b,
            ) by {
                if k != key {
                    assert(after.entries.contains_key(k));
                }
            }
        }
        if block.contains(b) {
            assert(m.entries[key].covers(b));
            assert forall|k: KeyView| #[trigger] after.entries.contains_key(
                k,
            ) implies !after.entries[k].covers(b) by {
                assert(m.entries.contains_key(k));
                if m.entries[k].covers(b) {
                    assert(k == key);
                }
            }
        }
        if m.free().contains(b) {
            assert forall|k: KeyView| #[trigger] after.entries.contains_key(
                k,
            ) implies !after.entries[k].covers(b) by {
                assert(m.entries.contains_key(k));
            }
        }
    }
    assert(after.free() =~= m.free().union(block));
    assert forall|b: int| block.contains(b) implies !#[trigger] m.free().contains(b) by {
        assert(m.entries[key].covers(b));
    }
    assert forall|j: KeyView, k: KeyView, b: int|
        #![trigger after.entries[j].covers(b), after.entries[k].covers(b)]
        after.entries.contains_key(j) && after.entries.contains_key(k) && after.entries[j].covers(b)
            && after.entries[k].covers(b) implies j == k by {
        assert(m.entries[j].covers(b) && m.entries[k].covers(b));
    }
}

pub(crate) proof fn lemma_touch(m: CacheModel, key: KeyView)
    requires
        m.wf(),
        m.entries.contains_key(key),
    ensures
        m.touch(key).wf(),
        m.touch(key).free() == m.free(),
{
    lemma_without(m.order, key);
    let rest = without(m.order, key);
    let order = m.touch(key).order;
    assert(order[0] == key);
    assert forall|i: int| 0 < i < order.len() implies #[trigger] order[i] == rest[i - 1] by {}
    assert(!rest.contains(key));
    assert(order.no_duplicates());
    assert forall|k: KeyView| m.entries.contains_key(k) <==> #[trigger] order.contains(k) by {
        if order.contains(k) && k != key {
            let i = order.index_of(k);
            assert(rest[i - 1] == k);
        }
        if m.order.contains(k) && k != key {
            assert(rest.contains(k));
            let i = rest.index_of(k);
            assert(order[i + 1] == k);
        }
    }
    assert(m.touch(key).free() =~= m.free());
}

/// `m` with one more entry, which becomes the most recently used one.
pub open spec fn placed(m: CacheModel, key: KeyView, entry: EntryView) -> CacheModel {
    CacheModel {
        capacity: m.capacity,
        order: seq![key] + m.order,
        entries: m.entries.insert(key, entry),
    }
}

pub(crate) proof fn lemma_placed(m: CacheModel, key: KeyView, entry: EntryView)
    requires
        m.wf(),
        !m.order.contains(key),
        entry.offset >= 0,
        entry.offset % (GRAIN as int) == 0,
        entry.offset + block_size(entry.bytes.len()) <= m.capacity,
        range(entry.offset, entry.offset + block_size(entry.bytes.len())).subset_of(m.free()),
    ensures
        placed(m, key, entry).wf(),
        placed(m, key, entry).free() == m.free().difference(
            range(entry.offset, entry.offset + block_size(entry.bytes.len())),
        ),
{
    let after = placed(m, key, entry);
    let block = range(entry.offset, entry.offset + block_size(entry.bytes.len()));
    assert(after.order[0] == key);
    assert forall|i: int| 0 < i < after.order.len() implies #[trigger] after.order[i] == m.order[i
        - 1] by {}
    assert(after.order.no_duplicates());
    assert forall|k: KeyView| #[trigger]
        after.entries.contains_key(k) <==> after.order.contains(k) by {
        if after.order.contains(k) && k != key {
            let i = after.order.index_of(k);
            assert(m.order[i - 1] == k);
        }
        if m.order.contains(k) {
            let i = m.order.index_of(k);
            assert(after.order[i + 1] == m.order[i]);
        }
    }
    assert(forall|b: int| #[trigger] entry.covers(b) <==> block.contains(b));
    assert forall|j: KeyView, k: KeyView, b: int|
        #![trigger after.entries[j].covers(b), after.entries[k].covers(b)]
        after.entries.contains_key(j) && after.entries.contains_key(k) && after.entries[j].covers(b)
            && after.entries[k].covers(b) implies j == k by {
        if j != key {
            assert(m.entries.contains_key(j));
            assert(m.entries[j].covers(b));
            assert(!m.free().contains(b));
            assert(!block.contains(b));
        }
        if k != key {
            assert(m.entries.contains_key(k));
            assert(m.entries[k].covers(b));
            assert(!m.free().contains(b));
            assert(!block.contains(b));
        }
    }
    assert forall|b: int| #[trigger] after.free().contains(b) == m.free().difference(
        block,
    ).contains(b) by {
        if after.free().contains(b) {
            assert(after.entries.contains_key(key));
            assert(!entry.covers(b));
            assert forall|k: KeyView| #[trigger] m.entries.contains_key(k) implies !m.entries[k].covers(
                b,
            ) by {
                assert(after.entries.contains_key(k));
                assert(k != key);
            }
        }
        if m.free().difference(block).contains(b) {
            assert forall|k: KeyView| #[trigger] after.entries.contains_key(
                k,
            ) implies !after.entries[k].covers(b) by {
                if k != key {
                    assert(m.entries.contains_key(k));
                }
            }
        }
    }
    assert(after.free() =~= m.free().difference(block));
}

/// The first `i` keys of `order` have been looked at, and those of them that had
/// expired are gone.
spec fn half_swept(m: CacheModel, now: int, i: int) -> CacheModel {
    let order = m.order.take(i).filter(|k: KeyView| m.is_live(k, now)) + m.order.skip(i);
    CacheModel {
        capacity: m.capacity,
        order,
        entries: m.entries.restrict(Set::new(|k: KeyView| order.contains(k))),
    }
}

proof fn lemma_half_swept_none(m: CacheModel, now: int)
    requires
        m.wf(),
    ensures
        half_swept(m, now, 0) == m,
{
    reveal(Seq::filter);
    let h = half_swept(m, now, 0);
    assert(h.order =~= m.order);
    assert(h.entries =~= m.entries);
}

proof fn lemma_half_swept_all(m: CacheModel, now: int)
    requires
        m.wf(),
    ensures
        half_swept(m, now, m.order.len() as int) == m.swept(now),
{
    let h = half_swept(m, now, m.order.len() as int);
    let live = |k: KeyView| m.is_live(k, now);
    assert(m.order.take(m.order.len() as int) =~= m.order);
    assert(h.order =~= m.order.filter(live));
    lemma_filter(m.order, live);
    assert(h.entries =~= m.swept(now).entries);
}

proof fn lemma_half_swept_step(m: CacheModel, now: int, i: int)
    requires
        m.wf(),
        0 <= i < m.order.len(),
        half_swept(m, now, i).wf(),
    ensures
        ({
            let h = half_swept(m, now, i);
            let key = m.order[i];
            &&& h.order.contains(key)
            &&& h.is_live(key, now) == m.is_live(key, now)
            &&& half_swept(m, now, i + 1) == (if h.is_live(key, now) {
                h
            } else {
                h.remove(key)
            })
            &&& forall|link: Option<CacheKey>| #[trigger]
                links_to(link, h.order, h.order.index_of(key) + 1) ==> links_to(
                    link,
                    m.order,
                    i + 1,
                )
        }),
{
    let live = |k: KeyView| m.is_live(k, now);
    let h = half_swept(m, now, i);
    let key = m.order[i];
    let kept = m.order.take(i).filter(live);
    let at = kept.len() as int;
    assert(h.order[at] == key);
    assert(h.order.index_of(key) == at);
    assert(m.order.contains(key));
    if i + 1 < m.order.len() {
        assert(h.order[at + 1] == m.order[i + 1]);
    }
    assert(m.order.take(i + 1).drop_last() =~= m.order.take(i));
    reveal(Seq::filter);
    let next = half_swept(m, now, i + 1);
    if live(key) {
        assert(next.order =~= h.order);
    } else {
        assert(next.order =~= h.order.remove(at));
        lemma_without(h.order, key);
        assert(next.entries =~= h.entries.remove(key));
    }
}

/// `link` leads to the key at position `i` of `order`, or nowhere if there is none.
pub open spec fn links_to(link: Option<CacheKey>, order: Seq<KeyView>, i: int) -> bool {
    if 0 <= i < order.len() {
        link matches Some(k) && k.name.wf() && k@ == order[i]
    } else {
        link is None
    }
}

/// The links of the entries form one simple chain through `order`, from `head` to
/// `tail` and back.
pub open spec fn chain_ok(
    table: Map<KeyView, EntryMeta>,
    order: Seq<KeyView>,
    head: Option<CacheKey>,
    tail: Option<CacheKey>,
) -> bool {
    &&& order.no_duplicates()
    &&& forall|i: int| #![trigger order[i]] 0 <= i < order.len() ==> {
        &&& table.contains_key(order[i])
        &&& links_to(table[order[i]].prev, order, i - 1)
        &&& links_to(table[order[i]].next, order, i + 1)
    }
    &&& links_to(head, order, 0)
    &&& links_to(tail, order, order.len() - 1)
}

/// The keys that are met by following the links towards the least recently used one,
/// from `at` on, for at most `n` steps.
pub open spec fn walk(table: Map<KeyView, EntryMeta>, at: Option<CacheKey>, n: nat) -> Seq<KeyView>
    decreases n,
{
    match at {
        Some(key) => if n == 0 {
            seq![]
        } else {
            seq![key@] + walk(table, table[key@].next, (n - 1) as nat)
        },
        None => seq![],
    }
}

proof fn lemma_walk(
    table: Map<KeyView, EntryMeta>,
    order: Seq<KeyView>,
    head: Option<CacheKey>,
    tail: Option<CacheKey>,
    at: Option<CacheKey>,
    i: int,
    n: nat,
)
    requires
        chain_ok(table, order, head, tail),
        0 <= i <= order.len(),
        links_to(at, order, i),
        n >= order.len() - i,
    ensures
        walk(table, at, n) == order.skip(i),
    decreases n,
{
    if i < order.len() {
        assert(table.contains_key(order[i]));
        lemma_walk(table, order, head, tail, table[order[i]].next, i + 1, (n - 1) as nat);
        assert(seq![order[i]] + order.skip(i + 1) =~= order.skip(i));
    } else {
        assert(order.skip(i) =~= seq![]);
    }
}

/// The two tables differ at most in links.
pub open spec fn same_payload(a: Map<KeyView, EntryMeta>, b: Map<KeyView, EntryMeta>) -> bool {
    &&& a.dom() == b.dom()
    &&& forall|k: KeyView| #[trigger] a.contains_key(k) ==> {
        &&& a[k].offset == b[k].offset
        &&& a[k].len == b[k].len
        &&& a[k].expires_at == b[k].expires_at
    }
}

pub struct CacheState {
    pool: Vec<u8>,
    arena: Arena,
    entries: EntryTable,
    lru_head: Option<CacheKey>,
    lru_tail: Option<CacheKey>,
    order: Ghost<Seq<KeyView>>,
}

impl CacheState {
    spec fn table(&self) -> Map<KeyView, EntryMeta> {
        entries_of(self.entries)
    }

    spec fn chained(&self) -> bool {
        chain_ok(self.table(), self.order@, self.lru_head, self.lru_tail)
    }

    /// The pool's length, which never changes.
    pub closed spec fn pool_len(&self) -> int {
        self.pool@.len() as int
    }

    pub closed spec fn model(&self) -> CacheModel {
        CacheModel {
            capacity: self.arena.capacity(),
            order: self.order@,
            entries: Map::new(
                |k: KeyView| self.table().contains_key(k),
                |k: KeyView|
                    EntryView {
                        offset: self.table()[k].offset as int,
                        expires_at: self.table()[k].expires_at as int,
                        bytes: self.pool@.subrange(
                            self.table()[k].offset as int,
                            self.table()[k].offset + self.table()[k].len,
                        ),
                    },
            ),
        }
    }

    /// All that holds between two operations, but for what the arena knows.
    spec fn sound(&self) -> bool {
        &&& self.chained()
        &&& self.arena.wf()
        &&& self.arena.capacity() <= self.pool@.len()
        &&& forall|k: KeyView| #[trigger] self.table().contains_key(k) ==>
            self.table()[k].offset + self.table()[k].len <= self.pool@.len()
        &&& self.model().wf()
    }

    /// The chain of links runs through exactly the entries, the entries lie apart
    /// from each other in the pool, and the arena knows exactly the rest as free.
    pub closed spec fn wf(&self) -> bool {
        &&& self.sound()
        &&& self.arena.free_set() == self.model().free()
    }

    /// Unlinks `key` from the chain without removing it from the table.
    fn unlink(&mut self, key: CacheKey)
        requires
            old(self).chained(),
            old(self).order@.contains(key@),
            key.name.wf(),
        ensures
            final(self).chained(),
            final(self).order@ == without(old(self).order@, key@),
            !final(self).order@.contains(key@),
            same_payload(old(self).table(), final(self).table()),
            final(self).pool == old(self).pool,
            final(self).arena == old(self).arena,
    {
        let ghost order = self.order@;
        let ghost i = order.index_of(key@);
        let ghost before = self.table();
        proof {
            assert(0 <= i < order.len() && order[i] == key@);
        }
        match get_entry(&self.entries, &key) {
            Some(meta) => {
                match meta.prev {
                    Some(p) => {
                        assert(p@ == order[i - 1]);
                        match get_entry(&self.entries, &p) {
                            Some(e) => {
                                put_entry(
                                    &mut self.entries,
                                    &p,
                                    EntryMeta { next: meta.next, ..e },
                                );
                            },
                            None => {
                                assert(false);
                            },
                        }
                    },
                    None => {
                        self.lru_head = meta.next;
                    },
                }
                let ghost middle = self.table();
                match meta.next {
                    Some(n) => {
                        assert(n@ == order[i + 1]);
                        assert(middle.contains_key(n@));
                        match get_entry(&self.entries, &n) {
                            Some(e) => {
                                put_entry(
                                    &mut self.entries,
                                    &n,
                                    EntryMeta { prev: meta.prev, ..e },
                                );
                            },
                            None => {
                                assert(false);
                            },
                        }
                    },
                    None => {
                        self.lru_tail = meta.prev;
                    },
                }
            },
            None => {
                assert(false);
            },
        }
        self.order = Ghost(order.remove(i));
        proof {
            let after = self.order@;
            assert forall|j: int| 0 <= j < after.len() implies #[trigger] after[j] == (if j < i {
                order[j]
            } else {
                order[j + 1]
            }) by {}
            assert(after.no_duplicates());
            assert forall|j: int| #![trigger after[j]] 0 <= j < after.len() implies {
                &&& self.table().contains_key(after[j])
                &&& links_to(self.table()[after[j]].prev, after, j - 1)
                &&& links_to(self.table()[after[j]].next, after, j + 1)
            } by {
                let o = if j < i {
                    j
                } else {
                    j + 1
                };
                assert(after[j] == order[o]);
                assert(links_to(before[order[o]].prev, order, o - 1));
                assert(links_to(before[order[o]].next, order, o + 1));
                assert(links_to(before[order[i]].prev, order, i - 1));
                assert(links_to(before[order[i]].next, order, i + 1));
            }
            assert(self.table().dom() =~= before.dom());
        }
    }

    /// Makes `key`, which is in the table but not in the chain, the head.
    fn attach_front(&mut self, key: CacheKey)
        requires
            old(self).chained(),
            !old(self).order@.contains(key@),
            old(self).table().contains_key(key@),
            key.name.wf(),
        ensures
            final(self).chained(),
            final(self).order@ == seq![key@] + old(self).order@,
            same_payload(old(self).table(), final(self).table()),
            final(self).pool == old(self).pool,
            final(self).arena == old(self).arena,
    {
        let ghost order = self.order@;
        let ghost before = self.table();
        let old_head: Option<CacheKey> = self.lru_head;
        match get_entry(&self.entries, &key) {
            Some(e) => {
                put_entry(&mut self.entries, &key, EntryMeta { prev: None, next: old_head, ..e });
            },
            None => {
                assert(false);
            },
        }
        match old_head {
            Some(h) => {
                assert(h@ == order[0]);
                assert(self.table().contains_key(h@));
                match get_entry(&self.entries, &h) {
                    Some(e) => {
                        put_entry(&mut self.entries, &h, EntryMeta { prev: Some(key), ..e });
                    },
                    None => {
                        assert(false);
                    },
                }
            },
            None => {},
        }
        self.lru_head = Some(key);
        if self.lru_tail.is_none() {
            self.lru_tail = Some(key);
        }
        self.order = Ghost(seq![key@] + order);
        proof {
            let after = self.order@;
            assert forall|j: int| 0 < j < after.len() implies #[trigger] after[j] == order[j - 1] by {}
            assert(after[0] == key@);
            assert forall|j: int| #![trigger after[j]] 0 <= j < after.len() implies {
                &&& self.table().contains_key(after[j])
                &&& links_to(self.table()[after[j]].prev, after, j - 1)
                &&& links_to(self.table()[after[j]].next, after, j + 1)
            } by {
                if j > 0 {
                    assert(order[j - 1] != key@);
                    assert(links_to(before[order[j - 1]].prev, order, j - 2));
                    assert(links_to(before[order[j - 1]].next, order, j));
                    if j > 1 {
                        assert(order[j - 1] != order[0]);
                    }
                }
            }
            assert(self.table().dom() =~= before.dom());
        }
    }

    /// Two states over the same pool whose tables differ in links alone hold the
    /// same entries.
    proof fn lemma_same_entries(a: &Self, b: &Self)
        requires
            same_payload(a.table(), b.table()),
            a.pool == b.pool,
        ensures
            a.model().entries == b.model().entries,
    {
        assert forall|k: KeyView| #[trigger] a.model().entries.contains_key(k) implies a.model().entries[k]
            == b.model().entries[k] by {
            assert(a.table().contains_key(k));
        }
        assert(a.model().entries =~= b.model().entries);
    }

    proof fn lemma_entry(&self, k: KeyView)
        requires
            self.sound(),
            self.table().contains_key(k),
        ensures
            self.model().entries.contains_key(k),
            self.model().entries[k].bytes.len() == self.table()[k].len,
            self.model().entries[k].offset == self.table()[k].offset,
    {
    }

    /// Makes `key` the most recently used one.
    fn touch(&mut self, key: CacheKey)
        requires
            old(self).wf(),
            old(self).model().entries.contains_key(key@),
            key.name.wf(),
        ensures
            final(self).wf(),
            final(self).model() == old(self).model().touch(key@),
            final(self).pool_len() == old(self).pool_len(),
    {
        proof {
            lemma_touch(self.model(), key@);
        }
        if let Some(head) = self.lru_head {
            if head.qtype == key.qtype && head.qclass == key.qclass && head.name == key.name {
                proof {
                    let order = self.order@;
                    assert(order.index_of(key@) == 0);
                    assert(seq![key@] + without(order, key@) =~= order);
                }
                return;
            }
        }
        self.unlink(key);
        let ghost middle = *self;
        self.attach_front(key);
        proof {
            Self::lemma_same_entries(old(self), &middle);
            Self::lemma_same_entries(&middle, self);
            assert(self.model() == old(self).model().touch(key@));
            assert forall|k: KeyView| #[trigger] self.table().contains_key(k) implies
                self.table()[k].offset + self.table()[k].len <= self.pool@.len() by {
                assert(middle.table().contains_key(k));
                assert(old(self).table().contains_key(k));
            }
        }
    }

    /// Removes the entry of `key` and frees its space in the pool.
    fn evict(&mut self, key: CacheKey)
        requires
            old(self).wf(),
            old(self).model().entries.contains_key(key@),
            key.name.wf(),
        ensures
            final(self).wf(),
            final(self).model() == old(self).model().remove(key@),
            final(self).pool_len() == old(self).pool_len(),
    {
        proof {
            lemma_remove(self.model(), key@);
            self.lemma_entry(key@);
        }
        self.unlink(key);
        let ghost middle = *self;
        proof {
            Self::lemma_same_entries(old(self), &middle);
        }
        if let Some(meta) = get_entry(&self.entries, &key) {
            remove_entry(&mut self.entries, &key);
            self.arena.deallocate(meta.offset, meta.len);
        }
        proof {
            assert(self.model().entries =~= old(self).model().entries.remove(key@));
            assert(self.model() == old(self).model().remove(key@));
            assert forall|k: KeyView| #[trigger] self.table().contains_key(k) implies
                self.table()[k].offset + self.table()[k].len <= self.pool@.len() by {
                assert(middle.table().contains_key(k));
                assert(old(self).table().contains_key(k));
            }
            let order = self.order@;
            assert forall|i: int| #![trigger order[i]] 0 <= i < order.len() implies {
                &&& self.table().contains_key(order[i])
                &&& links_to(self.table()[order[i]].prev, order, i - 1)
                &&& links_to(self.table()[order[i]].next, order, i + 1)
            } by {
                assert(order[i] != key@);
                assert(middle.table().contains_key(order[i]));
            }
        }
    }

    /// Evicts the least recently used entry to make room. Returns false if the
    /// cache is empty.
    fn evict_one_for_space(&mut self) -> (r: bool)
        requires
            old(self).wf(),
        ensures
            final(self).wf(),
            final(self).pool_len() == old(self).pool_len(),
            r == (old(self).model().order.len() > 0),
            r ==> final(self).model() == old(self).model().remove(old(self).model().order.last()),
            !r ==> *final(self) == *old(self),
    {
        match self.lru_tail {
            Some(victim) => {
                proof {
                    assert(victim@ == self.order@.last());
                    assert(self.order@.contains(victim@));
                }
                self.evict(victim);
                true
            },
            None => false,
        }
    }

    /// Copies a response into the block that was allocated for it, and enters it.
    fn place(&mut self, key: CacheKey, offset: usize, expires_at: u64, wire: &Vec<u8>)
        requires
            old(self).sound(),
            !old(self).model().order.contains(key@),
            key.name.wf(),
            offset % GRAIN == 0,
            offset + block_size(wire@.len()) <= old(self).arena.capacity(),
            range(offset as int, offset + block_size(wire@.len())).subset_of(
                old(self).model().free(),
            ),
            old(self).arena.free_set() == old(self).model().free().difference(
                range(offset as int, offset + block_size(wire@.len())),
            ),
        ensures
            final(self).wf(),
            final(self).pool_len() == old(self).pool_len(),
            final(self).model() == placed(
                old(self).model(),
                key@,
                (EntryView {
                    offset: offset as int,
                    expires_at: expires_at as int,
                    bytes: wire@,
                }),
            ),
    {
        let ghost entry = EntryView {
            offset: offset as int,
            expires_at: expires_at as int,
            bytes: wire@,
        };
        proof {
            lemma_placed(self.model(), key@, entry);
        }
        let len: usize = wire.len();
        let pool_len: usize = self.pool.len();
        let mut i: usize = 0;
        while i < len
            invariant
                i <= len,
                pool_len == self.pool@.len(),
                len == wire@.len(),
                offset + len <= self.pool@.len(),
                self.pool@.len() == old(self).pool@.len(),
                self.arena == old(self).arena,
                self.entries == old(self).entries,
                self.lru_head == old(self).lru_head,
                self.lru_tail == old(self).lru_tail,
                self.order == old(self).order,
                forall|j: int|
                    0 <= j < self.pool@.len() && !(offset <= j < offset + i) ==> self.pool@[j]
                        == old(self).pool@[j],
                forall|j: int| 0 <= j < i ==> self.pool@[offset + j] == wire@[j],
            decreases len - i,
        {
            self.pool.set(offset + i, wire[i]);
            i = i + 1;
        }
        put_entry(
            &mut self.entries,
            &key,
            EntryMeta { offset, len, expires_at, prev: None, next: None },
        );
        let ghost middle = *self;
        proof {
            let before = old(self).model();
            assert forall|k: KeyView| #[trigger] before.entries.contains_key(k) implies
                middle.model().entries[k] == before.entries[k] by {
                old(self).lemma_entry(k);
                let e = before.entries[k];
                assert(k != key@);
                assert forall|j: int| 0 <= j < e.bytes.len() implies #[trigger] e.bytes[j]
                    == middle.model().entries[k].bytes[j] by {
                    let b = e.offset + j;
                    assert(e.covers(b));
                    assert(!before.free().contains(b));
                    assert(!range(offset as int, offset + block_size(wire@.len())).contains(b));
                }
                assert(middle.model().entries[k].bytes =~= e.bytes);
            }
            assert(middle.model().entries[key@].bytes =~= wire@);
            assert(middle.model().entries =~= before.entries.insert(key@, entry));
            let order = self.order@;
            assert forall|i: int| #![trigger order[i]] 0 <= i < order.len() implies {
                &&& self.table().contains_key(order[i])
                &&& links_to(self.table()[order[i]].prev, order, i - 1)
                &&& links_to(self.table()[order[i]].next, order, i + 1)
            } by {
                assert(order[i] != key@);
                assert(old(self).table().contains_key(order[i]));
            }
        }
        self.attach_front(key);
        proof {
            Self::lemma_same_entries(&middle, self);
            assert(self.model() == placed(old(self).model(), key@, entry));
            assert forall|k: KeyView| #[trigger] self.table().contains_key(k) implies
                self.table()[k].offset + self.table()[k].len <= self.pool@.len() by {
                assert(middle.table().contains_key(k));
                if k != key@ {
                    assert(old(self).table().contains_key(k));
                }
            }
        }
    }

    /// An empty cache over a pool of `size` bytes.
    fn new(size: usize) -> (r: Self)
        requires
            size <= isize::MAX,
            size == 0 || size >= MIN_POOL_BYTES,
        ensures
            r.wf(),
            r.pool_len() == size,
            r.model().capacity == size / GRAIN * GRAIN,
            r.model().order.len() == 0,
    {
        let r = CacheState {
            pool: vec![0u8; size],
            arena: Arena::new(size),
            entries: new_table(),
            lru_head: None,
            lru_tail: None,
            order: Ghost(Seq::empty()),
        };
        proof {
            let m = r.model();
            assert forall|k: KeyView| !#[trigger] m.entries.contains_key(k) by {
                assert(!r.table().dom().contains(k));
            }
            assert(m.free() =~= range(0, m.capacity));
            assert(r.arena.free_set() =~= m.free());
        }
        r
    }

    /// Looks a key up at the given time.
    fn lookup(&mut self, key: CacheKey, now: u64) -> (r: Option<Vec<u8>>)
        requires
            old(self).wf(),
            key.name.wf(),
        ensures
            final(self).wf(),
            final(self).pool_len() == old(self).pool_len(),
            final(self).model() == old(self).model().after_lookup(key@, now as int),
            match r {
                Some(bytes) => old(self).model().is_live(key@, now as int) && bytes@
                    == old(self).model().entries[key@].bytes,
                None => !old(self).model().is_live(key@, now as int),
            },
    {
        match get_entry(&self.entries, &key) {
            Some(meta) => {
                if meta.expires_at <= now {
                    self.evict(key);
                    return None;
                }
                proof {
                    self.lemma_entry(key@);
                }
                let pool: &[u8] = self.pool.as_slice();
                let pool_len: usize = pool.len();
                assert(meta.offset + meta.len <= pool_len);
                let bytes: Vec<u8> = copied(
                    slice_subrange(pool, meta.offset, meta.offset + meta.len),
                );
                self.touch(key);
                Some(bytes)
            },
            None => None,
        }
    }

    /// Stores a response.
    fn store(&mut self, key: CacheKey, expires_at: u64, wire: &Vec<u8>)
        requires
            old(self).wf(),
            key.name.wf(),
        ensures
            final(self).wf(),
            final(self).pool_len() == old(self).pool_len(),
            final(self).model() == old(self).model().insert(key@, expires_at as int, wire@),
    {
        let ghost start = self.model();
        let ghost block = block_size(wire@.len()) as int;
        if get_entry(&self.entries, &key).is_some() {
            self.evict(key);
        } else {
            assert(start.remove(key@).entries =~= start.entries);
        }
        proof {
            lemma_without(start.order, key@);
        }
        loop
            invariant
                self.wf(),
                key.name.wf(),
                self.pool_len() == old(self).pool_len(),
                start == old(self).model(),
                block == block_size(wire@.len()),
                !self.model().order.contains(key@),
                self.model().make_room(block) == start.remove(key@).make_room(block),
            decreases self.model().order.len(),
        {
            let ghost before = self.model();
            match self.arena.allocate(wire.len()) {
                Some(offset) => {
                    proof {
                        let chosen = before.first_fit(block);
                        assert(is_first_fit(before.free(), offset as int, block));
                        assert(is_first_fit(before.free(), chosen, block));
                        assert(chosen == offset);
                        assert(fits(before.free(), block));
                        assert(before.make_room(block) == before);
                        let end = choose|end: int| #[trigger]
                            is_gap(before.free(), offset as int, end) && has_room(
                                end - offset,
                                block,
                            );
                        assert(forall|b: int|
                            offset <= b < end ==> #[trigger] before.free().contains(b));
                        assert(self.model() == before);
                    }
                    self.place(key, offset, expires_at, wire);
                    return;
                },
                None => {
                    proof {
                        assert(self.model() == before);
                        if before.order.len() > 0 {
                            lemma_without_last(before.order);
                            lemma_without(before.order, before.order.last());
                        }
                    }
                    if !self.evict_one_for_space() {
                        return;
                    }
                },
            }
        }
    }

    /// The stored keys, the most recently used one first: those that the links lead to
    /// from the head on.
    fn keys(&self) -> (r: Vec<CacheKey>)
        requires
            self.wf(),
        ensures
            r@.map_values(|k: CacheKey| k@) == self.model().order,
    {
        let ghost order = self.order@;
        let mut r: Vec<CacheKey> = Vec::new();
        let mut cursor: Option<CacheKey> = self.lru_head;
        assert(r@.map_values(|k: CacheKey| k@) =~= order.take(0));
        while cursor.is_some()
            invariant
                self.wf(),
                order == self.order@,
                r@.len() <= order.len(),
                links_to(cursor, order, r@.len() as int),
                r@.map_values(|k: CacheKey| k@) == order.take(r@.len() as int),
            decreases order.len() - r@.len(),
        {
            let key: CacheKey = cursor.unwrap();
            let ghost before = r@;
            assert(self.table().contains_key(order[before.len() as int]));
            match get_entry(&self.entries, &key) {
                Some(meta) => {
                    cursor = meta.next;
                },
                None => {
                    cursor = None;
                },
            }
            r.push(key);
            assert(r@.map_values(|k: CacheKey| k@) =~= order.take(r@.len() as int));
        }
        assert(order.take(r@.len() as int) =~= order);
        r
    }

    /// Evicts the entry of `key` if it has expired by `now`. Returns the key that
    /// followed it in the chain.
    fn sweep_one(&mut self, key: CacheKey, now: u64) -> (r: Option<CacheKey>)
        requires
            old(self).wf(),
            old(self).model().order.contains(key@),
            key.name.wf(),
        ensures
            final(self).wf(),
            final(self).pool_len() == old(self).pool_len(),
            final(self).model() == (if old(self).model().is_live(key@, now as int) {
                old(self).model()
            } else {
                old(self).model().remove(key@)
            }),
            links_to(r, old(self).model().order, old(self).model().order.index_of(key@) + 1),
    {
        match get_entry(&self.entries, &key) {
            Some(meta) => {
                assert(self.order@[self.order@.index_of(key@)] == key@);
                if meta.expires_at <= now {
                    self.evict(key);
                }
                meta.next
            },
            None => {
                assert(self.model().entries.contains_key(key@));
                None
            },
        }
    }

    /// Evicts every entry that has expired by `now`.
    fn sweep(&mut self, now: u64)
        requires
            old(self).wf(),
        ensures
            final(self).wf(),
            final(self).pool_len() == old(self).pool_len(),
            final(self).model() == old(self).model().swept(now as int),
    {
        let ghost start = self.model();
        let ghost mut i: int = 0;
        let mut cursor: Option<CacheKey> = self.lru_head;
        proof {
            lemma_half_swept_none(start, now as int);
        }
        while cursor.is_some()
            invariant
                self.wf(),
                self.pool_len() == old(self).pool_len(),
                start == old(self).model(),
                start.wf(),
                0 <= i <= start.order.len(),
                links_to(cursor, start.order, i),
                self.model() == half_swept(start, now as int, i),
            decreases start.order.len() - i,
        {
            let key: CacheKey = cursor.unwrap();
            proof {
                lemma_half_swept_step(start, now as int, i);
            }
            cursor = self.sweep_one(key, now);
            proof {
                i = i + 1;
            }
        }
        proof {
            lemma_half_swept_all(start, now as int);
        }
    }
}

/// The key under which the responses for a question are stored.
pub open spec fn key_of(name: Seq<char>, record_type: u16, dns_class: u16) -> KeyView {
    (record_type, dns_class, encode_utf8(name))
}

/// Only names of up to `MAX_NAME_LEN` bytes can be stored.
pub open spec fn storable(name: Seq<char>) -> bool {
    encode_utf8(name).len() <= MAX_NAME_LEN
}

pub struct ResponseCache {
    enabled: bool,
    state: CacheState,
}

impl ResponseCache {
    pub closed spec fn wf(&self) -> bool {
        self.state.wf()
    }

    pub closed spec fn enabled(&self) -> bool {
        self.enabled
    }

    pub closed spec fn model(&self) -> CacheModel {
        self.state.model()
    }

    /// The bytes that were set aside for responses, once and for all.
    pub closed spec fn budget(&self) -> int {
        self.state.pool_len()
    }

    /// The table of entries, with the links between them.
    pub closed spec fn links(&self) -> Map<KeyView, EntryMeta> {
        self.state.table()
    }

    /// Where the links begin: at the most recently used entry.
    pub closed spec fn head(&self) -> Option<CacheKey> {
        self.state.lru_head
    }

    /// Where the links end: at the least recently used entry.
    pub closed spec fn tail(&self) -> Option<CacheKey> {
        self.state.lru_tail
    }

    /// The links are one simple chain: from the head they reach every stored entry
    /// exactly once, in the order of use, and end there; the head has none before it
    /// and the tail none behind it, and there is neither exactly if the cache is empty.
    pub proof fn law_links_are_one_simple_chain(&self, n: nat)
        requires
            self.wf(),
            n >= self.model().order.len(),
        ensures
            walk(self.links(), self.head(), n) == self.model().order,
            self.model().order.no_duplicates(),
            self.links().dom() == self.model().entries.dom(),
            forall|k: KeyView| #[trigger]
                self.links().contains_key(k) <==> self.model().order.contains(k),
            self.head() is None <==> self.model().order.len() == 0,
            self.tail() is None <==> self.model().order.len() == 0,
            self.head() matches Some(h) ==> h@ == self.model().order[0] && self.links()[h@].prev
                is None,
            self.tail() matches Some(t) ==> t@ == self.model().order.last()
                && self.links()[t@].next is None,
            chain_ok(self.links(), self.model().order, self.head(), self.tail()),
    {
        let order = self.model().order;
        let table = self.links();
        lemma_walk(table, order, self.head(), self.tail(), self.head(), 0, n);
        assert(order.skip(0) =~= order);
        assert(table.dom() =~= self.model().entries.dom());
        if order.len() > 0 {
            assert(table.contains_key(order[0]));
            assert(table.contains_key(order[order.len() - 1]));
        }
        assert forall|k: KeyView| #[trigger] table.contains_key(k) <==> order.contains(k) by {
            assert(self.model().entries.contains_key(k) <==> table.contains_key(k));
        }
    }

    /// What is kept between two calls is well-formed.
    pub proof fn lemma_wf(&self)
        requires
            self.wf(),
        ensures
            self.model().wf(),
            self.model().no_slivers(),
            self.model().capacity <= self.budget(),
    {
        self.state.arena.lemma_gaps();
    }

    /// A cache that was not asked for, or that has no room for anything useful,
    /// stores nothing.
    pub fn new(enabled: bool, max_size_bytes: u64) -> (r: Self)
        requires
            enabled ==> max_size_bytes <= isize::MAX,
        ensures
            r.wf(),
            r.enabled() == (enabled && max_size_bytes >= MIN_POOL_BYTES),
            r.budget() == (if r.enabled() {
                max_size_bytes as int
            } else {
                0
            }),
            r.model().capacity == r.budget() / (GRAIN as int) * GRAIN,
            r.model().order.len() == 0,
            r.model().entries.dom() == Set::<KeyView>::empty(),
    {
        let enabled = enabled && max_size_bytes >= MIN_POOL_BYTES;
        let size: usize = if enabled {
            max_size_bytes as usize
        } else {
            0
        };
        let r = ResponseCache { enabled, state: CacheState::new(size) };
        assert(r.model().entries.dom() =~= Set::<KeyView>::empty());
        r
    }

    /// Evicts every entry that has expired by `now`.
    pub fn evict_expired(&mut self, now: u64)
        requires
            old(self).wf(),
        ensures
            final(self).wf(),
            final(self).enabled() == old(self).enabled(),
            final(self).budget() == old(self).budget(),
            final(self).model() == (if old(self).enabled() {
                old(self).model().swept(now as int)
            } else {
                old(self).model()
            }),
    {
        if !self.enabled {
            return;
        }
        self.state.sweep(now);
    }

    /// The bytes cached for the question, if there are any that have not expired
    /// by `now`. It is for the caller to make the message's id match the request.
    pub fn get(&mut self, name: &str, record_type: u16, dns_class: u16, now: u64) -> (r: Option<
        Vec<u8>,
    >)
        requires
            old(self).wf(),
        ensures
            final(self).wf(),
            final(self).enabled() == old(self).enabled(),
            final(self).budget() == old(self).budget(),
            final(self).model() == (if old(self).enabled() && storable(name@) {
                old(self).model().after_lookup(key_of(name@, record_type, dns_class), now as int)
            } else {
                old(self).model()
            }),
            ({
                let key = key_of(name@, record_type, dns_class);
                let found = old(self).enabled() && storable(name@) && old(self).model().is_live(
                    key,
                    now as int,
                );
                match r {
                    Some(bytes) => found && bytes@ == old(self).model().entries[key].bytes,
                    None => !found,
                }
            }),
    {
        if !self.enabled {
            return None;
        }
        match InlineName::new(name) {
            Some(inline) => self.state.lookup(
                CacheKey { qtype: record_type, qclass: dns_class, name: inline },
                now,
            ),
            None => None,
        }
    }

    /// Stores a response's bytes for `ttl` seconds from `now`. A time to live of
    /// zero means "don't cache": callers should skip the call.
    pub fn insert(
        &mut self,
        name: &str,
        record_type: u16,
        dns_class: u16,
        ttl: u32,
        wire: &Vec<u8>,
        now: u64,
    )
        requires
            old(self).wf(),
            now + ttl * NANOS_PER_SECOND <= u64::MAX,
        ensures
            final(self).wf(),
            final(self).enabled() == old(self).enabled(),
            final(self).budget() == old(self).budget(),
            final(self).model() == (if old(self).enabled() && storable(name@) {
                old(self).model().insert(
                    key_of(name@, record_type, dns_class),
                    now + ttl * NANOS_PER_SECOND,
                    wire@,
                )
            } else {
                old(self).model()
            }),
    {
        if !self.enabled {
            return;
        }
        if let Some(inline) = InlineName::new(name) {
            let expires_at: u64 = now + ttl as u64 * NANOS_PER_SECOND;
            self.state.store(
                CacheKey { qtype: record_type, qclass: dns_class, name: inline },
                expires_at,
                wire,
            );
        }
    }

    /// The stored keys, the most recently used one first.
    pub fn keys_by_use(&self) -> (r: Vec<CacheKey>)
        requires
            self.wf(),
        ensures
            r@.map_values(|k: CacheKey| k@) == self.model().order,
    {
        self.state.keys()
    }

    /// The bytes set aside for responses.
    pub fn pool_len(&self) -> (r: usize)
        ensures
            r == self.budget(),
    {
        self.state.pool.len()
    }

    /// Whether an entry for the question is stored, expired or not.
    pub fn contains(&self, name: &str, record_type: u16, dns_class: u16) -> (r: bool)
        requires
            self.wf(),
        ensures
            r == (storable(name@) && self.model().entries.contains_key(
                key_of(name@, record_type, dns_class),
            )),
    {
        match InlineName::new(name) {
            Some(inline) => get_entry(
                &self.state.entries,
                &CacheKey { qtype: record_type, qclass: dns_class, name: inline },
            ).is_some(),
            None => false,
        }
    }
}

} // verus!
