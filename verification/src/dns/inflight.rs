//! Coalesces concurrent identical cache-miss queries into a single upstream fetch.
//!
//! Each fetch that is under way has a cell, in which its result will be. Whoever asks
//! first brings the cell and runs the fetch; the rest get the same cell and wait for
//! the result.

use vstd::prelude::*;
use vstd::utf8::encode_utf8;

use crate::dns::cache::{key_of, storable, CacheKey, KeyView};
use crate::dns::inline_name::InlineName;
use crate::dns::use_laws::law_different_questions_have_different_keys;

verus! {

struct Flight<C> {
    key: CacheKey,
    cell: C,
}

/// The cell of the first flight with the given key.
spec fn cell_in<C>(flights: Seq<Flight<C>>, key: KeyView) -> Option<C>
    decreases flights.len(),
{
    if flights.len() == 0 {
        None
    } else if flights[0].key@ == key {
        Some(flights[0].cell)
    } else {
        cell_in(flights.drop_first(), key)
    }
}

/// What to do about a cache miss.
#[derive(Debug, Clone, Copy, PartialEq, Eq, Structural)]
pub enum Joined {
    /// Nobody is fetching this: run the fetch, and share its result in the cell.
    Lead,
    /// Somebody is fetching this: wait for the result in the cell.
    Follow,
    /// This cannot be shared: run the fetch for this query alone.
    Alone,
}

/// What is asked for: a name, a record type and a class.
pub struct Asked {
    pub name: Seq<char>,
    pub record_type: u16,
    pub dns_class: u16,
}

impl Asked {
    pub open spec fn key(self) -> KeyView {
        key_of(self.name, self.record_type, self.dns_class)
    }

    /// A name that is too long to key on cannot be shared.
    pub open spec fn shareable(self) -> bool {
        storable(self.name)
    }
}

/// What to do about a cache miss, by the cells of the fetches that are under way.
pub open spec fn joined<C>(cells: Map<KeyView, C>, asked: Asked) -> Joined {
    if !asked.shareable() {
        Joined::Alone
    } else if cells.contains_key(asked.key()) {
        Joined::Follow
    } else {
        Joined::Lead
    }
}

/// The fetches that are under way once somebody has asked, and has brought a cell in
/// case nobody is fetching this.
pub open spec fn after_join<C>(cells: Map<KeyView, C>, asked: Asked, fresh: C) -> Map<KeyView, C> {
    if joined(cells, asked) == Joined::Lead {
        cells.insert(asked.key(), fresh)
    } else {
        cells
    }
}

/// The fetches that are under way once one is done.
pub open spec fn after_remove<C>(cells: Map<KeyView, C>, asked: Asked) -> Map<KeyView, C> {
    if asked.shareable() {
        cells.remove(asked.key())
    } else {
        cells
    }
}

/// The fetches that are under way.
pub struct InFlightRegistry<C> {
    flights: Vec<Flight<C>>,
}

impl<C> View for InFlightRegistry<C> {
    type V = Map<KeyView, C>;

    /// The cells of the fetches that are under way.
    closed spec fn view(&self) -> Map<KeyView, C> {
        Map::new(|k: KeyView| self.found(k) is Some, |k: KeyView| self.found(k)->0)
    }
}

impl<C> InFlightRegistry<C> {
    spec fn found(&self, key: KeyView) -> Option<C> {
        cell_in(self.flights@, key)
    }

    /// No two fetches that are under way are for the same.
    pub closed spec fn wf(&self) -> bool {
        forall|i: int| #![trigger self.flights@[i]]
            0 <= i < self.flights@.len() ==> {
                &&& self.flights@[i].key.name.wf()
                &&& forall|j: int| #![trigger self.flights@[j]]
                    0 <= j < i ==> self.flights@[j].key@ != self.flights@[i].key@
            }
    }

    pub fn new() -> (r: Self)
        ensures
            r.wf(),
            r@ == Map::<KeyView, C>::empty(),
    {
        let r = InFlightRegistry { flights: Vec::new() };
        assert(r@ =~= Map::<KeyView, C>::empty());
        r
    }

    /// The position of the flight with the given key.
    fn position(&self, key: &CacheKey) -> (r: Option<usize>)
        requires
            self.wf(),
        ensures
            match r {
                Some(i) => {
                    &&& i < self.flights@.len()
                    &&& self.flights@[i as int].key@ == key@
                    &&& self.found(key@) == Some(self.flights@[i as int].cell)
                },
                None => {
                    &&& self.found(key@) is None
                    &&& forall|i: int|
                        0 <= i < self.flights@.len() ==> (#[trigger] self.flights@[i]).key@ != key@
                },
            },
    {
        let n: usize = self.flights.len();
        let mut i: usize = 0;
        assert(self.flights@.skip(0) =~= self.flights@);
        while i < n
            invariant
                i <= n,
                n == self.flights@.len(),
                cell_in(self.flights@, key@) == cell_in(self.flights@.skip(i as int), key@),
                forall|j: int| 0 <= j < i ==> (#[trigger] self.flights@[j]).key@ != key@,
            decreases n - i,
        {
            let ghost rest = self.flights@.skip(i as int);
            assert(rest[0] == self.flights@[i as int]);
            assert(rest.drop_first() =~= self.flights@.skip(i + 1));
            let other: &Flight<C> = &self.flights[i];
            if other.key.qtype == key.qtype && other.key.qclass == key.qclass && other.key.name
                == key.name {
                return Some(i);
            }
            i = i + 1;
        }
        None
    }

    /// Registers the cell for a key, unless a fetch for it is under way. Says whether
    /// it did.
    fn cell_for(&mut self, key: CacheKey, fresh: C) -> (r: bool)
        requires
            old(self).wf(),
            key.name.wf(),
        ensures
            final(self).wf(),
            r == !old(self)@.contains_key(key@),
            final(self)@ == (if r {
                old(self)@.insert(key@, fresh)
            } else {
                old(self)@
            }),
    {
        match self.position(&key) {
            Some(_) => false,
            None => {
                self.flights.push(Flight { key, cell: fresh });
                proof {
                    assert forall|k: KeyView| #[trigger]
                        self.found(k) == (if k == key@ {
                            Some(fresh)
                        } else {
                            old(self).found(k)
                        }) by {
                        lemma_cell_push(old(self).flights@, Flight { key, cell: fresh }, k);
                    }
                    assert(self@ =~= old(self)@.insert(key@, fresh));
                }
                true
            },
        }
    }

    /// Registers a cache miss. `fresh` becomes the cell of the fetch if nobody is
    /// fetching this yet. A name that is too long to key on cannot be shared.
    pub fn dedup(&mut self, name: &str, record_type: u16, dns_class: u16, fresh: C) -> (r: Joined)
        requires
            old(self).wf(),
        ensures
            final(self).wf(),
            r == joined(old(self)@, (Asked { name: name@, record_type, dns_class })),
            final(self)@ == after_join(
                old(self)@,
                (Asked { name: name@, record_type, dns_class }),
                fresh,
            ),
    {
        let ghost asked = Asked { name: name@, record_type, dns_class };
        match InlineName::new(name) {
            Some(inline) => {
                let key = CacheKey { qtype: record_type, qclass: dns_class, name: inline };
                assert(key@ == asked.key());
                if self.cell_for(key, fresh) {
                    Joined::Lead
                } else {
                    Joined::Follow
                }
            },
            None => Joined::Alone,
        }
    }

    /// The cell of the fetch that is under way for a question.
    pub fn cell(&self, name: &str, record_type: u16, dns_class: u16) -> (r: Option<&C>)
        requires
            self.wf(),
        ensures
            ({
                let asked = Asked { name: name@, record_type, dns_class };
                match r {
                    Some(c) => asked.shareable() && self@.contains_key(asked.key()) && *c
                        == self@[asked.key()],
                    None => !asked.shareable() || !self@.contains_key(asked.key()),
                }
            }),
    {
        let ghost asked = Asked { name: name@, record_type, dns_class };
        match InlineName::new(name) {
            Some(inline) => {
                let key = CacheKey { qtype: record_type, qclass: dns_class, name: inline };
                assert(key@ == asked.key());
                match self.position(&key) {
                    Some(i) => Some(&self.flights[i].cell),
                    None => None,
                }
            },
            None => None,
        }
    }

    /// The fetch for a key is done: there is nothing left to share.
    pub fn remove(&mut self, name: &str, record_type: u16, dns_class: u16)
        requires
            old(self).wf(),
        ensures
            final(self).wf(),
            final(self)@ == after_remove(
                old(self)@,
                (Asked { name: name@, record_type, dns_class }),
            ),
    {
        let ghost asked = Asked { name: name@, record_type, dns_class };
        if let Some(inline) = InlineName::new(name) {
            let key = CacheKey { qtype: record_type, qclass: dns_class, name: inline };
            assert(key@ == asked.key());
            if let Some(i) = self.position(&key) {
                self.flights.remove(i);
                proof {
                    let before = old(self).flights@;
                    let after = self.flights@;
                    assert forall|j: int| 0 <= j < after.len() implies #[trigger] after[j] == (if j
                        < i {
                        before[j]
                    } else {
                        before[j + 1]
                    }) by {}
                    assert forall|k: KeyView| #[trigger]
                        self.found(k) == (if k == key@ {
                            None
                        } else {
                            old(self).found(k)
                        }) by {
                        if k == key@ {
                            lemma_cell_absent(after, k);
                        } else {
                            lemma_cell_remove(before, i as int, k);
                        }
                    }
                }
            }
            assert(self@ =~= after_remove(old(self)@, asked));
        }
    }
}

proof fn lemma_cell_push<C>(flights: Seq<Flight<C>>, more: Flight<C>, key: KeyView)
    ensures
        cell_in(flights.push(more), key) == (match cell_in(flights, key) {
            Some(cell) => Some(cell),
            None => if more.key@ == key {
                Some(more.cell)
            } else {
                None
            },
        }),
    decreases flights.len(),
{
    reveal_with_fuel(cell_in, 2);
    if flights.len() > 0 {
        assert(flights.push(more).drop_first() =~= flights.drop_first().push(more));
        lemma_cell_push(flights.drop_first(), more, key);
    } else {
        assert(flights.push(more).drop_first() =~= flights);
    }
}

proof fn lemma_cell_remove<C>(flights: Seq<Flight<C>>, i: int, key: KeyView)
    requires
        0 <= i < flights.len(),
        flights[i].key@ != key,
    ensures
        cell_in(flights.remove(i), key) == cell_in(flights, key),
    decreases flights.len(),
{
    if i == 0 {
        assert(flights.remove(0) =~= flights.drop_first());
    } else {
        assert(flights.remove(i).drop_first() =~= flights.drop_first().remove(i - 1));
        assert(flights.remove(i)[0] == flights[0]);
        lemma_cell_remove(flights.drop_first(), i - 1, key);
    }
}

proof fn lemma_cell_absent<C>(flights: Seq<Flight<C>>, key: KeyView)
    requires
        forall|i: int| 0 <= i < flights.len() ==> (#[trigger] flights[i]).key@ != key,
    ensures
        cell_in(flights, key) is None,
    decreases flights.len(),
{
    if flights.len() > 0 {
        assert forall|i: int| 0 <= i < flights.drop_first().len() implies (
        #[trigger] flights.drop_first()[i]).key@ != key by {
            assert(flights[i + 1].key@ != key);
        }
        lemma_cell_absent(flights.drop_first(), key);
    }
}

/// A call on the registry.
pub enum Call<C> {
    Join(Asked, C),
    Remove(Asked),
}

/// The fetches that are under way after a sequence of calls.
pub open spec fn run<C>(cells: Map<KeyView, C>, calls: Seq<Call<C>>) -> Map<KeyView, C>
    decreases calls.len(),
{
    if calls.len() == 0 {
        cells
    } else {
        let before = run(cells, calls.drop_last());
        match calls.last() {
            Call::Join(asked, fresh) => after_join(before, asked, fresh),
            Call::Remove(asked) => after_remove(before, asked),
        }
    }
}

/// None of the calls says that the fetch of what is asked for is done.
pub open spec fn none_removes<C>(calls: Seq<Call<C>>, asked: Asked) -> bool {
    forall|i: int|
        0 <= i < calls.len() ==> match #[trigger] calls[i] {
            Call::Join(_, _) => true,
            Call::Remove(other) => !other.shareable() || other.key() != asked.key(),
        }
}

/// Whoever asks first leads, with the cell that they brought. From then on, and
/// whatever else is asked for and done meanwhile, everybody who asks for the same
/// follows, with that very cell, until the fetch is removed. Whoever asks after that
/// leads again: nothing is kept.
pub proof fn law_everybody_follows_until_the_removal<C>(
    cells: Map<KeyView, C>,
    asked: Asked,
    fresh: C,
    calls: Seq<Call<C>>,
)
    requires
        asked.shareable(),
        !cells.contains_key(asked.key()),
        none_removes(calls, asked),
    ensures
        joined(cells, asked) == Joined::Lead,
        ({
            let now = run(after_join(cells, asked, fresh), calls);
            &&& joined(now, asked) == Joined::Follow
            &&& now[asked.key()] == fresh
            &&& joined(after_remove(now, asked), asked) == Joined::Lead
        }),
    decreases calls.len(),
{
    if calls.len() > 0 {
        let init = calls.drop_last();
        assert(none_removes(init, asked)) by {
            assert forall|i: int| 0 <= i < init.len() implies match #[trigger] init[i] {
                Call::Join(_, _) => true,
                Call::Remove(o) => !o.shareable() || o.key() != asked.key(),
            } by {
                assert(calls[i] == init[i]);
            }
        }
        law_everybody_follows_until_the_removal(cells, asked, fresh, init);
        assert(calls[calls.len() - 1] == calls.last());
    }
}

/// Who asks for another name, type or class has nothing to do with a fetch: neither
/// asking nor being done changes the other's cell.
pub proof fn law_different_questions_never_share<C>(
    cells: Map<KeyView, C>,
    asked: Asked,
    fresh: C,
    other: Asked,
)
    requires
        asked.name != other.name || asked.record_type != other.record_type || asked.dns_class
            != other.dns_class,
    ensures
        asked.key() != other.key(),
        joined(after_join(cells, asked, fresh), other) == joined(cells, other),
        joined(after_remove(cells, asked), other) == joined(cells, other),
        cells.contains_key(other.key()) ==> after_join(cells, asked, fresh)[other.key()]
            == cells[other.key()] && after_remove(cells, asked)[other.key()] == cells[other.key()],
{
    law_different_questions_have_different_keys(
        asked.name,
        asked.record_type,
        asked.dns_class,
        other.name,
        other.record_type,
        other.dns_class,
    );
}

/// A fetch is shared for every name of up to 255 bytes, all that a DNS name can have.
pub proof fn law_names_that_share_a_fetch(asked: Asked)
    ensures
        asked.shareable() <==> encode_utf8(asked.name).len() <= 255,
{
}

/// Who asks first runs the fetch, with the cell that was brought along, and whoever asks
/// meanwhile follows with that same cell. When it is done, its cell is gone, and who asks
/// then runs another one.
pub proof fn law_the_first_one_leads<C>(cells: Map<KeyView, C>, asked: Asked, fresh: C, later: C)
    requires
        encode_utf8(asked.name).len() <= 255,
    ensures
        !cells.contains_key(asked.key()) ==> {
            &&& joined(cells, asked) == Joined::Lead
            &&& after_join(cells, asked, fresh) == cells.insert(asked.key(), fresh)
        },
        cells.contains_key(asked.key()) ==> {
            &&& joined(cells, asked) == Joined::Follow
            &&& after_join(cells, asked, fresh) == cells
        },
        joined(after_join(cells, asked, fresh), asked) == Joined::Follow,
        after_join(after_join(cells, asked, fresh), asked, later) == after_join(
            cells,
            asked,
            fresh,
        ),
        after_remove(cells, asked) == cells.remove(asked.key()),
        joined(after_remove(cells, asked), asked) == Joined::Lead,
{
}

/// The fetches that are under way after `n` calls have asked for the same, the `i`th
/// of which brought the cell `fresh(i)`.
pub open spec fn after_joins<C>(
    cells: Map<KeyView, C>,
    asked: Asked,
    fresh: spec_fn(nat) -> C,
    n: nat,
) -> Map<KeyView, C>
    decreases n,
{
    if n == 0 {
        cells
    } else {
        after_join(after_joins(cells, asked, fresh, (n - 1) as nat), asked, fresh((n - 1) as nat))
    }
}

/// How many of `n` calls that ask for the same run a fetch.
pub open spec fn fetches<C>(
    cells: Map<KeyView, C>,
    asked: Asked,
    fresh: spec_fn(nat) -> C,
    n: nat,
) -> nat
    decreases n,
{
    if n == 0 {
        0
    } else {
        let before = after_joins(cells, asked, fresh, (n - 1) as nat);
        fetches(cells, asked, fresh, (n - 1) as nat) + (if joined(before, asked)
            == Joined::Follow {
            0nat
        } else {
            1
        })
    }
}

/// However many calls ask for the same at once, exactly one of them runs a fetch, the
/// first; and all of them have the same cell, the first one's, out of which all get
/// the bytes of that fetch.
pub proof fn law_identical_queries_are_fetched_once<C>(
    cells: Map<KeyView, C>,
    asked: Asked,
    fresh: spec_fn(nat) -> C,
    n: nat,
    i: nat,
    bytes_in: spec_fn(C) -> Seq<u8>,
)
    requires
        asked.shareable(),
        !cells.contains_key(asked.key()),
        i < n,
    ensures
        fetches(cells, asked, fresh, n) == 1,
        joined(after_joins(cells, asked, fresh, i), asked) == (if i == 0 {
            Joined::Lead
        } else {
            Joined::Follow
        }),
        after_joins(cells, asked, fresh, i + 1)[asked.key()] == fresh(0),
        bytes_in(after_joins(cells, asked, fresh, i + 1)[asked.key()]) == bytes_in(fresh(0)),
    decreases n,
{
    reveal_with_fuel(fetches, 2);
    reveal_with_fuel(after_joins, 2);
    lemma_after_joins(cells, asked, fresh, i);
    lemma_after_joins(cells, asked, fresh, i + 1);
    if n > 1 {
        lemma_after_joins(cells, asked, fresh, (n - 1) as nat);
        law_identical_queries_are_fetched_once(
            cells,
            asked,
            fresh,
            (n - 1) as nat,
            0,
            bytes_in,
        );
    }
}

proof fn lemma_after_joins<C>(
    cells: Map<KeyView, C>,
    asked: Asked,
    fresh: spec_fn(nat) -> C,
    i: nat,
)
    requires
        asked.shareable(),
        !cells.contains_key(asked.key()),
    ensures
        after_joins(cells, asked, fresh, i) == (if i == 0 {
            cells
        } else {
            cells.insert(asked.key(), fresh(0))
        }),
    decreases i,
{
    if i > 0 {
        lemma_after_joins(cells, asked, fresh, (i - 1) as nat);
    }
}

/// Calls that ask for a name that is too long to share each run a fetch of their own.
pub proof fn law_long_names_are_fetched_apart<C>(
    cells: Map<KeyView, C>,
    asked: Asked,
    fresh: spec_fn(nat) -> C,
    n: nat,
)
    requires
        !asked.shareable(),
    ensures
        fetches(cells, asked, fresh, n) == n,
        after_joins(cells, asked, fresh, n) == cells,
        joined(cells, asked) == Joined::Alone,
    decreases n,
{
    if n > 0 {
        law_long_names_are_fetched_apart(cells, asked, fresh, (n - 1) as nat);
    }
}

} // verus!
