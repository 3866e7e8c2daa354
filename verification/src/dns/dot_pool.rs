//! Which of an upstream's DNS-over-TLS connections a query goes over.

use vstd::prelude::*;

use crate::dns::dot::{
    DotConnection, DotFailure, FailureView, MAX_DOT_CONNECTIONS, MAX_DOT_IN_FLIGHT,
};

verus! {

/// A connection and the number by which it is known.
pub struct Pooled {
    pub number: u64,
    pub connection: DotConnection,
}

/// How a query gets a connection.
#[derive(Debug, Clone, Copy, PartialEq, Eq, Structural)]
pub enum Acquired {
    /// It has a reserved place on the connection with this number.
    Use(u64),
    /// It dials a new connection, which nobody else does meanwhile.
    Dial,
    /// It waits for a place on a connection, or for a connection that is being
    /// dialed, and asks again.
    Wait,
}

/// The connections to one upstream.
pub struct DotPool {
    pub connections: Vec<Pooled>,
    pub dialing: bool,
    pub issued: u64,
}

/// The connections that can still be used, in order.
pub open spec fn alive_only(connections: Seq<Pooled>) -> Seq<Pooled>
    decreases connections.len(),
{
    if connections.len() == 0 {
        seq![]
    } else {
        let init = alive_only(connections.drop_last());
        if connections.last().connection.alive() {
            init.push(connections.last())
        } else {
            init
        }
    }
}

/// The position of the first connection that has a place left, or the number of
/// connections if none has.
pub open spec fn first_free(connections: Seq<Pooled>) -> int
    decreases connections.len(),
{
    if connections.len() == 0 {
        0
    } else if connections[0].connection.reserved() < MAX_DOT_IN_FLIGHT {
        0
    } else {
        1 + first_free(connections.drop_first())
    }
}

/// A connection with one more place reserved.
pub open spec fn reserved_one(before: Pooled, after: Pooled) -> bool {
    &&& after.number == before.number
    &&& after.connection.reserved() == before.connection.reserved() + 1
    &&& after.connection.pending() == before.connection.pending()
    &&& after.connection.alive() == before.connection.alive()
    &&& after.connection.last_used() == before.connection.last_used()
}

pub(crate) proof fn lemma_first_free(connections: Seq<Pooled>)
    ensures
        0 <= first_free(connections) <= connections.len(),
        forall|i: int| 0 <= i < first_free(connections) ==> (
        #[trigger] connections[i]).connection.reserved() >= MAX_DOT_IN_FLIGHT,
        first_free(connections) < connections.len() ==> connections[first_free(
            connections,
        )].connection.reserved() < MAX_DOT_IN_FLIGHT,
    decreases connections.len(),
{
    if connections.len() > 0 && connections[0].connection.reserved() >= MAX_DOT_IN_FLIGHT {
        let rest = connections.drop_first();
        lemma_first_free(rest);
        assert forall|i: int| 0 <= i < first_free(connections) implies (
        #[trigger] connections[i]).connection.reserved() >= MAX_DOT_IN_FLIGHT by {
            if i > 0 {
                assert(connections[i] == rest[i - 1]);
            }
        }
    }
}

proof fn lemma_alive_only(connections: Seq<Pooled>)
    ensures
        alive_only(connections).len() <= connections.len(),
        forall|i: int| #![trigger alive_only(connections)[i]]
            0 <= i < alive_only(connections).len() ==> alive_only(
                connections,
            )[i].connection.alive() && connections.contains(alive_only(connections)[i]),
    decreases connections.len(),
{
    if connections.len() > 0 {
        let init = connections.drop_last();
        lemma_alive_only(init);
        let alive = alive_only(connections);
        assert forall|i: int| #![trigger alive[i]]
            0 <= i < alive.len() implies alive[i].connection.alive() && connections.contains(
            alive[i],
        ) by {
            if i < alive_only(init).len() {
                assert(init.contains(alive_only(init)[i]));
                let j = init.index_of(alive_only(init)[i]);
                assert(connections[j] == alive[i]);
            } else {
                assert(connections[connections.len() - 1] == alive[i]);
            }
        }
    }
}

/// A connection that `acquire` picks can be used: it is one of the pool's, alive, and
/// has a place left. If it picks none, all that are alive are full.
pub proof fn law_picked_connections_can_be_used(connections: Seq<Pooled>)
    ensures
        ({
            let alive = alive_only(connections);
            let i = first_free(alive);
            if i < alive.len() {
                &&& connections.contains(alive[i])
                &&& alive[i].connection.alive()
                &&& alive[i].connection.reserved() < MAX_DOT_IN_FLIGHT
            } else {
                forall|j: int|
                    0 <= j < alive.len() ==> (#[trigger] alive[j]).connection.reserved()
                        >= MAX_DOT_IN_FLIGHT
            }
        }),
{
    lemma_alive_only(connections);
    lemma_first_free(alive_only(connections));
}

/// Dead connections at the front or in the middle make no difference to those
/// behind them.
pub(crate) proof fn lemma_alive_only_split(front: Seq<Pooled>, back: Seq<Pooled>)
    ensures
        alive_only(front + back) == alive_only(front) + alive_only(back),
    decreases back.len(),
{
    if back.len() > 0 {
        assert((front + back).drop_last() =~= front + back.drop_last());
        lemma_alive_only_split(front, back.drop_last());
        assert(alive_only(front + back) =~= alive_only(front) + alive_only(back));
    } else {
        assert(front + back =~= front);
        assert(alive_only(front) + alive_only(back) =~= alive_only(front));
    }
}

pub open spec fn distinct_numbers(connections: Seq<Pooled>) -> bool {
    forall|i: int, j: int|
        0 <= i < j < connections.len() ==> (#[trigger] connections[i]).number != (
        #[trigger] connections[j]).number
}

impl DotPool {
    /// There are never more connections than allowed, counting one that is being
    /// dialed, and no two have the same number.
    pub open spec fn wf(&self) -> bool {
        &&& self.connections@.len() + (if self.dialing {
            1int
        } else {
            0
        }) <= MAX_DOT_CONNECTIONS
        &&& self.dialing ==> self.issued < u64::MAX
        &&& distinct_numbers(self.connections@)
        &&& forall|i: int| #![trigger self.connections@[i]]
            0 <= i < self.connections@.len() ==> self.connections@[i].connection.wf()
                && self.connections@[i].number < self.issued
    }

    pub fn new() -> (r: Self)
        ensures
            r.wf(),
            r.connections@.len() == 0,
            !r.dialing,
            r.issued == 0,
    {
        DotPool { connections: Vec::new(), dialing: false, issued: 0 }
    }

    /// Lets go of the connections that are of no use any more.
    pub fn drop_dead(&mut self)
        requires
            old(self).wf(),
        ensures
            final(self).wf(),
            final(self).connections@ == alive_only(old(self).connections@),
            final(self).dialing == old(self).dialing,
            final(self).issued == old(self).issued,
    {
        let ghost all = self.connections@;
        let mut i: usize = 0;
        assert(self.connections@.take(0) =~= seq![]);
        while i < self.connections.len()
            invariant
                self.wf(),
                i <= self.connections@.len(),
                self.dialing == old(self).dialing,
                self.issued == old(self).issued,
                alive_only(self.connections@) == alive_only(all),
                alive_only(self.connections@.take(i as int)) == self.connections@.take(i as int),
            decreases self.connections@.len() - i,
        {
            let ghost before = self.connections@;
            let ghost front = before.take(i as int);
            let ghost middle = seq![before[i as int]];
            let ghost back = before.skip(i + 1);
            proof {
                assert(before =~= (front + middle) + back);
                lemma_alive_only_split(front + middle, back);
                lemma_alive_only_split(front, middle);
                assert(middle.drop_last() =~= seq![]);
                assert(alive_only(middle) =~= (if middle[0].connection.alive() {
                    middle
                } else {
                    seq![]
                }));
            }
            if self.connections[i].connection.is_alive() {
                i = i + 1;
                proof {
                    assert(before.take(i as int) =~= front + middle);
                    assert(alive_only(front) + alive_only(middle) =~= front + middle);
                }
            } else {
                self.connections.remove(i);
                proof {
                    let after = self.connections@;
                    assert(after =~= front + back);
                    lemma_alive_only_split(front, back);
                    assert(alive_only(front) + alive_only(middle) =~= alive_only(front));
                    assert(after.take(i as int) =~= front);
                    assert forall|j: int| 0 <= j < after.len() implies #[trigger] after[j] == (if j
                        < i {
                        before[j]
                    } else {
                        before[j + 1]
                    }) by {}
                }
            }
        }
        assert(self.connections@.take(i as int) =~= self.connections@);
    }

    /// Gets a connection for a query: the first one with a place left. Without one,
    /// a new connection is dialed, as long as there may be more.
    pub fn acquire(&mut self) -> (r: Acquired)
        requires
            old(self).wf(),
        ensures
            final(self).wf(),
            final(self).issued == old(self).issued,
            ({
                let alive = alive_only(old(self).connections@);
                let i = first_free(alive);
                if i < alive.len() {
                    &&& r == Acquired::Use(alive[i].number)
                    &&& final(self).dialing == old(self).dialing
                    &&& final(self).connections@.len() == alive.len()
                    &&& reserved_one(alive[i], final(self).connections@[i])
                    &&& forall|j: int|
                        0 <= j < alive.len() && j != i ==> #[trigger] final(self).connections@[j]
                            == alive[j]
                } else {
                    &&& r == (if alive.len() < MAX_DOT_CONNECTIONS && !old(self).dialing && old(
                        self,
                    ).issued < u64::MAX {
                        Acquired::Dial
                    } else {
                        Acquired::Wait
                    })
                    &&& final(self).dialing == (old(self).dialing || r == Acquired::Dial)
                    &&& final(self).connections@ == alive
                }
            }),
    {
        self.drop_dead();
        let ghost alive = self.connections@;
        let n: usize = self.connections.len();
        let mut i: usize = 0;
        assert(alive.skip(0) =~= alive);
        while i < n
            invariant
                self.wf(),
                i <= n,
                n == self.connections@.len(),
                self.connections@ == alive,
                self.dialing == old(self).dialing,
                self.issued == old(self).issued,
                alive == alive_only(old(self).connections@),
                first_free(alive) == i + first_free(alive.skip(i as int)),
            decreases n - i,
        {
            proof {
                assert(alive.skip(i as int)[0] == alive[i as int]);
                assert(alive.skip(i as int).drop_first() =~= alive.skip(i + 1));
            }
            if self.connections[i].connection.try_reserve() {
                return Acquired::Use(self.connections[i].number);
            }
            assert(self.connections@ =~= alive);
            i = i + 1;
        }
        if n < MAX_DOT_CONNECTIONS && !self.dialing && self.issued < u64::MAX {
            self.dialing = true;
            return Acquired::Dial;
        }
        Acquired::Wait
    }

    /// A connection was dialed. It gets a number, and has one place reserved for
    /// whoever dialed it.
    pub fn dialed(&mut self, now: u64) -> (r: u64)
        requires
            old(self).wf(),
            old(self).dialing,
        ensures
            final(self).wf(),
            !final(self).dialing,
            r == old(self).issued,
            final(self).issued == old(self).issued + 1,
            final(self).connections@.len() == old(self).connections@.len() + 1,
            final(self).connections@.drop_last() == old(self).connections@,
            ({
                let added = final(self).connections@.last();
                &&& added.number == r
                &&& added.connection.alive()
                &&& added.connection.reserved() == 1
                &&& added.connection.pending().dom() == Set::<u16>::empty()
                &&& added.connection.last_used() == now
            }),
    {
        let mut connection = DotConnection::start(now);
        let reserved: bool = connection.try_reserve();
        assert(reserved);
        let number: u64 = self.issued;
        self.connections.push(Pooled { number, connection });
        self.dialing = false;
        self.issued = number + 1;
        assert(self.connections@.drop_last() =~= old(self).connections@);
        number
    }

    /// Dialing a connection failed.
    pub fn dial_failed(&mut self)
        requires
            old(self).wf(),
        ensures
            final(self).wf(),
            !final(self).dialing,
            final(self).connections == old(self).connections,
            final(self).issued == old(self).issued,
    {
        self.dialing = false;
    }

    /// Where the connection with a number is, if it has not been let go of.
    pub fn position(&self, number: u64) -> (r: Option<usize>)
        ensures
            match r {
                Some(i) => i < self.connections@.len() && self.connections@[i as int].number
                    == number,
                None => forall|i: int|
                    0 <= i < self.connections@.len() ==> (#[trigger] self.connections@[i]).number
                        != number,
            },
    {
        let n: usize = self.connections.len();
        let mut i: usize = 0;
        while i < n
            invariant
                i <= n,
                n == self.connections@.len(),
                forall|j: int| 0 <= j < i ==> (#[trigger] self.connections@[j]).number != number,
            decreases n - i,
        {
            if self.connections[i].number == number {
                return Some(i);
            }
            i = i + 1;
        }
        None
    }

    /// Reserves a place on every connection that was idle for as many milliseconds
    /// and has one left, for a query that keeps it open. Returns their numbers.
    pub fn keepalive(&mut self, now: u64, interval: u64) -> (r: Vec<u64>)
        requires
            old(self).wf(),
        ensures
            final(self).wf(),
            final(self).dialing == old(self).dialing,
            final(self).issued == old(self).issued,
            ({
                let alive = alive_only(old(self).connections@);
                &&& final(self).connections@.len() == alive.len()
                &&& r@ == probed(alive, now, interval)
                &&& forall|i: int| #![trigger final(self).connections@[i]]
                    0 <= i < alive.len() ==> if needs_probe(alive[i], now, interval) {
                        reserved_one(alive[i], final(self).connections@[i])
                    } else {
                        final(self).connections@[i] == alive[i]
                    }
            }),
    {
        self.drop_dead();
        let ghost alive = self.connections@;
        let n: usize = self.connections.len();
        let mut r: Vec<u64> = Vec::new();
        let mut i: usize = 0;
        assert(r@ =~= probed(alive.take(0), now, interval));
        while i < n
            invariant
                self.wf(),
                i <= n,
                n == self.connections@.len(),
                n == alive.len(),
                self.dialing == old(self).dialing,
                self.issued == old(self).issued,
                r@ == probed(alive.take(i as int), now, interval),
                forall|j: int| #![trigger self.connections@[j]]
                    0 <= j < i ==> if needs_probe(alive[j], now, interval) {
                        reserved_one(alive[j], self.connections@[j])
                    } else {
                        self.connections@[j] == alive[j]
                    },
                forall|j: int| i <= j < n ==> #[trigger] self.connections@[j] == alive[j],
            decreases n - i,
        {
            let ghost before = self.connections@;
            assert(alive.take(i + 1).drop_last() =~= alive.take(i as int));
            assert(before[i as int] == alive[i as int]);
            if self.connections[i].connection.was_idle_for(now, interval) {
                if self.connections[i].connection.try_reserve() {
                    r.push(self.connections[i].number);
                } else {
                    assert(self.connections@ =~= before);
                }
            }
            i = i + 1;
        }
        assert(alive.take(n as int) =~= alive);
        r
    }
}

/// Whether a connection was idle for long enough, and has a place left.
pub open spec fn needs_probe(c: Pooled, now: u64, interval: u64) -> bool {
    &&& now >= c.connection.last_used() && now - c.connection.last_used() >= interval || interval
        == 0
    &&& c.connection.reserved() < MAX_DOT_IN_FLIGHT
}

/// The numbers of the connections that need a probe.
pub open spec fn probed(connections: Seq<Pooled>, now: u64, interval: u64) -> Seq<u64>
    decreases connections.len(),
{
    if connections.len() == 0 {
        seq![]
    } else {
        let init = probed(connections.drop_last(), now, interval);
        if needs_probe(connections.last(), now, interval) {
            init.push(connections.last().number)
        } else {
            init
        }
    }
}

/// Whether a failed query is tried once more.
pub open spec fn tried_once_more(failure: FailureView, retried: bool) -> bool {
    failure is Connection && !retried
}

/// A query is tried over another connection if its own one failed, and just once. What an
/// upstream did wrong it would do again.
pub proof fn law_only_failed_connections_are_replaced(text: Seq<char>, retried: bool)
    ensures
        tried_once_more(FailureView::Connection(text), false),
        !tried_once_more(FailureView::Connection(text), true),
        !tried_once_more(FailureView::Protocol(text), retried),
{
}

/// Whether a failed query is tried once more: only if it was the connection that
/// failed, and only once.
pub fn should_retry(failure: &DotFailure, retried: bool) -> (r: bool)
    ensures
        r == tried_once_more(failure@, retried),
{
    match failure {
        DotFailure::Connection(_) => !retried,
        DotFailure::Protocol(_) => false,
    }
}

} // verus!
