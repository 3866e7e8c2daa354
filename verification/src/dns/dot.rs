//! Queries over DNS-over-TLS connections to an upstream: which waiter gets which
//! response, what ends a connection, and which connection a query goes over.
//!
//! Reading and writing is left to the caller, who hands in what was read and
//! passes on what the functions here give out. A waiter is known by a number that
//! the caller chose.

use rustc_hash::FxHashMap;
use vstd::prelude::*;
use vstd::string::*;

use crate::dns::handler::Reply;
use crate::dns::message::{
    decode_message, message_in, questions_match, reencode_message,
    reencoded_message, same_questions, set_id, with_id, DecodedMessage, MessageView, Question,
    QuestionView,
};
use crate::octets::{be16, from_be16, lemma_be16, push_all};
use crate::text::{decimal, push_decimal};

verus! {

/// How many connections to one upstream there are at most.
pub const MAX_DOT_CONNECTIONS: usize = 2;

/// How many queries one connection carries at once.
pub const MAX_DOT_IN_FLIGHT: usize = 256;

/// Why a query over DoT failed.
#[derive(Debug)]
pub enum DotFailure {
    /// The connection is of no use any more; another one might do.
    Connection(String),
    /// The upstream did not keep to the protocol.
    Protocol(String),
}

pub enum FailureView {
    Connection(Seq<char>),
    Protocol(Seq<char>),
}

impl View for DotFailure {
    type V = FailureView;

    open spec fn view(&self) -> FailureView {
        match self {
            DotFailure::Connection(s) => FailureView::Connection(s@),
            DotFailure::Protocol(s) => FailureView::Protocol(s@),
        }
    }
}

impl DotFailure {
    /// What went wrong, in words.
    pub fn message(&self) -> (r: &str)
        ensures
            r@ == (match self@ {
                FailureView::Connection(s) => s,
                FailureView::Protocol(s) => s,
            }),
    {
        match self {
            DotFailure::Connection(s) => s.as_str(),
            DotFailure::Protocol(s) => s.as_str(),
        }
    }
}

/// `FxHashMap::default` is an empty map.
#[verifier::external_body]
fn no_pending<T>() -> (r: FxHashMap<u16, T>)
    ensures
        r@.dom() == Set::<u16>::empty(),
{
    FxHashMap::default()
}

/// `FxHashMap::contains_key` tells whether the map holds a value for the key.
#[verifier::external_body]
fn is_pending<T>(pending: &FxHashMap<u16, T>, id: u16) -> (r: bool)
    ensures
        r == pending@.contains_key(id),
{
    pending.contains_key(&id)
}

/// `FxHashMap::insert` sets the value for the key and leaves all others alone.
#[verifier::external_body]
fn put_pending<T>(pending: &mut FxHashMap<u16, T>, id: u16, value: T)
    ensures
        final(pending)@ == old(pending)@.insert(id, value),
{
    pending.insert(id, value);
}

/// `FxHashMap::remove` takes the key and its value out of the map, gives the value
/// back, and leaves all others alone.
#[verifier::external_body]
fn take_pending<T>(pending: &mut FxHashMap<u16, T>, id: u16) -> (r: Option<T>)
    ensures
        final(pending)@ == old(pending)@.remove(id),
        match r {
            Some(value) => old(pending)@.contains_key(id) && value == old(pending)@[id],
            None => !old(pending)@.contains_key(id),
        },
{
    pending.remove(&id)
}

/// `FxHashMap::len` is the number of keys that the map holds a value for.
#[verifier::external_body]
fn count_pending<T>(pending: &FxHashMap<u16, T>) -> (r: usize)
    ensures
        r == pending@.dom().len(),
{
    pending.len()
}

/// The entries of a map, each once, in some order.
pub open spec fn is_listing<T>(entries: Seq<(u16, T)>, map: Map<u16, T>) -> bool {
    &&& forall|i: int, j: int| 0 <= i < j < entries.len() ==> (#[trigger] entries[i]).0 != (
    #[trigger] entries[j]).0
    &&& forall|i: int| 0 <= i < entries.len() ==> map.contains_key((#[trigger] entries[i]).0)
        && map[entries[i].0] == entries[i].1
    &&& forall|id: u16| #[trigger]
        map.contains_key(id) ==> exists|i: int|
            0 <= i < entries.len() && (#[trigger] entries[i]).0 == id
}

/// `FxHashMap::drain` takes all entries out of the map and gives each of them once,
/// in an order of its own.
#[verifier::external_body]
fn drain_pending<T>(pending: &mut FxHashMap<u16, T>) -> (r: Vec<(u16, T)>)
    ensures
        final(pending)@.dom() == Set::<u16>::empty(),
        is_listing(r@, old(pending)@),
{
    pending.drain().collect()
}

/// How many steps upwards it takes from one id to the other, with 0 behind 65535.
pub open spec fn steps(from: u16, to: u16) -> int {
    if from <= to {
        to - from
    } else {
        to + 65536 - from
    }
}

/// The first id from `start` upwards, with 0 behind 65535, that is not taken.
pub fn next_available_id<T>(pending: &FxHashMap<u16, T>, start: u16) -> (r: u16)
    requires
        exists|id: u16| !(#[trigger] pending@.contains_key(id)),
    ensures
        !pending@.contains_key(r),
        forall|id: u16| steps(start, id) < steps(start, r) ==> #[trigger] pending@.contains_key(id),
{
    let mut id: u16 = start;
    let ghost mut seen: int = 0;
    loop
        invariant
            exists|id: u16| !(#[trigger] pending@.contains_key(id)),
            0 <= seen < 65536,
            steps(start, id) == seen,
            forall|other: u16| steps(start, other) < seen ==> #[trigger] pending@.contains_key(other),
        decreases 65536 - seen,
    {
        if !is_pending(pending, id) {
            return id;
        }
        proof {
            let free = choose|free: u16| !(#[trigger] pending@.contains_key(free));
            assert(steps(start, free) >= seen);
            assert forall|other: u16| steps(start, other) < seen + 1 implies
                #[trigger] pending@.contains_key(other) by {
                if steps(start, other) == seen {
                    assert(other == id);
                }
            }
            assert(steps(start, free) >= seen + 1);
            seen = seen + 1;
        }
        id = if id == u16::MAX {
            0
        } else {
            id + 1
        };
    }
}

/// A query whose response has not come yet.
pub struct PendingQuery {
    pub waiter: u64,
    pub expected: Vec<Question>,
}

#[verifier::ext_equal]
pub struct PendingView {
    pub waiter: u64,
    pub expected: Seq<QuestionView>,
}

impl View for PendingQuery {
    type V = PendingView;

    open spec fn view(&self) -> PendingView {
        PendingView {
            waiter: self.waiter,
            expected: self.expected@.map_values(|q: Question| q@),
        }
    }
}

/// One connection to an upstream.
pub struct DotConnection {
    pending: FxHashMap<u16, PendingQuery>,
    reserved: usize,
    last_used: u64,
    dead: bool,
}

/// A message behind its length in two bytes.
pub open spec fn frame_of(wire: Seq<u8>) -> Seq<u8> {
    be16(wire.len() as u16) + wire
}

/// Frames a message, if its length fits into two bytes.
pub fn frame(wire: &Vec<u8>) -> (r: Option<Vec<u8>>)
    ensures
        match r {
            Some(f) => wire@.len() <= 65535 && f@ == frame_of(wire@),
            None => wire@.len() > 65535,
        },
{
    let n: usize = wire.len();
    if n > 65535 {
        return None;
    }
    let mut f: Vec<u8> = Vec::with_capacity(2 + n);
    f.push((n / 256) as u8);
    f.push((n % 256) as u8);
    push_all(&mut f, wire.as_slice());
    assert(f@ =~= frame_of(wire@));
    Some(f)
}

/// A query as it goes out.
pub struct Outgoing {
    pub id: u16,
    pub frame: Vec<u8>,
}

/// The queries that a connection waits for, by id.
pub open spec fn pending_views(pending: Map<u16, PendingQuery>) -> Map<u16, PendingView> {
    pending.map_values(|p: PendingQuery| p@)
}

/// `waiters` are those of all pending queries, each once, in some order.
pub open spec fn all_waiters(waiters: Seq<u64>, pending: Map<u16, PendingView>) -> bool {
    exists|ids: Seq<u16>| #[trigger] lists_ids(ids, pending) && waiters == ids.map_values(
        |id: u16| pending[id].waiter,
    )
}

/// `ids` are the ids of all pending queries, each once.
pub open spec fn lists_ids(ids: Seq<u16>, pending: Map<u16, PendingView>) -> bool {
    ids.no_duplicates() && forall|id: u16| #[trigger] ids.contains(id) <==> pending.contains_key(id)
}

/// What the reader of a connection is to do next.
#[derive(Debug, Clone, Copy, PartialEq, Eq, Structural)]
pub enum Reading {
    /// Read the two bytes with the next response's length.
    Length,
    /// Read as many bytes, which are the response.
    Body(usize),
    /// Stop reading: the connection is dead.
    Stop,
}

/// What a response led to.
pub enum Delivery {
    /// A waiter gets its response.
    Response { waiter: u64, reply: Reply },
    /// A waiter is told that its query failed; all others are told that the
    /// connection did.
    Mismatch { waiter: u64, failure: DotFailure, others: Vec<u64>, closed: DotFailure },
    /// All waiters are told that the connection failed.
    Broken { waiters: Vec<u64>, failure: DotFailure },
}

pub open spec fn closed_text() -> Seq<char> {
    "DoT connection closed"@
}

/// `text` and an id behind it.
pub open spec fn about_id(text: Seq<char>, id: u16) -> Seq<char> {
    text + decimal(id as nat)
}

fn text_about_id(text: &str, id: u16) -> (r: String)
    ensures
        r@ == about_id(text@, id),
{
    let mut r: String = text.to_owned();
    push_decimal(&mut r, id as u64);
    r
}

fn text_with_cause(text: &str, cause: &str) -> (r: String)
    ensures
        r@ == text@ + cause@,
{
    let mut r: String = text.to_owned();
    r.append(cause);
    r
}

proof fn lemma_small_sets_leave_ids(ids: Set<u16>, n: nat)
    requires
        ids.finite(),
        n <= 65536,
        forall|id: u16| id < n ==> #[trigger] ids.contains(id),
    ensures
        ids.len() >= n,
    decreases n,
{
    if n > 0 {
        let last = (n - 1) as u16;
        assert(ids.contains(last));
        lemma_small_sets_leave_ids(ids.remove(last), (n - 1) as nat);
    }
}

/// What a message was decoded to.
pub open spec fn decoding(decoded: Result<DecodedMessage, String>) -> Result<
    MessageView,
    Seq<char>,
> {
    match decoded {
        Ok(m) => Ok(m@),
        Err(e) => Err(e@),
    }
}

/// The connection has ended, and nobody waits on it any more.
pub open spec fn ended(before: DotConnection, after: DotConnection) -> bool {
    &&& !after.alive()
    &&& after.pending().dom() == Set::<u16>::empty()
    &&& after.reserved() == before.reserved() - before.pending().dom().len()
}

/// The connection ends, and all who wait are told so.
pub open spec fn broken(
    before: DotConnection,
    after: DotConnection,
    r: Delivery,
    failure: FailureView,
) -> bool {
    &&& ended(before, after)
    &&& r matches Delivery::Broken { waiters, failure: f } && all_waiters(waiters@, before.pending())
        && f@ == failure
}

/// What becomes of a response. It goes to the one who waits for its id, if it
/// repeats the questions that were asked. If it does not, that one is told so, and
/// the connection ends. If it cannot be decoded, or nobody waits for its id, the
/// connection ends as well.
pub open spec fn delivered(
    before: DotConnection,
    after: DotConnection,
    raw: Seq<u8>,
    decoded: Result<MessageView, Seq<char>>,
    r: Delivery,
) -> bool {
    let pending = before.pending();
    match decoded {
        Err(cause) => broken(
            before,
            after,
            r,
            FailureView::Protocol("invalid DoT response: "@ + cause),
        ),
        Ok(m) => if !pending.contains_key(m.id) {
            broken(
                before,
                after,
                r,
                FailureView::Protocol(about_id("unexpected DoT response ID "@, m.id)),
            )
        } else if same_questions(m.questions, pending[m.id].expected) {
            &&& r matches Delivery::Response { waiter, reply } && waiter == pending[m.id].waiter
                && reply.raw@ == raw && reply.message@ == m
            &&& after.alive() == before.alive()
            &&& after.pending() == pending.remove(m.id)
            &&& after.reserved() == before.reserved() - 1
        } else {
            &&& r matches Delivery::Mismatch { waiter, failure, others, closed } && waiter
                == pending[m.id].waiter && failure@ == FailureView::Protocol(
                about_id("DoT response question mismatch for ID "@, m.id),
            ) && all_waiters(others@, pending.remove(m.id)) && closed@ == FailureView::Connection(
                "DoT connection closed after response question mismatch"@,
            )
            &&& ended(before, after)
        },
    }
}

impl DotConnection {
    /// The queries that wait for a response, by id.
    pub closed spec fn pending(&self) -> Map<u16, PendingView> {
        pending_views(self.pending@)
    }

    /// How many queries are under way or about to be.
    pub closed spec fn reserved(&self) -> int {
        self.reserved as int
    }

    /// When a query was last sent, in milliseconds.
    pub closed spec fn last_used(&self) -> u64 {
        self.last_used
    }

    pub closed spec fn alive(&self) -> bool {
        !self.dead
    }

    /// No more queries are under way than were reserved, and no more were reserved
    /// than the connection may carry. Nobody waits on a dead connection.
    pub closed spec fn wf(&self) -> bool {
        &&& self.pending@.dom().finite()
        &&& self.pending@.dom().len() <= self.reserved <= MAX_DOT_IN_FLIGHT
        &&& self.dead ==> self.pending@.dom() == Set::<u16>::empty()
    }

    /// A new connection, on which nothing was sent yet.
    pub fn start(now: u64) -> (r: Self)
        ensures
            r.wf(),
            r.alive(),
            r.pending().dom() == Set::<u16>::empty(),
            r.reserved() == 0,
            r.last_used() == now,
    {
        let r = DotConnection { pending: no_pending(), reserved: 0, last_used: now, dead: false };
        assert(r.pending().dom() =~= Set::<u16>::empty());
        r
    }

    pub fn is_alive(&self) -> (r: bool)
        ensures
            r == self.alive(),
    {
        !self.dead
    }

    /// Reserves a place for a query, if the connection has one left.
    pub fn try_reserve(&mut self) -> (r: bool)
        requires
            old(self).wf(),
        ensures
            final(self).wf(),
            r == (old(self).reserved() < MAX_DOT_IN_FLIGHT),
            !r ==> *final(self) == *old(self),
            final(self).reserved() == old(self).reserved() + (if r {
                1int
            } else {
                0
            }),
            final(self).pending() == old(self).pending(),
            final(self).alive() == old(self).alive(),
            final(self).last_used() == old(self).last_used(),
    {
        if self.reserved < MAX_DOT_IN_FLIGHT {
            self.reserved = self.reserved + 1;
            true
        } else {
            false
        }
    }

    /// Whether a place is reserved that no query uses yet.
    pub fn has_place(&self) -> (r: bool)
        ensures
            r == (self.pending().dom().len() < self.reserved()),
    {
        assert(self.pending().dom() =~= self.pending@.dom());
        count_pending(&self.pending) < self.reserved
    }

    /// Gives up a reserved place without having used it.
    pub fn release(&mut self)
        requires
            old(self).wf(),
            old(self).pending().dom().len() < old(self).reserved(),
        ensures
            final(self).wf(),
            final(self).reserved() == old(self).reserved() - 1,
            final(self).pending() == old(self).pending(),
            final(self).alive() == old(self).alive(),
            final(self).last_used() == old(self).last_used(),
    {
        assert(self.pending().dom() =~= self.pending@.dom());
        self.reserved = self.reserved - 1;
    }

    /// Whether no query was sent for at least as many milliseconds.
    pub fn was_idle_for(&self, now: u64, duration: u64) -> (r: bool)
        ensures
            r == (now >= self.last_used() && now - self.last_used() >= duration || duration == 0),
    {
        let idle: u64 = if now >= self.last_used {
            now - self.last_used
        } else {
            0
        };
        idle >= duration
    }

    /// Registers a query, which was encoded before, for a waiter. It gets the first
    /// free id from `start` on, so that no other waiter's id is taken over. The
    /// place that was reserved for the query is used by it, or given up if it fails.
    pub fn send(
        &mut self,
        encoded: Result<Vec<u8>, String>,
        expected: Vec<Question>,
        waiter: u64,
        start: u16,
        now: u64,
    ) -> (r: Result<Outgoing, DotFailure>)
        requires
            old(self).wf(),
            old(self).pending().dom().len() < old(self).reserved(),
            encoded matches Ok(wire) ==> wire@.len() >= 2,
        ensures
            final(self).wf(),
            final(self).alive() == old(self).alive(),
            final(self).last_used() == (if old(self).alive() {
                now
            } else {
                old(self).last_used()
            }),
            match r {
                Ok(out) => {
                    &&& old(self).alive()
                    &&& encoded matches Ok(wire) && wire@.len() <= 65535 && out.frame@ == frame_of(
                        with_id(wire@, out.id),
                    )
                    &&& !old(self).pending().contains_key(out.id)
                    &&& forall|id: u16|
                        steps(start, id) < steps(start, out.id) ==> #[trigger] old(
                            self,
                        ).pending().contains_key(id)
                    &&& final(self).pending() == old(self).pending().insert(
                        out.id,
                        (PendingView {
                            waiter,
                            expected: expected@.map_values(|q: Question| q@),
                        }),
                    )
                    &&& final(self).reserved() == old(self).reserved()
                },
                Err(e) => {
                    &&& final(self).pending() == old(self).pending()
                    &&& final(self).reserved() == old(self).reserved() - 1
                    &&& e@ == (if !old(self).alive() {
                        FailureView::Connection(closed_text())
                    } else {
                        match encoded {
                            Ok(_) => FailureView::Protocol("query too large for DoT framing"@),
                            Err(cause) => FailureView::Protocol(
                                "failed to encode upstream query: "@ + cause@,
                            ),
                        }
                    })
                    &&& old(self).alive() && encoded is Ok ==> encoded->Ok_0@.len() > 65535
                },
            },
    {
        proof {
            assert(self.pending().dom() =~= self.pending@.dom());
        }
        if self.dead {
            self.reserved = self.reserved - 1;
            return Err(DotFailure::Connection("DoT connection closed".to_owned()));
        }
        self.last_used = now;
        let mut wire: Vec<u8> = match encoded {
            Ok(wire) => wire,
            Err(cause) => {
                self.reserved = self.reserved - 1;
                return Err(
                    DotFailure::Protocol(
                        text_with_cause("failed to encode upstream query: ", cause.as_str()),
                    ),
                );
            },
        };
        proof {
            if forall|id: u16| #[trigger] self.pending@.contains_key(id) {
                assert forall|id: u16| id < 257 implies #[trigger] self.pending@.dom().contains(
                    id,
                ) by {
                    assert(self.pending@.contains_key(id));
                }
                lemma_small_sets_leave_ids(self.pending@.dom(), 257);
            }
        }
        let id: u16 = next_available_id(&self.pending, start);
        let ghost unsent = wire@;
        set_id(&mut wire, id);
        match frame(&wire) {
            Some(framed) => {
                put_pending(&mut self.pending, id, PendingQuery { waiter, expected });
                proof {
                    assert(self.pending() =~= old(self).pending().insert(
                        id,
                        (PendingView {
                            waiter,
                            expected: expected@.map_values(|q: Question| q@),
                        }),
                    ));
                    assert forall|other: u16| steps(start, other) < steps(start, id) implies
                        #[trigger] old(self).pending().contains_key(other) by {
                        assert(old(self).pending@.contains_key(other));
                    }
                }
                Ok(Outgoing { id, frame: framed })
            },
            None => {
                self.reserved = self.reserved - 1;
                Err(DotFailure::Protocol("query too large for DoT framing".to_owned()))
            },
        }
    }

    /// Registers a query for a waiter. The query's bytes are encoded anew, and its
    /// questions are those that the response must repeat.
    pub fn query(&mut self, raw: &[u8], waiter: u64, start: u16, now: u64) -> (r: Result<
        Outgoing,
        DotFailure,
    >)
        requires
            old(self).wf(),
            old(self).pending().dom().len() < old(self).reserved(),
        ensures
            final(self).wf(),
            final(self).alive() == old(self).alive(),
            final(self).last_used() == (if old(self).alive() {
                now
            } else {
                old(self).last_used()
            }),
            match r {
                Ok(out) => {
                    &&& old(self).alive()
                    &&& reencoded_message(raw@) matches Ok(wire) && out.frame@ == frame_of(
                        with_id(wire, out.id),
                    )
                    &&& !old(self).pending().contains_key(out.id)
                    &&& forall|id: u16|
                        steps(start, id) < steps(start, out.id) ==> #[trigger] old(
                            self,
                        ).pending().contains_key(id)
                    &&& message_in(raw@) matches Ok(m) && final(self).pending() == old(
                        self,
                    ).pending().insert(
                        out.id,
                        (PendingView { waiter, expected: m.questions }),
                    )
                    &&& final(self).reserved() == old(self).reserved()
                },
                Err(e) => {
                    &&& final(self).pending() == old(self).pending()
                    &&& final(self).reserved() == old(self).reserved() - 1
                    &&& !old(self).alive() || message_in(raw@) is Err || reencoded_message(
                        raw@,
                    ) is Err
                    &&& e@ == (if !old(self).alive() {
                        FailureView::Connection(closed_text())
                    } else {
                        FailureView::Protocol(
                            "failed to encode upstream query: "@ + (match message_in(raw@) {
                                Err(cause) => cause,
                                Ok(_) => reencoded_message(raw@)->Err_0,
                            }),
                        )
                    })
                },
            },
    {
        let encoded: Result<Vec<u8>, String> = reencode_message(raw);
        match decode_message(raw) {
            Ok(message) => self.send(encoded, message.questions, waiter, start, now),
            Err(cause) => {
                let none: Vec<Question> = Vec::new();
                self.send(Err(cause), none, waiter, start, now)
            },
        }
    }

    /// A waiter has given up: its query's id becomes free.
    pub fn cancel(&mut self, id: u16)
        requires
            old(self).wf(),
        ensures
            final(self).wf(),
            final(self).alive() == old(self).alive(),
            final(self).last_used() == old(self).last_used(),
            final(self).pending() == old(self).pending().remove(id),
            final(self).reserved() == old(self).reserved() - (if old(self).pending().contains_key(
                id,
            ) {
                1int
            } else {
                0
            }),
    {
        let taken: Option<PendingQuery> = take_pending(&mut self.pending, id);
        if taken.is_some() {
            self.reserved = self.reserved - 1;
        }
        proof {
            assert(self.pending() =~= old(self).pending().remove(id));
            if self.dead {
                assert(self.pending@.dom() =~= Set::<u16>::empty());
            }
        }
    }

    /// The connection is of no use any more. Returns all who wait, who are to be
    /// told; nobody is told twice.
    pub fn fail(&mut self) -> (r: Vec<u64>)
        requires
            old(self).wf(),
        ensures
            final(self).wf(),
            !final(self).alive(),
            final(self).last_used() == old(self).last_used(),
            final(self).pending().dom() == Set::<u16>::empty(),
            final(self).reserved() == old(self).reserved() - old(self).pending().dom().len(),
            all_waiters(r@, old(self).pending()),
    {
        let ghost before = self.pending@;
        proof {
            assert(self.pending().dom() =~= self.pending@.dom());
        }
        self.dead = true;
        let entries: Vec<(u16, PendingQuery)> = drain_pending(&mut self.pending);
        let ghost ids = entries@.map_values(|e: (u16, PendingQuery)| e.0);
        proof {
            lemma_listing(entries@, before);
        }
        let n: usize = entries.len();
        let mut waiters: Vec<u64> = Vec::new();
        let mut i: usize = 0;
        while i < n
            invariant
                i <= n,
                n == entries@.len(),
                waiters@.len() == i,
                forall|j: int| 0 <= j < i ==> waiters@[j] == (#[trigger] entries@[j]).1.waiter,
            decreases n - i,
        {
            waiters.push(entries[i].1.waiter);
            i = i + 1;
        }
        self.reserved = self.reserved - n;
        proof {
            let pending = old(self).pending();
            assert(waiters@ =~= ids.map_values(|id: u16| pending[id].waiter)) by {
                assert forall|j: int| 0 <= j < n implies waiters@[j]
                    == #[trigger] pending[ids[j]].waiter by {
                    assert(before[entries@[j].0] == entries@[j].1);
                    assert(before.contains_key(entries@[j].0));
                }
            }
            assert(lists_ids(ids, pending)) by {
                assert forall|id: u16| #[trigger] ids.contains(id) <==> pending.contains_key(id) by {
                    assert(pending.contains_key(id) <==> before.contains_key(id));
                    if before.contains_key(id) {
                        let j = choose|j: int|
                            0 <= j < entries@.len() && (#[trigger] entries@[j]).0 == id;
                        assert(ids[j] == id);
                    }
                    if ids.contains(id) {
                        let j = ids.index_of(id);
                        assert(entries@[j].0 == id);
                    }
                }
            }
            assert(self.pending().dom() =~= Set::<u16>::empty());
        }
        waiters
    }

    /// What a response's length says.
    pub fn on_length(&self, high: u8, low: u8) -> (r: Result<Reading, DotFailure>)
        ensures
            match r {
                Ok(next) => from_be16(high, low) != 0 && next == Reading::Body(
                    from_be16(high, low) as usize,
                ),
                Err(e) => from_be16(high, low) == 0 && e@ == FailureView::Protocol(
                    "empty DoT response"@,
                ),
            },
    {
        let n: usize = high as usize * 256 + low as usize;
        if n == 0 {
            return Err(DotFailure::Protocol("empty DoT response".to_owned()));
        }
        Ok(Reading::Body(n))
    }

    /// Who gets a response, given what it decodes to. A response that nobody waits
    /// for, or that is to another question than was asked, ends the connection.
    pub fn on_message(&mut self, raw: Vec<u8>, decoded: Result<DecodedMessage, String>) -> (r:
        Delivery)
        requires
            old(self).wf(),
        ensures
            final(self).wf(),
            final(self).last_used() == old(self).last_used(),
            delivered(*old(self), *final(self), raw@, decoding(decoded), r),
    {
        proof {
            assert(self.pending().dom() =~= self.pending@.dom());
        }
        let m: DecodedMessage = match decoded {
            Ok(m) => m,
            Err(cause) => {
                let waiters: Vec<u64> = self.fail();
                return Delivery::Broken {
                    waiters,
                    failure: DotFailure::Protocol(
                        text_with_cause("invalid DoT response: ", cause.as_str()),
                    ),
                };
            },
        };
        let ghost before = self.pending();
        if !is_pending(&self.pending, m.id) {
            let waiters: Vec<u64> = self.fail();
            return Delivery::Broken {
                waiters,
                failure: DotFailure::Protocol(text_about_id("unexpected DoT response ID ", m.id)),
            };
        }
        let taken: Option<PendingQuery> = take_pending(&mut self.pending, m.id);
        let query: PendingQuery = taken.unwrap();
        self.reserved = self.reserved - 1;
        proof {
            assert(self.pending() =~= before.remove(m.id));
            assert(query@ == before[m.id]);
            assert(self.pending().dom() =~= self.pending@.dom());
            if self.dead {
                assert(old(self).pending@.dom().contains(m.id));
            }
        }
        if questions_match(&m.questions, &query.expected) {
            Delivery::Response { waiter: query.waiter, reply: Reply { raw, message: m } }
        } else {
            let others: Vec<u64> = self.fail();
            Delivery::Mismatch {
                waiter: query.waiter,
                failure: DotFailure::Protocol(
                    text_about_id("DoT response question mismatch for ID ", m.id),
                ),
                others,
                closed: DotFailure::Connection(
                    "DoT connection closed after response question mismatch".to_owned(),
                ),
            }
        }
    }

    /// Who gets a response. The bytes are decoded first.
    pub fn on_body(&mut self, raw: Vec<u8>) -> (r: Delivery)
        requires
            old(self).wf(),
        ensures
            final(self).wf(),
            final(self).last_used() == old(self).last_used(),
            delivered(*old(self), *final(self), raw@, message_in(raw@), r),
            r matches Delivery::Response { waiter, reply } ==> reply.wf(),
    {
        let decoded: Result<DecodedMessage, String> = decode_message(raw.as_slice());
        self.on_message(raw, decoded)
    }
}

/// What came of reading from or writing to a connection.
pub enum Event {
    /// The two bytes of a response's length.
    Length(u8, u8),
    LengthFailed(String),
    /// A response's bytes.
    Body(Vec<u8>),
    BodyFailed(String),
    BodyTimedOut,
    WriteFailed(String),
    WriterStopped,
    KeepaliveTimedOut,
}

/// What is to be done about an event: what to read next, and whom to tell what.
pub struct Reaction {
    pub next: Reading,
    pub delivery: Option<Delivery>,
}

/// Why an event ends a connection, if it does so whatever was read before.
pub open spec fn event_failure(event: Event) -> Option<FailureView> {
    match event {
        Event::Length(high, low) => if from_be16(high, low) == 0 {
            Some(FailureView::Protocol("empty DoT response"@))
        } else {
            None
        },
        Event::LengthFailed(e) => Some(
            FailureView::Connection("failed to read DoT response length: "@ + e@),
        ),
        Event::Body(_) => None,
        Event::BodyFailed(e) => Some(
            FailureView::Connection("failed to read DoT response: "@ + e@),
        ),
        Event::BodyTimedOut => Some(FailureView::Connection("timed out reading DoT response"@)),
        Event::WriteFailed(e) => Some(
            FailureView::Connection("failed to write DoT query: "@ + e@),
        ),
        Event::WriterStopped => Some(FailureView::Connection("DoT writer stopped"@)),
        Event::KeepaliveTimedOut => Some(FailureView::Connection("DoT keepalive timed out"@)),
    }
}

/// What an event leads to: a length is followed by as many bytes, and these, if
/// they are a response that somebody waits for, by the next length. All else ends
/// the connection.
pub open spec fn reacted(
    before: DotConnection,
    after: DotConnection,
    event: Event,
    r: Reaction,
) -> bool {
    match event_failure(event) {
        Some(failure) => {
            &&& r.next == Reading::Stop
            &&& r.delivery matches Some(d) && broken(before, after, d, failure)
        },
        None => match event {
            Event::Length(high, low) => {
                &&& r.next == Reading::Body(from_be16(high, low) as usize)
                &&& r.delivery is None
                &&& after == before
            },
            Event::Body(raw) => {
                &&& r.delivery matches Some(d) && delivered(
                    before,
                    after,
                    raw@,
                    message_in(raw@),
                    d,
                ) && r.next == (if d is Response {
                    Reading::Length
                } else {
                    Reading::Stop
                })
            },
            _ => false,
        },
    }
}

impl DotConnection {
    fn fail_with(&mut self, failure: DotFailure) -> (r: Reaction)
        requires
            old(self).wf(),
        ensures
            final(self).wf(),
            final(self).last_used() == old(self).last_used(),
            r.next == Reading::Stop,
            r.delivery matches Some(d) && broken(*old(self), *final(self), d, failure@),
    {
        let waiters: Vec<u64> = self.fail();
        Reaction { next: Reading::Stop, delivery: Some(Delivery::Broken { waiters, failure }) }
    }

    /// What to do about an event.
    pub fn on_event(&mut self, event: Event) -> (r: Reaction)
        requires
            old(self).wf(),
        ensures
            final(self).wf(),
            final(self).last_used() == old(self).last_used(),
            reacted(*old(self), *final(self), event, r),
    {
        match event {
            Event::Length(high, low) => match self.on_length(high, low) {
                Ok(next) => Reaction { next, delivery: None },
                Err(failure) => self.fail_with(failure),
            },
            Event::LengthFailed(e) => self.fail_with(
                DotFailure::Connection(
                    text_with_cause("failed to read DoT response length: ", e.as_str()),
                ),
            ),
            Event::Body(raw) => {
                let delivery: Delivery = self.on_body(raw);
                let next: Reading = match &delivery {
                    Delivery::Response { waiter: _, reply: _ } => Reading::Length,
                    _ => Reading::Stop,
                };
                Reaction { next, delivery: Some(delivery) }
            },
            Event::BodyFailed(e) => self.fail_with(
                DotFailure::Connection(
                    text_with_cause("failed to read DoT response: ", e.as_str()),
                ),
            ),
            Event::BodyTimedOut => self.fail_with(
                DotFailure::Connection("timed out reading DoT response".to_owned()),
            ),
            Event::WriteFailed(e) => self.fail_with(
                DotFailure::Connection(text_with_cause("failed to write DoT query: ", e.as_str())),
            ),
            Event::WriterStopped => self.fail_with(
                DotFailure::Connection("DoT writer stopped".to_owned()),
            ),
            Event::KeepaliveTimedOut => self.fail_with(
                DotFailure::Connection("DoT keepalive timed out".to_owned()),
            ),
        }
    }
}

/// No waiter is ever lost or served twice: a response goes to at most one waiter,
/// who no longer waits then, and everybody else either still waits as before or is
/// told that the connection ended.
pub proof fn law_every_waiter_is_answered_once(
    before: DotConnection,
    after: DotConnection,
    raw: Seq<u8>,
    decoded: Result<MessageView, Seq<char>>,
    r: Delivery,
    id: u16,
)
    requires
        delivered(before, after, raw, decoded, r),
        before.pending().contains_key(id),
    ensures
        ({
            let waiter = before.pending()[id].waiter;
            match r {
                Delivery::Response { waiter: served, reply } => {
                    if id == reply.message.id {
                        served == waiter && !after.pending().contains_key(id)
                    } else {
                        after.pending().contains_key(id) && after.pending()[id]
                            == before.pending()[id]
                    }
                },
                Delivery::Mismatch { waiter: told, failure, others, closed } => {
                    &&& told == waiter || others@.contains(waiter)
                    &&& !after.pending().contains_key(id)
                },
                Delivery::Broken { waiters, failure } => {
                    &&& waiters@.contains(waiter)
                    &&& !after.pending().contains_key(id)
                },
            }
        }),
{
    match r {
        Delivery::Response { waiter, reply } => {},
        Delivery::Mismatch { waiter, failure, others, closed } => {
            assert(!after.pending().dom().contains(id));
            let m = decoded->Ok_0;
            if id != m.id {
                lemma_waiter_listed(others@, before.pending().remove(m.id), id);
            }
        },
        Delivery::Broken { waiters, failure } => {
            assert(!after.pending().dom().contains(id));
            lemma_waiter_listed(waiters@, before.pending(), id);
        },
    }
}

proof fn lemma_waiter_listed(waiters: Seq<u64>, pending: Map<u16, PendingView>, id: u16)
    requires
        all_waiters(waiters, pending),
        pending.contains_key(id),
    ensures
        waiters.contains(pending[id].waiter),
{
    let ids = choose|ids: Seq<u16>| #[trigger] lists_ids(ids, pending) && waiters
        == ids.map_values(|id: u16| pending[id].waiter);
    assert(ids.contains(id));
    let i = ids.index_of(id);
    assert(waiters[i] == pending[id].waiter);
}

/// A response is delivered only to a query that asked the same questions.
pub proof fn law_responses_repeat_their_questions(
    before: DotConnection,
    after: DotConnection,
    raw: Seq<u8>,
    decoded: Result<MessageView, Seq<char>>,
    r: Delivery,
)
    requires
        delivered(before, after, raw, decoded, r),
        r is Response,
    ensures
        decoded is Ok,
        before.pending().contains_key(decoded->Ok_0.id),
        same_questions(
            decoded->Ok_0.questions,
            before.pending()[decoded->Ok_0.id].expected,
        ),
{
}

/// Reading a framed message gives it back: its length first, then as many bytes.
pub proof fn law_frames_can_be_read_back(wire: Seq<u8>)
    requires
        wire.len() <= 65535,
    ensures
        frame_of(wire).len() == 2 + wire.len(),
        from_be16(frame_of(wire)[0], frame_of(wire)[1]) == wire.len(),
        frame_of(wire).skip(2) == wire,
{
    lemma_be16(wire.len() as u16);
    assert(frame_of(wire).skip(2) =~= wire);
}

proof fn lemma_listing(entries: Seq<(u16, PendingQuery)>, map: Map<u16, PendingQuery>)
    requires
        is_listing(entries, map),
        map.dom().finite(),
    ensures
        entries.map_values(|e: (u16, PendingQuery)| e.0).no_duplicates(),
        entries.len() == map.dom().len(),
    decreases entries.len(),
{
    let ids = entries.map_values(|e: (u16, PendingQuery)| e.0);
    assert forall|i: int, j: int|
        0 <= i < ids.len() && 0 <= j < ids.len() && i != j implies ids[i] != ids[j] by {
        if i < j {
            assert(entries[i].0 != entries[j].0);
        } else {
            assert(entries[j].0 != entries[i].0);
        }
    }
    ids.unique_seq_to_set();
    assert(ids.to_set() =~= map.dom()) by {
        assert forall|id: u16| #[trigger] ids.to_set().contains(id) <==> map.dom().contains(id) by {
            if map.contains_key(id) {
                let i = choose|i: int| 0 <= i < entries.len() && (#[trigger] entries[i]).0 == id;
                assert(ids[i] == id);
            }
            if ids.to_set().contains(id) {
                let i = ids.index_of(id);
                assert(entries[i].0 == id);
            }
        }
    }
}

} // verus!
