//! A client's connection over DNS-over-TLS: when to read, when to hold back, and
//! when to close.
//!
//! Queries are length-prefixed, and a connection may carry several at once: they
//! are resolved concurrently and answered as they are done. Once as many are under
//! way as are allowed, nothing more is read until one is done.

use vstd::prelude::*;

use crate::octets::from_be16;

verus! {

/// How many queries of one connection are resolved at once.
pub const MAX_CONCURRENT_QUERIES_PER_CONNECTION: usize = 32;

/// Past this many connections, more are turned away.
pub const MAX_CONCURRENT_CONNECTIONS: usize = 1024;

/// For how long a connection waits for the client to begin a query, in milliseconds.
pub const IDLE_TIMEOUT: u64 = 120_000;

/// What a connection waits for.
#[derive(Debug, Clone, Copy, PartialEq, Eq, Structural)]
pub enum Phase {
    /// The length of the next query.
    Length,
    /// A query of so many bytes.
    Body(usize),
    /// Until a query is done, to start the one that was read.
    Slot,
    /// Nothing: no more is read. Queries under way are still answered.
    Closed,
}

/// What happened.
#[derive(Debug, Clone, Copy, PartialEq, Eq, Structural)]
pub enum Event {
    /// The length of the next query was read.
    Length(u8, u8),
    /// The client closed the connection instead.
    Ended,
    /// Reading the length failed.
    LengthFailed,
    /// The query was read.
    Body,
    /// Reading the query failed.
    BodyFailed,
    /// A query was answered.
    Answered,
    /// The connection waited `IDLE_TIMEOUT` for the length of the next query, and the
    /// client did not send it.
    Idle,
}

/// What to do.
#[derive(Debug, Clone, Copy, PartialEq, Eq, Structural)]
pub enum Action {
    /// Read the length of the next query.
    ReadLength,
    /// Read so many bytes, which are the query.
    ReadBody(usize),
    /// Resolve the query that was read, and read the length of the next one.
    Start,
    /// Hold back until a query is done.
    Hold,
    /// Stop reading; answer what is under way.
    Close,
    /// As `Close`, and the length could not be read.
    CloseOnLengthError,
    /// As `Close`, and the query could not be read.
    CloseOnBodyError,
}

/// A client's connection.
#[derive(Debug, Clone, Copy, PartialEq, Eq, Structural)]
pub struct Connection {
    pub phase: Phase,
    pub in_flight: usize,
}

impl Connection {
    pub open spec fn wf(self) -> bool {
        &&& self.in_flight <= MAX_CONCURRENT_QUERIES_PER_CONNECTION
        &&& self.phase == Phase::Slot ==> self.in_flight == MAX_CONCURRENT_QUERIES_PER_CONNECTION
    }

    /// Whether an event can happen: only what is waited for does, and only queries
    /// that are under way are answered.
    pub open spec fn expects(self, event: Event) -> bool {
        match event {
            Event::Length(_, _) | Event::Ended | Event::LengthFailed => self.phase == Phase::Length,
            Event::Body | Event::BodyFailed => self.phase is Body,
            Event::Answered => self.in_flight > 0,
            Event::Idle => self.phase == Phase::Length,
        }
    }

    /// What to do about an event.
    pub open spec fn action(self, event: Event) -> Action {
        match event {
            Event::Length(high, low) => if from_be16(high, low) == 0 {
                Action::Close
            } else {
                Action::ReadBody(from_be16(high, low) as usize)
            },
            Event::Ended => Action::Close,
            Event::Idle => Action::Close,
            Event::LengthFailed => Action::CloseOnLengthError,
            Event::BodyFailed => Action::CloseOnBodyError,
            Event::Body => if self.in_flight < MAX_CONCURRENT_QUERIES_PER_CONNECTION {
                Action::Start
            } else {
                Action::Hold
            },
            Event::Answered => match self.phase {
                Phase::Slot => Action::Start,
                Phase::Length => Action::ReadLength,
                Phase::Body(n) => Action::ReadBody(n),
                Phase::Closed => Action::Close,
            },
        }
    }

    /// The connection after an event.
    pub open spec fn after(self, event: Event) -> Self {
        let running = if event == Event::Answered {
            self.in_flight - 1
        } else {
            self.in_flight as int
        };
        match self.action(event) {
            Action::ReadLength => Connection { phase: Phase::Length, in_flight: running as usize },
            Action::ReadBody(n) => Connection { phase: Phase::Body(n), in_flight: running as usize },
            Action::Start => Connection { phase: Phase::Length, in_flight: (running + 1) as usize },
            Action::Hold => Connection { phase: Phase::Slot, in_flight: running as usize },
            _ => Connection { phase: Phase::Closed, in_flight: running as usize },
        }
    }

    /// For how many milliseconds the connection waits before it is closed.
    pub open spec fn waits(self) -> Option<u64> {
        if self.phase == Phase::Length {
            Some(IDLE_TIMEOUT)
        } else {
            None
        }
    }

    /// For how many milliseconds the connection waits before it is closed. Only the
    /// wait for a query to begin is bounded: a query that has begun may take as long as
    /// it takes to send, and so may the queries under way.
    pub fn patience(&self) -> (r: Option<u64>)
        ensures
            r == self.waits(),
    {
        match self.phase {
            Phase::Length => Some(IDLE_TIMEOUT),
            Phase::Body(_) => None,
            Phase::Slot => None,
            Phase::Closed => None,
        }
    }

    pub fn new() -> (r: Self)
        ensures
            r.wf(),
            r.phase == Phase::Length,
            r.in_flight == 0,
    {
        Connection { phase: Phase::Length, in_flight: 0 }
    }

    pub fn on_event(&mut self, event: Event) -> (r: Action)
        requires
            old(self).wf(),
            old(self).expects(event),
        ensures
            final(self).wf(),
            r == old(self).action(event),
            *final(self) == old(self).after(event),
    {
        match event {
            Event::Length(high, low) => {
                let n: usize = high as usize * 256 + low as usize;
                if n == 0 {
                    self.phase = Phase::Closed;
                    return Action::Close;
                }
                self.phase = Phase::Body(n);
                Action::ReadBody(n)
            },
            Event::Ended => {
                self.phase = Phase::Closed;
                Action::Close
            },
            Event::Idle => {
                self.phase = Phase::Closed;
                Action::Close
            },
            Event::LengthFailed => {
                self.phase = Phase::Closed;
                Action::CloseOnLengthError
            },
            Event::BodyFailed => {
                self.phase = Phase::Closed;
                Action::CloseOnBodyError
            },
            Event::Body => {
                if self.in_flight < MAX_CONCURRENT_QUERIES_PER_CONNECTION {
                    self.in_flight = self.in_flight + 1;
                    self.phase = Phase::Length;
                    Action::Start
                } else {
                    self.phase = Phase::Slot;
                    Action::Hold
                }
            },
            Event::Answered => match self.phase {
                Phase::Slot => {
                    self.phase = Phase::Length;
                    Action::Start
                },
                Phase::Length => {
                    self.in_flight = self.in_flight - 1;
                    Action::ReadLength
                },
                Phase::Body(n) => {
                    self.in_flight = self.in_flight - 1;
                    Action::ReadBody(n)
                },
                Phase::Closed => {
                    self.in_flight = self.in_flight - 1;
                    Action::Close
                },
            },
        }
    }
}

/// The connection after a sequence of events, as long as these can happen.
pub open spec fn run(c: Connection, events: Seq<Event>) -> Connection
    decreases events.len(),
{
    if events.len() == 0 {
        c
    } else {
        run(c, events.drop_last()).after(events.last())
    }
}

pub open spec fn can_happen(c: Connection, events: Seq<Event>) -> bool
    decreases events.len(),
{
    events.len() == 0 || {
        &&& can_happen(c, events.drop_last())
        &&& run(c, events.drop_last()).expects(events.last())
    }
}

/// However much a client sends at once, no more of its queries are under way than
/// allowed; and once the connection is closed, no more are started.
pub proof fn law_queries_are_bounded(c: Connection, events: Seq<Event>)
    requires
        c.wf(),
        can_happen(c, events),
    ensures
        run(c, events).in_flight <= MAX_CONCURRENT_QUERIES_PER_CONNECTION,
        run(c, events).wf(),
        c.phase == Phase::Closed ==> run(c, events).phase == Phase::Closed && run(c, events).in_flight
            <= c.in_flight,
    decreases events.len(),
{
    if events.len() > 0 {
        law_queries_are_bounded(c, events.drop_last());
    }
}

/// A connection on which the client begins no query is closed, without an error:
/// nothing more is read, and the queries under way are still answered. Within a query
/// a connection is never idle.
pub proof fn law_silence_closes_a_connection(c: Connection)
    requires
        c.wf(),
    ensures
        c.expects(Event::Idle) <==> c.phase == Phase::Length,
        c.action(Event::Idle) == Action::Close,
        c.after(Event::Idle).phase == Phase::Closed,
        c.after(Event::Idle).in_flight == c.in_flight,
{
}

/// Answering a query does not disturb what is being read: the connection goes on
/// waiting for the very bytes it waited for, with one query less under way. Only where
/// a query was held back does an answer change what is done: that query is started in
/// the place of the one that was answered, and the next one is read.
pub proof fn law_answers_do_not_disturb_reading(c: Connection)
    requires
        c.wf(),
        c.in_flight > 0,
    ensures
        c.expects(Event::Answered),
        c.phase != Phase::Slot ==> {
            &&& c.after(Event::Answered).phase == c.phase
            &&& c.after(Event::Answered).in_flight == c.in_flight - 1
        },
        c.phase == Phase::Slot ==> {
            &&& c.action(Event::Answered) == Action::Start
            &&& c.after(Event::Answered).phase == Phase::Length
            &&& c.after(Event::Answered).in_flight == c.in_flight
        },
{
}

/// A connection is closed by nothing but its client ending it or falling silent, a
/// failed read, or a query of no length. An answer, a query, and a length of one or
/// more keep it open, and a connection that is closed stays closed.
pub proof fn law_what_closes_a_connection(c: Connection, event: Event)
    requires
        c.wf(),
        c.expects(event),
    ensures
        c.after(event).phase == Phase::Closed <==> {
            ||| c.phase == Phase::Closed
            ||| event == Event::Ended
            ||| event == Event::Idle
            ||| event == Event::LengthFailed
            ||| event == Event::BodyFailed
            ||| event == Event::Length(0, 0)
        },
        c.action(event) == Action::CloseOnLengthError <==> event == Event::LengthFailed,
        c.action(event) == Action::CloseOnBodyError <==> event == Event::BodyFailed,
{
}

/// What is to be done is what the connection then waits for: the length, so many bytes
/// of a query, a query to be done, or nothing.
pub proof fn law_actions_are_what_is_waited_for(c: Connection, event: Event, n: usize)
    requires
        c.wf(),
        c.expects(event),
    ensures
        c.after(event).phase == Phase::Length <==> c.action(event) == Action::ReadLength || c.action(
            event,
        ) == Action::Start,
        c.after(event).phase == Phase::Body(n) <==> c.action(event) == Action::ReadBody(n),
        c.after(event).phase == Phase::Slot <==> c.action(event) == Action::Hold,
        c.after(event).phase == Phase::Closed <==> c.action(event) == Action::Close || c.action(
            event,
        ) == Action::CloseOnLengthError || c.action(event) == Action::CloseOnBodyError,
{
}

/// A length that is not zero is that of the query: so many bytes are read next, neither
/// more nor fewer. What is under way is not touched.
pub proof fn law_as_much_is_read_as_announced(c: Connection, high: u8, low: u8)
    requires
        c.wf(),
        c.phase == Phase::Length,
        high > 0 || low > 0,
    ensures
        c.action(Event::Length(high, low)) == Action::ReadBody((256 * high + low) as usize),
        c.after(Event::Length(high, low)).phase == Phase::Body((256 * high + low) as usize),
        c.after(Event::Length(high, low)).in_flight == c.in_flight,
{
}

/// A query that was read is started at once while fewer than 32 are under way, and then
/// the next one is read. It is held back only when there are 32.
pub proof fn law_queries_are_started_as_they_come(c: Connection)
    requires
        c.wf(),
        c.phase is Body,
    ensures
        c.in_flight < 32 ==> {
            &&& c.action(Event::Body) == Action::Start
            &&& c.after(Event::Body).phase == Phase::Length
            &&& c.after(Event::Body).in_flight == c.in_flight + 1
        },
        c.in_flight >= 32 ==> {
            &&& c.in_flight == 32
            &&& c.action(Event::Body) == Action::Hold
            &&& c.after(Event::Body).phase == Phase::Slot
            &&& c.after(Event::Body).in_flight == c.in_flight
        },
{
}

/// The length of a query, the client's end, its silence and a failed read of the length
/// can come while a length is waited for; a query, and a failed read of one, while that
/// query is; and an answer whenever a query is under way, whatever is waited for.
pub proof fn law_what_can_happen(c: Connection, high: u8, low: u8)
    ensures
        c.expects(Event::Length(high, low)) <==> c.phase == Phase::Length,
        c.expects(Event::Ended) <==> c.phase == Phase::Length,
        c.expects(Event::LengthFailed) <==> c.phase == Phase::Length,
        c.expects(Event::Idle) <==> c.phase == Phase::Length,
        c.expects(Event::Body) <==> c.phase is Body,
        c.expects(Event::BodyFailed) <==> c.phase is Body,
        c.expects(Event::Answered) <==> c.in_flight > 0,
{
}

/// How often an event happened.
pub open spec fn times(events: Seq<Event>, event: Event) -> int
    decreases events.len(),
{
    if events.len() == 0 {
        0
    } else {
        times(events.drop_last(), event) + if events.last() == event {
            1int
        } else {
            0
        }
    }
}

/// No query gets lost: of those that were read, each has been answered, is under way or
/// is the one held back, whatever happened in between.
pub proof fn law_every_query_is_accounted_for(c: Connection, events: Seq<Event>)
    requires
        c.wf(),
        c.phase == Phase::Length,
        c.in_flight == 0,
        can_happen(c, events),
    ensures
        times(events, Event::Body) == times(events, Event::Answered) + run(c, events).in_flight + (
        if run(c, events).phase == Phase::Slot {
            1int
        } else {
            0
        }),
    decreases events.len(),
{
    if events.len() > 0 {
        law_every_query_is_accounted_for(c, events.drop_last());
        law_queries_are_bounded(c, events.drop_last());
    }
}

/// Only the wait for a query to begin is bounded, by two minutes. Neither a query that
/// has begun nor one that is under way is ever given up for being slow.
pub proof fn law_only_silence_is_timed(c: Connection)
    ensures
        c.phase == Phase::Length ==> c.waits() == Some(120_000u64),
        c.phase != Phase::Length ==> c.waits() is None,
        c.waits() is Some <==> c.expects(Event::Idle),
{
}

/// Whether another client may connect.
pub open spec fn admitted(open: usize) -> bool {
    open < MAX_CONCURRENT_CONNECTIONS
}

/// The first 1024 clients are served and every further one is turned away.
pub proof fn law_clients_past_the_limit_are_turned_away(open: usize)
    ensures
        admitted(open) <==> open + 1 <= 1024,
{
}

/// Whether another client may connect. One too many is turned away at once rather
/// than kept waiting.
pub fn admits(open: usize) -> (r: bool)
    ensures
        r == admitted(open),
{
    open < MAX_CONCURRENT_CONNECTIONS
}

} // verus!
