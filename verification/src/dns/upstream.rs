//! Which upstream is asked when, and what counts as the answer.
//!
//! Asking takes time and is left to the caller. The functions here say whom to ask
//! next and for how long to wait, and are told what came of it.

use rustls_pki_types::ServerName;
use vstd::prelude::*;
use vstd::string::*;

use crate::config::{dot_entry, UpstreamConfig, UpstreamStrategy, UpstreamView};

use crate::dns::handler::Reply;
use crate::dns::message::{
    decode_message, id_of, law_set_id, message_in, reencode_message, reencoded_message, set_id,
    with_id, DecodedMessage, MessageView,
};
use crate::ip::{ip, parse_ip, IpAddr};
use crate::octets::be16;
use crate::text::{
    decimal, drop_class_end, push_decimal, skip_class, to_chars, trim_end, trim_start, CharClass,
};
use crate::text_laws::{law_trimming_the_end, law_trimming_the_start};

verus! {

/// For how long a query waits for its upstreams, in milliseconds.
pub const UPSTREAM_TIMEOUT: u64 = 5_000;

/// How long the preferred upstream gets to answer before a hedged query is sent to
/// the next one, in milliseconds. Healthy nearby resolvers finish comfortably within
/// this; a slow one no longer owns the entire client-visible critical path.
pub const HEDGE_DELAY: u64 = 25;

/// How often an idle connection to an upstream is used to keep it open, in
/// milliseconds. Well under the time after which public resolvers close one.
pub const KEEPALIVE_INTERVAL: u64 = 20_000;

/// How `MultiUpstream` spreads a query across its configured upstreams.
#[derive(Debug, Clone, Copy, PartialEq, Eq, Structural)]
pub enum Strategy {
    /// Try each upstream in order, falling back on failure or timeout.
    Sequential,
    /// Start in order with `HEDGE_DELAY` between attempts; use the first successful
    /// answer.
    Hedged,
    /// Query every upstream at once, use whichever answers first.
    Race,
}

impl From<UpstreamStrategy> for Strategy {
    fn from(value: UpstreamStrategy) -> (r: Self) {
        match value {
            UpstreamStrategy::Sequential => Strategy::Sequential,
            UpstreamStrategy::Hedged => Strategy::Hedged,
            UpstreamStrategy::Race => Strategy::Race,
        }
    }
}

impl vstd::std_specs::convert::FromSpecImpl<UpstreamStrategy> for Strategy {
    open spec fn obeys_from_spec() -> bool {
        true
    }

    open spec fn from_spec(value: UpstreamStrategy) -> Self {
        match value {
            UpstreamStrategy::Sequential => Strategy::Sequential,
            UpstreamStrategy::Hedged => Strategy::Hedged,
            UpstreamStrategy::Race => Strategy::Race,
        }
    }
}

/// Several upstreams, and how a query is spread across them.
pub struct MultiUpstream<U> {
    pub upstreams: Vec<U>,
    pub strategy: Strategy,
}

impl<U> MultiUpstream<U> {
    pub fn new(upstreams: Vec<U>, strategy: Strategy) -> (r: Self)
        ensures
            r.upstreams == upstreams,
            r.strategy == strategy,
    {
        MultiUpstream { upstreams, strategy }
    }

    /// What a query is answered, whatever the strategy, given what it settled on. Each
    /// attempt has an id of its own; the query's id is restored on the reply that was
    /// chosen, and nothing else is changed. An error is handed on as it is.
    pub fn resolve<E>(&self, query_id: u16, settled: Result<Reply, E>) -> (r: Result<Reply, E>)
        ensures
            match settled {
                Ok(reply) => r matches Ok(out) && out.raw@ == with_id(reply.raw@, query_id)
                    && out.message@ == (MessageView { id: query_id, ..reply.message@ }),
                Err(e) => r == Err::<Reply, E>(e),
            },
    {
        match settled {
            Ok(reply) => {
                let mut raw: Vec<u8> = reply.raw;
                set_id(&mut raw, query_id);
                let mut message: DecodedMessage = reply.message;
                message.id = query_id;
                Ok(Reply { raw, message })
            },
            Err(e) => Err(e),
        }
    }
}

/// Why no upstream gave an answer. The numbers are the upstreams' positions.
#[derive(Debug, Clone, Copy, PartialEq, Eq, Structural)]
pub enum UpstreamError {
    /// There are no upstreams.
    NoneConfigured,
    /// The upstream did not answer in time.
    TimedOut(usize),
    /// The upstream failed, with an error of its own.
    Failed(usize),
    /// None of the hedged queries was answered in time.
    AllTimedOut,
}

impl UpstreamError {
    /// What went wrong, in words. An upstream goes by its label; one that failed
    /// has an error of its own.
    pub open spec fn text(self, label: Seq<char>) -> Seq<char> {
        match self {
            UpstreamError::NoneConfigured => "no upstream resolvers configured"@,
            UpstreamError::TimedOut(_) => "timed out querying "@ + label,
            UpstreamError::Failed(_) => "failed querying "@ + label,
            UpstreamError::AllTimedOut => "all hedged upstream queries timed out"@,
        }
    }

    pub fn message(&self, label: &str) -> (r: String)
        ensures
            r@ == self.text(label@),
    {
        match self {
            UpstreamError::NoneConfigured => "no upstream resolvers configured".to_owned(),
            UpstreamError::TimedOut(_) => {
                let mut r: String = "timed out querying ".to_owned();
                r.append(label);
                r
            },
            UpstreamError::Failed(_) => {
                let mut r: String = "failed querying ".to_owned();
                r.append(label);
                r
            },
            UpstreamError::AllTimedOut => "all hedged upstream queries timed out".to_owned(),
        }
    }
}

/// What came of asking an upstream that did not answer.
#[derive(Debug, Clone, Copy, PartialEq, Eq, Structural)]
pub enum Unanswered {
    Failed,
    TimedOut,
}

/// The error of the upstream at a position.
pub open spec fn error_at(index: usize, outcome: Unanswered) -> UpstreamError {
    match outcome {
        Unanswered::Failed => UpstreamError::Failed(index),
        Unanswered::TimedOut => UpstreamError::TimedOut(index),
    }
}

fn error_for(index: usize, outcome: Unanswered) -> (r: UpstreamError)
    ensures
        r == error_at(index, outcome),
{
    match outcome {
        Unanswered::Failed => UpstreamError::Failed(index),
        Unanswered::TimedOut => UpstreamError::TimedOut(index),
    }
}

/// What to do next.
#[derive(Debug, Clone, Copy, PartialEq, Eq, Structural)]
pub enum Ask {
    /// Ask the upstream at this position, and wait for so many milliseconds.
    Upstream(usize, u64),
    /// Give up.
    GiveUp(UpstreamError),
}

/// A query that asks one upstream after the other.
///
/// Falling back across several upstreams must not cost several times the timeout:
/// a client waiting on the query has its own. So the whole attempt is bound by a
/// single deadline.
#[derive(Clone, Copy)]
pub struct Sequential {
    pub total: usize,
    pub next: usize,
    pub deadline: u64,
    pub last: Option<UpstreamError>,
}

impl Sequential {
    pub open spec fn wf(self) -> bool {
        &&& self.next <= self.total
        &&& self.next > 0 ==> self.last is Some
    }

    /// Whom to ask at a given time: the next upstream, until the deadline.
    pub open spec fn ask(self, now: u64) -> Ask {
        if self.next >= self.total {
            match self.last {
                Some(e) => Ask::GiveUp(e),
                None => Ask::GiveUp(UpstreamError::NoneConfigured),
            }
        } else if now >= self.deadline {
            Ask::GiveUp(UpstreamError::TimedOut(self.next))
        } else {
            Ask::Upstream(self.next, (self.deadline - now) as u64)
        }
    }

    /// The upstream that was asked did not answer.
    pub open spec fn after(self, outcome: Unanswered) -> Self {
        Sequential {
            total: self.total,
            next: (self.next + 1) as usize,
            deadline: self.deadline,
            last: Some(error_at(self.next, outcome)),
        }
    }

    pub fn start(total: usize, now: u64) -> (r: Self)
        requires
            now + UPSTREAM_TIMEOUT <= u64::MAX,
        ensures
            r.wf(),
            r.total == total,
            r.next == 0,
            r.deadline == now + UPSTREAM_TIMEOUT,
            r.last is None,
    {
        Sequential { total, next: 0, deadline: now + UPSTREAM_TIMEOUT, last: None }
    }

    pub fn next_ask(&self, now: u64) -> (r: Ask)
        ensures
            r == self.ask(now),
    {
        if self.next >= self.total {
            match self.last {
                Some(e) => Ask::GiveUp(e),
                None => Ask::GiveUp(UpstreamError::NoneConfigured),
            }
        } else if now >= self.deadline {
            Ask::GiveUp(UpstreamError::TimedOut(self.next))
        } else {
            Ask::Upstream(self.next, self.deadline - now)
        }
    }

    pub fn unanswered(&mut self, outcome: Unanswered)
        requires
            old(self).next < old(self).total,
        ensures
            *final(self) == old(self).after(outcome),
            final(self).wf(),
    {
        self.last = Some(error_for(self.next, outcome));
        self.next = self.next + 1;
    }
}

/// The state after the first upstreams did not answer, as `outcomes` has it.
pub open spec fn after_all(s: Sequential, outcomes: Seq<Unanswered>) -> Sequential
    decreases outcomes.len(),
{
    if outcomes.len() == 0 {
        s
    } else {
        after_all(s, outcomes.drop_last()).after(outcomes.last())
    }
}

/// Upstreams are asked in order, each once: after as many have not answered, the
/// next one is asked, for no longer than until the one deadline. Only when all have
/// been asked, or the deadline has passed, is the query given up, with the error of
/// the upstream that was asked last.
pub proof fn law_sequential_asks_in_order(
    s: Sequential,
    outcomes: Seq<Unanswered>,
    started: u64,
    now: u64,
)
    requires
        s.next == 0,
        s.last is None,
        s.deadline == started + UPSTREAM_TIMEOUT,
        outcomes.len() <= s.total,
        started <= now,
    ensures
        match after_all(s, outcomes).ask(now) {
            Ask::Upstream(index, wait) => index == outcomes.len() && index < s.total && now + wait
                == started + 5_000 && wait > 0,
            Ask::GiveUp(e) => {
                ||| s.total == 0 && e == UpstreamError::NoneConfigured
                ||| outcomes.len() == s.total && s.total > 0 && e == (match outcomes.last() {
                    Unanswered::Failed => UpstreamError::Failed((s.total - 1) as usize),
                    Unanswered::TimedOut => UpstreamError::TimedOut((s.total - 1) as usize),
                })
                ||| outcomes.len() < s.total && now >= started + 5_000 && e
                    == UpstreamError::TimedOut(outcomes.len() as usize)
            },
        },
{
    lemma_after_all(s, outcomes);
}

proof fn lemma_after_all(s: Sequential, outcomes: Seq<Unanswered>)
    requires
        s.next == 0,
        s.last is None,
        outcomes.len() <= s.total,
    ensures
        ({
            let a = after_all(s, outcomes);
            &&& a.total == s.total
            &&& a.deadline == s.deadline
            &&& a.next == outcomes.len()
            &&& a.last == (if outcomes.len() == 0 {
                None
            } else {
                Some(error_at((outcomes.len() - 1) as usize, outcomes.last()))
            })
        }),
    decreases outcomes.len(),
{
    if outcomes.len() > 0 {
        lemma_after_all(s, outcomes.drop_last());
    }
}

/// When an upstream is asked, and for how long it may take.
#[derive(Debug, Clone, Copy, PartialEq, Eq, Structural)]
pub struct Attempt {
    /// Milliseconds after the start of the query.
    pub delay: u64,
    /// Milliseconds to wait for this upstream alone.
    pub timeout: Option<u64>,
}

/// How an upstream takes part in a query that asks several at once: in a race all
/// start together, each with a timeout of its own; a hedged query gives each
/// upstream a head start over the next.
pub open spec fn attempt_of(strategy: Strategy, index: int) -> (int, Option<u64>) {
    match strategy {
        Strategy::Hedged => (HEDGE_DELAY * index, None),
        _ => (0, Some(UPSTREAM_TIMEOUT)),
    }
}

pub fn attempt(strategy: Strategy, index: u32) -> (r: Attempt)
    ensures
        (r.delay as int, r.timeout) == attempt_of(strategy, index as int),
{
    match strategy {
        Strategy::Hedged => Attempt { delay: HEDGE_DELAY * index as u64, timeout: None },
        _ => Attempt { delay: 0, timeout: Some(UPSTREAM_TIMEOUT) },
    }
}

/// For how long a query that asks several upstreams at once waits in all, if that
/// is bounded as a whole.
pub open spec fn whole_timeout(strategy: Strategy) -> Option<u64> {
    if strategy == Strategy::Hedged {
        Some(UPSTREAM_TIMEOUT)
    } else {
        None
    }
}

/// For how long a query that asks several upstreams at once waits in all, if that
/// is bounded as a whole.
pub fn overall_timeout(strategy: Strategy) -> (r: Option<u64>)
    ensures
        r == whole_timeout(strategy),
{
    match strategy {
        Strategy::Hedged => Some(UPSTREAM_TIMEOUT),
        _ => None,
    }
}

/// The preferred upstream of a hedged query is asked at once, and every other one
/// `HEDGE_DELAY` after the one before it; in a race all are asked at once.
pub proof fn law_hedging_gives_a_head_start(index: int)
    requires
        index >= 0,
    ensures
        attempt_of(Strategy::Hedged, 0).0 == 0,
        attempt_of(Strategy::Hedged, index + 1).0 == attempt_of(Strategy::Hedged, index).0
            + HEDGE_DELAY,
        attempt_of(Strategy::Race, index).0 == 0,
{
    assert(HEDGE_DELAY * (index + 1) == HEDGE_DELAY * index + HEDGE_DELAY) by (nonlinear_arith);
}

/// In a race every upstream is asked at once and may take five seconds, as if it were
/// the only one. A hedged query asks the next upstream every 25 milliseconds, and has
/// five seconds as a whole: no upstream in it has a timeout of its own. So no answer
/// that comes within five seconds of the query is lost, and no query waits for longer
/// than five seconds after the last upstream was asked.
pub proof fn law_upstreams_get_their_time(index: int)
    requires
        index >= 0,
    ensures
        attempt_of(Strategy::Race, index) == (0int, Some(5_000u64)),
        whole_timeout(Strategy::Race) is None,
        attempt_of(Strategy::Hedged, index) == (25 * index, None::<u64>),
        whole_timeout(Strategy::Hedged) == Some(5_000u64),
{
}

/// A configured strategy is the one that is followed.
pub proof fn law_strategies_are_as_configured(value: UpstreamStrategy)
    ensures
        ({
            let r = <Strategy as vstd::std_specs::convert::FromSpec<UpstreamStrategy>>::from_spec(
                value,
            );
            &&& r == Strategy::Sequential <==> value == UpstreamStrategy::Sequential
            &&& r == Strategy::Hedged <==> value == UpstreamStrategy::Hedged
            &&& r == Strategy::Race <==> value == UpstreamStrategy::Race
        }),
{
}

/// What came of asking one of several upstreams at once.
#[derive(Debug, Clone, Copy, PartialEq, Eq, Structural)]
pub enum Outcome {
    Answered(usize),
    Unanswered(usize, Unanswered),
}

/// What becomes of a query that asks several upstreams at once: the first answer
/// is taken, and it fails with the error of the last one if none answers. `None`
/// while neither is settled.
pub open spec fn first_answer(total: nat, outcomes: Seq<Outcome>) -> Option<
    Result<usize, UpstreamError>,
>
    decreases outcomes.len(),
{
    if total == 0 {
        Some(Err(UpstreamError::NoneConfigured))
    } else if outcomes.len() == 0 {
        None
    } else {
        match outcomes[0] {
            Outcome::Answered(index) => Some(Ok(index)),
            Outcome::Unanswered(index, outcome) => if total == 1 {
                Some(Err(error_at(index, outcome)))
            } else {
                first_answer((total - 1) as nat, outcomes.drop_first())
            },
        }
    }
}

/// A query that asks several upstreams at once and takes the first answer.
#[derive(Clone, Copy)]
pub struct FirstAnswer {
    /// How many have neither answered nor failed.
    pub running: usize,
}

impl FirstAnswer {
    /// Without upstreams there is nothing to wait for.
    pub fn start(total: usize) -> (r: Result<Self, UpstreamError>)
        ensures
            match r {
                Ok(s) => total > 0 && s.running == total,
                Err(e) => total == 0 && e == UpstreamError::NoneConfigured,
            },
    {
        if total == 0 {
            return Err(UpstreamError::NoneConfigured);
        }
        Ok(FirstAnswer { running: total })
    }

    /// Takes note of what came of asking an upstream, and says whether that settles
    /// the query. If it does not, whatever comes next decides.
    pub fn note(&mut self, outcome: Outcome) -> (r: Option<Result<usize, UpstreamError>>)
        requires
            old(self).running > 0,
        ensures
            match r {
                Some(settled) => forall|rest: Seq<Outcome>| #[trigger]
                    first_answer(old(self).running as nat, seq![outcome] + rest) == Some(settled),
                None => final(self).running > 0 && forall|rest: Seq<Outcome>| #[trigger]
                    first_answer(old(self).running as nat, seq![outcome] + rest) == first_answer(
                        final(self).running as nat,
                        rest,
                    ),
            },
    {
        proof {
            assert forall|rest: Seq<Outcome>| #[trigger] (seq![outcome] + rest).drop_first()
                == rest by {
                assert((seq![outcome] + rest).drop_first() =~= rest);
            }
        }
        match outcome {
            Outcome::Answered(index) => Some(Ok(index)),
            Outcome::Unanswered(index, reason) => {
                if self.running == 1 {
                    return Some(Err(error_for(index, reason)));
                }
                self.running = self.running - 1;
                proof {
                    assert forall|rest: Seq<Outcome>| #[trigger]
                        first_answer(old(self).running as nat, seq![outcome] + rest)
                            == first_answer(self.running as nat, rest) by {
                        assert((seq![outcome] + rest).drop_first() == rest);
                        assert((seq![outcome] + rest)[0] == outcome);
                    }
                }
                None
            },
        }
    }
}

/// A query that asks all upstreams at once takes the first answer, however many
/// failed before it, and fails only when every upstream has failed, or when there
/// are none.
pub proof fn law_first_answer_wins(total: nat, outcomes: Seq<Outcome>)
    ensures
        match first_answer(total, outcomes) {
            Some(Ok(index)) => exists|k: int|
                {
                    &&& 0 <= k < total
                    &&& k < outcomes.len()
                    &&& #[trigger] outcomes[k] == Outcome::Answered(index)
                    &&& forall|j: int| 0 <= j < k ==> (#[trigger] outcomes[j]) is Unanswered
                },
            Some(Err(_)) => total <= outcomes.len() && forall|j: int|
                0 <= j < total ==> (#[trigger] outcomes[j]) is Unanswered,
            None => outcomes.len() < total && forall|j: int|
                0 <= j < outcomes.len() ==> (#[trigger] outcomes[j]) is Unanswered,
        },
    decreases outcomes.len(),
{
    if total > 0 && outcomes.len() > 0 {
        match outcomes[0] {
            Outcome::Answered(index) => {
                assert(outcomes[0] == Outcome::Answered(index));
            },
            Outcome::Unanswered(index, outcome) => {
                if total > 1 {
                    let rest = outcomes.drop_first();
                    law_first_answer_wins((total - 1) as nat, rest);
                    assert(forall|j: int| 0 <= j < rest.len() ==> rest[j] == outcomes[j + 1]);
                    assert(forall|j: int|
                        0 < j < outcomes.len() ==> #[trigger] outcomes[j] == rest[j - 1]);
                    if let Some(Ok(i)) = first_answer((total - 1) as nat, rest) {
                        let k = choose|k: int|
                            {
                                &&& 0 <= k < total - 1
                                &&& k < rest.len()
                                &&& #[trigger] rest[k] == Outcome::Answered(i)
                                &&& forall|j: int| 0 <= j < k ==> (#[trigger] rest[j]) is Unanswered
                            };
                        assert(outcomes[k + 1] == Outcome::Answered(i));
                    }
                }
            },
        }
    }
}

/// A query that none of the upstreams answered fails with the error of the one that
/// failed last, and one without upstreams says that there are none. A query fails for
/// no other reason.
pub proof fn law_the_last_error_is_reported(total: nat, outcomes: Seq<Outcome>, e: UpstreamError)
    requires
        first_answer(total, outcomes) == Some(Err::<usize, UpstreamError>(e)),
    ensures
        total == 0 ==> e == UpstreamError::NoneConfigured,
        total > 0 ==> {
            &&& total <= outcomes.len()
            &&& outcomes[total - 1] matches Outcome::Unanswered(index, outcome) && (
            e == match outcome {
                Unanswered::Failed => UpstreamError::Failed(index),
                Unanswered::TimedOut => UpstreamError::TimedOut(index),
            })
        },
    decreases outcomes.len(),
{
    if total > 1 {
        let rest = outcomes.drop_first();
        law_the_last_error_is_reported((total - 1) as nat, rest, e);
        assert(outcomes[total - 1] == rest[total - 2]);
    }
}

/// One step of a query that asks one upstream after the other: when it was taken, and
/// what came of it. `None` is an answer.
pub struct Tried {
    pub now: u64,
    pub unanswered: Option<Unanswered>,
}

/// What becomes of a query that asks one upstream after the other: the first answer is
/// taken. `None` while nothing is settled.
pub open spec fn sequential_answer(s: Sequential, tried: Seq<Tried>) -> Option<
    Result<usize, UpstreamError>,
>
    decreases tried.len(),
{
    if tried.len() == 0 {
        None
    } else {
        match s.ask(tried[0].now) {
            Ask::GiveUp(e) => Some(Err(e)),
            Ask::Upstream(index, _) => match tried[0].unanswered {
                None => Some(Ok(index)),
                Some(outcome) => sequential_answer(s.after(outcome), tried.drop_first()),
            },
        }
    }
}

/// What happened while a query was resolved: the steps of a sequential one; for one
/// that asks several upstreams at once, the outcomes as they came, and whether the
/// time for all of them ran out.
pub struct Run {
    pub started: u64,
    pub tried: Seq<Tried>,
    pub outcomes: Seq<Outcome>,
    pub expired: bool,
}

/// Which upstream's answer a strategy settles on, or with which error it fails. `None`
/// while nothing is settled.
pub open spec fn settled_on(strategy: Strategy, total: usize, run: Run) -> Option<
    Result<usize, UpstreamError>,
> {
    match strategy {
        Strategy::Sequential => sequential_answer(
            Sequential {
                total,
                next: 0,
                deadline: (run.started + UPSTREAM_TIMEOUT) as u64,
                last: None,
            },
            run.tried,
        ),
        Strategy::Race => first_answer(total as nat, run.outcomes),
        Strategy::Hedged => match first_answer(total as nat, run.outcomes) {
            Some(r) => Some(r),
            None => if run.expired {
                Some(Err(UpstreamError::AllTimedOut))
            } else {
                None
            },
        },
    }
}

/// Whether the upstream at a position answered.
pub open spec fn has_answered(strategy: Strategy, run: Run, index: usize) -> bool {
    match strategy {
        Strategy::Sequential => index < run.tried.len() && run.tried[index as int].unanswered is None,
        _ => run.outcomes.contains(Outcome::Answered(index)),
    }
}

/// What a query is answered: the reply of the upstream that its strategy settled on,
/// under the query's id, or the strategy's error.
pub open spec fn resolved(
    settled: Result<usize, UpstreamError>,
    replies: spec_fn(usize) -> Seq<u8>,
    query_id: u16,
) -> Result<Seq<u8>, UpstreamError> {
    match settled {
        Ok(index) => Ok(with_id(replies(index), query_id)),
        Err(e) => Err(e),
    }
}

/// Under every strategy, a query is answered with the message of an upstream that
/// answered, under the query's id whatever id it bore, and otherwise unchanged; and a
/// strategy's error is handed on as it is.
pub proof fn law_every_strategy_restores_the_id(
    strategy: Strategy,
    total: usize,
    run: Run,
    replies: spec_fn(usize) -> Seq<u8>,
    query_id: u16,
)
    requires
        settled_on(strategy, total, run) is Some,
        forall|i: usize| (#[trigger] replies(i)).len() >= 2,
        run.started + UPSTREAM_TIMEOUT <= u64::MAX,
    ensures
        match settled_on(strategy, total, run)->0 {
            Ok(index) => {
                &&& has_answered(strategy, run, index)
                &&& resolved(Ok(index), replies, query_id) matches Ok(wire) && id_of(wire)
                    == query_id && wire.skip(2) == replies(index).skip(2) && wire.len()
                    == replies(index).len()
            },
            Err(e) => resolved(Err(e), replies, query_id) == Err::<Seq<u8>, UpstreamError>(e),
        },
{
    match settled_on(strategy, total, run)->0 {
        Ok(index) => {
            law_set_id(replies(index), query_id, 0);
            match strategy {
                Strategy::Sequential => {
                    let s = Sequential {
                        total,
                        next: 0,
                        deadline: (run.started + UPSTREAM_TIMEOUT) as u64,
                        last: None,
                    };
                    lemma_sequential_answer(s, run.tried);
                },
                _ => {
                    law_first_answer_wins(total as nat, run.outcomes);
                    let k = choose|k: int|
                        {
                            &&& 0 <= k < total
                            &&& k < run.outcomes.len()
                            &&& #[trigger] run.outcomes[k] == Outcome::Answered(index)
                            &&& forall|j: int|
                                0 <= j < k ==> (#[trigger] run.outcomes[j]) is Unanswered
                        };
                    assert(run.outcomes[k] == Outcome::Answered(index));
                },
            }
        },
        Err(_) => {},
    }
}

proof fn lemma_sequential_answer(s: Sequential, tried: Seq<Tried>)
    requires
        sequential_answer(s, tried) matches Some(Ok(_)),
    ensures
        ({
            let index = sequential_answer(s, tried)->0->Ok_0;
            &&& s.next <= index < s.total
            &&& index - s.next < tried.len()
            &&& tried[index - s.next].unanswered is None
        }),
    decreases tried.len(),
{
    if let Some(outcome) = tried[0].unanswered {
        let rest = tried.drop_first();
        lemma_sequential_answer(s.after(outcome), rest);
        let index = sequential_answer(s, tried)->0->Ok_0;
        assert(rest[index - s.next - 1] == tried[index - s.next]);
    }
}

/// What a DoH upstream is sent: the query, encoded anew, under an id of its own.
pub fn doh_request(raw: &[u8], id: u16) -> (r: Result<Vec<u8>, String>)
    ensures
        match r {
            Ok(wire) => reencoded_message(raw@) matches Ok(w) && wire@ == with_id(w, id),
            Err(e) => reencoded_message(raw@) == Err::<Seq<u8>, Seq<char>>(e@),
        },
{
    match reencode_message(raw) {
        Ok(mut wire) => {
            set_id(&mut wire, id);
            Ok(wire)
        },
        Err(e) => Err(e),
    }
}

/// Why a DoH upstream's response was not used.
#[derive(Debug)]
pub enum DohFailure {
    /// It could not be decoded.
    Undecodable(String),
    /// It has another id than the query.
    WrongId,
}

/// Checks a DoH upstream's response, given what it decodes to.
pub fn check_doh_reply(raw: Vec<u8>, decoded: Result<DecodedMessage, String>, expected_id: u16) -> (r:
    Result<Reply, DohFailure>)
    ensures
        match r {
            Ok(reply) => {
                &&& decoded matches Ok(m) && reply.message == m && m.id == expected_id
                &&& reply.raw == raw
            },
            Err(DohFailure::Undecodable(e)) => decoded matches Err(cause) && e == cause,
            Err(DohFailure::WrongId) => decoded matches Ok(m) && m.id != expected_id,
        },
{
    match decoded {
        Ok(message) => if message.id == expected_id {
            Ok(Reply { raw, message })
        } else {
            Err(DohFailure::WrongId)
        },
        Err(e) => Err(DohFailure::Undecodable(e)),
    }
}

/// Decodes and checks a DoH upstream's response.
pub fn doh_reply(raw: Vec<u8>, expected_id: u16) -> (r: Result<Reply, DohFailure>)
    ensures
        match r {
            Ok(reply) => reply.raw == raw && reply.wf() && reply.message.id == expected_id,
            Err(DohFailure::Undecodable(e)) => message_in(raw@) == Err::<
                MessageView,
                Seq<char>,
            >(e@),
            Err(DohFailure::WrongId) => message_in(raw@) matches Ok(m) && m.id
                != expected_id,
        },
        message_in(raw@) matches Ok(m) && m.id == expected_id ==> r is Ok,
{
    let decoded: Result<DecodedMessage, String> = decode_message(raw.as_slice());
    check_doh_reply(raw, decoded, expected_id)
}

/// In what an HTTP request failed.
#[derive(Debug, Clone, Copy, PartialEq, Eq, Structural)]
pub struct HttpFailure {
    pub connect: bool,
    pub timeout: bool,
    pub request: bool,
    pub body: bool,
}

/// Whether a failed HTTP request may succeed over a fresh connection.
pub open spec fn may_succeed(failure: HttpFailure) -> bool {
    failure.connect || failure.timeout || failure.request || failure.body
}

/// Whether a failed HTTP request is tried again.
pub open spec fn tried_again(failure: HttpFailure, retried: bool) -> bool {
    !retried && may_succeed(failure)
}

/// A request that failed in connecting, in time, in being sent or in its body is tried
/// again, once. One that was answered with an error status failed in none of these, and
/// is not.
pub proof fn law_what_is_tried_again(failure: HttpFailure)
    ensures
        may_succeed(failure) <==> failure != (HttpFailure {
            connect: false,
            timeout: false,
            request: false,
            body: false,
        }),
        tried_again(failure, false) <==> may_succeed(failure),
        !tried_again(failure, true),
{
}

/// Whether a failed HTTP request may succeed over a fresh connection. A real HTTP
/// error status is not a connection problem and won't fix itself.
pub fn is_retryable(failure: &HttpFailure) -> (r: bool)
    ensures
        r == may_succeed(*failure),
{
    failure.connect || failure.timeout || failure.request || failure.body
}

/// Whether a failed HTTP request is tried again, which happens once.
pub fn should_retry_doh(failure: &HttpFailure, retried: bool) -> (r: bool)
    ensures
        r == tried_again(*failure, retried),
{
    !retried && is_retryable(failure)
}

/// The texts of an error and of what caused it, with colons between them.
pub open spec fn chain_text(parts: Seq<String>) -> Seq<char>
    decreases parts.len(),
{
    if parts.len() == 0 {
        seq![]
    } else if parts.len() == 1 {
        parts[0]@
    } else {
        chain_text(parts.drop_last()) + ": "@ + parts.last()@
    }
}

/// Describes an error by its own text and those of its causes, so that the actual
/// cause shows and not just that there was one.
pub fn describe_std_error(parts: &Vec<String>) -> (r: String)
    ensures
        r@ == chain_text(parts@),
{
    let n: usize = parts.len();
    let mut r: String = String::new();
    let mut i: usize = 0;
    assert(r@ =~= seq![]);
    while i < n
        invariant
            i <= n,
            n == parts@.len(),
            r@ == chain_text(parts@.take(i as int)),
        decreases n - i,
    {
        proof {
            assert(parts@.take(i + 1).drop_last() =~= parts@.take(i as int));
            assert(r@ + parts@[i as int]@ =~= parts@[i as int]@ || i > 0);
        }
        if i > 0 {
            r.append(": ");
        }
        r.append(parts[i].as_str());
        i = i + 1;
    }
    assert(parts@.take(n as int) =~= parts@);
    r
}

/// A query that every upstream answers, for the name servers of the root: sent to
/// have a connection established, or to keep it open.
pub open spec fn probe_wire() -> Seq<u8> {
    be16(0) + be16(0) + be16(1) + be16(0) + be16(0) + be16(0) + seq![0u8] + be16(2) + be16(1)
}

pub fn probe_query() -> (r: Vec<u8>)
    ensures
        r@ == probe_wire(),
{
    let r: Vec<u8> = vec![0u8, 0, 0, 0, 0, 1, 0, 0, 0, 0, 0, 0, 0, 0, 2, 0, 1];
    assert(r@ =~= probe_wire());
    r
}

/// The address that a host is, if it is an IP address, with or without brackets.
pub open spec fn literal_of(host: Seq<char>) -> Seq<char> {
    trim_end(trim_start(host, CharClass::SquareBracket), CharClass::SquareBracket)
}

/// The address of a host that needs no resolving.
pub fn literal_address(host: &str) -> (r: Option<IpAddr>)
    ensures
        match r {
            Some(a) => ip(literal_of(host@)) == Some(a@),
            None => ip(literal_of(host@)) is None,
        },
{
    let chars: Vec<char> = to_chars(host);
    parse_ip(
        drop_class_end(
            skip_class(chars.as_slice(), CharClass::SquareBracket),
            CharClass::SquareBracket,
        ),
    )
}

/// Whether a certificate can be checked against the name.
pub uninterp spec fn valid_server_name(name: Seq<char>) -> bool;

/// `ServerName::try_from` of `rustls_pki_types` accepts DNS names and IP addresses.
/// A name stands for whether it accepts the text.
#[verifier::external_body]
fn is_server_name(name: &str) -> (r: bool)
    ensures
        r == valid_server_name(name@),
{
    ServerName::try_from(name.to_string()).is_ok()
}

/// What an upstream is called in messages.
pub open spec fn label_of(config: UpstreamView) -> Seq<char> {
    match config {
        UpstreamView::Doh { url } => "doh://"@ + url,
        UpstreamView::Dot { host, port, tls_name } => "dot://"@ + host + ":"@ + decimal(
            port as nat,
        ),
    }
}

pub fn label(config: &UpstreamConfig) -> (r: String)
    ensures
        r@ == label_of(config@),
{
    match config {
        UpstreamConfig::Doh { url } => {
            let mut r: String = "doh://".to_owned();
            r.append(url.as_str());
            r
        },
        UpstreamConfig::Dot { host, port, tls_name: _ } => {
            let mut r: String = "dot://".to_owned();
            r.append(host.as_str());
            r.append(":");
            push_decimal(&mut r, *port as u64);
            r
        },
    }
}

/// The label of an upstream, given whether its TLS name is a valid one. If it is
/// not, the TLS name is returned as the error.
pub fn plan_upstream(config: &UpstreamConfig, name_is_valid: bool) -> (r: Result<String, String>)
    ensures
        match config@ {
            UpstreamView::Dot { host, port, tls_name } => if name_is_valid {
                r matches Ok(l) && l@ == label_of(config@)
            } else {
                r matches Err(name) && name@ == tls_name
            },
            UpstreamView::Doh { url } => r matches Ok(l) && l@ == label_of(config@),
        },
{
    match config {
        UpstreamConfig::Doh { url: _ } => Ok(label(config)),
        UpstreamConfig::Dot { host: _, port: _, tls_name } => if name_is_valid {
            Ok(label(config))
        } else {
            Err(tls_name.clone())
        },
    }
}

/// Whether an upstream can be used: its certificate can be checked.
pub open spec fn usable(config: UpstreamView) -> bool {
    match config {
        UpstreamView::Doh { url } => true,
        UpstreamView::Dot { host, port, tls_name } => valid_server_name(tls_name),
    }
}

/// A DoH upstream can always be used, and a DoT one if and only if a certificate can be
/// checked against its TLS name, whatever its host is called.
pub proof fn law_which_upstreams_can_be_used(
    url: Seq<char>,
    host: Seq<char>,
    port: u16,
    tls_name: Seq<char>,
)
    ensures
        usable(UpstreamView::Doh { url }),
        usable(UpstreamView::Dot { host, port, tls_name }) <==> valid_server_name(tls_name),
{
}

/// An idle connection is used every twenty seconds.
pub proof fn law_connections_are_kept_open()
    ensures
        KEEPALIVE_INTERVAL == 20 * 1000,
{
}

/// The labels of all upstreams, or the first TLS name that is not valid.
pub fn plan_upstreams(configs: &Vec<UpstreamConfig>) -> (r: Result<Vec<String>, String>)
    ensures
        match r {
            Ok(labels) => {
                &&& labels@.len() == configs@.len()
                &&& forall|i: int| #![trigger configs@[i]]
                    0 <= i < configs@.len() ==> usable(configs@[i]@) && labels@[i]@ == label_of(
                        configs@[i]@,
                    )
            },
            Err(name) => exists|i: int|
                {
                    &&& 0 <= i < configs@.len()
                    &&& (#[trigger] configs@[i])@ matches UpstreamView::Dot {
                        host,
                        port,
                        tls_name,
                    } && tls_name == name@ && !valid_server_name(name@)
                    &&& forall|j: int| 0 <= j < i ==> usable((#[trigger] configs@[j])@)
                },
        },
{
    let n: usize = configs.len();
    let mut labels: Vec<String> = Vec::new();
    let mut i: usize = 0;
    while i < n
        invariant
            i <= n,
            n == configs@.len(),
            labels@.len() == i,
            forall|j: int| #![trigger configs@[j]]
                0 <= j < i ==> usable(configs@[j]@) && labels@[j]@ == label_of(configs@[j]@),
        decreases n - i,
    {
        let name_is_valid: bool = match &configs[i] {
            UpstreamConfig::Doh { url: _ } => true,
            UpstreamConfig::Dot { host: _, port: _, tls_name } => is_server_name(tls_name.as_str()),
        };
        match plan_upstream(&configs[i], name_is_valid) {
            Ok(l) => {
                labels.push(l);
            },
            Err(name) => {
                assert(!usable(configs@[i as int]@));
                return Err(name);
            },
        }
        i = i + 1;
    }
    Ok(labels)
}

/// An error's description is made of those of its parts: the ones in front, a colon and
/// a blank, and the ones behind. One part is described by itself.
pub proof fn law_descriptions_are_joined_by_colons(front: Seq<String>, back: Seq<String>)
    requires
        front.len() > 0,
        back.len() > 0,
    ensures
        front.len() == 1 ==> chain_text(front) == front[0]@,
        chain_text(front + back) == chain_text(front) + seq![':', ' '] + chain_text(back),
    decreases back.len(),
{
    reveal_strlit(": ");
    assert(": "@ =~= seq![':', ' ']);
    let all = front + back;
    assert(all.drop_last() =~= front + back.drop_last());
    assert(all.last() == back.last());
    if back.len() == 1 {
        assert(all.drop_last() =~= front);
    } else {
        law_descriptions_are_joined_by_colons(front, back.drop_last());
        assert(chain_text(all) =~= chain_text(front) + seq![':', ' '] + chain_text(back));
    }
}

/// What keeps a connection open is a query like any other: under the id 0, with no
/// flags, and with the one question for the name servers of the root.
pub proof fn law_the_probe_asks_for_the_root_servers()
    ensures
        probe_wire().take(12) =~= seq![0u8, 0, 0, 0, 0, 1, 0, 0, 0, 0, 0, 0],
        probe_wire().skip(12) =~= seq![0u8, 0, 2, 0, 1],
{
}

/// An address may stand in square brackets, which are not part of it.
pub proof fn law_brackets_do_not_matter(host: Seq<char>)
    requires
        host.len() > 0,
        host[0] != '[' && host[0] != ']',
        host.last() != '[' && host.last() != ']',
    ensures
        literal_of(host) == host,
        literal_of(seq!['['] + host + seq![']']) == host,
{
    let class = CharClass::SquareBracket;
    let none = Seq::<char>::empty();
    law_trimming_the_start(none, host, class);
    law_trimming_the_end(host, none, class);
    assert(none + host =~= host);
    assert(host + none =~= host);
    let closed = host + seq![']'];
    assert(closed[0] == host[0]);
    law_trimming_the_start(seq!['['], closed, class);
    law_trimming_the_end(host, seq![']'], class);
    assert(seq!['['] + host + seq![']'] =~= seq!['['] + closed);
}

/// An upstream is called by where it is: a DoH one by its address on the web, a DoT one
/// by host and port as they are configured, whatever name its certificate has.
pub proof fn law_labels_say_where_an_upstream_is(
    url: Seq<char>,
    host: Seq<char>,
    port: u16,
    tls_name: Seq<char>,
)
    ensures
        label_of(UpstreamView::Doh { url }) == seq!['d', 'o', 'h', ':', '/', '/'] + url,
        label_of(UpstreamView::Dot { host, port, tls_name }) == seq!['d', 'o', 't', ':', '/', '/']
            + dot_entry(host, port, None).skip(6),
{
    reveal_strlit("doh://");
    reveal_strlit("dot://");
    reveal_strlit("tls://");
    reveal_strlit(":");
    assert("doh://"@ =~= seq!['d', 'o', 'h', ':', '/', '/']);
    assert("dot://"@ =~= seq!['d', 'o', 't', ':', '/', '/']);
    assert(label_of(UpstreamView::Dot { host, port, tls_name }) =~= seq![
        'd',
        'o',
        't',
        ':',
        '/',
        '/',
    ] + dot_entry(host, port, None).skip(6));
}

/// An error says what went wrong and, if it was an upstream's, by its label with which.
pub proof fn law_what_errors_say(index: usize, label: Seq<char>)
    ensures
        UpstreamError::NoneConfigured.text(label) == "no upstream resolvers configured"@,
        UpstreamError::TimedOut(index).text(label) == "timed out querying "@ + label,
        UpstreamError::Failed(index).text(label) == "failed querying "@ + label,
        UpstreamError::AllTimedOut.text(label) == "all hedged upstream queries timed out"@,
{
}

} // verus!
