//! How a query is answered: out of the static hosts, the response cache, the
//! blocklist, and finally by an upstream.
//!
//! Asking an upstream is left to the caller: `handle_query` either gives the reply
//! or says what to ask for, and `fetch_from_upstream` turns what came of it into
//! the reply.

use rustc_hash::FxHashSet;
use vstd::prelude::*;

use crate::blocklist::{domains_of, is_blocked};
use crate::config::{find_host, BlockMode, StaticHost};
use crate::dns::cache::{key_of, storable, CacheModel, ResponseCache, NANOS_PER_SECOND};
use crate::dns::message::{
    decode_message, decode_ttls, decoded_message, encode_or_servfail, error_response, error_wire,
    id_of, labels_ok, message_in, message_of, raw_id, reencode_message, reencoded_message,
    response_wire, set_id, with_id, Answer, Authority, DecodedMessage, MessageView, Question,
    QuestionView, RecordTtls, Response, TtlsView, FORM_ERR, HEADER_LEN, NO_ERROR, NX_DOMAIN,
    SERV_FAIL, TYPE_A,
};
use crate::octets::copied;
use crate::state::AppState;
use crate::text::{lower, lowered, to_chars};

verus! {

/// What to ask an upstream for, and under what to store the reply.
pub struct Fetch {
    pub id: u16,
    pub op_code: u8,
    pub qname: String,
    pub qtype: u16,
    pub qclass: u16,
}

#[verifier::ext_equal]
pub struct FetchView {
    pub id: u16,
    pub op_code: u8,
    pub qname: Seq<char>,
    pub qtype: u16,
    pub qclass: u16,
}

impl View for Fetch {
    type V = FetchView;

    open spec fn view(&self) -> FetchView {
        FetchView {
            id: self.id,
            op_code: self.op_code,
            qname: self.qname@,
            qtype: self.qtype,
            qclass: self.qclass,
        }
    }
}

/// What to do about a query.
pub enum Step {
    /// Send this reply.
    Reply(Vec<u8>),
    /// Ask an upstream.
    Fetch(Fetch),
}

pub enum StepView {
    Reply(Seq<u8>),
    Fetch(FetchView),
}

impl View for Step {
    type V = StepView;

    open spec fn view(&self) -> StepView {
        match self {
            Step::Reply(wire) => StepView::Reply(wire@),
            Step::Fetch(fetch) => StepView::Fetch(fetch@),
        }
    }
}

/// A response to the request with the given code and answer.
pub open spec fn response_to(
    request: MessageView,
    question: QuestionView,
    response_code: u16,
    answer: Option<Answer>,
) -> Seq<u8> {
    response_wire(
        request.id,
        request.op_code,
        request.recursion_desired,
        true,
        response_code,
        question,
        answer,
    )
}

/// The answer out of a static host. Only `A` is ever synthesized; any other type
/// yields no data rather than being forwarded, since overridden names are never
/// meant to leak.
pub open spec fn static_answer(question: QuestionView, host: StaticHost) -> Option<Answer> {
    if question.qtype == TYPE_A {
        Some(Answer { ttl: host.ttl, ip: host.ip })
    } else {
        None
    }
}

/// The response code for a blocked domain.
pub open spec fn blocked_code(mode: BlockMode) -> u16 {
    match mode {
        BlockMode::Nxdomain => NX_DOMAIN,
        BlockMode::Sinkhole => NO_ERROR,
    }
}

/// The answer for a blocked domain. Only `A` is sinkholed; no data blocks the other
/// types just as well.
pub open spec fn blocked_answer(state: AppState, question: QuestionView) -> Option<Answer> {
    if state.block_mode == BlockMode::Sinkhole && question.qtype == TYPE_A {
        Some(Answer { ttl: state.sinkhole_ttl, ip: state.sinkhole_ip })
    } else {
        None
    }
}

/// A question's name as a lookup key.
pub open spec fn qname_of(question: QuestionView) -> Seq<char> {
    lower(question.name)
}

/// The key under which a question's responses are cached.
pub open spec fn question_key(question: QuestionView) -> (u16, u16, Seq<u8>) {
    key_of(qname_of(question), question.qtype, question.qclass)
}

/// Whether the cache has something for the question.
pub open spec fn cache_hit(cache: ResponseCache, question: QuestionView, now: int) -> bool {
    &&& cache.enabled()
    &&& storable(qname_of(question))
    &&& cache.model().is_live(question_key(question), now)
}

/// What to do about a request with one question: static hosts come first, then the
/// cache, then the blocklist, and only then an upstream.
pub open spec fn question_step(
    state: AppState,
    blocked: Set<Seq<char>>,
    cache: ResponseCache,
    request: MessageView,
    now: int,
) -> StepView {
    let question = request.questions[0];
    let qname = qname_of(question);
    if state.hosts().contains_key(qname) {
        StepView::Reply(
            response_to(
                request,
                question,
                NO_ERROR,
                static_answer(question, state.hosts()[qname]),
            ),
        )
    } else if cache_hit(cache, question, now) {
        StepView::Reply(with_id(cache.model().entries[question_key(question)].bytes, request.id))
    } else if blocked.contains(qname) {
        StepView::Reply(
            response_to(
                request,
                question,
                blocked_code(state.block_mode),
                blocked_answer(state, question),
            ),
        )
    } else {
        StepView::Fetch(
            FetchView {
                id: request.id,
                op_code: request.op_code,
                qname,
                qtype: question.qtype,
                qclass: question.qclass,
            },
        )
    }
}

/// What to do about a request. One without exactly one question is malformed.
pub open spec fn request_step(
    state: AppState,
    blocked: Set<Seq<char>>,
    cache: ResponseCache,
    request: MessageView,
    now: int,
) -> StepView {
    if request.questions.len() != 1 {
        StepView::Reply(error_wire(request.id, request.op_code, FORM_ERR))
    } else {
        question_step(state, blocked, cache, request, now)
    }
}

/// The cache after a request: the question is looked up in it, unless there is a
/// static host for it.
pub open spec fn request_cache(
    state: AppState,
    cache: ResponseCache,
    request: MessageView,
    now: int,
) -> CacheModel {
    let question = request.questions[0];
    if request.questions.len() == 1 && !state.hosts().contains_key(qname_of(question))
        && cache.enabled() && storable(qname_of(question)) {
        cache.model().after_lookup(question_key(question), now)
    } else {
        cache.model()
    }
}

/// A request as it comes out of decoding.
pub open spec fn request_ok(request: MessageView) -> bool {
    &&& request.op_code < 16
    &&& forall|i: int| #![trigger request.questions[i]]
        0 <= i < request.questions.len() ==> labels_ok(request.questions[i].labels)
}

/// Answers directly from a configured static host.
fn static_response(request: &DecodedMessage, question: &Question, host: StaticHost) -> (r: Vec<u8>)
    requires
        request.op_code < 16,
        labels_ok(question@.labels),
    ensures
        r@ == response_to(request@, question@, NO_ERROR, static_answer(question@, host)),
{
    let answer: Option<Answer> = if question.qtype == TYPE_A {
        Some(Answer { ttl: host.ttl, ip: host.ip })
    } else {
        None
    };
    encode_or_servfail(
        &Response {
            id: request.id,
            op_code: request.op_code,
            recursion_desired: request.recursion_desired,
            recursion_available: true,
            response_code: NO_ERROR,
            question,
            answer,
        },
    )
}

/// Answers for a blocked domain.
fn blocked_response(state: &AppState, request: &DecodedMessage, question: &Question) -> (r: Vec<u8>)
    requires
        request.op_code < 16,
        labels_ok(question@.labels),
    ensures
        r@ == response_to(
            request@,
            question@,
            blocked_code(state.block_mode),
            blocked_answer(*state, question@),
        ),
{
    let mut response_code: u16 = NO_ERROR;
    let mut answer: Option<Answer> = None;
    match state.block_mode {
        BlockMode::Nxdomain => {
            response_code = NX_DOMAIN;
        },
        BlockMode::Sinkhole => {
            if question.qtype == TYPE_A {
                answer = Some(Answer { ttl: state.sinkhole_ttl, ip: state.sinkhole_ip });
            }
        },
    }
    encode_or_servfail(
        &Response {
            id: request.id,
            op_code: request.op_code,
            recursion_desired: request.recursion_desired,
            recursion_available: true,
            response_code,
            question,
            answer,
        },
    )
}

/// Resolves a decoded request against static hosts, the cache and the blocklist.
pub fn resolve(
    state: &AppState,
    blocklist: &FxHashSet<String>,
    cache: &mut ResponseCache,
    request: &DecodedMessage,
    now: u64,
) -> (r: Step)
    requires
        old(cache).wf(),
        request_ok(request@),
    ensures
        final(cache).wf(),
        final(cache).enabled() == old(cache).enabled(),
        final(cache).budget() == old(cache).budget(),
        r@ == request_step(*state, domains_of(*blocklist), *old(cache), request@, now as int),
        final(cache).model() == request_cache(*state, *old(cache), request@, now as int),
{
    if request.questions.len() != 1 {
        return Step::Reply(error_response(request.id, request.op_code, FORM_ERR));
    }
    let question: &Question = &request.questions[0];
    assert(request@.questions[0] == question@);
    let chars: Vec<char> = to_chars(question.name.as_str());
    let qname: String = lowered(chars.as_slice());
    if let Some(host) = find_host(&state.static_hosts, qname.as_str()) {
        return Step::Reply(static_response(request, question, host));
    }
    if let Some(mut wire) = cache.get(qname.as_str(), question.qtype, question.qclass, now) {
        set_id(&mut wire, request.id);
        return Step::Reply(wire);
    }
    if is_blocked(blocklist, qname.as_str()) {
        return Step::Reply(blocked_response(state, request, question));
    }
    Step::Fetch(
        Fetch {
            id: request.id,
            op_code: request.op_code,
            qname,
            qtype: question.qtype,
            qclass: question.qclass,
        },
    )
}

/// What to do about a query, given what its bytes decode to.
pub open spec fn query_step(
    state: AppState,
    blocked: Set<Seq<char>>,
    cache: ResponseCache,
    raw: Seq<u8>,
    decoded: Result<MessageView, Seq<char>>,
    now: int,
) -> StepView {
    match decoded {
        Ok(request) => request_step(state, blocked, cache, request, now),
        Err(_) => StepView::Reply(error_wire(id_of(raw), 0, FORM_ERR)),
    }
}

/// Parses a query's bytes and resolves it against static hosts, the cache and the
/// blocklist. A query that cannot be parsed is answered with FORMERR, under the id
/// in its first two bytes.
pub fn handle_query(
    state: &AppState,
    blocklist: &FxHashSet<String>,
    cache: &mut ResponseCache,
    raw: &[u8],
    now: u64,
) -> (r: Step)
    requires
        old(cache).wf(),
    ensures
        final(cache).wf(),
        final(cache).enabled() == old(cache).enabled(),
        final(cache).budget() == old(cache).budget(),
        r@ == query_step(
            *state,
            domains_of(*blocklist),
            *old(cache),
            raw@,
            message_in(raw@),
            now as int,
        ),
        final(cache).model() == (match message_in(raw@) {
            Ok(request) => request_cache(*state, *old(cache), request, now as int),
            Err(_) => old(cache).model(),
        }),
        message_in(raw@) matches Ok(request) ==> message_of(request, raw@),
{
    match decode_message(raw) {
        Ok(request) => resolve(state, blocklist, cache, &request, now),
        Err(_) => Step::Reply(error_response(raw_id(raw), 0, FORM_ERR)),
    }
}

/// The smallest number of a sequence that is not empty.
pub open spec fn least(ttls: Seq<u32>) -> u32
    decreases ttls.len(),
{
    if ttls.len() <= 1 {
        ttls[0]
    } else {
        let rest = least(ttls.drop_last());
        if ttls.last() < rest {
            ttls.last()
        } else {
            rest
        }
    }
}

/// How long the absence of an answer may be assumed, by the first SOA record: the
/// smaller one of its own time to live and the zone's for negative answers. 0
/// without an SOA record.
pub open spec fn negative_ttl(authorities: Seq<Authority>) -> u32
    decreases authorities.len(),
{
    if authorities.len() == 0 {
        0
    } else {
        match authorities[0].soa_minimum {
            Some(minimum) => if minimum < authorities[0].ttl {
                minimum
            } else {
                authorities[0].ttl
            },
            None => negative_ttl(authorities.drop_first()),
        }
    }
}

/// For how many seconds a response may be cached: as long as all of its answers are
/// valid. A response without answers, by which the name or its data do not exist,
/// may be cached if the zone says for how long. 0 means not at all.
pub open spec fn cache_ttl(ttls: TtlsView) -> u32 {
    if ttls.answers.len() > 0 {
        least(ttls.answers)
    } else if ttls.response_code == NX_DOMAIN || ttls.response_code == NO_ERROR {
        negative_ttl(ttls.authorities)
    } else {
        0
    }
}

/// For how many seconds the response in `raw` may be cached.
pub open spec fn raw_ttl(raw: Seq<u8>) -> u32 {
    match decoded_message(raw) {
        Ok(m) => cache_ttl(m.1),
        Err(_) => 0,
    }
}

fn least_ttl(ttls: &Vec<u32>) -> (r: u32)
    requires
        ttls@.len() > 0,
    ensures
        r == least(ttls@),
{
    let n: usize = ttls.len();
    let mut r: u32 = ttls[0];
    let mut i: usize = 1;
    while i < n
        invariant
            1 <= i <= n,
            n == ttls@.len(),
            r == least(ttls@.take(i as int)),
        decreases n - i,
    {
        assert(ttls@.take(i + 1).drop_last() =~= ttls@.take(i as int));
        if ttls[i] < r {
            r = ttls[i];
        }
        i = i + 1;
    }
    assert(ttls@.take(n as int) =~= ttls@);
    r
}

fn soa_ttl(authorities: &Vec<Authority>) -> (r: u32)
    ensures
        r == negative_ttl(authorities@),
{
    let n: usize = authorities.len();
    let mut i: usize = 0;
    assert(authorities@.skip(0) =~= authorities@);
    while i < n
        invariant
            i <= n,
            n == authorities@.len(),
            negative_ttl(authorities@) == negative_ttl(authorities@.skip(i as int)),
        decreases n - i,
    {
        let ghost rest = authorities@.skip(i as int);
        assert(rest[0] == authorities@[i as int]);
        assert(rest.drop_first() =~= authorities@.skip(i + 1));
        if let Some(minimum) = authorities[i].soa_minimum {
            return if minimum < authorities[i].ttl {
                minimum
            } else {
                authorities[i].ttl
            };
        }
        i = i + 1;
    }
    0
}

/// For how many seconds a response may be cached.
pub fn response_ttl(ttls: &RecordTtls) -> (r: u32)
    ensures
        r == cache_ttl(ttls@),
{
    if ttls.answers.len() > 0 {
        least_ttl(&ttls.answers)
    } else if ttls.response_code == NX_DOMAIN || ttls.response_code == NO_ERROR {
        soa_ttl(&ttls.authorities)
    } else {
        0
    }
}

/// A reply of an upstream: its bytes, and what they decode to.
pub struct Reply {
    pub raw: Vec<u8>,
    pub message: DecodedMessage,
}

impl Reply {
    pub open spec fn wf(&self) -> bool {
        message_in(self.raw@) == Ok::<MessageView, Seq<char>>(self.message@)
    }
}

/// What is sent for an upstream's reply: the reply, encoded anew and under the
/// request's id, or SERVFAIL if it cannot be encoded.
pub open spec fn reply_wire(fetch: FetchView, encoded: Result<Seq<u8>, Seq<char>>) -> Seq<u8> {
    match encoded {
        Ok(wire) => with_id(wire, fetch.id),
        Err(_) => error_wire(fetch.id, fetch.op_code, SERV_FAIL),
    }
}

/// What is sent if no upstream replied.
pub open spec fn unanswered_wire(fetch: FetchView) -> Seq<u8> {
    error_wire(fetch.id, fetch.op_code, SERV_FAIL)
}

/// The cache after an upstream's reply.
pub open spec fn reply_cache(
    cache: ResponseCache,
    fetch: FetchView,
    encoded: Result<Seq<u8>, Seq<char>>,
    ttl: u32,
    now: int,
) -> CacheModel {
    if ttl > 0 && cache.enabled() && storable(fetch.qname) {
        cache.model().insert(
            key_of(fetch.qname, fetch.qtype, fetch.qclass),
            now + ttl * NANOS_PER_SECOND,
            reply_wire(fetch, encoded),
        )
    } else {
        cache.model()
    }
}

/// Times up to which no expiry can overflow.
pub open spec fn time_ok(now: u64) -> bool {
    now + u32::MAX * NANOS_PER_SECOND <= u64::MAX
}

pub open spec fn encoding(encoded: Result<Vec<u8>, String>) -> Result<Seq<u8>, Seq<char>> {
    match encoded {
        Ok(wire) => Ok(wire@),
        Err(e) => Err(e@),
    }
}

/// Turns an upstream's reply, encoded anew, into what is sent, and caches it for as
/// many seconds as it may be.
pub fn accept_reply(
    cache: &mut ResponseCache,
    fetch: &Fetch,
    encoded: Result<Vec<u8>, String>,
    ttl: u32,
    now: u64,
) -> (r: Vec<u8>)
    requires
        old(cache).wf(),
        fetch.op_code < 16,
        time_ok(now),
    ensures
        final(cache).wf(),
        final(cache).enabled() == old(cache).enabled(),
        final(cache).budget() == old(cache).budget(),
        r@ == reply_wire(fetch@, encoding(encoded)),
        final(cache).model() == reply_cache(
            *old(cache),
            fetch@,
            encoding(encoded),
            ttl,
            now as int,
        ),
{
    let wire: Vec<u8> = match encoded {
        Ok(mut wire) => {
            set_id(&mut wire, fetch.id);
            wire
        },
        Err(_) => error_response(fetch.id, fetch.op_code, SERV_FAIL),
    };
    if ttl > 0 {
        proof {
            assert(ttl * NANOS_PER_SECOND <= u32::MAX * NANOS_PER_SECOND) by (nonlinear_arith)
                requires
                    ttl <= u32::MAX,
            ;
        }
        cache.insert(fetch.qname.as_str(), fetch.qtype, fetch.qclass, ttl, &wire, now);
    }
    wire
}

/// Turns what came of asking the upstreams into what is sent, and caches it for as
/// long as it may be. If none of them answered, that is SERVFAIL, which is not
/// cached.
pub fn fetch_from_upstream(
    cache: &mut ResponseCache,
    fetch: &Fetch,
    reply: Option<&Reply>,
    now: u64,
) -> (r: Vec<u8>)
    requires
        old(cache).wf(),
        fetch.op_code < 16,
        time_ok(now),
    ensures
        final(cache).wf(),
        final(cache).enabled() == old(cache).enabled(),
        final(cache).budget() == old(cache).budget(),
        match reply {
            Some(reply) => {
                &&& r@ == reply_wire(fetch@, reencoded_message(reply.raw@))
                &&& final(cache).model() == reply_cache(
                    *old(cache),
                    fetch@,
                    reencoded_message(reply.raw@),
                    raw_ttl(reply.raw@),
                    now as int,
                )
            },
            None => {
                &&& r@ == unanswered_wire(fetch@)
                &&& final(cache).model() == old(cache).model()
            },
        },
        HEADER_LEN <= r@.len() <= 65535,
{
    match reply {
        Some(reply) => {
            let encoded: Result<Vec<u8>, String> = reencode_message(reply.raw.as_slice());
            let ttl: u32 = match decode_ttls(reply.raw.as_slice()) {
                Ok(ttls) => response_ttl(&ttls),
                Err(_) => 0,
            };
            accept_reply(cache, fetch, encoded, ttl, now)
        },
        None => error_response(fetch.id, fetch.op_code, SERV_FAIL),
    }
}

/// A shared reply as it is sent to one of those who asked for it: under the id of
/// the own request.
pub fn reply_for(wire: &Vec<u8>, id: u16) -> (r: Vec<u8>)
    ensures
        r@ == with_id(wire@, id),
{
    let mut r: Vec<u8> = copied(wire.as_slice());
    set_id(&mut r, id);
    r
}

} // verus!
