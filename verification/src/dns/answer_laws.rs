//! What a client reads in the answer to its query, and what becomes of what an
//! upstream replied.

use vstd::prelude::*;
use vstd::utf8::{encode_utf8, encode_utf8_decode_utf8};

use crate::blocklist::ListsView;
use crate::blocklist_laws::{is_domain, is_name_char, is_on, law_what_is_blocked, names_of};
use crate::config::{law_static_hosts_are_found, BlockMode, Config};
use crate::dns::arena::{block_size, has_room};
use crate::dns::cache::{CacheModel, KeyView, ResponseCache};
use crate::dns::cache_laws::{
    law_insert_leaves_other_entries_alone, law_insert_stores_what_the_pool_has_room_for,
};
use crate::dns::handler::{
    cache_ttl, negative_ttl, query_step, raw_ttl, reply_cache, reply_wire, request_cache,
    request_step, unanswered_wire, FetchView, StepView,
};
use crate::dns::message::{
    answer_wire, decoded_message, error_wire, header_wire, id_of, name_wire, question_wire,
    response_wire, with_id, Answer, Authority, MessageView, QuestionView, TtlsView,
};
use crate::octets::be16;
use crate::state::AppState;
use crate::text::{is_whitespace, lower};
use crate::util::{law_normalized_names, normalized};

verus! {

/// What a client reads at the beginning of the response to its request: the request's
/// id, its kind of query and its wish for recursion, which is available; the code; one
/// question, which is its own; and no records but answers.
pub open spec fn responds(wire: Seq<u8>, request: MessageView, code: int) -> bool {
    let question = request.questions[0];
    let name = name_wire(question.labels);
    let end = 12 + name.len() as int;
    &&& wire.len() >= end + 4
    &&& wire[0] * 256 + wire[1] == request.id
    &&& wire[2] == 128 + request.op_code * 8 + (if request.recursion_desired {
        1int
    } else {
        0
    })
    &&& wire[3] == 128 + code
    &&& wire.subrange(4, 6) == seq![0u8, 1u8]
    &&& wire.subrange(8, 12) == seq![0u8, 0u8, 0u8, 0u8]
    &&& wire.subrange(12, end) == name
    &&& wire[end] * 256 + wire[end + 1] == question.qtype
    &&& wire[end + 2] * 256 + wire[end + 3] == question.qclass
}

/// A response without answers.
pub open spec fn has_no_answer(wire: Seq<u8>, request: MessageView) -> bool {
    &&& wire.subrange(6, 8) == seq![0u8, 0u8]
    &&& wire.len() == 16 + name_wire(request.questions[0].labels).len()
}

/// A response with one answer: for the name in the question, an internet address with
/// its time to live.
pub open spec fn has_one_address(
    wire: Seq<u8>,
    request: MessageView,
    ttl: u32,
    ip: [u8; 4],
) -> bool {
    let labels = request.questions[0].labels;
    let record = wire.skip(16 + name_wire(labels).len() as int);
    let fields = record.skip(
        if labels.len() == 0 {
            1
        } else {
            2
        },
    );
    &&& wire.subrange(6, 8) == seq![0u8, 1u8]
    &&& if labels.len() == 0 {
        record[0] == 0
    } else {
        record[0] == 192 && record[1] == 12
    }
    &&& fields.len() == 14
    &&& fields.take(4) == seq![0u8, 1u8, 0u8, 1u8]
    &&& fields[4] * 16777216 + fields[5] * 65536 + fields[6] * 256 + fields[7] == ttl
    &&& fields.subrange(8, 10) == seq![0u8, 4u8]
    &&& fields.skip(10) == ip@
}

proof fn lemma_header(
    id: u16,
    op_code: u8,
    recursion_desired: bool,
    code: u16,
    answers: u16,
) -> (h: Seq<u8>)
    requires
        op_code < 16,
        code < 16,
        answers < 256,
    ensures
        h == header_wire(id, op_code, recursion_desired, true, code, 1, answers),
        h.len() == 12,
        h[0] * 256 + h[1] == id,
        h[2] == 128 + op_code * 8 + (if recursion_desired {
            1int
        } else {
            0
        }),
        h[3] == 128 + code,
        h.subrange(4, 6) == seq![0u8, 1u8],
        h.subrange(6, 8) == seq![0u8, answers as u8],
        h.subrange(8, 12) == seq![0u8, 0u8, 0u8, 0u8],
{
    let h = header_wire(id, op_code, recursion_desired, true, code, 1, answers);
    assert(h.subrange(4, 6) =~= seq![0u8, 1u8]);
    assert(h.subrange(6, 8) =~= seq![0u8, answers as u8]);
    assert(h.subrange(8, 12) =~= seq![0u8, 0u8, 0u8, 0u8]);
    h
}

/// The question and what follows it stand behind the header.
proof fn lemma_behind_header(
    request: MessageView,
    code: u16,
    header: Seq<u8>,
    answers: u8,
    rest: Seq<u8>,
)
    requires
        request.questions.len() == 1,
        header.len() == 12,
        header[0] * 256 + header[1] == request.id,
        header[2] == 128 + request.op_code * 8 + (if request.recursion_desired {
            1int
        } else {
            0
        }),
        header[3] == 128 + code,
        header.subrange(4, 6) == seq![0u8, 1u8],
        header.subrange(6, 8) == seq![0u8, answers],
        header.subrange(8, 12) == seq![0u8, 0u8, 0u8, 0u8],
    ensures
        ({
            let question = request.questions[0];
            let wire = header + question_wire(question) + rest;
            &&& responds(wire, request, code as int)
            &&& wire.subrange(6, 8) == seq![0u8, answers]
            &&& wire.skip(16 + name_wire(question.labels).len() as int) == rest
            &&& wire.len() == 16 + name_wire(question.labels).len() + rest.len()
        }),
{
    let question = request.questions[0];
    let name = name_wire(question.labels);
    let wire = header + question_wire(question) + rest;
    let end = 12 + name.len() as int;
    assert(wire.subrange(4, 6) =~= header.subrange(4, 6));
    assert(wire.subrange(6, 8) =~= header.subrange(6, 8));
    assert(wire.subrange(8, 12) =~= header.subrange(8, 12));
    assert(wire.subrange(12, end) =~= name);
    assert(wire.skip(end + 4) =~= rest);
    assert(wire[end] == be16(question.qtype)[0]);
    assert(wire[end + 1] == be16(question.qtype)[1]);
    assert(wire[end + 2] == be16(question.qclass)[0]);
    assert(wire[end + 3] == be16(question.qclass)[1]);
}

proof fn lemma_record(question: QuestionView, a: Answer)
    ensures
        ({
            let record = answer_wire(question, a);
            let fields = record.skip(
                if question.labels.len() == 0 {
                    1
                } else {
                    2
                },
            );
            &&& if question.labels.len() == 0 {
                record[0] == 0
            } else {
                record[0] == 192 && record[1] == 12
            }
            &&& fields.len() == 14
            &&& fields.take(4) == seq![0u8, 1u8, 0u8, 1u8]
            &&& fields[4] * 16777216 + fields[5] * 65536 + fields[6] * 256 + fields[7] == a.ttl
            &&& fields.subrange(8, 10) == seq![0u8, 4u8]
            &&& fields.skip(10) == a.ip@
        }),
{
    let record = answer_wire(question, a);
    let fields = record.skip(
        if question.labels.len() == 0 {
            1
        } else {
            2
        },
    );
    assert(fields.take(4) =~= seq![0u8, 1u8, 0u8, 1u8]);
    assert(fields.subrange(8, 10) =~= seq![0u8, 4u8]);
    assert(fields.skip(10) =~= a.ip@);
    let high: u16 = (a.ttl / 65536) as u16;
    let low: u16 = (a.ttl % 65536) as u16;
    assert(fields[4] == be16(high)[0]);
    assert(fields[5] == be16(high)[1]);
    assert(fields[6] == be16(low)[0]);
    assert(fields[7] == be16(low)[1]);
}

proof fn lemma_response(request: MessageView, code: u16, answer: Option<Answer>)
    requires
        request.questions.len() == 1,
        request.op_code < 16,
        code < 16,
    ensures
        ({
            let wire = response_wire(
                request.id,
                request.op_code,
                request.recursion_desired,
                true,
                code,
                request.questions[0],
                answer,
            );
            &&& responds(wire, request, code as int)
            &&& match answer {
                Some(a) => has_one_address(wire, request, a.ttl, a.ip),
                None => has_no_answer(wire, request),
            }
        }),
{
    let question = request.questions[0];
    match answer {
        Some(a) => {
            let header = lemma_header(
                request.id,
                request.op_code,
                request.recursion_desired,
                code,
                1,
            );
            lemma_behind_header(request, code, header, 1, answer_wire(question, a));
            lemma_record(question, a);
        },
        None => {
            let header = lemma_header(
                request.id,
                request.op_code,
                request.recursion_desired,
                code,
                0,
            );
            lemma_behind_header(request, code, header, 0, seq![]);
            assert(header + question_wire(question) + seq![] =~= header + question_wire(question));
        },
    }
}

/// What a question is kept under in the cache.
pub open spec fn kept_under(question: QuestionView) -> KeyView {
    (question.qtype, question.qclass, encode_utf8(lower(question.name)))
}

/// Whether the cache holds a response to the question that has not expired.
pub open spec fn is_cached(cache: ResponseCache, question: QuestionView, now: int) -> bool {
    &&& cache.enabled()
    &&& encode_utf8(lower(question.name)).len() <= 255
    &&& cache.model().entries.contains_key(kept_under(question))
    &&& now < cache.model().entries[kept_under(question)].expires_at
}

/// A query for the address of a static host is answered with that host's address and
/// time to live; one for anything else of it with no data. Nothing else matters, and the
/// cache is left alone.
pub proof fn law_static_hosts_are_answered_as_configured(
    state: AppState,
    blocked: Set<Seq<char>>,
    cache: ResponseCache,
    request: MessageView,
    now: int,
)
    requires
        request.questions.len() == 1,
        request.op_code < 16,
        state.hosts().contains_key(lower(request.questions[0].name)),
    ensures
        ({
            let host = state.hosts()[lower(request.questions[0].name)];
            &&& request_step(state, blocked, cache, request, now) matches StepView::Reply(wire)
                && responds(wire, request, 0) && if request.questions[0].qtype == 1 {
                has_one_address(wire, request, host.ttl, host.ip)
            } else {
                has_no_answer(wire, request)
            }
            &&& request_cache(state, cache, request, now) == cache.model()
        }),
{
    let host = state.hosts()[lower(request.questions[0].name)];
    lemma_response(request, 0, Some(Answer { ttl: host.ttl, ip: host.ip }));
    lemma_response(request, 0, None);
}

/// A query that is in the cache is answered out of it, whether or not its name is
/// blocked: with the bytes that are kept for its very name, type and class, and its own
/// id.
pub proof fn law_cached_queries_are_answered_out_of_the_cache(
    state: AppState,
    blocked: Set<Seq<char>>,
    cache: ResponseCache,
    request: MessageView,
    now: int,
)
    requires
        request.questions.len() == 1,
        !state.hosts().contains_key(lower(request.questions[0].name)),
        is_cached(cache, request.questions[0], now),
        cache.model().entries[kept_under(request.questions[0])].bytes.len() >= 2,
    ensures
        ({
            let kept = cache.model().entries[kept_under(request.questions[0])].bytes;
            request_step(state, blocked, cache, request, now) matches StepView::Reply(wire)
                && wire.len() == kept.len() && wire.skip(2) == kept.skip(2) && wire[0] * 256
                + wire[1] == request.id
        }),
        cache.model().order.contains(kept_under(request.questions[0])) ==> request_cache(
            state,
            cache,
            request,
            now,
        ).order[0] == kept_under(request.questions[0]),
{
    let kept = cache.model().entries[kept_under(request.questions[0])].bytes;
    assert(with_id(kept, request.id).skip(2) =~= kept.skip(2));
}

/// A query for a blocked name, which is neither a static host nor cached, is answered as
/// configured. To deny the name is NXDOMAIN without records. To send it down the
/// sinkhole is one record with the configured address and time to live where an address
/// was asked for, and no data where something else was.
pub proof fn law_blocked_names_are_answered_as_configured(
    state: AppState,
    blocked: Set<Seq<char>>,
    cache: ResponseCache,
    request: MessageView,
    now: int,
)
    requires
        request.questions.len() == 1,
        request.op_code < 16,
        !state.hosts().contains_key(lower(request.questions[0].name)),
        !is_cached(cache, request.questions[0], now),
        blocked.contains(lower(request.questions[0].name)),
    ensures
        request_step(state, blocked, cache, request, now) matches StepView::Reply(wire) && match state.block_mode {
            BlockMode::Nxdomain => responds(wire, request, 3) && has_no_answer(wire, request),
            BlockMode::Sinkhole => responds(wire, request, 0) && if request.questions[0].qtype
                == 1 {
                has_one_address(wire, request, state.sinkhole_ttl, state.sinkhole_ip)
            } else {
                has_no_answer(wire, request)
            },
        },
{
    lemma_response(
        request,
        0,
        Some(Answer { ttl: state.sinkhole_ttl, ip: state.sinkhole_ip }),
    );
    lemma_response(request, 0, None);
    lemma_response(request, 3, None);
}

/// Every other query is forwarded, and what is fetched is what was asked for: the name
/// in small letters, the type and the class of the question, under the id and the kind
/// of the query.
pub proof fn law_what_is_fetched_is_what_was_asked(
    state: AppState,
    blocked: Set<Seq<char>>,
    cache: ResponseCache,
    request: MessageView,
    now: int,
)
    requires
        request.questions.len() == 1,
    ensures
        request_step(state, blocked, cache, request, now) is Fetch <==> {
            &&& !state.hosts().contains_key(lower(request.questions[0].name))
            &&& !is_cached(cache, request.questions[0], now)
            &&& !blocked.contains(lower(request.questions[0].name))
        },
        request_step(state, blocked, cache, request, now) matches StepView::Fetch(fetch) ==> {
            &&& fetch.qname == lower(request.questions[0].name)
            &&& fetch.qtype == request.questions[0].qtype
            &&& fetch.qclass == request.questions[0].qclass
            &&& fetch.id == request.id
            &&& fetch.op_code == request.op_code
        },
{
}

/// A malformed query, and one that does not have exactly one question, is answered with
/// a header: its own id, FORMERR, and nothing behind it. The cache is left alone.
pub proof fn law_malformed_queries_are_told_so(
    state: AppState,
    blocked: Set<Seq<char>>,
    cache: ResponseCache,
    raw: Seq<u8>,
    decoded: Result<MessageView, Seq<char>>,
    now: int,
)
    requires
        decoded matches Ok(request) ==> request.op_code < 16 && request.questions.len() != 1,
    ensures
        query_step(state, blocked, cache, raw, decoded, now) matches StepView::Reply(wire)
            && wire.len() == 12 && wire.skip(3) == seq![1u8, 0, 0, 0, 0, 0, 0, 0, 0] && match decoded {
            Ok(request) => wire[0] * 256 + wire[1] == request.id && wire[2] == 128
                + request.op_code * 8,
            Err(_) => wire[2] == 128 && if raw.len() >= 2 {
                wire[0] == raw[0] && wire[1] == raw[1]
            } else {
                wire[0] == 0 && wire[1] == 0
            },
        },
        decoded matches Ok(request) ==> request_cache(state, cache, request, now)
            == cache.model(),
{
    match decoded {
        Ok(request) => {
            assert(error_wire(request.id, request.op_code, 1).skip(3) =~= seq![
                1u8,
                0,
                0,
                0,
                0,
                0,
                0,
                0,
                0,
            ]);
        },
        Err(_) => {
            assert(error_wire(id_of(raw), 0, 1).skip(3) =~= seq![1u8, 0, 0, 0, 0, 0, 0, 0, 0]);
        },
    }
}

/// What is sent for an upstream's reply is that reply but for the id, which is that of
/// the query. A reply that cannot be written is answered with a SERVFAIL header.
pub proof fn law_replies_are_handed_on(fetch: FetchView, encoded: Result<Seq<u8>, Seq<char>>)
    requires
        fetch.op_code < 16,
        encoded matches Ok(reply) ==> reply.len() >= 2,
    ensures
        ({
            let wire = reply_wire(fetch, encoded);
            &&& wire[0] * 256 + wire[1] == fetch.id
            &&& match encoded {
                Ok(reply) => wire.len() == reply.len() && wire.skip(2) == reply.skip(2),
                Err(_) => wire.len() == 12 && wire[2] == 128 + fetch.op_code * 8 && wire.skip(3)
                    == seq![2u8, 0, 0, 0, 0, 0, 0, 0, 0],
            }
        }),
{
    match encoded {
        Ok(reply) => {
            assert(with_id(reply, fetch.id).skip(2) =~= reply.skip(2));
        },
        Err(_) => {
            assert(reply_wire(fetch, encoded).skip(3) =~= seq![2u8, 0, 0, 0, 0, 0, 0, 0, 0]);
        },
    }
}

/// A query that no upstream replied to is answered with a SERVFAIL header under its id.
pub proof fn law_unanswered_queries_get_servfail(fetch: FetchView)
    requires
        fetch.op_code < 16,
    ensures
        ({
            let wire = unanswered_wire(fetch);
            &&& wire.len() == 12
            &&& wire[0] * 256 + wire[1] == fetch.id
            &&& wire[2] == 128 + fetch.op_code * 8
            &&& wire.skip(3) == seq![2u8, 0, 0, 0, 0, 0, 0, 0, 0]
        }),
{
    assert(unanswered_wire(fetch).skip(3) =~= seq![2u8, 0, 0, 0, 0, 0, 0, 0, 0]);
}

/// What is kept of an upstream's reply: under the fetch's name, type and class exactly
/// what was sent, to expire so many seconds after it came. Nothing is kept if there is
/// nothing to keep it for, the name has more than 255 bytes, or there is no cache.
pub proof fn law_replies_are_kept_for_their_time(
    cache: ResponseCache,
    fetch: FetchView,
    encoded: Result<Seq<u8>, Seq<char>>,
    ttl: u32,
    now: int,
)
    requires
        cache.model().wf(),
    ensures
        ({
            let after = reply_cache(cache, fetch, encoded, ttl, now);
            let key = (fetch.qtype, fetch.qclass, encode_utf8(fetch.qname));
            if ttl == 0 || !cache.enabled() || encode_utf8(fetch.qname).len() > 255 {
                after == cache.model()
            } else {
                &&& after.entries.contains_key(key) <==> has_room(
                    cache.model().capacity,
                    block_size(reply_wire(fetch, encoded).len()) as int,
                )
                &&& after.entries.contains_key(key) ==> {
                    &&& after.entries[key].bytes == reply_wire(fetch, encoded)
                    &&& after.entries[key].expires_at == now + ttl * 1_000_000_000
                }
            }
        }),
{
    let key = (fetch.qtype, fetch.qclass, encode_utf8(fetch.qname));
    law_insert_stores_what_the_pool_has_room_for(
        cache.model(),
        key,
        now + ttl * 1_000_000_000,
        reply_wire(fetch, encoded),
    );
}

/// The reply to a query is of no consequence to a query for another name, type or class:
/// what that one finds in the cache, it would have found without. In particular, what
/// was not cached is still to be forwarded.
pub proof fn law_replies_answer_no_other_question(
    state: AppState,
    blocked: Set<Seq<char>>,
    before: ResponseCache,
    after: ResponseCache,
    request: MessageView,
    encoded: Result<Seq<u8>, Seq<char>>,
    ttl: u32,
    stored_at: int,
    other: MessageView,
    now: int,
)
    requires
        before.model().wf(),
        after.enabled() == before.enabled(),
        request.questions.len() == 1,
        request_step(state, blocked, before, request, stored_at) matches StepView::Fetch(fetch)
            && after.model() == reply_cache(before, fetch, encoded, ttl, stored_at),
        other.questions.len() == 1,
        lower(other.questions[0].name) != lower(request.questions[0].name)
            || other.questions[0].qtype != request.questions[0].qtype
            || other.questions[0].qclass != request.questions[0].qclass,
    ensures
        is_cached(after, other.questions[0], now) ==> {
            &&& is_cached(before, other.questions[0], now)
            &&& after.model().entries[kept_under(other.questions[0])]
                == before.model().entries[kept_under(other.questions[0])]
        },
        request_step(state, blocked, before, other, now) is Fetch ==> request_step(
            state,
            blocked,
            after,
            other,
            now,
        ) is Fetch,
{
    let fetch = request_step(state, blocked, before, request, stored_at)->Fetch_0;
    let key = kept_under(request.questions[0]);
    let name = lower(request.questions[0].name);
    let other_name = lower(other.questions[0].name);
    encode_utf8_decode_utf8(name);
    encode_utf8_decode_utf8(other_name);
    if is_cached(after, other.questions[0], now) && after.model() != before.model() {
        law_insert_leaves_other_entries_alone(
            before.model(),
            key,
            stored_at + ttl * 1_000_000_000,
            reply_wire(fetch, encoded),
            kept_under(other.questions[0]),
        );
    }
}

/// What was fetched for a query and may be kept answers the same query from then on, and
/// whoever else asks the same: until it expires the query is not forwarded, and from
/// then on it is.
pub proof fn law_a_query_is_forwarded_once_in_its_time(
    state: AppState,
    blocked: Set<Seq<char>>,
    before: ResponseCache,
    after: ResponseCache,
    request: MessageView,
    encoded: Result<Seq<u8>, Seq<char>>,
    ttl: u32,
    stored_at: int,
    again: MessageView,
    now: int,
)
    requires
        before.model().wf(),
        before.enabled(),
        after.enabled(),
        request.questions.len() == 1,
        request_step(state, blocked, before, request, stored_at) matches StepView::Fetch(fetch)
            && after.model() == reply_cache(before, fetch, encoded, ttl, stored_at) && has_room(
            before.model().capacity,
            block_size(reply_wire(fetch, encoded).len()) as int,
        ),
        ttl > 0,
        encode_utf8(lower(request.questions[0].name)).len() <= 255,
        again.questions.len() == 1,
        lower(again.questions[0].name) == lower(request.questions[0].name),
        again.questions[0].qtype == request.questions[0].qtype,
        again.questions[0].qclass == request.questions[0].qclass,
    ensures
        request_step(state, blocked, after, again, now) is Fetch <==> now >= stored_at + ttl
            * 1_000_000_000,
{
    let fetch = request_step(state, blocked, before, request, stored_at)->Fetch_0;
    law_replies_are_kept_for_their_time(before, fetch, encoded, ttl, stored_at);
}

/// A response without answers, by which the name or its data do not exist, is kept for
/// the shorter one of the times that its first SOA record gives. Without such a record,
/// and with any other code, it is not kept.
pub proof fn law_negative_responses_are_kept_as_the_zone_says(ttls: TtlsView, i: int)
    requires
        ttls.answers.len() == 0,
        0 <= i <= ttls.authorities.len(),
        forall|j: int| 0 <= j < i ==> (#[trigger] ttls.authorities[j]).soa_minimum is None,
        i < ttls.authorities.len() ==> ttls.authorities[i].soa_minimum is Some,
    ensures
        ttls.response_code != 0 && ttls.response_code != 3 ==> cache_ttl(ttls) == 0,
        ttls.response_code == 0 || ttls.response_code == 3 ==> {
            &&& i == ttls.authorities.len() ==> cache_ttl(ttls) == 0
            &&& i < ttls.authorities.len() ==> {
                let ttl = ttls.authorities[i].ttl;
                let minimum = ttls.authorities[i].soa_minimum->0;
                &&& cache_ttl(ttls) <= ttl
                &&& cache_ttl(ttls) <= minimum
                &&& cache_ttl(ttls) == ttl || cache_ttl(ttls) == minimum
            }
        },
{
    lemma_first_soa(ttls.authorities, i);
}

proof fn lemma_first_soa(authorities: Seq<Authority>, i: int)
    requires
        0 <= i <= authorities.len(),
        forall|j: int| 0 <= j < i ==> (#[trigger] authorities[j]).soa_minimum is None,
    ensures
        negative_ttl(authorities) == negative_ttl(authorities.skip(i)),
        i == authorities.len() ==> negative_ttl(authorities) == 0,
        i < authorities.len() ==> authorities.skip(i)[0] == authorities[i],
    decreases i,
{
    if i > 0 {
        let rest = authorities.drop_first();
        assert(authorities[0].soa_minimum is None);
        assert forall|j: int| 0 <= j < i - 1 implies (#[trigger] rest[j]).soa_minimum is None by {
            assert(rest[j] == authorities[j + 1]);
        }
        lemma_first_soa(rest, i - 1);
        assert(rest.skip(i - 1) =~= authorities.skip(i));
    } else {
        assert(authorities.skip(0) =~= authorities);
    }
}

/// A reply that cannot be read is never kept, and so neither is the SERVFAIL that is
/// sent in its place; one that can be read is kept for as long as what is read says.
pub proof fn law_unreadable_replies_are_not_kept(
    cache: ResponseCache,
    fetch: FetchView,
    encoded: Result<Seq<u8>, Seq<char>>,
    raw: Seq<u8>,
    now: int,
)
    ensures
        decoded_message(raw) is Err ==> reply_cache(cache, fetch, encoded, raw_ttl(raw), now)
            == cache.model(),
        decoded_message(raw) matches Ok(m) ==> raw_ttl(raw) == cache_ttl(m.1),
{
}

/// Looking a question up changes no entry but that of the question, and that one only if
/// it has expired, to remove it.
pub proof fn law_lookups_change_nothing_but_what_expired(
    state: AppState,
    cache: ResponseCache,
    request: MessageView,
    now: int,
    key: KeyView,
)
    requires
        request.questions.len() == 1,
    ensures
        ({
            let after: CacheModel = request_cache(state, cache, request, now);
            &&& after.capacity == cache.model().capacity
            &&& after.entries.contains_key(key) ==> cache.model().entries.contains_key(key)
                && after.entries[key] == cache.model().entries[key]
            &&& cache.model().entries.contains_key(key) && !after.entries.contains_key(key) ==> {
                &&& key == kept_under(request.questions[0])
                &&& cache.model().entries[key].expires_at <= now
            }
        }),
{
}

/// A name in a query, which ends in a dot, is looked up in its normalized form, just as
/// the names on lists and of static hosts are. So it does not matter how either is
/// spelled.
pub proof fn law_queries_are_looked_up_in_normalized_form(name: Seq<char>, spelled: Seq<char>)
    requires
        name.len() > 0,
        name[0] != '.' && !is_whitespace(name[0]),
        name.last() != '.' && !is_whitespace(name.last()),
        lower(spelled) == lower(name.push('.')),
    ensures
        lower(spelled) == normalized(name),
        lower(spelled) == normalized(name.push('.')),
{
    let none = Seq::<char>::empty();
    law_normalized_names(none, none, name, none, none);
    law_normalized_names(none, none, name, seq!['.'], none);
    assert(none + (none + name + none) + none =~= name);
    assert(none + (none + name + seq!['.']) + none =~= name.push('.'));
    assert(lower(name.push('.')) =~= lower(name).push('.'));
}

/// A domain that stands on a blocklist is blocked for whoever asks for it, however it is
/// spelled, as long as nothing allows it, it is no static host and nothing is cached: the
/// query is not forwarded, and is answered as configured.
pub proof fn law_listed_domains_are_blocked(
    state: AppState,
    lists: ListsView,
    list: int,
    word: Seq<char>,
    cache: ResponseCache,
    request: MessageView,
    now: int,
)
    requires
        0 <= list < lists.block.sources.len(),
        lists.block.sources[list] == names_of(word),
        is_domain(word),
        word[0] != '.' && word.last() != '.',
        normalized(word) != "localhost.localdomain."@,
        !is_on(lists.allow, normalized(word)),
        request.questions.len() == 1,
        request.op_code < 16,
        lower(request.questions[0].name) == lower(word.push('.')),
        !state.hosts().contains_key(normalized(word)),
        !is_cached(cache, request.questions[0], now),
    ensures
        request_step(state, lists.published().merged, cache, request, now) matches StepView::Reply(
            wire,
        ) && match state.block_mode {
            BlockMode::Nxdomain => responds(wire, request, 3) && has_no_answer(wire, request),
            BlockMode::Sinkhole => responds(wire, request, 0) && (request.questions[0].qtype == 1
                ==> has_one_address(wire, request, state.sinkhole_ttl, state.sinkhole_ip)),
        },
{
    assert(is_name_char(word[0]) && is_name_char(word[word.len() - 1]));
    law_queries_are_looked_up_in_normalized_form(word, request.questions[0].name);
    assert(lists.block.sources[list].contains(normalized(word)));
    assert(is_on(lists.block, normalized(word)));
    law_what_is_blocked(lists, normalized(word));
    law_blocked_names_are_answered_as_configured(
        state,
        lists.published().merged,
        cache,
        request,
        now,
    );
}

/// What was configured is what clients are answered: the addresses of static hosts, the
/// last one where a name was given twice, and the address of the sinkhole, all with the
/// default time to live.
pub proof fn law_clients_are_answered_as_configured(
    config: Config,
    state: AppState,
    blocked: Set<Seq<char>>,
    cache: ResponseCache,
    request: MessageView,
    now: int,
    i: int,
)
    requires
        state.is_built_from(config),
        request.questions.len() == 1,
        request.op_code < 16,
        request.questions[0].qtype == 1,
    ensures
        0 <= i < config.static_hosts@.len() && lower(request.questions[0].name) == normalized(
            config.static_hosts@[i].name@,
        ) && (forall|j: int|
            i < j < config.static_hosts@.len() ==> normalized(
                (#[trigger] config.static_hosts@[j]).name@,
            ) != lower(request.questions[0].name)) ==> {
            request_step(state, blocked, cache, request, now) matches StepView::Reply(wire)
                && responds(wire, request, 0) && has_one_address(
                wire,
                request,
                config.server.default_ttl,
                config.static_hosts@[i].ip,
            )
        },
        config.blocking.mode == BlockMode::Sinkhole && !state.hosts().contains_key(
            lower(request.questions[0].name),
        ) && !is_cached(cache, request.questions[0], now) && blocked.contains(
            lower(request.questions[0].name),
        ) ==> {
            request_step(state, blocked, cache, request, now) matches StepView::Reply(wire)
                && responds(wire, request, 0) && has_one_address(
                wire,
                request,
                config.server.default_ttl,
                config.blocking.sinkhole_ip,
            )
        },
        config.blocking.mode == BlockMode::Nxdomain && !state.hosts().contains_key(
            lower(request.questions[0].name),
        ) && !is_cached(cache, request.questions[0], now) && blocked.contains(
            lower(request.questions[0].name),
        ) ==> {
            request_step(state, blocked, cache, request, now) matches StepView::Reply(wire)
                && responds(wire, request, 3) && has_no_answer(wire, request)
        },
{
    let name = lower(request.questions[0].name);
    let entries = config.static_hosts@;
    if 0 <= i < entries.len() && name == normalized(entries[i].name@) && (forall|j: int|
        i < j < entries.len() ==> normalized((#[trigger] entries[j]).name@) != name) {
        law_static_hosts_are_found(entries, config.server.default_ttl, i);
        let hosts = state.hosts();
        let j = choose|j: int|
            i <= j < entries.len() && normalized((#[trigger] entries[j]).name@) == name
                && hosts[name].ip == entries[j].ip;
        assert(j == i);
        law_static_hosts_are_answered_as_configured(state, blocked, cache, request, now);
    }
    if !state.hosts().contains_key(name) && !is_cached(cache, request.questions[0], now)
        && blocked.contains(name) {
        law_blocked_names_are_answered_as_configured(state, blocked, cache, request, now);
    }
}

} // verus!
