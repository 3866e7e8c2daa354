//! What holds of every query, however it is answered.

use vstd::prelude::*;

use crate::dns::arena::{block_size, has_room};
use crate::dns::cache::{storable, CacheModel, KeyView, ResponseCache, NANOS_PER_SECOND};
use crate::dns::cache_laws::{
    law_get_returns_what_insert_stored, law_insert_leaves_other_entries_alone,
    law_insert_stores_what_the_pool_has_room_for,
};
use crate::dns::handler::{
    cache_hit, cache_ttl, least, negative_ttl, qname_of, query_step, question_key, reply_cache,
    reply_wire, request_cache, request_step, FetchView, StepView,
};
use crate::dns::message::{
    error_wire, id_of, law_set_id, message_of, with_id, Authority, MessageView, TtlsView, FORM_ERR,
    HEADER_LEN, NO_ERROR, NX_DOMAIN,
};
use crate::octets::lemma_be16;
use crate::state::AppState;

verus! {

/// The longest message, whose length must fit into two bytes.
pub const MAX_MESSAGE_SIZE: usize = 65535;

/// Every cached response has the length of a message.
pub open spec fn caches_messages(cache: CacheModel) -> bool {
    forall|k: KeyView| #[trigger]
        cache.entries.contains_key(k) ==> HEADER_LEN <= cache.entries[k].bytes.len()
            <= MAX_MESSAGE_SIZE
}

/// Whatever is sent without asking an upstream can be framed, and carries the id of
/// the query that it answers, also if it was cached for another one and if the query
/// could not be parsed.
pub proof fn law_reply_carries_the_id_of_its_query(
    state: AppState,
    blocked: Set<Seq<char>>,
    cache: ResponseCache,
    raw: Seq<u8>,
    decoded: Result<MessageView, Seq<char>>,
    now: int,
)
    requires
        caches_messages(cache.model()),
        decoded matches Ok(request) ==> message_of(request, raw),
    ensures
        match query_step(state, blocked, cache, raw, decoded, now) {
            StepView::Reply(wire) => HEADER_LEN <= wire.len() <= MAX_MESSAGE_SIZE && id_of(wire)
                == id_of(raw),
            StepView::Fetch(fetch) => fetch.id == id_of(raw),
        },
{
    lemma_be16(id_of(raw));
    match decoded {
        Ok(request) => {
            if request.questions.len() == 1 && !state.hosts().contains_key(
                qname_of(request.questions[0]),
            ) && cache_hit(cache, request.questions[0], now) {
                law_set_id(
                    cache.model().entries[question_key(request.questions[0])].bytes,
                    request.id,
                    0,
                );
            }
        },
        Err(_) => {},
    }
}

/// An upstream's reply goes out under the id of the query that it answers, whatever
/// id it had; and so does a shared one, for everybody who asked.
pub proof fn law_upstream_replies_carry_the_id_of_their_query(
    fetch: FetchView,
    encoded: Result<Seq<u8>, Seq<char>>,
    other_id: u16,
)
    requires
        encoded matches Ok(wire) ==> HEADER_LEN <= wire.len() <= MAX_MESSAGE_SIZE,
    ensures
        HEADER_LEN <= reply_wire(fetch, encoded).len() <= MAX_MESSAGE_SIZE,
        id_of(reply_wire(fetch, encoded)) == fetch.id,
        id_of(with_id(reply_wire(fetch, encoded), other_id)) == other_id,
        with_id(reply_wire(fetch, encoded), other_id).skip(2) == reply_wire(fetch, encoded).skip(2),
{
    lemma_be16(fetch.id);
    if let Ok(wire) = encoded {
        law_set_id(wire, fetch.id, other_id);
    }
    law_set_id(reply_wire(fetch, encoded), other_id, 0);
}

/// Requests and replies keep the cache free of anything but messages.
pub proof fn law_only_messages_are_cached(
    state: AppState,
    cache: ResponseCache,
    request: MessageView,
    fetch: FetchView,
    encoded: Result<Seq<u8>, Seq<char>>,
    ttl: u32,
    now: int,
)
    requires
        cache.model().wf(),
        caches_messages(cache.model()),
        encoded matches Ok(wire) ==> HEADER_LEN <= wire.len() <= MAX_MESSAGE_SIZE,
    ensures
        caches_messages(request_cache(state, cache, request, now)),
        caches_messages(reply_cache(cache, fetch, encoded, ttl, now)),
{
    let after = reply_cache(cache, fetch, encoded, ttl, now);
    let key = (fetch.qtype, fetch.qclass, vstd::utf8::encode_utf8(fetch.qname));
    let wire = reply_wire(fetch, encoded);
    let expires = now + ttl * NANOS_PER_SECOND;
    if ttl > 0 && cache.enabled() && storable(fetch.qname) {
        law_insert_stores_what_the_pool_has_room_for(cache.model(), key, expires, wire);
        assert forall|k: KeyView| #[trigger]
            after.entries.contains_key(k) implies HEADER_LEN <= after.entries[k].bytes.len()
            <= MAX_MESSAGE_SIZE by {
            if k != key {
                law_insert_leaves_other_entries_alone(cache.model(), key, expires, wire, k);
            }
        }
    }
}

/// A name with a static host is answered locally, whatever the cache and the
/// blocklist hold, and never forwarded.
pub proof fn law_static_hosts_are_never_forwarded(
    state: AppState,
    blocked: Set<Seq<char>>,
    cache: ResponseCache,
    other_blocked: Set<Seq<char>>,
    other_cache: ResponseCache,
    request: MessageView,
    now: int,
)
    requires
        request.questions.len() == 1,
        state.hosts().contains_key(qname_of(request.questions[0])),
    ensures
        request_step(state, blocked, cache, request, now) is Reply,
        request_step(state, blocked, cache, request, now) == request_step(
            state,
            other_blocked,
            other_cache,
            request,
            now,
        ),
{
}

/// A blocked name is never forwarded.
pub proof fn law_blocked_names_are_never_forwarded(
    state: AppState,
    blocked: Set<Seq<char>>,
    cache: ResponseCache,
    request: MessageView,
    now: int,
)
    requires
        request.questions.len() == 1,
        blocked.contains(qname_of(request.questions[0])),
    ensures
        request_step(state, blocked, cache, request, now) is Reply,
{
}

/// A name that is neither a static host nor blocked is forwarded unless it is
/// cached.
pub proof fn law_other_names_are_forwarded(
    state: AppState,
    blocked: Set<Seq<char>>,
    cache: ResponseCache,
    request: MessageView,
    now: int,
)
    requires
        request.questions.len() == 1,
        !state.hosts().contains_key(qname_of(request.questions[0])),
        !blocked.contains(qname_of(request.questions[0])),
    ensures
        request_step(state, blocked, cache, request, now) is Fetch <==> !cache_hit(
            cache,
            request.questions[0],
            now,
        ),
{
}

/// The case of a name's letters does not matter: it changes neither whether a
/// query is forwarded, nor what is asked for, nor what is looked up in the cache.
pub proof fn law_case_of_names_does_not_matter(
    state: AppState,
    blocked: Set<Seq<char>>,
    cache: ResponseCache,
    request: MessageView,
    other: MessageView,
    now: int,
)
    requires
        request.questions.len() == 1,
        other.questions.len() == 1,
        request.id == other.id,
        request.op_code == other.op_code,
        qname_of(request.questions[0]) == qname_of(other.questions[0]),
        request.questions[0].qtype == other.questions[0].qtype,
        request.questions[0].qclass == other.questions[0].qclass,
    ensures
        request_step(state, blocked, cache, request, now) is Fetch == request_step(
            state,
            blocked,
            cache,
            other,
            now,
        ) is Fetch,
        request_step(state, blocked, cache, request, now) is Fetch ==> request_step(
            state,
            blocked,
            cache,
            request,
            now,
        ) == request_step(state, blocked, cache, other, now),
        request_cache(state, cache, request, now) == request_cache(state, cache, other, now),
{
}

/// A query that cannot be parsed, or that does not have exactly one question, is
/// answered with FORMERR and nothing else.
pub proof fn law_malformed_queries_get_formerr(
    state: AppState,
    blocked: Set<Seq<char>>,
    cache: ResponseCache,
    raw: Seq<u8>,
    decoded: Result<MessageView, Seq<char>>,
    now: int,
)
    requires
        decoded matches Ok(request) ==> message_of(request, raw) && request.questions.len() != 1,
    ensures
        ({
            let op_code = match decoded {
                Ok(request) => request.op_code,
                Err(_) => 0u8,
            };
            query_step(state, blocked, cache, raw, decoded, now) == StepView::Reply(
                error_wire(id_of(raw), op_code, FORM_ERR),
            )
        }),
{
}

/// An upstream's reply that may be cached, and for which the pool has room, answers
/// the same question from then on until it expires: with the same bytes but for the
/// id, which is that of the new query. This holds unless there is a static host for
/// the name, which comes first.
pub proof fn law_cached_replies_are_served(
    state: AppState,
    blocked: Set<Seq<char>>,
    before: ResponseCache,
    after: ResponseCache,
    request: MessageView,
    fetch: FetchView,
    encoded: Result<Seq<u8>, Seq<char>>,
    ttl: u32,
    stored_at: int,
    now: int,
)
    requires
        before.model().wf(),
        before.enabled(),
        after.enabled(),
        after.model() == reply_cache(before, fetch, encoded, ttl, stored_at),
        request.questions.len() == 1,
        fetch.qname == qname_of(request.questions[0]),
        fetch.qtype == request.questions[0].qtype,
        fetch.qclass == request.questions[0].qclass,
        !state.hosts().contains_key(fetch.qname),
        storable(fetch.qname),
        has_room(before.model().capacity, block_size(reply_wire(fetch, encoded).len()) as int),
        now < stored_at + ttl * NANOS_PER_SECOND,
        ttl > 0,
    ensures
        request_step(state, blocked, after, request, now) == StepView::Reply(
            with_id(reply_wire(fetch, encoded), request.id),
        ),
{
    law_get_returns_what_insert_stored(
        before.model(),
        question_key(request.questions[0]),
        stored_at + ttl * NANOS_PER_SECOND,
        reply_wire(fetch, encoded),
        now,
    );
    law_insert_stores_what_the_pool_has_room_for(
        before.model(),
        question_key(request.questions[0]),
        stored_at + ttl * NANOS_PER_SECOND,
        reply_wire(fetch, encoded),
    );
}

/// A response with answers is cached for as long as the answer that expires first.
pub proof fn law_answers_bound_the_ttl(ttls: TtlsView, i: int)
    requires
        0 <= i < ttls.answers.len(),
    ensures
        cache_ttl(ttls) <= ttls.answers[i],
        ttls.answers.contains(cache_ttl(ttls)),
{
    lemma_least(ttls.answers, i);
}

proof fn lemma_least(ttls: Seq<u32>, i: int)
    requires
        0 <= i < ttls.len(),
    ensures
        least(ttls) <= ttls[i],
        ttls.contains(least(ttls)),
    decreases ttls.len(),
{
    if ttls.len() > 1 {
        let init = ttls.drop_last();
        lemma_least(
            init,
            if i < init.len() {
                i
            } else {
                0
            },
        );
        let j = init.index_of(least(init));
        assert(ttls[j] == init[j]);
        assert(ttls[ttls.len() - 1] == ttls.last());
    } else {
        assert(ttls[0] == least(ttls));
    }
}

/// A failure is never cached: a response without answers is cached only if it says
/// that the name or its data do not exist and carries an SOA record, and then for
/// no longer than that record and its zone allow.
pub proof fn law_negative_responses_need_an_soa(ttls: TtlsView)
    requires
        ttls.answers.len() == 0,
        cache_ttl(ttls) > 0,
    ensures
        ttls.response_code == NX_DOMAIN || ttls.response_code == NO_ERROR,
        exists|i: int|
            0 <= i < ttls.authorities.len() && (#[trigger] ttls.authorities[i]).soa_minimum is Some
                && cache_ttl(ttls) <= ttls.authorities[i].ttl && cache_ttl(ttls) <= ttls.authorities[i].soa_minimum->0,
{
    lemma_negative(ttls.authorities);
}

proof fn lemma_negative(authorities: Seq<Authority>)
    requires
        negative_ttl(authorities) > 0,
    ensures
        exists|i: int|
            0 <= i < authorities.len() && (#[trigger] authorities[i]).soa_minimum is Some
                && negative_ttl(authorities) <= authorities[i].ttl && negative_ttl(authorities)
                <= authorities[i].soa_minimum->0,
    decreases authorities.len(),
{
    if authorities[0].soa_minimum is None {
        let rest = authorities.drop_first();
        lemma_negative(rest);
        let i = choose|i: int|
            0 <= i < rest.len() && (#[trigger] rest[i]).soa_minimum is Some && negative_ttl(rest)
                <= rest[i].ttl && negative_ttl(rest) <= rest[i].soa_minimum->0;
        assert(authorities[i + 1] == rest[i]);
    }
}

} // verus!
