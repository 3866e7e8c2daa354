//! What becomes of the responses and the failures on a connection to an upstream, and
//! which connections are used.

use vstd::prelude::*;

use crate::dns::dot::{
    all_waiters, delivered, reacted, steps, Delivery, DotConnection, Event, Reaction, Reading,
    MAX_DOT_CONNECTIONS, MAX_DOT_IN_FLIGHT,
};
use crate::dns::dot_pool::{
    alive_only, first_free, lemma_alive_only_split, lemma_first_free, probed, Pooled,
};
use crate::dns::message::{
    lower_byte, same_label, same_question, same_questions, MessageView, QuestionView,
};

verus! {

/// Two bytes of a name that count as the same: equal, or the same letter of ASCII in
/// either case.
pub open spec fn same_letter(a: u8, b: u8) -> bool {
    ||| a == b
    ||| 65 <= a <= 90 && b == a + 32
    ||| 65 <= b <= 90 && a == b + 32
}

/// Whether one question asks for the same as another: the same type and class, and a name
/// of the same labels but for the case of letters.
pub open spec fn repeats(a: QuestionView, b: QuestionView) -> bool {
    &&& a.qtype == b.qtype
    &&& a.qclass == b.qclass
    &&& a.labels.len() == b.labels.len()
    &&& forall|i: int| #![trigger a.labels[i], b.labels[i]]
        0 <= i < a.labels.len() ==> a.labels[i].len() == b.labels[i].len()
    &&& forall|i: int, k: int| #![trigger a.labels[i][k], b.labels[i][k]]
        0 <= i < a.labels.len() && 0 <= k < a.labels[i].len() ==> same_letter(
            a.labels[i][k],
            b.labels[i][k],
        )
}

/// Whether questions are repeated, all of them, in their order, and no others.
pub open spec fn all_repeated(a: Seq<QuestionView>, b: Seq<QuestionView>) -> bool {
    a.len() == b.len() && forall|i: int| #![trigger a[i], b[i]] 0 <= i < a.len() ==> repeats(
        a[i],
        b[i],
    )
}

/// Two names are the same if they have the same labels: as many, each of the same length
/// and byte for byte the same, but for the case of ASCII letters. Two questions ask the
/// same if names, types and classes are the same, and so on for lists of questions.
pub proof fn law_questions_match_but_for_case(a: Seq<QuestionView>, b: Seq<QuestionView>)
    ensures
        same_questions(a, b) <==> all_repeated(a, b),
{
    if same_questions(a, b) {
        assert forall|i: int| #![trigger a[i], b[i]] 0 <= i < a.len() implies repeats(
            a[i],
            b[i],
        ) by {
            assert(same_question(a[i], b[i]));
            assert forall|j: int| #![trigger a[i].labels[j], b[i].labels[j]]
                0 <= j < a[i].labels.len() implies a[i].labels[j].len() == b[i].labels[j].len() by {
                lemma_same_label(a[i].labels[j], b[i].labels[j]);
            }
            assert forall|j: int, k: int| #![trigger a[i].labels[j][k], b[i].labels[j][k]]
                0 <= j < a[i].labels.len() && 0 <= k < a[i].labels[j].len() implies same_letter(
                a[i].labels[j][k],
                b[i].labels[j][k],
            ) by {
                lemma_same_label(a[i].labels[j], b[i].labels[j]);
            }
        }
    }
    if all_repeated(a, b) {
        assert forall|i: int| 0 <= i < a.len() implies #[trigger] same_question(a[i], b[i]) by {
            assert(repeats(a[i], b[i]));
            assert forall|j: int| 0 <= j < a[i].labels.len() implies #[trigger] same_label(
                a[i].labels[j],
                b[i].labels[j],
            ) by {
                lemma_same_label(a[i].labels[j], b[i].labels[j]);
            }
        }
    }
}

proof fn lemma_same_label(a: Seq<u8>, b: Seq<u8>)
    ensures
        same_label(a, b) <==> a.len() == b.len() && forall|k: int| #![trigger a[k], b[k]]
            0 <= k < a.len() ==> same_letter(a[k], b[k]),
{
    let la = a.map_values(|c: u8| lower_byte(c));
    let lb = b.map_values(|c: u8| lower_byte(c));
    if same_label(a, b) {
        assert(la.len() == lb.len());
        assert forall|k: int| #![trigger a[k], b[k]] 0 <= k < a.len() implies same_letter(
            a[k],
            b[k],
        ) by {
            assert(la[k] == lb[k]);
        }
    }
    if a.len() == b.len() && forall|k: int| #![trigger a[k], b[k]]
        0 <= k < a.len() ==> same_letter(a[k], b[k]) {
        assert(la =~= lb) by {
            assert forall|k: int| 0 <= k < la.len() implies la[k] == lb[k] by {
                assert(same_letter(a[k], b[k]));
            }
        }
    }
}

/// A response goes to the query with its id if that one asked just what the response
/// answers, and then nothing else changes: the bytes that came are handed over, and the
/// connection lives on. Any other response ends the connection, and everybody on it is
/// told. It was not the connection that failed then, except for those whose response had
/// not come yet.
pub proof fn law_what_becomes_of_a_response(
    before: DotConnection,
    after: DotConnection,
    raw: Seq<u8>,
    decoded: Result<MessageView, Seq<char>>,
    r: Delivery,
)
    requires
        delivered(before, after, raw, decoded, r),
    ensures
        ({
            let expected = match decoded {
                Ok(m) => before.pending().contains_key(m.id),
                Err(_) => false,
            };
            let repeated = expected && all_repeated(
                decoded->Ok_0.questions,
                before.pending()[decoded->Ok_0.id].expected,
            );
            match r {
                Delivery::Response { waiter, reply } => {
                    let m = decoded->Ok_0;
                    &&& repeated
                    &&& waiter == before.pending()[m.id].waiter
                    &&& reply.raw@ == raw
                    &&& reply.message@ == m
                    &&& after.alive() == before.alive()
                    &&& after.pending() == before.pending().remove(m.id)
                    &&& after.reserved() == before.reserved() - 1
                },
                Delivery::Mismatch { waiter, failure, others, closed } => {
                    let m = decoded->Ok_0;
                    &&& expected && !repeated
                    &&& waiter == before.pending()[m.id].waiter
                    &&& failure@ is Protocol
                    &&& all_waiters(others@, before.pending().remove(m.id))
                    &&& closed@ is Connection
                    &&& !after.alive()
                    &&& after.pending().dom() == Set::<u16>::empty()
                },
                Delivery::Broken { waiters, failure } => {
                    &&& !expected
                    &&& all_waiters(waiters@, before.pending())
                    &&& failure@ is Protocol
                    &&& !after.alive()
                    &&& after.pending().dom() == Set::<u16>::empty()
                },
            }
        }),
{
    if let Ok(m) = decoded {
        if before.pending().contains_key(m.id) {
            let expected = before.pending()[m.id].expected;
            law_questions_match_but_for_case(m.questions, expected);
            assert(same_questions(m.questions, expected) == all_repeated(m.questions, expected));
        }
    }
}

/// What reading and writing come to. A length announces so many bytes, and nothing else
/// happens. Whatever fails ends the connection, and everybody on it is told. It counts as
/// the connection's failure, so that the query may be tried on another one, unless the
/// upstream sent a response of no length.
pub proof fn law_what_becomes_of_an_event(
    before: DotConnection,
    after: DotConnection,
    event: Event,
    r: Reaction,
)
    requires
        reacted(before, after, event, r),
    ensures
        match event {
            Event::Length(high, low) => if high == 0 && low == 0 {
                &&& r.next == Reading::Stop
                &&& r.delivery matches Some(Delivery::Broken { waiters, failure })
                    && failure@ is Protocol && all_waiters(waiters@, before.pending())
                &&& !after.alive()
            } else {
                &&& r.next == Reading::Body((256 * high + low) as usize)
                &&& r.delivery is None
                &&& after == before
            },
            Event::Body(raw) => {
                &&& r.delivery is Some
                &&& r.next == Reading::Length <==> r.delivery->0 is Response
                &&& r.next == Reading::Stop <==> !(r.delivery->0 is Response)
            },
            _ => {
                &&& r.next == Reading::Stop
                &&& r.delivery matches Some(Delivery::Broken { waiters, failure })
                    && failure@ is Connection && all_waiters(waiters@, before.pending())
                &&& !after.alive()
                &&& after.pending().dom() == Set::<u16>::empty()
            },
        },
{
}

/// Ids are tried upwards from a start, and from the largest one on to zero, so that each
/// of them comes once.
pub proof fn law_ids_are_tried_in_turn(from: u16, to: u16)
    ensures
        0 <= steps(from, to) < 65536,
        (from + steps(from, to)) % 65536 == to,
{
}

/// There are up to two connections to an upstream, and up to 256 queries on each.
pub proof fn law_places_for_queries(connections: int, queries: int)
    ensures
        connections < MAX_DOT_CONNECTIONS <==> connections < 2,
        queries < MAX_DOT_IN_FLIGHT <==> queries < 256,
{
}

/// Connections are let go of if and only if they are of no use any more, and those that
/// are left keep their order.
pub proof fn law_only_dead_connections_are_let_go(
    front: Seq<Pooled>,
    one: Pooled,
    back: Seq<Pooled>,
)
    ensures
        alive_only(seq![]) == Seq::<Pooled>::empty(),
        one.connection.alive() ==> alive_only(front + seq![one] + back) == alive_only(front)
            + seq![one] + alive_only(back),
        !one.connection.alive() ==> alive_only(front + seq![one] + back) == alive_only(front)
            + alive_only(back),
{
    lemma_alive_only_split(front + seq![one], back);
    lemma_alive_only_split(front, seq![one]);
    assert(seq![one].drop_last() =~= seq![]);
    assert(alive_only(seq![]) =~= Seq::<Pooled>::empty());
    if one.connection.alive() {
        assert(alive_only(seq![one]) =~= seq![one]);
    } else {
        assert(alive_only(seq![one]) =~= seq![]);
        assert(alive_only(front) + seq![] =~= alive_only(front));
    }
}

/// A query goes over the first connection that has fewer than 256 queries on it: all
/// before that one are full, and none is picked only if all are.
pub proof fn law_the_first_free_connection_is_picked(connections: Seq<Pooled>, i: int)
    requires
        0 <= i < connections.len(),
    ensures
        0 <= first_free(connections) <= connections.len(),
        i < first_free(connections) ==> connections[i].connection.reserved() >= 256,
        i == first_free(connections) ==> connections[i].connection.reserved() < 256,
{
    lemma_first_free(connections);
}

/// A connection is probed if and only if nothing was sent on it for as long as that and
/// it has a place left, and each is probed once.
pub proof fn law_idle_connections_are_probed(
    connections: Seq<Pooled>,
    one: Pooled,
    now: u64,
    interval: u64,
)
    ensures
        probed(seq![], now, interval) == Seq::<u64>::empty(),
        probed(connections.push(one), now, interval) == (if one.connection.reserved() < 256 && (
        interval == 0 || one.connection.last_used() + interval <= now) {
            probed(connections, now, interval).push(one.number)
        } else {
            probed(connections, now, interval)
        }),
{
    assert(connections.push(one).drop_last() =~= connections);
    assert(probed(seq![], now, interval) =~= Seq::<u64>::empty());
}

} // verus!
