use dns_rs::config::{UpstreamConfig, UpstreamStrategy};
use dns_rs::dns::dot::{
    frame, next_available_id, Delivery, DotConnection, DotFailure, Event, Reading, MAX_DOT_IN_FLIGHT,
};
use dns_rs::dns::dot_pool::{should_retry, Acquired, DotPool};
use dns_rs::dns::upstream::{
    attempt, describe_std_error, doh_reply, doh_request, is_retryable, label, literal_address,
    overall_timeout, plan_upstreams, probe_query, should_retry_doh, Ask, DohFailure, FirstAnswer,
    HttpFailure, MultiUpstream, Outcome, Sequential, Strategy, Unanswered, UpstreamError,
    UPSTREAM_TIMEOUT,
};
use dns_rs::ip::IpAddr;
use hickory_proto::op::{Message, OpCode, Query};
use hickory_proto::rr::rdata::A;
use hickory_proto::rr::{Name, RData, Record, RecordType};
use rustc_hash::FxHashMap;

/// An upstream that answers or fails after so many milliseconds.
struct Fake {
    ip: Option<[u8; 4]>,
    delay: u64,
    calls: usize,
}

fn answering(ip: [u8; 4]) -> Fake {
    Fake { ip: Some(ip), delay: 0, calls: 0 }
}

fn failing() -> Fake {
    Fake { ip: None, delay: 0, calls: 0 }
}

impl Fake {
    fn with_delay(mut self, delay: u64) -> Fake {
        self.delay = delay;
        self
    }
}

fn test_query() -> Vec<u8> {
    let mut msg = Message::query();
    msg.metadata.id = 4242;
    msg.add_query(Query::query(Name::from_ascii("example.com.").unwrap(), RecordType::A));
    msg.to_vec().unwrap()
}

fn answer(query: &[u8], ip: [u8; 4]) -> Vec<u8> {
    let query = Message::from_vec(query).unwrap();
    let mut response = Message::response(query.metadata.id, OpCode::Query);
    response.add_query(query.queries[0].clone());
    let name = query.queries[0].name.clone();
    response.add_answer(Record::from_rdata(name, 60, RData::A(A::new(ip[0], ip[1], ip[2], ip[3]))));
    response.to_vec().unwrap()
}

/// Runs a query on a clock of its own. Returns the answer, or the error, and the time
/// at which it was settled.
fn resolve(pool: &mut MultiUpstream<Fake>) -> (Result<[u8; 4], UpstreamError>, u64) {
    let total = pool.upstreams.len();
    if pool.strategy == Strategy::Sequential {
        let mut now = 0;
        let mut sequential = Sequential::start(total, now);
        loop {
            match sequential.next_ask(now) {
                Ask::GiveUp(e) => return (Err(e), now),
                Ask::Upstream(index, wait) => {
                    let upstream = &mut pool.upstreams[index];
                    upstream.calls += 1;
                    if upstream.delay > wait {
                        now += wait;
                        sequential.unanswered(Unanswered::TimedOut);
                    } else {
                        now += upstream.delay;
                        match upstream.ip {
                            Some(ip) => return (Ok(ip), now),
                            None => sequential.unanswered(Unanswered::Failed),
                        }
                    }
                }
            }
        }
    }
    let mut running = match FirstAnswer::start(total) {
        Ok(running) => running,
        Err(e) => return (Err(e), 0),
    };
    let mut events = Vec::new();
    for index in 0..total {
        let plan = attempt(pool.strategy, index as u32);
        let upstream = &pool.upstreams[index];
        let outcome = match (plan.timeout, upstream.ip) {
            (Some(t), _) if upstream.delay > t => (plan.delay + t, Outcome::Unanswered(index, Unanswered::TimedOut)),
            (_, Some(_)) => (plan.delay + upstream.delay, Outcome::Answered(index)),
            (_, None) => (plan.delay + upstream.delay, Outcome::Unanswered(index, Unanswered::Failed)),
        };
        events.push(outcome);
    }
    events.sort_by_key(|e| e.0);
    let mut settled = None;
    for (at, outcome) in events {
        if let Some(limit) = overall_timeout(pool.strategy) {
            if at > limit {
                settled = Some((Err(UpstreamError::AllTimedOut), limit));
                break;
            }
        }
        if let Some(result) = running.note(outcome) {
            settled = Some((result, at));
            break;
        }
    }
    let (result, at) = settled.expect("every upstream answers or fails");
    for index in 0..total {
        let start = attempt(pool.strategy, index as u32).delay;
        if start <= at {
            pool.upstreams[index].calls += 1;
        }
    }
    (result.map(|index| pool.upstreams[index].ip.unwrap()), at)
}

#[test]
fn sequential_falls_back_to_next_upstream_on_failure() {
    let mut pool = MultiUpstream::new(vec![failing(), answering([10, 0, 0, 1])], Strategy::Sequential);
    let ip = resolve(&mut pool).0.expect("should fall back to the working upstream");
    assert_eq!(ip, [10, 0, 0, 1]);
    let query = test_query();
    let asked = doh_request(&query, 7).ok().unwrap();
    let reply = doh_reply(answer(&asked, ip), 7).ok();
    let response = pool.resolve(4242, reply.ok_or(UpstreamError::Failed(1))).ok().unwrap();
    assert_eq!(response.message.id, 4242, "caller's ID must be restored");
    assert_eq!(Message::from_vec(&response.raw).unwrap().metadata.id, 4242, "caller's ID must be restored");
    assert_eq!(response.raw, answer(&query, ip), "nothing else is changed");
    assert_eq!(pool.upstreams[0].calls, 1);
    assert_eq!(pool.upstreams[1].calls, 1);
}

#[test]
fn sequential_does_not_try_later_upstreams_on_success() {
    let mut pool =
        MultiUpstream::new(vec![answering([10, 0, 0, 2]), answering([10, 0, 0, 3])], Strategy::Sequential);
    assert_eq!(resolve(&mut pool).0, Ok([10, 0, 0, 2]));
    assert_eq!(pool.upstreams[0].calls, 1);
    assert_eq!(pool.upstreams[1].calls, 0, "second upstream should never be queried after a success");
}

#[test]
fn sequential_fails_only_when_every_upstream_fails() {
    let mut pool = MultiUpstream::new(vec![failing(), failing()], Strategy::Sequential);
    let err = resolve(&mut pool).0.unwrap_err();
    assert_eq!(err, UpstreamError::Failed(1), "should surface the last upstream's error");
    assert!(err.message("b").contains('b'));
}

#[test]
fn a_hung_upstream_costs_one_timeout_and_starves_the_fallback() {
    let mut pool =
        MultiUpstream::new(vec![answering([1, 1, 1, 1]).with_delay(60_000), answering([2, 2, 2, 2])], Strategy::Sequential);
    let (result, at) = resolve(&mut pool);
    assert_eq!(result, Err(UpstreamError::TimedOut(1)));
    assert_eq!(at, UPSTREAM_TIMEOUT);
    assert_eq!(pool.upstreams[1].calls, 0);
    assert_eq!(UpstreamError::TimedOut(1).message("dot://x:853"), "timed out querying dot://x:853");
}

#[test]
fn hedged_does_not_touch_fallback_when_preferred_answers_within_head_start() {
    let mut pool = MultiUpstream::new(vec![answering([1, 1, 1, 1]), answering([9, 9, 9, 9])], Strategy::Hedged);
    assert_eq!(resolve(&mut pool).0, Ok([1, 1, 1, 1]));
    assert_eq!(pool.upstreams[0].calls, 1);
    assert_eq!(
        pool.upstreams[1].calls, 0,
        "a prompt preferred answer must cancel the delayed fallback before it sends duplicate upstream traffic"
    );
}

#[test]
fn hedged_uses_fallback_without_waiting_for_slow_preferred() {
    let mut pool =
        MultiUpstream::new(vec![answering([1, 1, 1, 1]).with_delay(200), answering([9, 9, 9, 9])], Strategy::Hedged);
    let (result, at) = resolve(&mut pool);
    assert_eq!(result, Ok([9, 9, 9, 9]));
    assert!(at < 150, "fallback should win shortly after the hedge delay rather than waiting 200ms for the preferred upstream");
    assert_eq!(pool.upstreams[0].calls, 1);
    assert_eq!(pool.upstreams[1].calls, 1);
}

#[test]
fn hedged_queries_time_out_together() {
    let mut pool = MultiUpstream::new(
        vec![answering([1, 1, 1, 1]).with_delay(60_000), answering([9, 9, 9, 9]).with_delay(60_000)],
        Strategy::Hedged,
    );
    assert_eq!(resolve(&mut pool), (Err(UpstreamError::AllTimedOut), UPSTREAM_TIMEOUT));
    assert_eq!(UpstreamError::AllTimedOut.message(""), "all hedged upstream queries timed out");
}

#[test]
fn race_returns_the_fastest_success() {
    let mut pool =
        MultiUpstream::new(vec![answering([10, 0, 0, 4]).with_delay(200), answering([10, 0, 0, 5])], Strategy::Race);
    assert_eq!(resolve(&mut pool).0, Ok([10, 0, 0, 5]));
}

#[test]
fn race_falls_back_when_the_faster_upstream_fails() {
    let mut pool = MultiUpstream::new(vec![failing(), answering([10, 0, 0, 6]).with_delay(50)], Strategy::Race);
    assert_eq!(resolve(&mut pool).0, Ok([10, 0, 0, 6]));
}

#[test]
fn race_fails_only_when_every_upstream_fails() {
    let mut pool = MultiUpstream::new(vec![failing(), failing()], Strategy::Race);
    assert_eq!(resolve(&mut pool).0, Err(UpstreamError::Failed(1)));
}

#[test]
fn race_with_zero_upstreams_returns_an_error_instead_of_hanging() {
    for strategy in [Strategy::Race, Strategy::Hedged, Strategy::Sequential] {
        let mut pool: MultiUpstream<Fake> = MultiUpstream::new(vec![], strategy);
        assert_eq!(resolve(&mut pool).0, Err(UpstreamError::NoneConfigured));
    }
    assert_eq!(UpstreamError::NoneConfigured.message(""), "no upstream resolvers configured");
}

#[test]
fn errors_of_a_strategy_are_handed_on() {
    for strategy in [Strategy::Race, Strategy::Hedged, Strategy::Sequential] {
        let pool: MultiUpstream<Fake> = MultiUpstream::new(vec![], strategy);
        assert_eq!(pool.resolve(1, Err(UpstreamError::AllTimedOut)).err(), Some(UpstreamError::AllTimedOut));
    }
}

#[test]
fn strategies_come_from_the_configuration() {
    assert_eq!(Strategy::from(UpstreamStrategy::Sequential), Strategy::Sequential);
    assert_eq!(Strategy::from(UpstreamStrategy::Hedged), Strategy::Hedged);
    assert_eq!(Strategy::from(UpstreamStrategy::Race), Strategy::Race);
}

/// Sends a query over the pool's connection and returns its id and frame.
fn send(pool: &mut DotPool, number: u64, waiter: u64) -> (u16, Vec<u8>) {
    let i = pool.position(number).unwrap();
    let out = pool.connections[i].connection.query(&test_query(), waiter, 4242, 0).ok().unwrap();
    (out.id, out.frame)
}

#[test]
fn concurrent_dot_queries_share_one_tls_connection() {
    let mut pool = DotPool::new();
    let mut dials = 0;
    let mut sent = Vec::new();
    for waiter in 0..100u64 {
        let number = match pool.acquire() {
            Acquired::Use(number) => number,
            Acquired::Dial => {
                assert_eq!(pool.acquire(), Acquired::Wait, "only one connection is dialed at a time");
                dials += 1;
                pool.dialed(0)
            }
            Acquired::Wait => panic!("there is room for all"),
        };
        let (id, framed) = send(&mut pool, number, waiter);
        assert_eq!(framed.len(), 2 + from_be(&framed));
        sent.push((waiter, id, framed[2..].to_vec()));
    }
    assert_eq!(dials, 1, "one multiplexed DoT connection should carry the whole concurrent burst");
    sent.reverse();
    for (waiter, id, query) in sent {
        let response = answer(&query, [9, 9, 9, 9]);
        let reaction = pool.connections[0].connection.on_event(Event::Body(response));
        assert_eq!(reaction.next, Reading::Length);
        match reaction.delivery {
            Some(Delivery::Response { waiter: served, reply }) => {
                assert_eq!(served, waiter);
                assert_eq!(reply.message.id, id);
            }
            _ => panic!("a response is delivered"),
        }
    }
}

fn from_be(framed: &[u8]) -> usize {
    framed[0] as usize * 256 + framed[1] as usize
}

#[test]
fn dot_pool_reconnects_after_the_upstream_closes_a_connection() {
    let mut pool = DotPool::new();
    let mut accepts = 0;
    for waiter in 0..5u64 {
        assert_eq!(pool.acquire(), Acquired::Dial);
        accepts += 1;
        let number = pool.dialed(0);
        let (_, framed) = send(&mut pool, number, waiter);
        let i = pool.position(number).unwrap();
        let response = answer(&framed[2..], [9, 9, 9, 9]);
        assert!(pool.connections[i].connection.on_event(Event::Body(response)).delivery.is_some());
        let reaction = pool.connections[i].connection.on_event(Event::LengthFailed("closed".to_string()));
        assert_eq!(reaction.next, Reading::Stop);
        assert!(!pool.connections[i].connection.is_alive());
    }
    assert!(accepts >= 5, "later queries should reconnect after each server-side close");
}

#[test]
fn dot_request_ids_never_replace_an_existing_waiter() {
    let pending = FxHashMap::from_iter([(7, ()), (8, ())]);

    let id = next_available_id(&pending, 7);

    assert_eq!(id, 9, "ID allocation must skip every active waiter rather than overwrite one");
    let pending = FxHashMap::from_iter([(65535, ()), (0, ())]);
    assert_eq!(next_available_id(&pending, 65535), 1);
}

#[test]
fn a_connection_carries_a_bounded_number_of_queries() {
    let mut pool = DotPool::new();
    assert_eq!(pool.acquire(), Acquired::Dial);
    let first = pool.dialed(0);
    for _ in 1..MAX_DOT_IN_FLIGHT {
        assert_eq!(pool.acquire(), Acquired::Use(first));
    }
    assert_eq!(pool.acquire(), Acquired::Dial);
    pool.dial_failed();
    assert_eq!(pool.acquire(), Acquired::Dial);
    let second = pool.dialed(0);
    assert_ne!(first, second);
    for _ in 1..MAX_DOT_IN_FLIGHT {
        assert_eq!(pool.acquire(), Acquired::Use(second));
    }
    assert_eq!(pool.acquire(), Acquired::Wait);
    pool.connections[0].connection.release();
    assert_eq!(pool.acquire(), Acquired::Use(first));
    assert!(pool.position(99).is_none());
}

fn connection() -> DotConnection {
    let mut connection = DotConnection::start(0);
    assert!(!connection.has_place());
    for _ in 0..3 {
        assert!(connection.try_reserve());
    }
    assert!(connection.has_place());
    connection
}

#[test]
fn a_response_to_another_question_ends_the_connection() {
    let mut c = connection();
    let a = c.query(&test_query(), 1, 10, 5).ok().unwrap();
    let _b = c.query(&test_query(), 2, 10, 5).ok().unwrap();
    let mut other = Message::query();
    other.metadata.id = a.id;
    other.add_query(Query::query(Name::from_ascii("example.net.").unwrap(), RecordType::A));
    let reaction = c.on_event(Event::Body(answer(&other.to_vec().unwrap(), [1, 1, 1, 1])));
    assert_eq!(reaction.next, Reading::Stop);
    match reaction.delivery {
        Some(Delivery::Mismatch { waiter, failure, others, closed }) => {
            assert_eq!(waiter, 1);
            assert_eq!(failure.message(), "DoT response question mismatch for ID 10");
            assert_eq!(others, vec![2]);
            assert_eq!(closed.message(), "DoT connection closed after response question mismatch");
        }
        _ => panic!("the question does not match"),
    }
    assert!(!c.is_alive());
    let e = c.query(&test_query(), 3, 10, 5).err().unwrap();
    assert!(matches!(&e, DotFailure::Connection(_)));
    assert_eq!(e.message(), "DoT connection closed");
    assert!(should_retry(&e, false));
    assert!(!should_retry(&e, true), "a query is tried again only once");
}

#[test]
fn the_case_of_a_repeated_question_does_not_matter() {
    let mut c = connection();
    let a = c.query(&test_query(), 1, 10, 5).ok().unwrap();
    let mut other = Message::query();
    other.metadata.id = a.id;
    other.add_query(Query::query(Name::from_ascii("EXAMPLE.Com.").unwrap(), RecordType::A));
    let reaction = c.on_event(Event::Body(answer(&other.to_vec().unwrap(), [1, 1, 1, 1])));
    assert!(matches!(reaction.delivery, Some(Delivery::Response { waiter: 1, .. })));
}

#[test]
fn every_event_that_ends_a_connection_is_told_to_all_who_wait() {
    let events = [
        (Event::Length(0, 0), "empty DoT response", false),
        (Event::LengthFailed("eof".to_string()), "failed to read DoT response length: eof", true),
        (Event::BodyFailed("eof".to_string()), "failed to read DoT response: eof", true),
        (Event::BodyTimedOut, "timed out reading DoT response", true),
        (Event::WriteFailed("pipe".to_string()), "failed to write DoT query: pipe", true),
        (Event::WriterStopped, "DoT writer stopped", true),
        (Event::KeepaliveTimedOut, "DoT keepalive timed out", true),
    ];
    for (event, text, connection_failed) in events {
        let mut c = connection();
        c.query(&test_query(), 7, 0, 5).ok().unwrap();
        c.query(&test_query(), 8, 0, 5).ok().unwrap();
        c.query(&test_query(), 9, 0, 5).ok().unwrap();
        c.cancel(1);
        let reaction = c.on_event(event);
        assert_eq!(reaction.next, Reading::Stop);
        match reaction.delivery {
            Some(Delivery::Broken { mut waiters, failure }) => {
                waiters.sort();
                assert_eq!(waiters, vec![7, 9]);
                assert_eq!(failure.message(), text);
                assert_eq!(should_retry(&failure, false), connection_failed);
            }
            _ => panic!("the connection ends"),
        }
        assert!(!c.is_alive());
        assert!(c.fail().is_empty(), "nobody is told twice");
    }
}

#[test]
fn unexpected_and_undecodable_responses_end_the_connection() {
    let mut c = connection();
    c.query(&test_query(), 7, 100, 5).ok().unwrap();
    let mut other = test_query();
    other[0] = 0;
    other[1] = 5;
    match c.on_event(Event::Body(answer(&other, [1, 1, 1, 1]))).delivery {
        Some(Delivery::Broken { waiters, failure }) => {
            assert_eq!(waiters, vec![7]);
            assert_eq!(failure.message(), "unexpected DoT response ID 5");
        }
        _ => panic!("nobody asked"),
    }
    let mut c = connection();
    match c.on_event(Event::Body(vec![1, 2, 3])).delivery {
        Some(Delivery::Broken { failure, .. }) => {
            assert!(failure.message().starts_with("invalid DoT response: "));
        }
        _ => panic!("not a message"),
    }
    assert!(matches!(connection().on_event(Event::Length(1, 2)).next, Reading::Body(258)));
}

#[test]
fn idle_connections_are_kept_open() {
    let mut pool = DotPool::new();
    assert_eq!(pool.acquire(), Acquired::Dial);
    let number = pool.dialed(1_000);
    assert!(pool.keepalive(20_999, 20_000).is_empty());
    assert_eq!(pool.keepalive(21_000, 20_000), vec![number]);
    let i = pool.position(number).unwrap();
    assert!(pool.connections[i].connection.was_idle_for(21_000, 20_000));
    assert!(!pool.connections[i].connection.was_idle_for(0, 1));
    let probe = Message::from_vec(&probe_query()).unwrap();
    assert_eq!(probe.queries[0], Query::query(Name::root(), RecordType::NS));
    assert!(pool.connections[i].connection.query(&probe_query(), 1, 77, 21_000).is_ok());
    assert!(!pool.connections[i].connection.was_idle_for(21_001, 20_000));
}

#[test]
fn frames_carry_their_length() {
    assert_eq!(frame(&vec![7, 8, 9]), Some(vec![0, 3, 7, 8, 9]));
    assert_eq!(frame(&vec![0; 65535]).unwrap()[0..2], [255, 255]);
    assert_eq!(frame(&vec![0; 65536]), None);
}

/// Sends until a request succeeds or is not tried again. Returns how many were sent.
fn send_doh(outcomes: &[Result<(), HttpFailure>]) -> (bool, usize) {
    let mut sent = 0;
    loop {
        let outcome = &outcomes[sent];
        sent += 1;
        match outcome {
            Ok(()) => return (true, sent),
            Err(failure) => {
                if !should_retry_doh(failure, sent > 1) {
                    return (false, sent);
                }
            }
        }
    }
}

const STATUS_ERROR: HttpFailure = HttpFailure { connect: false, timeout: false, request: false, body: false };

#[test]
fn doh_retries_once_after_a_body_read_failure_then_succeeds() {
    let body = HttpFailure { body: true, ..STATUS_ERROR };
    assert_eq!(send_doh(&[Err(body), Ok(())]), (true, 2), "exactly one retry should have been attempted");
    assert_eq!(send_doh(&[Err(body), Err(body), Ok(())]), (false, 2));
    assert!(is_retryable(&HttpFailure { connect: true, ..STATUS_ERROR }));
    assert!(is_retryable(&HttpFailure { timeout: true, ..STATUS_ERROR }));
    assert!(is_retryable(&HttpFailure { request: true, ..STATUS_ERROR }));
}

#[test]
fn doh_does_not_retry_a_real_http_error_status() {
    assert_eq!(send_doh(&[Err(STATUS_ERROR), Ok(())]), (false, 1), "a real HTTP error status must not be retried");
    let text = describe_std_error(&vec!["DoH request to https://127.0.0.1/dns-query failed".to_string(), "500".to_string()]);
    assert!(!text.is_empty());
    assert_eq!(text, "DoH request to https://127.0.0.1/dns-query failed: 500");
}

#[test]
fn doh_responses_must_carry_the_id_of_the_query() {
    let query = doh_request(&test_query(), 0x0a0b).ok().unwrap();
    assert_eq!(query[0..2], [0x0a, 0x0b]);
    assert_eq!(query[2..], test_query()[2..]);
    let response = answer(&query, [1, 2, 3, 4]);
    assert!(doh_reply(response.clone(), 0x0a0b).is_ok());
    assert!(matches!(doh_reply(response, 1), Err(DohFailure::WrongId)));
    assert!(matches!(doh_reply(vec![0], 1), Err(DohFailure::Undecodable(_))));
    assert!(doh_request(&[1, 2, 3], 1).is_err());
}

#[test]
fn errors_are_described_with_their_causes() {
    assert_eq!(describe_std_error(&vec!["a".to_string(), "b".to_string(), "c".to_string()]), "a: b: c");
    assert_eq!(describe_std_error(&vec!["a".to_string()]), "a");
}

#[test]
fn upstreams_have_labels_and_valid_names() {
    let dot = |tls_name: &str| UpstreamConfig::Dot {
        host: "1.1.1.1".to_string(),
        port: 853,
        tls_name: tls_name.to_string(),
    };
    let doh = UpstreamConfig::Doh { url: "https://dns.google/dns-query".to_string() };
    assert_eq!(label(&dot("x")), "dot://1.1.1.1:853");
    assert_eq!(label(&doh), "doh://https://dns.google/dns-query");
    assert_eq!(
        plan_upstreams(&vec![dot("one.one.one.one"), doh, dot("1.1.1.1")]).ok().unwrap(),
        vec!["dot://1.1.1.1:853", "doh://https://dns.google/dns-query", "dot://1.1.1.1:853"]
    );
    assert_eq!(plan_upstreams(&vec![dot("ok.example"), dot("not a name")]), Err("not a name".to_string()));
}

#[test]
fn literal_addresses_need_no_resolving() {
    assert!(matches!(literal_address("[::1]"), Some(IpAddr::V6(g)) if g == [0, 0, 0, 0, 0, 0, 0, 1]));
    assert!(matches!(literal_address("8.8.8.8"), Some(IpAddr::V4([8, 8, 8, 8]))));
    assert!(literal_address("dns.google").is_none());
}
