use dns_rs::config::{BlockMode, StaticHost};
use dns_rs::dns::cache::{ResponseCache, NANOS_PER_SECOND};
use dns_rs::dns::handler::{
    fetch_from_upstream, handle_query, reply_for, response_ttl, Reply, Step,
};
use dns_rs::dns::inflight::{InFlightRegistry, Joined};
use dns_rs::dns::message::{error_response, Authority, RecordTtls};
use dns_rs::dns::upstream::{doh_reply, Ask, Sequential, Unanswered};
use dns_rs::state::AppState;
use hickory_proto::op::{Message, OpCode, Query, ResponseCode};
use hickory_proto::rr::rdata::{A, SOA};
use hickory_proto::rr::{Name, RData, Record, RecordType};
use rustc_hash::{FxHashMap, FxHashSet};

enum Outcome {
    Answer([u8; 4]),
    Fail,
    Negative(ResponseCode, Option<(u32, u32)>),
}

struct FakeUpstream {
    outcome: Outcome,
    calls: usize,
}

impl FakeUpstream {
    fn new(outcome: Outcome) -> Self {
        FakeUpstream { outcome, calls: 0 }
    }

    fn resolve(&mut self, raw: &[u8]) -> Option<Vec<u8>> {
        self.calls += 1;
        let query = Message::from_vec(raw).unwrap();
        let mut response = Message::response(query.metadata.id, OpCode::Query);
        response.add_query(query.queries[0].clone());
        match &self.outcome {
            Outcome::Answer(ip) => {
                let name = query.queries[0].name.clone();
                response.add_answer(Record::from_rdata(name, 60, RData::A(A::new(ip[0], ip[1], ip[2], ip[3]))));
            }
            Outcome::Fail => return None,
            Outcome::Negative(code, soa) => {
                response.metadata.response_code = *code;
                if let Some((soa_ttl, soa_minimum)) = *soa {
                    response.add_authority(Record::from_rdata(
                        Name::from_ascii("example.com.").unwrap(),
                        soa_ttl,
                        RData::SOA(SOA::new(
                            Name::from_ascii("ns1.example.com.").unwrap(),
                            Name::from_ascii("hostmaster.example.com.").unwrap(),
                            1,
                            3600,
                            600,
                            86400,
                            soa_minimum,
                        )),
                    ));
                }
            }
        }
        Some(response.to_vec().unwrap())
    }
}

struct World {
    state: AppState,
    blocklist: FxHashSet<String>,
    cache: ResponseCache,
    upstreams: Vec<FakeUpstream>,
}

fn world(upstreams: Vec<FakeUpstream>) -> World {
    World {
        state: AppState {
            static_hosts: FxHashMap::default(),
            block_mode: BlockMode::Nxdomain,
            sinkhole_ip: [0, 0, 0, 0],
            sinkhole_ttl: 60,
        },
        blocklist: FxHashSet::default(),
        cache: ResponseCache::new(true, 1000),
        upstreams,
    }
}

/// Asks the upstreams in order, under another id than the query's.
fn ask_in_order(upstreams: &mut Vec<FakeUpstream>, raw: &[u8]) -> Option<Reply> {
    let mut sequential = Sequential::start(upstreams.len(), 0);
    loop {
        match sequential.next_ask(1) {
            Ask::Upstream(index, _) => {
                let mut outgoing = raw.to_vec();
                outgoing[0] = 0xab;
                outgoing[1] = 0xcd;
                match upstreams[index].resolve(&outgoing) {
                    Some(bytes) => return doh_reply(bytes, 0xabcd).ok(),
                    None => sequential.unanswered(Unanswered::Failed),
                }
            }
            Ask::GiveUp(_) => return None,
        }
    }
}

impl World {
    fn ask(&mut self, raw: &[u8], now: u64) -> Vec<u8> {
        match handle_query(&self.state, &self.blocklist, &mut self.cache, raw, now) {
            Step::Reply(wire) => wire,
            Step::Fetch(fetch) => {
                let reply = ask_in_order(&mut self.upstreams, raw);
                fetch_from_upstream(&mut self.cache, &fetch, reply.as_ref(), now)
            }
        }
    }
}

fn wire_query(domain: &str, qtype: RecordType, id: u16) -> Vec<u8> {
    let mut msg = Message::query();
    msg.metadata.id = id;
    msg.metadata.recursion_desired = true;
    msg.add_query(Query::query(Name::from_ascii(domain).unwrap(), qtype));
    msg.to_vec().unwrap()
}

fn decode(bytes: &[u8]) -> Message {
    Message::from_vec(bytes).expect("response should be valid wire format")
}

fn only_a_ip(msg: &Message) -> [u8; 4] {
    match &msg.answers[0].data {
        RData::A(a) => a.octets(),
        other => panic!("expected an A record, got {other:?}"),
    }
}

#[test]
fn static_host_answers_without_touching_upstream() {
    let mut w = world(vec![FakeUpstream::new(Outcome::Answer([9, 9, 9, 9]))]);
    w.state.static_hosts.insert("nas.home.".to_string(), StaticHost { ip: [192, 168, 1, 10], ttl: 60 });

    let response = decode(&w.ask(&wire_query("nas.home", RecordType::A, 1), 0));

    assert_eq!(response.metadata.response_code, ResponseCode::NoError);
    assert_eq!(only_a_ip(&response), [192, 168, 1, 10]);
    assert_eq!(response.metadata.id, 1);
    assert_eq!(w.upstreams[0].calls, 0, "static host must never reach upstream");
}

#[test]
fn blocklist_nxdomain_mode_blocks_without_touching_upstream() {
    let mut w = world(vec![FakeUpstream::new(Outcome::Answer([9, 9, 9, 9]))]);
    w.blocklist.insert("ads.example.com.".to_string());
    w.state.block_mode = BlockMode::Nxdomain;

    let response = decode(&w.ask(&wire_query("ads.example.com", RecordType::A, 2), 0));

    assert_eq!(response.metadata.response_code, ResponseCode::NXDomain);
    assert!(response.answers.is_empty());
    assert_eq!(w.upstreams[0].calls, 0);
}

#[test]
fn blocklist_sinkhole_mode_returns_configured_ip() {
    let mut w = world(vec![FakeUpstream::new(Outcome::Answer([9, 9, 9, 9]))]);
    w.blocklist.insert("ads.example.com.".to_string());
    w.state.block_mode = BlockMode::Sinkhole;
    w.state.sinkhole_ip = [0, 0, 0, 0];

    let response = decode(&w.ask(&wire_query("ads.example.com", RecordType::A, 3), 0));

    assert_eq!(response.metadata.response_code, ResponseCode::NoError);
    assert_eq!(only_a_ip(&response), [0, 0, 0, 0]);
    assert_eq!(w.upstreams[0].calls, 0);
}

#[test]
fn upstream_miss_answers_correctly_and_populates_the_cache() {
    let mut w = world(vec![FakeUpstream::new(Outcome::Answer([5, 6, 7, 8]))]);

    let first = decode(&w.ask(&wire_query("example.com", RecordType::A, 10), 0));
    assert_eq!(only_a_ip(&first), [5, 6, 7, 8]);
    assert_eq!(first.metadata.id, 10);
    assert_eq!(w.upstreams[0].calls, 1);

    let second = decode(&w.ask(&wire_query("example.com", RecordType::A, 11), 1));
    assert_eq!(only_a_ip(&second), [5, 6, 7, 8]);
    assert_eq!(second.metadata.id, 11, "cache hit must carry the new request's ID");
    assert_eq!(w.upstreams[0].calls, 1, "second identical query should be served from cache");

    w.ask(&wire_query("EXAMPLE.com", RecordType::A, 12), 60 * NANOS_PER_SECOND - 1);
    assert_eq!(w.upstreams[0].calls, 1, "the case of a name does not matter");
    w.ask(&wire_query("example.com", RecordType::A, 13), 60 * NANOS_PER_SECOND);
    assert_eq!(w.upstreams[0].calls, 2, "an expired answer is fetched again");
}

#[test]
fn sequential_fallback_works_through_the_full_handler_path() {
    let mut w = world(vec![FakeUpstream::new(Outcome::Fail), FakeUpstream::new(Outcome::Answer([1, 1, 1, 1]))]);

    let response = decode(&w.ask(&wire_query("example.org", RecordType::A, 20), 0));

    assert_eq!(response.metadata.response_code, ResponseCode::NoError);
    assert_eq!(only_a_ip(&response), [1, 1, 1, 1]);
    assert_eq!(w.upstreams[0].calls, 1);
    assert_eq!(w.upstreams[1].calls, 1);
}

#[test]
fn all_upstreams_failing_returns_servfail_not_silence() {
    let mut w = world(vec![FakeUpstream::new(Outcome::Fail), FakeUpstream::new(Outcome::Fail)]);

    let response = decode(&w.ask(&wire_query("example.net", RecordType::A, 30), 0));

    assert_eq!(response.metadata.response_code, ResponseCode::ServFail);
    assert_eq!(response.metadata.id, 30);
    assert!(!w.cache.contains("example.net.", 1, 1), "a failure is not cached");
}

#[test]
fn concurrent_identical_misses_only_hit_upstream_once() {
    let mut w = world(vec![FakeUpstream::new(Outcome::Answer([2, 2, 2, 2]))]);
    let mut registry = InFlightRegistry::new();
    let queries: Vec<Vec<u8>> =
        (0..20).map(|i| wire_query("dedup-check.example.com", RecordType::A, 100 + i)).collect();

    let mut leaders = Vec::new();
    let mut fetches = Vec::new();
    for (i, query) in queries.iter().enumerate() {
        let step = handle_query(&w.state, &w.blocklist, &mut w.cache, query, 0);
        let fetch = match step {
            Step::Fetch(fetch) => fetch,
            Step::Reply(_) => panic!("nothing is cached yet"),
        };
        match registry.dedup(&fetch.qname, fetch.qtype, fetch.qclass, i) {
            Joined::Lead => leaders.push(i),
            Joined::Follow => {}
            Joined::Alone => panic!("the name is short enough"),
        }
        assert_eq!(registry.cell(&fetch.qname, fetch.qtype, fetch.qclass), Some(&leaders[0]));
        fetches.push(fetch);
    }
    assert_eq!(leaders.len(), 1, "20 concurrent identical queries should coalesce into 1 upstream call");
    let reply = ask_in_order(&mut w.upstreams, &queries[0]);
    let shared = fetch_from_upstream(&mut w.cache, &fetches[0], reply.as_ref(), 0);
    registry.remove(&fetches[0].qname, 1, 1);
    for (i, fetch) in fetches.iter().enumerate() {
        let resp = decode(&reply_for(&shared, fetch.id));
        assert_eq!(only_a_ip(&resp), [2, 2, 2, 2]);
        assert_eq!(resp.metadata.id, 100 + i as u16);
    }
    assert_eq!(w.upstreams[0].calls, 1);
    assert_eq!(registry.cell("dedup-check.example.com.", 1, 1), None);
    assert_eq!(registry.dedup("dedup-check.example.com.", 1, 1, 99), Joined::Lead);
    assert_eq!(registry.cell("dedup-check.example.com.", 1, 1), Some(&99));
}

#[test]
fn different_questions_are_fetched_apart() {
    let mut registry = InFlightRegistry::new();
    assert_eq!(registry.dedup("a.", 1, 1, "first"), Joined::Lead);
    assert_eq!(registry.dedup("b.", 1, 1, "second"), Joined::Lead);
    assert_eq!(registry.dedup("a.", 28, 1, "third"), Joined::Lead);
    assert_eq!(registry.dedup("a.", 1, 1, "fourth"), Joined::Follow);
    assert_eq!(registry.cell("a.", 1, 1), Some(&"first"));
    assert_eq!(registry.dedup(&"x".repeat(256), 1, 1, "fifth"), Joined::Alone);
    assert_eq!(registry.cell(&"x".repeat(256), 1, 1), None);
    registry.remove("a.", 1, 1);
    assert_eq!(registry.dedup("a.", 28, 1, "sixth"), Joined::Follow);
    assert_eq!(registry.cell("a.", 28, 1), Some(&"third"));
    assert_eq!(registry.dedup("a.", 1, 1, "seventh"), Joined::Lead);
    assert_eq!(registry.cell("a.", 1, 1), Some(&"seventh"));
}

#[test]
fn malformed_queries_get_formerr() {
    let mut w = world(vec![]);
    let response = w.ask(&[0x12, 0x34, 0xff], 0);
    assert_eq!(response, vec![0x12, 0x34, 0x80, 1, 0, 0, 0, 0, 0, 0, 0, 0]);
    assert_eq!(w.ask(&[], 0), vec![0, 0, 0x80, 1, 0, 0, 0, 0, 0, 0, 0, 0]);
    let mut two = Message::query();
    two.metadata.id = 7;
    two.add_query(Query::query(Name::from_ascii("a.example.").unwrap(), RecordType::A));
    two.add_query(Query::query(Name::from_ascii("b.example.").unwrap(), RecordType::A));
    let response = decode(&w.ask(&two.to_vec().unwrap(), 0));
    assert_eq!(response.metadata.response_code, ResponseCode::FormErr);
    assert_eq!(response.metadata.id, 7);
    let none = Message::query();
    let response = decode(&w.ask(&none.to_vec().unwrap(), 0));
    assert_eq!(response.metadata.response_code, ResponseCode::FormErr);
}

#[test]
fn synthesized_responses_are_exactly_these_bytes() {
    let mut w = world(vec![]);
    w.state.static_hosts.insert("nas.home.".to_string(), StaticHost { ip: [192, 168, 1, 10], ttl: 0x01020304 });
    let query = wire_query("Nas.Home", RecordType::A, 0x1234);
    let mut expected = vec![0x12, 0x34, 0x81, 0x80, 0, 1, 0, 1, 0, 0, 0, 0];
    expected.extend_from_slice(&[3, b'N', b'a', b's', 4, b'H', b'o', b'm', b'e', 0, 0, 1, 0, 1]);
    expected.extend_from_slice(&[0xc0, 12, 0, 1, 0, 1, 1, 2, 3, 4, 0, 4, 192, 168, 1, 10]);
    assert_eq!(w.ask(&query, 0), expected);

    let query = wire_query("nas.home", RecordType::AAAA, 1);
    let mut expected = vec![0, 1, 0x81, 0x80, 0, 1, 0, 0, 0, 0, 0, 0];
    expected.extend_from_slice(&[3, b'n', b'a', b's', 4, b'h', b'o', b'm', b'e', 0, 0, 28, 0, 1]);
    assert_eq!(w.ask(&query, 0), expected, "an overridden name has no other records and is not forwarded");

    w.state.static_hosts.insert(".".to_string(), StaticHost { ip: [1, 2, 3, 4], ttl: 5 });
    let query = wire_query(".", RecordType::A, 2);
    let mut expected = vec![0, 2, 0x81, 0x80, 0, 1, 0, 1, 0, 0, 0, 0, 0, 0, 1, 0, 1];
    expected.extend_from_slice(&[0, 0, 1, 0, 1, 0, 0, 0, 5, 0, 4, 1, 2, 3, 4]);
    assert_eq!(w.ask(&query, 0), expected);
}

#[test]
fn sinkholed_names_have_no_other_records() {
    let mut w = world(vec![]);
    w.blocklist.insert("ads.example.com.".to_string());
    w.state.block_mode = BlockMode::Sinkhole;
    let response = decode(&w.ask(&wire_query("ads.example.com", RecordType::AAAA, 3), 0));
    assert_eq!(response.metadata.response_code, ResponseCode::NoError);
    assert!(response.answers.is_empty());
    assert!(response.metadata.recursion_available);
}

#[test]
fn negative_answers_are_cached_for_as_long_as_the_zone_says() {
    for (code, soa, cached_secs) in [
        (ResponseCode::NXDomain, Some((300, 30)), 30),
        (ResponseCode::NXDomain, Some((20, 30)), 20),
        (ResponseCode::NoError, Some((300, 30)), 30),
        (ResponseCode::NXDomain, None, 0),
        (ResponseCode::NoError, None, 0),
        (ResponseCode::NXDomain, Some((0, 30)), 0),
        (ResponseCode::ServFail, Some((300, 30)), 0),
    ] {
        let mut w = world(vec![FakeUpstream::new(Outcome::Negative(code, soa))]);
        let query = wire_query("nothing.example.com", RecordType::A, 40);
        let first = decode(&w.ask(&query, 0));
        assert_eq!(first.metadata.response_code, code);
        assert_eq!(w.cache.contains("nothing.example.com.", 1, 1), cached_secs > 0);
        if cached_secs > 0 {
            w.ask(&query, cached_secs * NANOS_PER_SECOND - 1);
            assert_eq!(w.upstreams[0].calls, 1);
        }
        w.ask(&query, cached_secs * NANOS_PER_SECOND);
        assert_eq!(w.upstreams[0].calls, 2);
    }
}

#[test]
fn the_answer_that_expires_first_bounds_the_time_in_the_cache() {
    let ttls = RecordTtls { response_code: 0, answers: vec![300, 60, 120], authorities: Vec::new() };
    assert_eq!(response_ttl(&ttls), 60);
    let ttls = RecordTtls { response_code: 3, answers: vec![7], authorities: Vec::new() };
    assert_eq!(response_ttl(&ttls), 7);
    let authorities = vec![
        Authority { ttl: 5, soa_minimum: None },
        Authority { ttl: 50, soa_minimum: Some(40) },
        Authority { ttl: 1, soa_minimum: Some(1) },
    ];
    assert_eq!(response_ttl(&RecordTtls { response_code: 3, answers: vec![], authorities }), 40);
}

#[test]
fn error_responses_echo_the_operation() {
    assert_eq!(error_response(0x0102, 4, 2), vec![1, 2, 0xa0, 2, 0, 0, 0, 0, 0, 0, 0, 0]);
}
