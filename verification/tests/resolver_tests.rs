use dns_resolver::dns_cache::DnsCache;
use dns_resolver::dns_packet::{
    Answer, DnsPacket, Header, Question, QueryType, Record, ResponseCode,
};
use dns_resolver::resolver::{
    cached_start_ips_at, ipv4, local_resolution, local_resolution_at, next_lookup_step,
    root_server_ips, servfail_response, LookupStep,
};
use dns_resolver::text::{split_name, str_ends_with, str_eq};

fn query_packet(id: u16, name: &str, query_type: QueryType) -> DnsPacket {
    let mut packet = DnsPacket::new(Header::new(id, true, false, ResponseCode::NOERROR));
    packet.add_question(Question {
        name: name.to_string(),
        query_type,
        class: 1,
    });
    packet
}

fn ns_record(zone: &str, host: &str) -> Answer {
    Answer {
        name: zone.to_string(),
        query_type: QueryType::NS,
        class: 1,
        ttl: 300,
        len: 0,
        record: Record::NS(host.to_string()),
    }
}

fn a_record(name: &str, ip: u32) -> Answer {
    Answer {
        name: name.to_string(),
        query_type: QueryType::A,
        class: 1,
        ttl: 300,
        len: 4,
        record: Record::A(ip),
    }
}

#[test]
fn test_root_hints() {
    let roots = root_server_ips();
    assert_eq!(roots.len(), 13);
    assert_eq!(roots[0], ipv4(198, 41, 0, 4));
    assert_eq!(roots[12], ipv4(202, 12, 27, 33));
}

#[test]
fn test_resolver_unknown_type() {
    // a query for an unsupported type is answered locally with NOTIMP
    // and the question echoed; nothing is sent upstream
    let cache = DnsCache::new();
    let query = query_packet(42, "example.com", QueryType::UNKOWN(999));
    let response = local_resolution(&cache, &query).unwrap();
    assert_eq!(response.header.get_response_code(), ResponseCode::NOTIMP);
    assert_eq!(response.header.id, 42);
    assert!(response.header.get_query_response());
    assert_eq!(response.questions, query.questions);
}

#[test]
fn test_resolver_empty_question() {
    let cache = DnsCache::new();
    let query = DnsPacket::new(Header::new(42, true, false, ResponseCode::NOERROR));
    let response = local_resolution(&cache, &query).unwrap();
    assert_eq!(response.header.get_response_code(), ResponseCode::FORMERR);
    assert_eq!(response.header.id, 42);
}

#[test]
fn test_resolver_cache_hit() {
    let mut cache = DnsCache::new();
    let answer = a_record("example.com", ipv4(127, 0, 0, 1));
    cache.insert_at(vec![answer.clone()], 1000);

    let query = query_packet(42, "example.com", QueryType::A);
    let response = local_resolution_at(&cache, &query, 1000).unwrap();
    assert_eq!(response.header.get_response_code(), ResponseCode::NOERROR);
    assert!(response.header.get_recursion_available());
    assert_eq!(response.questions, query.questions);
    assert_eq!(response.answers, vec![answer]);
}

#[test]
fn test_resolver_cache_miss_needs_network() {
    let cache = DnsCache::new();
    let query = query_packet(42, "example.com", QueryType::A);
    assert!(local_resolution_at(&cache, &query, 1000).is_none());
}

#[test]
fn test_servfail_response() {
    let response = servfail_response(42);
    assert_eq!(response.header.id, 42);
    assert_eq!(response.header.get_response_code(), ResponseCode::SERVFAIL);
    assert!(response.questions.is_empty());
}

#[test]
fn test_next_step_answer() {
    let mut reply = DnsPacket::new(Header::new(1, true, true, ResponseCode::NOERROR));
    reply.add_question(Question {
        name: "example.com".to_string(),
        query_type: QueryType::A,
        class: 1,
    });
    reply.add_answer(a_record("example.com", ipv4(93, 184, 216, 34)));
    assert!(matches!(next_lookup_step(&reply), LookupStep::UseAnswer));
}

#[test]
fn test_next_step_glue() {
    let mut reply = DnsPacket::new(Header::new(1, true, true, ResponseCode::NOERROR));
    reply.add_question(Question {
        name: "example.com".to_string(),
        query_type: QueryType::A,
        class: 1,
    });
    reply.add_authority(ns_record("com", "ns.com"));
    reply.add_additional(a_record("ns.com", ipv4(10, 0, 0, 9)));
    match next_lookup_step(&reply) {
        LookupStep::FollowGlue(ips) => assert_eq!(ips, vec![ipv4(10, 0, 0, 9)]),
        _ => panic!("expected a referral with glue"),
    }
}

#[test]
fn test_next_step_nameservers() {
    let mut reply = DnsPacket::new(Header::new(1, true, true, ResponseCode::NOERROR));
    reply.add_question(Question {
        name: "example.com".to_string(),
        query_type: QueryType::A,
        class: 1,
    });
    reply.add_authority(ns_record("com", "ns.com"));
    reply.add_authority(ns_record("org", "ns.org"));
    match next_lookup_step(&reply) {
        LookupStep::QueryNameservers(hosts) => {
            // only the zone that covers the queried name counts
            assert_eq!(hosts, vec!["ns.com".to_string()]);
        },
        _ => panic!("expected a referral without glue"),
    }
}

#[test]
fn test_next_step_malformed() {
    let mut reply = DnsPacket::new(Header::new(1, true, true, ResponseCode::NOERROR));
    reply.add_question(Question {
        name: "example.com".to_string(),
        query_type: QueryType::A,
        class: 1,
    });
    assert!(matches!(next_lookup_step(&reply), LookupStep::Malformed));
}

#[test]
fn test_packet_referral_helpers() {
    let mut reply = DnsPacket::new(Header::new(1, true, true, ResponseCode::NOERROR));
    reply.add_authority(ns_record("com", "ns.com"));
    reply.add_authority(ns_record("net", "ns.net"));
    reply.add_additional(a_record("ns.com", ipv4(10, 0, 0, 9)));
    reply.add_additional(a_record("ns.net", ipv4(10, 0, 0, 8)));

    let unresolved = reply.get_unresolved_ns("example.com");
    assert_eq!(unresolved, vec![("ns.com".to_string(), "com".to_string())]);

    let resolved = reply.get_resolved_ns("example.com");
    assert_eq!(resolved, vec![ipv4(10, 0, 0, 9)]);

    let pairs = reply.get_ipv4_iterator_additional();
    assert_eq!(
        pairs,
        vec![(ipv4(10, 0, 0, 9), "ns.com".to_string()), (ipv4(10, 0, 0, 8), "ns.net".to_string())]
    );
}

#[test]
fn test_answer_ipv4s() {
    let mut reply = DnsPacket::new(Header::new(1, true, true, ResponseCode::NOERROR));
    reply.add_answer(a_record("h.example", ipv4(1, 2, 3, 4)));
    reply.add_answer(ns_record("example", "h.example"));
    reply.add_answer(a_record("h.example", ipv4(5, 6, 7, 8)));
    assert_eq!(reply.get_ipv4_iterator_answers(), vec![ipv4(1, 2, 3, 4), ipv4(5, 6, 7, 8)]);
}

#[test]
fn test_get_all_answers_filters_by_suffix() {
    let mut reply = DnsPacket::new(Header::new(1, true, true, ResponseCode::NOERROR));
    reply.add_answer(a_record("example.com", ipv4(1, 2, 3, 4)));
    reply.add_authority(ns_record("com", "ns.com"));
    reply.add_additional(a_record("other.org", ipv4(9, 9, 9, 9)));
    let matching = reply.get_all_answers("example.com");
    assert_eq!(matching.len(), 2);
    assert_eq!(matching[0].name, "example.com");
    assert_eq!(matching[1].name, "com");
}

#[test]
fn test_cached_start_ips_uses_delegation() {
    let mut cache = DnsCache::new();
    cache.insert_at(vec![ns_record("example.com", "ns.example.com")], 1000);
    cache.insert_at(vec![a_record("ns.example.com", ipv4(10, 1, 1, 1))], 1000);

    let ips = cached_start_ips_at(&cache, "www.example.com", 1000).unwrap();
    assert_eq!(ips, vec![ipv4(10, 1, 1, 1)]);
}

#[test]
fn test_cached_start_ips_prefers_specific_suffix() {
    let mut cache = DnsCache::new();
    // delegations on two suffixes: the more specific one wins
    cache.insert_at(vec![ns_record("com", "ns.com")], 1000);
    cache.insert_at(vec![a_record("ns.com", ipv4(10, 2, 2, 2))], 1000);
    cache.insert_at(vec![ns_record("example.com", "ns.example.com")], 1000);
    cache.insert_at(
        vec![
            a_record("ns.example.com", ipv4(10, 1, 1, 1)),
            a_record("ns.example.com", ipv4(10, 1, 1, 2)),
        ],
        1000,
    );

    // the chosen host's full cached address list comes back
    let mut ips = cached_start_ips_at(&cache, "www.example.com", 1000).unwrap();
    ips.sort();
    assert_eq!(ips, vec![ipv4(10, 1, 1, 1), ipv4(10, 1, 1, 2)]);
}

#[test]
fn test_cached_start_ips_skips_unresolvable_suffix() {
    let mut cache = DnsCache::new();
    // the specific delegation has no addresses; the broader one does
    cache.insert_at(vec![ns_record("example.com", "ns.example.com")], 1000);
    cache.insert_at(vec![ns_record("com", "ns.com")], 1000);
    cache.insert_at(vec![a_record("ns.com", ipv4(10, 2, 2, 2))], 1000);

    let ips = cached_start_ips_at(&cache, "www.example.com", 1000).unwrap();
    assert_eq!(ips, vec![ipv4(10, 2, 2, 2)]);
}

#[test]
fn test_cached_start_ips_without_delegation() {
    let mut cache = DnsCache::new();
    // a delegation whose nameserver has no cached address does not help
    cache.insert_at(vec![ns_record("example.com", "ns.example.com")], 1000);
    assert!(cached_start_ips_at(&cache, "www.example.com", 1000).is_none());
}

#[test]
fn test_text_helpers() {
    assert!(str_eq("example.com", "example.com"));
    assert!(!str_eq("example.com", "example.org"));
    assert!(str_ends_with("www.example.com", "example.com"));
    assert!(!str_ends_with("com", "example.com"));
    assert_eq!(
        split_name("www.example.com"),
        vec!["www".to_string(), "example".to_string(), "com".to_string()]
    );
    assert_eq!(split_name(""), vec!["".to_string()]);
}
