use dns_resolver::dns_cache::DnsCache;
use dns_resolver::dns_packet::{
    Answer, DnsPacket, Header, Question, QueryType, Record, ResponseCode,
};
use dns_resolver::resolver::ipv4;

fn a_record(name: &str, ttl: u32, ip: u32) -> Answer {
    Answer {
        name: name.to_string(),
        query_type: QueryType::A,
        class: 1,
        ttl,
        len: 4,
        record: Record::A(ip),
    }
}

#[test]
fn test_dns_cache() {
    let mut dns_cache = DnsCache::new();
    let question = Question {
        name: "example.com".to_string(),
        query_type: QueryType::A,
        class: 1,
    };

    let answer = a_record("example.com", 1, ipv4(127, 0, 0, 1));

    let mut packet = DnsPacket::new(Header::new(42, true, true, ResponseCode::NOERROR));
    packet.add_question(question);
    packet.add_answer(answer.clone());

    dns_cache.insert_all(&packet);
    let cache_result = dns_cache.get("example.com", &QueryType::A);

    assert_eq!(cache_result.unwrap(), vec![answer]);
}

#[test]
fn test_dns_cache_entry_expiration() {
    let mut dns_cache = DnsCache::new();
    let answer = a_record("example.com", 1, ipv4(127, 0, 0, 1));

    // insert at a fixed second; two seconds later the entry is stale
    dns_cache.insert_at(vec![answer], 1000);
    let cache_result = dns_cache.get_at("example.com", &QueryType::A, 1002);
    assert_eq!(cache_result, None);
}

#[test]
fn test_dns_cache_ttl_window() {
    let mut dns_cache = DnsCache::new();
    let answer = a_record("example.com", 300, ipv4(127, 0, 0, 1));

    dns_cache.insert_at(vec![answer.clone()], 1000);
    // served right up to the last second of its TTL
    let served = dns_cache.get_at("example.com", &QueryType::A, 1300);
    assert_eq!(served.unwrap(), vec![answer]);
    // and not after
    let stale = dns_cache.get_at("example.com", &QueryType::A, 1301);
    assert_eq!(stale, None);
}

#[test]
fn test_dns_cache_multiple_record_types() {
    let mut dns_cache = DnsCache::new();
    let question_a = Question {
        name: "example.com".to_string(),
        query_type: QueryType::A,
        class: 1,
    };

    let question_aaaa = Question {
        name: "example.com".to_string(),
        query_type: QueryType::AAAA,
        class: 1,
    };

    let answer_a = a_record("example.com", 300, ipv4(127, 0, 0, 1));

    let answer_aaaa = Answer {
        name: "example.com".to_string(),
        query_type: QueryType::AAAA,
        class: 1,
        ttl: 300,
        len: 16,
        record: Record::AAAA(0x20010db8000000000000000000000001),
    };

    let mut packet_a = DnsPacket::new(Header::new(42, true, true, ResponseCode::NOERROR));
    packet_a.add_question(question_a);
    packet_a.add_answer(answer_a.clone());

    let mut packet_aaaa = DnsPacket::new(Header::new(43, true, true, ResponseCode::NOERROR));
    packet_aaaa.add_question(question_aaaa);
    packet_aaaa.add_answer(answer_aaaa.clone());

    dns_cache.insert_all(&packet_a);
    dns_cache.insert_all(&packet_aaaa);
    let cache_result_a = dns_cache.get("example.com", &QueryType::A);
    assert_eq!(cache_result_a.unwrap(), vec![answer_a]);

    let cache_result_aaaa = dns_cache.get("example.com", &QueryType::AAAA);
    assert_eq!(cache_result_aaaa.unwrap(), vec![answer_aaaa]);
}

#[test]
fn test_dns_cache_insert_same() {
    let mut dns_cache = DnsCache::new();
    let question_a = Question {
        name: "example.com".to_string(),
        query_type: QueryType::A,
        class: 1,
    };

    let answer_a = a_record("example.com", 300, ipv4(127, 0, 0, 1));

    let mut packet_a = DnsPacket::new(Header::new(42, true, true, ResponseCode::NOERROR));
    packet_a.add_question(question_a);
    packet_a.add_answer(answer_a.clone());

    let packet_b = packet_a.clone();
    dns_cache.insert_all(&packet_a);
    dns_cache.insert_all(&packet_b);
    let cache_result = dns_cache.get("example.com", &QueryType::A);

    assert_eq!(cache_result.clone().unwrap().len(), 1);
}

#[test]
fn test_dns_cache_insert_twice_keeps_first_stamp() {
    let mut dns_cache = DnsCache::new();
    let answer = a_record("example.com", 10, ipv4(127, 0, 0, 1));

    dns_cache.insert_at(vec![answer.clone()], 1000);
    // re-inserting later does not refresh the expiration
    dns_cache.insert_at(vec![answer.clone()], 2000);
    assert_eq!(dns_cache.get_at("example.com", &QueryType::A, 1010).unwrap().len(), 1);
    assert_eq!(dns_cache.get_at("example.com", &QueryType::A, 1011), None);
}

#[test]
fn test_dns_cache_update_requires_entry() {
    let mut dns_cache = DnsCache::new();
    let answer = a_record("example.com", 300, ipv4(127, 0, 0, 1));

    // no entry for the name yet: update does nothing
    assert_eq!(dns_cache.update_at(&vec![answer.clone()], 1000), None);
    assert_eq!(dns_cache.get_at("example.com", &QueryType::A, 1000), None);

    dns_cache.insert_at(vec![answer.clone()], 1000);
    let second = a_record("example.com", 300, ipv4(10, 0, 0, 1));
    assert_eq!(dns_cache.update_at(&vec![second], 1000), Some(()));
    assert_eq!(dns_cache.get_at("example.com", &QueryType::A, 1000).unwrap().len(), 2);
}

#[test]
fn test_dns_cache_groups_by_name() {
    let mut dns_cache = DnsCache::new();
    let one = a_record("one.example.com", 300, ipv4(10, 0, 0, 1));
    let two = a_record("two.example.com", 300, ipv4(10, 0, 0, 2));

    dns_cache.insert_at(vec![one.clone(), two.clone()], 1000);
    assert_eq!(dns_cache.get_at("one.example.com", &QueryType::A, 1000).unwrap(), vec![one]);
    assert_eq!(dns_cache.get_at("two.example.com", &QueryType::A, 1000).unwrap(), vec![two]);
}
