//! Forwarding queries.

use dnsmasq_dns::addr::{IpAddr, Ipv4Addr, Ipv6Addr, SocketAddr};
use dnsmasq_dns::answer::answer_from;
use dnsmasq_dns::cache::Cache;
use dnsmasq_dns::cache_types::{
    CacheFlags, CacheRecord, CacheRecordData, DnsKeyData, DsData, SrvData, F_FORWARD, F_NEG,
    F_NXDOMAIN, NANOS_PER_SEC,
};
use dnsmasq_dns::edns0::{find_pseudoheader, DaemonOptions};
use dnsmasq_dns::forwarder::{
    check_reply, clear_cache_and_reload, frame_tcp, framed_len, generate_transaction_id,
    mark_resent, retry_send, retry_timeout, ForwardAction, ForwardError, ForwardEvent,
    ForwardFlags, ForwardRecord, Forwarder, QueryRun, MAX_FORWARD_RECORDS,
};
use dnsmasq_dns::hash::{hash_questions, SHA256_DIGEST_SIZE};
use dnsmasq_dns::reply::store_reply;
use std::collections::hash_map::DefaultHasher;
use std::hash::{Hash, Hasher};

fn addr(last: u8, port: u16) -> SocketAddr {
    SocketAddr::new(IpAddr::V4(Ipv4Addr::new(127, 0, 0, last)), port)
}

fn query(name: &[u8]) -> Vec<u8> {
    let mut packet = vec![0xAB, 0xCD, 0x01, 0x00, 0, 1, 0, 0, 0, 0, 0, 0];
    packet.extend_from_slice(name);
    packet.extend_from_slice(&[0, 1, 0, 1]);
    packet
}

/// Sends a query that was just begun, with the number 0x1234.
fn send(forwarder: &mut Forwarder, run: &mut QueryRun) -> ForwardAction {
    step(forwarder, run, picked(None, None))
}

/// A server was picked for a client with a hardware address.
fn picked(mac: Option<Vec<u8>>, device_mac: Option<Vec<u8>>) -> ForwardEvent {
    ForwardEvent::Server { server: addr(9, 53), new_query_id: 0x1234, now: 7, mac, device_mac }
}

/// Goes on with a query, with an empty cache.
fn step(forwarder: &mut Forwarder, run: &mut QueryRun, event: ForwardEvent) -> ForwardAction {
    forwarder.forward_event(&mut Cache::new(), run, event)
}

#[test]
fn test_forward_record_creation() {
    let source_addr = addr(1, 53);
    let dest_addr = SocketAddr::new(IpAddr::V4(Ipv4Addr::new(192, 168, 1, 1)), 53);

    let frec = ForwardRecord {
        new_query_id: 12345,
        orig_query_id: 54321,
        source_addr,
        dest_addr,
        upstream_server: None,
        sent_time: 0,
        query_hash: [0u8; SHA256_DIGEST_SIZE],
        flags: ForwardFlags::from_bits(ForwardFlags::NEW_QUERY),
        retry_count: 0,
        tcp: false,
    };

    assert_eq!(frec.new_query_id, 12345);
    assert_eq!(frec.orig_query_id, 54321);
    assert!(!frec.is_dnssec());
    assert!(!frec.is_tcp());
}

#[test]
fn test_forward_flags() {
    let mut flags = ForwardFlags::from_bits(ForwardFlags::NEW_QUERY);
    assert!(flags.contains(ForwardFlags::NEW_QUERY));
    assert!(!flags.contains(ForwardFlags::DNSSEC_QUERY));

    flags.insert(ForwardFlags::DNSSEC_QUERY);
    assert!(flags.contains(ForwardFlags::DNSSEC_QUERY));
    assert!(flags.contains(ForwardFlags::NEW_QUERY));

    flags.remove(ForwardFlags::NEW_QUERY);
    assert!(!flags.contains(ForwardFlags::NEW_QUERY));
    assert!(flags.contains(ForwardFlags::DNSSEC_QUERY));
}

#[test]
fn test_transaction_id_generation() {
    let source_addr1 = addr(1, 12345);
    let source_addr2 = addr(1, 12346);

    let query_id = 1234u16;

    let mut hasher1 = DefaultHasher::new();
    query_id.hash(&mut hasher1);
    source_addr1.hash(&mut hasher1);
    let tid1 = hasher1.finish();

    let mut hasher2 = DefaultHasher::new();
    query_id.hash(&mut hasher2);
    source_addr2.hash(&mut hasher2);
    let tid2 = hasher2.finish();

    assert_ne!(tid1, tid2);
    assert_ne!(
        generate_transaction_id(query_id, &source_addr1),
        generate_transaction_id(query_id, &source_addr2)
    );
}

#[test]
fn transaction_id_depends_on_number_and_client() {
    let id = generate_transaction_id(1, &addr(1, 53));
    assert_eq!(id, generate_transaction_id(1, &addr(1, 53)));
    assert_ne!(id, generate_transaction_id(2, &addr(1, 53)));
    assert_ne!(id, generate_transaction_id(1, &addr(2, 53)));
    let v6 = SocketAddr::new(IpAddr::V6(Ipv6Addr::new(0, 0, 0, 0, 0, 0, 0, 1)), 53);
    assert_ne!(id, generate_transaction_id(1, &v6));
    let scoped = SocketAddr { scope_id: 2, ..v6 };
    assert_ne!(generate_transaction_id(1, &scoped), generate_transaction_id(1, &v6));
    assert_eq!((v6.to_string(), scoped.to_string()), ("[::1]:53".into(), "[::1%2]:53".into()));
}

#[test]
fn query_is_answered() {
    let mut forwarder = Forwarder::new(0);
    let packet = query(b"\x01a\x04test\x00");
    let (run, action) = forwarder.forward_query(&packet, addr(1, 4000), addr(2, 53));
    let mut run = run.unwrap();
    assert_eq!(action, ForwardAction::SelectServer);
    assert_eq!(run.query_name(), "a.test");

    let mut sent = packet.clone();
    sent[0] = 0x12;
    sent[1] = 0x34;
    assert_eq!(
        send(&mut forwarder, &mut run),
        ForwardAction::Transmit { packet: sent.clone(), server: addr(9, 53) }
    );
    assert_eq!(forwarder.get_pending_queries(), 1);
    let id = generate_transaction_id(0x1234, &addr(1, 4000));
    assert_eq!(
        step(&mut forwarder, &mut run, ForwardEvent::Sent),
        ForwardAction::Await { transaction_id: id, timeout_ms: 100 }
    );

    let mut reply = sent;
    reply[2] = 0x81;
    reply[12 + 1] = b'A';
    assert_eq!(forwarder.route_response(&reply), Some(id));
    assert_eq!(forwarder.route_response(&reply[..5]), None);
    let mut answer = reply.clone();
    answer[0] = 0xAB;
    answer[1] = 0xCD;
    assert_eq!(
        step(&mut forwarder, &mut run, ForwardEvent::Reply { packet: reply, now: 8 }),
        ForwardAction::Finish { result: Ok(answer), broadcast: true }
    );
    assert_eq!(forwarder.get_pending_queries(), 0);
    let stats = forwarder.get_stats();
    assert_eq!(stats.get("successful_forwards"), Some(&1));
    assert_eq!(stats.get("total_queries"), Some(&1));
    assert_eq!(stats.get("upstream_queries"), Some(&1));
    assert_eq!(stats.get("failed_forwards"), Some(&0));
}

#[test]
fn reply_with_another_question_fails_the_query() {
    let mut forwarder = Forwarder::new(0);
    let packet = query(b"\x01a\x04test\x00");
    let (run, _) = forwarder.forward_query(&packet, addr(1, 4000), addr(2, 53));
    let mut run = run.unwrap();
    send(&mut forwarder, &mut run);
    step(&mut forwarder, &mut run, ForwardEvent::Sent);
    let other = query(b"\x01b\x04test\x00");
    assert_eq!(
        step(&mut forwarder, &mut run, ForwardEvent::Reply { packet: other, now: 8 }),
        ForwardAction::Finish { result: Err(ForwardError::InvalidResponse), broadcast: true }
    );
    assert_eq!(forwarder.get_pending_queries(), 0);
    assert_eq!(forwarder.get_stats().get("failed_forwards"), Some(&1));
}

#[test]
fn query_is_sent_four_times_at_most() {
    let mut forwarder = Forwarder::new(0);
    let packet = query(b"\x01a\x04test\x00");
    let (run, _) = forwarder.forward_query(&packet, addr(1, 4000), addr(2, 53));
    let mut run = run.unwrap();
    let mut waits = Vec::new();
    loop {
        send(&mut forwarder, &mut run);
        match step(&mut forwarder, &mut run, ForwardEvent::Sent) {
            ForwardAction::Await { timeout_ms, .. } => waits.push(timeout_ms),
            _ => panic!("Expected a wait"),
        }
        match step(&mut forwarder, &mut run, ForwardEvent::TimedOut) {
            ForwardAction::SelectServer => {}
            action => {
                assert_eq!(
                    action,
                    ForwardAction::Finish { result: Err(ForwardError::Timeout), broadcast: true }
                );
                break;
            }
        }
    }
    assert_eq!(waits, vec![100, 200, 400, 800]);
    let stats = forwarder.get_stats();
    assert_eq!(stats.get("retries"), Some(&3));
    assert_eq!(stats.get("timeouts"), Some(&4));
    assert_eq!(stats.get("pending_queries"), Some(&0));
}

#[test]
fn same_question_waits_for_the_first() {
    let mut forwarder = Forwarder::new(0);
    let first = query(b"\x01a\x04test\x00");
    let second = query(b"\x01A\x04TEST\x00");
    let (run, _) = forwarder.forward_query(&first, addr(1, 4000), addr(2, 53));
    let (other, action) = forwarder.forward_query(&second, addr(3, 4000), addr(2, 53));
    assert_eq!(action, ForwardAction::Join);
    let mut other = other.unwrap();
    assert_eq!(other.query_key(), run.unwrap().query_key());
    let result = Ok(vec![1, 2, 3]);
    assert_eq!(
        step(&mut forwarder, &mut other, ForwardEvent::Joined { result }),
        ForwardAction::Finish { result: Ok(vec![1, 2, 3]), broadcast: false }
    );
    assert_eq!(
        step(&mut forwarder, &mut other, ForwardEvent::JoinLost),
        ForwardAction::SelectServer
    );
}

#[test]
fn failures_end_the_query() {
    let mut forwarder = Forwarder::new(0);
    let packet = query(b"\x01a\x04test\x00");
    let (run, _) = forwarder.forward_query(&packet, addr(1, 4000), addr(2, 53));
    let mut run = run.unwrap();
    assert_eq!(
        step(&mut forwarder, &mut run, ForwardEvent::NoServer),
        ForwardAction::Finish { result: Err(ForwardError::ServerUnavailable), broadcast: true }
    );
    let (again, action) = forwarder.forward_query(&packet, addr(1, 4000), addr(2, 53));
    let mut again = again.unwrap();
    assert_eq!(action, ForwardAction::SelectServer);
    send(&mut forwarder, &mut again);
    assert_eq!(forwarder.get_pending_queries(), 1);
    assert_eq!(
        step(&mut forwarder, &mut again, ForwardEvent::NotSent { error: "down".to_string() }),
        ForwardAction::Finish {
            result: Err(ForwardError::NetworkError("down".to_string())),
            broadcast: true
        }
    );
    assert_eq!(forwarder.get_pending_queries(), 0);
    assert_eq!(
        forwarder.forward_query(&packet, addr(1, 4000), addr(2, 53)).1,
        ForwardAction::SelectServer
    );
    assert_eq!(
        step(&mut forwarder, &mut again, ForwardEvent::ReplyLost),
        ForwardAction::SelectServer
    );
}

#[test]
fn cached_answer_is_given() {
    let mut forwarder = Forwarder::new(150);
    let mut cache = Cache::new();
    let record = CacheRecord::new(
        "A.test".to_string(),
        CacheRecordData::Address(IpAddr::V4(Ipv4Addr::new(192, 0, 2, 7))),
        300 * NANOS_PER_SEC,
        0,
        CacheFlags::from_bits(F_FORWARD),
        0,
    );
    cache.insert(record, 0).unwrap();
    let packet = query(b"\x01a\x04test\x00");
    let (run, action) =
        forwarder.receive_query(&mut cache, &packet, addr(1, 1), addr(2, 53), 10 * NANOS_PER_SEC);
    let mut answer = packet.clone();
    answer[2..8].copy_from_slice(&[0x81, 0x80, 0, 1, 0, 1]);
    answer.extend_from_slice(&[0xC0, 0x0C, 0, 1, 0, 1, 0, 0, 1, 34, 0, 4, 192, 0, 2, 7]);
    assert!(run.is_none());
    assert_eq!(action, ForwardAction::Finish { result: Ok(answer), broadcast: false });
    let stats = forwarder.get_stats();
    assert_eq!(stats.get("cache_hits"), Some(&1));
    assert_eq!(stats.get("total_queries"), Some(&0));
    assert_eq!(stats.get("pending_queries"), Some(&0));
    let late = 300 * NANOS_PER_SEC;
    let (run, action) =
        forwarder.receive_query(&mut cache, &packet, addr(1, 1), addr(2, 53), late);
    assert!(run.is_some());
    assert_eq!(action, ForwardAction::SelectServer);
}

#[test]
fn answers_are_made_of_records() {
    let packet = query(b"\x01a\x04test\x00");
    let answer = |data: CacheRecordData, flags: u32| {
        let record = CacheRecord::new(
            "a.test".to_string(),
            data,
            60 * NANOS_PER_SEC,
            0,
            CacheFlags::from_bits(flags),
            0,
        );
        answer_from(&packet, &record, 0).unwrap()
    };
    let end = packet.len() + 12;
    assert_eq!(answer(CacheRecordData::Cname("b.c".to_string()), 0)[end..], *b"\x01b\x01c\x00");
    assert_eq!(
        answer(CacheRecordData::Srv(SrvData::new(b"b", 5, 1, 2)), 0)[end..],
        [0, 1, 0, 2, 0, 5, 1, b'b', 0]
    );
    assert_eq!(
        answer(CacheRecordData::DnsKey(DnsKeyData::new(&[9, 8], 257, 1, 8)), 0)[end..],
        [1, 1, 3, 8, 9, 8]
    );
    assert_eq!(
        answer(CacheRecordData::Ds(DsData::new(&[9, 8], 258, 8, 2)), 0)[end..],
        [1, 2, 8, 2, 9, 8]
    );
    let v6 = IpAddr::V6(Ipv6Addr::new(1, 2, 3, 4, 5, 6, 7, 8));
    assert_eq!(
        answer(CacheRecordData::Address(v6), 0)[end..],
        [0, 1, 0, 2, 0, 3, 0, 4, 0, 5, 0, 6, 0, 7, 0, 8]
    );
    let none = answer(CacheRecordData::NoData, 0);
    assert_eq!((none[3], none[7], none.len()), (0x80, 0, packet.len()));
    let v4 = IpAddr::V4(Ipv4Addr::new(0, 0, 0, 0));
    let no_name = answer(CacheRecordData::Address(v4), F_NEG | F_NXDOMAIN);
    assert_eq!((no_name[3], no_name[7], no_name.len()), (0x83, 0, packet.len()));
    let mut other_class = packet.clone();
    let last = other_class.len() - 1;
    other_class[last] = 3;
    let record =
        CacheRecord::new("a".to_string(), CacheRecordData::NoData, 9, 0, CacheFlags::empty(), 0);
    assert!(answer_from(&other_class, &record, 0).is_none());
    assert!(answer_from(&packet[..14], &record, 0).is_none());
}

#[test]
fn message_that_cannot_be_read_ends_at_once() {
    let mut forwarder = Forwarder::new(0);
    let mut cache = Cache::new();
    let (run, action) = forwarder.forward_query(&[0; 5], addr(1, 1), addr(2, 53));
    assert!(run.is_none());
    assert_eq!(
        action,
        ForwardAction::Finish {
            result: Err(ForwardError::ParseError("Packet too short for DNS header".to_string())),
            broadcast: false
        }
    );
    let (run, action) = forwarder.receive_query(&mut cache, &[0; 5], addr(1, 1), addr(2, 53), 0);
    assert!(run.is_none());
    match action {
        ForwardAction::Finish { result: Err(ForwardError::ParseError(msg)), .. } => {
            assert_eq!(msg, "Failed to parse query: InvalidLength { expected: 12, actual: 5 }");
        }
        _ => panic!("Expected a parse error"),
    }
}

#[test]
fn cache_is_asked_first() {
    let mut forwarder = Forwarder::new(150);
    let mut cache = Cache::new();
    let packet = query(b"\x01a\x04test\x00");
    let (run, action) =
        forwarder.receive_query(&mut cache, &packet, addr(1, 4000), addr(2, 53), 0);
    assert!(run.is_some());
    assert_eq!(action, ForwardAction::SelectServer);
    assert_eq!(forwarder.get_stats().get("cache_misses"), Some(&1));
    assert_eq!(cache.get_stats().misses, 1);
    assert!(forwarder.can_count());
    clear_cache_and_reload(&mut cache);
    assert_eq!(cache.get_stats().misses, 0);
}

#[test]
fn records_are_found_and_freed() {
    let mut forwarder = Forwarder::new(0);
    let id = forwarder.new_frec_with_id(77, addr(1, 4000), addr(2, 53), 5).unwrap();
    assert_eq!(id, generate_transaction_id(77, &addr(1, 4000)));
    assert!(forwarder.lookup_frec(77, &[0; 32]).is_some());
    assert!(forwarder.lookup_frec(78, &[0; 32]).is_none());
    assert!(forwarder.lookup_frec(77, &[1; 32]).is_none());
    let frec = forwarder.lookup_frec_by_sender(addr(1, 4000)).unwrap();
    assert_eq!(frec.new_query_id, 77);
    assert!(!frec.is_expired(10, 15));
    assert!(frec.is_expired(9, 15));
    forwarder.free_frec(id);
    assert!(forwarder.lookup_frec_by_sender(addr(1, 4000)).is_none());
}

#[test]
fn pool_has_a_limit() {
    let mut forwarder = Forwarder::new(0);
    for n in 0..MAX_FORWARD_RECORDS {
        forwarder.new_frec_with_id(n as u16, addr(1, 4000), addr(2, 53), 0).unwrap();
    }
    assert_eq!(forwarder.get_pending_queries(), MAX_FORWARD_RECORDS);
    assert_eq!(
        forwarder.get_new_frec(addr(1, 4000), addr(2, 53), 0),
        Err(ForwardError::PoolExhausted)
    );
    let packet = query(b"\x01a\x04test\x00");
    let (run, _) = forwarder.forward_query(&packet, addr(1, 4000), addr(2, 53));
    assert_eq!(
        send(&mut forwarder, &mut run.unwrap()),
        ForwardAction::Finish { result: Err(ForwardError::PoolExhausted), broadcast: true }
    );
}

#[test]
fn random_numbers_differ() {
    let forwarder = Forwarder::new(0);
    let first: Vec<u16> = (0..32).map(|_| forwarder.get_id()).collect();
    let second: Vec<u16> = (0..32).map(|_| Forwarder::generate_random_id()).collect();
    assert_ne!(first, second);
}

#[test]
fn reply_gets_the_clients_number() {
    let packet = query(b"\x01a\x04test\x00");
    let mut forwarder = Forwarder::new(0);
    let id = forwarder.new_frec_with_id(77, addr(1, 4000), addr(2, 53), 5).unwrap();
    let mut frec = forwarder.lookup_frec_by_sender(addr(1, 4000)).unwrap();
    frec.query_hash = hash_questions(&packet).unwrap();
    frec.orig_query_id = 0x0102;
    let answer = check_reply(&packet, &frec).unwrap();
    assert_eq!(answer[..2], [1, 2]);
    assert_eq!(answer[2..], packet[2..]);
    assert!(forwarder.reply_query(&mut Cache::new(), &packet, &frec, 0).is_ok());
    assert_eq!(forwarder.get_pending_queries(), 0);
    forwarder.free_frec(id);
    assert_eq!(
        check_reply(&[0; 5], &frec),
        Err(ForwardError::ParseError("Failed to hash query".to_string()))
    );
}

#[test]
fn waits_grow_up_to_a_limit() {
    assert_eq!(retry_timeout(0), 100);
    assert_eq!(retry_timeout(5), 3200);
    assert_eq!(retry_timeout(6), 5000);
    assert_eq!(retry_timeout(1000), 5000);
}

#[test]
fn record_is_sent_again_three_times() {
    let mut forwarder = Forwarder::new(0);
    forwarder.new_frec_with_id(77, addr(1, 4000), addr(2, 53), 5).unwrap();
    let mut frec = forwarder.lookup_frec_by_sender(addr(1, 4000)).unwrap();
    for wait in [100, 200, 400] {
        assert_eq!(retry_send(&frec), Ok(wait));
        mark_resent(&mut frec, 50);
    }
    assert_eq!(frec.sent_time, 50);
    assert_eq!(retry_send(&frec), Err(ForwardError::Timeout));
}

#[test]
fn messages_are_framed_for_tcp() {
    assert_eq!(frame_tcp(&[7; 300]).unwrap()[..3], [1, 44, 7]);
    assert_eq!(framed_len([1, 44]), 300);
    assert_eq!(frame_tcp(&vec![0; 65536]), Err(ForwardError::PacketTooLarge));
}

#[test]
fn forward_errors_have_texts() {
    assert_eq!(ForwardError::PoolExhausted.to_string(), "Forward record pool exhausted");
    assert_eq!(ForwardError::Timeout.to_string(), "Query timed out");
    assert_eq!(ForwardError::ServerUnavailable.to_string(), "No upstream servers available");
    assert_eq!(ForwardError::PacketTooLarge.to_string(), "Packet too large");
    assert_eq!(ForwardError::InvalidResponse.to_string(), "Invalid response from upstream");
    assert_eq!(ForwardError::NetworkError("x".to_string()).to_string(), "Network error: x");
    assert_eq!(ForwardError::CacheError("x".to_string()).to_string(), "Cache error: x");
    assert_eq!(ForwardError::ParseError("x".to_string()).to_string(), "Parse error: x");
    assert_eq!(
        ForwardError::SerializationError("x".to_string()).to_string(),
        "Serialization error: x"
    );
}

/// A reply with an alias and two addresses.
fn reply_with_answers(number: u16) -> Vec<u8> {
    let mut reply = query(b"\x01a\x04test\x00");
    reply[..2].copy_from_slice(&number.to_be_bytes());
    reply[2] = 0x81;
    reply[7] = 4;
    reply.extend_from_slice(b"\xC0\x0C\x00\x05\x00\x01\x00\x00\x00\x3C\x00\x04\x01b\xC0\x0E");
    reply.extend_from_slice(b"\x01b\xC0\x0E\x00\x01\x00\x01\x00\x00\x00\x3C\x00\x04\xC0\x00\x02\x01");
    reply.extend_from_slice(b"\x01B\xC0\x0E\x00\x01\x00\x01\x00\x00\x00\x3C\x00\x04\xC0\x00\x02\x02");
    reply.extend_from_slice(b"\xC0\x0C\x00\x10\x00\x01\x00\x00\x00\x3C\x00\x02\x01x");
    reply
}

#[test]
fn answers_of_a_reply_are_kept() {
    let mut forwarder = Forwarder::new(150);
    let mut cache = Cache::new();
    let old = CacheRecord::new(
        "b.test".to_string(),
        CacheRecordData::Address(IpAddr::V4(Ipv4Addr::new(192, 0, 2, 9))),
        100 * NANOS_PER_SEC,
        0,
        CacheFlags::from_bits(F_FORWARD),
        0,
    );
    cache.insert(old, 0).unwrap();
    let packet = query(b"\x01a\x04test\x00");
    let (run, _) = forwarder.receive_query(&mut cache, &packet, addr(1, 4000), addr(2, 53), 0);
    let mut run = run.unwrap();
    forwarder.forward_event(&mut cache, &mut run, picked(None, None));
    forwarder.forward_event(&mut cache, &mut run, ForwardEvent::Sent);
    let event = ForwardEvent::Reply { packet: reply_with_answers(0x1234), now: NANOS_PER_SEC };
    match forwarder.forward_event(&mut cache, &mut run, event) {
        ForwardAction::Finish { result: Ok(answer), .. } => {
            assert_eq!(answer, reply_with_answers(0xABCD));
        }
        _ => panic!("Expected an answer"),
    }
    let found = cache.find_by_name("b.test", 2 * NANOS_PER_SEC);
    let addresses: Vec<u8> = found
        .iter()
        .map(|r| match r.data {
            CacheRecordData::Address(IpAddr::V4(a)) => a.octets()[3],
            _ => panic!("Expected an address"),
        })
        .collect();
    assert_eq!(addresses.len(), 2);
    assert!(addresses.contains(&1) && addresses.contains(&2));
    assert!(cache.find_by_name("b.test", 61 * NANOS_PER_SEC).is_empty());
    match &cache.find_by_name("a.test", NANOS_PER_SEC)[0].data {
        CacheRecordData::Cname(target) => assert_eq!(target, "b.test"),
        _ => panic!("Expected an alias"),
    }

    let (again, action) =
        forwarder.receive_query(&mut cache, &packet, addr(1, 4000), addr(2, 53), NANOS_PER_SEC);
    assert!(again.is_none());
    assert!(matches!(action, ForwardAction::Finish { result: Ok(_), broadcast: false }));
}

#[test]
fn nothing_is_kept_of_a_reply_that_was_cut_short() {
    let mut cache = Cache::new();
    let mut reply = reply_with_answers(1);
    reply[2] |= 2;
    store_reply(&mut cache, &reply, 0);
    store_reply(&mut cache, &reply[..20], 0);
    assert_eq!(cache.get_stats().insertions, 0);
    reply[2] &= !2;
    store_reply(&mut cache, &reply, 0);
    assert_eq!(cache.get_stats().insertions, 3);
}

#[test]
fn other_answers_are_kept_too() {
    let mut cache = Cache::new();
    let mut reply = vec![0, 1, 0x81, 0x80, 0, 0, 0, 4, 0, 0, 0, 0];
    reply.extend_from_slice(b"\x01s\x00\x00\x21\x00\x01\x00\x00\x00\x3C\x00\x0B");
    reply.extend_from_slice(b"\x00\x01\x00\x02\x00\x35\x03ns1\x00");
    reply.extend_from_slice(b"\x01k\x00\x00\x30\x00\x01\x00\x00\x00\x3C\x00\x06\x01\x00\x03\x0F\x07\x08");
    reply.extend_from_slice(b"\x01d\x00\x00\x2B\x00\x01\x00\x00\x00\x3C\x00\x06\x00\x09\x0F\x02\x05\x06");
    reply.extend_from_slice(b"\x01v\x00\x00\x1C\x00\x01\x00\x00\x00\x3C\x00\x10");
    reply.extend_from_slice(&[0x20, 0x01, 0x0D, 0xB8, 0, 0, 0, 0, 0, 0, 0, 0, 0, 0, 0, 1]);
    store_reply(&mut cache, &reply, 0);
    match &cache.find_by_name("s", 0)[0].data {
        CacheRecordData::Srv(srv) => {
            assert_eq!((srv.priority(), srv.weight(), srv.port()), (1, 2, 53));
            assert_eq!(srv.target(), b"ns1");
        }
        _ => panic!("Expected a service"),
    }
    match &cache.find_by_name("k", 0)[0].data {
        CacheRecordData::DnsKey(key) => {
            assert_eq!((key.flags(), key.algorithm(), key.keydata()), (256, 15, vec![7, 8]));
            assert_eq!(key.keytag(), 0x0100 + 0x030F + 0x0708);
        }
        _ => panic!("Expected a key"),
    }
    match &cache.find_by_name("d", 0)[0].data {
        CacheRecordData::Ds(ds) => {
            assert_eq!((ds.keytag(), ds.algorithm(), ds.digest_type()), (9, 15, 2));
            assert_eq!(ds.keydata(), vec![5, 6]);
        }
        _ => panic!("Expected a digest"),
    }
    match &cache.find_by_name("v", 0)[0].data {
        CacheRecordData::Address(IpAddr::V6(a)) => assert_eq!(a.octets()[15], 1),
        _ => panic!("Expected an address"),
    }
}

#[test]
fn configured_options_are_sent() {
    let mut forwarder = Forwarder::new(0);
    let packet = query(b"\x01a\x04test\x00");
    let mut options = DaemonOptions { add_mac: true, client_subnet: true };
    forwarder.set_options(options, 1232);
    let mac = Some(vec![1, 2, 3, 4, 5, 6]);
    let (run, _) = forwarder.forward_query(&packet, addr(1, 4000), addr(2, 53));
    let mut sent = packet.clone();
    sent[0] = 0x12;
    sent[1] = 0x34;
    match step(&mut forwarder, &mut run.unwrap(), picked(mac.clone(), None)) {
        ForwardAction::Transmit { packet: message, .. } => {
            let (place, size, _, _) = find_pseudoheader(&message, false).unwrap().unwrap();
            assert_eq!((place, size), (packet.len(), 1232));
            sent[11] = 1;
            assert_eq!(message[..place], sent[..]);
            let rest = &message[place + 11..];
            assert_eq!(rest[..10], [0xFD, 0xE9, 0, 6, 1, 2, 3, 4, 5, 6]);
            assert_eq!(rest[10..12], [0, 8]);
        }
        _ => panic!("Expected a message"),
    }

    options.client_subnet = false;
    forwarder.set_options(options, 40);
    let other = query(b"\x01b\x04test\x00");
    let (run, _) = forwarder.forward_query(&other, addr(1, 4000), addr(2, 53));
    match step(&mut forwarder, &mut run.unwrap(), picked(mac, None)) {
        ForwardAction::Transmit { packet: message, .. } => assert_eq!(message[2..], other[2..]),
        _ => panic!("Expected a message"),
    }
}
