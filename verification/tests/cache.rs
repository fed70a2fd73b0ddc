//! The record cache.

use dnsmasq_dns::addr::{IpAddr, Ipv4Addr, Ipv6Addr};
use dnsmasq_dns::cache::{check_for_local_domain, Cache, CacheConfig, DEFAULT_CACHE_SIZE};
use dnsmasq_dns::cache_types::{
    CacheFlags, CacheRecord, CacheRecordData, CacheRecordId, DnsKeyData, DomainKey, DsData, SrvData,
    F_CNAME, F_CONFIG, F_DHCP, F_FORWARD, F_HOSTS, F_IMMORTAL, F_IPV4, F_NEG, F_NXDOMAIN, F_REVERSE,
    NANOS_PER_SEC, SRC_HOSTS, UID_NONE,
};
use dnsmasq_dns::protocol::{T_A, T_AAAA};

const NOW: u64 = 1_000_000 * NANOS_PER_SEC;

fn address(name: &str, last: u8, ttd: u64, flags: u32) -> CacheRecord {
    CacheRecord::new(
        name.to_string(),
        CacheRecordData::Address(IpAddr::V4(Ipv4Addr::new(192, 0, 2, last))),
        ttd,
        0,
        CacheFlags::from_bits(flags),
        NOW,
    )
}

fn alias(name: &str, target: &str) -> CacheRecord {
    CacheRecord::new(
        name.to_string(),
        CacheRecordData::Cname(target.to_string()),
        NOW + 300 * NANOS_PER_SEC,
        0,
        CacheFlags::from_bits(F_FORWARD | F_CNAME),
        NOW,
    )
}

#[test]
fn test_cache_new() {
    let cache = Cache::new();
    let stats = cache.get_stats();
    assert_eq!(stats.capacity, DEFAULT_CACHE_SIZE);
    assert_eq!(stats.entries, 0);
}

#[test]
fn test_cache_insert_and_lookup() {
    let mut cache = Cache::new();
    let expiry = NOW + 300 * NANOS_PER_SEC;

    let record = CacheRecord::new(
        "example.com".to_string(),
        CacheRecordData::Address(IpAddr::V4(Ipv4Addr::new(93, 184, 216, 34))),
        expiry,
        0,
        CacheFlags::from_bits(F_FORWARD | F_IPV4),
        NOW,
    );

    cache.insert(record, NOW).unwrap();

    let found = cache.lookup("example.com", 1, NOW);
    assert!(found.is_some());

    let found_record = found.unwrap();
    assert_eq!(found_record.name(), "example.com");
}

#[test]
fn test_cache_expiry() {
    let mut cache = Cache::new();
    let expiry = NOW - NANOS_PER_SEC;

    let record = CacheRecord::new(
        "shortlived.com".to_string(),
        CacheRecordData::Address(IpAddr::V4(Ipv4Addr::new(192, 0, 2, 1))),
        expiry,
        0,
        CacheFlags::from_bits(F_FORWARD | F_IPV4),
        NOW,
    );

    cache.insert(record, NOW).unwrap();

    let found = cache.lookup("shortlived.com", 1, NOW);
    assert!(found.is_none());
}

#[test]
fn test_cache_cname_following() {
    let mut cache = Cache::new();
    let expiry = NOW + 300 * NANOS_PER_SEC;

    let cname = CacheRecord::new(
        "alias.example.com".to_string(),
        CacheRecordData::Cname("target.example.com".to_string()),
        expiry,
        0,
        CacheFlags::from_bits(F_FORWARD | F_CNAME),
        NOW,
    );
    cache.insert(cname, NOW).unwrap();

    let a_record = CacheRecord::new(
        "target.example.com".to_string(),
        CacheRecordData::Address(IpAddr::V4(Ipv4Addr::new(93, 184, 216, 34))),
        expiry,
        0,
        CacheFlags::from_bits(F_FORWARD | F_IPV4),
        NOW,
    );
    cache.insert(a_record, NOW).unwrap();

    let found = cache.lookup("alias.example.com", 1, NOW);
    assert!(found.is_some());
}

#[test]
fn test_negative_caching() {
    let mut cache = Cache::new();
    let expiry = NOW + 300 * NANOS_PER_SEC;

    let neg = CacheRecord::new(
        "nonexistent.com".to_string(),
        CacheRecordData::Address(IpAddr::V4(Ipv4Addr::new(0, 0, 0, 0))),
        expiry,
        0,
        CacheFlags::from_bits(F_NEG | F_NXDOMAIN),
        NOW,
    );
    cache.insert(neg, NOW).unwrap();

    let found = cache.lookup("nonexistent.com", 1, NOW);
    assert!(found.is_some());
    assert!(found.unwrap().flags().contains(F_NXDOMAIN));
}

#[test]
fn test_dhcp_entry() {
    let mut cache = Cache::new();
    let addr = IpAddr::V4(Ipv4Addr::new(192, 168, 1, 100));
    let expiry = NOW + 3600 * NANOS_PER_SEC;

    let id = cache.add_dhcp_entry("client.local", addr, expiry, NOW).unwrap();
    assert!(id.get() < cache.enumerate().len());

    let removed = cache.unhash_dhcp("client.local");
    assert_eq!(removed, 1);
}

#[test]
fn test_check_for_local_domain() {
    let local_domains = vec!["local".to_string(), "lan".to_string()];

    assert!(check_for_local_domain("myhost.local", &local_domains));
    assert!(check_for_local_domain("server.lan", &local_domains));
    assert!(check_for_local_domain("sub.domain.local", &local_domains));
    assert!(!check_for_local_domain("example.com", &local_domains));
    assert!(!check_for_local_domain("localdomain.com", &local_domains));
}

#[test]
fn test_lru_eviction() {
    let config = CacheConfig {
        max_entries: 2,
        negative_caching: true,
        local_ttl: 0,
        min_cache_ttl: 0,
    };
    let mut cache = Cache::with_config(config);
    let expiry = NOW + 300 * NANOS_PER_SEC;

    for i in 0..3 {
        let record = CacheRecord::new(
            format!("host{}.example.com", i),
            CacheRecordData::Address(IpAddr::V4(Ipv4Addr::new(192, 0, 2, i as u8))),
            expiry,
            0,
            CacheFlags::from_bits(F_FORWARD | F_IPV4),
            NOW,
        );
        cache.insert(record, NOW).unwrap();
    }

    let stats = cache.get_stats();
    assert!(stats.entries <= 2);

    let found = cache.lookup("host2.example.com", 1, NOW);
    assert!(found.is_some());
}

#[test]
fn test_barker_hash() {
    let hash1 = Cache::compute_hash("example.com");
    let hash2 = Cache::compute_hash("example.com");
    assert_eq!(hash1, hash2);

    let hash3 = Cache::compute_hash("EXAMPLE.COM");
    assert_eq!(hash1, hash3);

    let hash4 = Cache::compute_hash("different.com");
    assert_ne!(hash1, hash4);
}

#[test]
fn test_cache_record_id() {
    let id = CacheRecordId::new(42);
    assert_eq!(id.get(), 42);
}

#[test]
fn test_cache_flags() {
    let mut flags = CacheFlags::from_bits(CacheFlags::FORWARD | CacheFlags::IPV4);
    assert!(flags.contains(CacheFlags::FORWARD));
    assert!(flags.contains(CacheFlags::IPV4));
    assert!(!flags.contains(CacheFlags::IPV6));

    flags.insert(CacheFlags::UPSTREAM);
    assert!(flags.contains(CacheFlags::UPSTREAM));

    flags.remove(CacheFlags::IPV4);
    assert!(!flags.contains(CacheFlags::IPV4));
}

#[test]
fn test_srv_data() {
    let srv = SrvData::new(b"target.example.com", 80, 10, 20);
    assert_eq!(srv.target(), b"target.example.com");
    assert_eq!(srv.port(), 80);
    assert_eq!(srv.priority(), 10);
    assert_eq!(srv.weight(), 20);
}

#[test]
fn test_dnskey_data() {
    let keydata = vec![0x01, 0x02, 0x03, 0x04];
    let dnskey = DnsKeyData::new(&keydata, 256, 12345, 8);
    assert_eq!(dnskey.keydata(), keydata);
    assert_eq!(dnskey.flags(), 256);
    assert_eq!(dnskey.keytag(), 12345);
    assert_eq!(dnskey.algorithm(), 8);
}

#[test]
fn test_ds_data() {
    let digest = vec![0xde, 0xad, 0xbe, 0xef];
    let ds = DsData::new(&digest, 54321, 8, 2);
    assert_eq!(ds.keydata(), digest);
    assert_eq!(ds.keytag(), 54321);
    assert_eq!(ds.algorithm(), 8);
    assert_eq!(ds.digest_type(), 2);
}

#[test]
fn test_domain_key() {
    let key1 = DomainKey::new("example.com".to_string(), T_A);
    let key2 = DomainKey::new("EXAMPLE.COM".to_string(), T_A);
    let key3 = DomainKey::new("example.com".to_string(), T_AAAA);

    assert_eq!(key1, key2);
    assert_ne!(key1, key3);

    assert_eq!(key1.name(), "example.com");
    assert_eq!(key1.qtype(), T_A);
}

#[test]
fn test_cache_record() {
    let addr = Ipv4Addr::from_text("192.0.2.1").unwrap();
    let ttd = NOW + 300 * NANOS_PER_SEC;
    let flags =
        CacheFlags::from_bits(CacheFlags::FORWARD | CacheFlags::IPV4 | CacheFlags::UPSTREAM);

    let record = CacheRecord::new(
        "example.com".to_string(),
        CacheRecordData::Address(IpAddr::V4(addr)),
        ttd,
        UID_NONE,
        flags,
        NOW,
    );

    assert_eq!(record.name(), "example.com");
    assert_eq!(record.uid(), UID_NONE);
    assert!(record.flags().contains(CacheFlags::FORWARD));
    assert!(!record.is_expired(NOW));
}

#[test]
fn test_cache_record_immortal() {
    let addr = Ipv4Addr::from_text("192.0.2.1").unwrap();
    let ttd = NOW - 300 * NANOS_PER_SEC;
    let flags = CacheFlags::from_bits(CacheFlags::IMMORTAL | CacheFlags::HOSTS);

    let record = CacheRecord::new(
        "localhost".to_string(),
        CacheRecordData::Address(IpAddr::V4(addr)),
        ttd,
        SRC_HOSTS,
        flags,
        NOW,
    );

    assert!(!record.is_expired(NOW));
}

#[test]
fn test_cache_record_expired() {
    let addr = Ipv4Addr::from_text("192.0.2.1").unwrap();
    let ttd = NOW - NANOS_PER_SEC;
    let flags = CacheFlags::from_bits(CacheFlags::FORWARD | CacheFlags::IPV4);

    let record = CacheRecord::new(
        "expired.example.com".to_string(),
        CacheRecordData::Address(IpAddr::V4(addr)),
        ttd,
        UID_NONE,
        flags,
        NOW,
    );

    assert!(record.is_expired(NOW));
}

#[test]
fn lookup_ignores_case() {
    let mut cache = Cache::new();
    cache.insert(address("Host.Example.COM", 1, NOW + NANOS_PER_SEC, F_FORWARD), NOW).unwrap();
    assert!(cache.lookup("hOST.eXAMPLE.com", T_A, NOW).is_some());
    assert!(cache.lookup("host.example.com", T_AAAA, NOW).is_none());
    let stats = cache.get_stats();
    assert_eq!((stats.hits, stats.misses, stats.entries), (1, 1, 1));
}

#[test]
fn record_is_gone_when_its_time_is_over() {
    let mut cache = Cache::new();
    cache.insert(address("a.test", 1, NOW + NANOS_PER_SEC, F_FORWARD), NOW).unwrap();
    assert!(cache.lookup("a.test", T_A, NOW + NANOS_PER_SEC - 1).is_some());
    assert!(cache.lookup("a.test", T_A, NOW + NANOS_PER_SEC).is_none());
    assert!(cache.lookup("a.test", T_A, NOW + 2 * NANOS_PER_SEC).is_none());
}

#[test]
fn circle_of_aliases_is_given_up() {
    let mut cache = Cache::new();
    cache.insert(alias("a.test", "b.test"), NOW).unwrap();
    cache.insert(alias("b.test", "a.test"), NOW).unwrap();
    assert!(cache.lookup("a.test", T_A, NOW).is_none());
    assert_eq!(cache.get_stats().cname_chains, 10);
}

#[test]
fn least_recently_used_record_goes_first() {
    let mut cache = Cache::with_config(CacheConfig {
        max_entries: 2,
        negative_caching: true,
        local_ttl: 0,
        min_cache_ttl: 0,
    });
    let later = NOW + 300 * NANOS_PER_SEC;
    cache.insert(address("a.test", 1, later, F_FORWARD | F_IPV4), NOW).unwrap();
    cache.insert(address("b.test", 2, later, F_FORWARD | F_IPV4), NOW).unwrap();
    assert!(cache.lookup("a.test", T_A, NOW).is_some());
    cache.insert(address("c.test", 3, later, F_FORWARD | F_IPV4), NOW).unwrap();
    assert!(cache.lookup("a.test", T_A, NOW).is_some());
    assert!(cache.lookup("b.test", T_A, NOW).is_none());
    assert!(cache.lookup("c.test", T_A, NOW).is_some());
    assert_eq!(cache.get_stats().evictions_lru, 1);
}

#[test]
fn records_are_found_by_name_and_by_address() {
    let mut cache = Cache::new();
    let later = NOW + 300 * NANOS_PER_SEC;
    cache.insert(address("a.test", 1, later, F_FORWARD | F_REVERSE | F_IPV4), NOW).unwrap();
    cache.insert(address("b.test", 2, later, F_FORWARD | F_REVERSE | F_IPV4), NOW).unwrap();
    let by_addr = cache.find_by_addr(&IpAddr::V4(Ipv4Addr::new(192, 0, 2, 2)), NOW);
    assert_eq!(by_addr.len(), 1);
    assert_eq!(by_addr[0].name(), "b.test");
    let by_name = cache.find_by_name("A.TEST", NOW);
    assert_eq!(by_name.len(), 1);
    assert_eq!(by_name[0].name(), "a.test");
    assert_eq!(cache.enumerate().len(), 2);
}

#[test]
fn clear_forgets_everything() {
    let mut cache = Cache::new();
    cache.insert(address("a.test", 1, NOW + NANOS_PER_SEC, F_FORWARD), NOW).unwrap();
    cache.clear();
    assert_eq!(cache.get_stats().entries, 0);
    assert_eq!(cache.get_stats().insertions, 0);
    assert!(cache.lookup("a.test", T_A, NOW).is_none());
}

#[test]
fn lease_leaves_and_permanent_record_stays() {
    let mut cache = Cache::new();
    let addr = IpAddr::V4(Ipv4Addr::new(192, 168, 1, 7));
    let later = NOW + 300 * NANOS_PER_SEC;
    cache.insert(address("box.lan", 9, later, F_FORWARD | F_IMMORTAL), NOW).unwrap();
    cache.add_dhcp_entry("box.lan", addr, later, NOW).unwrap();
    assert_eq!(cache.unhash_dhcp("BOX.lan"), 1);
    assert_eq!(cache.unhash_dhcp("box.lan"), 0);
    assert!(cache.lookup("box.lan", T_A, NOW).is_some());
}

#[test]
fn expired_records_are_scanned_out() {
    let mut cache = Cache::new();
    cache.insert(address("a.test", 1, NOW + NANOS_PER_SEC, F_FORWARD | F_IPV4), NOW).unwrap();
    let late = NOW + 10 * NANOS_PER_SEC;
    cache.scan_free(Some("a.test"), None, CacheFlags::from_bits(F_FORWARD), late);
    assert_eq!(cache.get_stats().entries, 0);
    assert_eq!(cache.get_stats().evictions_ttl, 1);
    cache.insert(address("a.test", 1, late + 1, F_FORWARD | F_IPV4), late).unwrap();
    cache.insert(address("a.test", 2, late + 1, F_FORWARD | F_IPV4), late).unwrap();
    assert_eq!(cache.get_stats().evictions_ttl, 1);
}

#[test]
fn statistics_are_written_out() {
    let cache = Cache::new();
    let text = cache.make_stat();
    assert!(text.contains("150"));
}

#[test]
fn aliases_are_told_apart() {
    assert!(Cache::has_cname(&alias("a.test", "b.test")));
    assert!(!Cache::has_cname(&address("a.test", 1, NOW, F_FORWARD)));
}

#[test]
fn record_type_follows_from_the_data() {
    let v4 = CacheRecordData::Address(IpAddr::V4(Ipv4Addr::new(1, 2, 3, 4)));
    let v6 = CacheRecordData::Address(IpAddr::V6(Ipv6Addr::new(1, 2, 3, 4, 5, 6, 7, 8)));
    assert_eq!(CacheRecord::derive_rr_type(&v4), 1);
    assert_eq!(CacheRecord::derive_rr_type(&v6), 28);
    assert_eq!(CacheRecord::derive_rr_type(&CacheRecordData::Cname("x".to_string())), 5);
}

#[test]
fn name_with_other_letters_is_lowered_too() {
    let key = DomainKey::new("Ä.Example".to_string(), T_A);
    assert_eq!(key.name(), "ä.example");
}

#[test]
fn other_flags_stay() {
    let mut flags = CacheFlags::empty();
    flags.insert(F_NEG);
    assert!(flags.intersects(F_NEG | F_IPV4));
    flags.remove(F_IPV4);
    assert!(flags.contains(F_NEG));
    assert!(!CacheFlags::default().intersects(F_NEG));
}

#[test]
fn address_is_scanned_out_wherever_it_stands() {
    let mut cache = Cache::new();
    let later = NOW + 300 * NANOS_PER_SEC;
    cache.insert(address("a.test", 1, later, F_FORWARD | F_REVERSE | F_IPV4), NOW).unwrap();
    cache.insert(address("b.test", 2, later, F_FORWARD | F_REVERSE | F_IPV4), NOW).unwrap();
    let addr = IpAddr::V4(Ipv4Addr::new(192, 0, 2, 1));
    cache.scan_free(None, Some(&addr), CacheFlags::from_bits(F_REVERSE), NOW);
    assert!(cache.lookup("a.test", T_A, NOW).is_none());
    assert!(cache.lookup("b.test", T_A, NOW).is_some());
    assert_eq!(cache.get_stats().entries, 1);
}

#[test]
fn record_of_a_response_lasts_an_hour() {
    let record = CacheRecord::from_response(&[], "a.test", T_A, NOW).unwrap();
    assert_eq!(record.name(), "a.test");
    assert_eq!(record.ttd(), NOW + 3600 * NANOS_PER_SEC);
    assert!(record.flags().contains(F_FORWARD));
    assert!(CacheRecord::from_response(&[], "a.test", 16, NOW).is_none());
}

fn small(max_entries: usize, min_cache_ttl: u64) -> Cache {
    Cache::with_config(CacheConfig {
        max_entries,
        negative_caching: true,
        local_ttl: 0,
        min_cache_ttl,
    })
}

#[test]
fn permanent_record_is_not_put_out() {
    let later = NOW + 300 * NANOS_PER_SEC;
    for flags in [F_HOSTS | F_IMMORTAL, F_HOSTS, F_DHCP | F_FORWARD, F_CONFIG | F_FORWARD] {
        let mut cache = small(2, 0);
        cache.insert(address("localhost", 1, later, flags), NOW).unwrap();
        cache.insert(address("a.test", 2, later, F_FORWARD | F_IPV4), NOW).unwrap();
        cache.insert(address("b.test", 3, later, F_FORWARD | F_IPV4), NOW).unwrap();
        assert_eq!(cache.find_by_name("localhost", NOW).len(), 1);
        assert_eq!(cache.find_by_name("a.test", NOW).len(), 0);
        assert_eq!(cache.find_by_name("b.test", NOW).len(), 1);
        assert!(cache.get_stats().entries <= 2);
        assert_eq!(cache.get_stats().evictions_lru, 1);
    }
}

#[test]
fn cache_full_of_permanent_records_refuses() {
    let later = NOW + 300 * NANOS_PER_SEC;
    let mut cache = small(2, 0);
    cache.insert(address("a.lan", 1, later, F_HOSTS), NOW).unwrap();
    cache.insert(address("b.lan", 2, later, F_CONFIG), NOW).unwrap();
    assert_eq!(
        cache.insert(address("c.test", 3, later, F_FORWARD), NOW).err(),
        Some("cache is full")
    );
    let stats = cache.get_stats();
    assert_eq!((stats.entries, stats.insertions, stats.evictions_lru), (2, 2, 0));
    assert_eq!(cache.find_by_name("a.lan", NOW).len(), 1);
    assert_eq!(cache.find_by_name("b.lan", NOW).len(), 1);
    assert!(small(0, 0).insert(address("a.test", 1, later, F_FORWARD), NOW).is_err());
}

#[test]
fn lookup_gives_the_type_that_was_asked_for() {
    let later = NOW + 300 * NANOS_PER_SEC;
    let mut cache = small(4, 0);
    let v4 = IpAddr::V4(Ipv4Addr::new(192, 0, 2, 1));
    cache.add_dhcp_entry("box.lan", v4, later, NOW).unwrap();
    assert_eq!(cache.unhash_dhcp("box.lan"), 1);
    let v6 = CacheRecord::new(
        "box.lan".to_string(),
        CacheRecordData::Address(IpAddr::V6(Ipv6Addr::new(1, 2, 3, 4, 5, 6, 7, 8))),
        later,
        0,
        CacheFlags::from_bits(F_FORWARD),
        NOW,
    );
    cache.insert(v6, NOW).unwrap();
    assert!(cache.lookup("box.lan", T_A, NOW).is_none());
    let found = cache.lookup("box.lan", T_AAAA, NOW).unwrap();
    assert_eq!(CacheRecord::derive_rr_type(found.data()), T_AAAA);
    cache.scan_free(Some("box.lan"), None, CacheFlags::from_bits(F_FORWARD), NOW);
    cache.insert(address("c.test", 3, later, F_FORWARD), NOW).unwrap();
    cache.insert(address("d.test", 4, later, F_FORWARD), NOW).unwrap();
    assert_eq!(cache.lookup("c.test", T_A, NOW).unwrap().name(), "c.test");
    assert_eq!(cache.lookup("d.test", T_A, NOW).unwrap().name(), "d.test");
    assert_eq!(cache.get_stats().entries, 2);
}

#[test]
fn insert_takes_the_place_of_what_it_replaces() {
    let later = NOW + 300 * NANOS_PER_SEC;
    let mut cache = small(4, 0);
    cache.insert(address("a.test", 1, later, F_FORWARD), NOW).unwrap();
    cache.insert(address("A.Test", 2, later, F_FORWARD), NOW).unwrap();
    let all = cache.enumerate();
    assert_eq!(all.len(), 1);
    assert_eq!(all[0].name(), "A.Test");
    assert_eq!(cache.get_stats().insertions, 2);
    assert_eq!(cache.get_stats().capacity, 4);
}

#[test]
fn expired_lease_is_not_scanned_out() {
    let mut cache = Cache::new();
    cache.insert(address("a.lan", 1, NOW, F_DHCP | F_FORWARD), NOW).unwrap();
    cache.insert(address("b.lan", 2, NOW, F_CONFIG | F_FORWARD), NOW).unwrap();
    cache.insert(address("c.test", 3, NOW, F_FORWARD), NOW).unwrap();
    cache.scan_free(None, None, CacheFlags::empty(), NOW + NANOS_PER_SEC);
    let mut left: Vec<&str> = cache.enumerate().iter().map(|r| r.name()).collect();
    left.sort();
    assert_eq!(left, vec!["a.lan", "b.lan"]);
}

#[test]
fn alias_without_target_is_scanned_out() {
    let later = NOW + 300 * NANOS_PER_SEC;
    let mut cache = Cache::new();
    cache.insert(alias("a.test", "b.test"), NOW).unwrap();
    cache.insert(alias("b.test", "c.test"), NOW).unwrap();
    cache.insert(alias("x.test", "Y.test"), NOW).unwrap();
    cache.insert(address("y.test", 1, later, F_FORWARD), NOW).unwrap();
    cache.scan_free(Some("a.test"), None, CacheFlags::from_bits(F_REVERSE | F_FORWARD), NOW);
    assert_eq!(cache.find_by_name("b.test", NOW).len(), 1);
    cache.insert(alias("a.test", "b.test"), NOW).unwrap();
    cache.scan_free(None, None, CacheFlags::empty(), NOW);
    assert_eq!(cache.find_by_name("a.test", NOW).len(), 0);
    assert_eq!(cache.find_by_name("b.test", NOW).len(), 0);
    assert_eq!(cache.find_by_name("x.test", NOW).len(), 1);
    assert_eq!(cache.get_stats().entries, 2);
}

#[test]
fn record_lasts_as_long_as_is_asked_for() {
    let mut cache = small(4, 90);
    cache.insert(address("a.test", 1, NOW + NANOS_PER_SEC, F_FORWARD), NOW).unwrap();
    let kept = cache.lookup("a.test", T_A, NOW + 89 * NANOS_PER_SEC).unwrap();
    assert_eq!(kept.ttd(), NOW + 90 * NANOS_PER_SEC);
    assert_eq!(kept.ttl, 90);
    assert!(cache.lookup("a.test", T_A, NOW + 90 * NANOS_PER_SEC).is_none());
    cache.insert(address("b.test", 2, NOW + 300 * NANOS_PER_SEC, F_FORWARD), NOW).unwrap();
    assert_eq!(cache.find_by_name("b.test", NOW)[0].ttd(), NOW + 300 * NANOS_PER_SEC);
}

#[test]
fn key_lasts_a_minute_at_least() {
    let mut cache = Cache::new();
    let key = CacheRecord::new(
        "a.test".to_string(),
        CacheRecordData::DnsKey(DnsKeyData::new(&[1, 2, 3], 257, 1, 8)),
        NOW,
        0,
        CacheFlags::from_bits(F_FORWARD),
        NOW,
    );
    cache.insert(key, NOW).unwrap();
    assert_eq!(cache.lookup("a.test", 48, NOW).unwrap().ttd(), NOW + 60 * NANOS_PER_SEC);
}
