//! Synthetic names and conditional domains.

use dnsmasq_dns::addr::{IpAddr, Ipv4Addr, Ipv6Addr};
use dnsmasq_dns::domain::{
    canonicalise, get_domain, get_domain6, hostname_isequal, is_name_synthetic, is_rev_synth,
    is_same_net6, is_same_net_prefix, is_valid_dns_name_pattern, match_domain, match_domain6,
    search_domain, search_domain6, Addrlist, AddrlistFlags, CondDomain, QueryFlags,
    SynthDomainResult,
};

#[test]
fn test_is_valid_dns_name_pattern() {
    assert!(is_valid_dns_name_pattern("example.com"));
    assert!(is_valid_dns_name_pattern("test.example.com"));
    assert!(is_valid_dns_name_pattern("host-1.example.com"));
    assert!(is_valid_dns_name_pattern("*.example.com"));

    assert!(!is_valid_dns_name_pattern(""));
    assert!(!is_valid_dns_name_pattern("invalid_name.com"));
    assert!(!is_valid_dns_name_pattern("-invalid.com"));
    assert!(!is_valid_dns_name_pattern("invalid-.com"));
}

#[test]
fn test_canonicalise() {
    assert_eq!(
        canonicalise("Example.COM"),
        Some("example.com".to_string())
    );
    assert_eq!(
        canonicalise("TEST.Example.COM."),
        Some("test.example.com".to_string())
    );
    assert_eq!(canonicalise("test."), Some("test".to_string()));
    assert_eq!(canonicalise(""), None);
    assert_eq!(canonicalise("."), None);
}

#[test]
fn test_match_domain_ipv4_range() {
    let cond_domain = CondDomain {
        domain: "test.com".to_string(),
        prefix: None,
        indexed: false,
        interface: false,
        is6: false,
        start: Ipv4Addr::new(192, 168, 1, 1),
        end: Ipv4Addr::new(192, 168, 1, 100),
        start6: Ipv6Addr::new(0, 0, 0, 0, 0, 0, 0, 0),
        end6: Ipv6Addr::new(0, 0, 0, 0, 0, 0, 0, 0),
        prefixlen: 0,
        al: vec![],
    };

    assert!(match_domain(Ipv4Addr::new(192, 168, 1, 50), &cond_domain));
    assert!(match_domain(Ipv4Addr::new(192, 168, 1, 1), &cond_domain));
    assert!(match_domain(Ipv4Addr::new(192, 168, 1, 100), &cond_domain));
    assert!(!match_domain(Ipv4Addr::new(192, 168, 1, 200), &cond_domain));
    assert!(!match_domain(Ipv4Addr::new(10, 0, 0, 1), &cond_domain));
}

#[test]
fn test_search_domain() {
    let domains = vec![
        CondDomain {
            domain: "subnet1.com".to_string(),
            prefix: None,
            indexed: false,
            interface: false,
            is6: false,
            start: Ipv4Addr::new(192, 168, 1, 1),
            end: Ipv4Addr::new(192, 168, 1, 100),
            start6: Ipv6Addr::new(0, 0, 0, 0, 0, 0, 0, 0),
            end6: Ipv6Addr::new(0, 0, 0, 0, 0, 0, 0, 0),
            prefixlen: 0,
            al: vec![],
        },
        CondDomain {
            domain: "subnet2.com".to_string(),
            prefix: None,
            indexed: false,
            interface: false,
            is6: false,
            start: Ipv4Addr::new(10, 0, 0, 1),
            end: Ipv4Addr::new(10, 0, 0, 100),
            start6: Ipv6Addr::new(0, 0, 0, 0, 0, 0, 0, 0),
            end6: Ipv6Addr::new(0, 0, 0, 0, 0, 0, 0, 0),
            prefixlen: 0,
            al: vec![],
        },
    ];

    let result = search_domain(Ipv4Addr::new(192, 168, 1, 50), &domains);
    assert!(result.is_some());
    assert_eq!(result.unwrap().domain, "subnet1.com");

    let result = search_domain(Ipv4Addr::new(10, 0, 0, 50), &domains);
    assert!(result.is_some());
    assert_eq!(result.unwrap().domain, "subnet2.com");

    let result = search_domain(Ipv4Addr::new(172, 16, 0, 1), &domains);
    assert!(result.is_none());
}

#[test]
fn test_get_domain() {
    let domains = vec![CondDomain {
        domain: "subnet.com".to_string(),
        prefix: None,
        indexed: false,
        interface: false,
        is6: false,
        start: Ipv4Addr::new(192, 168, 1, 1),
        end: Ipv4Addr::new(192, 168, 1, 100),
        start6: Ipv6Addr::new(0, 0, 0, 0, 0, 0, 0, 0),
        end6: Ipv6Addr::new(0, 0, 0, 0, 0, 0, 0, 0),
        prefixlen: 0,
        al: vec![],
    }];

    assert_eq!(
        get_domain(Ipv4Addr::new(192, 168, 1, 50), &domains, "default.com"),
        "subnet.com"
    );
    assert_eq!(
        get_domain(Ipv4Addr::new(10, 0, 0, 1), &domains, "default.com"),
        "default.com"
    );
}

#[test]
fn test_is_rev_synth_ipv4_indexed() {
    let domains = vec![CondDomain {
        domain: "example.com".to_string(),
        prefix: Some("host".to_string()),
        indexed: true,
        interface: false,
        is6: false,
        start: Ipv4Addr::new(192, 168, 1, 1),
        end: Ipv4Addr::new(192, 168, 1, 100),
        start6: Ipv6Addr::new(0, 0, 0, 0, 0, 0, 0, 0),
        end6: Ipv6Addr::new(0, 0, 0, 0, 0, 0, 0, 0),
        prefixlen: 0,
        al: vec![],
    }];

    let result = is_rev_synth(
        QueryFlags::IPv4,
        IpAddr::V4(Ipv4Addr::new(192, 168, 1, 50)),
        &domains,
    );
    assert_eq!(result, Some("host49.example.com".to_string()));
}

#[test]
fn test_is_rev_synth_ipv4_direct() {
    let domains = vec![CondDomain {
        domain: "example.com".to_string(),
        prefix: Some("ip-".to_string()),
        indexed: false,
        interface: false,
        is6: false,
        start: Ipv4Addr::new(192, 168, 1, 1),
        end: Ipv4Addr::new(192, 168, 1, 100),
        start6: Ipv6Addr::new(0, 0, 0, 0, 0, 0, 0, 0),
        end6: Ipv6Addr::new(0, 0, 0, 0, 0, 0, 0, 0),
        prefixlen: 0,
        al: vec![],
    }];

    let result = is_rev_synth(
        QueryFlags::IPv4,
        IpAddr::V4(Ipv4Addr::new(192, 168, 1, 50)),
        &domains,
    );
    assert_eq!(result, Some("ip-192-168-1-50.example.com".to_string()));
}

#[test]
fn test_is_name_synthetic_ipv4_indexed() {
    let domains = vec![CondDomain {
        domain: "example.com".to_string(),
        prefix: Some("host".to_string()),
        indexed: true,
        interface: false,
        is6: false,
        start: Ipv4Addr::new(192, 168, 1, 1),
        end: Ipv4Addr::new(192, 168, 1, 100),
        start6: Ipv6Addr::new(0, 0, 0, 0, 0, 0, 0, 0),
        end6: Ipv6Addr::new(0, 0, 0, 0, 0, 0, 0, 0),
        prefixlen: 0,
        al: vec![],
    }];

    let result = is_name_synthetic(QueryFlags::IPv4, "host49.example.com", &domains);
    match result {
        SynthDomainResult::Match(IpAddr::V4(addr)) => {
            assert_eq!(addr, Ipv4Addr::new(192, 168, 1, 50));
        }
        _ => panic!("Expected Match"),
    }
}

#[test]
fn test_is_name_synthetic_ipv4_direct() {
    let domains = vec![CondDomain {
        domain: "example.com".to_string(),
        prefix: Some("ip-".to_string()),
        indexed: false,
        interface: false,
        is6: false,
        start: Ipv4Addr::new(192, 168, 1, 1),
        end: Ipv4Addr::new(192, 168, 1, 100),
        start6: Ipv6Addr::new(0, 0, 0, 0, 0, 0, 0, 0),
        end6: Ipv6Addr::new(0, 0, 0, 0, 0, 0, 0, 0),
        prefixlen: 0,
        al: vec![],
    }];

    let result = is_name_synthetic(QueryFlags::IPv4, "ip-192-168-1-50.example.com", &domains);
    match result {
        SynthDomainResult::Match(IpAddr::V4(addr)) => {
            assert_eq!(addr, Ipv4Addr::new(192, 168, 1, 50));
        }
        _ => panic!("Expected Match"),
    }
}

fn range(prefix: Option<&str>, indexed: bool) -> CondDomain {
    CondDomain {
        domain: "example.com".to_string(),
        prefix: prefix.map(|p| p.to_string()),
        indexed,
        interface: false,
        is6: true,
        start: Ipv4Addr::new(0, 0, 0, 0),
        end: Ipv4Addr::new(0, 0, 0, 0),
        start6: Ipv6Addr::new(0x2001, 0xdb8, 0, 0, 0, 0, 0, 1),
        end6: Ipv6Addr::new(0x2001, 0xdb8, 0, 0, 0, 0, 0, 0xFF),
        prefixlen: 64,
        al: vec![],
    }
}

#[test]
fn ipv6_names_go_both_ways() {
    let addr = Ipv6Addr::new(0x2001, 0xdb8, 0, 0, 0, 0, 0, 0x10);
    for (domain, name) in [
        (range(Some("ip-"), false), "ip-2001-db8--10.example.com"),
        (range(Some("host"), true), "host15.example.com"),
    ] {
        let domains = vec![domain];
        assert!(match_domain6(&addr, &domains[0]));
        assert_eq!(
            is_rev_synth(QueryFlags::IPv6, IpAddr::V6(addr), &domains),
            Some(name.to_string())
        );
        assert_eq!(
            is_name_synthetic(QueryFlags::IPv6, name, &domains),
            SynthDomainResult::Match(IpAddr::V6(addr))
        );
        assert_eq!(
            is_name_synthetic(QueryFlags::IPv4, name, &domains),
            SynthDomainResult::NoMatch
        );
    }
}

#[test]
fn domain_of_an_ipv6_address_is_found() {
    let domains = vec![range(None, false)];
    let inside = Ipv6Addr::new(0x2001, 0xdb8, 0, 0, 0, 0, 0, 0x10);
    let outside = Ipv6Addr::new(0x2001, 0xdb9, 0, 0, 0, 0, 0, 0x10);
    assert!(search_domain6(&inside, &domains).is_some());
    assert!(search_domain6(&outside, &domains).is_none());
    assert_eq!(get_domain6(Some(&inside), &domains, "default.com"), "example.com");
    assert_eq!(get_domain6(None, &domains, "default.com"), "default.com");
}

#[test]
fn name_outside_the_range_is_none() {
    let domains = vec![range(Some("host"), true)];
    assert_eq!(
        is_name_synthetic(QueryFlags::IPv6, "host9999.example.com", &domains),
        SynthDomainResult::NoMatch
    );
    assert_eq!(
        is_name_synthetic(QueryFlags::IPv6, "hostx.example.com", &domains),
        SynthDomainResult::NoMatch
    );
    assert_eq!(
        is_name_synthetic(QueryFlags::IPv6, "host1.example.org", &domains),
        SynthDomainResult::NoMatch
    );
}

#[test]
fn interface_addresses_decide() {
    let mut domain = range(None, false);
    domain.is6 = false;
    domain.interface = true;
    domain.al = vec![Addrlist {
        addr: IpAddr::V4(Ipv4Addr::new(10, 1, 0, 0)),
        prefixlen: 16,
        flags: AddrlistFlags::IPv4,
    }];
    assert!(match_domain(Ipv4Addr::new(10, 1, 2, 3), &domain));
    assert!(!match_domain(Ipv4Addr::new(10, 2, 2, 3), &domain));
}

#[test]
fn networks_are_compared_by_their_prefix() {
    let a = Ipv4Addr::new(192, 168, 1, 1);
    let b = Ipv4Addr::new(192, 168, 1, 200);
    assert!(is_same_net_prefix(a, b, 24));
    assert!(!is_same_net_prefix(a, b, 25));
    assert!(is_same_net_prefix(a, Ipv4Addr::new(1, 1, 1, 1), 0));
    let c = Ipv6Addr::new(0x2001, 0xdb8, 0, 0, 0, 0, 0, 1);
    let d = Ipv6Addr::new(0x2001, 0xdb8, 0, 1, 0, 0, 0, 1);
    assert!(is_same_net6(&c, &d, 48));
    assert!(!is_same_net6(&c, &d, 64));
}

#[test]
fn host_names_are_compared_without_case() {
    assert!(hostname_isequal("Host.Example", "hOST.eXAMPLE"));
    assert!(!hostname_isequal("host", "hosts"));
}

#[test]
fn canonical_form_is_its_own() {
    let form = canonicalise("A-1.Example.ORG.").unwrap();
    assert_eq!(form, "a-1.example.org");
    assert_eq!(canonicalise(&form), Some(form.clone()));
    assert_eq!(canonicalise("a-1.EXAMPLE.org"), Some(form));
    assert_eq!(canonicalise("a..org"), None);
    assert_eq!(canonicalise("-a.org"), None);
    assert_eq!(canonicalise(&"a.".repeat(130)), None);
    let kelvin = canonicalise("\u{212A}.org").unwrap();
    assert_eq!(kelvin, "k.org");
    assert!(is_valid_dns_name_pattern(&kelvin));
    assert_eq!(canonicalise(&kelvin), Some("k.org".to_string()));
    assert_eq!(canonicalise("k.org."), canonicalise("K.ORG"));
}

#[test]
fn case_of_a_synthetic_name_does_not_matter() {
    let addr = Ipv6Addr::new(0x2001, 0xdb8, 0, 0, 0, 0, 0, 0xab);
    let mut domains = vec![range(Some("ip-"), false)];
    for name in ["ip-2001-db8--ab.example.com", "IP-2001-DB8--AB.EXAMPLE.COM"] {
        assert_eq!(
            is_name_synthetic(QueryFlags::IPv6, name, &domains),
            SynthDomainResult::Match(IpAddr::V6(addr))
        );
    }
    domains[0].is6 = false;
    domains[0].start = Ipv4Addr::new(10, 0, 0, 0);
    domains[0].end = Ipv4Addr::new(10, 0, 0, 255);
    domains[0].domain = "bücher.example".to_string();
    for prefix in [None, Some("ip-".to_string())] {
        domains[0].prefix = prefix.clone();
        let v4 = IpAddr::V4(Ipv4Addr::new(10, 0, 0, 7));
        let name = is_rev_synth(QueryFlags::IPv4, v4, &domains).unwrap();
        assert_eq!(name, prefix.unwrap_or_default() + "10-0-0-7.bücher.example");
        for name in [name.clone(), name.to_ascii_uppercase()] {
            assert_eq!(
                is_name_synthetic(QueryFlags::IPv4, &name, &domains),
                SynthDomainResult::Match(v4)
            );
        }
    }
}
