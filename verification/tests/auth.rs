//! Authoritative answers.

use dnsmasq_dns::addr::{IpAddr, Ipv4Addr, Ipv6Addr, SocketAddr};
use dnsmasq_dns::auth::{
    answer_auth, filter_zone, in_zone, AddrList, AuthConfig, AuthError, AuthZone, Config,
};
use dnsmasq_dns::cache::Cache;

fn net(a: u8, b: u8, c: u8, d: u8, prefixlen: u32) -> AddrList {
    AddrList { addr: IpAddr::V4(Ipv4Addr::new(a, b, c, d)), prefixlen }
}

fn v4(a: u8, b: u8, c: u8, d: u8) -> IpAddr {
    IpAddr::V4(Ipv4Addr::new(a, b, c, d))
}

fn zone() -> AuthZone {
    AuthZone {
        domain: "zone.test".to_string(),
        subnet: Some(vec![net(192, 0, 2, 0, 24)]),
        exclude: vec![net(192, 0, 2, 128, 25)],
    }
}

fn config() -> Config {
    Config {
        auth: AuthConfig {
            auth_zones: vec![zone()],
            auth_server: Some("ns.zone.test".to_string()),
        },
    }
}

fn question(name: &[u8], qtype: u8) -> Vec<u8> {
    let mut packet = vec![0xAB, 0xCD, 0x01, 0x20, 0, 1, 0, 0, 0, 0, 0, 0];
    packet.extend_from_slice(name);
    packet.extend_from_slice(&[0, qtype, 0, 1]);
    packet
}

fn answer(packet: &[u8], local: bool) -> (Result<usize, AuthError>, [u8; 12]) {
    let mut header = [0u8; 12];
    let peer = SocketAddr::new(v4(203, 0, 113, 9), 5353);
    let r = answer_auth(
        &mut header,
        packet,
        512,
        packet.len(),
        0,
        &peer,
        local,
        false,
        false,
        &config(),
        &Cache::new(),
    );
    (r, header)
}

#[test]
fn start_of_authority_is_answered() {
    let packet = question(b"\x04zone\x04test\x00", 6);
    let (r, header) = answer(&packet, false);
    assert_eq!(r.unwrap(), packet.len());
    assert_eq!(header, [0xAB, 0xCD, 0x85, 0x00, 0, 1, 0, 1, 0, 1, 0, 0]);
}

#[test]
fn name_servers_are_answered() {
    let packet = question(b"\x04ZONE\x04test\x00", 2);
    let (r, header) = answer(&packet, true);
    assert_eq!(r.unwrap(), packet.len());
    assert_eq!(header, [0xAB, 0xCD, 0x85, 0x80, 0, 1, 0, 1, 0, 0, 0, 0]);
}

#[test]
fn unknown_name_in_the_zone_does_not_exist() {
    let packet = question(b"\x03www\x04zone\x04test\x00", 1);
    let (r, header) = answer(&packet, false);
    assert!(r.is_ok());
    assert_eq!(header[2] & 0x04, 0x04);
    assert_eq!(header[3] & 0x0F, 3);
    assert_eq!(header[6..10], [0, 0, 0, 1]);
}

#[test]
fn name_outside_the_zones_is_refused() {
    let packet = question(b"\x05other\x04test\x00", 1);
    let (r, header) = answer(&packet, false);
    assert!(r.is_ok());
    assert_eq!(header[2] & 0x04, 0);
    assert_eq!(header[3] & 0x0F, 5);
    assert_eq!(header[6..12], [0; 6]);
}

#[test]
fn zone_transfer_is_refused() {
    let packet = question(b"\x04zone\x04test\x00", 252);
    match answer(&packet, false).0 {
        Err(AuthError::UnauthorizedAxfr { peer_addr }) => {
            assert_eq!(peer_addr, "203.0.113.9:5353");
        }
        _ => panic!("Expected a refusal"),
    }
}

#[test]
fn query_that_cannot_be_read_is_an_error() {
    let reason = |packet: &[u8]| match answer(packet, false).0 {
        Err(AuthError::InvalidQuery { reason }) => reason,
        _ => panic!("Expected an invalid query"),
    };
    assert_eq!(reason(&[0; 5]), "Packet too short");
    assert_eq!(reason(&[0; 12]), "Zero questions");
    let mut packet = question(b"\x04zone\x04test\x00", 1);
    packet[2] = 4 << 3;
    assert_eq!(reason(&packet), "Invalid opcode: 4");
    packet[2] = 1;
    packet.truncate(16);
    assert!(reason(&packet).starts_with("Cannot skip questions: "));
}

#[test]
fn exclusion_wins_over_the_subnet() {
    let zone = zone();
    assert!(filter_zone(&zone, &v4(192, 0, 2, 5)));
    assert!(!filter_zone(&zone, &v4(192, 0, 2, 200)));
    assert!(!filter_zone(&zone, &v4(198, 51, 100, 5)));
    let mut open = zone.clone();
    open.subnet = None;
    assert!(filter_zone(&open, &v4(198, 51, 100, 5)));
    open.exclude = vec![AddrList {
        addr: IpAddr::V6(Ipv6Addr::new(0x2001, 0xdb8, 0, 0, 0, 0, 0, 0)),
        prefixlen: 32,
    }];
    assert!(!filter_zone(&open, &IpAddr::V6(Ipv6Addr::new(0x2001, 0xdb8, 1, 0, 0, 0, 0, 9))));
    assert!(filter_zone(&open, &IpAddr::V6(Ipv6Addr::new(0x2001, 0xdb9, 1, 0, 0, 0, 0, 9))));
}

#[test]
fn names_are_placed_in_the_zone() {
    let zone = zone();
    assert_eq!(in_zone(&zone, "Zone.Test"), (true, None));
    assert_eq!(in_zone(&zone, "www.zone.test"), (true, Some(3)));
    assert!(!in_zone(&zone, "wwwzone.test").0);
    assert!(!in_zone(&zone, "test").0);
}

#[test]
fn auth_errors_have_texts() {
    assert!(AuthError::AxfrTimeout.to_string().len() > 0);
    let err = AuthError::BufferOverflow { attempted: 600, available: 512 };
    assert!(err.to_string().contains("600"));
    let err = AuthError::NameTooLong { length: 2000 };
    assert!(err.to_string().contains("2000"));
}
