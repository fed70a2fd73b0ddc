//! Protocol numbers, texts and addresses.

use dnsmasq_dns::addr::{IpAddr, Ipv4Addr, Ipv6Addr, SocketAddr};
use dnsmasq_dns::protocol;
use dnsmasq_dns::spaces::{split_words, trim};
use dnsmasq_dns::text::{
    eq_ignore_case, join_from, parse_number, push_decimal, push_hex_byte, split_text,
    to_lowercase_text, to_uppercase_text,
};
use dnsmasq_dns::wire::{push_u16, push_u32, read_u16, read_u32};

#[test]
fn test_module_structure() {
    assert_eq!(protocol::DnsOpcode::Query.to_code(), 0);
    assert_eq!(protocol::ResponseCode::NoError.to_code(), 0);
    assert_eq!(protocol::DnsRrType::A.to_code(), 1);
}

#[test]
fn test_memory_safety_guarantees() {
    let buffer: Vec<u8> = vec![0; 512];
    let safe_slice = &buffer[0..512];
    assert_eq!(safe_slice.len(), 512);

    let owned_data = Box::new([0u8; 64]);
    drop(owned_data);

    let maybe_server: Option<String> = None;
    assert!(maybe_server.is_none());
}

#[test]
fn test_wire_protocol_equivalence() {
    assert_eq!(protocol::HEADER_LEN, 12);
}

#[test]
fn numbers_go_to_the_wire_and_back() {
    let mut data = Vec::new();
    push_u16(&mut data, 0x1234);
    push_u32(&mut data, 0xDEAD_BEEF);
    assert_eq!(data, vec![0x12, 0x34, 0xDE, 0xAD, 0xBE, 0xEF]);
    assert_eq!(read_u16(&data, 0), 0x1234);
    assert_eq!(read_u32(&data, 2), 0xDEAD_BEEF);
}

#[test]
fn texts_are_split_and_joined() {
    let parts = split_text("a.b..c", '.');
    assert_eq!(parts, vec!["a", "b", "", "c"]);
    assert_eq!(join_from(&parts, 0, '.'), "a.b..c");
    assert_eq!(join_from(&parts, 2, '.'), ".c");
}

#[test]
fn case_is_changed_beyond_ascii() {
    assert_eq!(to_lowercase_text("ÀÉabcXYZ"), "àéabcxyz");
    assert_eq!(to_uppercase_text("àéabcxyz"), "ÀÉABCXYZ");
    assert!(eq_ignore_case("Abc", "aBC"));
    assert!(!eq_ignore_case("à", "À"));
}

#[test]
fn numbers_are_written_and_read() {
    let mut s = String::new();
    push_decimal(&mut s, 1203);
    push_hex_byte(&mut s, 0xA5);
    assert_eq!(s, "1203A5");
    assert_eq!(parse_number("255", 255), Some(255));
    assert_eq!(parse_number("256", 255), None);
    assert_eq!(parse_number("", 255), None);
    assert_eq!(parse_number("1x", 255), None);
}

#[test]
fn words_are_split_at_spaces() {
    assert_eq!(split_words("  a\tb \u{3000}c\n"), vec!["a", "b", "c"]);
    assert_eq!(trim(" \ta b\u{A0} "), "a b");
}

#[test]
fn addresses_are_written_and_read() {
    assert_eq!(Ipv4Addr::new(192, 0, 2, 1).to_string(), "192.0.2.1");
    assert_eq!(Ipv4Addr::from_text("192.0.2.1"), Some(Ipv4Addr::new(192, 0, 2, 1)));
    assert_eq!(Ipv4Addr::from_text("192.0.2.256"), None);
    let a = Ipv6Addr::new(0x2001, 0xdb8, 0, 0, 1, 0, 0, 1);
    assert_eq!(a.to_string(), "2001:db8::1:0:0:1");
    assert_eq!(Ipv6Addr::from_text("2001:db8::1:0:0:1"), Some(a));
    assert_eq!(a.segments(), vec![0x2001, 0xdb8, 0, 0, 1, 0, 0, 1]);
    assert_eq!(Ipv6Addr::from_text("::1").unwrap().to_string(), "::1");
    let end = SocketAddr::new(IpAddr::V4(Ipv4Addr::new(192, 0, 2, 1)), 53);
    assert_eq!(end.to_string(), "192.0.2.1:53");
    assert_eq!(
        Ipv4Addr::new(1, 2, 3, 4).to_ipv6_mapped(),
        Ipv6Addr::new(0, 0, 0, 0, 0, 0xFFFF, 0x0102, 0x0304)
    );
}
