//! Reading messages.

use dnsmasq_dns::addr::{IpAddr, Ipv4Addr, Ipv6Addr};
use dnsmasq_dns::parser::{
    extract_addresses, extract_name, extract_request, in_arpa_name_2_addr, skip_name,
    skip_questions, skip_section, ParseError,
};
use dnsmasq_dns::protocol::{C_IN, T_A};

#[test]
fn test_extract_name_simple() {
    let packet = vec![
        0x07, b'e', b'x', b'a', b'm', b'p', b'l', b'e',
        0x03, b'c', b'o', b'm',
        0x00,
    ];

    let result = extract_name(&packet, &packet);
    assert!(result.is_ok());
    let (remaining, name) = result.unwrap();
    assert_eq!(name, "example.com");
    assert_eq!(remaining.len(), 0);
}

#[test]
fn test_extract_name_compression() {
    let packet = vec![
        0x07, b'e', b'x', b'a', b'm', b'p', b'l', b'e',
        0x03, b'c', b'o', b'm',
        0x00,
        0x03, b'w', b'w', b'w',
        0xC0, 0x00, // Pointer to offset 0
    ];
    let result = extract_name(&packet, &packet[13..]);
    assert!(result.is_ok());
    let (_, name) = result.unwrap();
    assert_eq!(name, "www.example.com");
}

#[test]
fn test_in_arpa_name_2_addr_ipv4() {
    let result = in_arpa_name_2_addr("4.3.2.1.in-addr.arpa");
    assert!(result.is_ok());
    match result.unwrap() {
        IpAddr::V4(addr) => assert_eq!(addr.to_string(), "1.2.3.4"),
        _ => panic!("Expected IPv4 address"),
    }
}

#[test]
fn test_skip_name() {
    let packet = vec![
        0x07, b'e', b'x', b'a', b'm', b'p', b'l', b'e',
        0x03, b'c', b'o', b'm',
        0x00,
        0x01, 0x02, // Extra bytes after name
    ];

    let result = skip_name(&packet, &packet);
    assert!(result.is_ok());
    let remaining = result.unwrap();
    assert_eq!(remaining, &[0x01, 0x02]);
}

#[test]
fn test_extract_request() {
    let packet = vec![
        0x12, 0x34, // ID
        0x01, 0x00, // Flags: standard query
        0x00, 0x01, // QDCOUNT: 1
        0x00, 0x00, // ANCOUNT: 0
        0x00, 0x00, // NSCOUNT: 0
        0x00, 0x00, // ARCOUNT: 0
        0x07, b'e', b'x', b'a', b'm', b'p', b'l', b'e',
        0x03, b'c', b'o', b'm',
        0x00,
        0x00, 0x01, // QTYPE: A
        0x00, 0x01, // QCLASS: IN
    ];

    let result = extract_request(&packet);
    assert!(result.is_ok());
    let (name, qtype, qclass) = result.unwrap();
    assert_eq!(name, "example.com");
    assert_eq!(qtype, T_A);
    assert_eq!(qclass, C_IN);
}

fn v4(s: &str) -> IpAddr {
    IpAddr::V4(Ipv4Addr::from_text(s).unwrap())
}

#[test]
fn pointer_to_itself_is_refused() {
    let packet = [0xC0, 0x00];
    assert!(matches!(
        extract_name(&packet, &packet),
        Err(ParseError::CompressionLoop { .. })
    ));
}

#[test]
fn other_label_types_are_refused() {
    let packet = [0x41, 0x00];
    assert!(matches!(
        extract_name(&packet, &packet),
        Err(ParseError::InvalidLabelType { .. })
    ));
}

#[test]
fn name_that_is_cut_short_is_refused() {
    let packet = [5, b'a', b'b'];
    assert!(matches!(extract_name(&packet, &packet), Err(ParseError::InvalidLength { .. })));
    assert!(matches!(skip_name(&packet, &packet), Err(ParseError::InvalidLength { .. })));
}

#[test]
fn long_name_is_refused() {
    let mut packet = Vec::new();
    for _ in 0..30 {
        packet.push(63);
        packet.extend_from_slice(&[b'a'; 63]);
    }
    packet.push(0);
    assert!(matches!(extract_name(&packet, &packet), Err(ParseError::NameTooLong { .. })));
}

#[test]
fn request_with_two_questions_is_refused() {
    let mut packet = vec![0u8; 12];
    packet[5] = 2;
    match extract_request(&packet) {
        Err(e) => assert_eq!(
            e,
            ParseError::MalformedPacket {
                reason: "Expected exactly 1 question, got 2".to_string()
            }
        ),
        Ok(_) => panic!("Expected an error"),
    }
    assert!(matches!(
        extract_request(&packet[..5]),
        Err(ParseError::InvalidLength { expected: 12, actual: 5 })
    ));
}

#[test]
fn request_with_another_operation_is_refused() {
    let mut packet = vec![0u8; 12];
    packet[5] = 1;
    packet[2] = 2 << 3;
    assert_eq!(
        extract_request(&packet).err(),
        Some(ParseError::MalformedPacket {
            reason: "Expected QUERY opcode (0), got 2".to_string()
        })
    );
}

fn answers() -> Vec<u8> {
    let mut packet = vec![0u8; 12];
    packet.extend_from_slice(&[1, b'a', 0, 0, 1, 0, 1]);
    packet.extend_from_slice(&[0xC0, 12, 0, 1, 0, 1, 0, 0, 0, 60, 0, 4, 192, 0, 2, 7]);
    packet.extend_from_slice(&[0xC0, 12, 0, 5, 0, 1, 0, 0, 0, 60, 0, 2, 0xC0, 12]);
    packet.extend_from_slice(&[0xC0, 12, 0, 28, 0, 1, 0, 0, 0, 60, 0, 16]);
    packet.extend_from_slice(&[0x20, 1, 0x0d, 0xb8, 0, 0, 0, 0, 0, 0, 0, 0, 0, 0, 0, 1]);
    packet
}

#[test]
fn sections_are_skipped() {
    let packet = answers();
    let rest = skip_questions(&packet, &packet[12..], 1).unwrap();
    assert_eq!(rest.len(), packet.len() - 19);
    let rest = skip_section(&packet, rest, 3).unwrap();
    assert_eq!(rest.len(), 0);
    assert!(skip_section(&packet, rest, 1).is_err());
}

#[test]
fn addresses_are_extracted() {
    let packet = answers();
    let (rest, found) = extract_addresses(&packet, &packet[19..], 3).unwrap();
    assert_eq!(rest.len(), 0);
    assert_eq!(
        found,
        vec![v4("192.0.2.7"), IpAddr::V6(Ipv6Addr::new(0x2001, 0xdb8, 0, 0, 0, 0, 0, 1))]
    );
}

#[test]
fn reverse_name_of_ipv6_is_read() {
    let name = "1.0.0.0.0.0.0.0.0.0.0.0.0.0.0.0.0.0.0.0.0.0.0.0.8.b.d.0.1.0.0.2.ip6.arpa";
    assert_eq!(
        in_arpa_name_2_addr(name),
        Ok(IpAddr::V6(Ipv6Addr::new(0x2001, 0xdb8, 0, 0, 0, 0, 0, 1)))
    );
    assert!(matches!(
        in_arpa_name_2_addr("example.com"),
        Err(ParseError::InvalidArpaName { .. })
    ));
}

#[test]
fn parse_errors_have_texts() {
    let err = ParseError::InvalidLength { expected: 12, actual: 5 };
    assert!(err.to_string().contains("12"));
    assert_eq!(err.debug_text(), format!("{:?}", err));
    let err = ParseError::MalformedPacket { reason: "two".to_string() };
    assert_eq!(err.debug_text(), format!("{:?}", err));
}
