//! EDNS0 options.

use bytes::BytesMut;
use dnsmasq_dns::addr::{IpAddr, Ipv4Addr, Ipv6Addr, SocketAddr};
use dnsmasq_dns::edns0::{
    add_do_bit, add_edns0_config, add_opt_record_to_end, add_pseudoheader, add_source_addr_option,
    calc_subnet_opt, check_source, find_pseudoheader, parse_subnet_option, ClientSubnet,
    DaemonOptions, Edns0Error, Edns0Option, Edns0OptionCode,
};
use dnsmasq_dns::protocol::T_OPT;

#[test]
fn test_find_pseudoheader_no_opt() {
    let packet = [
        0x00, 0x01, // ID
        0x01, 0x00, // Flags (standard query)
        0x00, 0x01, // QDCOUNT = 1
        0x00, 0x00, // ANCOUNT = 0
        0x00, 0x00, // NSCOUNT = 0
        0x00, 0x00, // ARCOUNT = 0
        0x07, b'e', b'x', b'a', b'm', b'p', b'l', b'e', 0x03, b'c', b'o', b'm', 0x00, 0x00,
        0x01, 0x00, 0x01,
    ];

    let result = find_pseudoheader(&packet, false);
    assert!(result.is_ok());
    assert!(result.unwrap().is_none());
}

#[test]
fn test_calc_subnet_opt_ipv4() {
    let addr = IpAddr::V4(Ipv4Addr::new(192, 168, 1, 100));
    let data = calc_subnet_opt(&addr, 24);
    assert_eq!(data.len(), 7);
    assert_eq!(u16::from_be_bytes([data[0], data[1]]), 1); // IPv4
    assert_eq!(data[2], 24); // source netmask
    assert_eq!(data[3], 0); // scope netmask
    assert_eq!(data[4], 192);
    assert_eq!(data[5], 168);
    assert_eq!(data[6], 1);
}

#[test]
fn test_calc_subnet_opt_ipv6() {
    let addr = IpAddr::V6(Ipv6Addr::new(0x2001, 0xdb8, 0, 0, 0, 0, 0, 1));
    let data = calc_subnet_opt(&addr, 56);
    assert_eq!(data.len(), 11);
    assert_eq!(u16::from_be_bytes([data[0], data[1]]), 2); // IPv6
    assert_eq!(data[2], 56); // source netmask
    assert_eq!(data[3], 0); // scope netmask
    assert_eq!(data[4], 0x20);
    assert_eq!(data[5], 0x01);
    assert_eq!(data[6], 0x0d);
    assert_eq!(data[7], 0xb8);
}

#[test]
fn test_parse_subnet_option() {
    let data = vec![
        0x00, 0x01, // family = 1 (IPv4)
        24,   // source netmask
        0,    // scope netmask
        192, 168, 1, // address bytes
    ];

    let result = parse_subnet_option(&data);
    assert!(result.is_ok());

    let opt = result.unwrap();
    assert_eq!(opt.family, 1);
    assert_eq!(opt.source_netmask, 24);
    assert_eq!(opt.scope_netmask, 0);
    assert_eq!(opt.addr, vec![192, 168, 1]);
}

#[test]
fn test_add_opt_record_to_end() {
    let mut packet = BytesMut::from(&[
        0x00, 0x01, // ID
        0x01, 0x00, // Flags
        0x00, 0x00, // QDCOUNT
        0x00, 0x00, // ANCOUNT
        0x00, 0x00, // NSCOUNT
        0x00, 0x00, // ARCOUNT = 0
    ][..]);

    let options = vec![];
    let result = add_opt_record_to_end(&mut packet, 1232, &options);
    assert!(result.is_ok());
    assert_eq!(packet[10], 0x00);
    assert_eq!(packet[11], 0x01);
    assert_eq!(packet[12], 0x00); // root label
    assert_eq!(u16::from_be_bytes([packet[13], packet[14]]), T_OPT);
    assert_eq!(u16::from_be_bytes([packet[15], packet[16]]), 1232);
}

fn query() -> BytesMut {
    let mut packet = vec![0, 1, 1, 0, 0, 1, 0, 0, 0, 0, 0, 0];
    packet.extend_from_slice(&[1, b'a', 0, 0, 1, 0, 1]);
    BytesMut::from(&packet[..])
}

#[test]
fn added_record_is_found() {
    let mut packet = query();
    let options = vec![(8u16, vec![1, 2, 3])];
    let len = add_opt_record_to_end(&mut packet, 1232, &options).unwrap();
    assert_eq!(len, packet.len());
    assert_eq!(packet[19..], [0, 0, 41, 4, 208, 0, 0, 0, 0, 0, 7, 0, 8, 0, 3, 1, 2, 3]);
    assert_eq!(find_pseudoheader(&packet, false), Ok(Some((19, 1232, 0, 0))));
}

#[test]
fn do_bit_is_set_once() {
    let mut packet = query();
    add_do_bit(&mut packet, 1232).unwrap();
    assert_eq!(find_pseudoheader(&packet, false), Ok(Some((19, 1232, 0, 0x8000))));
    let before = packet.clone();
    add_do_bit(&mut packet, 1232).unwrap();
    assert_eq!(packet, before);
}

#[test]
fn option_is_added_replaced_and_deleted() {
    let mut packet = query();
    add_pseudoheader(&mut packet, 1232, &vec![(65001, vec![9])], 0, false).unwrap();
    assert_eq!(packet[packet.len() - 5..], [0xFD, 0xE9, 0, 1, 9]);
    add_pseudoheader(&mut packet, 1232, &vec![(65001, vec![7, 7])], 65001, true).unwrap();
    assert_eq!(packet[packet.len() - 8..], [0, 6, 0xFD, 0xE9, 0, 2, 7, 7]);
    assert_eq!(packet[11], 1);
    add_pseudoheader(&mut packet, 1232, &vec![], 65001, true).unwrap();
    assert_eq!(packet[packet.len() - 2..], [0, 0]);
}

#[test]
fn subnet_goes_both_ways() {
    let addr = IpAddr::V4(Ipv4Addr::new(192, 0, 2, 77));
    let subnet = ClientSubnet::from_addr(&addr, 32);
    assert_eq!(subnet.addr, vec![192, 0, 2, 77]);
    assert_eq!(subnet.to_addr(), Some((addr, 32)));
    let data = calc_subnet_opt(&addr, 32);
    assert_eq!(parse_subnet_option(&data), Ok(subnet.clone()));
    assert_eq!(Edns0Option::ClientSubnet(subnet).code(), 8);
    assert!(matches!(parse_subnet_option(&[0, 1]), Err(Edns0Error::InvalidOption { .. })));
}

#[test]
fn told_subnet_is_checked() {
    let mut packet = query();
    let addr = IpAddr::V4(Ipv4Addr::new(192, 0, 2, 77));
    let data = calc_subnet_opt(&addr, 24);
    add_opt_record_to_end(&mut packet, 1232, &vec![(8, data)]).unwrap();
    assert_eq!(check_source(&packet, &addr, 24), Ok(true));
    let other = IpAddr::V6(Ipv6Addr::new(1, 2, 3, 4, 5, 6, 7, 8));
    assert_eq!(check_source(&packet, &other, 24), Ok(false));
    let at = packet.len() - 4;
    packet[at] = 25;
    assert_eq!(check_source(&packet, &addr, 24), Ok(false));
    assert_eq!(check_source(&query(), &addr, 24), Ok(true));
}

#[test]
fn first_part_of_the_address_is_told() {
    let v4 = IpAddr::V4(Ipv4Addr::new(1, 2, 3, 4));
    assert_eq!(add_source_addr_option(&v4), vec![0, 1, 24, 0, 1, 2, 3]);
    let v6 = IpAddr::V6(Ipv6Addr::new(1, 0, 0, 0, 0, 0, 0, 2));
    assert_eq!(
        add_source_addr_option(&v6),
        vec![0, 2, 56, 0, 0, 1, 0, 0, 0, 0, 0]
    );
}

#[test]
fn configured_options_are_added() {
    let mut packet = query();
    let source = SocketAddr::new(IpAddr::V4(Ipv4Addr::new(10, 0, 0, 1)), 53);
    let options = DaemonOptions { add_mac: false, client_subnet: true };
    let len = add_edns0_config(&mut packet, 4096, &source, &options, 1232, &None, &None).unwrap();
    assert_eq!(len, packet.len());
    assert_eq!(packet[11], 1);
    assert!(find_pseudoheader(&packet, false).unwrap().is_some());

    let mut bare = query();
    let none = DaemonOptions { add_mac: false, client_subnet: false };
    add_edns0_config(&mut bare, 4096, &source, &none, 1232, &None, &None).unwrap();
    assert_eq!(bare.len(), query().len() + 11);
    assert_eq!(bare[19..], [0, 0, 41, 4, 208, 0, 0, 0, 0, 0, 0]);

    let mut small = query();
    assert!(matches!(
        add_edns0_config(&mut small, 20, &source, &options, 1232, &None, &None),
        Err(Edns0Error::BufferTooSmall { available: 20, .. })
    ));
}

#[test]
fn option_codes_go_both_ways() {
    for n in [1u16, 2, 3, 8, 9, 10, 11, 12, 13, 14, 15, 20292, 65001, 65073, 65074, 77] {
        let code = Edns0OptionCode::from(n);
        assert_eq!(u16::from(code), n);
    }
    assert_eq!(Edns0OptionCode::from(8), Edns0OptionCode::ClientSubnet);
    assert_eq!(Edns0OptionCode::from(77), Edns0OptionCode::Unknown(77));
}

#[test]
fn short_message_has_no_record() {
    assert!(find_pseudoheader(&[0; 5], false).is_err());
}
