//! Name compression.

use dnsmasq_dns::compression::{
    decode_compression_pointer, encode_compression_pointer, CompressionContext, CompressionError,
    LabelType,
};
use dnsmasq_dns::parser::extract_name;

#[test]
fn test_label_type_from_byte() {
    assert_eq!(LabelType::from_byte(0x00), LabelType::Normal);
    assert_eq!(LabelType::from_byte(0x3F), LabelType::Normal);
    assert_eq!(LabelType::from_byte(0xC0), LabelType::Pointer);
    assert_eq!(LabelType::from_byte(0xFF), LabelType::Pointer);
    assert_eq!(LabelType::from_byte(0x40), LabelType::Extended);
    assert_eq!(LabelType::from_byte(0x7F), LabelType::Extended);
    assert_eq!(LabelType::from_byte(0x80), LabelType::Reserved);
    assert_eq!(LabelType::from_byte(0xBF), LabelType::Reserved);
}

#[test]
fn test_label_type_is_valid() {
    assert!(LabelType::Normal.is_valid());
    assert!(LabelType::Pointer.is_valid());
    assert!(!LabelType::Extended.is_valid());
    assert!(!LabelType::Reserved.is_valid());
}

#[test]
fn test_decode_compression_pointer() {
    assert_eq!(decode_compression_pointer(0xC0, 0x0C), 12);
    assert_eq!(decode_compression_pointer(0xC0, 0xFF), 255);
    assert_eq!(decode_compression_pointer(0xFF, 0xFF), 0x3FFF);
    assert_eq!(decode_compression_pointer(0xD0, 0x00), 4096);
}

#[test]
fn test_encode_compression_pointer() {
    assert_eq!(encode_compression_pointer(12).unwrap(), [0xC0, 0x0C]);
    assert_eq!(encode_compression_pointer(255).unwrap(), [0xC0, 0xFF]);
    assert_eq!(encode_compression_pointer(0x3FFF).unwrap(), [0xFF, 0xFF]);
    assert!(encode_compression_pointer(0x4000).is_err());
}

#[test]
fn test_encode_decode_roundtrip() {
    for offset in [0, 12, 255, 1000, 16383] {
        let encoded = encode_compression_pointer(offset).unwrap();
        let decoded = decode_compression_pointer(encoded[0], encoded[1]);
        assert_eq!(decoded, offset);
    }
}

#[test]
fn test_compression_context_add_label() {
    let mut ctx = CompressionContext::new();

    assert!(ctx.add_label("example.com".to_string(), 12));
    assert!(ctx.add_label("test.com".to_string(), 50));
    assert!(!ctx.add_label("toolarge.com".to_string(), 0x4000));
}

#[test]
fn test_compression_context_find_suffix() {
    let mut ctx = CompressionContext::new();

    ctx.add_label("example.com".to_string(), 12);
    assert_eq!(ctx.find_suffix("example.com"), Some(12));
    assert_eq!(ctx.find_suffix("com"), Some(20));
    assert_eq!(ctx.find_suffix("notfound.com"), None);
}

#[test]
fn test_compression_context_suffix_matching() {
    let mut ctx = CompressionContext::new();

    ctx.add_label("mail.example.com".to_string(), 12);
    assert_eq!(ctx.find_suffix("mail.example.com"), Some(12));
    assert_eq!(ctx.find_suffix("example.com"), Some(17));
    assert_eq!(ctx.find_suffix("com"), Some(25));
    assert_eq!(ctx.find_suffix("www.example.com"), Some(17));
}

#[test]
fn test_compression_context_create_pointer() {
    let mut ctx = CompressionContext::new();

    ctx.add_label("example.com".to_string(), 12);
    match ctx.create_pointer("example.com") {
        Some(Ok(pointer)) => {
            assert_eq!(pointer, [0xC0, 0x0C]);
        }
        _ => panic!("Expected successful pointer creation"),
    }
    assert!(ctx.create_pointer("notfound.com").is_none());
}

#[test]
fn test_compression_context_clear() {
    let mut ctx = CompressionContext::new();

    ctx.add_label("example.com".to_string(), 12);
    assert!(ctx.find_suffix("example.com").is_some());

    ctx.clear();
    assert!(ctx.find_suffix("example.com").is_none());
}

#[test]
fn test_follow_pointer_simple() {
    let mut ctx = CompressionContext::new();
    let mut packet = vec![0u8; 12]; // Header
    packet.extend_from_slice(&[7]); // length of "example"
    packet.extend_from_slice(b"example");
    packet.extend_from_slice(&[3]); // length of "com"
    packet.extend_from_slice(b"com");
    packet.extend_from_slice(&[0]); // end of name

    let name = ctx.follow_pointer(&packet, 12).unwrap();
    assert_eq!(name, "example.com");
}

#[test]
fn test_follow_pointer_with_compression() {
    let mut ctx = CompressionContext::new();
    let mut packet = vec![0u8; 12]; // Header
    packet.extend_from_slice(&[7]); // length of "example"
    packet.extend_from_slice(b"example");
    packet.extend_from_slice(&[3]); // length of "com"
    packet.extend_from_slice(b"com");
    packet.extend_from_slice(&[0]); // end of name
    packet.extend_from_slice(&[3]); // length of "www"
    packet.extend_from_slice(b"www");
    packet.extend_from_slice(&[0xC0, 0x0C]); // pointer to offset 12

    let name = ctx.follow_pointer(&packet, 24).unwrap();
    assert_eq!(name, "www.example.com");
}

#[test]
fn test_follow_pointer_cycle_detection() {
    let ctx = CompressionContext::new();
    let mut packet = vec![0u8; 12]; // Header
    packet.extend_from_slice(&[0xC0, 0x0C]); // pointer to offset 12 (itself)

    let result = ctx.follow_pointer(&packet, 12);
    assert!(matches!(result, Err(CompressionError::CyclicPointer { .. })));
}

#[test]
fn test_follow_pointer_max_hops() {
    let ctx = CompressionContext::new();
    let mut packet = vec![0u8; 12]; // Header
    for i in 0..256 {
        let offset = 12 + i * 2;
        let next_offset = offset + 2;
        packet.extend_from_slice(&encode_compression_pointer(next_offset as u16).unwrap());
    }
    packet.extend_from_slice(&[7]); // length
    packet.extend_from_slice(b"example");
    packet.extend_from_slice(&[0]); // end

    let result = ctx.follow_pointer(&packet, 12);
    assert!(matches!(result, Err(CompressionError::ExceededMaxHops { .. })));
}

#[test]
fn test_follow_pointer_out_of_bounds() {
    let ctx = CompressionContext::new();

    let packet = vec![0u8; 20]; // Small packet
    let result = ctx.follow_pointer(&packet, 100);
    assert!(matches!(result, Err(CompressionError::OffsetOutOfBounds { .. })));
}

#[test]
fn test_follow_pointer_invalid_label_type() {
    let ctx = CompressionContext::new();
    let mut packet = vec![0u8; 12];
    packet.extend_from_slice(&[0x41]); // Extended label type

    let result = ctx.follow_pointer(&packet, 12);
    assert!(matches!(result, Err(CompressionError::InvalidLabelType { .. })));
}

#[test]
fn test_follow_pointer_label_too_long() {
    let ctx = CompressionContext::new();
    let mut packet = vec![0u8; 12];
    packet.extend_from_slice(&[64]); // Invalid: exceeds MAXLABEL (63)

    let result = ctx.follow_pointer(&packet, 12);
    assert!(matches!(result, Err(CompressionError::LabelTooLong { .. })));
}

#[test]
fn test_compression_error_display() {
    let err = CompressionError::CyclicPointer { offset: 12 };
    assert!(err.to_string().contains("Cyclic"));

    let err = CompressionError::InvalidLabelType { label_type: 0x40 };
    assert!(err.to_string().contains("Invalid"));

    let err = CompressionError::ExceededMaxHops { hops: 256 };
    assert!(err.to_string().contains("Exceeded"));

    let err = CompressionError::OffsetOutOfBounds { offset: 100, packet_len: 50 };
    assert!(err.to_string().contains("exceeds"));

    let err = CompressionError::NameTooLong { length: 2000 };
    assert!(err.to_string().contains("MAXDNAME"));

    let err = CompressionError::LabelTooLong { length: 100 };
    assert!(err.to_string().contains("MAXLABEL"));
}

#[test]
fn pointer_beyond_the_message_is_refused() {
    let ctx = CompressionContext::new();
    let packet = vec![0xC0, 0x40];
    assert!(matches!(
        ctx.follow_pointer(&packet, 0),
        Err(CompressionError::OffsetOutOfBounds { offset: 64, .. })
    ));
}

#[test]
fn too_large_an_offset_cannot_be_encoded() {
    assert!(matches!(
        encode_compression_pointer(0xFFFF),
        Err(CompressionError::OffsetOutOfBounds { offset: 65535, .. })
    ));
}

#[test]
fn long_compressed_name_is_refused() {
    let ctx = CompressionContext::new();
    let mut packet = Vec::new();
    for _ in 0..20 {
        packet.push(63);
        packet.extend_from_slice(&[b'a'; 63]);
    }
    packet.push(0);
    assert!(matches!(ctx.follow_pointer(&packet, 0), Err(CompressionError::NameTooLong { .. })));
}

#[test]
fn first_place_of_a_name_is_kept() {
    let mut ctx = CompressionContext::new();
    assert!(ctx.add_label("a.test".to_string(), 12));
    ctx.add_label("b.test".to_string(), 40);
    assert_eq!(ctx.find_suffix("test"), Some(14));
    assert_eq!(ctx.find_suffix("b.test"), Some(40));
}

#[test]
fn bytes_that_are_no_text_are_replaced() {
    let ctx = CompressionContext::new();
    let name = ctx.follow_pointer(&[2, 0xFF, b'a', 0], 0).unwrap();
    assert_eq!(name, "\u{FFFD}a");
}

#[test]
fn new_context_is_the_default() {
    assert_eq!(CompressionContext::default().find_suffix("com"), None);
}

#[test]
fn names_are_followed_through_pointers() {
    let ctx = CompressionContext::new();
    let mut packet = b"\x07example\x03com\x00".to_vec();
    let start = packet.len();
    packet.extend_from_slice(b"\x04mail\x03www");
    packet.extend_from_slice(&encode_compression_pointer(0).unwrap());
    assert_eq!(ctx.follow_pointer(&packet, start).unwrap(), "mail.www.example.com");
    assert_eq!(ctx.follow_pointer(&packet, 8).unwrap(), "com");
}

#[test]
fn zero_byte_is_the_root() {
    let ctx = CompressionContext::new();
    assert_eq!(ctx.follow_pointer(&[0, 1, b'a', 0], 0).unwrap(), "");
    assert_eq!(ctx.follow_pointer(&[0, 5], 0).unwrap(), "");
    let mut packet = vec![0u8; 12];
    packet.extend_from_slice(b"\x01a\x00\x01b\x00\x01c\x00");
    assert_eq!(ctx.follow_pointer(&packet, 14).unwrap(), "b");
    assert_eq!(ctx.follow_pointer(&packet, 17).unwrap(), "");
    packet[12] = 0;
    assert_eq!(ctx.follow_pointer(&packet, 14).unwrap(), "");
}

#[test]
fn followed_name_is_also_read() {
    let ctx = CompressionContext::new();
    let packet = b"\x07example\x03com\x00\x03www\xC0\x00\x04mail\xC0\x0D\x00\x05";
    for start in [0usize, 8, 12, 13, 19, 26] {
        let name = ctx.follow_pointer(packet, start).unwrap();
        let (_, read) = extract_name(packet, &packet[start..]).unwrap();
        assert_eq!(name, read);
        assert!(!name.ends_with('.'));
    }
}

#[test]
fn each_suffix_is_found_where_it_was_written() {
    let mut ctx = CompressionContext::new();
    assert!(ctx.add_label("org".to_string(), 12));
    assert!(ctx.add_label("mail.\u{e9}x.org".to_string(), 100));
    assert_eq!(ctx.find_suffix("mail.\u{e9}x.org"), Some(100));
    assert_eq!(ctx.find_suffix("\u{e9}x.org"), Some(105));
    assert_eq!(ctx.find_suffix("org"), Some(12));
    assert!(!ctx.add_label("www.net".to_string(), 0x4000));
    assert_eq!(ctx.find_suffix("www.net"), None);
    assert_eq!(ctx.find_suffix("net"), None);
}
