//! Digests of questions.

use dnsmasq_dns::hash::{hash_questions, hash_questions_init, SHA256_DIGEST_SIZE};

#[test]
fn test_hash_questions_init() {
    hash_questions_init();
}

#[test]
fn test_digest_size_constant() {
    assert_eq!(SHA256_DIGEST_SIZE, 32);
}

#[test]
fn test_hash_questions_too_short() {
    let short_packet = [0u8; 5]; // Less than 12-byte header
    assert_eq!(hash_questions(&short_packet), None);
}

#[test]
fn test_hash_questions_zero_questions() {
    let packet = [
        0x12, 0x34, // Transaction ID
        0x01, 0x00, // Flags (standard query)
        0x00, 0x00, // QDCOUNT = 0
        0x00, 0x00, // ANCOUNT
        0x00, 0x00, // NSCOUNT
        0x00, 0x00, // ARCOUNT
    ];
    let digest = hash_questions(&packet);
    assert!(digest.is_some());
    assert_eq!(digest.unwrap().len(), SHA256_DIGEST_SIZE);
}

#[test]
fn test_hash_questions_single_question() {
    let packet = vec![
        0x12, 0x34, // Transaction ID
        0x01, 0x00, // Flags (standard query)
        0x00, 0x01, // QDCOUNT = 1
        0x00, 0x00, // ANCOUNT
        0x00, 0x00, // NSCOUNT
        0x00, 0x00, // ARCOUNT
        0x07, b'e', b'x', b'a', b'm', b'p', b'l', b'e',
        0x03, b'c', b'o', b'm',
        0x00, // End of name
        0x00, 0x01, // QTYPE = A (1)
        0x00, 0x01, // QCLASS = IN (1)
    ];

    let digest = hash_questions(&packet);
    assert!(digest.is_some());
    assert_eq!(digest.unwrap().len(), SHA256_DIGEST_SIZE);
}

#[test]
fn test_hash_questions_multiple_questions() {
    let packet = vec![
        0x12, 0x34, // Transaction ID
        0x01, 0x00, // Flags
        0x00, 0x02, // QDCOUNT = 2
        0x00, 0x00, // ANCOUNT
        0x00, 0x00, // NSCOUNT
        0x00, 0x00, // ARCOUNT
        0x07, b'e', b'x', b'a', b'm', b'p', b'l', b'e',
        0x03, b'c', b'o', b'm',
        0x00,
        0x00, 0x01, // QTYPE = A
        0x00, 0x01, // QCLASS = IN
        0x04, b't', b'e', b's', b't',
        0x03, b'c', b'o', b'm',
        0x00,
        0x00, 0x1c, // QTYPE = AAAA (28)
        0x00, 0x01, // QCLASS = IN
    ];

    let digest = hash_questions(&packet);
    assert!(digest.is_some());
    assert_eq!(digest.unwrap().len(), SHA256_DIGEST_SIZE);
}

#[test]
fn test_case_normalization() {
    let packet1 = vec![
        0x12, 0x34, 0x01, 0x00,
        0x00, 0x01, 0x00, 0x00, 0x00, 0x00, 0x00, 0x00,
        0x07, b'E', b'X', b'A', b'M', b'P', b'L', b'E',
        0x03, b'C', b'O', b'M',
        0x00,
        0x00, 0x01, 0x00, 0x01,
    ];
    let packet2 = vec![
        0x12, 0x34, 0x01, 0x00,
        0x00, 0x01, 0x00, 0x00, 0x00, 0x00, 0x00, 0x00,
        0x07, b'e', b'x', b'a', b'm', b'p', b'l', b'e',
        0x03, b'c', b'o', b'm',
        0x00,
        0x00, 0x01, 0x00, 0x01,
    ];

    let digest1 = hash_questions(&packet1);
    let digest2 = hash_questions(&packet2);

    assert!(digest1.is_some());
    assert!(digest2.is_some());
    assert_eq!(digest1.unwrap(), digest2.unwrap());
}

#[test]
fn test_hash_questions_truncated() {
    let packet = vec![
        0x12, 0x34, 0x01, 0x00,
        0x00, 0x01, 0x00, 0x00, 0x00, 0x00, 0x00, 0x00,
        0x07, b'e', b'x', b'a', b'm', b'p', b'l', b'e',
    ];

    assert_eq!(hash_questions(&packet), None);
}

#[test]
fn test_hash_determinism() {
    let packet = vec![
        0x12, 0x34, 0x01, 0x00,
        0x00, 0x01, 0x00, 0x00, 0x00, 0x00, 0x00, 0x00,
        0x07, b'e', b'x', b'a', b'm', b'p', b'l', b'e',
        0x03, b'c', b'o', b'm',
        0x00,
        0x00, 0x01, 0x00, 0x01,
    ];

    let digest1 = hash_questions(&packet);
    let digest2 = hash_questions(&packet);

    assert_eq!(digest1, digest2);
}

#[test]
fn test_hash_uniqueness() {
    let packet1 = vec![
        0x12, 0x34, 0x01, 0x00,
        0x00, 0x01, 0x00, 0x00, 0x00, 0x00, 0x00, 0x00,
        0x07, b'e', b'x', b'a', b'm', b'p', b'l', b'e',
        0x03, b'c', b'o', b'm',
        0x00,
        0x00, 0x01, 0x00, 0x01,
    ];

    let packet2 = vec![
        0x12, 0x34, 0x01, 0x00,
        0x00, 0x01, 0x00, 0x00, 0x00, 0x00, 0x00, 0x00,
        0x04, b't', b'e', b's', b't',
        0x03, b'c', b'o', b'm',
        0x00,
        0x00, 0x01, 0x00, 0x01,
    ];

    let digest1 = hash_questions(&packet1);
    let digest2 = hash_questions(&packet2);

    assert_ne!(digest1.unwrap(), digest2.unwrap());
}

#[test]
fn digest_of_no_questions_is_that_of_no_bytes() {
    let digest = hash_questions(&[0u8; 12]).unwrap();
    assert_eq!(digest[..4], [0xe3, 0xb0, 0xc4, 0x42]);
    assert_eq!(digest[28..], [0x78, 0x52, 0xb8, 0x55]);
}

#[test]
fn type_counts_for_the_digest() {
    let mut packet = vec![0, 1, 1, 0, 0, 1, 0, 0, 0, 0, 0, 0, 1, b'a', 0, 0, 1, 0, 1];
    let first = hash_questions(&packet);
    packet[16] = 28;
    assert_ne!(first, hash_questions(&packet));
    packet[16] = 1;
    packet[0] = 77;
    assert_eq!(first, hash_questions(&packet));
}
