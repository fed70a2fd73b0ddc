//! DNSSEC: keys, signatures, trust anchors and validation.

use data_encoding::BASE32HEX_NOPAD;
use dnsmasq_dns::blockdata::BlockData;
use dnsmasq_dns::cache::Cache;
use dnsmasq_dns::cache_types::{
    CacheFlags, CacheRecord, CacheRecordData, DnsKeyData, F_DNSSECOK, NANOS_PER_SEC,
};
use dnsmasq_dns::dnssec::base64;
use dnsmasq_dns::dnssec::canonical::{
    count_labels, from_wire, get_rdata, read_data, serial_compare_32, sort_rrset, to_wire,
    RdataState, ResourceRecord, ALL_BYTES, SERIAL_EQ, SERIAL_GT, SERIAL_LT, SERIAL_UNDEF,
};
use dnsmasq_dns::dnssec::crypto::{split_rsa_key, CryptoError};
use dnsmasq_dns::dnssec::digests::{compute_digest, hash_name};
use dnsmasq_dns::dnssec::prelude;
use dnsmasq_dns::dnssec::trust_anchor::{
    is_check_date, SetupAction, SetupEvent, TrustAnchorError, DEFAULT_TIMESTAMP_EPOCH,
};
use dnsmasq_dns::dnssec::types::{seconds_of, DnssecFailure};
use dnsmasq_dns::dnssec::validator::{
    base32_decode, collect_signed_data, decoded_hash, find_signed_owner, validate_rrset,
    ValidationError,
};
use dnsmasq_dns::dnssec::{
    algo_digest_name, dnssec_validate_by_ds, dnssec_validate_ds, dnssec_validate_reply,
    ds_digest_name, nsec3_digest_name, setup_timestamp, verify, DigestType, DnsKey,
    DnssecAlgorithm, DsRecord, Nsec3Record, NsecRecord, RRSig, TimestampValidator,
    TrustAnchorStore, ValidationStatus,
};
use dnsmasq_dns::protocol::{T_A, T_DS};
use ring::rand::SystemRandom;
use ring::signature::{
    EcdsaKeyPair, Ed25519KeyPair, KeyPair, ECDSA_P256_SHA256_FIXED_SIGNING,
    ECDSA_P384_SHA384_FIXED_SIGNING,
};
use sha2::{Digest, Sha256, Sha384};
use std::time::{SystemTime, UNIX_EPOCH};

const SECOND: i128 = 1_000_000_000;

fn hex(s: &str) -> Vec<u8> {
    (0..s.len() / 2).map(|i| u8::from_str_radix(&s[2 * i..2 * i + 2], 16).unwrap()).collect()
}

const RSA_MODULUS: &str = "\
    eb1b75bf212c0301b9e7b76e5dd3aee844fd388c6da4a00981685e7c1683153716b42cb60a982c3e\
    7bed1daff6551082398b21581d09116615fdb1990c732efdd6fa8aea3890d7f7800fa96445c810d4\
    121e5ace153c68a7b1d6e288cffc9ac7ff466f1360f5738f822483c2c78e57137cfcb63d1ae924f9\
    00da16a1f2cf7f6321950b5063cd843bff9bc8109194d627efce9a02f1eb6ab3180b099f045cf7fa\
    8d0a180efb3a2e0dfb8342bba1673e6a8d308b55014df966d397a0e035da9d74546cae761eff29e7\
    a05efd4b7483d64c43355c436d9b4a6fd4d2b080ac3566c460416284515c2817351bdf994804fcf1\
    580f39e22bcc46168a6173dcce79fb4d";

const RSA_SHA1_SIGNATURE: &str = "\
    ae3daebbae3769cb69d6aeb390fa5f057f10d09560f91c8bfa2b89deeeabe8d2eb4e6dc2e0edc04f\
    8d8de3f45bd198a863908976adb4175778af994170aeca863c0a8ee4a130a4d31e54ca9722da5c73\
    38cb92374be558cbfdf9f32beaef88d068a4b5512933eeefae8d291b79e3ee03a6790aecdeb9ce85\
    f0ec442a755d00a558b9679fd3c186d4b3f098579c01e01b30c14a223f7092fb734f698a22368032\
    aa674ce88a2ce5af6eaec5541f352b9659aff449e17ecb4cab73ca1c3614ec3999e116c85c279436\
    8bcfeb9ebaba40d093dd9180520cac5792d5e3aa2c75d9babfe10ff64ed5022c3891ff688c16c9a0\
    77c0eb36c35d11e6ac675021374daf11";

const RSA_SHA256_SIGNATURE: &str = "\
    a7f94d41d191034079607d6fd0e2f1968efee007684f962264a73368aa8f5efe0a7376ae5e7ae1ae\
    e18f4d333df827c9c712dd9fb39a8d12361a602b0094bd686673d7d0cbf1d9364985dcc0571abb08\
    f7c074dd7adfbbe3fc121bb156aaa7cb5bff0015be49dec63fa4f853b5b9565df230933cb83a8b20\
    999922f3da135d3d593e8e7c70f5bead7b44c7f2966ab51c5f66a11a940cf52859b5b9f904af6837\
    679a2b60be5949f13380950e84e2ddb195d3d0cb153aba767fdbb42dbbcd8a579fb6a72cd48907b7\
    ca381c1e3048a68696deace11188879e75ebb245fe07aa0abec4012a199ed43e66fc4ced8f3562b8\
    65729d0f3f2a659f648225587dcbbd86";

const RSA_SHA512_SIGNATURE: &str = "\
    8607bdd8a2a98c9f2b5274f70c1a031d21b8e697227b00ec77225b60fabc21e2f5f1247ee82a2829\
    957cd6d0bfe01af345c5e213ddbaa46b2e61dc482033f7880d5b31698a5446c252d147b7cee5a253\
    f3a5e7eb4e6061cfa44db080f29f5cd33234376a03bee488b5a79d53d410c6261a94476fe7e62a28\
    8d37b56c8167043ae08727b2c1fcce15f601f601041ec496c8ce3f9b349f01c1f2639155eac472db\
    2d5224fc8d85efa684633a2ed8c4adfeaf7336a040b377c69def1e8b40d0b2c56c3950cfec7bc6f4\
    469b73f504a334d7150afd43b5dc59ac8aea7e1d261b780f79de716018c8701c5f54adbc2154e9cb\
    07bd45a8400850d44e2002f92fcd54a1";

/// The key of the signatures above: the exponent 65537 behind its length, then the
/// modulus.
fn rsa_key() -> BlockData {
    let mut key = vec![3, 1, 0, 1];
    key.extend_from_slice(&hex(RSA_MODULUS));
    BlockData::from_bytes(&key)
}

#[test]
fn test_algo_digest_name() {
    assert_eq!(algo_digest_name(DnssecAlgorithm::RsaSha1), Some("sha1"));
    assert_eq!(algo_digest_name(DnssecAlgorithm::RsaSha256), Some("sha256"));
    assert_eq!(algo_digest_name(DnssecAlgorithm::RsaSha512), Some("sha512"));
    assert_eq!(algo_digest_name(DnssecAlgorithm::EcdsaP256Sha256), Some("sha256"));
    assert_eq!(algo_digest_name(DnssecAlgorithm::EcdsaP384Sha384), Some("sha384"));
    assert_eq!(algo_digest_name(DnssecAlgorithm::Ed25519), Some("null"));
    assert_eq!(algo_digest_name(DnssecAlgorithm::Gost), Some("gost94"));
}

#[test]
fn test_ds_digest_name() {
    assert_eq!(ds_digest_name(1), Some("sha1"));
    assert_eq!(ds_digest_name(2), Some("sha256"));
    assert_eq!(ds_digest_name(3), Some("gost94"));
    assert_eq!(ds_digest_name(4), Some("sha384"));
    assert_eq!(ds_digest_name(99), None);
}

#[test]
fn test_nsec3_digest_name() {
    assert_eq!(nsec3_digest_name(1), Some("sha1"));
    assert_eq!(nsec3_digest_name(2), None);
    assert_eq!(nsec3_digest_name(99), None);
}

#[test]
fn test_crypto_error_display() {
    let err = CryptoError::UnsupportedAlgorithm { algo: 1 };
    assert!(err.to_string().contains("Unsupported"));

    let err = CryptoError::InvalidKeyLength {
        algo: DnssecAlgorithm::EcdsaP256Sha256,
        expected: 64,
        found: 32,
    };
    assert!(err.to_string().contains("Invalid key length"));
}

#[test]
fn test_verify_with_invalid_key_length() {
    let key = BlockData::from_bytes(&[0u8; 1]); // Too short
    let sig = &[0u8; 64];
    let digest = &[0u8; 32];

    let result = verify(&key, sig, digest, DnssecAlgorithm::RsaSha256);
    assert!(result.is_err());
    match result {
        Err(CryptoError::RsaKeyFormatError { .. }) => (),
        _ => panic!("Expected RsaKeyFormatError"),
    }
}

#[test]
fn test_ecdsa_verify_invalid_key_length() {
    let key = BlockData::from_bytes(&[0u8; 32]); // Wrong length for P-256
    let sig = &[0u8; 64];
    let digest = &[0u8; 32];

    let result = verify(&key, sig, digest, DnssecAlgorithm::EcdsaP256Sha256);
    assert!(result.is_err());
    match result {
        Err(CryptoError::InvalidKeyLength { .. }) => (),
        _ => panic!("Expected InvalidKeyLength"),
    }
}

#[test]
fn test_gost_returns_unsupported() {
    let key = BlockData::from_bytes(&[0u8; 64]);
    let sig = &[0u8; 64];
    let digest = &[0u8; 32];

    let result = verify(&key, sig, digest, DnssecAlgorithm::Gost);
    assert!(result.is_err());
    match result {
        Err(CryptoError::UnsupportedAlgorithm { algo: 12 }) => (),
        _ => panic!("Expected UnsupportedAlgorithm for GOST"),
    }
}

#[test]
fn mod_test_module_structure() {
}
#[test]
fn test_type_reexports() {
    let _status = ValidationStatus::Secure;
    let _digest = DigestType::SHA256;
    let _algo = DnssecAlgorithm::RsaSha256;
    match ValidationStatus::Secure {
        ValidationStatus::Secure => {},
        ValidationStatus::SecureWildcard => {},
        ValidationStatus::Insecure => {},
        ValidationStatus::Bogus(_) => {},
        ValidationStatus::NeedDs => {},
        ValidationStatus::NeedKey => {},
        ValidationStatus::Truncated => {},
        ValidationStatus::Okay => {},
        ValidationStatus::Abandoned => {},
    }
}
#[test]
fn test_trust_anchor_exports() {
    let _store = TrustAnchorStore::new();
    let _validator = TimestampValidator::new(None, false);
}
#[test]
fn test_crypto_exports() {
    let _f1 = algo_digest_name;
    let _f2 = ds_digest_name;
    let _f3 = nsec3_digest_name;
}
#[test]
fn test_validator_exports() {
    let _f1 = dnssec_validate_reply;
    let _f2 = dnssec_validate_by_ds;
    let _f3 = dnssec_validate_ds;
}
#[test]
fn test_prelude_module() {
    let _status = prelude::ValidationStatus::Secure;
    let _store = prelude::TrustAnchorStore::new();
    let _f = prelude::algo_digest_name;
}

#[test]
fn test_timestamp_validator_creation() {
    let validator = TimestampValidator::new(None, false);
    assert!(!validator.get_back_to_the_future_flag());
}

#[test]
fn test_is_check_date_no_timestamp_file() {
    let mut validator1 = TimestampValidator::new(None, false);
    assert!(validator1.is_check_date(1000000));

    let mut validator2 = TimestampValidator::new(None, true);
    assert!(!validator2.is_check_date(1000000));
}

#[test]
fn test_trust_anchor_store_creation() {
    let store = TrustAnchorStore::new();
    assert!(!store.has_trust_anchor("."));
    assert!(!store.has_trust_anchor("example.com"));
}

#[test]
fn test_trust_anchor_add_and_get() {
    let mut store = TrustAnchorStore::new();

    let key = DnsKey::new(
        257,
        3,
        DnssecAlgorithm::RsaSha256,
        vec![1, 2, 3, 4],
    );

    store.add_trust_anchor(String::from("."), key.clone());

    assert!(store.has_trust_anchor("."));
    assert!(store.get_trust_anchor(".").is_some());
    assert_eq!(store.get_trust_anchor(".").unwrap().len(), 1);
}

#[test]
fn test_trust_anchor_case_insensitive() {
    let mut store = TrustAnchorStore::new();

    let key = DnsKey::new(
        257,
        3,
        DnssecAlgorithm::RsaSha256,
        vec![1, 2, 3, 4],
    );

    store.add_trust_anchor(String::from("Example.COM"), key);

    assert!(store.has_trust_anchor("example.com"));
    assert!(store.has_trust_anchor("EXAMPLE.COM"));
    assert!(store.has_trust_anchor("ExAmPlE.cOm"));
}

#[test]
fn test_setup_timestamp_no_file() {
    let (_, action) = setup_timestamp(None, false);
    match action {
        SetupAction::Finish { result } => {
            assert!(result.is_ok());
            assert_eq!(result.unwrap(), 0);
        }
        _ => panic!("Expected the end"),
    }
}

#[test]
fn test_dnssec_algorithm_conversion() {
    assert_eq!(DnssecAlgorithm::from_u8(5), Some(DnssecAlgorithm::RsaSha1));
    assert_eq!(DnssecAlgorithm::from_u8(8), Some(DnssecAlgorithm::RsaSha256));
    assert_eq!(DnssecAlgorithm::from_u8(13), Some(DnssecAlgorithm::EcdsaP256Sha256));
    assert_eq!(DnssecAlgorithm::from_u8(255), None);

    assert_eq!(DnssecAlgorithm::RsaSha256.to_u8(), 8);
}

#[test]
fn test_digest_type_conversion() {
    assert_eq!(DigestType::from_u8(1), Some(DigestType::SHA1));
    assert_eq!(DigestType::from_u8(2), Some(DigestType::SHA256));
    assert_eq!(DigestType::from_u8(255), None);

    assert_eq!(DigestType::SHA256.to_u8(), 2);
}

#[test]
fn test_validation_status_is_secure() {
    assert!(ValidationStatus::Secure.is_secure());
    assert!(ValidationStatus::SecureWildcard.is_secure());
    assert!(!ValidationStatus::Insecure.is_secure());
    assert!(!ValidationStatus::Bogus(vec![]).is_secure());
}

#[test]
fn test_validation_status_is_bogus() {
    assert!(ValidationStatus::Bogus(vec![]).is_bogus());
    assert!(ValidationStatus::Bogus(vec![DnssecFailure::Expired]).is_bogus());
    assert!(!ValidationStatus::Secure.is_bogus());
}

#[test]
fn test_dnskey_keytag_calculation() {
    let key = DnsKey::new(
        256, // flags
        3,   // protocol
        DnssecAlgorithm::RsaSha256,
        vec![1, 2, 3, 4], // public key
    );
    let tag = key.keytag();
    assert_eq!(tag, 2062);
}

#[test]
fn test_rrsig_time_validation() {
    let now = u32::try_from(
        SystemTime::now()
            .duration_since(UNIX_EPOCH)
            .unwrap()
            .as_secs()
    ).unwrap_or(u32::MAX);

    let rrsig = RRSig::new(
        1, // A record
        DnssecAlgorithm::RsaSha256,
        2,
        300,
        now + 3600, // expires in 1 hour
        now - 3600, // inception 1 hour ago
        12345,
        "example.com".to_string(),
        vec![1, 2, 3],
    );

    assert!(!rrsig.is_expired());
    assert!(!rrsig.is_not_yet_valid());
}

#[test]
fn test_dnskey_wire_format_roundtrip() {
    let original = DnsKey::new(
        257,
        3,
        DnssecAlgorithm::RsaSha256,
        vec![1, 2, 3, 4, 5],
    );

    let wire = original.to_wire();
    let parsed = DnsKey::from_wire(&wire).expect("Failed to parse");

    assert_eq!(original, parsed);
}

#[test]
fn test_ds_record_wire_format_roundtrip() {
    let original = DsRecord::new(
        12345,
        DnssecAlgorithm::RsaSha256,
        DigestType::SHA256,
        vec![1, 2, 3, 4, 5, 6, 7, 8],
    );

    let wire = original.to_wire();
    let parsed = DsRecord::from_wire(&wire).expect("Failed to parse");

    assert_eq!(original, parsed);
}

#[test]
fn test_count_labels() {
    assert_eq!(count_labels("www.example.com"), 3);
    assert_eq!(count_labels(".example.com"), 2);
    assert_eq!(count_labels("example.com"), 2);
    assert_eq!(count_labels(""), 0);
}

#[test]
fn test_serial_compare() {
    assert_eq!(serial_compare_32(1, 1), SERIAL_EQ);
    assert_eq!(serial_compare_32(2, 1), SERIAL_GT);
    assert_eq!(serial_compare_32(1, 2), SERIAL_LT);
    assert_eq!(serial_compare_32(1, 0xFFFF_FFFF), SERIAL_GT);
}

#[test]
fn test_validation_basic() {
    let mut cache = Cache::new();
    let packet = vec![0u8; 512];

    let now = 1_700_000_000 * SECOND;
    match dnssec_validate_reply(&packet, "example.com", T_A, &mut cache, 0, now, true) {
        Ok(status) => {
            assert_eq!(status, ValidationStatus::Bogus(vec![DnssecFailure::Indeterminate]));
        }
        Err(_) => panic!("Expected a status"),
    }
}


#[test]
fn rsa_signatures_are_verified() {
    let key = rsa_key();
    let message = b"a message that is signed";
    let sha1 = hex(RSA_SHA1_SIGNATURE);
    let sha256 = hex(RSA_SHA256_SIGNATURE);
    let sha512 = hex(RSA_SHA512_SIGNATURE);
    assert_eq!(verify(&key, &sha1, message, DnssecAlgorithm::RsaSha1), Ok(()));
    assert_eq!(verify(&key, &sha256, message, DnssecAlgorithm::RsaSha256), Ok(()));
    assert_eq!(verify(&key, &sha512, message, DnssecAlgorithm::RsaSha512), Ok(()));
    assert_eq!(
        verify(&key, &sha256, b"another message", DnssecAlgorithm::RsaSha256),
        Err(CryptoError::VerificationFailed {
            algo: DnssecAlgorithm::RsaSha256,
            reason: "ring::error::Unspecified".to_string(),
        })
    );
    assert!(verify(&key, &sha256, message, DnssecAlgorithm::RsaSha1).is_err());
    assert!(verify(&key, &sha256, message, DnssecAlgorithm::RsaSha512).is_err());
}

#[test]
fn rsa_key_is_split() {
    let modulus = vec![9u8; 64];
    let mut short = vec![1, 3];
    short.extend_from_slice(&modulus);
    assert_eq!(split_rsa_key(&short).unwrap(), (vec![3], modulus.clone()));
    let mut long = vec![0, 0, 2, 1, 1];
    long.extend_from_slice(&modulus);
    assert_eq!(split_rsa_key(&long).unwrap(), (vec![1, 1], modulus));
    assert!(matches!(split_rsa_key(&[5, 1, 2]), Err(CryptoError::RsaKeyFormatError { .. })));
}

#[test]
fn ecdsa_signatures_are_verified() {
    let rng = SystemRandom::new();
    let message = b"a message that is signed";

    let document = EcdsaKeyPair::generate_pkcs8(&ECDSA_P256_SHA256_FIXED_SIGNING, &rng).unwrap();
    let pair =
        EcdsaKeyPair::from_pkcs8(&ECDSA_P256_SHA256_FIXED_SIGNING, document.as_ref(), &rng).unwrap();
    let key = BlockData::from_bytes(&pair.public_key().as_ref()[1..]);
    let sig = pair.sign(&rng, message).unwrap();
    assert_eq!(verify(&key, sig.as_ref(), message, DnssecAlgorithm::EcdsaP256Sha256), Ok(()));
    assert!(verify(&key, sig.as_ref(), b"other", DnssecAlgorithm::EcdsaP256Sha256).is_err());

    let document = EcdsaKeyPair::generate_pkcs8(&ECDSA_P384_SHA384_FIXED_SIGNING, &rng).unwrap();
    let pair =
        EcdsaKeyPair::from_pkcs8(&ECDSA_P384_SHA384_FIXED_SIGNING, document.as_ref(), &rng).unwrap();
    let key = BlockData::from_bytes(&pair.public_key().as_ref()[1..]);
    let sig = pair.sign(&rng, message).unwrap();
    assert_eq!(verify(&key, sig.as_ref(), message, DnssecAlgorithm::EcdsaP384Sha384), Ok(()));
    assert!(verify(&key, sig.as_ref(), b"other", DnssecAlgorithm::EcdsaP384Sha384).is_err());
}

#[test]
fn ed25519_signature_is_verified() {
    let key = BlockData::from_bytes(&hex(
        "d75a980182b10ab7d54bfed3c964073a0ee172f3daa62325af021a68f707511a",
    ));
    let sig = hex("e5564300c360ac729086e2cc806e828a84877f1eb8e5d974d873e065224901555fb8821590a33b\
         acc61e39701cf9b46bd25bf5f0595bbe24655141438e7a100b");
    assert_eq!(verify(&key, &sig, b"", DnssecAlgorithm::Ed25519), Ok(()));
    assert!(verify(&key, &sig, b"x", DnssecAlgorithm::Ed25519).is_err());
    assert_eq!(
        verify(&key, &sig[..63], b"", DnssecAlgorithm::Ed25519),
        Err(CryptoError::InvalidSignatureLength {
            algo: DnssecAlgorithm::Ed25519,
            expected: 64,
            found: 63,
        })
    );
}

#[test]
fn base64_is_decoded() {
    assert_eq!(base64::decode("").unwrap(), b"");
    assert_eq!(base64::decode("Zg==").unwrap(), b"f");
    assert_eq!(base64::decode("Zm8=").unwrap(), b"fo");
    assert_eq!(base64::decode("Zm9v").unwrap(), b"foo");
    assert_eq!(base64::decode("Zm9vYmFy").unwrap(), b"foobar");
    assert!(base64::decode("Zm9v!mFy").is_err());
}

#[test]
fn base32_is_decoded() {
    assert_eq!(base32_decode("MZXW6YTBOI").unwrap(), b"foobar");
    assert!(matches!(base32_decode("0"), Err(ValidationError::ProofFailed(_))));
    assert_eq!(
        decoded_hash(Err("bad".to_string())),
        Err(ValidationError::ProofFailed("Base32 decode error: bad".to_string()))
    );
}

#[test]
fn name_is_hashed_as_for_nsec3() {
    let hash = hash_name(b"\x07example\x00", &[0xaa, 0xbb, 0xcc, 0xdd], 12);
    assert_eq!(hash.to_vec(), hex("065368abeed7ec6e9feba96b8c8bc3e8b791f716"));
}

#[test]
fn key_digests_are_those_of_its_data() {
    let key = DnsKey::new(257, 3, DnssecAlgorithm::RsaSha256, vec![1, 2, 3, 4]);
    let wire = key.to_wire();
    assert_eq!(wire, vec![1, 1, 3, 8, 1, 2, 3, 4]);
    assert_eq!(compute_digest(&key, DigestType::SHA256).unwrap(), Sha256::digest(&wire).to_vec());
    assert_eq!(compute_digest(&key, DigestType::SHA384).unwrap(), Sha384::digest(&wire).to_vec());
    assert_eq!(
        compute_digest(&key, DigestType::SHA1).unwrap(),
        hex("d95abd10d897fc86e1070b4db22396be717dd6f7")
    );
    assert_eq!(compute_digest(&key, DigestType::GOST), None);
}

#[test]
fn keys_are_secure_by_their_own_digest() {
    let mut cache = Cache::new();
    let key = DnsKey::new(257, 3, DnssecAlgorithm::RsaSha256, vec![1, 2, 3, 4]);
    let digest = compute_digest(&key, DigestType::SHA256).unwrap();
    let ds = DsRecord::new(key.keytag(), DnssecAlgorithm::RsaSha256, DigestType::SHA256, digest);
    let wrong =
        DsRecord::new(key.keytag(), DnssecAlgorithm::RsaSha256, DigestType::SHA256, vec![0; 32]);
    let gost =
        DsRecord::new(key.keytag(), DnssecAlgorithm::RsaSha256, DigestType::GOST, vec![0; 32]);
    let keys = vec![key];
    assert_eq!(
        dnssec_validate_by_ds(&[], &keys, &vec![wrong.clone(), ds], &mut cache),
        Ok(ValidationStatus::Secure)
    );
    assert_eq!(
        dnssec_validate_by_ds(&[], &keys, &vec![wrong], &mut cache),
        Ok(ValidationStatus::Bogus(vec![]))
    );
    assert_eq!(
        dnssec_validate_by_ds(&[], &keys, &vec![], &mut cache),
        Ok(ValidationStatus::Insecure)
    );
    assert_eq!(
        dnssec_validate_by_ds(&[], &vec![], &vec![], &mut cache),
        Ok(ValidationStatus::Bogus(vec![DnssecFailure::Indeterminate]))
    );
    assert!(matches!(
        dnssec_validate_by_ds(&[], &keys, &vec![gost], &mut cache),
        Err(ValidationError::CryptoError(_))
    ));
}

fn signed(
    pair: &Ed25519KeyPair,
    covered: u16,
    rrset: &Vec<ResourceRecord>,
    tag: u16,
) -> RRSig {
    signed_for(pair, covered, rrset, tag, count_labels(&rrset[0].name) as u8)
}

fn signed_for(
    pair: &Ed25519KeyPair,
    covered: u16,
    rrset: &Vec<ResourceRecord>,
    tag: u16,
    labels: u8,
) -> RRSig {
    let mut sig = RRSig::new(
        covered,
        DnssecAlgorithm::Ed25519,
        labels,
        300,
        2000,
        1000,
        tag,
        "example.com".to_string(),
        vec![],
    );
    let data = collect_signed_data(&sig, rrset);
    sig.signature = pair.sign(&data).as_ref().to_vec();
    sig
}

#[test]
fn signed_records_are_validated() {
    let pair = Ed25519KeyPair::from_seed_unchecked(&[7; 32]).unwrap();
    let key =
        DnsKey::new(256, 3, DnssecAlgorithm::Ed25519, pair.public_key().as_ref().to_vec());
    let rrset = vec![ResourceRecord {
        name: "WWW.example.com".to_string(),
        rtype: T_A,
        class: 1,
        ttl: 60,
        rdlength: 4,
        rdata: vec![192, 0, 2, 1],
    }];
    let sig = signed(&pair, T_A, &rrset, key.keytag());
    assert_eq!(validate_rrset(&[], &sig, &key, &rrset, 1500 * SECOND, true), Ok(()));
    assert_eq!(
        validate_rrset(&[], &sig, &key, &rrset, 2001 * SECOND, true),
        Err(ValidationError::CryptoError("Signature outside validity period".to_string()))
    );
    assert_eq!(validate_rrset(&[], &sig, &key, &rrset, 2001 * SECOND, false), Ok(()));
    let mut other = rrset.clone();
    other[0].rdata = vec![192, 0, 2, 2];
    assert!(validate_rrset(&[], &sig, &key, &other, 1500 * SECOND, true).is_err());
    let mut lower = rrset.clone();
    lower[0].name = "www.example.com".to_string();
    assert_eq!(validate_rrset(&[], &sig, &key, &lower, 1500 * SECOND, true), Ok(()));
}

#[test]
fn signed_digests_are_validated() {
    let pair = Ed25519KeyPair::from_seed_unchecked(&[9; 32]).unwrap();
    let key =
        DnsKey::new(256, 3, DnssecAlgorithm::Ed25519, pair.public_key().as_ref().to_vec());
    let ds = DsRecord::new(1, DnssecAlgorithm::Ed25519, DigestType::SHA1, vec![5; 20]);
    let record = ResourceRecord {
        name: "child.example.com".to_string(),
        rtype: T_DS,
        class: 1,
        ttl: 300,
        rdlength: 24,
        rdata: ds.to_wire(),
    };
    let sig = signed(&pair, T_DS, &vec![record], key.keytag());
    let keys = vec![key];
    let check = |ds: &Vec<DsRecord>, sigs: &Vec<RRSig>, now: i128| {
        dnssec_validate_ds(&[], "child.example.com", ds, 300, sigs, &keys, now * SECOND, true)
    };
    let digests = vec![ds];
    let sigs = vec![sig];
    assert_eq!(check(&digests, &sigs, 1500), Ok(ValidationStatus::Secure));
    assert_eq!(check(&digests, &sigs, 500), Ok(ValidationStatus::Bogus(vec![])));
    assert_eq!(
        check(&digests, &vec![], 1500),
        Ok(ValidationStatus::Bogus(vec![DnssecFailure::NoSignatures]))
    );
    assert_eq!(
        check(&vec![], &sigs, 1500),
        Ok(ValidationStatus::Bogus(vec![DnssecFailure::Indeterminate]))
    );
}

#[test]
fn short_reply_is_refused() {
    let mut cache = Cache::new();
    assert_eq!(
        dnssec_validate_reply(&[0; 5], "example.com", T_A, &mut cache, 0, 0, true),
        Err(ValidationError::PacketTooShort { expected: 12, actual: 5 })
    );
}

#[test]
fn reply_needs_signatures_or_a_proof() {
    let mut cache = Cache::new();
    let head = |rcode: u8, an: u8, ns: u8| {
        let mut p = vec![0, 1, 0x81, 0x80 | rcode, 0, 1, 0, an, 0, ns, 0, 0];
        p.extend_from_slice(b"\x01a\x04test\x00\x00\x01\x00\x01");
        p
    };
    let record = |rtype: u8| {
        let mut r = vec![0xC0, 12, 0, rtype, 0, 1, 0, 0, 0, 60, 0, 18];
        r.extend_from_slice(&[7; 18]);
        r
    };
    let mut check = |p: Vec<u8>| {
        dnssec_validate_reply(&p, "a.test", T_A, &mut cache, 0, 0, true)
    };

    let mut plain = head(0, 1, 0);
    plain.extend_from_slice(&record(1));
    assert_eq!(check(plain), Ok(ValidationStatus::Bogus(vec![DnssecFailure::NoSignatures])));

    let mut with_signature = head(0, 2, 0);
    with_signature.extend_from_slice(&record(1));
    with_signature.extend_from_slice(&record(46));
    assert_eq!(check(with_signature), Ok(ValidationStatus::Bogus(vec![])));

    let mut signatures_alone = head(0, 1, 0);
    signatures_alone.extend_from_slice(&record(46));
    let open = Ok(ValidationStatus::Bogus(vec![DnssecFailure::Indeterminate]));
    assert_eq!(check(signatures_alone), open);

    let mut denied = head(3, 0, 1);
    denied.extend_from_slice(&record(47));
    assert_eq!(check(denied), Ok(ValidationStatus::Bogus(vec![])));

    let mut missing = head(3, 0, 1);
    missing.extend_from_slice(&record(6));
    assert_eq!(check(missing), Ok(ValidationStatus::Bogus(vec![DnssecFailure::NoNsec])));
}

fn push_record(packet: &mut Vec<u8>, name: &[u8], rtype: u16, rdata: &[u8]) {
    packet.extend_from_slice(name);
    packet.extend_from_slice(&rtype.to_be_bytes());
    packet.extend_from_slice(&[0, 1, 0, 0, 0, 60]);
    packet.extend_from_slice(&(rdata.len() as u16).to_be_bytes());
    packet.extend_from_slice(rdata);
}

fn key_record(key: &DnsKey, zone: &str, flags: u32) -> CacheRecord {
    CacheRecord::new(
        zone.to_string(),
        CacheRecordData::DnsKey(DnsKeyData::new(&key.public_key, 256, key.keytag(), 15)),
        300 * NANOS_PER_SEC,
        0,
        CacheFlags::from_bits(flags),
        0,
    )
}

#[test]
fn signed_reply_is_secure() {
    let pair = Ed25519KeyPair::from_seed_unchecked(&[7; 32]).unwrap();
    let key =
        DnsKey::new(256, 3, DnssecAlgorithm::Ed25519, pair.public_key().as_ref().to_vec());
    let a = |name: &str, last: u8| ResourceRecord {
        name: name.to_string(),
        rtype: T_A,
        class: 1,
        ttl: 60,
        rdlength: 4,
        rdata: vec![192, 0, 2, last],
    };
    let sorted = vec![a("www.example.com", 1), a("www.example.com", 2)];
    let sig = signed(&pair, T_A, &sorted, key.keytag());
    let reply = |last: u8, with: &RRSig, owner: &[u8]| {
        let mut p = vec![0, 1, 0x81, 0x80, 0, 1, 0, 3, 0, 0, 0, 0];
        p.extend_from_slice(b"\x03www\x07example\x03com\x00\x00\x01\x00\x01");
        push_record(&mut p, &[0xC0, 12], T_A, &[192, 0, 2, last]);
        push_record(&mut p, b"\x03WWW\x07Example\x03com\x00", T_A, &[192, 0, 2, 1]);
        push_record(&mut p, owner, 46, &with.to_wire());
        p
    };
    let www: &[u8] = &[0xC0, 12];
    let check = |cache: &mut Cache, p: &[u8], now: i128| {
        dnssec_validate_reply(p, "www.example.com", T_A, cache, 0, now * SECOND, true)
    };
    let bogus = Ok(ValidationStatus::Bogus(vec![]));

    let mut cache = Cache::new();
    assert_eq!(check(&mut cache, &reply(2, &sig, www), 1500), Ok(ValidationStatus::NeedKey));
    cache.insert(key_record(&key, "example.com", 0), 0).unwrap();
    assert_eq!(check(&mut cache, &reply(2, &sig, www), 1500), Ok(ValidationStatus::NeedKey));
    cache.insert(key_record(&key, "Example.com", F_DNSSECOK), 0).unwrap();
    assert_eq!(check(&mut cache, &reply(2, &sig, www), 1500), Ok(ValidationStatus::Secure));
    assert_eq!(check(&mut cache, &reply(3, &sig, www), 1500), bogus);
    assert_eq!(check(&mut cache, &reply(2, &sig, www), 2001), bogus);
    assert_eq!(check(&mut cache, &reply(2, &sig, b"\x01x\xC0\x10"), 1500), bogus);
    let mut cut = reply(2, &sig, www);
    cut[7] = 4;
    assert_eq!(check(&mut cache, &cut, 1500), bogus);

    let mut other = sig.clone();
    other.signer_name = "other.com".to_string();
    let revoked = CacheRecord::new(
        "example.com".to_string(),
        CacheRecordData::DnsKey(DnsKeyData::new(&key.public_key, 256 + 128, key.keytag(), 15)),
        300 * NANOS_PER_SEC,
        0,
        CacheFlags::from_bits(F_DNSSECOK),
        0,
    );
    let mut no_zone_key = Cache::new();
    no_zone_key.insert(revoked, 0).unwrap();
    assert_eq!(check(&mut no_zone_key, &reply(2, &sig, www), 1500), Ok(ValidationStatus::NeedKey));
    let data = collect_signed_data(&other, &sorted);
    other.signature = pair.sign(&data).as_ref().to_vec();
    cache.insert(key_record(&key, "other.com", F_DNSSECOK), 0).unwrap();
    assert_eq!(check(&mut cache, &reply(2, &other, www), 1500), bogus);
}

#[test]
fn records_round_trip() {
    let sig = RRSig::new(
        1,
        DnssecAlgorithm::RsaSha256,
        2,
        300,
        2000,
        1000,
        77,
        "example.com".to_string(),
        vec![1, 2, 3],
    );
    assert_eq!(RRSig::from_wire(&sig.to_wire()), Ok(sig.clone()));
    assert!(sig.is_expired_at(2001) && !sig.is_expired_at(2000));
    assert!(sig.is_not_yet_valid_at(999) && !sig.is_not_yet_valid_at(1000));

    let nsec = NsecRecord::new("b.example.com".to_string(), vec![0, 1, 0x40]);
    assert_eq!(NsecRecord::from_wire(&nsec.to_wire()), Ok(nsec.clone()));
    assert!(nsec.covers_type(1));
    assert!(!nsec.covers_type(2));

    let nsec3 = Nsec3Record::new(1, 0, 12, vec![0xaa], vec![9; 20], vec![0, 1, 0x40]);
    assert_eq!(Nsec3Record::from_wire(&nsec3.to_wire()), Ok(nsec3.clone()));
    assert!(nsec3.covers_type(1));
}

#[test]
fn names_go_to_the_wire_and_back() {
    let mut name = b"WWW.Example.com".to_vec();
    assert_eq!(to_wire(&mut name), 17);
    assert_eq!(name, b"\x03www\x07example\x03com\x00");
    from_wire(&mut name);
    assert_eq!(name, b"www.example.com");
}

#[test]
fn serial_half_way_round_is_undefined() {
    assert_eq!(serial_compare_32(0, 0x8000_0000), SERIAL_UNDEF);
    assert_eq!(serial_compare_32(0xFFFF_FFFF, 1), SERIAL_LT);
}

#[test]
fn record_data_is_read_in_canonical_form() {
    let packet = [0, 10, 3, b'W', b'w', b'W', 0, 9];
    let mut state = RdataState::new(0, packet.len(), vec![2, 0, ALL_BYTES]);
    let mut bytes = Vec::new();
    while get_rdata(&packet, &mut state) {
        bytes.push(state.op.unwrap());
    }
    assert_eq!(bytes, vec![0, 10, 3, b'w', b'w', b'w', 0, 9]);
}

#[test]
fn records_are_sorted_by_their_data() {
    let record = |data: Vec<u8>| ResourceRecord {
        name: "a".to_string(),
        rtype: T_A,
        class: 1,
        ttl: 0,
        rdlength: data.len() as u16,
        rdata: data,
    };
    let mut rrset = vec![record(vec![2]), record(vec![1, 1]), record(vec![1])];
    sort_rrset(&mut rrset);
    let sorted: Vec<Vec<u8>> = rrset.iter().map(|r| r.rdata.clone()).collect();
    assert_eq!(sorted, vec![vec![1], vec![1, 1], vec![2]]);
}

#[test]
fn trust_anchors_are_loaded() {
    let mut store = TrustAnchorStore::new();
    let lines = vec![
        "; the root".to_string(),
        "".to_string(),
        ". IN DNSKEY 257 3 8 AQIDBA==".to_string(),
    ];
    let r = store.load_from_lines("anchors", &lines);
    assert!(r.is_ok());
    let keys = store.get_trust_anchor(".").unwrap();
    assert_eq!(keys.len(), 1);
    assert_eq!(keys[0].public_key(), &[1, 2, 3, 4]);
    let key = DnsKey::new(257, 3, DnssecAlgorithm::RsaSha256, vec![1, 2, 3, 4]);
    assert!(store.validate_trust_anchor(".", &key).is_ok());

    let bad = vec![". IN DNSKEY 257 3 8 AQIDBA==".to_string(), "example.com IN A".to_string()];
    match store.load_from_lines("anchors", &bad) {
        Err(TrustAnchorError::ParseError { path, line, .. }) => {
            assert_eq!(path, "anchors");
            assert_eq!(line, 2);
        }
        _ => panic!("Expected a parse error"),
    }
}

#[test]
fn timestamp_file_is_made_and_trusted_later() {
    let epoch = DEFAULT_TIMESTAMP_EPOCH as i128 * SECOND;
    let (mut validator, action) = setup_timestamp(Some("stamp".to_string()), false);
    assert!(matches!(action, SetupAction::ReadModified));
    assert!(matches!(validator.setup_event(SetupEvent::Missing), SetupAction::CreateFile));
    match validator.setup_event(SetupEvent::Created) {
        SetupAction::SetModified { time } => assert_eq!(time, epoch),
        _ => panic!("Expected a time to set"),
    }
    assert!(matches!(validator.setup_event(SetupEvent::ModifiedSet), SetupAction::ReadClock));
    assert!(matches!(
        validator.setup_event(SetupEvent::Clock { now: epoch - 1 }),
        SetupAction::Finish { result: Ok(1) }
    ));
    assert!(!validator.get_back_to_the_future_flag());
    assert!(!validator.is_check_date(DEFAULT_TIMESTAMP_EPOCH as u32 - 1));
    assert!(validator.is_check_date(DEFAULT_TIMESTAMP_EPOCH as u32 + 1));
    assert!(validator.get_back_to_the_future_flag());
    assert!(validator.take_pending_touch().is_some());
    assert!(is_check_date(None, false, 5));
}

#[test]
fn failures_of_the_timestamp_file_are_told() {
    let (mut validator, _) = setup_timestamp(Some("stamp".to_string()), false);
    let event = SetupEvent::StatFailed { error: "denied".to_string() };
    match validator.setup_event(event) {
        SetupAction::Finish { result: Err(TrustAnchorError::IoError { path, .. }) } => {
            assert_eq!(path, "stamp");
        }
        _ => panic!("Expected an error"),
    }
}

#[test]
fn parameters_of_a_verification_are_checked() {
    let key = DnsKey::new(257, 3, DnssecAlgorithm::RsaSha256, vec![1, 2, 3, 4]);
    assert_eq!(key.verify_with_digest(&[], &[1]), Err("Digest cannot be empty".to_string()));
    assert_eq!(key.verify_with_digest(&[1], &[]), Err("Signature cannot be empty".to_string()));
    let bare = DnsKey::new(257, 3, DnssecAlgorithm::RsaSha256, vec![]);
    assert_eq!(
        bare.verify_with_digest(&[1], &[1]),
        Err("DNSKEY public key cannot be empty".to_string())
    );
    let odd = DnsKey::new(257, 4, DnssecAlgorithm::RsaSha256, vec![1]);
    assert_eq!(
        odd.verify_with_digest(&[1], &[1]),
        Err("Invalid protocol field: 4 (must be 3)".to_string())
    );
    assert!(key.verify_with_digest(&[1], &[1]).is_err());
}

#[test]
fn numbers_in_a_trust_anchor_are_checked() {
    let store = TrustAnchorStore::new();
    let reason = |line: &str| match store.parse_dnskey_line(line, 7) {
        Err(TrustAnchorError::ParseError { line, reason, .. }) => {
            assert_eq!(line, 7);
            reason
        }
        _ => panic!("Expected a parse error"),
    };
    assert_eq!(
        reason(". IN DNSKEY x 3 8 AQIDBA=="),
        format!("Invalid flags: {}", "x".parse::<u16>().unwrap_err())
    );
    assert_eq!(
        reason(". IN DNSKEY 257 300 8 AQIDBA=="),
        format!("Invalid protocol: {}", "300".parse::<u8>().unwrap_err())
    );
    assert_eq!(
        reason(". IN DNSKEY 257 3 -8 AQIDBA=="),
        format!("Invalid algorithm: {}", "-8".parse::<u8>().unwrap_err())
    );
    assert!(store.parse_dnskey_line(". IN DNSKEY +257 3 8 AQIDBA==", 7).is_ok());
}

#[test]
fn clock_before_the_epoch_counts_as_its_start() {
    assert_eq!(seconds_of(Some(1_700_000_000)), 1_700_000_000);
    assert_eq!(seconds_of(None), 0);
}

#[test]
fn set_up_without_a_file_changes_nothing() {
    let mut validator = TimestampValidator::new(None, false);
    let before = validator.is_check_date(7);
    for event in [SetupEvent::Modified { time: 5 }, SetupEvent::Clock { now: 9 }] {
        assert!(matches!(validator.setup_event(event), SetupAction::Finish { result: Ok(0) }));
    }
    assert_eq!(validator.is_check_date(7), before);
}

/// A zone that signs its records, and a cache that holds its key.
struct Zone {
    pair: Ed25519KeyPair,
    tag: u16,
    cache: Cache,
}

fn zone() -> Zone {
    let pair = Ed25519KeyPair::from_seed_unchecked(&[7; 32]).unwrap();
    let key =
        DnsKey::new(256, 3, DnssecAlgorithm::Ed25519, pair.public_key().as_ref().to_vec());
    let mut cache = Cache::new();
    cache.insert(key_record(&key, "example.com", F_DNSSECOK), 0).unwrap();
    Zone { pair, tag: key.keytag(), cache }
}

fn wire(name: &str) -> Vec<u8> {
    let mut bytes = name.as_bytes().to_vec();
    to_wire(&mut bytes);
    bytes
}

/// A reply with one question.
fn reply_to(name: &str, rtype: u16, rcode: u8, an: u8, ns: u8) -> Vec<u8> {
    let mut p = vec![0, 1, 0x81, 0x80 | rcode, 0, 1, 0, an, 0, ns, 0, 0];
    p.extend_from_slice(&wire(name));
    p.extend_from_slice(&rtype.to_be_bytes());
    p.extend_from_slice(&[0, 1]);
    p
}

impl Zone {
    /// Appends a record as it is sent, and a signature over it as it is covered.
    fn push(
        &self,
        p: &mut Vec<u8>,
        owner: &str,
        rtype: u16,
        sent: &[u8],
        covered: &[u8],
        labels: u8,
    ) {
        let record = ResourceRecord {
            name: owner.to_string(),
            rtype,
            class: 1,
            ttl: 60,
            rdlength: covered.len() as u16,
            rdata: covered.to_vec(),
        };
        let sig = signed_for(&self.pair, rtype, &vec![record], self.tag, labels);
        push_record(p, &wire(owner), rtype, sent);
        push_record(p, &wire(owner), 46, &sig.to_wire());
    }

    fn push_nsec(&self, p: &mut Vec<u8>, owner: &str, next: &str, types: &[u8]) {
        let mut bitmap = vec![0, types.len() as u8];
        bitmap.extend_from_slice(types);
        let data = NsecRecord::new(next.to_string(), bitmap).to_wire();
        let labels = count_labels(owner.trim_start_matches("*.")) as u8;
        self.push(p, owner, 47, &data, &data, labels);
    }

    fn check(&mut self, p: &[u8], name: &str, rtype: u16) -> ValidationStatus {
        dnssec_validate_reply(p, name, rtype, &mut self.cache, 0, 1500 * SECOND, true).unwrap()
    }
}

/// The first bytes of a bitmap with the types A, NS, CNAME and SOA.
const HAS_A: u8 = 0x40;
const HAS_NS: u8 = 0x20;
const HAS_CNAME: u8 = 0x04;
const HAS_SOA: u8 = 0x02;

#[test]
fn missing_name_is_proved_by_its_neighbours() {
    let mut z = zone();
    let mut p = reply_to("b.example.com", T_A, 3, 0, 4);
    z.push_nsec(&mut p, "example.com", "a.example.com", &[HAS_NS | HAS_SOA]);
    z.push_nsec(&mut p, "a.example.com", "c.example.com", &[HAS_A]);
    assert_eq!(z.check(&p, "b.example.com", T_A), ValidationStatus::Secure);
    assert_eq!(z.check(&p, "B.Example.COM", T_A), ValidationStatus::Secure);
    assert_eq!(z.check(&p, "x.b.example.com", T_A), ValidationStatus::Secure);
    assert_eq!(z.check(&p, "a.example.com", T_A), ValidationStatus::Bogus(vec![]));
    assert_eq!(z.check(&p, "d.example.com", T_A), ValidationStatus::Bogus(vec![]));
    assert_eq!(z.check(&p, "b.example.org", T_A), ValidationStatus::Bogus(vec![]));

    let mut last = reply_to("zz.example.com", T_A, 3, 0, 4);
    z.push_nsec(&mut last, "example.com", "a.example.com", &[HAS_NS | HAS_SOA]);
    z.push_nsec(&mut last, "z.example.com", "example.com", &[HAS_A]);
    assert_eq!(z.check(&last, "zz.example.com", T_A), ValidationStatus::Secure);

    let mut wildcard_left = reply_to("b.example.com", T_A, 3, 0, 2);
    z.push_nsec(&mut wildcard_left, "a.example.com", "c.example.com", &[HAS_A]);
    assert_eq!(
        z.check(&wildcard_left, "b.example.com", T_A),
        ValidationStatus::Bogus(vec![])
    );

    let mut cut = reply_to("x.a.example.com", T_A, 3, 0, 4);
    z.push_nsec(&mut cut, "example.com", "a.example.com", &[HAS_NS | HAS_SOA]);
    z.push_nsec(&mut cut, "a.example.com", "c.example.com", &[HAS_NS]);
    assert_eq!(z.check(&cut, "x.a.example.com", T_A), ValidationStatus::Bogus(vec![]));

    let mut unsigned = p.clone();
    let len = unsigned.len();
    unsigned[len - 1] ^= 1;
    assert_eq!(z.check(&unsigned, "b.example.com", T_A), ValidationStatus::Bogus(vec![]));
    z.cache = Cache::new();
    assert_eq!(z.check(&p, "b.example.com", T_A), ValidationStatus::NeedKey);
}

#[test]
fn missing_type_is_proved_by_the_types_of_the_name() {
    let mut z = zone();
    let mut check = |types: u8, rtype: u16| {
        let mut p = reply_to("a.example.com", rtype, 0, 0, 2);
        z.push_nsec(&mut p, "a.example.com", "c.example.com", &[types]);
        z.check(&p, "a.example.com", rtype)
    };
    assert_eq!(check(HAS_A, 15), ValidationStatus::Secure);
    assert_eq!(check(HAS_A, T_A), ValidationStatus::Bogus(vec![]));
    assert_eq!(check(HAS_CNAME, T_A), ValidationStatus::Bogus(vec![]));
    assert_eq!(check(HAS_NS, T_A), ValidationStatus::Bogus(vec![]));
    assert_eq!(check(HAS_NS, T_DS), ValidationStatus::Secure);
    assert_eq!(check(HAS_NS | HAS_SOA, T_DS), ValidationStatus::Bogus(vec![]));

    let mut empty = reply_to("b.example.com", T_A, 0, 0, 2);
    z.push_nsec(&mut empty, "a.example.com", "x.b.example.com", &[HAS_A]);
    assert_eq!(z.check(&empty, "b.example.com", T_A), ValidationStatus::Secure);

    let mut star = reply_to("b.example.com", 15, 0, 0, 4);
    z.push_nsec(&mut star, "*.example.com", "a.example.com", &[HAS_A]);
    z.push_nsec(&mut star, "a.example.com", "c.example.com", &[HAS_A]);
    assert_eq!(z.check(&star, "b.example.com", 15), ValidationStatus::Secure);
    assert_eq!(z.check(&star, "b.example.com", T_A), ValidationStatus::Bogus(vec![]));
}

#[test]
fn missing_name_is_proved_by_hashes() {
    let mut z = zone();
    let apex = hash_name(&wire("example.com"), &[0xaa], 2);
    let owner = format!("{}.example.com", BASE32HEX_NOPAD.encode(&apex).to_lowercase());
    let mut reply = |flags: u8, next: Vec<u8>, rcode: u8| {
        let data = Nsec3Record::new(1, flags, 2, vec![0xaa], next, vec![0, 1, HAS_NS | HAS_SOA])
            .to_wire();
        let mut p = reply_to("b.example.com", T_A, rcode, 0, 2);
        z.push(&mut p, &owner, 50, &data, &data, 3);
        let name = if rcode == 3 { "b.example.com" } else { "example.com" };
        z.check(&p, name, T_A)
    };
    assert_eq!(reply(0, apex.to_vec(), 3), ValidationStatus::Secure);
    assert_eq!(reply(1, apex.to_vec(), 3), ValidationStatus::Insecure);
    assert_eq!(reply(0, apex.to_vec(), 0), ValidationStatus::Secure);
    let mut near = apex.to_vec();
    for byte in near.iter_mut().rev() {
        let (next, over) = byte.overflowing_add(1);
        *byte = next;
        if !over {
            break;
        }
    }
    assert_eq!(reply(0, near, 3), ValidationStatus::Bogus(vec![]));

    let mut delegation = |flags: u8| {
        let types = vec![0, 1, HAS_NS | HAS_SOA];
        let data = Nsec3Record::new(1, flags, 2, vec![0xaa], apex.to_vec(), types).to_wire();
        let mut p = reply_to("sub.example.com", T_DS, 0, 0, 2);
        z.push(&mut p, &owner, 50, &data, &data, 3);
        z.check(&p, "sub.example.com", T_DS)
    };
    assert_eq!(delegation(1), ValidationStatus::Insecure);
    assert_eq!(delegation(0), ValidationStatus::Bogus(vec![]));
}

#[test]
fn aliases_lead_to_the_missing_name() {
    let mut z = zone();
    let mut p = reply_to("alias.example.com", T_A, 3, 2, 4);
    let target = wire("b.example.com");
    z.push(&mut p, "alias.example.com", 5, &target, &target, 3);
    z.push_nsec(&mut p, "example.com", "a.example.com", &[HAS_NS | HAS_SOA]);
    z.push_nsec(&mut p, "a.example.com", "c.example.com", &[HAS_A]);
    assert_eq!(z.check(&p, "alias.example.com", T_A), ValidationStatus::Secure);

    let mut forged = reply_to("alias.example.com", T_A, 3, 1, 4);
    push_record(&mut forged, &wire("alias.example.com"), 5, &target);
    z.push_nsec(&mut forged, "example.com", "a.example.com", &[HAS_NS | HAS_SOA]);
    z.push_nsec(&mut forged, "a.example.com", "c.example.com", &[HAS_A]);
    assert_eq!(z.check(&forged, "alias.example.com", T_A), ValidationStatus::Bogus(vec![]));
}

#[test]
fn alias_without_an_answer_needs_a_proof() {
    let mut z = zone();
    let target = wire("b.example.com");
    let mut p = reply_to("alias.example.com", T_A, 0, 2, 2);
    z.push(&mut p, "alias.example.com", 5, &target, &target, 3);
    z.push_nsec(&mut p, "b.example.com", "c.example.com", &[HAS_SOA]);
    assert_eq!(z.check(&p, "alias.example.com", T_A), ValidationStatus::Secure);
    assert_eq!(z.check(&p, "alias.example.com", 5), ValidationStatus::Secure);
    assert_eq!(z.check(&p, "alias.example.com", 255), ValidationStatus::Secure);
    assert_eq!(z.check(&p, "other.example.com", T_A), ValidationStatus::Bogus(vec![]));

    let mut bare = reply_to("alias.example.com", T_A, 0, 2, 0);
    z.push(&mut bare, "alias.example.com", 5, &target, &target, 3);
    assert_eq!(
        z.check(&bare, "alias.example.com", T_A),
        ValidationStatus::Bogus(vec![DnssecFailure::NoNsec])
    );
    let mut full = reply_to("alias.example.com", T_A, 0, 4, 0);
    z.push(&mut full, "alias.example.com", 5, &target, &target, 3);
    z.push(&mut full, "b.example.com", T_A, &[192, 0, 2, 1], &[192, 0, 2, 1], 3);
    assert_eq!(z.check(&full, "alias.example.com", T_A), ValidationStatus::Secure);
}

#[test]
fn wildcard_answer_needs_a_proof() {
    let mut z = zone();
    let a = [192, 0, 2, 1];
    let mut p = reply_to("www.example.com", T_A, 0, 2, 2);
    z.push(&mut p, "www.example.com", T_A, &a, &a, 2);
    let mut bare = p.clone();
    z.push_nsec(&mut p, "*.example.com", "zz.example.com", &[HAS_A]);
    assert_eq!(z.check(&p, "www.example.com", T_A), ValidationStatus::SecureWildcard);
    bare[9] = 0;
    assert_eq!(z.check(&bare, "www.example.com", T_A), ValidationStatus::Bogus(vec![]));

    let mut other = reply_to("www.example.com", T_A, 0, 2, 2);
    z.push(&mut other, "www.example.com", T_A, &a, &a, 2);
    z.push_nsec(&mut other, "www.example.com", "zz.example.com", &[HAS_A]);
    assert_eq!(z.check(&other, "www.example.com", T_A), ValidationStatus::Bogus(vec![]));

    let mut own = reply_to("*.example.com", T_A, 0, 2, 0);
    z.push(&mut own, "*.example.com", T_A, &a, &a, 2);
    assert_eq!(z.check(&own, "*.example.com", T_A), ValidationStatus::Secure);
    assert_eq!(find_signed_owner("a.b.example.com", 2), "*.example.com");
    assert_eq!(find_signed_owner("example.com", 2), "example.com");
    assert_eq!(find_signed_owner("com", 0), "*.");
}

#[test]
fn names_in_signed_data_are_made_canonical() {
    let mut z = zone();
    let mut covered = vec![0, 10];
    covered.extend_from_slice(&wire("mail.example.com"));
    let mut p = reply_to("www.example.com", 15, 0, 2, 0);
    z.push(&mut p, "www.example.com", 15, b"\x00\x0a\x04Mail\xC0\x10", &covered, 3);
    assert_eq!(z.check(&p, "www.example.com", 15), ValidationStatus::Secure);
    let data = read_data(&p, 12, 12 + wire("www.example.com").len(), 5);
    assert_eq!(data, wire("www.example.com"));
}

#[test]
fn dates_count_only_where_the_clock_is_good() {
    let mut z = zone();
    let a = [192, 0, 2, 1];
    let mut p = reply_to("www.example.com", T_A, 0, 2, 0);
    z.push(&mut p, "www.example.com", T_A, &a, &a, 3);
    let mut check = |now: i128, dates: bool| {
        dnssec_validate_reply(&p, "www.example.com", T_A, &mut z.cache, 0, now * SECOND, dates)
    };
    assert_eq!(check(5000, true), Ok(ValidationStatus::Bogus(vec![])));
    assert_eq!(check(5000, false), Ok(ValidationStatus::Secure));
    assert_eq!(check(0, false), Ok(ValidationStatus::Secure));
}
