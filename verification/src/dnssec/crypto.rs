//! The verification of DNSSEC signatures.

use crate::blockdata::BlockData;
use crate::dnssec::types::DnssecAlgorithm;
use crate::text::{self, push_decimal};
use crate::wire::{self, copy_range, push_bytes, read_u16};
use ring::signature::{RsaPublicKeyComponents, UnparsedPublicKey};
use vstd::prelude::*;

verus! {

/// The longest message whose length in bits a hash function can count, behind a
/// key and half a signature.
pub const MESSAGE_MAX: u64 = 0x1FFF_FFFF_FFFF_FFBF;

/// Why a signature was not verified.
#[derive(Debug, Clone, PartialEq, Eq)]
pub enum CryptoError {
    UnsupportedAlgorithm { algo: u8 },
    InvalidKeyLength { algo: DnssecAlgorithm, expected: usize, found: usize },
    InvalidSignatureLength { algo: DnssecAlgorithm, expected: usize, found: usize },
    VerificationFailed { algo: DnssecAlgorithm, reason: String },
    RsaKeyFormatError { reason: String },
    EcKeyFormatError { algo: DnssecAlgorithm, reason: String },
}

/// What a `CryptoError` says, with its texts as sequences of characters.
pub enum CryptoFault {
    UnsupportedAlgorithm { algo: u8 },
    InvalidKeyLength { algo: DnssecAlgorithm, expected: usize, found: usize },
    InvalidSignatureLength { algo: DnssecAlgorithm, expected: usize, found: usize },
    VerificationFailed { algo: DnssecAlgorithm, reason: Seq<char> },
    RsaKeyFormatError { reason: Seq<char> },
    EcKeyFormatError { algo: DnssecAlgorithm, reason: Seq<char> },
}

impl View for CryptoError {
    type V = CryptoFault;

    open spec fn view(&self) -> CryptoFault {
        match *self {
            CryptoError::UnsupportedAlgorithm { algo } => CryptoFault::UnsupportedAlgorithm {
                algo,
            },
            CryptoError::InvalidKeyLength { algo, expected, found } => {
                CryptoFault::InvalidKeyLength { algo, expected, found }
            },
            CryptoError::InvalidSignatureLength { algo, expected, found } => {
                CryptoFault::InvalidSignatureLength { algo, expected, found }
            },
            CryptoError::VerificationFailed { algo, reason } => {
                CryptoFault::VerificationFailed { algo, reason: reason@ }
            },
            CryptoError::RsaKeyFormatError { reason } => CryptoFault::RsaKeyFormatError {
                reason: reason@,
            },
            CryptoError::EcKeyFormatError { algo, reason } => CryptoFault::EcKeyFormatError {
                algo,
                reason: reason@,
            },
        }
    }
}

impl CryptoFault {
    /// The text of the error.
    pub open spec fn message(self) -> Seq<char> {
        match self {
            CryptoFault::UnsupportedAlgorithm { algo } => "Unsupported DNSSEC algorithm: "@
                + text::decimal(algo as nat),
            CryptoFault::InvalidKeyLength { algo, expected, found } => {
                "Invalid key length for "@ + algo.written() + ": expected "@ + text::decimal(
                    expected as nat,
                ) + ", found "@ + text::decimal(found as nat)
            },
            CryptoFault::InvalidSignatureLength { algo, expected, found } => {
                "Invalid signature length for "@ + algo.written() + ": expected "@
                    + text::decimal(expected as nat) + ", found "@ + text::decimal(found as nat)
            },
            CryptoFault::VerificationFailed { algo, reason } => {
                "Signature verification failed for "@ + algo.written() + ": "@ + reason
            },
            CryptoFault::RsaKeyFormatError { reason } => "RSA key format error: "@ + reason,
            CryptoFault::EcKeyFormatError { algo, reason } => algo.written()
                + " key format error: "@ + reason,
        }
    }
}

impl CryptoError {
    /// The text of the error.
    pub fn to_string(&self) -> (r: String)
        ensures
            r@ == self@.message(),
    {
        let mut s: String = String::new();
        match self {
            CryptoError::UnsupportedAlgorithm { algo } => {
                s.append("Unsupported DNSSEC algorithm: ");
                push_decimal(&mut s, *algo as u64);
            },
            CryptoError::InvalidKeyLength { algo, expected, found } => {
                s.append("Invalid key length for ");
                s.append(algo.to_string().as_str());
                s.append(": expected ");
                push_decimal(&mut s, *expected as u64);
                s.append(", found ");
                push_decimal(&mut s, *found as u64);
            },
            CryptoError::InvalidSignatureLength { algo, expected, found } => {
                s.append("Invalid signature length for ");
                s.append(algo.to_string().as_str());
                s.append(": expected ");
                push_decimal(&mut s, *expected as u64);
                s.append(", found ");
                push_decimal(&mut s, *found as u64);
            },
            CryptoError::VerificationFailed { algo, reason } => {
                s.append("Signature verification failed for ");
                s.append(algo.to_string().as_str());
                s.append(": ");
                s.append(reason.as_str());
            },
            CryptoError::RsaKeyFormatError { reason } => {
                s.append("RSA key format error: ");
                s.append(reason.as_str());
            },
            CryptoError::EcKeyFormatError { algo, reason } => {
                s.append(algo.to_string().as_str());
                s.append(" key format error: ");
                s.append(reason.as_str());
            },
        }
        assert(s@ =~= self@.message());
        s
    }
}

// ---------------------------------------------------------------------------
// What the ring crate verifies
// ---------------------------------------------------------------------------

/// Whether a signature of a message fits an RSA key, by RSA with SHA-1 as `ring` does it.
pub uninterp spec fn rsa_sha1_fits(
    modulus: Seq<u8>,
    exponent: Seq<u8>,
    message: Seq<u8>,
    sig: Seq<u8>,
) -> bool;

/// `RsaPublicKeyComponents::verify` with `RSA_PKCS1_2048_8192_SHA1_FOR_LEGACY_USE_ONLY`: the
/// same key, message and signature always get the same verdict, which has a name;
/// a refusal always has the same text.
#[verifier::external_body]
fn rsa_sha1_verify(modulus: &[u8], exponent: &[u8], message: &[u8], sig: &[u8]) -> (r: Result<
    (),
    String,
>)
    requires
        message@.len() <= MESSAGE_MAX,
    ensures
        r is Ok == rsa_sha1_fits(modulus@, exponent@, message@, sig@),
        r matches Err(e) ==> e@ == "ring::error::Unspecified"@,
{
    let key = RsaPublicKeyComponents { n: modulus, e: exponent };
    match key.verify(&ring::signature::RSA_PKCS1_2048_8192_SHA1_FOR_LEGACY_USE_ONLY, message, sig) {
        Ok(()) => Ok(()),
        Err(e) => Err(e.to_string()),
    }
}

/// Whether a signature of a message fits an RSA key, by RSA with SHA-256 as `ring` does it.
pub uninterp spec fn rsa_sha256_fits(
    modulus: Seq<u8>,
    exponent: Seq<u8>,
    message: Seq<u8>,
    sig: Seq<u8>,
) -> bool;

/// `RsaPublicKeyComponents::verify` with `RSA_PKCS1_2048_8192_SHA256`: the
/// same key, message and signature always get the same verdict, which has a name;
/// a refusal always has the same text.
#[verifier::external_body]
fn rsa_sha256_verify(modulus: &[u8], exponent: &[u8], message: &[u8], sig: &[u8]) -> (r: Result<
    (),
    String,
>)
    requires
        message@.len() <= MESSAGE_MAX,
    ensures
        r is Ok == rsa_sha256_fits(modulus@, exponent@, message@, sig@),
        r matches Err(e) ==> e@ == "ring::error::Unspecified"@,
{
    let key = RsaPublicKeyComponents { n: modulus, e: exponent };
    match key.verify(&ring::signature::RSA_PKCS1_2048_8192_SHA256, message, sig) {
        Ok(()) => Ok(()),
        Err(e) => Err(e.to_string()),
    }
}

/// Whether a signature of a message fits an RSA key, by RSA with SHA-512 as `ring` does it.
pub uninterp spec fn rsa_sha512_fits(
    modulus: Seq<u8>,
    exponent: Seq<u8>,
    message: Seq<u8>,
    sig: Seq<u8>,
) -> bool;

/// `RsaPublicKeyComponents::verify` with `RSA_PKCS1_2048_8192_SHA512`: the
/// same key, message and signature always get the same verdict, which has a name;
/// a refusal always has the same text.
#[verifier::external_body]
fn rsa_sha512_verify(modulus: &[u8], exponent: &[u8], message: &[u8], sig: &[u8]) -> (r: Result<
    (),
    String,
>)
    requires
        message@.len() <= MESSAGE_MAX,
    ensures
        r is Ok == rsa_sha512_fits(modulus@, exponent@, message@, sig@),
        r matches Err(e) ==> e@ == "ring::error::Unspecified"@,
{
    let key = RsaPublicKeyComponents { n: modulus, e: exponent };
    match key.verify(&ring::signature::RSA_PKCS1_2048_8192_SHA512, message, sig) {
        Ok(()) => Ok(()),
        Err(e) => Err(e.to_string()),
    }
}

/// Whether a signature of a message fits a key, by ECDSA over P-256 with SHA-256 as `ring` does it.
pub uninterp spec fn ecdsa_p256_fits(key: Seq<u8>, message: Seq<u8>, sig: Seq<u8>) -> bool;

/// `UnparsedPublicKey::verify` with `ECDSA_P256_SHA256_FIXED`: the same key, message
/// and signature always get the same verdict, which has a name; a refusal always
/// has the same text.
#[verifier::external_body]
fn ecdsa_p256_verify(key: &[u8], message: &[u8], sig: &[u8]) -> (r: Result<(), String>)
    requires
        message@.len() <= MESSAGE_MAX,
    ensures
        r is Ok == ecdsa_p256_fits(key@, message@, sig@),
        r matches Err(e) ==> e@ == "ring::error::Unspecified"@,
{
    let public_key = UnparsedPublicKey::new(&ring::signature::ECDSA_P256_SHA256_FIXED, key);
    match public_key.verify(message, sig) {
        Ok(()) => Ok(()),
        Err(e) => Err(e.to_string()),
    }
}

/// Whether a signature of a message fits a key, by ECDSA over P-384 with SHA-384 as `ring` does it.
pub uninterp spec fn ecdsa_p384_fits(key: Seq<u8>, message: Seq<u8>, sig: Seq<u8>) -> bool;

/// `UnparsedPublicKey::verify` with `ECDSA_P384_SHA384_FIXED`: the same key, message
/// and signature always get the same verdict, which has a name; a refusal always
/// has the same text.
#[verifier::external_body]
fn ecdsa_p384_verify(key: &[u8], message: &[u8], sig: &[u8]) -> (r: Result<(), String>)
    requires
        message@.len() <= MESSAGE_MAX,
    ensures
        r is Ok == ecdsa_p384_fits(key@, message@, sig@),
        r matches Err(e) ==> e@ == "ring::error::Unspecified"@,
{
    let public_key = UnparsedPublicKey::new(&ring::signature::ECDSA_P384_SHA384_FIXED, key);
    match public_key.verify(message, sig) {
        Ok(()) => Ok(()),
        Err(e) => Err(e.to_string()),
    }
}

/// Whether a signature of a message fits a key, by Ed25519 as `ring` does it.
pub uninterp spec fn ed25519_fits(key: Seq<u8>, message: Seq<u8>, sig: Seq<u8>) -> bool;

/// `UnparsedPublicKey::verify` with `ED25519`: the same key, message
/// and signature always get the same verdict, which has a name; a refusal always
/// has the same text.
#[verifier::external_body]
fn ed25519_verify(key: &[u8], message: &[u8], sig: &[u8]) -> (r: Result<(), String>)
    requires
        message@.len() <= MESSAGE_MAX,
    ensures
        r is Ok == ed25519_fits(key@, message@, sig@),
        r matches Err(e) ==> e@ == "ring::error::Unspecified"@,
{
    let public_key = UnparsedPublicKey::new(&ring::signature::ED25519, key);
    match public_key.verify(message, sig) {
        Ok(()) => Ok(()),
        Err(e) => Err(e.to_string()),
    }
}

// ---------------------------------------------------------------------------
// Keys and outcomes
// ---------------------------------------------------------------------------

/// The exponent and the modulus in an RSA key. The length of the exponent is in
/// the first byte, or in the two behind it when that is zero.
pub open spec fn rsa_parts(key: Seq<u8>) -> Result<(Seq<u8>, Seq<u8>), CryptoFault> {
    let long = key[0] == 0;
    let offset = if long {
        3int
    } else {
        1int
    };
    let exp_len = if long {
        wire::be16(key, 1) as int
    } else {
        key[0] as int
    };
    if key.len() < 3 {
        Err(
            CryptoFault::RsaKeyFormatError {
                reason: "Key too short: "@ + text::decimal(key.len()) + " bytes (minimum 3)"@,
            },
        )
    } else if offset + exp_len > key.len() {
        Err(
            CryptoFault::RsaKeyFormatError {
                reason: "Exponent length "@ + text::decimal(exp_len as nat)
                    + " exceeds remaining key data "@ + text::decimal(
                    (key.len() - offset) as nat,
                ),
            },
        )
    } else if key.len() - offset - exp_len < 64 {
        Err(
            CryptoFault::RsaKeyFormatError {
                reason: "Modulus too short: "@ + text::decimal(
                    (key.len() - offset - exp_len) as nat,
                ) + " bytes (minimum 64 for 512-bit key)"@,
            },
        )
    } else {
        Ok((key.subrange(offset, offset + exp_len), key.skip(offset + exp_len)))
    }
}

/// Takes an RSA key apart into its exponent and its modulus.
pub fn split_rsa_key(key: &[u8]) -> (r: Result<(Vec<u8>, Vec<u8>), CryptoError>)
    ensures
        match r {
            Ok((exponent, modulus)) => rsa_parts(key@) == Ok::<(Seq<u8>, Seq<u8>), CryptoFault>(
                (exponent@, modulus@),
            ),
            Err(e) => rsa_parts(key@) == Err::<(Seq<u8>, Seq<u8>), CryptoFault>(e@),
        },
{
    let key_len: usize = key.len();
    if key_len < 3 {
        let mut reason: String = "Key too short: ".to_owned();
        push_decimal(&mut reason, key_len as u64);
        reason.append(" bytes (minimum 3)");
        return Err(CryptoError::RsaKeyFormatError { reason });
    }
    let mut offset: usize = 1;
    let mut exp_len: usize = key[0] as usize;
    if key[0] == 0 {
        offset = 3;
        exp_len = read_u16(key, 1) as usize;
    }
    if offset + exp_len > key_len {
        let mut reason: String = "Exponent length ".to_owned();
        push_decimal(&mut reason, exp_len as u64);
        reason.append(" exceeds remaining key data ");
        push_decimal(&mut reason, (key_len - offset) as u64);
        return Err(CryptoError::RsaKeyFormatError { reason });
    }
    let exponent = copy_range(key, offset, offset + exp_len);
    let modulus = copy_range(key, offset + exp_len, key_len);
    assert(modulus@ =~= key@.skip(offset + exp_len));
    if modulus.len() < 64 {
        let mut reason: String = "Modulus too short: ".to_owned();
        push_decimal(&mut reason, modulus.len() as u64);
        reason.append(" bytes (minimum 64 for 512-bit key)");
        return Err(CryptoError::RsaKeyFormatError { reason });
    }
    Ok((exponent, modulus))
}

/// What a verdict comes to: a refusal with its reason is an error.
pub open spec fn outcome(verdict: Result<(), Seq<char>>, algo: DnssecAlgorithm) -> Result<
    (),
    CryptoFault,
> {
    match verdict {
        Ok(_) => Ok(()),
        Err(reason) => Err(CryptoFault::VerificationFailed { algo, reason }),
    }
}

/// The verdict as a result with the reason that `ring` gives.
pub open spec fn verdict(fits: bool) -> Result<(), Seq<char>> {
    if fits {
        Ok(())
    } else {
        Err("ring::error::Unspecified"@)
    }
}

/// What a `CryptoError` or its absence says.
pub open spec fn checked(r: Result<(), CryptoError>) -> Result<(), CryptoFault> {
    match r {
        Ok(_) => Ok(()),
        Err(e) => Err(e@),
    }
}

/// Turns a verdict into the result of a verification.
pub fn verification_result(verdict: Result<(), String>, algo: DnssecAlgorithm) -> (r: Result<
    (),
    CryptoError,
>)
    ensures
        checked(r) == outcome(
            match verdict {
                Ok(_) => Ok(()),
                Err(e) => Err(e@),
            },
            algo,
        ),
{
    match verdict {
        Ok(_) => Ok(()),
        Err(reason) => Err(CryptoError::VerificationFailed { algo, reason }),
    }
}

/// The result of a verification by RSA.
pub open spec fn rsa_result(
    key: Seq<u8>,
    sig: Seq<u8>,
    digest: Seq<u8>,
    algo: DnssecAlgorithm,
) -> Result<(), CryptoFault> {
    match rsa_parts(key) {
        Err(e) => Err(e),
        Ok((e, n)) => match algo {
            DnssecAlgorithm::RsaSha1 | DnssecAlgorithm::RsaSha1Nsec3 => outcome(
                verdict(rsa_sha1_fits(n, e, digest, sig)),
                algo,
            ),
            DnssecAlgorithm::RsaSha256 => outcome(
                verdict(rsa_sha256_fits(n, e, digest, sig)),
                algo,
            ),
            DnssecAlgorithm::RsaSha512 => outcome(
                verdict(rsa_sha512_fits(n, e, digest, sig)),
                algo,
            ),
            _ => Err(CryptoFault::UnsupportedAlgorithm { algo: algo.number() }),
        },
    }
}

/// Verifies a signature by RSA.
fn rsa_verify(key_data: &BlockData, sig: &[u8], digest: &[u8], algo: DnssecAlgorithm) -> (r:
    Result<(), CryptoError>)
    requires
        digest@.len() <= MESSAGE_MAX,
    ensures
        checked(r) == rsa_result(key_data@, sig@, digest@, algo),
{
    let key = key_data.to_bytes();
    let (exponent, modulus) = match split_rsa_key(key.as_slice()) {
        Ok(parts) => parts,
        Err(e) => {
            return Err(e);
        },
    };
    let e = exponent.as_slice();
    let n = modulus.as_slice();
    match algo {
        DnssecAlgorithm::RsaSha1 | DnssecAlgorithm::RsaSha1Nsec3 => verification_result(
            rsa_sha1_verify(n, e, digest, sig),
            algo,
        ),
        DnssecAlgorithm::RsaSha256 => verification_result(
            rsa_sha256_verify(n, e, digest, sig),
            algo,
        ),
        DnssecAlgorithm::RsaSha512 => verification_result(
            rsa_sha512_verify(n, e, digest, sig),
            algo,
        ),
        _ => Err(CryptoError::UnsupportedAlgorithm { algo: algo.to_u8() }),
    }
}

/// The lengths of a key and of a signature are those of the algorithm, or which
/// one is not.
pub open spec fn lengths_fit(
    algo: DnssecAlgorithm,
    expected_key: usize,
    expected_sig: usize,
    key: Seq<u8>,
    sig: Seq<u8>,
) -> Result<(), CryptoFault> {
    if key.len() != expected_key {
        Err(
            CryptoFault::InvalidKeyLength {
                algo,
                expected: expected_key,
                found: key.len() as usize,
            },
        )
    } else if sig.len() != expected_sig {
        Err(
            CryptoFault::InvalidSignatureLength {
                algo,
                expected: expected_sig,
                found: sig.len() as usize,
            },
        )
    } else {
        Ok(())
    }
}

/// Tests the lengths of a key and of a signature.
pub fn check_lengths(
    algo: DnssecAlgorithm,
    expected_key: usize,
    expected_sig: usize,
    key: &[u8],
    sig: &[u8],
) -> (r: Result<(), CryptoError>)
    ensures
        checked(r) == lengths_fit(algo, expected_key, expected_sig, key@, sig@),
{
    if key.len() != expected_key {
        return Err(
            CryptoError::InvalidKeyLength { algo, expected: expected_key, found: key.len() },
        );
    }
    if sig.len() != expected_sig {
        return Err(
            CryptoError::InvalidSignatureLength {
                algo,
                expected: expected_sig,
                found: sig.len(),
            },
        );
    }
    Ok(())
}

/// A point in full, from its two coordinates.
pub open spec fn full_point(key: Seq<u8>) -> Seq<u8> {
    seq![4u8] + key
}

/// The result of a verification by ECDSA.
pub open spec fn ecdsa_result(
    key: Seq<u8>,
    sig: Seq<u8>,
    digest: Seq<u8>,
    algo: DnssecAlgorithm,
) -> Result<(), CryptoFault> {
    match algo {
        DnssecAlgorithm::EcdsaP256Sha256 => match lengths_fit(algo, 64, 64, key, sig) {
            Err(e) => Err(e),
            Ok(_) => outcome(verdict(ecdsa_p256_fits(full_point(key), digest, sig)), algo),
        },
        DnssecAlgorithm::EcdsaP384Sha384 => match lengths_fit(algo, 96, 96, key, sig) {
            Err(e) => Err(e),
            Ok(_) => outcome(verdict(ecdsa_p384_fits(full_point(key), digest, sig)), algo),
        },
        _ => Err(CryptoFault::UnsupportedAlgorithm { algo: algo.number() }),
    }
}

/// Verifies a signature by ECDSA.
fn ecdsa_verify(key_data: &BlockData, sig: &[u8], digest: &[u8], algo: DnssecAlgorithm) -> (r:
    Result<(), CryptoError>)
    requires
        digest@.len() <= MESSAGE_MAX,
    ensures
        checked(r) == ecdsa_result(key_data@, sig@, digest@, algo),
{
    let key = key_data.to_bytes();
    let expected: usize = match algo {
        DnssecAlgorithm::EcdsaP256Sha256 => 64,
        DnssecAlgorithm::EcdsaP384Sha384 => 96,
        _ => {
            return Err(CryptoError::UnsupportedAlgorithm { algo: algo.to_u8() });
        },
    };
    match check_lengths(algo, expected, expected, key.as_slice(), sig) {
        Ok(_) => {},
        Err(e) => {
            return Err(e);
        },
    }
    let mut point: Vec<u8> = Vec::new();
    point.push(4);
    push_bytes(&mut point, key.as_slice());
    assert(point@ =~= full_point(key@));
    let verdict = match algo {
        DnssecAlgorithm::EcdsaP256Sha256 => ecdsa_p256_verify(point.as_slice(), digest, sig),
        _ => ecdsa_p384_verify(point.as_slice(), digest, sig),
    };
    verification_result(verdict, algo)
}

/// The result of a verification by EdDSA; Ed448 is not supported.
pub open spec fn eddsa_result(
    key: Seq<u8>,
    sig: Seq<u8>,
    message: Seq<u8>,
    algo: DnssecAlgorithm,
) -> Result<(), CryptoFault> {
    match algo {
        DnssecAlgorithm::Ed25519 => match lengths_fit(algo, 32, 64, key, sig) {
            Err(e) => Err(e),
            Ok(_) => outcome(verdict(ed25519_fits(key, message, sig)), algo),
        },
        _ => Err(CryptoFault::UnsupportedAlgorithm { algo: algo.number() }),
    }
}

/// Verifies a signature of a whole message by EdDSA.
fn eddsa_verify(key_data: &BlockData, sig: &[u8], message: &[u8], algo: DnssecAlgorithm) -> (r:
    Result<(), CryptoError>)
    requires
        message@.len() <= MESSAGE_MAX,
    ensures
        checked(r) == eddsa_result(key_data@, sig@, message@, algo),
{
    let key = key_data.to_bytes();
    match algo {
        DnssecAlgorithm::Ed25519 => {
            match check_lengths(algo, 32, 64, key.as_slice(), sig) {
                Ok(_) => {},
                Err(e) => {
                    return Err(e);
                },
            }
            verification_result(ed25519_verify(key.as_slice(), message, sig), algo)
        },
        _ => Err(CryptoError::UnsupportedAlgorithm { algo: algo.to_u8() }),
    }
}

/// Refuses GOST, which is not supported.
fn gost_verify(
    _key_data: &BlockData,
    _sig: &[u8],
    _digest: &[u8],
    algo: DnssecAlgorithm,
) -> (r: Result<(), CryptoError>)
    ensures
        checked(r) == Err::<(), CryptoFault>(
            CryptoFault::UnsupportedAlgorithm { algo: algo.number() },
        ),
{
    Err(CryptoError::UnsupportedAlgorithm { algo: algo.to_u8() })
}

/// The result of a verification.
pub open spec fn verify_result(
    key: Seq<u8>,
    sig: Seq<u8>,
    digest: Seq<u8>,
    algo: DnssecAlgorithm,
) -> Result<(), CryptoFault> {
    match algo {
        DnssecAlgorithm::RsaSha1
        | DnssecAlgorithm::RsaSha1Nsec3
        | DnssecAlgorithm::RsaSha256
        | DnssecAlgorithm::RsaSha512 => rsa_result(key, sig, digest, algo),
        DnssecAlgorithm::EcdsaP256Sha256 | DnssecAlgorithm::EcdsaP384Sha384 => ecdsa_result(
            key,
            sig,
            digest,
            algo,
        ),
        DnssecAlgorithm::Ed25519 | DnssecAlgorithm::Ed448 => eddsa_result(
            key,
            sig,
            digest,
            algo,
        ),
        DnssecAlgorithm::Gost => Err(CryptoFault::UnsupportedAlgorithm { algo: algo.number() }),
    }
}

/// Verifies a signature with a key.
pub fn verify(key_data: &BlockData, sig: &[u8], digest: &[u8], algo: DnssecAlgorithm) -> (r: Result<
    (),
    CryptoError,
>)
    requires
        digest@.len() <= MESSAGE_MAX,
    ensures
        checked(r) == verify_result(key_data@, sig@, digest@, algo),
{
    match algo {
        DnssecAlgorithm::RsaSha1
        | DnssecAlgorithm::RsaSha1Nsec3
        | DnssecAlgorithm::RsaSha256
        | DnssecAlgorithm::RsaSha512 => rsa_verify(key_data, sig, digest, algo),
        DnssecAlgorithm::EcdsaP256Sha256 | DnssecAlgorithm::EcdsaP384Sha384 => ecdsa_verify(
            key_data,
            sig,
            digest,
            algo,
        ),
        DnssecAlgorithm::Ed25519 | DnssecAlgorithm::Ed448 => eddsa_verify(
            key_data,
            sig,
            digest,
            algo,
        ),
        DnssecAlgorithm::Gost => gost_verify(key_data, sig, digest, algo),
    }
}

/// A key of the wrong length verifies nothing, whatever the signature.
pub proof fn law_wrong_key_length_verifies_nothing(
    key: Seq<u8>,
    sig: Seq<u8>,
    digest: Seq<u8>,
    algo: DnssecAlgorithm,
)
    requires
        algo is EcdsaP256Sha256 ==> key.len() != 64,
        algo is EcdsaP384Sha384 ==> key.len() != 96,
        algo is Ed25519 ==> key.len() != 32,
        algo is RsaSha1 || algo is RsaSha1Nsec3 || algo is RsaSha256 || algo is RsaSha512
            ==> key.len() < 65,
    ensures
        verify_result(key, sig, digest, algo) is Err,
{
}

/// The algorithms that are not supported verify nothing.
pub proof fn law_unsupported_verifies_nothing(
    key: Seq<u8>,
    sig: Seq<u8>,
    digest: Seq<u8>,
    algo: DnssecAlgorithm,
)
    requires
        algo is Gost || algo is Ed448,
    ensures
        verify_result(key, sig, digest, algo) == Err::<(), CryptoFault>(
            CryptoFault::UnsupportedAlgorithm { algo: algo.number() },
        ),
{
}

/// The name of the hash function of an algorithm.
pub fn algo_digest_name(algo: DnssecAlgorithm) -> (r: Option<&'static str>)
    ensures
        r matches Some(name) && name@ == algo.hash_name(),
{
    Some(algo.digest_name())
}

/// The name of the hash function with a number in DS records.
pub open spec fn ds_hash_name(digest_type: u8) -> Option<Seq<char>> {
    if digest_type == 1 {
        Some("sha1"@)
    } else if digest_type == 2 {
        Some("sha256"@)
    } else if digest_type == 3 {
        Some("gost94"@)
    } else if digest_type == 4 {
        Some("sha384"@)
    } else {
        None
    }
}

/// What an optional name says.
pub open spec fn name_text(name: Option<&str>) -> Option<Seq<char>> {
    match name {
        Some(s) => Some(s@),
        None => None,
    }
}

/// The name of the hash function with a number in DS records.
pub fn ds_digest_name(digest_type: u8) -> (r: Option<&'static str>)
    ensures
        name_text(r) == ds_hash_name(digest_type),
{
    match digest_type {
        1 => Some("sha1"),
        2 => Some("sha256"),
        3 => Some("gost94"),
        4 => Some("sha384"),
        _ => None,
    }
}

/// The name of the hash function with a number in NSEC3 records.
pub fn nsec3_digest_name(digest_type: u8) -> (r: Option<&'static str>)
    ensures
        name_text(r) == (if digest_type == 1 {
            Some("sha1"@)
        } else {
            None
        }),
{
    match digest_type {
        1 => Some("sha1"),
        _ => None,
    }
}

} // verus!
