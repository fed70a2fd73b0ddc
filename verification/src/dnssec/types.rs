//! DNSSEC records and what a validation comes to.

use crate::clock::seconds_since_epoch;
use crate::text::{self, join_from, push_decimal, split_text, text_from_utf8_lossy};
use crate::wire::{self, copy_range, push_bytes, push_u16, push_u32, read_u16, read_u32};
use vstd::prelude::*;
use vstd::slice::slice_subrange;
use vstd::utf8::*;

verus! {

/// How a zone signs.
#[derive(Debug, Clone, Copy, PartialEq, Eq, Hash, Structural)]
pub enum DnssecAlgorithm {
    RsaSha1,
    RsaSha1Nsec3,
    RsaSha256,
    RsaSha512,
    Gost,
    EcdsaP256Sha256,
    EcdsaP384Sha384,
    Ed25519,
    Ed448,
}

impl DnssecAlgorithm {
    /// The number of the algorithm.
    pub open spec fn number(self) -> u8 {
        match self {
            DnssecAlgorithm::RsaSha1 => 5,
            DnssecAlgorithm::RsaSha1Nsec3 => 7,
            DnssecAlgorithm::RsaSha256 => 8,
            DnssecAlgorithm::RsaSha512 => 10,
            DnssecAlgorithm::Gost => 12,
            DnssecAlgorithm::EcdsaP256Sha256 => 13,
            DnssecAlgorithm::EcdsaP384Sha384 => 14,
            DnssecAlgorithm::Ed25519 => 15,
            DnssecAlgorithm::Ed448 => 16,
        }
    }

    /// The algorithm with a number.
    pub open spec fn numbered(value: u8) -> Option<DnssecAlgorithm> {
        if value == 5 {
            Some(DnssecAlgorithm::RsaSha1)
        } else if value == 7 {
            Some(DnssecAlgorithm::RsaSha1Nsec3)
        } else if value == 8 {
            Some(DnssecAlgorithm::RsaSha256)
        } else if value == 10 {
            Some(DnssecAlgorithm::RsaSha512)
        } else if value == 12 {
            Some(DnssecAlgorithm::Gost)
        } else if value == 13 {
            Some(DnssecAlgorithm::EcdsaP256Sha256)
        } else if value == 14 {
            Some(DnssecAlgorithm::EcdsaP384Sha384)
        } else if value == 15 {
            Some(DnssecAlgorithm::Ed25519)
        } else if value == 16 {
            Some(DnssecAlgorithm::Ed448)
        } else {
            None
        }
    }

    /// The name of the hash function.
    pub open spec fn hash_name(self) -> Seq<char> {
        match self {
            DnssecAlgorithm::RsaSha1 => "sha1"@,
            DnssecAlgorithm::RsaSha1Nsec3 => "sha1"@,
            DnssecAlgorithm::RsaSha256 => "sha256"@,
            DnssecAlgorithm::RsaSha512 => "sha512"@,
            DnssecAlgorithm::Gost => "gost94"@,
            DnssecAlgorithm::EcdsaP256Sha256 => "sha256"@,
            DnssecAlgorithm::EcdsaP384Sha384 => "sha384"@,
            DnssecAlgorithm::Ed25519 => "null"@,
            DnssecAlgorithm::Ed448 => "null"@,
        }
    }

    /// The algorithm in writing.
    pub open spec fn written(self) -> Seq<char> {
        match self {
            DnssecAlgorithm::RsaSha1 => "RSASHA1"@,
            DnssecAlgorithm::RsaSha1Nsec3 => "RSASHA1-NSEC3-SHA1"@,
            DnssecAlgorithm::RsaSha256 => "RSASHA256"@,
            DnssecAlgorithm::RsaSha512 => "RSASHA512"@,
            DnssecAlgorithm::Gost => "GOST R 34.10-2001"@,
            DnssecAlgorithm::EcdsaP256Sha256 => "ECDSAP256SHA256"@,
            DnssecAlgorithm::EcdsaP384Sha384 => "ECDSAP384SHA384"@,
            DnssecAlgorithm::Ed25519 => "ED25519"@,
            DnssecAlgorithm::Ed448 => "ED448"@,
        }
    }

    /// The algorithm with a number, if it is supported.
    pub fn from_u8(value: u8) -> (r: Option<Self>)
        ensures
            r == DnssecAlgorithm::numbered(value),
    {
        match value {
            5 => Some(DnssecAlgorithm::RsaSha1),
            7 => Some(DnssecAlgorithm::RsaSha1Nsec3),
            8 => Some(DnssecAlgorithm::RsaSha256),
            10 => Some(DnssecAlgorithm::RsaSha512),
            12 => Some(DnssecAlgorithm::Gost),
            13 => Some(DnssecAlgorithm::EcdsaP256Sha256),
            14 => Some(DnssecAlgorithm::EcdsaP384Sha384),
            15 => Some(DnssecAlgorithm::Ed25519),
            16 => Some(DnssecAlgorithm::Ed448),
            _ => None,
        }
    }

    /// The number of the algorithm.
    pub fn to_u8(self) -> (r: u8)
        ensures
            r == self.number(),
    {
        match self {
            DnssecAlgorithm::RsaSha1 => 5,
            DnssecAlgorithm::RsaSha1Nsec3 => 7,
            DnssecAlgorithm::RsaSha256 => 8,
            DnssecAlgorithm::RsaSha512 => 10,
            DnssecAlgorithm::Gost => 12,
            DnssecAlgorithm::EcdsaP256Sha256 => 13,
            DnssecAlgorithm::EcdsaP384Sha384 => 14,
            DnssecAlgorithm::Ed25519 => 15,
            DnssecAlgorithm::Ed448 => 16,
        }
    }

    /// The name of the hash function.
    pub fn digest_name(self) -> (r: &'static str)
        ensures
            r@ == self.hash_name(),
    {
        match self {
            DnssecAlgorithm::RsaSha1 => "sha1",
            DnssecAlgorithm::RsaSha1Nsec3 => "sha1",
            DnssecAlgorithm::RsaSha256 => "sha256",
            DnssecAlgorithm::RsaSha512 => "sha512",
            DnssecAlgorithm::Gost => "gost94",
            DnssecAlgorithm::EcdsaP256Sha256 => "sha256",
            DnssecAlgorithm::EcdsaP384Sha384 => "sha384",
            DnssecAlgorithm::Ed25519 => "null",
            DnssecAlgorithm::Ed448 => "null",
        }
    }

    /// The algorithm in writing.
    pub fn to_string(&self) -> (r: String)
        ensures
            r@ == self.written(),
    {
        match self {
            DnssecAlgorithm::RsaSha1 => "RSASHA1".to_owned(),
            DnssecAlgorithm::RsaSha1Nsec3 => "RSASHA1-NSEC3-SHA1".to_owned(),
            DnssecAlgorithm::RsaSha256 => "RSASHA256".to_owned(),
            DnssecAlgorithm::RsaSha512 => "RSASHA512".to_owned(),
            DnssecAlgorithm::Gost => "GOST R 34.10-2001".to_owned(),
            DnssecAlgorithm::EcdsaP256Sha256 => "ECDSAP256SHA256".to_owned(),
            DnssecAlgorithm::EcdsaP384Sha384 => "ECDSAP384SHA384".to_owned(),
            DnssecAlgorithm::Ed25519 => "ED25519".to_owned(),
            DnssecAlgorithm::Ed448 => "ED448".to_owned(),
        }
    }
}

/// The algorithm with the number of a algorithm is that algorithm.
pub proof fn law_algorithm_round_trip(a: DnssecAlgorithm)
    ensures
        DnssecAlgorithm::numbered(a.number()) == Some(a),
{
}

/// A supported number is that of its algorithm.
pub proof fn law_algorithm_number(value: u8)
    ensures
        DnssecAlgorithm::numbered(value) matches Some(a) ==> a.number() == value,
{
}

/// How a delegation names a key.
#[derive(Debug, Clone, Copy, PartialEq, Eq, Hash, Structural)]
pub enum DigestType {
    SHA1,
    SHA256,
    GOST,
    SHA384,
}

impl DigestType {
    /// The number of the digest type.
    pub open spec fn number(self) -> u8 {
        match self {
            DigestType::SHA1 => 1,
            DigestType::SHA256 => 2,
            DigestType::GOST => 3,
            DigestType::SHA384 => 4,
        }
    }

    /// The digest type with a number.
    pub open spec fn numbered(value: u8) -> Option<DigestType> {
        if value == 1 {
            Some(DigestType::SHA1)
        } else if value == 2 {
            Some(DigestType::SHA256)
        } else if value == 3 {
            Some(DigestType::GOST)
        } else if value == 4 {
            Some(DigestType::SHA384)
        } else {
            None
        }
    }

    /// The name of the hash function.
    pub open spec fn hash_name(self) -> Seq<char> {
        match self {
            DigestType::SHA1 => "sha1"@,
            DigestType::SHA256 => "sha256"@,
            DigestType::GOST => "gost94"@,
            DigestType::SHA384 => "sha384"@,
        }
    }

    /// The digest type in writing.
    pub open spec fn written(self) -> Seq<char> {
        match self {
            DigestType::SHA1 => "SHA-1"@,
            DigestType::SHA256 => "SHA-256"@,
            DigestType::GOST => "GOST R 34.11-94"@,
            DigestType::SHA384 => "SHA-384"@,
        }
    }

    /// The digest type with a number, if it is supported.
    pub fn from_u8(value: u8) -> (r: Option<Self>)
        ensures
            r == DigestType::numbered(value),
    {
        match value {
            1 => Some(DigestType::SHA1),
            2 => Some(DigestType::SHA256),
            3 => Some(DigestType::GOST),
            4 => Some(DigestType::SHA384),
            _ => None,
        }
    }

    /// The number of the digest type.
    pub fn to_u8(self) -> (r: u8)
        ensures
            r == self.number(),
    {
        match self {
            DigestType::SHA1 => 1,
            DigestType::SHA256 => 2,
            DigestType::GOST => 3,
            DigestType::SHA384 => 4,
        }
    }

    /// The name of the hash function.
    pub fn digest_name(self) -> (r: &'static str)
        ensures
            r@ == self.hash_name(),
    {
        match self {
            DigestType::SHA1 => "sha1",
            DigestType::SHA256 => "sha256",
            DigestType::GOST => "gost94",
            DigestType::SHA384 => "sha384",
        }
    }

    /// The digest type in writing.
    pub fn to_string(&self) -> (r: String)
        ensures
            r@ == self.written(),
    {
        match self {
            DigestType::SHA1 => "SHA-1".to_owned(),
            DigestType::SHA256 => "SHA-256".to_owned(),
            DigestType::GOST => "GOST R 34.11-94".to_owned(),
            DigestType::SHA384 => "SHA-384".to_owned(),
        }
    }
}

/// The digest type with the number of a digest type is that digest type.
pub proof fn law_digest_type_round_trip(a: DigestType)
    ensures
        DigestType::numbered(a.number()) == Some(a),
{
}

/// A supported number is that of its digest type.
pub proof fn law_digest_type_number(value: u8)
    ensures
        DigestType::numbered(value) matches Some(a) ==> a.number() == value,
{
}

/// Why a reply cannot be trusted.
#[derive(Debug, Clone, Copy, PartialEq, Eq, Hash, Structural)]
pub enum DnssecFailure {
    /// The signature's time has not come.
    NotYetValid,
    /// The signature's time is over.
    Expired,
    /// The outcome is open.
    Indeterminate,
    /// No key has an algorithm that is supported.
    NoSupportedKeyAlgorithm,
    /// There are no signatures.
    NoSignatures,
    /// A key is not that of a zone.
    NoZoneBit,
    /// Nothing proves that the name does not exist.
    NoNsec,
    /// No digest has an algorithm that is supported.
    NoSupportedDsAlgorithm,
    /// There are no keys.
    NoKey,
}

impl DnssecFailure {
    /// The failure in writing.
    pub open spec fn written(self) -> Seq<char> {
        match self {
            DnssecFailure::NotYetValid => "not yet valid"@,
            DnssecFailure::Expired => "expired"@,
            DnssecFailure::Indeterminate => "indeterminate"@,
            DnssecFailure::NoSupportedKeyAlgorithm => "no supported key algorithm"@,
            DnssecFailure::NoSignatures => "no signatures"@,
            DnssecFailure::NoZoneBit => "no zone bit"@,
            DnssecFailure::NoNsec => "no NSEC"@,
            DnssecFailure::NoSupportedDsAlgorithm => "no supported DS algorithm"@,
            DnssecFailure::NoKey => "no key"@,
        }
    }

    /// The failure in writing.
    pub fn to_string(&self) -> (r: String)
        ensures
            r@ == self.written(),
    {
        match self {
            DnssecFailure::NotYetValid => "not yet valid".to_owned(),
            DnssecFailure::Expired => "expired".to_owned(),
            DnssecFailure::Indeterminate => "indeterminate".to_owned(),
            DnssecFailure::NoSupportedKeyAlgorithm => "no supported key algorithm".to_owned(),
            DnssecFailure::NoSignatures => "no signatures".to_owned(),
            DnssecFailure::NoZoneBit => "no zone bit".to_owned(),
            DnssecFailure::NoNsec => "no NSEC".to_owned(),
            DnssecFailure::NoSupportedDsAlgorithm => "no supported DS algorithm".to_owned(),
            DnssecFailure::NoKey => "no key".to_owned(),
        }
    }
}

/// What a validation comes to.
#[derive(Debug, Clone, PartialEq, Eq)]
pub enum ValidationStatus {
    /// Signed, with a chain of trust.
    Secure,
    /// Signed, and made from a wildcard.
    SecureWildcard,
    /// Known not to be signed.
    Insecure,
    /// Not to be trusted.
    Bogus(Vec<DnssecFailure>),
    /// A DS record is needed first.
    NeedDs,
    /// A DNSKEY record is needed first.
    NeedKey,
    /// The reply was cut short.
    Truncated,
    /// Done.
    Okay,
    /// Given up.
    Abandoned,
}

/// Failures in writing, with commas between them.
pub open spec fn failures_written(failures: Seq<DnssecFailure>) -> Seq<char>
    decreases failures.len(),
{
    if failures.len() == 0 {
        Seq::empty()
    } else if failures.len() == 1 {
        failures[0].written()
    } else {
        failures_written(failures.drop_last()) + ", "@ + failures.last().written()
    }
}

impl ValidationStatus {
    /// The status in writing.
    pub open spec fn written(self) -> Seq<char> {
        match self {
            ValidationStatus::Secure => "SECURE"@,
            ValidationStatus::SecureWildcard => "SECURE (wildcard)"@,
            ValidationStatus::Insecure => "INSECURE"@,
            ValidationStatus::Bogus(failures) => if failures@.len() == 0 {
                "BOGUS"@
            } else {
                "BOGUS"@ + " ("@ + failures_written(failures@) + ")"@
            },
            ValidationStatus::NeedDs => "NEED DS"@,
            ValidationStatus::NeedKey => "NEED KEY"@,
            ValidationStatus::Truncated => "TRUNCATED"@,
            ValidationStatus::Okay => "OK"@,
            ValidationStatus::Abandoned => "ABANDONED"@,
        }
    }

    /// Whether the reply is signed.
    pub fn is_secure(&self) -> (r: bool)
        ensures
            r == (self is Secure || self is SecureWildcard),
    {
        matches!(self, ValidationStatus::Secure | ValidationStatus::SecureWildcard)
    }

    /// Whether the reply is not to be trusted.
    pub fn is_bogus(&self) -> (r: bool)
        ensures
            r == (self is Bogus),
    {
        matches!(self, ValidationStatus::Bogus(_))
    }

    /// The status in writing.
    pub fn to_string(&self) -> (r: String)
        ensures
            r@ == self.written(),
    {
        match self {
            ValidationStatus::Secure => "SECURE".to_owned(),
            ValidationStatus::SecureWildcard => "SECURE (wildcard)".to_owned(),
            ValidationStatus::Insecure => "INSECURE".to_owned(),
            ValidationStatus::Bogus(failures) => {
                let mut s: String = "BOGUS".to_owned();
                if failures.len() > 0 {
                    s.append(" (");
                    let ghost start = s@;
                    let mut i: usize = 0;
                    assert(s@ =~= start + failures_written(failures@.take(0)));
                    while i < failures.len()
                        invariant
                            i <= failures@.len(),
                            s@ == start + failures_written(failures@.take(i as int)),
                        decreases failures@.len() - i,
                    {
                        let ghost now = s@;
                        if i > 0 {
                            s.append(", ");
                        }
                        s.append(failures[i].to_string().as_str());
                        proof {
                            assert(failures@.take(i + 1).drop_last() =~= failures@.take(i as int));
                            if i == 0 {
                                assert(now =~= start);
                            }
                            assert(s@ =~= start + failures_written(failures@.take(i + 1)));
                        }
                        i = i + 1;
                    }
                    assert(failures@.take(i as int) =~= failures@);
                    s.append(")");
                    assert(s@ =~= self.written());
                }
                s
            },
            ValidationStatus::NeedDs => "NEED DS".to_owned(),
            ValidationStatus::NeedKey => "NEED KEY".to_owned(),
            ValidationStatus::Truncated => "TRUNCATED".to_owned(),
            ValidationStatus::Okay => "OK".to_owned(),
            ValidationStatus::Abandoned => "ABANDONED".to_owned(),
        }
    }
}

/// The error for a number that is not supported.
pub open spec fn unsupported_algorithm(byte: u8) -> Seq<char> {
    "Unsupported DNSSEC algorithm: "@ + text::decimal(byte as nat)
}

/// A text with a number behind it.
fn numbered_text(what: &str, n: u8) -> (r: String)
    ensures
        r@ == what@ + text::decimal(n as nat),
{
    let mut s: String = String::new();
    s.append(what);
    push_decimal(&mut s, n as u64);
    assert(s@ =~= what@ + text::decimal(n as nat));
    s
}

// ---------------------------------------------------------------------------
// DNSKEY
// ---------------------------------------------------------------------------

/// A public key of a zone.
#[derive(Debug, Clone, PartialEq, Eq)]
pub struct DnsKey {
    pub flags: u16,
    /// Always three.
    pub protocol: u8,
    pub algorithm: DnssecAlgorithm,
    pub public_key: Vec<u8>,
}

/// What a `DnsKey` holds.
pub struct KeyModel {
    pub flags: u16,
    pub protocol: u8,
    pub algorithm: DnssecAlgorithm,
    pub public_key: Seq<u8>,
}

impl View for DnsKey {
    type V = KeyModel;

    open spec fn view(&self) -> KeyModel {
        KeyModel {
            flags: self.flags,
            protocol: self.protocol,
            algorithm: self.algorithm,
            public_key: self.public_key@,
        }
    }
}

impl KeyModel {
    /// The key as record data.
    pub open spec fn wire(self) -> Seq<u8> {
        wire::be16_bytes(self.flags).push(self.protocol).push(self.algorithm.number())
            + self.public_key
    }

    /// The key in record data.
    pub open spec fn parsed(data: Seq<u8>) -> Result<KeyModel, Seq<char>> {
        if data.len() < 4 {
            Err("DNSKEY RDATA too short (minimum 4 bytes)"@)
        } else {
            match DnssecAlgorithm::numbered(data[3]) {
                None => Err(unsupported_algorithm(data[3])),
                Some(algorithm) => if data.len() == 4 {
                    Err("DNSKEY public key is empty"@)
                } else {
                    Ok(
                        KeyModel {
                            flags: wire::be16(data, 0),
                            protocol: data[2],
                            algorithm,
                            public_key: data.skip(4),
                        },
                    )
                },
            }
        }
    }
}

/// The sum of the bytes of record data, those at even places as high bytes.
pub open spec fn key_sum(data: Seq<u8>) -> nat
    decreases data.len(),
{
    if data.len() == 0 {
        0
    } else if data.len() % 2 == 1 {
        key_sum(data.drop_last()) + data.last() as nat * 256
    } else {
        key_sum(data.drop_last()) + data.last() as nat
    }
}

/// The tag of a key: the sum over its record data, with what is above sixteen
/// bits added once.
pub open spec fn key_tag_of(data: Seq<u8>) -> u16 {
    ((key_sum(data) + key_sum(data) / 65536) % 65536) as u16
}

/// The sum can be built in 32 bits.
pub open spec fn can_tag(data: Seq<u8>) -> bool {
    key_sum(data) + key_sum(data) / 65536 <= u32::MAX
}

/// The record data of a message is short enough for a tag.
pub proof fn law_short_key_can_tag(data: Seq<u8>)
    requires
        data.len() <= 65535,
    ensures
        can_tag(data),
{
    lemma_key_sum_bound(data);
}

proof fn lemma_key_sum_bound(data: Seq<u8>)
    ensures
        key_sum(data) <= 65280 * data.len(),
    decreases data.len(),
{
    if data.len() > 0 {
        lemma_key_sum_bound(data.drop_last());
    }
}

/// The sum over a part of record data is no more than that over all.
proof fn lemma_key_sum_grows(data: Seq<u8>, n: int)
    requires
        0 <= n <= data.len(),
    ensures
        key_sum(data.take(n)) <= key_sum(data),
    decreases data.len(),
{
    if n == data.len() {
        assert(data.take(n) =~= data);
    } else {
        assert(data.drop_last().take(n) =~= data.take(n));
        lemma_key_sum_grows(data.drop_last(), n);
    }
}

/// The tag of a key in record data.
pub fn find_key_tag(rdata: &[u8]) -> (r: u16)
    requires
        can_tag(rdata@),
    ensures
        r == key_tag_of(rdata@),
{
    let ghost data = rdata@;
    let mut sum: u32 = 0;
    let mut i: usize = 0;
    assert(data.take(0) =~= Seq::empty());
    while i < rdata.len()
        invariant
            i <= rdata@.len(),
            rdata@ == data,
            can_tag(data),
            sum == key_sum(data.take(i as int)),
        decreases rdata@.len() - i,
    {
        proof {
            assert(data.take(i + 1).drop_last() =~= data.take(i as int));
            assert(data.take(i + 1).last() == data[i as int]);
            lemma_key_sum_grows(data, i + 1);
        }
        if i % 2 == 0 {
            sum = sum + rdata[i] as u32 * 256;
        } else {
            sum = sum + rdata[i] as u32;
        }
        i = i + 1;
    }
    assert(data.take(i as int) =~= data);
    ((sum + sum / 65536) % 65536) as u16
}

impl DnsKey {
    /// A key.
    pub fn new(
        flags: u16,
        protocol: u8,
        algorithm: DnssecAlgorithm,
        public_key: Vec<u8>,
    ) -> (r: Self)
        ensures
            r@ == (KeyModel { flags, protocol, algorithm, public_key: public_key@ }),
    {
        DnsKey { flags, protocol, algorithm, public_key }
    }

    /// The flags.
    pub fn flags(&self) -> (r: u16)
        ensures
            r == self@.flags,
    {
        self.flags
    }

    /// The protocol.
    pub fn protocol(&self) -> (r: u8)
        ensures
            r == self@.protocol,
    {
        self.protocol
    }

    /// The algorithm.
    pub fn algorithm(&self) -> (r: DnssecAlgorithm)
        ensures
            r == self@.algorithm,
    {
        self.algorithm
    }

    /// The bytes of the key.
    pub fn public_key(&self) -> (r: &[u8])
        ensures
            r@ == self@.public_key,
    {
        self.public_key.as_slice()
    }

    /// The tag by which signatures name the key.
    pub fn keytag(&self) -> (r: u16)
        requires
            can_tag(self@.wire()),
        ensures
            r == key_tag_of(self@.wire()),
    {
        find_key_tag(self.to_wire().as_slice())
    }

    /// Whether the parameters for a verification are in order; the verification
    /// itself is left to `crate::dnssec::crypto`.
    pub fn verify_with_digest(&self, digest: &[u8], signature: &[u8]) -> (r: Result<bool, String>)
        ensures
            r matches Err(e) && e@ == self.refusal(digest@, signature@),
    {
        if digest.len() == 0 {
            return Err("Digest cannot be empty".to_owned());
        }
        if signature.len() == 0 {
            return Err("Signature cannot be empty".to_owned());
        }
        if self.public_key.len() == 0 {
            return Err("DNSKEY public key cannot be empty".to_owned());
        }
        if self.protocol != 3 {
            let mut s = numbered_text("Invalid protocol field: ", self.protocol);
            s.append(" (must be 3)");
            return Err(s);
        }
        let mut s: String = "Crypto verification not yet integrated for algorithm ".to_owned();
        s.append(self.algorithm.to_string().as_str());
        s.append(". Crypto module (crypto.rs) will implement algorithm-specific verification.");
        Err(s)
    }

    /// Why nothing is verified by the key alone.
    pub open spec fn refusal(self, digest: Seq<u8>, signature: Seq<u8>) -> Seq<char> {
        if digest.len() == 0 {
            "Digest cannot be empty"@
        } else if signature.len() == 0 {
            "Signature cannot be empty"@
        } else if self@.public_key.len() == 0 {
            "DNSKEY public key cannot be empty"@
        } else if self.protocol != 3 {
            "Invalid protocol field: "@ + text::decimal(self.protocol as nat) + " (must be 3)"@
        } else {
            "Crypto verification not yet integrated for algorithm "@ + self.algorithm.written()
                + ". Crypto module (crypto.rs) will implement algorithm-specific verification."@
        }
    }

    /// The key as record data.
    pub fn to_wire(&self) -> (r: Vec<u8>)
        ensures
            r@ == self@.wire(),
    {
        let mut data: Vec<u8> = Vec::new();
        push_u16(&mut data, self.flags);
        data.push(self.protocol);
        data.push(self.algorithm.to_u8());
        push_bytes(&mut data, self.public_key.as_slice());
        assert(data@ =~= self@.wire());
        data
    }

    /// Reads a key from record data.
    pub fn from_wire(data: &[u8]) -> (r: Result<Self, String>)
        ensures
            match r {
                Ok(key) => KeyModel::parsed(data@) == Ok::<KeyModel, Seq<char>>(key@),
                Err(e) => KeyModel::parsed(data@) == Err::<KeyModel, Seq<char>>(e@),
            },
    {
        if data.len() < 4 {
            return Err("DNSKEY RDATA too short (minimum 4 bytes)".to_owned());
        }
        let algorithm = match DnssecAlgorithm::from_u8(data[3]) {
            Some(a) => a,
            None => {
                return Err(numbered_text("Unsupported DNSSEC algorithm: ", data[3]));
            },
        };
        let public_key = copy_range(data, 4, data.len());
        assert(public_key@ =~= data@.skip(4));
        if public_key.len() == 0 {
            return Err("DNSKEY public key is empty".to_owned());
        }
        Ok(DnsKey { flags: read_u16(data, 0), protocol: data[2], algorithm, public_key })
    }
}

/// A key that was written is read back, unless it has no bytes.
pub proof fn law_key_round_trip(key: KeyModel)
    requires
        key.public_key.len() > 0,
    ensures
        KeyModel::parsed(key.wire()) == Ok::<KeyModel, Seq<char>>(key),
{
    wire::law_u16_round_trip(key.flags);
    law_algorithm_round_trip(key.algorithm);
    let data = key.wire();
    assert(data[0] == wire::be16_bytes(key.flags)[0]);
    assert(data[1] == wire::be16_bytes(key.flags)[1]);
    assert(data.skip(4) =~= key.public_key);
}

// ---------------------------------------------------------------------------
// Names in record data
// ---------------------------------------------------------------------------

/// The length byte of a label.
pub open spec fn label_byte(label: Seq<char>) -> u8 {
    if text::utf8_len(label) <= 255 {
        text::utf8_len(label) as u8
    } else {
        63
    }
}

/// The labels that are not empty, each behind its length.
pub open spec fn labels_wire(labels: Seq<Seq<char>>) -> Seq<u8>
    decreases labels.len(),
{
    if labels.len() == 0 {
        Seq::empty()
    } else if labels.last().len() == 0 {
        labels_wire(labels.drop_last())
    } else {
        labels_wire(labels.drop_last()) + seq![label_byte(labels.last())] + encode_utf8(
            labels.last(),
        )
    }
}

/// A name as it stands in record data.
pub open spec fn name_wire(name: Seq<char>) -> Seq<u8> {
    labels_wire(text::split(name, '.')).push(0)
}

/// Appends a name as it stands in record data.
pub fn push_name(data: &mut Vec<u8>, name: &str)
    ensures
        final(data)@ == old(data)@ + name_wire(name@),
{
    let labels = split_text(name, '.');
    let ghost all = text::texts(labels@);
    let ghost before = data@;
    let mut i: usize = 0;
    assert(before + labels_wire(all.take(0)) =~= before);
    while i < labels.len()
        invariant
            i <= labels@.len(),
            all == text::texts(labels@),
            data@ == before + labels_wire(all.take(i as int)),
        decreases labels@.len() - i,
    {
        proof {
            assert(all.take(i + 1).drop_last() =~= all.take(i as int));
            assert(all.take(i + 1).last() == all[i as int]);
        }
        let label = labels[i].as_str();
        if !label.is_empty() {
            let bytes = label.as_bytes();
            if bytes.len() <= 255 {
                data.push(bytes.len() as u8);
            } else {
                data.push(63);
            }
            push_bytes(data, bytes);
            assert(data@ =~= before + labels_wire(all.take(i + 1)));
        }
        i = i + 1;
    }
    assert(all.take(i as int) =~= all);
    data.push(0);
    assert(data@ =~= before + name_wire(name@));
}

/// The labels of a name in record data from `pos` on, behind those in `found`,
/// and where the name ends. A name may end with the data.
pub open spec fn read_labels(data: Seq<u8>, pos: int, found: Seq<Seq<char>>) -> Option<
    (Seq<Seq<char>>, int),
>
    decreases data.len() - pos,
{
    if pos >= data.len() {
        Some((found, pos))
    } else if data[pos] == 0 {
        Some((found, pos + 1))
    } else if pos + 1 + data[pos] > data.len() {
        None
    } else {
        read_labels(
            data,
            pos + 1 + data[pos],
            found.push(text::decoded(data.subrange(pos + 1, pos + 1 + data[pos]))),
        )
    }
}

/// Reads a name in record data; gives it with where it ends.
pub fn take_name(data: &[u8], start: usize) -> (r: Option<(String, usize)>)
    requires
        start <= data@.len(),
    ensures
        match r {
            Some((name, end)) => read_labels(data@, start as int, Seq::empty()) matches Some(
                (labels, e),
            ) && e == end && name@ == text::join(labels, '.') && start <= end <= data@.len(),
            None => read_labels(data@, start as int, Seq::empty()) is None,
        },
{
    let n: usize = data.len();
    let mut pos: usize = start;
    let mut labels: Vec<String> = Vec::new();
    assert(text::texts(labels@) =~= Seq::empty());
    while pos < n && data[pos] != 0
        invariant
            n == data@.len(),
            start <= pos <= n,
            read_labels(data@, start as int, Seq::empty()) == read_labels(
                data@,
                pos as int,
                text::texts(labels@),
            ),
        decreases n - pos,
    {
        let len: usize = data[pos] as usize;
        if n - pos - 1 < len {
            return None;
        }
        let label = text_from_utf8_lossy(slice_subrange(data, pos + 1, pos + 1 + len));
        let ghost found = text::texts(labels@);
        labels.push(label);
        assert(text::texts(labels@) =~= found.push(label@));
        pos = pos + 1 + len;
    }
    let name = join_from(&labels, 0, '.');
    assert(text::texts(labels@).skip(0) =~= text::texts(labels@));
    if pos < n {
        pos = pos + 1;
    }
    Some((name, pos))
}

/// The name can be written and read back: its labels are neither empty nor longer
/// than a length byte tells; the root has none.
pub open spec fn is_plain_name(name: Seq<char>) -> bool {
    name.len() == 0 || forall|i: int|
        0 <= i < text::split(name, '.').len() ==> 1 <= text::utf8_len(
            #[trigger] text::split(name, '.')[i],
        ) <= 255
}

/// Reading labels that were written, from the end of the first `n` on.
proof fn lemma_read_written(
    labels: Seq<Seq<char>>,
    n: int,
    front: Seq<u8>,
    tail: Seq<u8>,
    data: Seq<u8>,
)
    requires
        0 <= n <= labels.len(),
        forall|i: int|
            0 <= i < labels.len() ==> 1 <= text::utf8_len(#[trigger] labels[i]) <= 255,
        data == front + labels_wire(labels) + seq![0u8] + tail,
    ensures
        read_labels(
            data,
            front.len() + labels_wire(labels.take(n)).len() as int,
            labels.take(n),
        ) == Some((labels, (front.len() + labels_wire(labels).len() + 1) as int)),
        labels_wire(labels.take(n)).len() <= labels_wire(labels).len(),
        labels_wire(labels.take(n)) == labels_wire(labels).take(
            labels_wire(labels.take(n)).len() as int,
        ),
    decreases labels.len() - n,
{
    let all = labels_wire(labels);
    let part = labels_wire(labels.take(n));
    let pos = (front.len() + part.len()) as int;
    if n == labels.len() {
        assert(labels.take(n) =~= labels);
        assert(data[pos] == 0);
        assert(all.take(part.len() as int) =~= part);
    } else {
        lemma_read_written(labels, n + 1, front, tail, data);
        let longer = labels.take(n + 1);
        assert(longer.drop_last() =~= labels.take(n));
        assert(longer.last() == labels[n]);
        let label = labels[n];
        assert(label.len() > 0) by {
            if label.len() == 0 {
                assert(encode_utf8(label) =~= Seq::<u8>::empty());
            }
        }
        let bytes = encode_utf8(label);
        let long_part = labels_wire(longer);
        assert(long_part == part + seq![label_byte(label)] + bytes);
        assert(long_part == all.take(long_part.len() as int));
        assert(forall|i: int| 0 <= i < long_part.len() ==> all[i] == long_part[i]);
        assert(part =~= all.take(part.len() as int));
        assert(data[pos] == all[part.len() as int]);
        assert(data[pos] == label_byte(label));
        assert(data.subrange(pos + 1, pos + 1 + data[pos]) =~= bytes);
        encode_utf8_valid_utf8(label);
        encode_utf8_decode_utf8(label);
        assert(labels.take(n).push(label) =~= longer);
    }
}

/// A plain name that was written behind `front` is read back.
pub proof fn lemma_name_read_back(name: Seq<char>, front: Seq<u8>, tail: Seq<u8>)
    requires
        is_plain_name(name),
    ensures
        read_labels(front + name_wire(name) + tail, front.len() as int, Seq::empty()) matches Some(
            (labels, end),
        ) && text::join(labels, '.') == name && end == front.len() + name_wire(name).len(),
{
    let labels = text::split(name, '.');
    let data = front + name_wire(name) + tail;
    text::law_split_join(name, '.');
    if name.len() == 0 {
        assert(labels =~= seq![Seq::<char>::empty()]);
        assert(labels.drop_last() =~= Seq::empty());
        assert(labels_wire(labels) =~= Seq::empty());
        assert(data[front.len() as int] == 0);
        assert(text::join(Seq::empty(), '.') =~= name);
    } else {
        assert(data =~= front + labels_wire(labels) + seq![0u8] + tail);
        lemma_read_written(labels, 0, front, tail, data);
        assert(labels.take(0) =~= Seq::empty());
    }
}

// ---------------------------------------------------------------------------
// RRSIG
// ---------------------------------------------------------------------------

/// A signature over records.
#[derive(Debug, Clone, PartialEq, Eq)]
pub struct RRSig {
    pub type_covered: u16,
    pub algorithm: DnssecAlgorithm,
    /// How many labels the signed name has; fewer than the name of the records
    /// when they come from a wildcard.
    pub labels: u8,
    pub original_ttl: u32,
    pub signature_expiration: u32,
    pub signature_inception: u32,
    pub key_tag: u16,
    pub signer_name: String,
    pub signature: Vec<u8>,
}

/// What an `RRSig` holds.
pub struct SigModel {
    pub type_covered: u16,
    pub algorithm: DnssecAlgorithm,
    pub labels: u8,
    pub original_ttl: u32,
    pub signature_expiration: u32,
    pub signature_inception: u32,
    pub key_tag: u16,
    pub signer_name: Seq<char>,
    pub signature: Seq<u8>,
}

impl View for RRSig {
    type V = SigModel;

    open spec fn view(&self) -> SigModel {
        SigModel {
            type_covered: self.type_covered,
            algorithm: self.algorithm,
            labels: self.labels,
            original_ttl: self.original_ttl,
            signature_expiration: self.signature_expiration,
            signature_inception: self.signature_inception,
            key_tag: self.key_tag,
            signer_name: self.signer_name@,
            signature: self.signature@,
        }
    }
}

impl SigModel {
    /// The signature's fields before the name of the signer.
    pub open spec fn head(self) -> Seq<u8> {
        wire::be16_bytes(self.type_covered).push(self.algorithm.number()).push(self.labels)
            + wire::be32_bytes(self.original_ttl) + wire::be32_bytes(self.signature_expiration)
            + wire::be32_bytes(self.signature_inception) + wire::be16_bytes(self.key_tag)
    }

    /// The signature as record data.
    pub open spec fn wire(self) -> Seq<u8> {
        self.head() + name_wire(self.signer_name) + self.signature
    }

    /// The signature in record data.
    pub open spec fn parsed(data: Seq<u8>) -> Result<SigModel, Seq<char>> {
        if data.len() < 18 {
            Err("RRSIG RDATA too short (minimum 18 bytes before signer name)"@)
        } else {
            match DnssecAlgorithm::numbered(data[2]) {
                None => Err(unsupported_algorithm(data[2])),
                Some(algorithm) => match read_labels(data, 18, Seq::empty()) {
                    None => Err("RRSIG signer name extends beyond RDATA"@),
                    Some((labels, end)) => if end >= data.len() {
                        Err("RRSIG signature is empty"@)
                    } else {
                        Ok(
                            SigModel {
                                type_covered: wire::be16(data, 0),
                                algorithm,
                                labels: data[3],
                                original_ttl: wire::be32(data, 4),
                                signature_expiration: wire::be32(data, 8),
                                signature_inception: wire::be32(data, 12),
                                key_tag: wire::be16(data, 16),
                                signer_name: text::join(labels, '.'),
                                signature: data.skip(end),
                            },
                        )
                    },
                },
            }
        }
    }
}

/// A time as signatures tell it: what does not fit is the last time.
pub open spec fn sig_time(now: u64) -> u32 {
    if now > u32::MAX {
        u32::MAX
    } else {
        now as u32
    }
}

/// The time now as signatures tell it.
fn sig_time_of(now: u64) -> (r: u32)
    ensures
        r == sig_time(now),
{
    if now > 0xFFFF_FFFF {
        0xFFFF_FFFF
    } else {
        now as u32
    }
}

/// The seconds since 1970 that a reading of the clock stands for; zero when the
/// clock stands before that.
pub fn seconds_of(reading: Option<u64>) -> (r: u64)
    ensures
        r == (match reading {
            Some(now) => now,
            None => 0,
        }),
{
    match reading {
        Some(now) => now,
        None => 0,
    }
}

/// The seconds since 1970: those that `seconds_of` takes from what the clock shows
/// now. What it shows is not stated, so any number can come.
fn now_or_zero() -> (r: u64) {
    seconds_of(seconds_since_epoch())
}

impl RRSig {
    /// A signature.
    pub fn new(
        type_covered: u16,
        algorithm: DnssecAlgorithm,
        labels: u8,
        original_ttl: u32,
        signature_expiration: u32,
        signature_inception: u32,
        key_tag: u16,
        signer_name: String,
        signature: Vec<u8>,
    ) -> (r: Self)
        ensures
            r@ == (SigModel {
                type_covered,
                algorithm,
                labels,
                original_ttl,
                signature_expiration,
                signature_inception,
                key_tag,
                signer_name: signer_name@,
                signature: signature@,
            }),
    {
        RRSig {
            type_covered,
            algorithm,
            labels,
            original_ttl,
            signature_expiration,
            signature_inception,
            key_tag,
            signer_name,
            signature,
        }
    }

    /// The type of the signed records.
    pub fn type_covered(&self) -> (r: u16)
        ensures
            r == self@.type_covered,
    {
        self.type_covered
    }

    /// The algorithm.
    pub fn algorithm(&self) -> (r: DnssecAlgorithm)
        ensures
            r == self@.algorithm,
    {
        self.algorithm
    }

    /// How many labels the signed name has.
    pub fn labels(&self) -> (r: u8)
        ensures
            r == self@.labels,
    {
        self.labels
    }

    /// The time to live of the signed records.
    pub fn original_ttl(&self) -> (r: u32)
        ensures
            r == self@.original_ttl,
    {
        self.original_ttl
    }

    /// When the signature ends.
    pub fn signature_expiration(&self) -> (r: u32)
        ensures
            r == self@.signature_expiration,
    {
        self.signature_expiration
    }

    /// When the signature begins.
    pub fn signature_inception(&self) -> (r: u32)
        ensures
            r == self@.signature_inception,
    {
        self.signature_inception
    }

    /// The tag of the key.
    pub fn key_tag(&self) -> (r: u16)
        ensures
            r == self@.key_tag,
    {
        self.key_tag
    }

    /// The zone that signed.
    pub fn signer_name(&self) -> (r: &str)
        ensures
            r@ == self@.signer_name,
    {
        self.signer_name.as_str()
    }

    /// The bytes of the signature.
    pub fn signature(&self) -> (r: &[u8])
        ensures
            r@ == self@.signature,
    {
        self.signature.as_slice()
    }

    /// Whether the signature's time is over, `now` seconds after 1970.
    pub fn is_expired_at(&self, now: u64) -> (r: bool)
        ensures
            r == (sig_time(now) > self@.signature_expiration),
    {
        sig_time_of(now) > self.signature_expiration
    }

    /// Whether the signature's time has not come, `now` seconds after 1970.
    pub fn is_not_yet_valid_at(&self, now: u64) -> (r: bool)
        ensures
            r == (sig_time(now) < self@.signature_inception),
    {
        sig_time_of(now) < self.signature_inception
    }

    /// Whether the signature's time is over by the system clock.
    pub fn is_expired(&self) -> (r: bool)
        ensures
            exists|now: u64| r == (sig_time(now) > self@.signature_expiration),
            self@.signature_expiration == u32::MAX ==> !r,
    {
        self.is_expired_at(now_or_zero())
    }

    /// Whether the signature's time has not come by the system clock.
    pub fn is_not_yet_valid(&self) -> (r: bool)
        ensures
            exists|now: u64| r == (sig_time(now) < self@.signature_inception),
            self@.signature_inception == 0 ==> !r,
    {
        self.is_not_yet_valid_at(now_or_zero())
    }

    /// The signature as record data.
    pub fn to_wire(&self) -> (r: Vec<u8>)
        ensures
            r@ == self@.wire(),
    {
        let mut data: Vec<u8> = Vec::new();
        push_u16(&mut data, self.type_covered);
        data.push(self.algorithm.to_u8());
        data.push(self.labels);
        push_u32(&mut data, self.original_ttl);
        push_u32(&mut data, self.signature_expiration);
        push_u32(&mut data, self.signature_inception);
        push_u16(&mut data, self.key_tag);
        assert(data@ =~= self@.head());
        push_name(&mut data, self.signer_name.as_str());
        push_bytes(&mut data, self.signature.as_slice());
        data
    }

    /// Reads a signature from record data.
    pub fn from_wire(data: &[u8]) -> (r: Result<Self, String>)
        ensures
            match r {
                Ok(sig) => SigModel::parsed(data@) == Ok::<SigModel, Seq<char>>(sig@),
                Err(e) => SigModel::parsed(data@) == Err::<SigModel, Seq<char>>(e@),
            },
    {
        if data.len() < 18 {
            return Err(
                "RRSIG RDATA too short (minimum 18 bytes before signer name)".to_owned(),
            );
        }
        let algorithm = match DnssecAlgorithm::from_u8(data[2]) {
            Some(a) => a,
            None => {
                return Err(numbered_text("Unsupported DNSSEC algorithm: ", data[2]));
            },
        };
        let (signer_name, pos) = match take_name(data, 18) {
            Some(found) => found,
            None => {
                return Err("RRSIG signer name extends beyond RDATA".to_owned());
            },
        };
        if pos >= data.len() {
            return Err("RRSIG signature is empty".to_owned());
        }
        let signature = copy_range(data, pos, data.len());
        assert(signature@ =~= data@.skip(pos as int));
        Ok(
            RRSig {
                type_covered: read_u16(data, 0),
                algorithm,
                labels: data[3],
                original_ttl: read_u32(data, 4),
                signature_expiration: read_u32(data, 8),
                signature_inception: read_u32(data, 12),
                key_tag: read_u16(data, 16),
                signer_name,
                signature,
            },
        )
    }
}

/// A signature is never both over and yet to come, if it ends after it begins.
pub proof fn law_one_side_of_the_window(sig: SigModel, now: u64)
    requires
        sig.signature_inception <= sig.signature_expiration,
    ensures
        !(sig_time(now) > sig.signature_expiration && sig_time(now) < sig.signature_inception),
{
}

/// A signature that was written is read back, if its signer has a plain name and
/// it is not empty.
pub proof fn law_signature_round_trip(sig: SigModel)
    requires
        is_plain_name(sig.signer_name),
        sig.signature.len() > 0,
    ensures
        SigModel::parsed(sig.wire()) == Ok::<SigModel, Seq<char>>(sig),
{
    let head = sig.head();
    let data = sig.wire();
    wire::law_u16_round_trip(sig.type_covered);
    wire::law_u16_round_trip(sig.key_tag);
    wire::law_u32_round_trip(sig.original_ttl);
    wire::law_u32_round_trip(sig.signature_expiration);
    wire::law_u32_round_trip(sig.signature_inception);
    law_algorithm_round_trip(sig.algorithm);
    assert(head.len() == 18);
    assert(forall|i: int| 0 <= i < 18 ==> data[i] == head[i]);
    let tt = wire::be32_bytes(sig.original_ttl);
    let ex = wire::be32_bytes(sig.signature_expiration);
    let inc = wire::be32_bytes(sig.signature_inception);
    assert(forall|i: int| 0 <= i < 4 ==> head[4 + i] == tt[i]);
    assert(forall|i: int| 0 <= i < 4 ==> head[8 + i] == ex[i]);
    assert(forall|i: int| 0 <= i < 4 ==> head[12 + i] == inc[i]);
    assert(head[16] == wire::be16_bytes(sig.key_tag)[0]);
    assert(head[17] == wire::be16_bytes(sig.key_tag)[1]);
    assert(head[0] == wire::be16_bytes(sig.type_covered)[0]);
    assert(head[1] == wire::be16_bytes(sig.type_covered)[1]);
    assert(data =~= head + name_wire(sig.signer_name) + sig.signature);
    lemma_name_read_back(sig.signer_name, head, sig.signature);
    let end = head.len() + name_wire(sig.signer_name).len();
    assert(data.skip(end as int) =~= sig.signature);
    assert(wire::be32(data, 4) == wire::be32(tt, 0));
    assert(wire::be32(data, 8) == wire::be32(ex, 0));
    assert(wire::be32(data, 12) == wire::be32(inc, 0));
}

// ---------------------------------------------------------------------------
// DS
// ---------------------------------------------------------------------------

/// The digest of a key of a delegated zone.
#[derive(Debug, Clone, PartialEq, Eq)]
pub struct DsRecord {
    pub key_tag: u16,
    pub algorithm: DnssecAlgorithm,
    pub digest_type: DigestType,
    pub digest: Vec<u8>,
}

/// What a `DsRecord` holds.
pub struct DsModel {
    pub key_tag: u16,
    pub algorithm: DnssecAlgorithm,
    pub digest_type: DigestType,
    pub digest: Seq<u8>,
}

impl View for DsRecord {
    type V = DsModel;

    open spec fn view(&self) -> DsModel {
        DsModel {
            key_tag: self.key_tag,
            algorithm: self.algorithm,
            digest_type: self.digest_type,
            digest: self.digest@,
        }
    }
}

impl DsModel {
    /// The record as record data.
    pub open spec fn wire(self) -> Seq<u8> {
        wire::be16_bytes(self.key_tag).push(self.algorithm.number()).push(
            self.digest_type.number(),
        ) + self.digest
    }

    /// The record in record data.
    pub open spec fn parsed(data: Seq<u8>) -> Result<DsModel, Seq<char>> {
        if data.len() < 4 {
            Err("DS RDATA too short (minimum 4 bytes)"@)
        } else {
            match DnssecAlgorithm::numbered(data[2]) {
                None => Err(unsupported_algorithm(data[2])),
                Some(algorithm) => match DigestType::numbered(data[3]) {
                    None => Err(
                        "Unsupported digest type: "@ + text::decimal(data[3] as nat),
                    ),
                    Some(digest_type) => if data.len() == 4 {
                        Err("DS digest is empty"@)
                    } else {
                        Ok(
                            DsModel {
                                key_tag: wire::be16(data, 0),
                                algorithm,
                                digest_type,
                                digest: data.skip(4),
                            },
                        )
                    },
                },
            }
        }
    }
}

impl DsRecord {
    /// A digest of a key.
    pub fn new(
        key_tag: u16,
        algorithm: DnssecAlgorithm,
        digest_type: DigestType,
        digest: Vec<u8>,
    ) -> (r: Self)
        ensures
            r@ == (DsModel { key_tag, algorithm, digest_type, digest: digest@ }),
    {
        DsRecord { key_tag, algorithm, digest_type, digest }
    }

    /// The tag of the key.
    pub fn key_tag(&self) -> (r: u16)
        ensures
            r == self@.key_tag,
    {
        self.key_tag
    }

    /// The algorithm of the key.
    pub fn algorithm(&self) -> (r: DnssecAlgorithm)
        ensures
            r == self@.algorithm,
    {
        self.algorithm
    }

    /// How the digest was made.
    pub fn digest_type(&self) -> (r: DigestType)
        ensures
            r == self@.digest_type,
    {
        self.digest_type
    }

    /// The bytes of the digest.
    pub fn digest(&self) -> (r: &[u8])
        ensures
            r@ == self@.digest,
    {
        self.digest.as_slice()
    }

    /// The record as record data.
    pub fn to_wire(&self) -> (r: Vec<u8>)
        ensures
            r@ == self@.wire(),
    {
        let mut data: Vec<u8> = Vec::new();
        push_u16(&mut data, self.key_tag);
        data.push(self.algorithm.to_u8());
        data.push(self.digest_type.to_u8());
        push_bytes(&mut data, self.digest.as_slice());
        assert(data@ =~= self@.wire());
        data
    }

    /// Reads a record from record data.
    pub fn from_wire(data: &[u8]) -> (r: Result<Self, String>)
        ensures
            match r {
                Ok(ds) => DsModel::parsed(data@) == Ok::<DsModel, Seq<char>>(ds@),
                Err(e) => DsModel::parsed(data@) == Err::<DsModel, Seq<char>>(e@),
            },
    {
        if data.len() < 4 {
            return Err("DS RDATA too short (minimum 4 bytes)".to_owned());
        }
        let algorithm = match DnssecAlgorithm::from_u8(data[2]) {
            Some(a) => a,
            None => {
                return Err(numbered_text("Unsupported DNSSEC algorithm: ", data[2]));
            },
        };
        let digest_type = match DigestType::from_u8(data[3]) {
            Some(d) => d,
            None => {
                return Err(numbered_text("Unsupported digest type: ", data[3]));
            },
        };
        let digest = copy_range(data, 4, data.len());
        assert(digest@ =~= data@.skip(4));
        if digest.len() == 0 {
            return Err("DS digest is empty".to_owned());
        }
        Ok(DsRecord { key_tag: read_u16(data, 0), algorithm, digest_type, digest })
    }
}

/// A digest that was written is read back, unless it has no bytes.
pub proof fn law_ds_round_trip(ds: DsModel)
    requires
        ds.digest.len() > 0,
    ensures
        DsModel::parsed(ds.wire()) == Ok::<DsModel, Seq<char>>(ds),
{
    wire::law_u16_round_trip(ds.key_tag);
    law_algorithm_round_trip(ds.algorithm);
    law_digest_type_round_trip(ds.digest_type);
    let data = ds.wire();
    assert(data[0] == wire::be16_bytes(ds.key_tag)[0]);
    assert(data[1] == wire::be16_bytes(ds.key_tag)[1]);
    assert(data.skip(4) =~= ds.digest);
}

// ---------------------------------------------------------------------------
// Type bitmaps
// ---------------------------------------------------------------------------

/// Whether a type is among those that a bitmap from `pos` on tells: the first
/// whole window of the type that is long enough tells it.
pub open spec fn bitmap_tells(bitmap: Seq<u8>, rrtype: u16, pos: int) -> bool
    decreases bitmap.len() - pos,
{
    if pos + 1 >= bitmap.len() {
        false
    } else {
        let len = bitmap[pos + 1] as nat;
        let offset = (rrtype % 256) / 8;
        if pos + 2 + len > bitmap.len() {
            false
        } else if bitmap[pos] == rrtype / 256 && offset < len {
            bitmap[pos + 2 + offset] & (0x80u8 >> ((rrtype % 8) as u8)) != 0
        } else {
            bitmap_tells(bitmap, rrtype, pos + 2 + len)
        }
    }
}

/// Whether a type is among those that a bitmap tells.
pub fn bitmap_has(bitmap: &[u8], rrtype: u16) -> (r: bool)
    ensures
        r == bitmap_tells(bitmap@, rrtype, 0),
{
    let n: usize = bitmap.len();
    let offset: usize = ((rrtype % 256) / 8) as usize;
    let mut pos: usize = 0;
    while pos < n && n - pos > 1
        invariant
            n == bitmap@.len(),
            offset == (rrtype % 256) / 8,
            bitmap_tells(bitmap@, rrtype, 0) == bitmap_tells(bitmap@, rrtype, pos as int),
        decreases n - pos,
    {
        let len: usize = bitmap[pos + 1] as usize;
        if n - pos - 2 < len {
            return false;
        }
        if bitmap[pos] as u16 == rrtype / 256 && offset < len {
            let mask: u8 = 0x80u8 >> ((rrtype % 8) as u8);
            return bitmap[pos + 2 + offset] & mask != 0;
        }
        pos = pos + 2 + len;
    }
    false
}

// ---------------------------------------------------------------------------
// NSEC
// ---------------------------------------------------------------------------

/// A proof that no name stands between two names of a zone.
#[derive(Debug, Clone, PartialEq, Eq)]
pub struct NsecRecord {
    pub next_domain: String,
    /// Which types the first name has.
    pub type_bitmap: Vec<u8>,
}

/// What an `NsecRecord` holds.
pub struct NsecModel {
    pub next_domain: Seq<char>,
    pub type_bitmap: Seq<u8>,
}

impl View for NsecRecord {
    type V = NsecModel;

    open spec fn view(&self) -> NsecModel {
        NsecModel { next_domain: self.next_domain@, type_bitmap: self.type_bitmap@ }
    }
}

impl NsecModel {
    /// The record as record data.
    pub open spec fn wire(self) -> Seq<u8> {
        name_wire(self.next_domain) + self.type_bitmap
    }

    /// The record in record data.
    pub open spec fn parsed(data: Seq<u8>) -> Result<NsecModel, Seq<char>> {
        if data.len() == 0 {
            Err("NSEC RDATA is empty"@)
        } else {
            match read_labels(data, 0, Seq::empty()) {
                None => Err("NSEC next domain extends beyond RDATA"@),
                Some((labels, end)) => if end >= data.len() {
                    Err("NSEC type bitmap is missing"@)
                } else {
                    Ok(
                        NsecModel {
                            next_domain: text::join(labels, '.'),
                            type_bitmap: data.skip(end),
                        },
                    )
                },
            }
        }
    }
}

impl NsecRecord {
    /// A proof.
    pub fn new(next_domain: String, type_bitmap: Vec<u8>) -> (r: Self)
        ensures
            r@ == (NsecModel { next_domain: next_domain@, type_bitmap: type_bitmap@ }),
    {
        NsecRecord { next_domain, type_bitmap }
    }

    /// The second name.
    pub fn next_domain(&self) -> (r: &str)
        ensures
            r@ == self@.next_domain,
    {
        self.next_domain.as_str()
    }

    /// The types of the first name.
    pub fn type_bitmap(&self) -> (r: &[u8])
        ensures
            r@ == self@.type_bitmap,
    {
        self.type_bitmap.as_slice()
    }

    /// Whether the first name has records of a type.
    pub fn covers_type(&self, rrtype: u16) -> (r: bool)
        ensures
            r == bitmap_tells(self@.type_bitmap, rrtype, 0),
    {
        bitmap_has(self.type_bitmap.as_slice(), rrtype)
    }

    /// The record as record data.
    pub fn to_wire(&self) -> (r: Vec<u8>)
        ensures
            r@ == self@.wire(),
    {
        let mut data: Vec<u8> = Vec::new();
        push_name(&mut data, self.next_domain.as_str());
        push_bytes(&mut data, self.type_bitmap.as_slice());
        assert(data@ =~= self@.wire());
        data
    }

    /// Reads a record from record data.
    pub fn from_wire(data: &[u8]) -> (r: Result<Self, String>)
        ensures
            match r {
                Ok(nsec) => NsecModel::parsed(data@) == Ok::<NsecModel, Seq<char>>(nsec@),
                Err(e) => NsecModel::parsed(data@) == Err::<NsecModel, Seq<char>>(e@),
            },
    {
        if data.len() == 0 {
            return Err("NSEC RDATA is empty".to_owned());
        }
        let (next_domain, pos) = match take_name(data, 0) {
            Some(found) => found,
            None => {
                return Err("NSEC next domain extends beyond RDATA".to_owned());
            },
        };
        if pos >= data.len() {
            return Err("NSEC type bitmap is missing".to_owned());
        }
        let type_bitmap = copy_range(data, pos, data.len());
        assert(type_bitmap@ =~= data@.skip(pos as int));
        Ok(NsecRecord { next_domain, type_bitmap })
    }
}

/// A proof that was written is read back, if its name is plain and it has types.
pub proof fn law_nsec_round_trip(nsec: NsecModel)
    requires
        is_plain_name(nsec.next_domain),
        nsec.type_bitmap.len() > 0,
    ensures
        NsecModel::parsed(nsec.wire()) == Ok::<NsecModel, Seq<char>>(nsec),
{
    let data = nsec.wire();
    lemma_name_read_back(nsec.next_domain, Seq::empty(), nsec.type_bitmap);
    assert(Seq::<u8>::empty() + name_wire(nsec.next_domain) + nsec.type_bitmap =~= data);
    assert(data.skip(name_wire(nsec.next_domain).len() as int) =~= nsec.type_bitmap);
}

// ---------------------------------------------------------------------------
// NSEC3
// ---------------------------------------------------------------------------

/// A proof that no hash of a name stands between two hashes.
#[derive(Debug, Clone, PartialEq, Eq)]
pub struct Nsec3Record {
    pub hash_algorithm: u8,
    pub flags: u8,
    pub iterations: u16,
    pub salt: Vec<u8>,
    pub next_hashed_owner: Vec<u8>,
    pub type_bitmap: Vec<u8>,
}

/// What an `Nsec3Record` holds.
pub struct Nsec3Model {
    pub hash_algorithm: u8,
    pub flags: u8,
    pub iterations: u16,
    pub salt: Seq<u8>,
    pub next_hashed_owner: Seq<u8>,
    pub type_bitmap: Seq<u8>,
}

impl View for Nsec3Record {
    type V = Nsec3Model;

    open spec fn view(&self) -> Nsec3Model {
        Nsec3Model {
            hash_algorithm: self.hash_algorithm,
            flags: self.flags,
            iterations: self.iterations,
            salt: self.salt@,
            next_hashed_owner: self.next_hashed_owner@,
            type_bitmap: self.type_bitmap@,
        }
    }
}

/// A length in one byte; a longer one is told as the longest.
pub open spec fn short_len(bytes: Seq<u8>) -> u8 {
    if bytes.len() <= 255 {
        bytes.len() as u8
    } else {
        255
    }
}

impl Nsec3Model {
    /// The record as record data.
    pub open spec fn wire(self) -> Seq<u8> {
        seq![self.hash_algorithm, self.flags] + wire::be16_bytes(self.iterations) + seq![
            short_len(self.salt),
        ] + self.salt + seq![short_len(self.next_hashed_owner)] + self.next_hashed_owner
            + self.type_bitmap
    }

    /// The record in record data.
    pub open spec fn parsed(data: Seq<u8>) -> Result<Nsec3Model, Seq<char>> {
        if data.len() < 5 {
            Err("NSEC3 RDATA too short (minimum 5 bytes)"@)
        } else {
            let hash_pos = 5 + data[4];
            let bitmap_pos = hash_pos + 1 + data[hash_pos];
            if data.len() < hash_pos {
                Err("NSEC3 salt extends beyond RDATA"@)
            } else if data.len() == hash_pos {
                Err("NSEC3 hash length missing"@)
            } else if data.len() < bitmap_pos {
                Err("NSEC3 hash extends beyond RDATA"@)
            } else {
                Ok(
                    Nsec3Model {
                        hash_algorithm: data[0],
                        flags: data[1],
                        iterations: wire::be16(data, 2),
                        salt: data.subrange(5, hash_pos),
                        next_hashed_owner: data.subrange(hash_pos + 1, bitmap_pos),
                        type_bitmap: data.skip(bitmap_pos),
                    },
                )
            }
        }
    }
}

/// Appends bytes behind their length.
fn push_counted(data: &mut Vec<u8>, bytes: &[u8])
    ensures
        final(data)@ == old(data)@ + seq![short_len(bytes@)] + bytes@,
{
    if bytes.len() <= 255 {
        data.push(bytes.len() as u8);
    } else {
        data.push(255);
    }
    push_bytes(data, bytes);
    assert(data@ =~= old(data)@ + seq![short_len(bytes@)] + bytes@);
}

impl Nsec3Record {
    /// A proof.
    pub fn new(
        hash_algorithm: u8,
        flags: u8,
        iterations: u16,
        salt: Vec<u8>,
        next_hashed_owner: Vec<u8>,
        type_bitmap: Vec<u8>,
    ) -> (r: Self)
        ensures
            r@ == (Nsec3Model {
                hash_algorithm,
                flags,
                iterations,
                salt: salt@,
                next_hashed_owner: next_hashed_owner@,
                type_bitmap: type_bitmap@,
            }),
    {
        Nsec3Record { hash_algorithm, flags, iterations, salt, next_hashed_owner, type_bitmap }
    }

    /// How names are hashed.
    pub fn hash_algorithm(&self) -> (r: u8)
        ensures
            r == self@.hash_algorithm,
    {
        self.hash_algorithm
    }

    /// The flags.
    pub fn flags(&self) -> (r: u8)
        ensures
            r == self@.flags,
    {
        self.flags
    }

    /// How many times more a name is hashed.
    pub fn iterations(&self) -> (r: u16)
        ensures
            r == self@.iterations,
    {
        self.iterations
    }

    /// What is hashed with a name.
    pub fn salt(&self) -> (r: &[u8])
        ensures
            r@ == self@.salt,
    {
        self.salt.as_slice()
    }

    /// The second hash.
    pub fn next_hashed_owner(&self) -> (r: &[u8])
        ensures
            r@ == self@.next_hashed_owner,
    {
        self.next_hashed_owner.as_slice()
    }

    /// The types of the first name.
    pub fn type_bitmap(&self) -> (r: &[u8])
        ensures
            r@ == self@.type_bitmap,
    {
        self.type_bitmap.as_slice()
    }

    /// Whether the first name has records of a type.
    pub fn covers_type(&self, rrtype: u16) -> (r: bool)
        ensures
            r == bitmap_tells(self@.type_bitmap, rrtype, 0),
    {
        bitmap_has(self.type_bitmap.as_slice(), rrtype)
    }

    /// The record as record data.
    pub fn to_wire(&self) -> (r: Vec<u8>)
        ensures
            r@ == self@.wire(),
    {
        let mut data: Vec<u8> = Vec::new();
        data.push(self.hash_algorithm);
        data.push(self.flags);
        push_u16(&mut data, self.iterations);
        push_counted(&mut data, self.salt.as_slice());
        push_counted(&mut data, self.next_hashed_owner.as_slice());
        push_bytes(&mut data, self.type_bitmap.as_slice());
        assert(data@ =~= self@.wire());
        data
    }

    /// Reads a record from record data.
    pub fn from_wire(data: &[u8]) -> (r: Result<Self, String>)
        ensures
            match r {
                Ok(nsec) => Nsec3Model::parsed(data@) == Ok::<Nsec3Model, Seq<char>>(nsec@),
                Err(e) => Nsec3Model::parsed(data@) == Err::<Nsec3Model, Seq<char>>(e@),
            },
    {
        let n: usize = data.len();
        if n < 5 {
            return Err("NSEC3 RDATA too short (minimum 5 bytes)".to_owned());
        }
        let hash_pos: usize = 5 + data[4] as usize;
        if n < hash_pos {
            return Err("NSEC3 salt extends beyond RDATA".to_owned());
        }
        if n == hash_pos {
            return Err("NSEC3 hash length missing".to_owned());
        }
        let bitmap_pos: usize = hash_pos + 1 + data[hash_pos] as usize;
        if n < bitmap_pos {
            return Err("NSEC3 hash extends beyond RDATA".to_owned());
        }
        let type_bitmap = copy_range(data, bitmap_pos, n);
        assert(type_bitmap@ =~= data@.skip(bitmap_pos as int));
        Ok(
            Nsec3Record {
                hash_algorithm: data[0],
                flags: data[1],
                iterations: read_u16(data, 2),
                salt: copy_range(data, 5, hash_pos),
                next_hashed_owner: copy_range(data, hash_pos + 1, bitmap_pos),
                type_bitmap,
            },
        )
    }
}

/// A proof that was written is read back, if the lengths of its salt and its hash
/// fit into a byte.
pub proof fn law_nsec3_round_trip(nsec: Nsec3Model)
    requires
        nsec.salt.len() <= 255,
        nsec.next_hashed_owner.len() <= 255,
    ensures
        Nsec3Model::parsed(nsec.wire()) == Ok::<Nsec3Model, Seq<char>>(nsec),
{
    let data = nsec.wire();
    let hash_pos = 5 + nsec.salt.len();
    wire::law_u16_round_trip(nsec.iterations);
    assert(data[2] == wire::be16_bytes(nsec.iterations)[0]);
    assert(data[3] == wire::be16_bytes(nsec.iterations)[1]);
    assert(data[4] == nsec.salt.len());
    assert(data[hash_pos as int] == nsec.next_hashed_owner.len());
    assert(data.subrange(5, hash_pos as int) =~= nsec.salt);
    let bitmap_pos = hash_pos + 1 + nsec.next_hashed_owner.len();
    assert(data.subrange(hash_pos + 1int, bitmap_pos as int) =~= nsec.next_hashed_owner);
    assert(data.skip(bitmap_pos as int) =~= nsec.type_bitmap);
}

} // verus!
