//! The validation of keys, delegations and replies.

use crate::blockdata::BlockData;
use crate::cache::{Cache, CacheModel};
use crate::cache_types::Instant;
use crate::dnssec::canonical::{self, count_labels, sort_rrset, to_wire, ResourceRecord};
use crate::dnssec::crypto::{self, verify, MESSAGE_MAX};
use crate::dnssec::denial::{self, collect_proofs, disprove, Proof, ProofModel};
use crate::dnssec::digests::{self, compute_digest};
use crate::dnssec::rrsets::{
    self, answers_query, follow_aliases, has_plain, misses_key, read_section, signed_above,
    vouch_for_all,
};
use crate::dnssec::trust_anchor::FileTime;
use crate::dnssec::types::{
    self, DnsKey, DnssecFailure, DsModel, DsRecord, KeyModel, RRSig, SigModel, ValidationStatus,
};
use crate::parser::{self, skip_name, skip_section};
use crate::protocol::{C_IN, NOERROR, NXDOMAIN, T_DS, T_NSEC, T_NSEC3, T_RRSIG};
use crate::text::{self, join_from, push_decimal, split_text};
use crate::wire::{self, copy_range, push_bytes, push_u16, push_u32, read_u16};
use data_encoding::BASE32_NOPAD;
use vstd::prelude::*;
use vstd::slice::slice_subrange;
use vstd::utf8::*;

verus! {

/// Why a reply cannot be validated.
#[derive(Debug, Clone, PartialEq, Eq)]
pub enum ValidationError {
    PacketTooShort { expected: usize, actual: usize },
    InvalidName(String),
    MissingRecords { record_type: &'static str },
    CryptoError(String),
    ProofFailed(String),
    Timeout,
    CacheError(String),
}

/// What a `ValidationError` says, with its texts as sequences of characters.
pub enum ValidationFault {
    PacketTooShort { expected: usize, actual: usize },
    InvalidName(Seq<char>),
    MissingRecords { record_type: Seq<char> },
    CryptoError(Seq<char>),
    ProofFailed(Seq<char>),
    Timeout,
    CacheError(Seq<char>),
}

impl View for ValidationError {
    type V = ValidationFault;

    open spec fn view(&self) -> ValidationFault {
        match *self {
            ValidationError::PacketTooShort { expected, actual } => {
                ValidationFault::PacketTooShort { expected, actual }
            },
            ValidationError::InvalidName(msg) => ValidationFault::InvalidName(msg@),
            ValidationError::MissingRecords { record_type } => ValidationFault::MissingRecords {
                record_type: record_type@,
            },
            ValidationError::CryptoError(msg) => ValidationFault::CryptoError(msg@),
            ValidationError::ProofFailed(msg) => ValidationFault::ProofFailed(msg@),
            ValidationError::Timeout => ValidationFault::Timeout,
            ValidationError::CacheError(msg) => ValidationFault::CacheError(msg@),
        }
    }
}

impl ValidationFault {
    /// The text of the error.
    pub open spec fn message(self) -> Seq<char> {
        match self {
            ValidationFault::PacketTooShort { expected, actual } => {
                "Packet too short: expected "@ + text::decimal(expected as nat) + ", got "@
                    + text::decimal(actual as nat)
            },
            ValidationFault::InvalidName(msg) => "Invalid DNS name: "@ + msg,
            ValidationFault::MissingRecords { record_type } => "Missing required "@ + record_type
                + " records"@,
            ValidationFault::CryptoError(msg) => "Crypto error: "@ + msg,
            ValidationFault::ProofFailed(msg) => "Proof validation failed: "@ + msg,
            ValidationFault::Timeout => "Validation timeout"@,
            ValidationFault::CacheError(msg) => "Cache error: "@ + msg,
        }
    }
}

impl ValidationError {
    /// The text of the error.
    pub fn to_string(&self) -> (r: String)
        ensures
            r@ == self@.message(),
    {
        let mut s: String = String::new();
        match self {
            ValidationError::PacketTooShort { expected, actual } => {
                s.append("Packet too short: expected ");
                push_decimal(&mut s, *expected as u64);
                s.append(", got ");
                push_decimal(&mut s, *actual as u64);
            },
            ValidationError::InvalidName(msg) => {
                s.append("Invalid DNS name: ");
                s.append(msg.as_str());
            },
            ValidationError::MissingRecords { record_type } => {
                s.append("Missing required ");
                s.append(record_type);
                s.append(" records");
            },
            ValidationError::CryptoError(msg) => {
                s.append("Crypto error: ");
                s.append(msg.as_str());
            },
            ValidationError::ProofFailed(msg) => {
                s.append("Proof validation failed: ");
                s.append(msg.as_str());
            },
            ValidationError::Timeout => {
                s.append("Validation timeout");
            },
            ValidationError::CacheError(msg) => {
                s.append("Cache error: ");
                s.append(msg.as_str());
            },
        }
        assert(s@ =~= self@.message());
        s
    }
}

/// A text behind another.
fn joined(what: &str, detail: &str) -> (r: String)
    ensures
        r@ == what@ + detail@,
{
    let mut s: String = String::new();
    s.append(what);
    s.append(detail);
    assert(s@ =~= what@ + detail@);
    s
}

// ---------------------------------------------------------------------------
// Base32
// ---------------------------------------------------------------------------

/// What `BASE32_NOPAD.decode` makes of letters: bytes, or the text of its error.
pub uninterp spec fn base32_outcome(letters: Seq<u8>) -> Result<Seq<u8>, Seq<char>>;

/// `data_encoding::BASE32_NOPAD.decode`: the same letters always give the same
/// bytes or the same error; which, is left to the name `base32_outcome`.
#[verifier::external_body]
fn base32_bytes(letters: &[u8]) -> (r: Result<Vec<u8>, String>)
    ensures
        match r {
            Ok(bytes) => base32_outcome(letters@) == Ok::<Seq<u8>, Seq<char>>(bytes@),
            Err(e) => base32_outcome(letters@) == Err::<Seq<u8>, Seq<char>>(e@),
        },
{
    match BASE32_NOPAD.decode(letters) {
        Ok(bytes) => Ok(bytes),
        Err(e) => Err(e.to_string()),
    }
}

/// What the outcome of a decoding comes to.
pub open spec fn hash_or_fault(outcome: Result<Seq<u8>, Seq<char>>) -> Result<
    Seq<u8>,
    ValidationFault,
> {
    match outcome {
        Ok(bytes) => Ok(bytes),
        Err(e) => Err(ValidationFault::ProofFailed("Base32 decode error: "@ + e)),
    }
}

/// Turns the outcome of a decoding into bytes or an error.
pub fn decoded_hash(outcome: Result<Vec<u8>, String>) -> (r: Result<Vec<u8>, ValidationError>)
    ensures
        match outcome {
            Ok(bytes) => r matches Ok(v) && v@ == bytes@,
            Err(e) => r matches Err(f) && f@ == ValidationFault::ProofFailed(
                "Base32 decode error: "@ + e@,
            ),
        },
{
    match outcome {
        Ok(bytes) => Ok(bytes),
        Err(e) => Err(ValidationError::ProofFailed(joined("Base32 decode error: ", e.as_str()))),
    }
}

/// Reads a hash in base32.
pub fn base32_decode(encoded: &str) -> (r: Result<Vec<u8>, ValidationError>)
    ensures
        match r {
            Ok(bytes) => hash_or_fault(base32_outcome(encode_utf8(encoded@))) == Ok::<
                Seq<u8>,
                ValidationFault,
            >(bytes@),
            Err(e) => hash_or_fault(base32_outcome(encode_utf8(encoded@))) == Err::<
                Seq<u8>,
                ValidationFault,
            >(e@),
        },
{
    decoded_hash(base32_bytes(encoded.as_bytes()))
}

// ---------------------------------------------------------------------------
// Signatures
// ---------------------------------------------------------------------------

/// A name in canonical wire form.
pub open spec fn canonical_name(name: Seq<char>) -> Seq<u8> {
    canonical::wire_name(encode_utf8(name))
}

/// The name that a record is signed under: its own, or, where that has more labels
/// than the signature tells, the wildcard before its last labels.
pub open spec fn signed_owner(name: Seq<char>, labels: u8) -> Seq<char> {
    let parts = text::split(name, '.');
    if canonical::label_count(name) > labels {
        seq!['*', '.'] + text::join(parts.skip(parts.len() - labels), '.')
    } else {
        name
    }
}

/// What is signed of a record: it gets the name and the time to live that the
/// signature tells.
pub open spec fn signed_record(sig: SigModel, record: canonical::RecordModel) -> Seq<u8> {
    canonical_name(signed_owner(record.name, sig.labels)) + wire::be16_bytes(record.rtype)
        + wire::be16_bytes(record.class) + wire::be32_bytes(sig.original_ttl) + wire::be16_bytes(
        record.rdlength,
    ) + record.rdata
}

/// What is signed of records.
pub open spec fn signed_records(sig: SigModel, records: Seq<canonical::RecordModel>) -> Seq<u8>
    decreases records.len(),
{
    if records.len() == 0 {
        Seq::empty()
    } else {
        signed_records(sig, records.drop_last()) + signed_record(sig, records.last())
    }
}

/// What a signature covers: its own fields, the name of the signer, and the
/// records.
pub open spec fn signed_data(sig: SigModel, records: Seq<canonical::RecordModel>) -> Seq<u8> {
    sig.head() + canonical_name(sig.signer_name) + signed_records(sig, records)
}

/// Seconds as a time.
pub open spec fn second(n: u32) -> int {
    n * 1_000_000_000
}

/// What the verification of a signature over records comes to. The time of the
/// signature counts only where dates are checked.
pub open spec fn rrset_result(
    sig: SigModel,
    key: KeyModel,
    records: Seq<canonical::RecordModel>,
    now: FileTime,
    check_dates: bool,
) -> Result<(), ValidationFault> {
    if check_dates && (now < second(sig.signature_inception) || now > second(
        sig.signature_expiration,
    )) {
        Err(ValidationFault::CryptoError("Signature outside validity period"@))
    } else {
        match crypto::verify_result(
            key.public_key,
            sig.signature,
            signed_data(sig, records),
            sig.algorithm,
        ) {
            Ok(_) => Ok(()),
            Err(e) => Err(
                ValidationFault::CryptoError("Signature verification failed: "@ + e.message()),
            ),
        }
    }
}

/// Appends a name in canonical wire form.
fn push_canonical_name(data: &mut Vec<u8>, name: &str)
    ensures
        final(data)@ == old(data)@ + canonical_name(name@),
{
    let bytes = name.as_bytes();
    let mut wire = copy_range(bytes, 0, bytes.len());
    assert(wire@ =~= encode_utf8(name@));
    to_wire(&mut wire);
    push_bytes(data, wire.as_slice());
}

/// The name that a record is signed under.
pub fn find_signed_owner(name: &str, labels: u8) -> (r: String)
    ensures
        r@ == signed_owner(name@, labels),
{
    if count_labels(name) <= labels as usize {
        return name.to_owned();
    }
    let parts = split_text(name, '.');
    let mut owner: String = String::new();
    owner.push('*');
    owner.push('.');
    assert(text::texts(parts@).len() == parts@.len());
    owner.append(join_from(&parts, parts.len() - labels as usize, '.').as_str());
    assert(owner@ =~= signed_owner(name@, labels));
    owner
}

/// Puts together what a signature covers.
pub fn collect_signed_data(rrsig: &RRSig, rrset: &Vec<ResourceRecord>) -> (r: Vec<u8>)
    ensures
        r@ == signed_data(rrsig@, canonical::record_models(rrset@)),
{
    let mut data: Vec<u8> = Vec::new();
    push_u16(&mut data, rrsig.type_covered);
    data.push(rrsig.algorithm.to_u8());
    data.push(rrsig.labels);
    push_u32(&mut data, rrsig.original_ttl);
    push_u32(&mut data, rrsig.signature_expiration);
    push_u32(&mut data, rrsig.signature_inception);
    push_u16(&mut data, rrsig.key_tag);
    assert(data@ =~= rrsig@.head());
    push_canonical_name(&mut data, rrsig.signer_name.as_str());
    let ghost front = data@;
    let ghost all = canonical::record_models(rrset@);
    let mut i: usize = 0;
    assert(front + signed_records(rrsig@, all.take(0)) =~= front);
    while i < rrset.len()
        invariant
            i <= rrset@.len(),
            all == canonical::record_models(rrset@),
            data@ == front + signed_records(rrsig@, all.take(i as int)),
        decreases rrset@.len() - i,
    {
        proof {
            assert(all.take(i + 1).drop_last() =~= all.take(i as int));
            assert(all.take(i + 1).last() == rrset@[i as int]@);
        }
        let rr = &rrset[i];
        push_canonical_name(&mut data, find_signed_owner(rr.name.as_str(), rrsig.labels).as_str());
        push_u16(&mut data, rr.rtype);
        push_u16(&mut data, rr.class);
        push_u32(&mut data, rrsig.original_ttl);
        push_u16(&mut data, rr.rdlength);
        push_bytes(&mut data, rr.rdata.as_slice());
        assert(data@ =~= front + signed_records(rrsig@, all.take(i + 1)));
        i = i + 1;
    }
    assert(all.take(i as int) =~= all);
    data
}

/// What an error or its absence says.
pub open spec fn checked(r: Result<(), ValidationError>) -> Result<(), ValidationFault> {
    match r {
        Ok(_) => Ok(()),
        Err(e) => Err(e@),
    }
}

/// Verifies a signature over records with a key. `check_dates` tells whether the
/// clock is good enough to check the time of the signature.
pub fn validate_rrset(
    _packet: &[u8],
    rrsig: &RRSig,
    dnskey: &DnsKey,
    rrset: &Vec<ResourceRecord>,
    current_time: FileTime,
    check_dates: bool,
) -> (r: Result<(), ValidationError>)
    requires
        signed_data(rrsig@, canonical::record_models(rrset@)).len() <= MESSAGE_MAX,
    ensures
        checked(r) == rrset_result(
            rrsig@,
            dnskey@,
            canonical::record_models(rrset@),
            current_time,
            check_dates,
        ),
{
    if check_dates {
        let inception: i128 = rrsig.signature_inception as i128 * 1_000_000_000;
        let expiration: i128 = rrsig.signature_expiration as i128 * 1_000_000_000;
        if current_time < inception || current_time > expiration {
            return Err(
                ValidationError::CryptoError("Signature outside validity period".to_owned()),
            );
        }
    }
    let data = collect_signed_data(rrsig, rrset);
    let key = BlockData::from_bytes(dnskey.public_key.as_slice());
    match verify(&key, rrsig.signature.as_slice(), data.as_slice(), rrsig.algorithm) {
        Ok(_) => Ok(()),
        Err(e) => Err(
            ValidationError::CryptoError(
                joined("Signature verification failed: ", e.to_string().as_str()),
            ),
        ),
    }
}

/// Outside its time a signature is refused wherever dates are checked, whatever
/// it says.
pub proof fn law_outside_its_time_is_refused(
    sig: SigModel,
    key: KeyModel,
    records: Seq<canonical::RecordModel>,
    now: FileTime,
)
    requires
        now < second(sig.signature_inception) || now > second(sig.signature_expiration),
    ensures
        rrset_result(sig, key, records, now, true) is Err,
{
}

// ---------------------------------------------------------------------------
// Keys and delegations
// ---------------------------------------------------------------------------

/// A status, with its failures as a sequence.
pub enum StatusModel {
    Secure,
    SecureWildcard,
    Insecure,
    Bogus(Seq<DnssecFailure>),
    NeedDs,
    NeedKey,
    Truncated,
    Okay,
    Abandoned,
}

/// What a status says.
pub open spec fn status_model(status: ValidationStatus) -> StatusModel {
    match status {
        ValidationStatus::Secure => StatusModel::Secure,
        ValidationStatus::SecureWildcard => StatusModel::SecureWildcard,
        ValidationStatus::Insecure => StatusModel::Insecure,
        ValidationStatus::Bogus(failures) => StatusModel::Bogus(failures@),
        ValidationStatus::NeedDs => StatusModel::NeedDs,
        ValidationStatus::NeedKey => StatusModel::NeedKey,
        ValidationStatus::Truncated => StatusModel::Truncated,
        ValidationStatus::Okay => StatusModel::Okay,
        ValidationStatus::Abandoned => StatusModel::Abandoned,
    }
}

/// A status is the one stated.
pub open spec fn gives(
    r: Result<ValidationStatus, ValidationError>,
    expected: Result<StatusModel, ValidationFault>,
) -> bool {
    match r {
        Ok(status) => expected == Ok::<StatusModel, ValidationFault>(status_model(status)),
        Err(e) => expected == Err::<StatusModel, ValidationFault>(e@),
    }
}

/// The status of what is open.
pub open spec fn indeterminate() -> StatusModel {
    StatusModel::Bogus(seq![DnssecFailure::Indeterminate])
}

/// A status with one failure.
fn bogus(failure: DnssecFailure) -> (r: ValidationStatus)
    ensures
        status_model(r) == StatusModel::Bogus(seq![failure]),
{
    let mut failures: Vec<DnssecFailure> = Vec::new();
    failures.push(failure);
    assert(failures@ =~= seq![failure]);
    ValidationStatus::Bogus(failures)
}

/// The error for a digest type that is not supported.
pub open spec fn digest_fault(ds: DsModel) -> ValidationFault {
    ValidationFault::CryptoError("Unsupported digest type: "@ + ds.digest_type.written())
}

/// The keys of a vector.
pub open spec fn key_models(keys: Seq<DnsKey>) -> Seq<KeyModel> {
    keys.map_values(|k: DnsKey| k@)
}

/// The digests of a vector.
pub open spec fn ds_models(records: Seq<DsRecord>) -> Seq<DsModel> {
    records.map_values(|d: DsRecord| d@)
}

/// The signatures of a vector.
pub open spec fn sig_models(sigs: Seq<RRSig>) -> Seq<SigModel> {
    sigs.map_values(|s: RRSig| s@)
}

/// Whether one of the keys from `i` on has the digest, or why that cannot be
/// told. A key that the tag and the algorithm do not name is not looked at.
pub open spec fn match_keys(ds: DsModel, keys: Seq<KeyModel>, i: int) -> Result<
    bool,
    ValidationFault,
>
    decreases keys.len() - i,
{
    if i >= keys.len() {
        Ok(false)
    } else if types::key_tag_of(keys[i].wire()) != ds.key_tag || keys[i].algorithm
        != ds.algorithm {
        match_keys(ds, keys, i + 1)
    } else {
        match digests::key_digest(keys[i], ds.digest_type) {
            None => Err(digest_fault(ds)),
            Some(digest) => if digest == ds.digest {
                Ok(true)
            } else {
                match_keys(ds, keys, i + 1)
            },
        }
    }
}

/// Whether one of the keys has one of the digests from `i` on, or why that cannot
/// be told.
pub open spec fn match_digests(digests: Seq<DsModel>, keys: Seq<KeyModel>, i: int) -> Result<
    bool,
    ValidationFault,
>
    decreases digests.len() - i,
{
    if i >= digests.len() {
        Ok(false)
    } else {
        match match_keys(digests[i], keys, 0) {
            Err(e) => Err(e),
            Ok(true) => Ok(true),
            Ok(false) => match_digests(digests, keys, i + 1),
        }
    }
}

/// What keys come to by the digests of the parent zone.
pub open spec fn by_ds_result(keys: Seq<KeyModel>, digests: Seq<DsModel>) -> Result<
    StatusModel,
    ValidationFault,
> {
    if keys.len() == 0 {
        Ok(indeterminate())
    } else if digests.len() == 0 {
        Ok(StatusModel::Insecure)
    } else {
        match match_digests(digests, keys, 0) {
            Err(e) => Err(e),
            Ok(true) => Ok(StatusModel::Secure),
            Ok(false) => Ok(StatusModel::Bogus(Seq::empty())),
        }
    }
}

/// Every key is short enough for a tag.
pub open spec fn can_tag_all(keys: Seq<DnsKey>) -> bool {
    forall|i: int| 0 <= i < keys.len() ==> types::can_tag((#[trigger] keys[i])@.wire())
}

/// Compares bytes.
fn same_bytes(a: &Vec<u8>, b: &Vec<u8>) -> (r: bool)
    ensures
        r == (a@ == b@),
{
    if a.len() != b.len() {
        return false;
    }
    let mut i: usize = 0;
    while i < a.len()
        invariant
            i <= a@.len() == b@.len(),
            forall|k: int| 0 <= k < i ==> a@[k] == b@[k],
        decreases a@.len() - i,
    {
        if a[i] != b[i] {
            return false;
        }
        i = i + 1;
    }
    assert(a@ =~= b@);
    true
}

/// Whether one of the keys has the digest.
fn find_key(ds: &DsRecord, dnskeys: &Vec<DnsKey>) -> (r: Result<bool, ValidationError>)
    requires
        can_tag_all(dnskeys@),
    ensures
        match r {
            Ok(found) => match_keys(ds@, key_models(dnskeys@), 0) == Ok::<bool, ValidationFault>(
                found,
            ),
            Err(e) => match_keys(ds@, key_models(dnskeys@), 0) == Err::<bool, ValidationFault>(e@),
        },
{
    let ghost keys = key_models(dnskeys@);
    let mut i: usize = 0;
    while i < dnskeys.len()
        invariant
            i <= dnskeys@.len(),
            can_tag_all(dnskeys@),
            keys == key_models(dnskeys@),
            match_keys(ds@, keys, 0) == match_keys(ds@, keys, i as int),
        decreases dnskeys@.len() - i,
    {
        let key = &dnskeys[i];
        assert(keys[i as int] == key@);
        assert(types::can_tag(dnskeys@[i as int]@.wire()));
        if key.keytag() == ds.key_tag && key.algorithm == ds.algorithm {
            match compute_digest(key, ds.digest_type) {
                None => {
                    return Err(
                        ValidationError::CryptoError(
                            joined(
                                "Unsupported digest type: ",
                                ds.digest_type.to_string().as_str(),
                            ),
                        ),
                    );
                },
                Some(digest) => {
                    if same_bytes(&digest, &ds.digest) {
                        return Ok(true);
                    }
                },
            }
        }
        i = i + 1;
    }
    Ok(false)
}

/// Validates keys by the digests of the parent zone: they are secure if one of
/// them has one of the digests.
pub fn dnssec_validate_by_ds(
    _packet: &[u8],
    dnskeys: &Vec<DnsKey>,
    ds_records: &Vec<DsRecord>,
    _cache: &mut Cache,
) -> (r: Result<ValidationStatus, ValidationError>)
    requires
        can_tag_all(dnskeys@),
    ensures
        gives(r, by_ds_result(key_models(dnskeys@), ds_models(ds_records@))),
        *final(_cache) == *old(_cache),
{
    if dnskeys.len() == 0 {
        return Ok(bogus(DnssecFailure::Indeterminate));
    }
    if ds_records.len() == 0 {
        return Ok(ValidationStatus::Insecure);
    }
    let ghost keys = key_models(dnskeys@);
    let ghost digests = ds_models(ds_records@);
    let mut i: usize = 0;
    while i < ds_records.len()
        invariant
            i <= ds_records@.len(),
            can_tag_all(dnskeys@),
            keys == key_models(dnskeys@),
            digests == ds_models(ds_records@),
            by_ds_result(keys, digests) == (match match_digests(digests, keys, i as int) {
                Err(e) => Err(e),
                Ok(true) => Ok(StatusModel::Secure),
                Ok(false) => Ok(StatusModel::Bogus(Seq::empty())),
            }),
        decreases ds_records@.len() - i,
    {
        assert(digests[i as int] == ds_records@[i as int]@);
        match find_key(&ds_records[i], dnskeys) {
            Err(e) => {
                return Err(e);
            },
            Ok(found) => {
                if found {
                    return Ok(ValidationStatus::Secure);
                }
            },
        }
        i = i + 1;
    }
    let failures: Vec<DnssecFailure> = Vec::new();
    assert(failures@ =~= Seq::empty());
    Ok(ValidationStatus::Bogus(failures))
}

/// A key whose own digest is among those of the parent zone makes the keys
/// secure, where the digests before it can be told.
pub proof fn law_own_digest_is_secure(key: KeyModel, ds: DsModel)
    requires
        ds.key_tag == types::key_tag_of(key.wire()),
        ds.algorithm == key.algorithm,
        digests::key_digest(key, ds.digest_type) == Some(ds.digest),
    ensures
        by_ds_result(seq![key], seq![ds]) == Ok::<StatusModel, ValidationFault>(
            StatusModel::Secure,
        ),
{
}

/// The record of a digest as it is signed.
pub open spec fn ds_record_of(owner: Seq<char>, ds: DsModel, ttl: u32) -> canonical::RecordModel {
    canonical::RecordModel {
        name: owner,
        rtype: T_DS,
        class: C_IN,
        ttl,
        rdlength: (ds.wire().len() % 65536) as u16,
        rdata: ds.wire(),
    }
}

/// The records of digests as they are signed.
pub open spec fn ds_records_of(owner: Seq<char>, digests: Seq<DsModel>, ttl: u32) -> Seq<
    canonical::RecordModel,
> {
    digests.map_values(|d: DsModel| ds_record_of(owner, d, ttl))
}

/// Whether one of the keys from `i` on verifies a signature over records.
pub open spec fn some_key_verifies(
    sig: SigModel,
    keys: Seq<KeyModel>,
    records: Seq<canonical::RecordModel>,
    now: FileTime,
    check_dates: bool,
) -> bool {
    exists|i: int|
        0 <= i < keys.len() && types::key_tag_of((#[trigger] keys[i]).wire()) == sig.key_tag
            && rrset_result(sig, keys[i], records, now, check_dates) is Ok
}

/// Whether one of the signatures over DS records is verified by one of the keys.
pub open spec fn some_signature_verifies(
    sigs: Seq<SigModel>,
    keys: Seq<KeyModel>,
    records: Seq<canonical::RecordModel>,
    now: FileTime,
    check_dates: bool,
) -> bool {
    exists|i: int|
        0 <= i < sigs.len() && (#[trigger] sigs[i]).type_covered == T_DS && some_key_verifies(
            sigs[i],
            keys,
            records,
            now,
            check_dates,
        )
}

/// Records in canonical order that are those given.
pub open spec fn is_sorted_form(
    sorted: Seq<canonical::RecordModel>,
    records: Seq<canonical::RecordModel>,
) -> bool {
    &&& canonical::is_ordered(sorted)
    &&& sorted.len() == records.len()
    &&& forall|rdata: Seq<u8>|
        #![trigger canonical::same_data(sorted, rdata)]
        canonical::same_data(sorted, rdata) == canonical::same_data(records, rdata)
}

/// What digests come to by their signatures, over the records in canonical order.
pub open spec fn ds_result(
    digests: Seq<DsModel>,
    sorted: Seq<canonical::RecordModel>,
    sigs: Seq<SigModel>,
    keys: Seq<KeyModel>,
    now: FileTime,
    check_dates: bool,
) -> StatusModel {
    if digests.len() == 0 {
        indeterminate()
    } else if sigs.len() == 0 {
        StatusModel::Bogus(seq![DnssecFailure::NoSignatures])
    } else if some_signature_verifies(sigs, keys, sorted, now, check_dates) {
        StatusModel::Secure
    } else {
        StatusModel::Bogus(Seq::empty())
    }
}

/// Makes the records of digests as they are signed.
fn make_ds_records(owner: &str, ds_records: &Vec<DsRecord>, ttl: u32) -> (r: Vec<ResourceRecord>)
    ensures
        canonical::record_models(r@) == ds_records_of(owner@, ds_models(ds_records@), ttl),
{
    let mut rrset: Vec<ResourceRecord> = Vec::new();
    let ghost all = ds_records_of(owner@, ds_models(ds_records@), ttl);
    let mut i: usize = 0;
    assert(canonical::record_models(rrset@) =~= all.take(0));
    while i < ds_records.len()
        invariant
            i <= ds_records@.len(),
            all == ds_records_of(owner@, ds_models(ds_records@), ttl),
            canonical::record_models(rrset@) == all.take(i as int),
        decreases ds_records@.len() - i,
    {
        let rdata = ds_records[i].to_wire();
        let ghost before = canonical::record_models(rrset@);
        let record = ResourceRecord {
            name: owner.to_owned(),
            rtype: T_DS,
            class: C_IN,
            ttl,
            rdlength: (rdata.len() % 65536) as u16,
            rdata,
        };
        assert(record@ == all[i as int]);
        rrset.push(record);
        assert(canonical::record_models(rrset@) =~= before.push(record@));
        assert(canonical::record_models(rrset@) =~= all.take(i + 1));
        i = i + 1;
    }
    assert(all.take(i as int) =~= all);
    rrset
}

/// The data that the signatures cover is short enough to be verified.
pub open spec fn can_verify(sigs: Seq<RRSig>, records: Seq<canonical::RecordModel>) -> bool {
    forall|i: int, sorted: Seq<canonical::RecordModel>|
        0 <= i < sigs.len() && is_sorted_form(sorted, records) ==> #[trigger] signed_data(
            sigs[i]@,
            sorted,
        ).len() <= MESSAGE_MAX
}

/// Validates the digests of a delegation by their signatures: they are secure if a
/// key verifies one of the signatures over them, put in canonical order.
pub fn dnssec_validate_ds(
    packet: &[u8],
    owner: &str,
    ds_records: &Vec<DsRecord>,
    ttl: u32,
    rrsigs: &Vec<RRSig>,
    dnskeys: &Vec<DnsKey>,
    current_time: FileTime,
    check_dates: bool,
) -> (r: Result<ValidationStatus, ValidationError>)
    requires
        can_tag_all(dnskeys@),
        can_verify(rrsigs@, ds_records_of(owner@, ds_models(ds_records@), ttl)),
    ensures
        r matches Ok(status) && exists|sorted: Seq<canonical::RecordModel>|
            #[trigger] is_sorted_form(sorted, ds_records_of(owner@, ds_models(ds_records@), ttl))
                && status_model(status) == ds_result(
                ds_models(ds_records@),
                sorted,
                sig_models(rrsigs@),
                key_models(dnskeys@),
                current_time,
                check_dates,
            ),
{
    let mut rrset = make_ds_records(owner, ds_records, ttl);
    let ghost records = canonical::record_models(rrset@);
    sort_rrset(&mut rrset);
    let ghost sorted = canonical::record_models(rrset@);
    assert(is_sorted_form(sorted, records));
    if ds_records.len() == 0 {
        return Ok(bogus(DnssecFailure::Indeterminate));
    }
    if rrsigs.len() == 0 {
        return Ok(bogus(DnssecFailure::NoSignatures));
    }
    let ghost sigs = sig_models(rrsigs@);
    let ghost keys = key_models(dnskeys@);
    let mut i: usize = 0;
    while i < rrsigs.len()
        invariant
            i <= rrsigs@.len(),
            can_tag_all(dnskeys@),
            can_verify(rrsigs@, records),
            records == ds_records_of(owner@, ds_models(ds_records@), ttl),
            is_sorted_form(sorted, records),
            sorted == canonical::record_models(rrset@),
            sigs == sig_models(rrsigs@),
            keys == key_models(dnskeys@),
            ds_records@.len() > 0,
            rrsigs@.len() > 0,
            forall|k: int|
                0 <= k < i && (#[trigger] sigs[k]).type_covered == T_DS ==> !some_key_verifies(
                    sigs[k],
                    keys,
                    sorted,
                    current_time,
                    check_dates,
                ),
        decreases rrsigs@.len() - i,
    {
        let rrsig = &rrsigs[i];
        assert(sigs[i as int] == rrsig@);
        if rrsig.type_covered == T_DS {
            let mut j: usize = 0;
            while j < dnskeys.len()
                invariant
                    i < rrsigs@.len(),
                    j <= dnskeys@.len(),
                    can_tag_all(dnskeys@),
                    can_verify(rrsigs@, records),
                    records == ds_records_of(owner@, ds_models(ds_records@), ttl),
                    is_sorted_form(sorted, records),
                    sorted == canonical::record_models(rrset@),
                    sigs == sig_models(rrsigs@),
                    keys == key_models(dnskeys@),
                    ds_records@.len() > 0,
                    rrsigs@.len() > 0,
                    rrsig == rrsigs@[i as int],
                    sigs[i as int] == rrsig@,
                    rrsig@.type_covered == T_DS,
                    forall|k: int|
                        0 <= k < j ==> !(types::key_tag_of((#[trigger] keys[k]).wire())
                            == rrsig@.key_tag && rrset_result(
                            rrsig@,
                            keys[k],
                            sorted,
                            current_time,
                            check_dates,
                        ) is Ok),
                decreases dnskeys@.len() - j,
            {
                let key = &dnskeys[j];
                assert(keys[j as int] == key@);
                assert(types::can_tag(dnskeys@[j as int]@.wire()));
                if key.keytag() == rrsig.key_tag {
                    assert(signed_data(rrsigs@[i as int]@, sorted).len() <= MESSAGE_MAX);
                    match validate_rrset(packet, rrsig, key, &rrset, current_time, check_dates) {
                        Ok(_) => {
                            assert(some_key_verifies(
                                sigs[i as int],
                                keys,
                                sorted,
                                current_time,
                                check_dates,
                            ));
                            assert(some_signature_verifies(
                                sigs,
                                keys,
                                sorted,
                                current_time,
                                check_dates,
                            ));
                            return Ok(ValidationStatus::Secure);
                        },
                        Err(_) => {},
                    }
                }
                j = j + 1;
            }
        }
        i = i + 1;
    }
    let failures: Vec<DnssecFailure> = Vec::new();
    assert(failures@ =~= Seq::empty());
    Ok(ValidationStatus::Bogus(failures))
}

/// Records have one canonical order: two sorted forms of the same records are the
/// same.
pub proof fn law_sorted_form_is_unique(
    a: Seq<canonical::RecordModel>,
    b: Seq<canonical::RecordModel>,
    records: Seq<canonical::RecordModel>,
)
    requires
        is_sorted_form(a, records),
        is_sorted_form(b, records),
    ensures
        a == b,
{
    assert forall|rdata: Seq<u8>|
        #![trigger canonical::same_data(a, rdata)]
        canonical::same_data(a, rdata) == canonical::same_data(b, rdata) by {
        assert(canonical::same_data(b, rdata) == canonical::same_data(records, rdata));
    }
    lemma_same_order(a, b);
}

/// Ordered records with the same records for all data are the same.
proof fn lemma_same_order(a: Seq<canonical::RecordModel>, b: Seq<canonical::RecordModel>)
    requires
        canonical::is_ordered(a),
        canonical::is_ordered(b),
        a.len() == b.len(),
        forall|rdata: Seq<u8>|
            #![trigger canonical::same_data(a, rdata)]
            canonical::same_data(a, rdata) == canonical::same_data(b, rdata),
    ensures
        a == b,
    decreases a.len(),
{
    if a.len() == 0 {
        assert(a =~= b);
    } else {
        let da = a.last().rdata;
        let db = b.last().rdata;
        assert(canonical::same_data(a, da).len() > 0);
        lemma_some_with_data(b, da);
        let j = choose|j: int| 0 <= j < b.len() && (#[trigger] b[j]).rdata == da;
        assert(canonical::bytes_le(b[j].rdata, b[b.len() - 1].rdata));
        assert(canonical::same_data(a, db) == canonical::same_data(b, db));
        assert(canonical::same_data(b, db).len() > 0);
        lemma_some_with_data(a, db);
        let k = choose|k: int| 0 <= k < a.len() && (#[trigger] a[k]).rdata == db;
        assert(canonical::bytes_le(a[k].rdata, a[a.len() - 1].rdata));
        canonical::lemma_bytes_total(da, db);
        assert(da == db);
        assert(canonical::same_data(a, da).last() == a.last());
        assert(canonical::same_data(b, da).last() == b.last());
        let a1 = a.drop_last();
        let b1 = b.drop_last();
        assert forall|rdata: Seq<u8>|
            #![trigger canonical::same_data(a1, rdata)]
            canonical::same_data(a1, rdata) == canonical::same_data(b1, rdata) by {
            assert(canonical::same_data(a, rdata) == canonical::same_data(b, rdata));
            if rdata == da {
                assert(canonical::same_data(a, rdata).drop_last() =~= canonical::same_data(
                    a1,
                    rdata,
                ));
                assert(canonical::same_data(b, rdata).drop_last() =~= canonical::same_data(
                    b1,
                    rdata,
                ));
            }
        }
        assert(canonical::is_ordered(a1)) by {
            assert forall|i: int, m: int| 0 <= i <= m < a1.len() implies canonical::bytes_le(
                #[trigger] a1[i].rdata,
                #[trigger] a1[m].rdata,
            ) by {
                assert(canonical::bytes_le(a[i].rdata, a[m].rdata));
            }
        }
        assert(canonical::is_ordered(b1)) by {
            assert forall|i: int, m: int| 0 <= i <= m < b1.len() implies canonical::bytes_le(
                #[trigger] b1[i].rdata,
                #[trigger] b1[m].rdata,
            ) by {
                assert(canonical::bytes_le(b[i].rdata, b[m].rdata));
            }
        }
        lemma_same_order(a1, b1);
        assert(a =~= a1.push(a.last()));
        assert(b =~= b1.push(b.last()));
    }
}

/// Where there are records with some data, one of them is at some place.
proof fn lemma_some_with_data(records: Seq<canonical::RecordModel>, rdata: Seq<u8>)
    requires
        canonical::same_data(records, rdata).len() > 0,
    ensures
        exists|i: int| 0 <= i < records.len() && (#[trigger] records[i]).rdata == rdata,
    decreases records.len(),
{
    if records.len() > 0 {
        if records.last().rdata == rdata {
            assert(records[records.len() - 1].rdata == rdata);
        } else {
            lemma_some_with_data(records.drop_last(), rdata);
            let i = choose|i: int|
                0 <= i < records.drop_last().len() && (#[trigger] records.drop_last()[i]).rdata
                    == rdata;
            assert(records[i].rdata == rdata);
        }
    }
}

// ---------------------------------------------------------------------------
// Replies
// ---------------------------------------------------------------------------

/// Where `count` questions at `pos` end, or why they cannot be read.
pub open spec fn reply_questions(packet: Seq<u8>, pos: int, count: nat) -> Result<
    int,
    ValidationFault,
>
    decreases count,
{
    if count == 0 {
        Ok(pos)
    } else {
        match parser::name_end(packet, pos) {
            Err(e) => Err(
                ValidationFault::InvalidName("Skip question failed: "@ + e.debug_text()),
            ),
            Ok(p) => if p + 4 > packet.len() {
                Err(
                    ValidationFault::PacketTooShort {
                        expected: text::as_size(p + 4),
                        actual: packet.len() as usize,
                    },
                )
            } else {
                reply_questions(packet, p + 4, (count - 1) as nat)
            },
        }
    }
}

/// Where up to `count` records at `pos` end: those before the first that cannot be
/// read.
pub open spec fn after_records(packet: Seq<u8>, pos: int, count: nat) -> int
    decreases count,
{
    if count == 0 {
        pos
    } else {
        match parser::record_span(packet, pos) {
            Err(_) => pos,
            Ok(span) => after_records(packet, span.end, (count - 1) as nat),
        }
    }
}

/// A record that proves that something does not exist.
pub open spec fn is_denial(record: canonical::RecordModel) -> bool {
    record.rtype == T_NSEC || record.rtype == T_NSEC3
}

/// A signature that is long enough to be one.
pub open spec fn is_signature(record: canonical::RecordModel) -> bool {
    record.rtype == T_RRSIG && record.rdlength >= 18
}

/// One of the records proves that something does not exist.
pub open spec fn any_denial(records: Seq<canonical::RecordModel>) -> bool {
    exists|i: int| 0 <= i < records.len() && is_denial(#[trigger] records[i])
}

/// One of the records is a signature.
pub open spec fn any_signature(records: Seq<canonical::RecordModel>) -> bool {
    exists|i: int| 0 <= i < records.len() && is_signature(#[trigger] records[i])
}

/// What the `count` answers of a reply come to, with the records of its authority
/// section, which are to be `more`. They are secure if all of them could be read
/// and all but the signatures are vouched for. Where one was made from a wildcard,
/// the authority section has to show that nothing else stands for it. Where they
/// only lead to another name, the reply has to deny that this has an answer.
pub open spec fn answers_result(
    answers: Seq<canonical::RecordModel>,
    count: nat,
    authority: Seq<canonical::RecordModel>,
    more: nat,
    name: Seq<char>,
    qtype: u16,
    cache: CacheModel,
    now: Instant,
    time: FileTime,
    check_dates: bool,
) -> StatusModel {
    let proofs = denial::proofs_in(authority, authority.len());
    let none = Seq::<ProofModel>::empty();
    if !any_signature(answers) {
        StatusModel::Bogus(seq![DnssecFailure::NoSignatures])
    } else if !rrsets::any_plain(answers) {
        indeterminate()
    } else if !rrsets::is_answered(answers, name, qtype, answers.len()) {
        denial_result(
            answers,
            count,
            authority,
            more,
            name,
            qtype,
            false,
            cache,
            now,
            time,
            check_dates,
        )
    } else if answers.len() == count && rrsets::all_vouched_for(
        answers,
        none,
        cache,
        now,
        time,
        check_dates,
    ) {
        StatusModel::Secure
    } else if answers.len() == count && rrsets::all_vouched_for(
        answers,
        proofs,
        cache,
        now,
        time,
        check_dates,
    ) && is_sound(authority, more, cache, now, time, check_dates) {
        StatusModel::SecureWildcard
    } else if rrsets::any_key_missing(answers, cache, now) {
        StatusModel::NeedKey
    } else {
        StatusModel::Bogus(Seq::empty())
    }
}

/// Whether all of `count` records could be read, and all but the signatures are
/// vouched for under their own names.
pub open spec fn is_sound(
    records: Seq<canonical::RecordModel>,
    count: nat,
    cache: CacheModel,
    now: Instant,
    time: FileTime,
    check_dates: bool,
) -> bool {
    records.len() == count && rrsets::all_vouched_for(
        records,
        Seq::<ProofModel>::empty(),
        cache,
        now,
        time,
        check_dates,
    )
}

/// Whether the records of a reply that denies a name or a type are signed: those
/// of the authority section by the zones above the name that is denied, and the
/// aliases that lead to it.
pub open spec fn is_signed_denial(
    answers: Seq<canonical::RecordModel>,
    count: nat,
    authority: Seq<canonical::RecordModel>,
    more: nat,
    name: Seq<char>,
    cache: CacheModel,
    now: Instant,
    time: FileTime,
    check_dates: bool,
) -> bool {
    &&& is_sound(answers, count, cache, now, time, check_dates)
    &&& is_sound(authority, more, cache, now, time, check_dates)
    &&& rrsets::all_signed_above(authority, name)
}

/// What a reply comes to that denies a name, or a type of it. It must carry proofs.
/// It is secure if its records are signed and prove what it says of the name, or of
/// that to which the aliases among its answers lead. Where the proofs leave room for
/// an unsigned delegation, it is insecure.
pub open spec fn denial_result(
    answers: Seq<canonical::RecordModel>,
    count: nat,
    authority: Seq<canonical::RecordModel>,
    more: nat,
    name: Seq<char>,
    qtype: u16,
    nxdomain: bool,
    cache: CacheModel,
    now: Instant,
    time: FileTime,
    check_dates: bool,
) -> StatusModel {
    let denied = rrsets::chain_end(answers, name, answers.len());
    let signed = is_signed_denial(
        answers,
        count,
        authority,
        more,
        denied,
        cache,
        now,
        time,
        check_dates,
    );
    if !any_denial(authority) {
        StatusModel::Bogus(seq![DnssecFailure::NoNsec])
    } else if signed && denial::denies(authority, denied, qtype, nxdomain) {
        StatusModel::Secure
    } else if signed && denial::disproves(
        denial::proofs_in(authority, authority.len()),
        denied,
        qtype,
        nxdomain,
        true,
    ) {
        StatusModel::Insecure
    } else if rrsets::any_key_missing(answers, cache, now) || rrsets::any_key_missing(
        authority,
        cache,
        now,
    ) {
        StatusModel::NeedKey
    } else {
        StatusModel::Bogus(Seq::empty())
    }
}

/// The records of the answer section of a reply, whose questions end at `start`.
pub open spec fn answers_of(packet: Seq<u8>, start: int) -> Seq<canonical::RecordModel> {
    rrsets::section_records(packet, start, wire::be16(packet, 6) as nat, Seq::empty())
}

/// The records of the authority section of a reply, whose questions end at `start`.
pub open spec fn authority_of(packet: Seq<u8>, start: int) -> Seq<canonical::RecordModel> {
    rrsets::section_records(
        packet,
        after_records(packet, start, wire::be16(packet, 6) as nat),
        wire::be16(packet, 8) as nat,
        Seq::empty(),
    )
}

/// Whether a reply denies a name, or that it has records of the type asked for.
pub open spec fn is_negative(packet: Seq<u8>) -> bool {
    let rcode = wire::be16(packet, 2) % 16;
    rcode == NXDOMAIN || (rcode == NOERROR && wire::be16(packet, 6) == 0)
}

/// What a reply to a query comes to. One that says that there is nothing must
/// prove it, and one with answers must be signed. Of any other nothing can be
/// told.
pub open spec fn reply_result(
    packet: Seq<u8>,
    name: Seq<char>,
    qtype: u16,
    cache: CacheModel,
    now: Instant,
    time: FileTime,
    check_dates: bool,
) -> Result<StatusModel, ValidationFault> {
    let qd = wire::be16(packet, 4);
    let an = wire::be16(packet, 6);
    let ns = wire::be16(packet, 8);
    if packet.len() < 12 {
        Err(ValidationFault::PacketTooShort { expected: 12, actual: packet.len() as usize })
    } else if qd == 0 && an == 0 && ns == 0 && wire::be16(packet, 10) == 0 {
        Ok(indeterminate())
    } else {
        match reply_questions(packet, 12, qd as nat) {
            Err(e) => Err(e),
            Ok(start) => if is_negative(packet) {
                Ok(
                    denial_result(
                        answers_of(packet, start),
                        an as nat,
                        authority_of(packet, start),
                        ns as nat,
                        name,
                        qtype,
                        wire::be16(packet, 2) % 16 == NXDOMAIN,
                        cache,
                        now,
                        time,
                        check_dates,
                    ),
                )
            } else if an > 0 {
                Ok(
                    answers_result(
                        answers_of(packet, start),
                        an as nat,
                        authority_of(packet, start),
                        ns as nat,
                        name,
                        qtype,
                        cache,
                        now,
                        time,
                        check_dates,
                    ),
                )
            } else {
                Ok(indeterminate())
            },
        }
    }
}

/// Skips the questions of a reply.
pub fn skip_reply_questions(packet: &[u8], qdcount: u16) -> (r: Result<usize, ValidationError>)
    requires
        packet@.len() >= 12,
    ensures
        match r {
            Ok(pos) => reply_questions(packet@, 12, qdcount as nat) == Ok::<
                int,
                ValidationFault,
            >(pos as int) && pos <= packet@.len(),
            Err(e) => reply_questions(packet@, 12, qdcount as nat) == Err::<
                int,
                ValidationFault,
            >(e@),
        },
{
    let mut pos: usize = 12;
    let mut left: u16 = qdcount;
    while left > 0
        invariant
            pos <= packet@.len(),
            reply_questions(packet@, 12, qdcount as nat) == reply_questions(
                packet@,
                pos as int,
                left as nat,
            ),
        decreases left,
    {
        let input = slice_subrange(packet, pos, packet.len());
        assert(input@ =~= packet@.skip(pos as int));
        match skip_name(packet, input) {
            Err(e) => {
                return Err(
                    ValidationError::InvalidName(
                        joined("Skip question failed: ", e.debug_text().as_str()),
                    ),
                );
            },
            Ok(rest) => {
                let next: usize = packet.len() - rest.len();
                if rest.len() < 4 {
                    return Err(
                        ValidationError::PacketTooShort {
                            expected: next.saturating_add(4),
                            actual: packet.len(),
                        },
                    );
                }
                pos = next + 4;
            },
        }
        left = left - 1;
    }
    Ok(pos)
}

/// Skips up to `count` records.
fn skip_records(packet: &[u8], start: usize, count: u16) -> (r: usize)
    requires
        start <= packet@.len(),
    ensures
        r == after_records(packet@, start as int, count as nat),
        r <= packet@.len(),
{
    let mut pos: usize = start;
    let mut left: u16 = count;
    while left > 0
        invariant
            pos <= packet@.len(),
            after_records(packet@, start as int, count as nat) == after_records(
                packet@,
                pos as int,
                left as nat,
            ),
        decreases left,
    {
        let input = slice_subrange(packet, pos, packet.len());
        assert(input@ =~= packet@.skip(pos as int));
        match skip_section(packet, input, 1) {
            Err(_) => {
                proof {
                    reveal_with_fuel(parser::section_end, 2);
                }
                return pos;
            },
            Ok(rest) => {
                proof {
                    reveal_with_fuel(parser::section_end, 2);
                }
                pos = packet.len() - rest.len();
            },
        }
        left = left - 1;
    }
    pos
}

/// Whether one of the records proves that something does not exist.
fn has_denial(records: &Vec<ResourceRecord>) -> (r: bool)
    ensures
        r == any_denial(canonical::record_models(records@)),
{
    let ghost all = canonical::record_models(records@);
    let mut i: usize = 0;
    while i < records.len()
        invariant
            i <= records@.len(),
            all == canonical::record_models(records@),
            forall|k: int| 0 <= k < i ==> !is_denial(#[trigger] all[k]),
        decreases records@.len() - i,
    {
        assert(all[i as int] == records@[i as int]@);
        if records[i].rtype == T_NSEC || records[i].rtype == T_NSEC3 {
            return true;
        }
        i = i + 1;
    }
    false
}

/// Whether one of the records is a signature.
fn has_signature(records: &Vec<ResourceRecord>) -> (r: bool)
    ensures
        r == any_signature(canonical::record_models(records@)),
{
    let ghost all = canonical::record_models(records@);
    let mut i: usize = 0;
    while i < records.len()
        invariant
            i <= records@.len(),
            all == canonical::record_models(records@),
            forall|k: int| 0 <= k < i ==> !is_signature(#[trigger] all[k]),
        decreases records@.len() - i,
    {
        assert(all[i as int] == records@[i as int]@);
        if records[i].rtype == T_RRSIG && records[i].rdlength >= 18 {
            return true;
        }
        i = i + 1;
    }
    false
}

/// Whether all of `count` records could be read, and all but the signatures are
/// vouched for.
fn check_sound(
    packet: &[u8],
    records: &Vec<ResourceRecord>,
    count: u16,
    cache: &Cache,
    now: Instant,
    time: FileTime,
    check_dates: bool,
) -> (r: bool)
    ensures
        r == is_sound(
            canonical::record_models(records@),
            count as nat,
            cache@,
            now,
            time,
            check_dates,
        ),
{
    let none: Vec<Proof> = Vec::new();
    assert(denial::proof_models(none@) =~= Seq::empty());
    records.len() == count as usize && vouch_for_all(
        packet,
        records,
        &none,
        cache,
        now,
        time,
        check_dates,
    )
}

/// Validates the answers of a reply by their signatures.
fn check_answers(
    packet: &[u8],
    answers: &Vec<ResourceRecord>,
    count: u16,
    authority: &Vec<ResourceRecord>,
    more: u16,
    name: &str,
    qtype: u16,
    cache: &Cache,
    now: Instant,
    time: FileTime,
    check_dates: bool,
) -> (r: ValidationStatus)
    ensures
        status_model(r) == answers_result(
            canonical::record_models(answers@),
            count as nat,
            canonical::record_models(authority@),
            more as nat,
            name@,
            qtype,
            cache@,
            now,
            time,
            check_dates,
        ),
{
    if !has_signature(answers) {
        return bogus(DnssecFailure::NoSignatures);
    }
    if !has_plain(answers) {
        return bogus(DnssecFailure::Indeterminate);
    }
    if !answers_query(answers, name, qtype) {
        return check_denial(
            packet,
            answers,
            count,
            authority,
            more,
            name,
            qtype,
            false,
            cache,
            now,
            time,
            check_dates,
        );
    }
    if check_sound(packet, answers, count, cache, now, time, check_dates) {
        return ValidationStatus::Secure;
    }
    let proofs = collect_proofs(authority);
    if answers.len() == count as usize && vouch_for_all(
        packet,
        answers,
        &proofs,
        cache,
        now,
        time,
        check_dates,
    ) && check_sound(packet, authority, more, cache, now, time, check_dates) {
        return ValidationStatus::SecureWildcard;
    }
    if misses_key(answers, cache, now) {
        return ValidationStatus::NeedKey;
    }
    let failures: Vec<DnssecFailure> = Vec::new();
    assert(failures@ =~= Seq::empty());
    ValidationStatus::Bogus(failures)
}

/// Validates a reply that denies a name, or a type of it.
fn check_denial(
    packet: &[u8],
    answers: &Vec<ResourceRecord>,
    count: u16,
    authority: &Vec<ResourceRecord>,
    more: u16,
    name: &str,
    qtype: u16,
    nxdomain: bool,
    cache: &Cache,
    now: Instant,
    time: FileTime,
    check_dates: bool,
) -> (r: ValidationStatus)
    ensures
        status_model(r) == denial_result(
            canonical::record_models(answers@),
            count as nat,
            canonical::record_models(authority@),
            more as nat,
            name@,
            qtype,
            nxdomain,
            cache@,
            now,
            time,
            check_dates,
        ),
{
    if !has_denial(authority) {
        return bogus(DnssecFailure::NoNsec);
    }
    let denied = follow_aliases(answers, name);
    let signed = check_sound(packet, answers, count, cache, now, time, check_dates) && check_sound(
        packet,
        authority,
        more,
        cache,
        now,
        time,
        check_dates,
    ) && signed_above(authority, denied.as_str());
    if signed {
        let proofs = collect_proofs(authority);
        if disprove(&proofs, denied.as_str(), qtype, nxdomain, false) {
            return ValidationStatus::Secure;
        }
        if disprove(&proofs, denied.as_str(), qtype, nxdomain, true) {
            return ValidationStatus::Insecure;
        }
    }
    if misses_key(answers, cache, now) || misses_key(authority, cache, now) {
        return ValidationStatus::NeedKey;
    }
    let failures: Vec<DnssecFailure> = Vec::new();
    assert(failures@ =~= Seq::empty());
    ValidationStatus::Bogus(failures)
}

/// Validates a reply to a query by the signatures that it carries, with the keys
/// that the cache holds at `now`. `check_dates` tells whether the clock is good
/// enough to ask that the signatures be good at `current_time`.
pub fn dnssec_validate_reply(
    packet: &[u8],
    query_name: &str,
    query_type: u16,
    cache: &mut Cache,
    now: Instant,
    current_time: FileTime,
    check_dates: bool,
) -> (r: Result<ValidationStatus, ValidationError>)
    ensures
        gives(
            r,
            reply_result(
                packet@,
                query_name@,
                query_type,
                old(cache)@,
                now,
                current_time,
                check_dates,
            ),
        ),
        *final(cache) == *old(cache),
{
    if packet.len() < 12 {
        return Err(ValidationError::PacketTooShort { expected: 12, actual: packet.len() });
    }
    let rcode: u16 = read_u16(packet, 2) % 16;
    let qdcount: u16 = read_u16(packet, 4);
    let ancount: u16 = read_u16(packet, 6);
    let nscount: u16 = read_u16(packet, 8);
    if qdcount == 0 && ancount == 0 && nscount == 0 && read_u16(packet, 10) == 0 {
        return Ok(bogus(DnssecFailure::Indeterminate));
    }
    let start: usize = match skip_reply_questions(packet, qdcount) {
        Ok(pos) => pos,
        Err(e) => {
            return Err(e);
        },
    };
    let answers = read_section(packet, start, ancount);
    let authority = read_section(packet, skip_records(packet, start, ancount), nscount);
    if rcode == NXDOMAIN as u16 || (rcode == NOERROR as u16 && ancount == 0) {
        return Ok(
            check_denial(
                packet,
                &answers,
                ancount,
                &authority,
                nscount,
                query_name,
                query_type,
                rcode == NXDOMAIN as u16,
                cache,
                now,
                current_time,
                check_dates,
            ),
        );
    }
    if ancount > 0 {
        return Ok(
            check_answers(
                packet,
                &answers,
                ancount,
                &authority,
                nscount,
                query_name,
                query_type,
                cache,
                now,
                current_time,
                check_dates,
            ),
        );
    }
    Ok(bogus(DnssecFailure::Indeterminate))
}

/// A reply with answers is secure only where every record in them but the
/// signatures has a signature of its own name and type, which a secure key of a
/// zone above the name verifies over the whole set of such records.
pub proof fn law_secure_reply_is_vouched_for(
    packet: Seq<u8>,
    start: int,
    name: Seq<char>,
    qtype: u16,
    cache: CacheModel,
    now: Instant,
    time: FileTime,
    check_dates: bool,
)
    requires
        !is_negative(packet),
        reply_result(packet, name, qtype, cache, now, time, check_dates) == Ok::<
            StatusModel,
            ValidationFault,
        >(StatusModel::Secure),
        reply_questions(packet, 12, wire::be16(packet, 4) as nat) == Ok::<int, ValidationFault>(
            start,
        ),
    ensures
        ({
            let answers = answers_of(packet, start);
            &&& answers.len() == wire::be16(packet, 6)
            &&& rrsets::any_plain(answers)
            &&& forall|i: int|
                0 <= i < answers.len() && (#[trigger] answers[i]).rtype != T_RRSIG
                    ==> rrsets::is_vouched_for(
                    answers,
                    answers[i],
                    Seq::empty(),
                    cache,
                    now,
                    time,
                    check_dates,
                )
        }),
{
}

/// A reply that is secure answers the query, or denies that it has an answer: it
/// holds a record of the type that was asked for, under the name or one that aliases
/// lead to, or it proves that there is none.
pub proof fn law_secure_reply_answers_or_denies(
    packet: Seq<u8>,
    start: int,
    name: Seq<char>,
    qtype: u16,
    cache: CacheModel,
    now: Instant,
    time: FileTime,
    check_dates: bool,
)
    requires
        reply_result(packet, name, qtype, cache, now, time, check_dates) matches Ok(status) && (
        status is Secure || status is SecureWildcard),
        reply_questions(packet, 12, wire::be16(packet, 4) as nat) == Ok::<int, ValidationFault>(
            start,
        ),
    ensures
        ({
            let answers = answers_of(packet, start);
            ||| rrsets::is_answered(answers, name, qtype, answers.len())
            ||| denial::denies(
                authority_of(packet, start),
                rrsets::chain_end(answers, name, answers.len()),
                qtype,
                wire::be16(packet, 2) % 16 == NXDOMAIN,
            )
        }),
{
}

/// A reply that was made from a wildcard is secure only where its authority
/// section is, and shows for every record of such a name that nothing else stands
/// for it.
pub proof fn law_wildcard_reply_is_justified(
    packet: Seq<u8>,
    start: int,
    name: Seq<char>,
    qtype: u16,
    cache: CacheModel,
    now: Instant,
    time: FileTime,
    check_dates: bool,
)
    requires
        reply_result(packet, name, qtype, cache, now, time, check_dates) == Ok::<
            StatusModel,
            ValidationFault,
        >(StatusModel::SecureWildcard),
        reply_questions(packet, 12, wire::be16(packet, 4) as nat) == Ok::<int, ValidationFault>(
            start,
        ),
    ensures
        ({
            let answers = answers_of(packet, start);
            let authority = authority_of(packet, start);
            &&& is_sound(
                authority,
                wire::be16(packet, 8) as nat,
                cache,
                now,
                time,
                check_dates,
            )
            &&& forall|i: int|
                0 <= i < answers.len() && (#[trigger] answers[i]).rtype != T_RRSIG
                    ==> rrsets::is_vouched_for(
                    answers,
                    answers[i],
                    denial::proofs_in(authority, authority.len()),
                    cache,
                    now,
                    time,
                    check_dates,
                )
        }),
{
}

/// A reply that says that there is nothing is secure exactly where it proves it:
/// its authority section holds a proof, its records are signed, and they deny the
/// name that was asked for, or that to which aliases lead from it.
pub proof fn law_negative_reply_is_secure_when_proved(
    packet: Seq<u8>,
    start: int,
    name: Seq<char>,
    qtype: u16,
    cache: CacheModel,
    now: Instant,
    time: FileTime,
    check_dates: bool,
)
    requires
        packet.len() >= 12,
        is_negative(packet),
        reply_questions(packet, 12, wire::be16(packet, 4) as nat) == Ok::<int, ValidationFault>(
            start,
        ),
    ensures
        ({
            let an = wire::be16(packet, 6) as nat;
            let ns = wire::be16(packet, 8) as nat;
            let answers = answers_of(packet, start);
            let authority = authority_of(packet, start);
            let denied = rrsets::chain_end(answers, name, answers.len());
            reply_result(packet, name, qtype, cache, now, time, check_dates) == Ok::<
                StatusModel,
                ValidationFault,
            >(StatusModel::Secure) <==> any_denial(authority) && is_signed_denial(
                answers,
                an,
                authority,
                ns,
                denied,
                cache,
                now,
                time,
                check_dates,
            ) && denial::denies(
                authority,
                denied,
                qtype,
                wire::be16(packet, 2) % 16 == NXDOMAIN,
            )
        }),
{
}

/// Without secure keys of a zone nothing is vouched for.
proof fn lemma_no_keys(
    records: Seq<canonical::RecordModel>,
    record: canonical::RecordModel,
    proofs: Seq<ProofModel>,
    cache: CacheModel,
    now: Instant,
    time: FileTime,
    check_dates: bool,
)
    requires
        forall|zone: Seq<char>| #[trigger] rrsets::zone_keys(cache, zone, now).len() == 0,
    ensures
        !rrsets::is_vouched_for(records, record, proofs, cache, now, time, check_dates),
{
    let sigs = rrsets::signatures_in(records, records.len());
    let sorted = rrsets::in_order(rrsets::set_of(records, records.len(), record));
    assert forall|k: int| 0 <= k < sigs.len() implies !rrsets::is_verified(
        (#[trigger] sigs[k]).1,
        sorted,
        cache,
        now,
        time,
        check_dates,
    ) by {
        assert(rrsets::zone_keys(cache, sigs[k].1.signer_name, now).len() == 0);
    }
}

/// A reply is never secure, nor shown to be insecure, where the cache has no
/// secure key of any zone.
pub proof fn law_without_keys_nothing_is_secure(
    packet: Seq<u8>,
    name: Seq<char>,
    qtype: u16,
    cache: CacheModel,
    now: Instant,
    time: FileTime,
    check_dates: bool,
)
    requires
        forall|zone: Seq<char>| #[trigger] rrsets::zone_keys(cache, zone, now).len() == 0,
    ensures
        reply_result(packet, name, qtype, cache, now, time, check_dates) matches Ok(status)
            ==> status is Bogus || status is NeedKey,
{
    let start = reply_questions(packet, 12, wire::be16(packet, 4) as nat)->Ok_0;
    let answers = answers_of(packet, start);
    let authority = authority_of(packet, start);
    let proofs = denial::proofs_in(authority, authority.len());
    let none = Seq::<ProofModel>::empty();
    if rrsets::any_plain(answers) {
        let i = choose|i: int| 0 <= i < answers.len() && (#[trigger] answers[i]).rtype != T_RRSIG;
        lemma_no_keys(answers, answers[i], none, cache, now, time, check_dates);
        lemma_no_keys(answers, answers[i], proofs, cache, now, time, check_dates);
    }
    if any_denial(authority) {
        let i = choose|i: int| 0 <= i < authority.len() && is_denial(#[trigger] authority[i]);
        lemma_no_keys(authority, authority[i], none, cache, now, time, check_dates);
    }
}

/// Where dates are not checked the clock does not count for a record.
proof fn lemma_no_dates(
    records: Seq<canonical::RecordModel>,
    record: canonical::RecordModel,
    proofs: Seq<ProofModel>,
    cache: CacheModel,
    now: Instant,
    time: FileTime,
    other: FileTime,
)
    requires
        rrsets::is_vouched_for(records, record, proofs, cache, now, time, false),
    ensures
        rrsets::is_vouched_for(records, record, proofs, cache, now, other, false),
{
    let sigs = rrsets::signatures_in(records, records.len());
    let sorted = rrsets::in_order(rrsets::set_of(records, records.len(), record));
    let k = choose|k: int|
        0 <= k < sigs.len() && rrsets::is_meant(#[trigger] sigs[k], record)
            && rrsets::is_justified(sigs[k].1, record.name, proofs) && rrsets::is_verified(
            sigs[k].1,
            sorted,
            cache,
            now,
            time,
            false,
        );
    let sig = sigs[k].1;
    let keys = rrsets::zone_keys(cache, sig.signer_name, now);
    let i = choose|i: int|
        0 <= i < keys.len() && types::key_tag_of((#[trigger] keys[i]).wire()) == sig.key_tag
            && rrset_result(sig, keys[i], sorted, time, false) is Ok;
    assert(rrset_result(sig, keys[i], sorted, other, false) is Ok);
    assert(rrsets::is_verified(sig, sorted, cache, now, other, false));
}

/// Where dates are not checked the clock does not count for records.
proof fn lemma_no_dates_for_all(
    records: Seq<canonical::RecordModel>,
    proofs: Seq<ProofModel>,
    cache: CacheModel,
    now: Instant,
    time: FileTime,
    other: FileTime,
)
    ensures
        rrsets::all_vouched_for(records, proofs, cache, now, time, false)
            == rrsets::all_vouched_for(records, proofs, cache, now, other, false),
{
    assert forall|i: int| 0 <= i < records.len() implies rrsets::is_vouched_for(
        records,
        #[trigger] records[i],
        proofs,
        cache,
        now,
        time,
        false,
    ) == rrsets::is_vouched_for(records, records[i], proofs, cache, now, other, false) by {
        if rrsets::is_vouched_for(records, records[i], proofs, cache, now, time, false) {
            lemma_no_dates(records, records[i], proofs, cache, now, time, other);
        }
        if rrsets::is_vouched_for(records, records[i], proofs, cache, now, other, false) {
            lemma_no_dates(records, records[i], proofs, cache, now, other, time);
        }
    }
}

/// Where dates are not checked a reply comes to the same at any time.
pub proof fn law_unchecked_dates_do_not_count(
    packet: Seq<u8>,
    name: Seq<char>,
    qtype: u16,
    cache: CacheModel,
    now: Instant,
    time: FileTime,
    other: FileTime,
)
    ensures
        reply_result(packet, name, qtype, cache, now, time, false) == reply_result(
            packet,
            name,
            qtype,
            cache,
            now,
            other,
            false,
        ),
{
    let start = reply_questions(packet, 12, wire::be16(packet, 4) as nat)->Ok_0;
    let answers = answers_of(packet, start);
    let authority = authority_of(packet, start);
    let proofs = denial::proofs_in(authority, authority.len());
    lemma_no_dates_for_all(answers, Seq::empty(), cache, now, time, other);
    lemma_no_dates_for_all(answers, proofs, cache, now, time, other);
    lemma_no_dates_for_all(authority, Seq::empty(), cache, now, time, other);
}

} // verus!
