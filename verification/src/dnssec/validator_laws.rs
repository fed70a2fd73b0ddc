//! What holds of signatures, of the records that they cover, and of keys.

use crate::cache::CacheModel;
use crate::cache_types::Instant;
use crate::dnssec::canonical::{self, RecordModel};
use crate::dnssec::crypto;
use crate::dnssec::denial::{self, ProofModel};
use crate::dnssec::trust_anchor::FileTime;
use crate::dnssec::types::{self, DnssecFailure, DsModel, KeyModel, SigModel};
use crate::dnssec::{digests, rrsets, rrsets_laws, types_laws};
use crate::dnssec::validator::{self, StatusModel, ValidationFault};
use crate::parser;
use crate::text;
use crate::wire;
use vstd::prelude::*;

verus! {

// ---------------------------------------------------------------------------
// What a signature covers
// ---------------------------------------------------------------------------

/// The bytes that are verified begin with the fields of the signature, each where
/// a resolver expects it, and the name of the signer stands behind them.
pub proof fn law_signed_data_begins_with_the_signature(sig: SigModel, records: Seq<RecordModel>)
    ensures
        ({
            let data = validator::signed_data(sig, records);
            let signer = validator::canonical_name(sig.signer_name);
            &&& data.len() >= 18 + signer.len()
            &&& wire::be16(data, 0) == sig.type_covered
            &&& data[2] == sig.algorithm.number()
            &&& data[3] == sig.labels
            &&& wire::be32(data, 4) == sig.original_ttl
            &&& wire::be32(data, 8) == sig.signature_expiration
            &&& wire::be32(data, 12) == sig.signature_inception
            &&& wire::be16(data, 16) == sig.key_tag
            &&& data.subrange(18, 18 + signer.len() as int) == signer
            &&& records.len() == 0 ==> data.len() == 18 + signer.len()
        }),
{
    let data = validator::signed_data(sig, records);
    let signer = validator::canonical_name(sig.signer_name);
    let head = sig.head();
    wire::law_u16_round_trip(sig.type_covered);
    wire::law_u32_round_trip(sig.original_ttl);
    wire::law_u32_round_trip(sig.signature_expiration);
    wire::law_u32_round_trip(sig.signature_inception);
    wire::law_u16_round_trip(sig.key_tag);
    assert(head.len() == 18);
    assert forall|i: int| 0 <= i < 18 implies #[trigger] data[i] == head[i] by {}
    assert(data.subrange(18, 18 + signer.len() as int) =~= signer);
}

/// One more record adds its name in canonical form, its type and class, the time to
/// live that the signature tells, and its data behind its length: whatever time to
/// live the record came with. What was covered before stays in front of it.
pub proof fn law_record_in_signed_data(sig: SigModel, records: Seq<RecordModel>, r: RecordModel)
    ensures
        ({
            let before = validator::signed_data(sig, records);
            let after = validator::signed_data(sig, records.push(r));
            let owner = validator::canonical_name(validator::signed_owner(r.name, sig.labels));
            let p = (before.len() + owner.len()) as int;
            &&& after.len() == p + 10 + r.rdata.len()
            &&& after.take(before.len() as int) == before
            &&& after.subrange(before.len() as int, p) == owner
            &&& wire::be16(after, p) == r.rtype
            &&& wire::be16(after, p + 2) == r.class
            &&& wire::be32(after, p + 4) == sig.original_ttl
            &&& wire::be16(after, p + 8) == r.rdlength
            &&& after.skip(p + 10) == r.rdata
        }),
{
    let before = validator::signed_data(sig, records);
    let after = validator::signed_data(sig, records.push(r));
    let owner = validator::canonical_name(validator::signed_owner(r.name, sig.labels));
    let p = (before.len() + owner.len()) as int;
    let piece = validator::signed_record(sig, r);
    assert(records.push(r).drop_last() =~= records);
    assert(after =~= before + piece);
    wire::law_u16_round_trip(r.rtype);
    wire::law_u16_round_trip(r.class);
    wire::law_u32_round_trip(sig.original_ttl);
    wire::law_u16_round_trip(r.rdlength);
    assert forall|i: int| 0 <= i < piece.len() implies #[trigger] piece[i] == after[before.len()
        + i] by {}
    let o = owner.len() as int;
    assert(piece[o] == wire::be16_bytes(r.rtype)[0] && piece[o + 1] == wire::be16_bytes(r.rtype)[1]);
    assert(piece[o + 2] == wire::be16_bytes(r.class)[0] && piece[o + 3] == wire::be16_bytes(
        r.class,
    )[1]);
    assert(forall|k: int|
        0 <= k < 4 ==> #[trigger] piece[o + 4 + k] == wire::be32_bytes(sig.original_ttl)[k]);
    assert(piece[o + 4 + 0] == after[p + 4] && piece[o + 4 + 1] == after[p + 5] && piece[o + 4 + 2]
        == after[p + 6] && piece[o + 4 + 3] == after[p + 7]);
    assert(piece[o + 8] == wire::be16_bytes(r.rdlength)[0] && piece[o + 9] == wire::be16_bytes(
        r.rdlength,
    )[1]);
    assert(after.take(before.len() as int) =~= before);
    assert(after.subrange(before.len() as int, p) =~= owner);
    assert(after.skip(p + 10) =~= r.rdata);
}

/// Whether two records are the same but for the time to live that they came with.
pub open spec fn same_but_ttl(a: RecordModel, b: RecordModel) -> bool {
    &&& a.name == b.name
    &&& a.rtype == b.rtype
    &&& a.class == b.class
    &&& a.rdlength == b.rdlength
    &&& a.rdata == b.rdata
}

/// Whether two rows of records are the same but for their times to live.
pub open spec fn all_same_but_ttl(a: Seq<RecordModel>, b: Seq<RecordModel>) -> bool {
    &&& a.len() == b.len()
    &&& forall|i: int|
        #![trigger a[i]]
        #![trigger b[i]]
        0 <= i < a.len() ==> same_but_ttl(a[i], b[i])
}

/// The time to live that a record came with does not count: a signature over records
/// comes to the same whatever is left of it.
pub proof fn law_received_ttl_does_not_count(
    sig: SigModel,
    key: KeyModel,
    a: Seq<RecordModel>,
    b: Seq<RecordModel>,
    now: FileTime,
    check_dates: bool,
)
    requires
        all_same_but_ttl(a, b),
    ensures
        validator::signed_data(sig, a) == validator::signed_data(sig, b),
        validator::rrset_result(sig, key, a, now, check_dates) == validator::rrset_result(
            sig,
            key,
            b,
            now,
            check_dates,
        ),
{
    lemma_same_records(sig, a, b);
}

proof fn lemma_same_records(sig: SigModel, a: Seq<RecordModel>, b: Seq<RecordModel>)
    requires
        all_same_but_ttl(a, b),
    ensures
        validator::signed_records(sig, a) == validator::signed_records(sig, b),
    decreases a.len(),
{
    if a.len() > 0 {
        let a1 = a.drop_last();
        let b1 = b.drop_last();
        assert forall|i: int| 0 <= i < a1.len() implies same_but_ttl(#[trigger] a1[i], b1[i]) by {
            assert(same_but_ttl(a[i], b[i]));
        }
        assert(same_but_ttl(a[a.len() - 1], b[b.len() - 1]));
        lemma_same_records(sig, a1, b1);
    }
}

/// A record whose name has no more labels than the signature tells is covered under
/// its own name.
pub proof fn law_own_name_is_signed(parts: Seq<Seq<char>>, labels: u8)
    requires
        1 <= parts.len() <= labels,
        forall|i: int| 0 <= i < parts.len() ==> !(#[trigger] parts[i]).contains('.'),
        forall|i: int| 0 <= i < parts.len() ==> (#[trigger] parts[i]).len() > 0,
    ensures
        validator::signed_owner(text::join(parts, '.'), labels) == text::join(parts, '.'),
{
    text::law_join_split(parts, '.');
    lemma_label_count(parts);
}

/// A record whose name has more labels than the signature tells is covered under the
/// wildcard before the last of them: what stands before them does not count.
pub proof fn law_wildcard_is_signed(front: Seq<Seq<char>>, rest: Seq<Seq<char>>, labels: u8)
    requires
        front.len() >= 1,
        rest.len() == labels,
        rest.len() >= 1,
        forall|i: int| 0 <= i < front.len() ==> !(#[trigger] front[i]).contains('.'),
        forall|i: int| 0 <= i < front.len() ==> (#[trigger] front[i]).len() > 0,
        forall|i: int| 0 <= i < rest.len() ==> !(#[trigger] rest[i]).contains('.'),
        forall|i: int| 0 <= i < rest.len() ==> (#[trigger] rest[i]).len() > 0,
    ensures
        validator::signed_owner(text::join(front + rest, '.'), labels) == seq!['*', '.']
            + text::join(rest, '.'),
{
    let parts = front + rest;
    text::law_join_split(parts, '.');
    lemma_label_count(parts);
    assert(parts.skip(parts.len() - labels) =~= rest);
}

/// A name that is made of labels has that many.
pub proof fn lemma_label_count(parts: Seq<Seq<char>>)
    requires
        parts.len() >= 1,
        forall|i: int| 0 <= i < parts.len() ==> !(#[trigger] parts[i]).contains('.'),
        forall|i: int| 0 <= i < parts.len() ==> (#[trigger] parts[i]).len() > 0,
    ensures
        canonical::label_count(text::join(parts, '.')) == parts.len(),
{
    text::law_join_split(parts, '.');
    lemma_join_begins(parts);
    assert(parts[0].contains(parts[0][0]));
}

proof fn lemma_join_begins(parts: Seq<Seq<char>>)
    requires
        parts.len() >= 1,
        parts[0].len() > 0,
    ensures
        text::join(parts, '.').len() > 0,
        text::join(parts, '.')[0] == parts[0][0],
    decreases parts.len(),
{
    if parts.len() > 1 {
        lemma_join_begins(parts.drop_last());
    }
}

/// Where dates are checked, a signature counts from its first second to its last,
/// both of them whole, and then as if they were not; at any other time it is
/// refused.
pub proof fn law_dates_of_a_signature(
    sig: SigModel,
    key: KeyModel,
    records: Seq<RecordModel>,
    now: FileTime,
    other: FileTime,
)
    ensures
        ({
            let first = sig.signature_inception as int * 1_000_000_000;
            let last = sig.signature_expiration as int * 1_000_000_000;
            let unchecked = validator::rrset_result(sig, key, records, now, false);
            let checked = validator::rrset_result(sig, key, records, now, true);
            &&& first <= now <= last ==> checked == unchecked
            &&& !(first <= now <= last) ==> checked is Err
            &&& unchecked == validator::rrset_result(sig, key, records, other, false)
        }),
{
}

// ---------------------------------------------------------------------------
// Keys and digests
// ---------------------------------------------------------------------------

/// Whether a digest of the parent zone is that of a key.
pub open spec fn is_digest_of(ds: DsModel, key: KeyModel) -> bool {
    &&& ds.key_tag == types::key_tag_of(key.wire())
    &&& ds.algorithm == key.algorithm
    &&& digests::key_digest(key, ds.digest_type) == Some(ds.digest)
}

proof fn lemma_match_keys(ds: DsModel, keys: Seq<KeyModel>, i: int)
    requires
        0 <= i <= keys.len(),
        forall|k: int| 0 <= k < keys.len() ==> digests::key_digest(
            #[trigger] keys[k],
            ds.digest_type,
        ) is Some,
    ensures
        validator::match_keys(ds, keys, i) == Ok::<bool, ValidationFault>(
            exists|k: int| i <= k < keys.len() && is_digest_of(ds, #[trigger] keys[k]),
        ),
    decreases keys.len() - i,
{
    if i < keys.len() {
        lemma_match_keys(ds, keys, i + 1);
        assert(digests::key_digest(keys[i], ds.digest_type) is Some);
        if exists|k: int| i <= k < keys.len() && is_digest_of(ds, #[trigger] keys[k]) {
            let k = choose|k: int| i <= k < keys.len() && is_digest_of(ds, #[trigger] keys[k]);
            if k > i {
                assert(is_digest_of(ds, keys[k]));
            }
        }
    }
}

proof fn lemma_match_digests(parent: Seq<DsModel>, keys: Seq<KeyModel>, i: int)
    requires
        0 <= i <= parent.len(),
        forall|j: int, k: int|
            0 <= j < parent.len() && 0 <= k < keys.len() ==> digests::key_digest(
                #[trigger] keys[k],
                (#[trigger] parent[j]).digest_type,
            ) is Some,
    ensures
        validator::match_digests(parent, keys, i) == Ok::<bool, ValidationFault>(
            exists|j: int, k: int|
                i <= j < parent.len() && 0 <= k < keys.len() && is_digest_of(
                    #[trigger] parent[j],
                    #[trigger] keys[k],
                ),
        ),
    decreases parent.len() - i,
{
    if i < parent.len() {
        let ds = parent[i];
        assert forall|k: int| 0 <= k < keys.len() implies digests::key_digest(
            #[trigger] keys[k],
            ds.digest_type,
        ) is Some by {
            assert(digests::key_digest(keys[k], parent[i].digest_type) is Some);
        }
        lemma_match_keys(ds, keys, 0);
        lemma_match_digests(parent, keys, i + 1);
        let here = exists|k: int| 0 <= k < keys.len() && is_digest_of(ds, #[trigger] keys[k]);
        let some = exists|j: int, k: int|
            i <= j < parent.len() && 0 <= k < keys.len() && is_digest_of(
                #[trigger] parent[j],
                #[trigger] keys[k],
            );
        if here {
            let k = choose|k: int| 0 <= k < keys.len() && is_digest_of(ds, #[trigger] keys[k]);
            assert(is_digest_of(parent[i], keys[k]));
        }
        if some {
            let (j, k) = choose|j: int, k: int|
                i <= j < parent.len() && 0 <= k < keys.len() && is_digest_of(
                    #[trigger] parent[j],
                    #[trigger] keys[k],
                );
            if j > i {
                assert(is_digest_of(parent[j], keys[k]));
            }
        }
    }
}

/// Keys are secure exactly where one of them, at any place, has the tag, the
/// algorithm and the digest that one of the parent zone's records tells, at any
/// place. Other keys and other digests make no difference.
pub proof fn law_some_key_has_some_digest(keys: Seq<KeyModel>, parent: Seq<DsModel>)
    requires
        keys.len() > 0,
        parent.len() > 0,
        forall|j: int, k: int|
            0 <= j < parent.len() && 0 <= k < keys.len() ==> digests::key_digest(
                #[trigger] keys[k],
                (#[trigger] parent[j]).digest_type,
            ) is Some,
    ensures
        validator::by_ds_result(keys, parent) == Ok::<StatusModel, ValidationFault>(
            if exists|j: int, k: int|
                0 <= j < parent.len() && 0 <= k < keys.len() && is_digest_of(
                    #[trigger] parent[j],
                    #[trigger] keys[k],
                ) {
                StatusModel::Secure
            } else {
                StatusModel::Bogus(Seq::empty())
            },
        ),
{
    lemma_match_digests(parent, keys, 0);
}

// ---------------------------------------------------------------------------
// Replies
// ---------------------------------------------------------------------------

/// Whether every record but signatures is vouched for.
pub open spec fn all_signed(
    records: Seq<RecordModel>,
    proofs: Seq<ProofModel>,
    cache: CacheModel,
    now: Instant,
    time: FileTime,
    check_dates: bool,
) -> bool {
    forall|i: int|
        0 <= i < records.len() && (#[trigger] records[i]).rtype != 46 ==> rrsets::is_vouched_for(
            records,
            records[i],
            proofs,
            cache,
            now,
            time,
            check_dates,
        )
}

/// A message that is too short for a header is refused, and one with empty sections
/// says nothing.
pub proof fn law_empty_reply(
    packet: Seq<u8>,
    name: Seq<char>,
    qtype: u16,
    cache: CacheModel,
    now: Instant,
    time: FileTime,
    check_dates: bool,
)
    ensures
        ({
            let r = validator::reply_result(packet, name, qtype, cache, now, time, check_dates);
            &&& packet.len() < 12 ==> r == Err::<StatusModel, ValidationFault>(
                ValidationFault::PacketTooShort { expected: 12, actual: packet.len() as usize },
            )
            &&& packet.len() >= 12 && wire::be16(packet, 4) == 0 && wire::be16(packet, 6) == 0
                && wire::be16(packet, 8) == 0 && wire::be16(packet, 10) == 0 ==> r == Ok::<
                StatusModel,
                ValidationFault,
            >(StatusModel::Bogus(seq![DnssecFailure::Indeterminate]))
        }),
{
}

/// Answers without a signature among them are bogus.
pub proof fn law_unsigned_reply_is_bogus(
    packet: Seq<u8>,
    start: int,
    name: Seq<char>,
    qtype: u16,
    cache: CacheModel,
    now: Instant,
    time: FileTime,
    check_dates: bool,
)
    requires
        packet.len() >= 12,
        validator::reply_questions(packet, 12, wire::be16(packet, 4) as nat) == Ok::<
            int,
            ValidationFault,
        >(start),
        wire::be16(packet, 2) % 16 != 3,
        wire::be16(packet, 6) > 0,
        forall|i: int|
            0 <= i < validator::answers_of(packet, start).len() ==> (
            #[trigger] validator::answers_of(packet, start)[i]).rtype != 46,
    ensures
        validator::reply_result(packet, name, qtype, cache, now, time, check_dates) == Ok::<
            StatusModel,
            ValidationFault,
        >(StatusModel::Bogus(seq![DnssecFailure::NoSignatures])),
{
    let answers = validator::answers_of(packet, start);
    if validator::any_signature(answers) {
        let i = choose|i: int|
            0 <= i < answers.len() && validator::is_signature(#[trigger] answers[i]);
        assert(answers[i].rtype == 46);
    }
}

/// Answers to the question, all of which were read, are secure exactly where each of
/// them is vouched for by itself, and there is a signature among them.
pub proof fn law_signed_answer_is_secure(
    packet: Seq<u8>,
    start: int,
    name: Seq<char>,
    qtype: u16,
    cache: CacheModel,
    now: Instant,
    time: FileTime,
    check_dates: bool,
)
    requires
        packet.len() >= 12,
        validator::reply_questions(packet, 12, wire::be16(packet, 4) as nat) == Ok::<
            int,
            ValidationFault,
        >(start),
        wire::be16(packet, 2) % 16 != 3,
        wire::be16(packet, 6) > 0,
        rrsets::is_answered(
            validator::answers_of(packet, start),
            name,
            qtype,
            validator::answers_of(packet, start).len(),
        ),
    ensures
        ({
            let answers = validator::answers_of(packet, start);
            validator::reply_result(packet, name, qtype, cache, now, time, check_dates) == Ok::<
                StatusModel,
                ValidationFault,
            >(StatusModel::Secure) <==> {
                &&& answers.len() == wire::be16(packet, 6)
                &&& exists|i: int|
                    0 <= i < answers.len() && (#[trigger] answers[i]).rtype == 46
                        && answers[i].rdlength >= 18
                &&& exists|i: int| 0 <= i < answers.len() && (#[trigger] answers[i]).rtype != 46
                &&& all_signed(answers, Seq::empty(), cache, now, time, check_dates)
            }
        }),
{
    let answers = validator::answers_of(packet, start);
    if exists|i: int|
        0 <= i < answers.len() && (#[trigger] answers[i]).rtype == 46 && answers[i].rdlength
            >= 18 {
        let i = choose|i: int|
            0 <= i < answers.len() && (#[trigger] answers[i]).rtype == 46 && answers[i].rdlength
                >= 18;
        assert(validator::is_signature(answers[i]));
    }
    if validator::any_signature(answers) {
        let i = choose|i: int|
            0 <= i < answers.len() && validator::is_signature(#[trigger] answers[i]);
        assert(answers[i].rtype == 46 && answers[i].rdlength >= 18);
    }
    assert(rrsets::all_vouched_for(answers, Seq::empty(), cache, now, time, check_dates)
        == all_signed(answers, Seq::empty(), cache, now, time, check_dates));
}

/// A reply that is neither secure nor shown to be insecure asks for a key where one is
/// missing: where the cache holds no key of the zone that some signature of its answers
/// names.
pub proof fn law_missing_key_is_asked_for(
    packet: Seq<u8>,
    start: int,
    i: int,
    sig: SigModel,
    name: Seq<char>,
    qtype: u16,
    cache: CacheModel,
    now: Instant,
    time: FileTime,
    check_dates: bool,
)
    requires
        packet.len() >= 12,
        validator::reply_questions(packet, 12, wire::be16(packet, 4) as nat) == Ok::<
            int,
            ValidationFault,
        >(start),
        wire::be16(packet, 2) % 16 != 3,
        wire::be16(packet, 6) > 0,
        0 <= i < validator::answers_of(packet, start).len(),
        rrsets_laws::holds_signature(
            validator::answers_of(packet, start)[i],
            validator::answers_of(packet, start)[i].name,
            sig,
        ),
        validator::answers_of(packet, start)[i].rdlength >= 18,
        rrsets::zone_keys(cache, sig.signer_name, now).len() == 0,
        rrsets::is_answered(
            validator::answers_of(packet, start),
            name,
            qtype,
            validator::answers_of(packet, start).len(),
        ),
        exists|j: int|
            0 <= j < validator::answers_of(packet, start).len() && (
            #[trigger] validator::answers_of(packet, start)[j]).rtype != 46,
    ensures
        validator::reply_result(packet, name, qtype, cache, now, time, check_dates) matches Ok(
            status,
        ) && (status is Secure || status is SecureWildcard || status is NeedKey),
{
    let answers = validator::answers_of(packet, start);
    assert(validator::is_signature(answers[i]));
    rrsets_laws::law_signatures_of_a_section(answers, answers[i].name, sig);
    let sigs = rrsets::signatures_in(answers, answers.len());
    assert(sigs.contains((answers[i].name, sig)));
    let k = choose|k: int| 0 <= k < sigs.len() && sigs[k] == (answers[i].name, sig);
    assert(rrsets::zone_keys(cache, sigs[k].1.signer_name, now).len() == 0);
    assert(rrsets::any_key_missing(answers, cache, now));
    let j = choose|j: int| 0 <= j < answers.len() && (#[trigger] answers[j]).rtype != 46;
    assert(rrsets::any_plain(answers));
}

/// A reply that says that there is nothing has to hold a proof of it.
pub proof fn law_denial_without_proof_is_bogus(
    packet: Seq<u8>,
    start: int,
    name: Seq<char>,
    qtype: u16,
    cache: CacheModel,
    now: Instant,
    time: FileTime,
    check_dates: bool,
)
    requires
        packet.len() >= 12,
        wire::be16(packet, 4) > 0,
        validator::reply_questions(packet, 12, wire::be16(packet, 4) as nat) == Ok::<
            int,
            ValidationFault,
        >(start),
        wire::be16(packet, 2) % 16 == 3 || (wire::be16(packet, 2) % 16 == 0 && wire::be16(packet, 6)
            == 0),
        forall|i: int|
            0 <= i < validator::authority_of(packet, start).len() ==> (
            #[trigger] validator::authority_of(packet, start)[i]).rtype != 47
                && validator::authority_of(packet, start)[i].rtype != 50,
    ensures
        validator::reply_result(packet, name, qtype, cache, now, time, check_dates) == Ok::<
            StatusModel,
            ValidationFault,
        >(StatusModel::Bogus(seq![DnssecFailure::NoNsec])),
{
    let authority = validator::authority_of(packet, start);
    if validator::any_denial(authority) {
        let i = choose|i: int|
            0 <= i < authority.len() && validator::is_denial(#[trigger] authority[i]);
        assert(authority[i].rtype != 47 && authority[i].rtype != 50);
    }
}

/// A reply is shown to be insecure only where it says that there is nothing, its records
/// are signed, and they pass over the name: they deny it loosely, but not strictly.
pub proof fn law_insecure_reply_is_passed_over(
    packet: Seq<u8>,
    start: int,
    name: Seq<char>,
    qtype: u16,
    cache: CacheModel,
    now: Instant,
    time: FileTime,
    check_dates: bool,
)
    requires
        validator::reply_questions(packet, 12, wire::be16(packet, 4) as nat) == Ok::<
            int,
            ValidationFault,
        >(start),
        validator::reply_result(packet, name, qtype, cache, now, time, check_dates) == Ok::<
            StatusModel,
            ValidationFault,
        >(StatusModel::Insecure),
    ensures
        ({
            let answers = validator::answers_of(packet, start);
            let authority = validator::authority_of(packet, start);
            let proofs = denial::proofs_in(authority, authority.len());
            let denied = rrsets::chain_end(answers, name, answers.len());
            let nxdomain = wire::be16(packet, 2) % 16 == 3;
            &&& answers.len() == wire::be16(packet, 6)
            &&& authority.len() == wire::be16(packet, 8)
            &&& all_signed(answers, Seq::empty(), cache, now, time, check_dates)
            &&& all_signed(authority, Seq::empty(), cache, now, time, check_dates)
            &&& forall|sig: (Seq<char>, SigModel)| #[trigger]
                rrsets::signatures_in(authority, authority.len()).contains(sig)
                    ==> rrsets::signs_for(sig.1.signer_name, denied)
            &&& denial::disproves(proofs, denied, qtype, nxdomain, true)
            &&& !denial::disproves(proofs, denied, qtype, nxdomain, false)
        }),
{
}

// ---------------------------------------------------------------------------
// Digests from the parent zone
// ---------------------------------------------------------------------------

/// Digests from the parent zone are secure exactly where one of the signatures over
/// digests was made by one of the keys with its tag over their sorted records; there
/// have to be digests and signatures.
pub proof fn law_signed_digests_are_secure(
    digests: Seq<DsModel>,
    sorted: Seq<RecordModel>,
    sigs: Seq<SigModel>,
    keys: Seq<KeyModel>,
    now: FileTime,
    check_dates: bool,
)
    ensures
        ({
            let r = validator::ds_result(digests, sorted, sigs, keys, now, check_dates);
            &&& r is Secure <==> digests.len() > 0 && exists|i: int, j: int|
                0 <= i < sigs.len() && 0 <= j < keys.len() && (#[trigger] sigs[i]).type_covered
                    == 43 && types::key_tag_of((#[trigger] keys[j]).wire()) == sigs[i].key_tag && (
                check_dates ==> sigs[i].signature_inception * 1_000_000_000 <= now
                    <= sigs[i].signature_expiration * 1_000_000_000) && crypto::verify_result(
                    keys[j].public_key,
                    sigs[i].signature,
                    validator::signed_data(sigs[i], sorted),
                    sigs[i].algorithm,
                ) is Ok
            &&& digests.len() == 0 ==> r == StatusModel::Bogus(seq![DnssecFailure::Indeterminate])
            &&& digests.len() > 0 && sigs.len() == 0 ==> r == StatusModel::Bogus(
                seq![DnssecFailure::NoSignatures],
            )
            &&& !(r is Secure) ==> r is Bogus
        }),
{
    if validator::some_signature_verifies(sigs, keys, sorted, now, check_dates) {
        let i = choose|i: int|
            0 <= i < sigs.len() && (#[trigger] sigs[i]).type_covered == 43
                && validator::some_key_verifies(sigs[i], keys, sorted, now, check_dates);
        let j = choose|j: int|
            0 <= j < keys.len() && types::key_tag_of((#[trigger] keys[j]).wire())
                == sigs[i].key_tag && validator::rrset_result(
                sigs[i],
                keys[j],
                sorted,
                now,
                check_dates,
            ) is Ok;
        assert(sigs[i].type_covered == 43 && types::key_tag_of(keys[j].wire()) == sigs[i].key_tag);
    }
    assert forall|i: int, j: int|
        0 <= i < sigs.len() && 0 <= j < keys.len() && (#[trigger] sigs[i]).type_covered == 43
            && types::key_tag_of((#[trigger] keys[j]).wire()) == sigs[i].key_tag && (check_dates
            ==> sigs[i].signature_inception * 1_000_000_000 <= now <= sigs[i].signature_expiration
            * 1_000_000_000) && crypto::verify_result(
            keys[j].public_key,
            sigs[i].signature,
            validator::signed_data(sigs[i], sorted),
            sigs[i].algorithm,
        ) is Ok implies validator::some_signature_verifies(
        sigs,
        keys,
        sorted,
        now,
        check_dates,
    ) by {
        assert(validator::rrset_result(sigs[i], keys[j], sorted, now, check_dates) is Ok);
        assert(validator::some_key_verifies(sigs[i], keys, sorted, now, check_dates));
    }
}

/// The record of a digest is one of type DS and of the Internet under the name of the
/// zone, with the digest as it stands on the wire.
pub proof fn law_record_of_a_digest(owner: Seq<char>, ds: DsModel, ttl: u32)
    requires
        ds.digest.len() <= 65531,
    ensures
        ({
            let r = validator::ds_record_of(owner, ds, ttl);
            &&& r.name == owner
            &&& r.rtype == 43
            &&& r.class == 1
            &&& r.ttl == ttl
            &&& r.rdlength == 4 + ds.digest.len()
            &&& r.rdata == ds.wire()
        }),
{
    types_laws::law_fields_of_a_digest(ds);
}

/// A reply that says that there is nothing is secure exactly where all records of its
/// answers and its authority were read and are vouched for, every signer in the
/// authority stands above the name that is denied, and the proofs deny it strictly.
pub proof fn law_proved_denial_is_secure(
    packet: Seq<u8>,
    start: int,
    name: Seq<char>,
    qtype: u16,
    cache: CacheModel,
    now: Instant,
    time: FileTime,
    check_dates: bool,
)
    requires
        packet.len() >= 12,
        wire::be16(packet, 4) > 0,
        validator::reply_questions(packet, 12, wire::be16(packet, 4) as nat) == Ok::<
            int,
            ValidationFault,
        >(start),
        wire::be16(packet, 2) % 16 == 3 || (wire::be16(packet, 2) % 16 == 0 && wire::be16(packet, 6)
            == 0),
    ensures
        ({
            let answers = validator::answers_of(packet, start);
            let authority = validator::authority_of(packet, start);
            let denied = rrsets::chain_end(answers, name, answers.len());
            let sigs = rrsets::signatures_in(authority, authority.len());
            validator::reply_result(packet, name, qtype, cache, now, time, check_dates) == Ok::<
                StatusModel,
                ValidationFault,
            >(StatusModel::Secure) <==> {
                &&& answers.len() == wire::be16(packet, 6)
                &&& authority.len() == wire::be16(packet, 8)
                &&& all_signed(answers, Seq::empty(), cache, now, time, check_dates)
                &&& all_signed(authority, Seq::empty(), cache, now, time, check_dates)
                &&& forall|i: int|
                    0 <= i < sigs.len() ==> rrsets::signs_for(
                        (#[trigger] sigs[i]).1.signer_name,
                        denied,
                    )
                &&& exists|i: int|
                    0 <= i < authority.len() && ((#[trigger] authority[i]).rtype == 47
                        || authority[i].rtype == 50)
                &&& denial::disproves(
                    denial::proofs_in(authority, authority.len()),
                    denied,
                    qtype,
                    wire::be16(packet, 2) % 16 == 3,
                    false,
                )
            }
        }),
{
    let answers = validator::answers_of(packet, start);
    let authority = validator::authority_of(packet, start);
    assert(rrsets::all_vouched_for(answers, Seq::empty(), cache, now, time, check_dates)
        == all_signed(answers, Seq::empty(), cache, now, time, check_dates));
    assert(rrsets::all_vouched_for(authority, Seq::empty(), cache, now, time, check_dates)
        == all_signed(authority, Seq::empty(), cache, now, time, check_dates));
    if exists|i: int|
        0 <= i < authority.len() && ((#[trigger] authority[i]).rtype == 47 || authority[i].rtype
            == 50) {
        let i = choose|i: int|
            0 <= i < authority.len() && ((#[trigger] authority[i]).rtype == 47
                || authority[i].rtype == 50);
        assert(validator::is_denial(authority[i]));
    }
    if validator::any_denial(authority) {
        let i = choose|i: int|
            0 <= i < authority.len() && validator::is_denial(#[trigger] authority[i]);
        assert(authority[i].rtype == 47 || authority[i].rtype == 50);
    }
}

/// Answers that were made from a wildcard are secure exactly where they are not so by
/// themselves, but are with the proofs of the authority, all records of which were
/// read and are vouched for.
pub proof fn law_proved_wildcard_is_secure(
    packet: Seq<u8>,
    start: int,
    name: Seq<char>,
    qtype: u16,
    cache: CacheModel,
    now: Instant,
    time: FileTime,
    check_dates: bool,
)
    requires
        packet.len() >= 12,
        validator::reply_questions(packet, 12, wire::be16(packet, 4) as nat) == Ok::<
            int,
            ValidationFault,
        >(start),
        wire::be16(packet, 2) % 16 != 3,
        wire::be16(packet, 6) > 0,
        validator::any_signature(validator::answers_of(packet, start)),
        rrsets::any_plain(validator::answers_of(packet, start)),
        rrsets::is_answered(
            validator::answers_of(packet, start),
            name,
            qtype,
            validator::answers_of(packet, start).len(),
        ),
    ensures
        ({
            let answers = validator::answers_of(packet, start);
            let authority = validator::authority_of(packet, start);
            let proofs = denial::proofs_in(authority, authority.len());
            validator::reply_result(packet, name, qtype, cache, now, time, check_dates) == Ok::<
                StatusModel,
                ValidationFault,
            >(StatusModel::SecureWildcard) <==> {
                &&& answers.len() == wire::be16(packet, 6)
                &&& authority.len() == wire::be16(packet, 8)
                &&& !all_signed(answers, Seq::empty(), cache, now, time, check_dates)
                &&& all_signed(answers, proofs, cache, now, time, check_dates)
                &&& all_signed(authority, Seq::empty(), cache, now, time, check_dates)
            }
        }),
{
    let answers = validator::answers_of(packet, start);
    let authority = validator::authority_of(packet, start);
    let proofs = denial::proofs_in(authority, authority.len());
    assert(rrsets::all_vouched_for(answers, Seq::empty(), cache, now, time, check_dates)
        == all_signed(answers, Seq::empty(), cache, now, time, check_dates));
    assert(rrsets::all_vouched_for(answers, proofs, cache, now, time, check_dates) == all_signed(
        answers,
        proofs,
        cache,
        now,
        time,
        check_dates,
    ));
    assert(rrsets::all_vouched_for(authority, Seq::empty(), cache, now, time, check_dates)
        == all_signed(authority, Seq::empty(), cache, now, time, check_dates));
}

/// The answers of a reply stand behind its questions, and its authority behind the
/// answers.
pub proof fn law_sections_of_a_reply(packet: Seq<u8>, start: int, end: int)
    requires
        packet.len() >= 12,
        parser::questions_end(packet, 12, (packet[4] * 256 + packet[5]) as nat) == Ok::<
            int,
            parser::ParseFault,
        >(start),
        parser::section_end(packet, start, (packet[6] * 256 + packet[7]) as nat) == Ok::<
            int,
            parser::ParseFault,
        >(end),
    ensures
        validator::reply_questions(packet, 12, wire::be16(packet, 4) as nat) == Ok::<
            int,
            ValidationFault,
        >(start),
        validator::answers_of(packet, start) == rrsets::section_records(
            packet,
            start,
            (packet[6] * 256 + packet[7]) as nat,
            Seq::empty(),
        ),
        validator::authority_of(packet, start) == rrsets::section_records(
            packet,
            end,
            (packet[8] * 256 + packet[9]) as nat,
            Seq::empty(),
        ),
{
    lemma_questions_end(packet, 12, wire::be16(packet, 4) as nat);
    lemma_after_records(packet, start, wire::be16(packet, 6) as nat);
}

proof fn lemma_questions_end(packet: Seq<u8>, pos: int, count: nat)
    requires
        0 <= pos,
    ensures
        parser::questions_end(packet, pos, count) matches Ok(end) ==> validator::reply_questions(
            packet,
            pos,
            count,
        ) == Ok::<int, ValidationFault>(end),
    decreases count,
{
    if count > 0 {
        if let Ok(p) = parser::name_end(packet, pos) {
            if p + 4 <= packet.len() && p >= 0 {
                lemma_questions_end(packet, p + 4, (count - 1) as nat);
            }
            lemma_name_end_positive(packet, pos);
        }
    }
}

proof fn lemma_name_end_positive(packet: Seq<u8>, pos: int)
    requires
        0 <= pos,
    ensures
        parser::name_end(packet, pos) matches Ok(p) ==> p > pos,
    decreases packet.len() - pos,
{
    if pos < packet.len() && packet[pos] != 0 && packet[pos] < 0x40 && pos + 1 + packet[pos]
        <= packet.len() {
        lemma_name_end_positive(packet, pos + 1 + packet[pos]);
    }
}

proof fn lemma_after_records(packet: Seq<u8>, pos: int, count: nat)
    ensures
        parser::section_end(packet, pos, count) matches Ok(end) ==> validator::after_records(
            packet,
            pos,
            count,
        ) == end,
    decreases count,
{
    if count > 0 {
        if let Ok(span) = parser::record_span(packet, pos) {
            lemma_after_records(packet, span.end, (count - 1) as nat);
        }
    }
}

/// Keys of a zone without digests in its parent are insecure, and without keys nothing
/// is known; keys that no digest fits are bogus.
pub proof fn law_keys_without_digests(keys: Seq<KeyModel>, parent: Seq<DsModel>)
    ensures
        ({
            let r = validator::by_ds_result(keys, parent);
            &&& keys.len() == 0 ==> r == Ok::<StatusModel, ValidationFault>(
                StatusModel::Bogus(seq![DnssecFailure::Indeterminate]),
            )
            &&& keys.len() > 0 && parent.len() == 0 ==> r == Ok::<StatusModel, ValidationFault>(
                StatusModel::Insecure,
            )
            &&& keys.len() > 0 && parent.len() > 0 ==> (r matches Ok(status) ==> status is Secure
                || status == StatusModel::Bogus(Seq::empty()))
        }),
{
}

/// Whether a digest is told of a key by its tag and its algorithm, but of a type that
/// cannot be computed.
pub open spec fn is_unknown_digest_of(ds: DsModel, key: KeyModel) -> bool {
    &&& types::key_tag_of(key.wire()) == ds.key_tag
    &&& key.algorithm == ds.algorithm
    &&& ds.digest_type is GOST
}

/// Whatever the types of the digests are, keys are secure only where one of them has a
/// digest that is told, and an error comes only of a digest whose type cannot be
/// computed for a key that it is told of.
pub proof fn law_secure_key_has_a_digest(keys: Seq<KeyModel>, parent: Seq<DsModel>)
    ensures
        validator::by_ds_result(keys, parent) == Ok::<StatusModel, ValidationFault>(
            StatusModel::Secure,
        ) ==> exists|j: int, k: int|
            0 <= j < parent.len() && 0 <= k < keys.len() && is_digest_of(
                #[trigger] parent[j],
                #[trigger] keys[k],
            ),
        validator::by_ds_result(keys, parent) is Err ==> exists|j: int, k: int|
            0 <= j < parent.len() && 0 <= k < keys.len() && is_unknown_digest_of(
                #[trigger] parent[j],
                #[trigger] keys[k],
            ),
{
    lemma_digests_tell(parent, keys, 0);
}

proof fn lemma_keys_tell(ds: DsModel, keys: Seq<KeyModel>, i: int)
    requires
        0 <= i,
    ensures
        validator::match_keys(ds, keys, i) == Ok::<bool, ValidationFault>(true) ==> exists|k: int|
            0 <= k < keys.len() && is_digest_of(ds, #[trigger] keys[k]),
        validator::match_keys(ds, keys, i) is Err ==> exists|k: int|
            0 <= k < keys.len() && is_unknown_digest_of(ds, #[trigger] keys[k]),
    decreases keys.len() - i,
{
    if i < keys.len() {
        lemma_keys_tell(ds, keys, i + 1);
        if types::key_tag_of(keys[i].wire()) == ds.key_tag && keys[i].algorithm == ds.algorithm {
            if digests::key_digest(keys[i], ds.digest_type) is None {
                assert(is_unknown_digest_of(ds, keys[i]));
            } else if digests::key_digest(keys[i], ds.digest_type) == Some(ds.digest) {
                assert(is_digest_of(ds, keys[i]));
            }
        }
    }
}

proof fn lemma_digests_tell(parent: Seq<DsModel>, keys: Seq<KeyModel>, i: int)
    requires
        0 <= i,
    ensures
        validator::match_digests(parent, keys, i) == Ok::<bool, ValidationFault>(true) ==> exists|
            j: int,
            k: int,
        |
            0 <= j < parent.len() && 0 <= k < keys.len() && is_digest_of(
                #[trigger] parent[j],
                #[trigger] keys[k],
            ),
        validator::match_digests(parent, keys, i) is Err ==> exists|j: int, k: int|
            0 <= j < parent.len() && 0 <= k < keys.len() && is_unknown_digest_of(
                #[trigger] parent[j],
                #[trigger] keys[k],
            ),
    decreases parent.len() - i,
{
    if i < parent.len() {
        let ds = parent[i];
        lemma_keys_tell(ds, keys, 0);
        lemma_digests_tell(parent, keys, i + 1);
        if validator::match_keys(ds, keys, 0) == Ok::<bool, ValidationFault>(true) {
            let k = choose|k: int| 0 <= k < keys.len() && is_digest_of(ds, #[trigger] keys[k]);
            assert(is_digest_of(parent[i], keys[k]));
        }
        if validator::match_keys(ds, keys, 0) is Err {
            let k = choose|k: int|
                0 <= k < keys.len() && is_unknown_digest_of(ds, #[trigger] keys[k]);
            assert(is_unknown_digest_of(parent[i], keys[k]));
        }
    }
}

} // verus!
