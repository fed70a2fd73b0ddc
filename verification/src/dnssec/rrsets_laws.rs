//! What holds of the records of a reply: which belong together, whose signatures and
//! keys count for them, and where aliases lead.

use crate::auth_laws;
use crate::cache::{self, CacheModel};
use crate::cache_types::{CacheRecord, CacheRecordData, Instant};
use crate::dnssec::canonical::{self, RecordModel};
use crate::dnssec::crypto::{self, MESSAGE_MAX};
use crate::dnssec::denial::{self, ProofModel};
use crate::dnssec::rrsets;
use crate::dnssec::trust_anchor::FileTime;
use crate::dnssec::types::{self, KeyModel, SigModel};
use crate::dnssec::{validator, validator_laws};
use crate::parser::{self, ParseFault};
use crate::text;
use crate::wire;
use vstd::prelude::*;
use vstd::utf8::*;

verus! {

// ---------------------------------------------------------------------------
// Sets of records
// ---------------------------------------------------------------------------

/// The set of a record holds, in their order, all records with its type, its class and
/// its name, whatever the case of the letters.
pub proof fn law_set_of_a_record(records: Seq<RecordModel>, record: RecordModel)
    ensures
        rrsets::set_of(records, records.len(), record) == records.filter(
            |r: RecordModel|
                r.rtype == record.rtype && r.class == record.class && text::lower(r.name)
                    == text::lower(record.name),
        ),
{
    lemma_set_of(records, records.len(), record);
    assert(records.take(records.len() as int) =~= records);
}

proof fn lemma_set_of(records: Seq<RecordModel>, n: nat, record: RecordModel)
    requires
        n <= records.len(),
    ensures
        rrsets::set_of(records, n, record) == records.take(n as int).filter(
            |r: RecordModel|
                r.rtype == record.rtype && r.class == record.class && text::lower(r.name)
                    == text::lower(record.name),
        ),
    decreases n,
{
    reveal(Seq::filter);
    if n > 0 {
        lemma_set_of(records, (n - 1) as nat, record);
        assert(records.take(n as int).drop_last() =~= records.take(n - 1));
        assert(records.take(n as int).last() == records[n - 1]);
    }
}

/// Bytes come before others where these begin with them, or where they are smaller at
/// the first place at which both differ.
pub proof fn law_order_of_bytes(a: Seq<u8>, b: Seq<u8>)
    ensures
        canonical::bytes_le(a, b) <==> a.is_prefix_of(b) || exists|i: int|
            0 <= i < a.len() && i < b.len() && a.take(i) == b.take(i) && #[trigger] a[i] < b[i],
    decreases a.len(),
{
    if a.len() > 0 && b.len() > 0 {
        let (a1, b1) = (a.drop_first(), b.drop_first());
        law_order_of_bytes(a1, b1);
        if a[0] == b[0] {
            if a1.is_prefix_of(b1) {
                assert(a =~= seq![a[0]] + a1);
                assert(b.take(a.len() as int) =~= a) by {
                    assert(b1.take(a1.len() as int) =~= a1);
                    assert forall|k: int| 0 <= k < a.len() implies b[k] == a[k] by {
                        if k > 0 {
                            assert(b1.take(a1.len() as int)[k - 1] == a1[k - 1]);
                        }
                    }
                }
            }
            if a.is_prefix_of(b) {
                assert forall|k: int| 0 <= k < a1.len() implies a1[k] == b1[k] by {
                    assert(a[k + 1] == b.subrange(0, a.len() as int)[k + 1]);
                }
                assert(a1 =~= b1.subrange(0, a1.len() as int));
            }
            if exists|i: int|
                0 <= i < a1.len() && i < b1.len() && a1.take(i) == b1.take(i) && #[trigger] a1[i]
                    < b1[i] {
                let i = choose|i: int|
                    0 <= i < a1.len() && i < b1.len() && a1.take(i) == b1.take(i)
                        && #[trigger] a1[i] < b1[i];
                assert(a[i + 1] < b[i + 1]);
                assert forall|k: int| 0 <= k < i + 1 implies a[k] == b[k] by {
                    if k > 0 {
                        assert(a1.take(i)[k - 1] == b1.take(i)[k - 1]);
                    }
                }
                assert(a.take(i + 1) =~= b.take(i + 1));
            }
            if exists|i: int|
                0 <= i < a.len() && i < b.len() && a.take(i) == b.take(i) && #[trigger] a[i]
                    < b[i] {
                let i = choose|i: int|
                    0 <= i < a.len() && i < b.len() && a.take(i) == b.take(i) && #[trigger] a[i]
                        < b[i];
                assert(a1[i - 1] < b1[i - 1]);
                assert forall|k: int| 0 <= k < i - 1 implies a1[k] == b1[k] by {
                    assert(a.take(i)[k + 1] == b.take(i)[k + 1]);
                }
                assert(a1.take(i - 1) =~= b1.take(i - 1));
            }
        } else {
            if a.is_prefix_of(b) {
                assert(a[0] == b.subrange(0, a.len() as int)[0]);
            }
            if a[0] < b[0] {
                assert(a.take(0) =~= b.take(0));
            }
            if exists|i: int|
                0 <= i < a.len() && i < b.len() && a.take(i) == b.take(i) && #[trigger] a[i]
                    < b[i] {
                let i = choose|i: int|
                    0 <= i < a.len() && i < b.len() && a.take(i) == b.take(i) && #[trigger] a[i]
                        < b[i];
                if i > 0 {
                    assert(a.take(i)[0] == b.take(i)[0]);
                }
            }
        }
    } else if a.len() == 0 {
        assert(a =~= b.subrange(0, 0));
    }
}

/// Records that are put in order are still the same records, and the data of each
/// comes before that of those behind it.
pub proof fn law_sorted_records(sorted: Seq<RecordModel>, records: Seq<RecordModel>)
    requires
        validator::is_sorted_form(sorted, records),
    ensures
        sorted.to_multiset() == records.to_multiset(),
        forall|i: int, j: int|
            0 <= i < j < sorted.len() ==> canonical::bytes_le(
                (#[trigger] sorted[i]).rdata,
                (#[trigger] sorted[j]).rdata,
            ),
{
    assert forall|r: RecordModel|
        #![trigger sorted.to_multiset().count(r)]
        sorted.to_multiset().count(r) == records.to_multiset().count(r) by {
        lemma_count_same_data(sorted, r);
        lemma_count_same_data(records, r);
        assert(canonical::same_data(sorted, r.rdata) == canonical::same_data(records, r.rdata));
    }
    assert(sorted.to_multiset() =~= records.to_multiset());
}

proof fn lemma_count_same_data(records: Seq<RecordModel>, r: RecordModel)
    ensures
        canonical::same_data(records, r.rdata).to_multiset().count(r)
            == records.to_multiset().count(r),
    decreases records.len(),
{
    broadcast use vstd::seq_lib::group_to_multiset_ensures;

    if records.len() > 0 {
        lemma_count_same_data(records.drop_last(), r);
        assert(records =~= records.drop_last().push(records.last()));
    }
}

// ---------------------------------------------------------------------------
// Signatures
// ---------------------------------------------------------------------------

/// Whether a record of type RRSIG holds a signature.
pub open spec fn holds_signature(record: RecordModel, owner: Seq<char>, sig: SigModel) -> bool {
    &&& record.rtype == 46
    &&& record.name == owner
    &&& SigModel::parsed(record.rdata) == Ok::<SigModel, Seq<char>>(sig)
}

/// The signatures of a section are those that a record of type RRSIG holds, each with
/// the name of its record.
pub proof fn law_signatures_of_a_section(
    records: Seq<RecordModel>,
    owner: Seq<char>,
    sig: SigModel,
)
    ensures
        rrsets::signatures_in(records, records.len()).contains((owner, sig)) <==> exists|i: int|
            0 <= i < records.len() && holds_signature(#[trigger] records[i], owner, sig),
{
    lemma_signatures(records, records.len(), owner, sig);
}

proof fn lemma_signatures(records: Seq<RecordModel>, n: nat, owner: Seq<char>, sig: SigModel)
    requires
        n <= records.len(),
    ensures
        rrsets::signatures_in(records, n).contains((owner, sig)) <==> exists|i: int|
            0 <= i < n && holds_signature(#[trigger] records[i], owner, sig),
    decreases n,
{
    if n > 0 {
        let before = rrsets::signatures_in(records, (n - 1) as nat);
        lemma_signatures(records, (n - 1) as nat, owner, sig);
        if let Ok(s) = SigModel::parsed(records[n - 1].rdata) {
            let item = (records[n - 1].name, s);
            lemma_push_contains(before, item, (owner, sig));
        }
        if holds_signature(records[n - 1], owner, sig) {
            assert(rrsets::signatures_in(records, n).contains((owner, sig)));
        }
    } else {
        assert(rrsets::signatures_in(records, 0) =~= Seq::<(Seq<char>, SigModel)>::empty());
    }
}

pub proof fn lemma_push_contains<A>(s: Seq<A>, a: A, b: A)
    ensures
        s.push(a).contains(b) <==> s.contains(b) || a == b,
{
    if s.contains(b) {
        let k = choose|k: int| 0 <= k < s.len() && s[k] == b;
        assert(s.push(a)[k] == b);
    }
    if a == b {
        assert(s.push(a)[s.len() as int] == b);
    }
    if s.push(a).contains(b) {
        let k = choose|k: int| 0 <= k < s.push(a).len() && s.push(a)[k] == b;
        if k < s.len() {
            assert(s[k] == b);
        }
    }
}

/// A zone signs for itself and for all that lies under it, whatever the case of the
/// letters; the root signs for all.
pub proof fn law_signer_of_a_name(zone: Seq<char>, name: Seq<char>)
    ensures
        rrsets::signs_for(zone, name) <==> zone.len() == 0 || auth_laws::belongs(zone, name),
{
    broadcast use encode_utf8_valid_utf8;

    if zone.len() > 0 {
        let low = text::lower(name);
        let dom = text::lower(zone);
        let n = encode_utf8(low);
        let d = encode_utf8(dom);
        let cut = n.len() - d.len();
        if auth_laws::belongs(zone, name) {
            if !auth_laws::is_top(zone, name) {
                let k = choose|k: int| auth_laws::is_below_at(zone, name, k);
                let front = low.take(k + 1);
                assert(low.skip(k + 1) =~= text::lower(name.skip(k + 1)));
                assert(low =~= front + dom);
                text::lemma_utf8_concat(front, dom);
                auth_laws::lemma_last_byte(front);
                assert(n.subrange(cut, n.len() as int) =~= d);
                assert(n[cut - 1] == encode_utf8(front).last());
            } else {
                assert(n.subrange(0, n.len() as int) =~= n);
            }
        }
        if cache::is_under(n, d) {
            assert(n.subrange(cut, n.len() as int) =~= d);
            if cut == 0 {
                assert(n =~= d);
                encode_utf8_decode_utf8(low);
                encode_utf8_decode_utf8(dom);
            } else {
                encode_utf8_first_scalar(dom);
                is_char_boundary_start_end_of_seq(d);
                lemma_first_byte(dom);
                assert(n[cut] == d[0]);
                is_char_boundary_iff_not_is_continuation_byte(n, cut);
                valid_utf8_split(n, cut);
                encode_utf8_decode_utf8(low);
                encode_utf8_decode_utf8(dom);
                decode_utf8_split(n, cut);
                let front = decode_utf8(n.subrange(0, cut));
                decode_utf8_encode_utf8(n.subrange(0, cut));
                assert(low =~= front + dom);
                if front.len() == 0 {
                    assert(encode_utf8(front).len() == 0);
                }
                auth_laws::lemma_last_byte(front);
                assert(n.subrange(0, cut).last() == n[cut - 1]);
                let k = front.len() - 1;
                assert(low[k] == '.');
                lemma_lower_dot(name[k]);
                assert(text::lower(name.skip(k + 1)) =~= low.skip(k + 1));
                assert(low.skip(k + 1) =~= dom);
                assert(auth_laws::is_below_at(zone, name, k));
            }
        }
    }
}

pub proof fn lemma_lower_dot(c: char)
    requires
        text::lower_char(c) == '.',
    ensures
        c == '.',
{
}

proof fn lemma_first_byte(s: Seq<char>)
    requires
        s.len() > 0,
    ensures
        encode_utf8(s).len() > 0,
        !is_continuation_byte(encode_utf8(s)[0]),
{
    broadcast use encode_utf8_valid_utf8;

    encode_utf8_first_scalar(s);
    let e = encode_utf8(s);
    assert(valid_first_scalar(e));
    let b = e[0];
    assert(is_leading_byte_width_1(b) || is_leading_byte_width_2(b) || is_leading_byte_width_3(b)
        || is_leading_byte_width_4(b));
}

// ---------------------------------------------------------------------------
// Keys
// ---------------------------------------------------------------------------

/// A key signs for its zone where the flag of a zone key is set, and that of a revoked
/// one is not.
pub proof fn law_flags_of_a_zone_key(flags: u16)
    ensures
        rrsets::is_zone_key(flags) <==> flags & 0x0100 != 0 && flags & 0x0080 == 0,
{
    assert((flags & 0x0100 != 0) == (flags / 256 % 2 == 1) && (flags & 0x0080 == 0) == (flags / 128
        % 2 == 0)) by (bit_vector);
}

/// Whether a record of the cache holds a key that a zone can sign with: it was
/// validated, is not out of date and bears the name of the zone; its key is a zone key
/// that is not revoked, of an algorithm that is known.
pub open spec fn holds_key(
    record: CacheRecord,
    zone: Seq<char>,
    now: Instant,
    key: KeyModel,
) -> bool {
    &&& record.flags.bits & 0x8000 == 0x8000
    &&& record.flags.bits & 0x1 == 0x1 || now < record.ttd
    &&& text::lower(record.name@) == text::lower(zone)
    &&& record.data matches CacheRecordData::DnsKey(k) && k.spec_flags() == key.flags
        && k.spec_algorithm() == key.algorithm.number() && k.spec_keydata() == key.public_key
    &&& key.protocol == 3
    &&& key.flags & 0x0100 != 0
    &&& key.flags & 0x0080 == 0
    &&& key.public_key.len() <= 65531
}

/// The keys of a zone are those that a record of the cache holds for it.
pub proof fn law_keys_of_a_zone(m: CacheModel, zone: Seq<char>, now: Instant, key: KeyModel)
    ensures
        rrsets::zone_keys(m, zone, now).contains(key) <==> exists|i: int|
            0 <= i < m.records.len() && (#[trigger] m.records[i] matches Some(record) && holds_key(
                record,
                zone,
                now,
                key,
            )),
{
    let cached = rrsets::cached_of(m, zone, now);
    lemma_secure_keys(cached, cached.len(), key);
    let keep = |record: CacheRecord| cache::answers(record, zone, now);
    if rrsets::zone_keys(m, zone, now).contains(key) {
        let j = choose|j: int| 0 <= j < cached.len() && is_key_record(#[trigger] cached[j], key);
        lemma_kept(m.records, m.records.len(), keep, cached[j]);
        lemma_key_record(cached[j], key);
    }
    if exists|i: int|
        0 <= i < m.records.len() && (#[trigger] m.records[i] matches Some(record) && holds_key(
            record,
            zone,
            now,
            key,
        )) {
        let i = choose|i: int|
            0 <= i < m.records.len() && (#[trigger] m.records[i] matches Some(record) && holds_key(
                record,
                zone,
                now,
                key,
            ));
        let record = m.records[i]->0;
        lemma_kept(m.records, m.records.len(), keep, record);
        lemma_key_record(record, key);
        let j = choose|j: int| 0 <= j < cached.len() && cached[j] == record;
        assert(is_key_record(cached[j], key));
    }
}

spec fn is_key_record(record: CacheRecord, key: KeyModel) -> bool {
    record.flags.bits & 0x8000 == 0x8000 && rrsets::key_in(record) == Some(key)
}

proof fn lemma_key_record(record: CacheRecord, key: KeyModel)
    ensures
        is_key_record(record, key) <==> {
            &&& record.flags.bits & 0x8000 == 0x8000
            &&& record.data matches CacheRecordData::DnsKey(k) && k.spec_flags() == key.flags
                && k.spec_algorithm() == key.algorithm.number() && k.spec_keydata()
                == key.public_key
            &&& key.protocol == 3
            &&& key.flags & 0x0100 != 0
            &&& key.flags & 0x0080 == 0
            &&& key.public_key.len() <= 65531
        },
{
    law_flags_of_a_zone_key(key.flags);
    types::law_algorithm_round_trip(key.algorithm);
    if let CacheRecordData::DnsKey(k) = record.data {
        types::law_algorithm_number(k.spec_algorithm());
        law_flags_of_a_zone_key(k.spec_flags());
    }
}

proof fn lemma_secure_keys(records: Seq<CacheRecord>, n: nat, key: KeyModel)
    requires
        n <= records.len(),
    ensures
        rrsets::secure_keys(records, n).contains(key) <==> exists|i: int|
            0 <= i < n && is_key_record(#[trigger] records[i], key),
    decreases n,
{
    if n > 0 {
        let before = rrsets::secure_keys(records, (n - 1) as nat);
        lemma_secure_keys(records, (n - 1) as nat, key);
        if let Some(k) = rrsets::key_in(records[n - 1]) {
            lemma_push_contains(before, k, key);
        }
        if is_key_record(records[n - 1], key) {
            assert(rrsets::secure_keys(records, n).contains(key));
        }
    } else {
        assert(rrsets::secure_keys(records, 0) =~= Seq::<KeyModel>::empty());
    }
}

/// What a search of the cache keeps is what it holds and the search asks for.
pub proof fn lemma_kept(
    records: Seq<Option<CacheRecord>>,
    n: nat,
    keep: spec_fn(CacheRecord) -> bool,
    record: CacheRecord,
)
    requires
        n <= records.len(),
    ensures
        cache::kept_records(records, n, keep).contains(record) <==> keep(record) && exists|i: int|
            0 <= i < n && #[trigger] records[i] == Some(record),
    decreases n,
{
    if n > 0 {
        let before = cache::kept_records(records, (n - 1) as nat, keep);
        lemma_kept(records, (n - 1) as nat, keep, record);
        if let Some(r) = records[n - 1] {
            lemma_push_contains(before, r, record);
        }
        if keep(record) && records[n - 1] == Some(record) {
            assert(cache::kept_records(records, n, keep).contains(record));
        }
    } else {
        assert(cache::kept_records(records, 0, keep) =~= Seq::<CacheRecord>::empty());
    }
}

// ---------------------------------------------------------------------------
// What vouches for a record
// ---------------------------------------------------------------------------

/// Whether a signature and a key speak for a record together: the signature is over
/// its type and lies at its name, its zone stands above it, and it does not count more
/// labels than the name has; the key has its tag, and the signature is one of the
/// key over the sorted set of the record, in its time unless dates do not count.
pub open spec fn speaks_for(
    owner: Seq<char>,
    sig: SigModel,
    key: KeyModel,
    record: RecordModel,
    sorted: Seq<RecordModel>,
    time: FileTime,
    check_dates: bool,
) -> bool {
    &&& text::lower(owner) == text::lower(record.name)
    &&& sig.type_covered == record.rtype
    &&& sig.signer_name.len() == 0 || auth_laws::belongs(sig.signer_name, record.name)
    &&& sig.labels <= rrsets::own_labels(record.name)
    &&& types::key_tag_of(key.wire()) == sig.key_tag
    &&& check_dates ==> sig.signature_inception * 1_000_000_000 <= time <= sig.signature_expiration
        * 1_000_000_000
    &&& crypto::verify_result(
        key.public_key,
        sig.signature,
        validator::signed_data(sig, sorted),
        sig.algorithm,
    ) is Ok
}

/// A record is vouched for exactly where a record of the section holds a signature and
/// one of the cache a key of its zone that speak for it together, and the signature
/// says no more of wildcards than is proved.
pub proof fn law_record_is_vouched_for(
    records: Seq<RecordModel>,
    record: RecordModel,
    proofs: Seq<ProofModel>,
    m: CacheModel,
    now: Instant,
    time: FileTime,
    check_dates: bool,
)
    ensures
        rrsets::is_vouched_for(records, record, proofs, m, now, time, check_dates) <==> exists|
            i: int,
            j: int,
            sig: SigModel,
            key: KeyModel,
        |
            #![trigger records[i], m.records[j], holds_signature(records[i], records[i].name, sig), key.wire()]
            {
                let sorted = rrsets::in_order(rrsets::set_of(records, records.len(), record));
                &&& 0 <= i < records.len()
                &&& 0 <= j < m.records.len()
                &&& holds_signature(records[i], records[i].name, sig)
                &&& m.records[j] matches Some(cached) && holds_key(
                    cached,
                    sig.signer_name,
                    now,
                    key,
                )
                &&& speaks_for(
                    records[i].name,
                    sig,
                    key,
                    record,
                    sorted,
                    time,
                    check_dates,
                )
                &&& rrsets::is_justified(sig, record.name, proofs)
                &&& validator::signed_data(sig, sorted).len() <= MESSAGE_MAX
            },
{
    let sigs = rrsets::signatures_in(records, records.len());
    let sorted = rrsets::in_order(rrsets::set_of(records, records.len(), record));
    if rrsets::is_vouched_for(records, record, proofs, m, now, time, check_dates) {
        let k = choose|k: int|
            0 <= k < sigs.len() && rrsets::is_meant(#[trigger] sigs[k], record)
                && rrsets::is_justified(sigs[k].1, record.name, proofs) && rrsets::is_verified(
                sigs[k].1,
                sorted,
                m,
                now,
                time,
                check_dates,
            );
        let (owner, sig) = sigs[k];
        let keys = rrsets::zone_keys(m, sig.signer_name, now);
        let h = choose|h: int|
            0 <= h < keys.len() && types::key_tag_of((#[trigger] keys[h]).wire()) == sig.key_tag
                && validator::rrset_result(sig, keys[h], sorted, time, check_dates) is Ok;
        let key = keys[h];
        assert(sigs.contains((owner, sig)));
        assert(keys.contains(key));
        law_signatures_of_a_section(records, owner, sig);
        law_keys_of_a_zone(m, sig.signer_name, now, key);
        law_signer_of_a_name(sig.signer_name, record.name);
        let i = choose|i: int|
            0 <= i < records.len() && holds_signature(#[trigger] records[i], owner, sig);
        let j = choose|j: int|
            0 <= j < m.records.len() && (#[trigger] m.records[j] matches Some(cached) && holds_key(
                cached,
                sig.signer_name,
                now,
                key,
            ));
        assert(holds_signature(records[i], records[i].name, sig));
        assert(m.records[j] is Some);
        assert(speaks_for(records[i].name, sig, key, record, sorted, time, check_dates));
    }
    assert forall|i: int, j: int, sig: SigModel, key: KeyModel|
        #![trigger records[i], m.records[j], holds_signature(records[i], records[i].name, sig), key.wire()]
        0 <= i < records.len() && 0 <= j < m.records.len() && holds_signature(
            records[i],
            records[i].name,
            sig,
        ) && (m.records[j] matches Some(cached) && holds_key(cached, sig.signer_name, now, key))
            && speaks_for(
            records[i].name,
            sig,
            key,
            record,
            sorted,
            time,
            check_dates,
        ) && rrsets::is_justified(sig, record.name, proofs) && validator::signed_data(
            sig,
            sorted,
        ).len() <= MESSAGE_MAX implies rrsets::is_vouched_for(
        records,
        record,
        proofs,
        m,
        now,
        time,
        check_dates,
    ) by {
        let owner = records[i].name;
        law_signatures_of_a_section(records, owner, sig);
        law_keys_of_a_zone(m, sig.signer_name, now, key);
        law_signer_of_a_name(sig.signer_name, record.name);
        assert(sigs.contains((owner, sig)));
        let k = choose|k: int| 0 <= k < sigs.len() && sigs[k] == (owner, sig);
        let keys = rrsets::zone_keys(m, sig.signer_name, now);
        assert(keys.contains(key));
        let h = choose|h: int| 0 <= h < keys.len() && keys[h] == key;
        assert(types::key_tag_of(keys[h].wire()) == sig.key_tag);
        assert(rrsets::is_meant(sigs[k], record));
        assert(rrsets::is_verified(sig, sorted, m, now, time, check_dates));
    }
}

/// A signature that counts as many labels as the name has, a leading asterisk not among
/// them, needs no proof. One that counts fewer stands for a wildcard: then a proof has
/// to cover the name with one label more than it counts.
pub proof fn law_wildcard_has_to_be_proved(
    sig: SigModel,
    name: Seq<char>,
    proofs: Seq<ProofModel>,
)
    ensures
        sig.labels >= rrsets::own_labels(name) ==> rrsets::is_justified(sig, name, proofs),
        sig.labels < rrsets::own_labels(name) && rrsets::is_justified(sig, name, proofs)
            ==> exists|i: int, front: Seq<Seq<u8>>, rest: Seq<Seq<u8>>|
            #![trigger denial::covers(proofs[i], rest, false), front + rest]
            0 <= i < proofs.len() && denial::labels_of(name) == front + rest && rest.len()
                == sig.labels + 1 && denial::covers(proofs[i], rest, false),
{
    if sig.labels < rrsets::own_labels(name) && rrsets::is_justified(sig, name, proofs) {
        let row = denial::labels_of(name);
        let cut = row.len() - sig.labels - 1;
        let rest = row.skip(cut);
        let i = choose|i: int|
            0 <= i < proofs.len() && denial::covers(#[trigger] proofs[i], rest, false);
        assert(row =~= row.take(cut) + rest);
        assert(denial::covers(proofs[i], rest, false));
    }
}

/// The labels of a name that is made of them are counted, but not an asterisk that it
/// begins with.
pub proof fn law_own_labels(parts: Seq<Seq<char>>)
    requires
        parts.len() >= 1,
        forall|i: int| 0 <= i < parts.len() ==> !(#[trigger] parts[i]).contains('.'),
        forall|i: int| 0 <= i < parts.len() ==> (#[trigger] parts[i]).len() > 0,
    ensures
        rrsets::own_labels(text::join(parts, '.')) == if parts[0] == seq!['*'] {
            parts.len() - 1
        } else {
            parts.len() as int
        },
{
    validator_laws::lemma_label_count(parts);
    text::law_join_split(parts, '.');
}

// ---------------------------------------------------------------------------
// Aliases
// ---------------------------------------------------------------------------

/// Whether a record of type CNAME says that a name stands for another one.
pub open spec fn aliases(record: RecordModel, name: Seq<char>, target: Seq<char>) -> bool {
    &&& record.rtype == 5
    &&& text::lower(record.name) == text::lower(name)
    &&& types::read_labels(record.rdata, 0, Seq::empty()) matches Some((labels, _)) && target
        == text::join(labels, '.')
}

/// A name stands for what the last alias of it among the records says, and for itself
/// where there is none.
pub proof fn law_alias_of_a_name(records: Seq<RecordModel>, name: Seq<char>)
    ensures
        match rrsets::alias_in(records, records.len(), name) {
            Some(target) => exists|i: int|
                0 <= i < records.len() && aliases(#[trigger] records[i], name, target) && forall|
                    j: int,
                    other: Seq<char>,
                |
                    i < j < records.len() ==> !(#[trigger] aliases(records[j], name, other)),
            None => forall|j: int, other: Seq<char>|
                0 <= j < records.len() ==> !(#[trigger] aliases(records[j], name, other)),
        },
{
    lemma_alias(records, records.len(), name);
}

proof fn lemma_alias(records: Seq<RecordModel>, n: nat, name: Seq<char>)
    requires
        n <= records.len(),
    ensures
        match rrsets::alias_in(records, n, name) {
            Some(target) => exists|i: int|
                0 <= i < n && aliases(#[trigger] records[i], name, target) && forall|
                    j: int,
                    other: Seq<char>,
                |
                    i < j < n ==> !(#[trigger] aliases(records[j], name, other)),
            None => forall|j: int, other: Seq<char>|
                0 <= j < n ==> !(#[trigger] aliases(records[j], name, other)),
        },
    decreases n,
{
    if n > 0 {
        lemma_alias(records, (n - 1) as nat, name);
        let last = records[n - 1];
        if exists|other: Seq<char>| aliases(last, name, other) {
            let other = choose|other: Seq<char>| aliases(last, name, other);
            assert(rrsets::alias_in(records, n, name) == Some(other));
        } else {
            assert(rrsets::alias_in(records, n, name) == rrsets::alias_in(
                records,
                (n - 1) as nat,
                name,
            )) by {
                if let Some((labels, _)) = types::read_labels(
                    records[n - 1].rdata,
                    0,
                    Seq::empty(),
                ) {
                    let t = text::join(labels, '.');
                    assert(!aliases(records[n - 1], name, t));
                }
            }
        }
    }
}

/// A chain of aliases leads from each name to what it stands for, and ends where no
/// alias is left or the steps are used up.
pub proof fn law_chain_of_aliases(
    records: Seq<RecordModel>,
    name: Seq<char>,
    target: Seq<char>,
    steps: nat,
)
    ensures
        rrsets::chain_end(records, name, 0) == name,
        rrsets::alias_in(records, records.len(), name) is None ==> rrsets::chain_end(
            records,
            name,
            steps,
        ) == name,
        rrsets::alias_in(records, records.len(), name) == Some(target) ==> rrsets::chain_end(
            records,
            name,
            steps + 1,
        ) == rrsets::chain_end(records, target, steps),
{
}

/// Whether a record answers a question: it bears its name, and is of its type unless
/// all types are asked for.
pub open spec fn answers(record: RecordModel, name: Seq<char>, qtype: u16) -> bool {
    text::lower(record.name) == text::lower(name) && (record.rtype == qtype || qtype == 255)
}

/// A question is answered exactly where some record answers it for a name on the chain
/// of aliases that begins at its name.
pub proof fn law_question_is_answered(
    records: Seq<RecordModel>,
    name: Seq<char>,
    qtype: u16,
    steps: nat,
)
    ensures
        rrsets::is_answered(records, name, qtype, steps) <==> exists|k: nat, i: int|
            #![trigger rrsets::chain_end(records, name, k), records[i]]
            k <= steps && 0 <= i < records.len() && answers(
                records[i],
                rrsets::chain_end(records, name, k),
                qtype,
            ),
    decreases steps,
{
    let at_once = rrsets::has_answer(records, name, qtype);
    assert(rrsets::chain_end(records, name, 0) == name);
    if at_once {
        let i = choose|i: int|
            0 <= i < records.len() && text::lower((#[trigger] records[i]).name) == text::lower(name)
                && (records[i].rtype == qtype || qtype == 255);
        assert(answers(records[i], rrsets::chain_end(records, name, 0), qtype));
    }
    match rrsets::alias_in(records, records.len(), name) {
        Some(target) if steps > 0 => {
            law_question_is_answered(records, target, qtype, (steps - 1) as nat);
            if rrsets::is_answered(records, target, qtype, (steps - 1) as nat) {
                let (k, i) = choose|k: nat, i: int|
                    #![trigger rrsets::chain_end(records, target, k), records[i]]
                    k <= steps - 1 && 0 <= i < records.len() && answers(
                        records[i],
                        rrsets::chain_end(records, target, k),
                        qtype,
                    );
                assert(rrsets::chain_end(records, name, k + 1) == rrsets::chain_end(
                    records,
                    target,
                    k,
                ));
                assert(answers(records[i], rrsets::chain_end(records, name, k + 1), qtype));
            }
            assert forall|k: nat, i: int|
                #![trigger rrsets::chain_end(records, name, k), records[i]]
                k <= steps && 0 <= i < records.len() && answers(
                    records[i],
                    rrsets::chain_end(records, name, k),
                    qtype,
                ) implies rrsets::is_answered(records, name, qtype, steps) by {
                if k > 0 {
                    let before = (k - 1) as nat;
                    assert(rrsets::chain_end(records, name, k) == rrsets::chain_end(
                        records,
                        target,
                        before,
                    ));
                    assert(answers(records[i], rrsets::chain_end(records, target, before), qtype));
                }
            }
        },
        _ => {
            assert forall|k: nat, i: int|
                #![trigger rrsets::chain_end(records, name, k), records[i]]
                k <= steps && 0 <= i < records.len() && answers(
                    records[i],
                    rrsets::chain_end(records, name, k),
                    qtype,
                ) implies at_once by {
                assert(rrsets::chain_end(records, name, k) == name);
            }
        },
    }
}

// ---------------------------------------------------------------------------
// Sections
// ---------------------------------------------------------------------------

/// The records of a section are read where they stand, each with its name, its type, its
/// class, its time to live and its data in canonical form; what stands behind one is
/// read next.
pub proof fn law_record_of_a_section(packet: Seq<u8>, pos: int, count: nat, p: int, name: Seq<char>)
    requires
        count > 0,
        parser::name_at(packet, pos) == Ok::<(int, Seq<char>), ParseFault>((p, name)),
        0 <= p,
        p + 10 <= packet.len(),
        ({
            let end = p + 10 + packet[p + 8] * 256 + packet[p + 9];
            &&& end <= packet.len()
            &&& canonical::canonical_data(packet, p + 10, end, wire::be16(packet, p)).len()
                <= u16::MAX
        }),
    ensures
        ({
            let end = p + 10 + packet[p + 8] * 256 + packet[p + 9];
            let data = canonical::canonical_data(packet, p + 10, end, wire::be16(packet, p));
            let records = rrsets::section_records(packet, pos, count, Seq::empty());
            let behind = rrsets::section_records(packet, end, (count - 1) as nat, Seq::empty());
            &&& records.len() == 1 + behind.len()
            &&& records[0].name == name
            &&& records[0].rtype == packet[p] * 256 + packet[p + 1]
            &&& records[0].class == packet[p + 2] * 256 + packet[p + 3]
            &&& records[0].ttl == wire::be32(packet, p + 4)
            &&& records[0].rdlength == data.len()
            &&& records[0].rdata == data
            &&& records.skip(1) == behind
        }),
{
    let end = p + 10 + packet[p + 8] * 256 + packet[p + 9];
    let data = canonical::canonical_data(packet, p + 10, end, wire::be16(packet, p));
    let first = RecordModel {
        name,
        rtype: wire::be16(packet, p),
        class: wire::be16(packet, p + 2),
        ttl: wire::be32(packet, p + 4),
        rdlength: data.len() as u16,
        rdata: data,
    };
    let none = Seq::<RecordModel>::empty();
    lemma_section_from(packet, end, (count - 1) as nat, none.push(first));
    let records = rrsets::section_records(packet, pos, count, none);
    let behind = rrsets::section_records(packet, end, (count - 1) as nat, none);
    assert(records == none.push(first) + behind);
    assert(records.skip(1) =~= behind);
}

proof fn lemma_section_from(packet: Seq<u8>, pos: int, count: nat, found: Seq<RecordModel>)
    ensures
        rrsets::section_records(packet, pos, count, found) == found + rrsets::section_records(
            packet,
            pos,
            count,
            Seq::empty(),
        ),
    decreases count,
{
    let none = Seq::<RecordModel>::empty();
    assert(found + none =~= found);
    if count > 0 {
        if let Ok((p, name)) = parser::name_at(packet, pos) {
            let len = wire::be16(packet, p + 8);
            let rtype = wire::be16(packet, p);
            let rdata = canonical::canonical_data(packet, p + 10, p + 10 + len, rtype);
            let r = RecordModel {
                name,
                rtype,
                class: wire::be16(packet, p + 2),
                ttl: wire::be32(packet, p + 4),
                rdlength: rdata.len() as u16,
                rdata,
            };
            lemma_section_from(packet, p + 10 + len, (count - 1) as nat, found.push(r));
            lemma_section_from(packet, p + 10 + len, (count - 1) as nat, none.push(r));
            let rest = rrsets::section_records(packet, p + 10 + len, (count - 1) as nat, none);
            assert(found.push(r) + rest =~= found + (none.push(r) + rest));
        }
    }
}

// ---------------------------------------------------------------------------
// Order, and times to live
// ---------------------------------------------------------------------------

/// Ordered records with one more, behind all whose data does not come after its own.
pub open spec fn with_one_more(sorted: Seq<RecordModel>, r: RecordModel) -> Seq<RecordModel>
    decreases sorted.len(),
{
    if sorted.len() == 0 || canonical::bytes_le(sorted.last().rdata, r.rdata) {
        sorted.push(r)
    } else {
        with_one_more(sorted.drop_last(), r).push(sorted.last())
    }
}

/// Records in order, those with the same data as they came.
pub open spec fn sorted_from(records: Seq<RecordModel>) -> Seq<RecordModel>
    decreases records.len(),
{
    if records.len() == 0 {
        records
    } else {
        with_one_more(sorted_from(records.drop_last()), records.last())
    }
}

proof fn lemma_one_more(sorted: Seq<RecordModel>, r: RecordModel, d: Seq<u8>)
    requires
        canonical::is_ordered(sorted),
    ensures
        canonical::is_ordered(with_one_more(sorted, r)),
        with_one_more(sorted, r).len() == sorted.len() + 1,
        forall|i: int|
            0 <= i < sorted.len() + 1 ==> {
                let x = #[trigger] with_one_more(sorted, r)[i];
                x == r || sorted.contains(x)
            },
        canonical::same_data(with_one_more(sorted, r), d) == if r.rdata == d {
            canonical::same_data(sorted, d).push(r)
        } else {
            canonical::same_data(sorted, d)
        },
    decreases sorted.len(),
{
    let t = with_one_more(sorted, r);
    canonical::lemma_bytes_total(r.rdata, r.rdata);
    if sorted.len() == 0 {
        assert(t =~= sorted.push(r));
        assert(t.drop_last() =~= sorted);
    } else {
        let last = sorted.last();
        canonical::lemma_bytes_total(last.rdata, r.rdata);
        canonical::lemma_bytes_total(last.rdata, last.rdata);
        if canonical::bytes_le(last.rdata, r.rdata) {
            assert(t.drop_last() =~= sorted);
            assert forall|i: int, j: int| 0 <= i <= j < t.len() implies canonical::bytes_le(
                #[trigger] t[i].rdata,
                #[trigger] t[j].rdata,
            ) by {
                if j == sorted.len() && i < j {
                    assert(canonical::bytes_le(sorted[i].rdata, sorted[sorted.len() - 1].rdata));
                    canonical::lemma_bytes_transitive(sorted[i].rdata, last.rdata, r.rdata);
                } else if j < sorted.len() {
                    assert(canonical::bytes_le(sorted[i].rdata, sorted[j].rdata));
                }
            }
            assert forall|i: int| 0 <= i < t.len() implies ({
                let x = #[trigger] t[i];
                x == r || sorted.contains(x)
            }) by {
                if i < sorted.len() {
                    assert(sorted[i] == t[i]);
                }
            }
        } else {
            let front = sorted.drop_last();
            assert(canonical::is_ordered(front)) by {
                assert forall|i: int, j: int| 0 <= i <= j < front.len() implies canonical::bytes_le(
                    #[trigger] front[i].rdata,
                    #[trigger] front[j].rdata,
                ) by {
                    assert(canonical::bytes_le(sorted[i].rdata, sorted[j].rdata));
                }
            }
            lemma_one_more(front, r, d);
            let part = with_one_more(front, r);
            assert(t.drop_last() =~= part);
            assert forall|i: int| 0 <= i < part.len() implies canonical::bytes_le(
                #[trigger] part[i].rdata,
                last.rdata,
            ) && (part[i] == r || sorted.contains(part[i])) by {
                if part[i] != r {
                    let k = choose|k: int| 0 <= k < front.len() && front[k] == part[i];
                    assert(sorted[k] == part[i]);
                    assert(canonical::bytes_le(sorted[k].rdata, sorted[sorted.len() - 1].rdata));
                }
            }
            assert forall|i: int, j: int| 0 <= i <= j < t.len() implies canonical::bytes_le(
                #[trigger] t[i].rdata,
                #[trigger] t[j].rdata,
            ) by {
                if j < part.len() {
                    assert(canonical::bytes_le(part[i].rdata, part[j].rdata));
                } else if i < j {
                    assert(canonical::bytes_le(part[i].rdata, last.rdata));
                }
            }
            assert forall|i: int| 0 <= i < t.len() implies ({
                let x = #[trigger] t[i];
                x == r || sorted.contains(x)
            }) by {
                if i < part.len() {
                    assert(t[i] == part[i]);
                } else {
                    assert(sorted[sorted.len() - 1] == t[i]);
                }
            }
        }
    }
}

proof fn lemma_sorted_from(records: Seq<RecordModel>)
    ensures
        validator::is_sorted_form(sorted_from(records), records),
    decreases records.len(),
{
    let sorted = sorted_from(records);
    if records.len() > 0 {
        let front = records.drop_last();
        lemma_sorted_from(front);
        lemma_one_more(sorted_from(front), records.last(), Seq::empty());
        assert forall|d: Seq<u8>|
            #![trigger canonical::same_data(sorted, d)]
            canonical::same_data(sorted, d) == canonical::same_data(records, d) by {
            lemma_one_more(sorted_from(front), records.last(), d);
            assert(canonical::same_data(sorted_from(front), d) == canonical::same_data(front, d));
        }
    }
}

/// Records have an order, and it is the one in which the set of a record is verified: the
/// same records, each of whose data comes before that of those behind it.
pub proof fn law_records_are_put_in_order(records: Seq<RecordModel>)
    ensures
        rrsets::in_order(records) == sorted_from(records),
        rrsets::in_order(records).to_multiset() == records.to_multiset(),
        forall|i: int, j: int|
            0 <= i < j < records.len() ==> canonical::bytes_le(
                (#[trigger] rrsets::in_order(records)[i]).rdata,
                (#[trigger] rrsets::in_order(records)[j]).rdata,
            ),
{
    lemma_sorted_from(records);
    let chosen = rrsets::in_order(records);
    assert(validator::is_sorted_form(chosen, records));
    validator::law_sorted_form_is_unique(chosen, sorted_from(records), records);
    law_sorted_records(chosen, records);
}

proof fn lemma_one_more_but_ttl(
    a: Seq<RecordModel>,
    b: Seq<RecordModel>,
    r: RecordModel,
    s: RecordModel,
)
    requires
        validator_laws::all_same_but_ttl(a, b),
        validator_laws::same_but_ttl(r, s),
    ensures
        validator_laws::all_same_but_ttl(with_one_more(a, r), with_one_more(b, s)),
    decreases a.len(),
{
    if a.len() > 0 {
        let n = a.len() - 1;
        assert(validator_laws::same_but_ttl(a[n], b[n]));
        if !canonical::bytes_le(a.last().rdata, r.rdata) {
            lemma_front_but_ttl(a, b);
            lemma_one_more_but_ttl(a.drop_last(), b.drop_last(), r, s);
        }
    }
}

proof fn lemma_front_but_ttl(a: Seq<RecordModel>, b: Seq<RecordModel>)
    requires
        validator_laws::all_same_but_ttl(a, b),
        a.len() > 0,
    ensures
        validator_laws::all_same_but_ttl(a.drop_last(), b.drop_last()),
        validator_laws::same_but_ttl(a.last(), b.last()),
{
    let (x, y) = (a.drop_last(), b.drop_last());
    assert forall|i: int| 0 <= i < x.len() implies validator_laws::same_but_ttl(
        #[trigger] x[i],
        y[i],
    ) by {
        assert(validator_laws::same_but_ttl(a[i], b[i]));
    }
    assert(validator_laws::same_but_ttl(a[a.len() - 1], b[b.len() - 1]));
}

proof fn lemma_sorted_but_ttl(a: Seq<RecordModel>, b: Seq<RecordModel>)
    requires
        validator_laws::all_same_but_ttl(a, b),
    ensures
        validator_laws::all_same_but_ttl(sorted_from(a), sorted_from(b)),
    decreases a.len(),
{
    if a.len() > 0 {
        lemma_front_but_ttl(a, b);
        lemma_sorted_but_ttl(a.drop_last(), b.drop_last());
        lemma_one_more_but_ttl(
            sorted_from(a.drop_last()),
            sorted_from(b.drop_last()),
            a.last(),
            b.last(),
        );
    }
}

proof fn lemma_set_but_ttl(
    a: Seq<RecordModel>,
    b: Seq<RecordModel>,
    n: nat,
    r: RecordModel,
    s: RecordModel,
)
    requires
        validator_laws::all_same_but_ttl(a, b),
        validator_laws::same_but_ttl(r, s),
        n <= a.len(),
    ensures
        validator_laws::all_same_but_ttl(rrsets::set_of(a, n, r), rrsets::set_of(b, n, s)),
        rrsets::signatures_in(a, n) == rrsets::signatures_in(b, n),
    decreases n,
{
    if n > 0 {
        lemma_set_but_ttl(a, b, (n - 1) as nat, r, s);
        assert(validator_laws::same_but_ttl(a[n - 1], b[n - 1]));
    }
}

/// What is left of the time to live of records does not count: two sections that are the
/// same but for that vouch for the same records, and for all of them or not alike.
pub proof fn law_time_left_does_not_count(
    a: Seq<RecordModel>,
    b: Seq<RecordModel>,
    proofs: Seq<ProofModel>,
    m: CacheModel,
    now: Instant,
    time: FileTime,
    check_dates: bool,
)
    requires
        validator_laws::all_same_but_ttl(a, b),
    ensures
        forall|i: int|
            0 <= i < a.len() ==> rrsets::is_vouched_for(
                a,
                #[trigger] a[i],
                proofs,
                m,
                now,
                time,
                check_dates,
            ) == rrsets::is_vouched_for(b, b[i], proofs, m, now, time, check_dates),
        rrsets::all_vouched_for(a, proofs, m, now, time, check_dates) == rrsets::all_vouched_for(
            b,
            proofs,
            m,
            now,
            time,
            check_dates,
        ),
{
    assert forall|i: int| 0 <= i < a.len() implies rrsets::is_vouched_for(
        a,
        #[trigger] a[i],
        proofs,
        m,
        now,
        time,
        check_dates,
    ) == rrsets::is_vouched_for(b, b[i], proofs, m, now, time, check_dates) && a[i].rtype
        == b[i].rtype by {
        assert(validator_laws::same_but_ttl(a[i], b[i]));
        lemma_vouched_but_ttl(a, b, i, proofs, m, now, time, check_dates);
        lemma_vouched_but_ttl(b, a, i, proofs, m, now, time, check_dates);
    }
    assert forall|i: int| 0 <= i < b.len() implies (#[trigger] b[i]).rtype == a[i].rtype by {
        assert(validator_laws::same_but_ttl(a[i], b[i]));
    }
    if rrsets::all_vouched_for(a, proofs, m, now, time, check_dates) {
        assert forall|i: int| 0 <= i < b.len() && (#[trigger] b[i]).rtype != 46 implies
            rrsets::is_vouched_for(b, b[i], proofs, m, now, time, check_dates) by {
            assert(a[i].rtype == b[i].rtype);
        }
    }
    if rrsets::all_vouched_for(b, proofs, m, now, time, check_dates) {
        assert forall|i: int| 0 <= i < a.len() && (#[trigger] a[i]).rtype != 46 implies
            rrsets::is_vouched_for(a, a[i], proofs, m, now, time, check_dates) by {
            assert(b[i].rtype == a[i].rtype);
        }
    }
}

proof fn lemma_vouched_but_ttl(
    a: Seq<RecordModel>,
    b: Seq<RecordModel>,
    i: int,
    proofs: Seq<ProofModel>,
    m: CacheModel,
    now: Instant,
    time: FileTime,
    check_dates: bool,
)
    requires
        validator_laws::all_same_but_ttl(a, b),
        0 <= i < a.len(),
    ensures
        rrsets::is_vouched_for(a, a[i], proofs, m, now, time, check_dates)
            ==> rrsets::is_vouched_for(b, b[i], proofs, m, now, time, check_dates),
{
    if rrsets::is_vouched_for(a, a[i], proofs, m, now, time, check_dates) {
        let (r, s) = (a[i], b[i]);
        assert(validator_laws::same_but_ttl(r, s));
        lemma_set_but_ttl(a, b, a.len(), r, s);
        let (x, y) = (rrsets::set_of(a, a.len(), r), rrsets::set_of(b, b.len(), s));
        lemma_sorted_but_ttl(x, y);
        law_records_are_put_in_order(x);
        law_records_are_put_in_order(y);
        let (p, q) = (rrsets::in_order(x), rrsets::in_order(y));
        let sigs = rrsets::signatures_in(a, a.len());
        let k = choose|k: int|
            0 <= k < sigs.len() && rrsets::is_meant(#[trigger] sigs[k], r)
                && rrsets::is_justified(sigs[k].1, r.name, proofs) && rrsets::is_verified(
                sigs[k].1,
                p,
                m,
                now,
                time,
                check_dates,
            );
        let sig = sigs[k].1;
        let keys = rrsets::zone_keys(m, sig.signer_name, now);
        let h = choose|h: int|
            0 <= h < keys.len() && types::key_tag_of((#[trigger] keys[h]).wire()) == sig.key_tag
                && validator::rrset_result(sig, keys[h], p, time, check_dates) is Ok;
        validator_laws::law_received_ttl_does_not_count(sig, keys[h], p, q, time, check_dates);
        assert(types::key_tag_of(keys[h].wire()) == sig.key_tag);
        assert(rrsets::is_verified(sig, q, m, now, time, check_dates));
        assert(rrsets::is_meant(rrsets::signatures_in(b, b.len())[k], s));
    }
}

} // verus!
