//! The records of a reply, and the signatures and keys that vouch for them.

use crate::cache::{self, Cache, CacheModel};
use crate::cache_types::{CacheRecord, CacheRecordData, Instant, F_DNSSECOK};
use crate::dnssec::canonical::{
    self, count_labels, read_data, sort_rrset, RecordModel, ResourceRecord,
};
use crate::dnssec::crypto::MESSAGE_MAX;
use crate::dnssec::denial::{self, any_covers, Proof, ProofModel};
use crate::dnssec::trust_anchor::FileTime;
use crate::dnssec::types::{self, take_name, DnsKey, DnssecAlgorithm, KeyModel, RRSig, SigModel};
use crate::dnssec::validator::{self, collect_signed_data, validate_rrset};
use crate::domain::hostname_isequal;
use crate::parser::{self, extract_name};
use crate::protocol::{T_ANY, T_CNAME, T_RRSIG};
use crate::text::{self, to_ascii_lower};
use crate::wire::{self, copy_range, read_u16, read_u32};
use vstd::prelude::*;
use vstd::slice::slice_subrange;
use vstd::utf8::*;

verus! {

// ---------------------------------------------------------------------------
// Sections
// ---------------------------------------------------------------------------

/// Up to `count` records at `pos`, behind those in `found`: those before the first
/// that cannot be read. Their data is in canonical form, of which signatures speak.
pub open spec fn section_records(
    packet: Seq<u8>,
    pos: int,
    count: nat,
    found: Seq<RecordModel>,
) -> Seq<RecordModel>
    decreases count,
{
    if count == 0 {
        found
    } else {
        match parser::name_at(packet, pos) {
            Err(_) => found,
            Ok((p, name)) => {
                let len = wire::be16(packet, p + 8);
                let rtype = wire::be16(packet, p);
                let rdata = canonical::canonical_data(packet, p + 10, p + 10 + len, rtype);
                if p + 10 > packet.len() || p + 10 + len > packet.len() || rdata.len()
                    > u16::MAX {
                    found
                } else {
                    section_records(
                        packet,
                        p + 10 + len,
                        (count - 1) as nat,
                        found.push(
                            RecordModel {
                                name,
                                rtype,
                                class: wire::be16(packet, p + 2),
                                ttl: wire::be32(packet, p + 4),
                                rdlength: rdata.len() as u16,
                                rdata,
                            },
                        ),
                    )
                }
            },
        }
    }
}

/// Reads up to `count` records.
pub fn read_section(packet: &[u8], start: usize, count: u16) -> (r: Vec<ResourceRecord>)
    requires
        start <= packet@.len(),
    ensures
        canonical::record_models(r@) == section_records(
            packet@,
            start as int,
            count as nat,
            Seq::empty(),
        ),
        r@.len() <= count,
{
    let mut found: Vec<ResourceRecord> = Vec::new();
    let mut pos: usize = start;
    let mut left: u16 = count;
    assert(canonical::record_models(found@) =~= Seq::empty());
    while left > 0
        invariant
            pos <= packet@.len(),
            found@.len() + left == count,
            section_records(packet@, start as int, count as nat, Seq::empty()) == section_records(
                packet@,
                pos as int,
                left as nat,
                canonical::record_models(found@),
            ),
        decreases left,
    {
        let input = slice_subrange(packet, pos, packet.len());
        assert(input@ =~= packet@.skip(pos as int));
        let (rest, name) = match extract_name(packet, input) {
            Err(_) => {
                return found;
            },
            Ok(read) => read,
        };
        if rest.len() < 10 {
            return found;
        }
        let ghost p = packet@.len() - rest@.len();
        let len: u16 = read_u16(rest, 8);
        assert(len == wire::be16(packet@, p + 8));
        if rest.len() - 10 < len as usize {
            return found;
        }
        let start_of_data: usize = packet.len() - rest.len() + 10;
        let end: usize = start_of_data + len as usize;
        let rtype: u16 = read_u16(rest, 0);
        assert(rtype == wire::be16(packet@, p));
        let rdata = read_data(packet, start_of_data, end, rtype);
        if rdata.len() > u16::MAX as usize {
            return found;
        }
        let record = ResourceRecord {
            name,
            rtype,
            class: read_u16(rest, 2),
            ttl: read_u32(rest, 4),
            rdlength: rdata.len() as u16,
            rdata,
        };
        let ghost before = canonical::record_models(found@);
        found.push(record);
        assert(canonical::record_models(found@) =~= before.push(record@));
        pos = end;
        left = left - 1;
    }
    found
}

// ---------------------------------------------------------------------------
// Signatures and keys
// ---------------------------------------------------------------------------

/// The signatures among the first `n` records, each with the name that it stands
/// under. What cannot be read as a signature is none.
pub open spec fn signatures_in(records: Seq<RecordModel>, n: nat) -> Seq<(Seq<char>, SigModel)>
    decreases n,
{
    if n == 0 {
        Seq::empty()
    } else {
        let before = signatures_in(records, (n - 1) as nat);
        let record = records[n - 1];
        if record.rtype != T_RRSIG {
            before
        } else {
            match SigModel::parsed(record.rdata) {
                Ok(sig) => before.push((record.name, sig)),
                Err(_) => before,
            }
        }
    }
}

/// What named signatures hold.
pub open spec fn named_models(sigs: Seq<(String, RRSig)>) -> Seq<(Seq<char>, SigModel)> {
    sigs.map_values(|s: (String, RRSig)| (s.0@, s.1@))
}

/// Reads the signatures among records.
pub fn collect_signatures(records: &Vec<ResourceRecord>) -> (r: Vec<(String, RRSig)>)
    ensures
        named_models(r@) == signatures_in(canonical::record_models(records@), records@.len()),
{
    let ghost all = canonical::record_models(records@);
    let mut found: Vec<(String, RRSig)> = Vec::new();
    let mut i: usize = 0;
    assert(named_models(found@) =~= Seq::empty());
    while i < records.len()
        invariant
            i <= records@.len(),
            all == canonical::record_models(records@),
            named_models(found@) == signatures_in(all, i as nat),
        decreases records@.len() - i,
    {
        assert(all[i as int] == records@[i as int]@);
        if records[i].rtype == T_RRSIG {
            match RRSig::from_wire(records[i].rdata.as_slice()) {
                Ok(sig) => {
                    let ghost before = named_models(found@);
                    let name: String = records[i].name.as_str().to_owned();
                    found.push((name, sig));
                    assert(named_models(found@) =~= before.push((name@, sig@)));
                },
                Err(_) => {},
            }
        }
        i = i + 1;
    }
    found
}

/// Whether a key with these flags may sign for its zone: it is a zone key that was
/// not revoked.
pub open spec fn is_zone_key(flags: u16) -> bool {
    flags / 256 % 2 == 1 && flags / 128 % 2 == 0
}

/// The key in a cached record, if there is one that may sign, is supported and not
/// too long for a message.
pub open spec fn key_in(record: CacheRecord) -> Option<KeyModel> {
    match record.data {
        CacheRecordData::DnsKey(key) => match DnssecAlgorithm::numbered(key.spec_algorithm()) {
            Some(algorithm) => if key.spec_keydata().len() <= 65531 && is_zone_key(
                key.spec_flags(),
            ) {
                Some(
                    KeyModel {
                        flags: key.spec_flags(),
                        protocol: 3,
                        algorithm,
                        public_key: key.spec_keydata(),
                    },
                )
            } else {
                None
            },
            None => None,
        },
        _ => None,
    }
}

/// The keys among the first `n` cached records that were found to be secure.
pub open spec fn secure_keys(records: Seq<CacheRecord>, n: nat) -> Seq<KeyModel>
    decreases n,
{
    if n == 0 {
        Seq::empty()
    } else {
        let before = secure_keys(records, (n - 1) as nat);
        match key_in(records[n - 1]) {
            Some(key) if records[n - 1].flags.has(F_DNSSECOK) => before.push(key),
            _ => before,
        }
    }
}

/// The records of a name that are in the cache and still true.
pub open spec fn cached_of(m: CacheModel, name: Seq<char>, now: Instant) -> Seq<CacheRecord> {
    cache::kept_records(
        m.records,
        m.records.len(),
        |record: CacheRecord| cache::answers(record, name, now),
    )
}

/// The keys of a zone that are in the cache, still true, and were found to be
/// secure.
pub open spec fn zone_keys(m: CacheModel, zone: Seq<char>, now: Instant) -> Seq<KeyModel> {
    secure_keys(cached_of(m, zone, now), cached_of(m, zone, now).len())
}

/// The key in a cached record.
fn take_key(record: &CacheRecord) -> (r: Option<DnsKey>)
    ensures
        match r {
            Some(key) => key_in(*record) == Some(key@),
            None => key_in(*record) is None,
        },
{
    match &record.data {
        CacheRecordData::DnsKey(data) => {
            let public_key = data.keydata();
            let flags: u16 = data.flags();
            if public_key.len() > 65531 || flags / 256 % 2 == 0 || flags / 128 % 2 == 1 {
                return None;
            }
            match DnssecAlgorithm::from_u8(data.algorithm()) {
                Some(algorithm) => Some(
                    DnsKey { flags, protocol: 3, algorithm, public_key },
                ),
                None => None,
            }
        },
        _ => None,
    }
}

/// Looks the secure keys of a zone up.
pub fn find_zone_keys(cache: &Cache, zone: &str, now: Instant) -> (r: Vec<DnsKey>)
    ensures
        validator::key_models(r@) == zone_keys(cache@, zone@, now),
        validator::can_tag_all(r@),
{
    let cached = cache.find_by_name(zone, now);
    let ghost all = cached_of(cache@, zone@, now);
    let mut keys: Vec<DnsKey> = Vec::new();
    let mut i: usize = 0;
    assert(validator::key_models(keys@) =~= Seq::empty());
    while i < cached.len()
        invariant
            i <= cached@.len(),
            all == cached_of(cache@, zone@, now),
            all == cache::targets(cached@),
            validator::key_models(keys@) == secure_keys(all, i as nat),
            validator::can_tag_all(keys@),
        decreases cached@.len() - i,
    {
        let record: &CacheRecord = cached[i];
        assert(all[i as int] == *record);
        match take_key(record) {
            Some(key) => {
                if record.flags.contains(F_DNSSECOK) {
                    let ghost before = validator::key_models(keys@);
                    proof {
                        assert(key@.wire().len() <= 65535);
                        types::law_short_key_can_tag(key@.wire());
                    }
                    keys.push(key);
                    assert(validator::key_models(keys@) =~= before.push(key@));
                }
            },
            None => {},
        }
        i = i + 1;
    }
    keys
}

// ---------------------------------------------------------------------------
// Sets of records
// ---------------------------------------------------------------------------

/// Whether two records belong together: they have the same name, type and class.
pub open spec fn together(a: RecordModel, b: RecordModel) -> bool {
    &&& a.rtype == b.rtype
    &&& a.class == b.class
    &&& text::lower(a.name) == text::lower(b.name)
}

/// Those of the first `n` records that belong together with a record.
pub open spec fn set_of(records: Seq<RecordModel>, n: nat, record: RecordModel) -> Seq<RecordModel>
    decreases n,
{
    if n == 0 {
        Seq::empty()
    } else {
        let before = set_of(records, (n - 1) as nat, record);
        if together(records[n - 1], record) {
            before.push(records[n - 1])
        } else {
            before
        }
    }
}

/// Records in canonical order.
pub open spec fn in_order(records: Seq<RecordModel>) -> Seq<RecordModel> {
    choose|sorted: Seq<RecordModel>| validator::is_sorted_form(sorted, records)
}

/// Whether the keys of a zone may sign for a name: the name is the zone's or lies
/// under it. Every name lies under the root.
pub open spec fn signs_for(zone: Seq<char>, name: Seq<char>) -> bool {
    zone.len() == 0 || cache::is_under(
        encode_utf8(text::lower(name)),
        encode_utf8(text::lower(zone)),
    )
}

/// How many labels a name has for a signature: that of a wildcard does not count.
pub open spec fn own_labels(name: Seq<char>) -> nat {
    if canonical::label_count(name) > 0 && text::split(name, '.')[0] == seq!['*'] {
        (canonical::label_count(name) - 1) as nat
    } else {
        canonical::label_count(name)
    }
}

/// Whether a signature is meant for a record.
pub open spec fn is_meant(sig: (Seq<char>, SigModel), record: RecordModel) -> bool {
    &&& sig.1.type_covered == record.rtype
    &&& text::lower(sig.0) == text::lower(record.name)
    &&& signs_for(sig.1.signer_name, record.name)
    &&& sig.1.labels <= own_labels(record.name)
}

/// Whether a name may have been made from a wildcard as far as a signature tells:
/// it was not, or proofs show that nothing else stands for it.
pub open spec fn is_justified(sig: SigModel, name: Seq<char>, proofs: Seq<ProofModel>) -> bool {
    let row = denial::labels_of(name);
    sig.labels < own_labels(name) ==> sig.labels < row.len() && denial::some_covers(
        proofs,
        row.skip(row.len() - sig.labels - 1),
        false,
    )
}

/// Whether a secure key of its signer verifies a signature over records.
pub open spec fn is_verified(
    sig: SigModel,
    sorted: Seq<RecordModel>,
    m: CacheModel,
    now: Instant,
    time: FileTime,
    check_dates: bool,
) -> bool {
    &&& validator::signed_data(sig, sorted).len() <= MESSAGE_MAX
    &&& validator::some_key_verifies(
        sig,
        zone_keys(m, sig.signer_name, now),
        sorted,
        time,
        check_dates,
    )
}

/// Whether one of the signatures vouches for a record, together with those that
/// belong to it. A record that was made from a wildcard needs proofs besides.
pub open spec fn is_vouched_for(
    records: Seq<RecordModel>,
    record: RecordModel,
    proofs: Seq<ProofModel>,
    m: CacheModel,
    now: Instant,
    time: FileTime,
    check_dates: bool,
) -> bool {
    let sigs = signatures_in(records, records.len());
    let sorted = in_order(set_of(records, records.len(), record));
    exists|i: int|
        0 <= i < sigs.len() && is_meant(#[trigger] sigs[i], record) && is_justified(
            sigs[i].1,
            record.name,
            proofs,
        ) && is_verified(sigs[i].1, sorted, m, now, time, check_dates)
}

/// Whether every record that is no signature is vouched for.
pub open spec fn all_vouched_for(
    records: Seq<RecordModel>,
    proofs: Seq<ProofModel>,
    m: CacheModel,
    now: Instant,
    time: FileTime,
    check_dates: bool,
) -> bool {
    forall|i: int|
        0 <= i < records.len() && (#[trigger] records[i]).rtype != T_RRSIG ==> is_vouched_for(
            records,
            records[i],
            proofs,
            m,
            now,
            time,
            check_dates,
        )
}

/// Whether every signature is by a zone above a name.
pub open spec fn all_signed_above(records: Seq<RecordModel>, name: Seq<char>) -> bool {
    let sigs = signatures_in(records, records.len());
    forall|i: int| 0 <= i < sigs.len() ==> signs_for((#[trigger] sigs[i]).1.signer_name, name)
}

/// Whether there is a record that is no signature.
pub open spec fn any_plain(records: Seq<RecordModel>) -> bool {
    exists|i: int| 0 <= i < records.len() && (#[trigger] records[i]).rtype != T_RRSIG
}

/// Whether a signer has no secure key in the cache.
pub open spec fn any_key_missing(records: Seq<RecordModel>, m: CacheModel, now: Instant) -> bool {
    let sigs = signatures_in(records, records.len());
    exists|i: int|
        0 <= i < sigs.len() && zone_keys(m, (#[trigger] sigs[i]).1.signer_name, now).len() == 0
}

/// Those of the records that belong together with one of them.
fn collect_set(records: &Vec<ResourceRecord>, of: usize) -> (r: Vec<ResourceRecord>)
    requires
        of < records@.len(),
    ensures
        canonical::record_models(r@) == set_of(
            canonical::record_models(records@),
            records@.len(),
            records@[of as int]@,
        ),
{
    let ghost all = canonical::record_models(records@);
    let ghost record = records@[of as int]@;
    let mut found: Vec<ResourceRecord> = Vec::new();
    let mut i: usize = 0;
    assert(canonical::record_models(found@) =~= Seq::empty());
    while i < records.len()
        invariant
            i <= records@.len(),
            of < records@.len(),
            all == canonical::record_models(records@),
            record == records@[of as int]@,
            canonical::record_models(found@) == set_of(all, i as nat, record),
        decreases records@.len() - i,
    {
        let other = &records[i];
        assert(all[i as int] == other@);
        if other.rtype == records[of].rtype && other.class == records[of].class
            && hostname_isequal(other.name.as_str(), records[of].name.as_str()) {
            let ghost before = canonical::record_models(found@);
            let copy = ResourceRecord {
                name: other.name.as_str().to_owned(),
                rtype: other.rtype,
                class: other.class,
                ttl: other.ttl,
                rdlength: other.rdlength,
                rdata: copy_range(other.rdata.as_slice(), 0, other.rdata.len()),
            };
            assert(copy.rdata@ =~= other.rdata@);
            found.push(copy);
            assert(canonical::record_models(found@) =~= before.push(other@));
        }
        i = i + 1;
    }
    found
}

/// Whether the keys of a zone may sign for a name.
fn may_sign(zone: &str, name: &str) -> (r: bool)
    ensures
        r == signs_for(zone@, name@),
{
    if zone.is_empty() {
        return true;
    }
    let low_name = to_ascii_lower(name);
    let low_zone = to_ascii_lower(zone);
    cache::lies_under(low_name.as_str().as_bytes(), low_zone.as_str().as_bytes())
}

/// How many labels a name has for a signature.
fn count_own_labels(name: &str) -> (r: usize)
    ensures
        r == own_labels(name@),
{
    let count: usize = count_labels(name);
    let parts = text::split_text(name, '.');
    assert(text::texts(parts@)[0] == parts@[0]@);
    let first = parts[0].as_str();
    proof {
        reveal_strlit("*");
        assert("*"@ =~= seq!['*']);
    }
    if count > 0 && first.to_owned() == "*".to_owned() {
        count - 1
    } else {
        count
    }
}

/// Whether a name may have been made from a wildcard as far as a signature tells.
fn justify(sig: &RRSig, name: &str, proofs: &Vec<Proof>) -> (r: bool)
    ensures
        r == is_justified(sig@, name@, denial::proof_models(proofs@)),
{
    if sig.labels as usize >= count_own_labels(name) {
        return true;
    }
    let row = denial::name_labels(name);
    assert(denial::rows(row@).len() == row@.len());
    if sig.labels as usize >= row.len() {
        return false;
    }
    any_covers(proofs, &denial::tail(&row, row.len() - sig.labels as usize - 1), false)
}

/// Whether a secure key of its signer verifies a signature over records.
fn verify_set(
    packet: &[u8],
    sig: &RRSig,
    sorted: &Vec<ResourceRecord>,
    cache: &Cache,
    now: Instant,
    time: FileTime,
    check_dates: bool,
) -> (r: bool)
    ensures
        r == is_verified(sig@, canonical::record_models(sorted@), cache@, now, time, check_dates),
{
    if collect_signed_data(sig, sorted).len() as u64 > MESSAGE_MAX {
        return false;
    }
    let keys = find_zone_keys(cache, sig.signer_name.as_str(), now);
    let ghost all = validator::key_models(keys@);
    let ghost records = canonical::record_models(sorted@);
    let mut i: usize = 0;
    while i < keys.len()
        invariant
            i <= keys@.len(),
            all == validator::key_models(keys@),
            all == zone_keys(cache@, sig@.signer_name, now),
            records == canonical::record_models(sorted@),
            validator::can_tag_all(keys@),
            validator::signed_data(sig@, records).len() <= MESSAGE_MAX,
            forall|k: int|
                0 <= k < i ==> !(types::key_tag_of((#[trigger] all[k]).wire()) == sig@.key_tag
                    && validator::rrset_result(sig@, all[k], records, time, check_dates) is Ok),
        decreases keys@.len() - i,
    {
        let key = &keys[i];
        assert(all[i as int] == key@);
        assert(types::can_tag(keys@[i as int]@.wire()));
        if key.keytag() == sig.key_tag {
            match validate_rrset(packet, sig, key, sorted, time, check_dates) {
                Ok(_) => {
                    return true;
                },
                Err(_) => {},
            }
        }
        i = i + 1;
    }
    false
}

/// Whether one of the signatures vouches for a record.
fn vouch(
    packet: &[u8],
    records: &Vec<ResourceRecord>,
    of: usize,
    sigs: &Vec<(String, RRSig)>,
    proofs: &Vec<Proof>,
    cache: &Cache,
    now: Instant,
    time: FileTime,
    check_dates: bool,
) -> (r: bool)
    requires
        of < records@.len(),
        named_models(sigs@) == signatures_in(
            canonical::record_models(records@),
            records@.len(),
        ),
    ensures
        r == is_vouched_for(
            canonical::record_models(records@),
            records@[of as int]@,
            denial::proof_models(proofs@),
            cache@,
            now,
            time,
            check_dates,
        ),
{
    let ghost all = canonical::record_models(records@);
    let ghost record = records@[of as int]@;
    let ghost models = named_models(sigs@);
    let mut set = collect_set(records, of);
    let ghost unsorted = canonical::record_models(set@);
    sort_rrset(&mut set);
    let ghost sorted = canonical::record_models(set@);
    proof {
        assert(validator::is_sorted_form(sorted, unsorted));
        validator::law_sorted_form_is_unique(sorted, in_order(unsorted), unsorted);
    }
    let mut i: usize = 0;
    while i < sigs.len()
        invariant
            i <= sigs@.len(),
            of < records@.len(),
            all == canonical::record_models(records@),
            record == records@[of as int]@,
            models == named_models(sigs@),
            models == signatures_in(all, all.len()),
            sorted == canonical::record_models(set@),
            sorted == in_order(set_of(all, all.len(), record)),
            forall|k: int|
                0 <= k < i ==> !(is_meant(#[trigger] models[k], record) && is_justified(
                    models[k].1,
                    record.name,
                    denial::proof_models(proofs@),
                ) && is_verified(models[k].1, sorted, cache@, now, time, check_dates)),
        decreases sigs@.len() - i,
    {
        let (name, sig) = &sigs[i];
        assert(models[i as int] == (name@, sig@));
        if sig.type_covered == records[of].rtype && hostname_isequal(
            name.as_str(),
            records[of].name.as_str(),
        ) && may_sign(sig.signer_name.as_str(), records[of].name.as_str()) && sig.labels as usize
            <= count_own_labels(records[of].name.as_str()) {
            if justify(sig, records[of].name.as_str(), proofs) && verify_set(
                packet,
                sig,
                &set,
                cache,
                now,
                time,
                check_dates,
            ) {
                assert(is_meant(models[i as int], record));
                return true;
            }
        }
        i = i + 1;
    }
    false
}

/// Whether every record that is no signature is vouched for.
pub fn vouch_for_all(
    packet: &[u8],
    records: &Vec<ResourceRecord>,
    proofs: &Vec<Proof>,
    cache: &Cache,
    now: Instant,
    time: FileTime,
    check_dates: bool,
) -> (r: bool)
    ensures
        r == all_vouched_for(
            canonical::record_models(records@),
            denial::proof_models(proofs@),
            cache@,
            now,
            time,
            check_dates,
        ),
{
    let sigs = collect_signatures(records);
    let ghost all = canonical::record_models(records@);
    let mut i: usize = 0;
    while i < records.len()
        invariant
            i <= records@.len(),
            all == canonical::record_models(records@),
            named_models(sigs@) == signatures_in(all, all.len()),
            forall|k: int|
                0 <= k < i && (#[trigger] all[k]).rtype != T_RRSIG ==> is_vouched_for(
                    all,
                    all[k],
                    denial::proof_models(proofs@),
                    cache@,
                    now,
                    time,
                    check_dates,
                ),
        decreases records@.len() - i,
    {
        assert(all[i as int] == records@[i as int]@);
        if records[i].rtype != T_RRSIG {
            if !vouch(packet, records, i, &sigs, proofs, cache, now, time, check_dates) {
                return false;
            }
        }
        i = i + 1;
    }
    true
}

/// Whether every signature is by a zone above a name.
pub fn signed_above(records: &Vec<ResourceRecord>, name: &str) -> (r: bool)
    ensures
        r == all_signed_above(canonical::record_models(records@), name@),
{
    let sigs = collect_signatures(records);
    let ghost models = named_models(sigs@);
    let mut i: usize = 0;
    while i < sigs.len()
        invariant
            i <= sigs@.len(),
            models == named_models(sigs@),
            models == signatures_in(canonical::record_models(records@), records@.len()),
            forall|k: int|
                0 <= k < i ==> signs_for((#[trigger] models[k]).1.signer_name, name@),
        decreases sigs@.len() - i,
    {
        let (owner, sig) = &sigs[i];
        assert(models[i as int] == (owner@, sig@));
        if !may_sign(sig.signer_name.as_str(), name) {
            return false;
        }
        i = i + 1;
    }
    true
}

/// Whether there is a record that is no signature.
pub fn has_plain(records: &Vec<ResourceRecord>) -> (r: bool)
    ensures
        r == any_plain(canonical::record_models(records@)),
{
    let ghost all = canonical::record_models(records@);
    let mut i: usize = 0;
    while i < records.len()
        invariant
            i <= records@.len(),
            all == canonical::record_models(records@),
            forall|k: int| 0 <= k < i ==> (#[trigger] all[k]).rtype == T_RRSIG,
        decreases records@.len() - i,
    {
        assert(all[i as int] == records@[i as int]@);
        if records[i].rtype != T_RRSIG {
            return true;
        }
        i = i + 1;
    }
    false
}

/// Whether a signer has no secure key in the cache.
pub fn misses_key(records: &Vec<ResourceRecord>, cache: &Cache, now: Instant) -> (r: bool)
    ensures
        r == any_key_missing(canonical::record_models(records@), cache@, now),
{
    let sigs = collect_signatures(records);
    let ghost models = named_models(sigs@);
    let mut i: usize = 0;
    while i < sigs.len()
        invariant
            i <= sigs@.len(),
            models == named_models(sigs@),
            models == signatures_in(canonical::record_models(records@), records@.len()),
            forall|k: int|
                0 <= k < i ==> zone_keys(
                    cache@,
                    (#[trigger] models[k]).1.signer_name,
                    now,
                ).len() > 0,
        decreases sigs@.len() - i,
    {
        let (name, sig) = &sigs[i];
        assert(models[i as int] == (name@, sig@));
        let keys = find_zone_keys(cache, sig.signer_name.as_str(), now);
        assert(validator::key_models(keys@).len() == keys@.len());
        if keys.len() == 0 {
            return true;
        }
        i = i + 1;
    }
    false
}

// ---------------------------------------------------------------------------
// Aliases
// ---------------------------------------------------------------------------

/// The name that the last of the first `n` records that is an alias of a name
/// leads to.
pub open spec fn alias_in(records: Seq<RecordModel>, n: nat, name: Seq<char>) -> Option<Seq<char>>
    decreases n,
{
    if n == 0 {
        None
    } else {
        let record = records[n - 1];
        match types::read_labels(record.rdata, 0, Seq::empty()) {
            Some((labels, _)) if record.rtype == T_CNAME && text::lower(record.name)
                == text::lower(name) => Some(text::join(labels, '.')),
            _ => alias_in(records, (n - 1) as nat, name),
        }
    }
}

/// The name that aliases lead to in at most so many steps.
pub open spec fn chain_end(records: Seq<RecordModel>, name: Seq<char>, steps: nat) -> Seq<char>
    decreases steps,
{
    if steps == 0 {
        name
    } else {
        match alias_in(records, records.len(), name) {
            Some(target) => chain_end(records, target, (steps - 1) as nat),
            None => name,
        }
    }
}

/// Whether one of the records is of a name and a type, or of any type where that is
/// asked for.
pub open spec fn has_answer(records: Seq<RecordModel>, name: Seq<char>, qtype: u16) -> bool {
    exists|i: int|
        0 <= i < records.len() && text::lower((#[trigger] records[i]).name) == text::lower(name)
            && (records[i].rtype == qtype || qtype == T_ANY)
}

/// Whether one of the records is of a type and of a name, or of one that aliases
/// lead to in at most so many steps.
pub open spec fn is_answered(
    records: Seq<RecordModel>,
    name: Seq<char>,
    qtype: u16,
    steps: nat,
) -> bool
    decreases steps,
{
    ||| has_answer(records, name, qtype)
    ||| steps > 0 && (alias_in(records, records.len(), name) matches Some(target) && is_answered(
        records,
        target,
        qtype,
        (steps - 1) as nat,
    ))
}

/// Whether one of the records is of a name and a type.
fn find_answer(records: &Vec<ResourceRecord>, name: &str, qtype: u16) -> (r: bool)
    ensures
        r == has_answer(canonical::record_models(records@), name@, qtype),
{
    let ghost all = canonical::record_models(records@);
    let mut i: usize = 0;
    while i < records.len()
        invariant
            i <= records@.len(),
            all == canonical::record_models(records@),
            forall|k: int|
                0 <= k < i ==> !(text::lower((#[trigger] all[k]).name) == text::lower(name@) && (
                all[k].rtype == qtype || qtype == T_ANY)),
        decreases records@.len() - i,
    {
        assert(all[i as int] == records@[i as int]@);
        if (records[i].rtype == qtype || qtype == T_ANY) && hostname_isequal(
            records[i].name.as_str(),
            name,
        ) {
            return true;
        }
        i = i + 1;
    }
    false
}

/// Whether one of the records is of a type and of a name, or of one that aliases
/// lead to.
pub fn answers_query(records: &Vec<ResourceRecord>, name: &str, qtype: u16) -> (r: bool)
    ensures
        r == is_answered(canonical::record_models(records@), name@, qtype, records@.len()),
{
    let ghost all = canonical::record_models(records@);
    let mut at: String = name.to_owned();
    let mut left: usize = records.len();
    loop
        invariant
            all == canonical::record_models(records@),
            is_answered(all, name@, qtype, records@.len()) == is_answered(
                all,
                at@,
                qtype,
                left as nat,
            ),
        decreases left,
    {
        if find_answer(records, at.as_str(), qtype) {
            return true;
        }
        if left == 0 {
            return false;
        }
        match find_alias(records, at.as_str()) {
            Some(target) => {
                at = target;
            },
            None => {
                return false;
            },
        }
        left = left - 1;
    }
}

/// The name that an alias among records leads to.
fn find_alias(records: &Vec<ResourceRecord>, name: &str) -> (r: Option<String>)
    ensures
        match r {
            Some(target) => alias_in(
                canonical::record_models(records@),
                records@.len(),
                name@,
            ) == Some(target@),
            None => alias_in(
                canonical::record_models(records@),
                records@.len(),
                name@,
            ) is None,
        },
{
    let ghost all = canonical::record_models(records@);
    let mut i: usize = records.len();
    while i > 0
        invariant
            i <= records@.len(),
            all == canonical::record_models(records@),
            alias_in(all, all.len(), name@) == alias_in(all, i as nat, name@),
        decreases i,
    {
        i = i - 1;
        assert(all[i as int] == records@[i as int]@);
        if records[i].rtype == T_CNAME && hostname_isequal(records[i].name.as_str(), name) {
            match take_name(records[i].rdata.as_slice(), 0) {
                Some((target, _)) => {
                    return Some(target);
                },
                None => {},
            }
        }
    }
    None
}

/// Follows the aliases among records.
pub fn follow_aliases(records: &Vec<ResourceRecord>, name: &str) -> (r: String)
    ensures
        r@ == chain_end(canonical::record_models(records@), name@, records@.len()),
{
    let ghost all = canonical::record_models(records@);
    let mut at: String = name.to_owned();
    let mut left: usize = records.len();
    while left > 0
        invariant
            all == canonical::record_models(records@),
            chain_end(all, name@, records@.len()) == chain_end(all, at@, left as nat),
        decreases left,
    {
        match find_alias(records, at.as_str()) {
            Some(target) => {
                at = target;
            },
            None => {
                return at;
            },
        }
        left = left - 1;
    }
    at
}

} // verus!
