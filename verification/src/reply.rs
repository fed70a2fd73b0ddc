//! The records of replies that the cache keeps.

use crate::addr::{IpAddr, Ipv4Addr, Ipv6Addr};
use crate::cache::{self, Cache, CacheModel};
use crate::cache_types::{
    self, CacheFlags, CacheRecord, CacheRecordData, DnsKeyData, DsData, Instant, SrvData, F_CNAME,
    F_DNSKEY, F_DS, F_FORWARD, F_IPV4, F_IPV6, F_SRV, F_UPSTREAM, NANOS_PER_SEC, UID_NONE,
};
use crate::dnssec::canonical::{self, RecordModel, ResourceRecord};
use crate::dnssec::rrsets::read_section;
use crate::dnssec::types::{self, take_name};
use crate::dnssec::validator::{self, skip_reply_questions};
use crate::protocol::{C_IN, T_A, T_AAAA, T_CNAME, T_DNSKEY, T_DS, T_SRV};
use crate::text::{self, to_lowercase_text};
use crate::wire::{self, read_u16};
use vstd::prelude::*;
use vstd::slice::slice_subrange;
use vstd::utf8::*;

verus! {

/// The name in record data from `pos` on, if there is one.
pub open spec fn name_in(rdata: Seq<u8>, pos: int) -> Option<Seq<char>> {
    match types::read_labels(rdata, pos, Seq::empty()) {
        Some((labels, _)) => Some(text::join(labels, '.')),
        None => None,
    }
}

/// Whether the cache has a form for a record.
pub open spec fn is_cacheable(record: RecordModel) -> bool {
    let rdata = record.rdata;
    &&& record.class == C_IN
    &&& {
        ||| record.rtype == T_A && rdata.len() == 4
        ||| record.rtype == T_AAAA && rdata.len() == 16
        ||| record.rtype == T_CNAME && name_in(rdata, 0) is Some
        ||| record.rtype == T_SRV && rdata.len() >= 6 && name_in(rdata, 6) is Some
        ||| record.rtype == T_DNSKEY && 4 <= rdata.len() <= u16::MAX
        ||| record.rtype == T_DS && rdata.len() >= 4
    }
}

/// Whether cached data says what the data of a record does.
pub open spec fn says(data: CacheRecordData, record: RecordModel) -> bool {
    let rdata = record.rdata;
    match data {
        CacheRecordData::Address(IpAddr::V4(a)) => record.rtype == T_A && a.bytes() == rdata,
        CacheRecordData::Address(IpAddr::V6(a)) => record.rtype == T_AAAA && a.bytes() == rdata,
        CacheRecordData::Cname(target) => record.rtype == T_CNAME && name_in(rdata, 0) == Some(
            target@,
        ),
        CacheRecordData::Srv(srv) => {
            &&& record.rtype == T_SRV
            &&& srv.spec_priority() == wire::be16(rdata, 0)
            &&& srv.spec_weight() == wire::be16(rdata, 2)
            &&& srv.spec_port() == wire::be16(rdata, 4)
            &&& name_in(rdata, 6) matches Some(target)
            &&& srv.spec_target() == encode_utf8(target)
        },
        CacheRecordData::DnsKey(key) => {
            &&& record.rtype == T_DNSKEY
            &&& key.spec_flags() == wire::be16(rdata, 0)
            &&& key.spec_algorithm() == rdata[3]
            &&& key.spec_keytag() == types::key_tag_of(rdata)
            &&& key.spec_keydata() == rdata.skip(4)
        },
        CacheRecordData::Ds(ds) => {
            &&& record.rtype == T_DS
            &&& ds.spec_keytag() == wire::be16(rdata, 0)
            &&& ds.spec_algorithm() == rdata[2]
            &&& ds.spec_digest_type() == rdata[3]
            &&& ds.spec_keydata() == rdata.skip(4)
        },
        _ => false,
    }
}

/// The flag of a record type.
pub open spec fn type_flag(rtype: u16) -> u32 {
    if rtype == T_A {
        F_IPV4
    } else if rtype == T_AAAA {
        F_IPV6
    } else if rtype == T_CNAME {
        F_CNAME
    } else if rtype == T_SRV {
        F_SRV
    } else if rtype == T_DNSKEY {
        F_DNSKEY
    } else {
        F_DS
    }
}

/// The flags of a record from a reply. The first one that answers a question takes
/// the place of what was known before.
pub open spec fn reply_flags(rtype: u16, first: bool) -> CacheFlags {
    CacheFlags {
        bits: (type_flag(rtype) + F_UPSTREAM + if first {
            F_FORWARD as int
        } else {
            0
        }) as u32,
    }
}

/// Whether no record before the one at `i` answers the same question.
pub open spec fn is_first(records: Seq<RecordModel>, i: int) -> bool {
    forall|j: int|
        0 <= j < i ==> cache_types::key_of((#[trigger] records[j]).name, records[j].rtype)
            != cache_types::key_of(records[i].name, records[i].rtype)
}

/// Whether a cached record was made of a record of a reply that came at `now`.
pub open spec fn is_made_of(
    made: CacheRecord,
    record: RecordModel,
    first: bool,
    now: Instant,
) -> bool {
    &&& made.name@ == record.name
    &&& says(made.data, record)
    &&& made.ttd == cache::after_seconds(now, record.ttl as u64)
    &&& made.uid == UID_NONE
    &&& made.flags == reply_flags(record.rtype, first)
    &&& made.rr_type == record.rtype
    &&& made.class == C_IN
    &&& made.ttl == cache_types::seconds_left(made.ttd, now)
    &&& made.inserted_at == Some(now)
}

/// Whether cached records were made of the records of a reply, one of each.
pub open spec fn are_made_of(
    made: Seq<CacheRecord>,
    records: Seq<RecordModel>,
    now: Instant,
) -> bool {
    &&& made.len() == records.len()
    &&& forall|i: int|
        0 <= i < made.len() ==> is_made_of(
            #[trigger] made[i],
            records[i],
            is_first(records, i),
            now,
        )
}

/// Those of the first `n` records that the cache has a form for.
pub open spec fn cacheable(records: Seq<RecordModel>, n: nat) -> Seq<RecordModel>
    decreases n,
{
    if n == 0 {
        Seq::empty()
    } else if is_cacheable(records[n - 1]) {
        cacheable(records, (n - 1) as nat).push(records[n - 1])
    } else {
        cacheable(records, (n - 1) as nat)
    }
}

/// Whether a message was cut short.
pub open spec fn is_truncated(packet: Seq<u8>) -> bool {
    packet[2] / 2 % 2 == 1
}

/// The answers of a reply that the cache keeps. A reply that was cut short has
/// none.
pub open spec fn reply_records(packet: Seq<u8>) -> Seq<RecordModel> {
    if packet.len() < 12 || is_truncated(packet) {
        Seq::empty()
    } else {
        match validator::reply_questions(packet, 12, wire::be16(packet, 4) as nat) {
            Ok(start) => {
                let answers = validator::answers_of(packet, start);
                cacheable(answers, answers.len())
            },
            Err(_) => Seq::empty(),
        }
    }
}

/// The cache after the first `n` records came in one after the other.
pub open spec fn stored_all(
    m: CacheModel,
    made: Seq<CacheRecord>,
    n: nat,
    now: Instant,
) -> CacheModel
    decreases n,
{
    if n == 0 {
        m
    } else {
        cache::inserted(stored_all(m, made, (n - 1) as nat, now), made[n - 1], now).0
    }
}

/// Whether a cache is another one after the answers of a reply came in.
pub open spec fn is_stored(
    before: CacheModel,
    after: CacheModel,
    packet: Seq<u8>,
    now: Instant,
) -> bool {
    exists|made: Seq<CacheRecord>|
        #![trigger stored_all(before, made, made.len(), now)]
        are_made_of(made, reply_records(packet), now) && after == stored_all(
            before,
            made,
            made.len(),
            now,
        )
}

/// Whether so many records can come in and be counted.
pub open spec fn can_count(m: CacheModel, n: nat) -> bool {
    &&& m.stats.insertions + n <= u64::MAX
    &&& m.stats.evictions_lru + n <= u64::MAX
}

/// What cached data is made of the data of a record, if it has a form.
fn make_data(record: &ResourceRecord) -> (r: Option<CacheRecordData>)
    ensures
        match r {
            Some(data) => is_cacheable(record@) && says(data, record@),
            None => !is_cacheable(record@),
        },
{
    let data = record.rdata.as_slice();
    if record.class != C_IN {
        None
    } else if record.rtype == T_A && data.len() == 4 {
        let a = Ipv4Addr::new(data[0], data[1], data[2], data[3]);
        assert(a.bytes() =~= record@.rdata);
        Some(CacheRecordData::Address(IpAddr::V4(a)))
    } else if record.rtype == T_AAAA && data.len() == 16 {
        let a = Ipv6Addr::read(data, 0);
        assert(a.bytes() =~= record@.rdata);
        Some(CacheRecordData::Address(IpAddr::V6(a)))
    } else if record.rtype == T_CNAME {
        match take_name(data, 0) {
            Some((target, _)) => Some(CacheRecordData::Cname(target)),
            None => None,
        }
    } else if record.rtype == T_SRV && data.len() >= 6 {
        match take_name(data, 6) {
            Some((target, _)) => Some(
                CacheRecordData::Srv(
                    SrvData::new(
                        target.as_str().as_bytes(),
                        read_u16(data, 4),
                        read_u16(data, 0),
                        read_u16(data, 2),
                    ),
                ),
            ),
            None => None,
        }
    } else if record.rtype == T_DNSKEY && data.len() >= 4 && data.len() <= u16::MAX as usize {
        proof {
            types::law_short_key_can_tag(data@);
        }
        let tag: u16 = types::find_key_tag(data);
        let rest = slice_subrange(data, 4, data.len());
        assert(rest@ =~= record@.rdata.skip(4));
        Some(CacheRecordData::DnsKey(DnsKeyData::new(rest, read_u16(data, 0), tag, data[3])))
    } else if record.rtype == T_DS && data.len() >= 4 {
        let rest = slice_subrange(data, 4, data.len());
        assert(rest@ =~= record@.rdata.skip(4));
        Some(CacheRecordData::Ds(DsData::new(rest, read_u16(data, 0), data[2], data[3])))
    } else {
        None
    }
}

/// The instant so many seconds after `now`, or the last one that there is.
fn find_end(now: Instant, seconds: u32) -> (r: Instant)
    ensures
        r == cache::after_seconds(now, seconds as u64),
{
    now.saturating_add(seconds as u64 * NANOS_PER_SEC)
}

/// The flags of a record from a reply.
fn find_flags(rtype: u16, first: bool) -> (r: CacheFlags)
    ensures
        r == reply_flags(rtype, first),
{
    let flag: u32 = if rtype == T_A {
        F_IPV4
    } else if rtype == T_AAAA {
        F_IPV6
    } else if rtype == T_CNAME {
        F_CNAME
    } else if rtype == T_SRV {
        F_SRV
    } else if rtype == T_DNSKEY {
        F_DNSKEY
    } else {
        F_DS
    };
    CacheFlags {
        bits: flag + F_UPSTREAM + if first {
            F_FORWARD
        } else {
            0
        },
    }
}

/// Whether no record among those that were made answers the same question as one
/// of a reply.
fn asks_first(made: &Vec<CacheRecord>, name: &str, rtype: u16) -> (r: bool)
    ensures
        r == forall|j: int|
            0 <= j < made@.len() ==> cache_types::key_of(
                (#[trigger] made@[j]).name@,
                made@[j].rr_type,
            ) != cache_types::key_of(name@, rtype),
{
    let key = to_lowercase_text(name);
    let mut j: usize = 0;
    while j < made.len()
        invariant
            j <= made@.len(),
            key@ == text::lowercase(name@),
            forall|k: int|
                0 <= k < j ==> cache_types::key_of((#[trigger] made@[k]).name@, made@[k].rr_type)
                    != cache_types::key_of(name@, rtype),
        decreases made@.len() - j,
    {
        if made[j].rr_type == rtype && to_lowercase_text(made[j].name.as_str()) == key {
            assert(cache_types::key_of(made@[j as int].name@, made@[j as int].rr_type)
                == cache_types::key_of(name@, rtype));
            return false;
        }
        j = j + 1;
    }
    true
}

/// Makes cached records of those records that the cache has a form for.
fn make_records(records: &Vec<ResourceRecord>, now: Instant) -> (r: Vec<CacheRecord>)
    ensures
        are_made_of(
            r@,
            cacheable(canonical::record_models(records@), records@.len()),
            now,
        ),
        r@.len() <= records@.len(),
{
    let ghost all = canonical::record_models(records@);
    let mut made: Vec<CacheRecord> = Vec::new();
    let mut i: usize = 0;
    while i < records.len()
        invariant
            i <= records@.len(),
            all == canonical::record_models(records@),
            are_made_of(made@, cacheable(all, i as nat), now),
            made@.len() <= i,
        decreases records@.len() - i,
    {
        let record = &records[i];
        assert(all[i as int] == record@);
        match make_data(record) {
            Some(data) => {
                let ghost before = cacheable(all, i as nat);
                let ghost after = before.push(record@);
                let ghost done = made@;
                let first = asks_first(&made, record.name.as_str(), record.rtype);
                proof {
                    assert forall|j: int| 0 <= j < done.len() implies cache_types::key_of(
                        (#[trigger] done[j]).name@,
                        done[j].rr_type,
                    ) == cache_types::key_of(before[j].name, before[j].rtype) && after[j]
                        == before[j] by {}
                    assert(after[before.len() as int] == record@);
                    assert(first == is_first(after, before.len() as int)) by {
                        if first {
                            assert forall|j: int| 0 <= j < before.len() implies
                                cache_types::key_of((#[trigger] after[j]).name, after[j].rtype)
                                != cache_types::key_of(record@.name, record@.rtype) by {
                                assert(is_made_of(done[j], before[j], is_first(before, j), now));
                            }
                        } else {
                            let j = choose|j: int|
                                0 <= j < done.len() && cache_types::key_of(
                                    (#[trigger] done[j]).name@,
                                    done[j].rr_type,
                                ) == cache_types::key_of(record@.name, record@.rtype);
                            assert(cache_types::key_of(after[j].name, after[j].rtype)
                                == cache_types::key_of(record@.name, record@.rtype));
                        }
                    }
                }
                let new = CacheRecord::new(
                    record.name.as_str().to_owned(),
                    data,
                    find_end(now, record.ttl),
                    UID_NONE,
                    find_flags(record.rtype, first),
                    now,
                );
                made.push(new);
                proof {
                    assert forall|j: int| 0 <= j < made@.len() implies is_made_of(
                        #[trigger] made@[j],
                        after[j],
                        is_first(after, j),
                        now,
                    ) by {
                        if j < done.len() {
                            assert(is_made_of(done[j], before[j], is_first(before, j), now));
                            lemma_first_in_longer(before, record@, j);
                        }
                    }
                }
            },
            None => {},
        }
        i = i + 1;
    }
    made
}

/// A record that is put behind others does not change which is the first.
proof fn lemma_first_in_longer(records: Seq<RecordModel>, last: RecordModel, i: int)
    requires
        0 <= i < records.len(),
    ensures
        is_first(records.push(last), i) == is_first(records, i),
{
    let longer = records.push(last);
    assert forall|j: int| 0 <= j <= i implies longer[j] == #[trigger] records[j] by {}
    if is_first(longer, i) {
        assert forall|j: int| 0 <= j < i implies cache_types::key_of(
            (#[trigger] records[j]).name,
            records[j].rtype,
        ) != cache_types::key_of(records[i].name, records[i].rtype) by {
            assert(longer[j] == records[j]);
        }
    }
}

/// Puts the answers of a reply into the cache.
pub fn store_reply(cache: &mut Cache, packet: &[u8], now: Instant)
    requires
        old(cache)@.wf(),
        can_count(old(cache)@, u16::MAX as nat),
    ensures
        final(cache)@.wf(),
        is_stored(old(cache)@, final(cache)@, packet@, now),
{
    let made = collect_reply(packet, now);
    store_records(cache, made, now);
}

/// Reads the answers of a reply that the cache keeps.
fn collect_reply(packet: &[u8], now: Instant) -> (r: Vec<CacheRecord>)
    ensures
        are_made_of(r@, reply_records(packet@), now),
        r@.len() <= u16::MAX,
{
    let none: Vec<CacheRecord> = Vec::new();
    if packet.len() < 12 || packet[2] / 2 % 2 == 1 {
        return none;
    }
    match skip_reply_questions(packet, read_u16(packet, 4)) {
        Ok(start) => make_records(&read_section(packet, start, read_u16(packet, 6)), now),
        Err(_) => none,
    }
}

/// Puts records into the cache one after the other.
fn store_records(cache: &mut Cache, made: Vec<CacheRecord>, now: Instant)
    requires
        old(cache)@.wf(),
        can_count(old(cache)@, made@.len()),
    ensures
        final(cache)@.wf(),
        final(cache)@ == stored_all(old(cache)@, made@, made@.len(), now),
{
    let ghost all = made@;
    let ghost start = cache@;
    let mut left = made;
    let ghost mut stored: nat = 0;
    assert(left@ =~= all.skip(0));
    while left.len() > 0
        invariant
            cache@.wf(),
            stored + left@.len() == all.len(),
            left@ == all.skip(stored as int),
            can_count(cache@, left@.len()),
            cache@ == stored_all(start, all, stored, now),
        decreases left@.len(),
    {
        let ghost before = cache@;
        let record = left.remove(0);
        assert(record == all[stored as int]);
        let _ = cache.insert(record, now);
        proof {
            lemma_counted(before, record, now);
            assert(left@ =~= all.skip(stored + 1int));
            stored = stored + 1;
        }
    }
}

/// A record that comes in is counted once, and at most one leaves for it.
proof fn lemma_counted(m: CacheModel, record: CacheRecord, now: Instant)
    requires
        m.wf(),
        m.stats.insertions < u64::MAX,
        m.stats.evictions_lru < u64::MAX,
    ensures
        ({
            let n = cache::inserted(m, record, now).0;
            &&& n.stats.insertions <= m.stats.insertions + 1
            &&& n.stats.evictions_lru <= m.stats.evictions_lru + 1
        }),
{
    let key = cache::record_key(record);
    cache::lemma_scanned(m, m.bucket(key), record.name@, None, record.flags, now);
}

// ---------------------------------------------------------------------------
// What is kept of a reply
// ---------------------------------------------------------------------------

/// How many records can come in before one has to leave.
pub open spec fn room(m: CacheModel) -> int {
    m.free.len() + m.config.max_entries - m.records.len()
}

/// A slot that does not have to be emptied keeps its record.
proof fn lemma_scan_keeps(
    m: CacheModel,
    ids: Seq<usize>,
    name: Seq<char>,
    flags: CacheFlags,
    now: Instant,
    s: usize,
)
    requires
        m.wf(),
        m.slot(s) matches Some(record) && (ids.contains(s) ==> !cache::has_to_leave(
            record,
            name,
            None,
            flags,
            now,
        )),
    ensures
        cache::scan_slots(m, ids, name, None, flags, now).slot(s) == m.slot(s),
        cache::scan_slots(m, ids, name, None, flags, now).free.len() >= m.free.len(),
    decreases ids.len(),
{
    if ids.len() > 0 {
        let front = ids.drop_last();
        assert(ids[ids.len() - 1] == ids.last());
        assert forall|k: usize| front.contains(k) implies ids.contains(k) by {
            let j = choose|j: int| 0 <= j < front.len() && front[j] == k;
            assert(ids[j] == k);
        }
        lemma_scan_keeps(m, front, name, flags, now, s);
    }
}

/// Going through slots does not take room away.
proof fn lemma_scan_frees(
    m: CacheModel,
    ids: Seq<usize>,
    name: Seq<char>,
    flags: CacheFlags,
    now: Instant,
)
    ensures
        cache::scan_slots(m, ids, name, None, flags, now).free.len() >= m.free.len(),
    decreases ids.len(),
{
    if ids.len() > 0 {
        lemma_scan_frees(m, ids.drop_last(), name, flags, now);
    }
}

/// Where there is room, a record that comes in leaves every record in its place
/// that is still true and answers another question, or any where it does not claim
/// the question.
proof fn lemma_insert_keeps(m: CacheModel, record: CacheRecord, now: Instant)
    requires
        m.wf(),
        room(m) > 0,
    ensures
        ({
            let (n, slot) = cache::inserted(m, record, now);
            &&& n.wf()
            &&& n.config == m.config
            &&& room(n) >= room(m) - 1
            &&& slot matches Some(id) && n.slot(id) == Some(
                cache::settled(m.config, record, now),
            )
            &&& forall|s: usize|
                (#[trigger] m.slot(s)) matches Some(other) && !cache_types::expired(other, now)
                    && (record.flags.has(F_FORWARD) ==> cache::record_key(other)
                    != cache::record_key(record)) ==> n.slot(s) == m.slot(s)
        }),
{
    let key = cache::record_key(record);
    let ids = m.bucket(key);
    let scanned = cache::scan_key(m, key, record.name@, None, record.flags, now);
    cache::lemma_scanned(m, ids, record.name@, None, record.flags, now);
    cache::lemma_with_room(scanned);
    lemma_scan_frees(m, ids, record.name@, record.flags, now);
    let ready = cache::with_room(scanned)->0;
    let kept = cache::settled(m.config, record, now);
    cache::lemma_stored_wf(ready, kept);
    let n = cache::stored(ready, kept);
    let id = ready.free.last();
    assert(ready.free.contains(id)) by {
        assert(ready.free[ready.free.len() - 1] == id);
    }
    assert forall|s: usize|
        (#[trigger] m.slot(s)) matches Some(other) && !cache_types::expired(other, now) && (
        record.flags.has(F_FORWARD) ==> cache::record_key(other) != cache::record_key(
            record,
        )) implies n.slot(s) == m.slot(s) by {
        let other = m.slot(s)->0;
        if ids.contains(s) {
            assert(m.holds(s, key));
        }
        lemma_scan_keeps(m, ids, record.name@, record.flags, now, s);
        assert(ready.slot(s) == scanned.slot(s));
        assert(s != id);
    }
}

/// A record from a reply claims its question exactly where it is the first for it.
proof fn lemma_first_claims(rtype: u16, first: bool)
    ensures
        reply_flags(rtype, first).has(F_FORWARD) == first,
{
    let flag = type_flag(rtype);
    assert(flag & 8 == 0) by {
        assert(0x80u32 & 8 == 0 && 0x100u32 & 8 == 0 && 0x800u32 & 8 == 0 && 0x40000000u32 & 8
            == 0 && 0x1000u32 & 8 == 0 && 0x4000u32 & 8 == 0) by (bit_vector);
    }
    let plain = (flag + 0x10000) as u32;
    let bits = (flag + 0x10000 + 8) as u32;
    assert(flag <= 0x40000000);
    assert(plain & 8 != 8) by (bit_vector)
        requires
            flag & 8 == 0,
            flag <= 0x40000000,
            plain == (flag + 0x10000) as u32,
    ;
    assert(bits & 8 == 8) by (bit_vector)
        requires
            flag & 8 == 0,
            flag <= 0x40000000,
            bits == (flag + 0x10000 + 8) as u32,
    ;
}

/// Records that were made of a reply are in the cache after they came in, where
/// they are still true and there is room for them: each stands in a slot, with the
/// least time to live that is configured.
proof fn lemma_made_are_kept(
    m: CacheModel,
    made: Seq<CacheRecord>,
    records: Seq<RecordModel>,
    n: nat,
    now: Instant,
)
    requires
        m.wf(),
        are_made_of(made, records, now),
        n <= made.len(),
        room(m) >= n,
        forall|i: int| 0 <= i < n ==> !cache_types::expired(#[trigger] made[i], now),
    ensures
        ({
            let after = stored_all(m, made, n, now);
            &&& after.wf()
            &&& after.config == m.config
            &&& room(after) >= room(m) - n
            &&& forall|i: int|
                0 <= i < n ==> exists|s: usize| #[trigger]
                    after.slot(s) == Some(cache::settled(m.config, #[trigger] made[i], now))
        }),
    decreases n,
{
    if n > 0 {
        let before = stored_all(m, made, (n - 1) as nat, now);
        let after = stored_all(m, made, n, now);
        let last = made[n - 1];
        lemma_made_are_kept(m, made, records, (n - 1) as nat, now);
        lemma_insert_keeps(before, last, now);
        assert(is_made_of(last, records[n - 1], is_first(records, n - 1), now));
        lemma_first_claims(records[n - 1].rtype, is_first(records, n - 1));
        assert forall|i: int| 0 <= i < n implies exists|s: usize| #[trigger]
            after.slot(s) == Some(cache::settled(m.config, #[trigger] made[i], now)) by {
            if i < n - 1 {
                let kept = cache::settled(m.config, made[i], now);
                let s = choose|s: usize| #[trigger] before.slot(s) == Some(kept);
                assert(before.slot(s) == Some(kept));
                assert(is_made_of(made[i], records[i], is_first(records, i), now));
                lemma_key_of_made(made[i], records[i], is_first(records, i), now);
                lemma_key_of_made(last, records[n - 1], is_first(records, n - 1), now);
                assert(cache::record_key(kept) == cache::record_key(made[i]));
                assert(after.slot(s) == Some(kept));
            } else {
                let id = cache::inserted(before, last, now).1->0;
                assert(after.slot(id) == Some(cache::settled(m.config, last, now)));
            }
        }
    }
}

/// A record from a reply is found by its name and type.
proof fn lemma_key_of_made(made: CacheRecord, record: RecordModel, first: bool, now: Instant)
    requires
        is_made_of(made, record, first, now),
    ensures
        cache::record_key(made) == cache_types::key_of(record.name, record.rtype),
{
}

/// After a reply came, each of its answers that the cache has a form for is in the
/// cache, where they last for a time and there is room for them.
pub proof fn law_reply_is_kept(
    before: CacheModel,
    after: CacheModel,
    packet: Seq<u8>,
    now: Instant,
    i: int,
)
    requires
        before.wf(),
        is_stored(before, after, packet, now),
        room(before) >= reply_records(packet).len(),
        now < u64::MAX,
        forall|k: int|
            0 <= k < reply_records(packet).len() ==> (#[trigger] reply_records(packet)[k]).ttl > 0,
        0 <= i < reply_records(packet).len(),
    ensures
        after.wf(),
        exists|s: usize|
            (#[trigger] after.slot(s)) matches Some(record) && record.name@
                == reply_records(packet)[i].name && says(record.data, reply_records(packet)[i])
                && !cache_types::expired(record, now),
{
    let records = reply_records(packet);
    let made = choose|made: Seq<CacheRecord>|
        #![trigger stored_all(before, made, made.len(), now)]
        are_made_of(made, records, now) && after == stored_all(before, made, made.len(), now);
    assert forall|k: int| 0 <= k < made.len() implies !cache_types::expired(
        #[trigger] made[k],
        now,
    ) by {
        assert(is_made_of(made[k], records[k], is_first(records, k), now));
        assert(records[k].ttl > 0);
    }
    lemma_made_are_kept(before, made, records, made.len(), now);
    assert(is_made_of(made[i], records[i], is_first(records, i), now));
    let s = choose|s: usize| #[trigger]
        after.slot(s) == Some(cache::settled(before.config, made[i], now));
    assert(after.slot(s) is Some);
}

} // verus!
