//! The record cache: bounded in size, with the least recently used record
//! leaving first.

use crate::addr::IpAddr;
use crate::cache_table::{self, SlotTable};
use crate::cache_types::{
    self, seconds_until, CacheFlags, CacheRecord, CacheRecordData, CacheRecordId, Instant, F_CNAME,
    F_CONFIG, F_DHCP, F_FORWARD, F_HOSTS, F_IMMORTAL, F_REVERSE, NANOS_PER_SEC,
};
use crate::domain::hostname_isequal;
use crate::protocol::T_CNAME;
use crate::text::{self, push_decimal, to_lowercase_text};
use std::collections::VecDeque;
use vstd::prelude::*;

verus! {

/// Records that a cache holds unless told otherwise.
pub const DEFAULT_CACHE_SIZE: usize = 150;

/// Seconds that a key or a digest of a key lasts at least.
pub const DNSSEC_MIN_TTL: u64 = 60;

/// How many aliases a lookup follows.
pub const MAX_CNAME_CHAIN: usize = 10;

/// How a cache works.
#[derive(Debug, Clone, Copy)]
pub struct CacheConfig {
    /// The most records.
    pub max_entries: usize,
    /// Whether it is kept that something does not exist.
    pub negative_caching: bool,
    /// Seconds that local records last.
    pub local_ttl: u64,
    /// Seconds that any record lasts at least.
    pub min_cache_ttl: u64,
}

/// How a cache works unless told otherwise.
pub open spec fn usual_config() -> CacheConfig {
    CacheConfig {
        max_entries: DEFAULT_CACHE_SIZE,
        negative_caching: true,
        local_ttl: 0,
        min_cache_ttl: 0,
    }
}

impl Default for CacheConfig {
    fn default() -> (r: Self)
        ensures
            r == usual_config(),
    {
        CacheConfig {
            max_entries: DEFAULT_CACHE_SIZE,
            negative_caching: true,
            local_ttl: 0,
            min_cache_ttl: 0,
        }
    }
}

/// What a cache counts.
#[derive(Debug, Clone, Copy)]
pub struct CacheStats {
    /// Records in the cache.
    pub entries: usize,
    /// Records that were put in.
    pub insertions: u64,
    /// Lookups that found a record.
    pub hits: u64,
    /// Lookups that found none.
    pub misses: u64,
    /// Records that left because they had expired.
    pub evictions_ttl: u64,
    /// Records that left to make room.
    pub evictions_lru: u64,
    /// Aliases that were followed.
    pub cname_chains: u64,
    /// The most records.
    pub capacity: usize,
}

/// Counts of a cache that nothing has happened to.
pub open spec fn fresh_stats(capacity: usize) -> CacheStats {
    CacheStats {
        entries: 0,
        insertions: 0,
        hits: 0,
        misses: 0,
        evictions_ttl: 0,
        evictions_lru: 0,
        cname_chains: 0,
        capacity,
    }
}

/// The cache.
pub struct Cache {
    config: CacheConfig,
    records: Vec<Option<CacheRecord>>,
    hash_table: SlotTable,
    lru_list: VecDeque<usize>,
    freelist: Vec<usize>,
    stats: CacheStats,
    next_uid: u32,
}

/// The state of a cache.
pub struct CacheModel {
    pub config: CacheConfig,
    /// The slots.
    pub records: Seq<Option<CacheRecord>>,
    /// The slots of each key.
    pub table: Map<(Seq<char>, u16), Seq<usize>>,
    /// Slots in use, the most recently used first.
    pub lru: Seq<usize>,
    /// Slots to be used again, the next one last.
    pub free: Seq<usize>,
    pub stats: CacheStats,
    pub next_uid: u32,
}

impl View for Cache {
    type V = CacheModel;

    closed spec fn view(&self) -> CacheModel {
        CacheModel {
            config: self.config,
            records: self.records@,
            table: cache_table::slots(self.hash_table),
            lru: self.lru_list@,
            free: self.freelist@,
            stats: self.stats,
            next_uid: self.next_uid,
        }
    }
}

/// The state of a cache that nothing has happened to.
pub open spec fn fresh(config: CacheConfig) -> CacheModel {
    CacheModel {
        config,
        records: Seq::empty(),
        table: Map::empty(),
        lru: Seq::empty(),
        free: Seq::empty(),
        stats: fresh_stats(config.max_entries),
        next_uid: 1,
    }
}

impl CacheModel {
    /// There are no more slots than records may be kept. A slot either holds a
    /// record and waits to make room, or is empty and waits to be used again,
    /// once in either list. The slots of a key are slots of records with that
    /// key, and every record stands under its key.
    pub open spec fn wf(self) -> bool {
        &&& self.records.len() <= self.config.max_entries
        &&& self.stats.capacity == self.config.max_entries
        &&& self.lru.no_duplicates()
        &&& self.free.no_duplicates()
        &&& forall|s: usize|
            #[trigger] self.lru.contains(s) <==> s < self.records.len()
                && self.records[s as int] is Some
        &&& forall|s: usize|
            #[trigger] self.free.contains(s) <==> s < self.records.len()
                && self.records[s as int] is None
        &&& forall|k: (Seq<char>, u16), s: usize|
            #[trigger] self.bucket(k).contains(s) ==> self.holds(s, k)
        &&& forall|s: usize|
            (#[trigger] self.slot(s)) matches Some(record) ==> self.bucket(
                record_key(record),
            ).contains(s)
    }

    /// Whether a slot holds a record with the given key.
    pub open spec fn holds(self, id: usize, key: (Seq<char>, u16)) -> bool {
        self.slot(id) matches Some(record) && record_key(record) == key
    }

    /// The record in a slot.
    pub open spec fn slot(self, id: usize) -> Option<CacheRecord> {
        record_in(self.records, id)
    }

    /// The slots of a key.
    pub open spec fn bucket(self, key: (Seq<char>, u16)) -> Seq<usize> {
        bucket_in(self.table, key)
    }
}

/// The slots of a key.
pub open spec fn bucket_in(
    table: Map<(Seq<char>, u16), Seq<usize>>,
    key: (Seq<char>, u16),
) -> Seq<usize> {
    if table.contains_key(key) {
        table[key]
    } else {
        Seq::empty()
    }
}

/// The record in a slot.
pub open spec fn record_in(records: Seq<Option<CacheRecord>>, id: usize) -> Option<CacheRecord> {
    if id < records.len() {
        records[id as int]
    } else {
        None
    }
}

/// A list without one slot.
pub open spec fn without(list: Seq<usize>, id: usize) -> Seq<usize>
    decreases list.len(),
{
    if list.len() == 0 {
        list
    } else if list.last() == id {
        without(list.drop_last(), id)
    } else {
        without(list.drop_last(), id).push(list.last())
    }
}

/// The key of a record.
pub open spec fn record_key(record: CacheRecord) -> (Seq<char>, u16) {
    cache_types::key_of(record.name@, cache_types::rr_type_of(record.data))
}

/// The table without one slot of a key. A key without slots is not kept.
pub open spec fn unlisted(
    table: Map<(Seq<char>, u16), Seq<usize>>,
    key: (Seq<char>, u16),
    id: usize,
) -> Map<(Seq<char>, u16), Seq<usize>> {
    let rest = without(bucket_in(table, key), id);
    if rest.len() == 0 {
        table.remove(key)
    } else {
        table.insert(key, rest)
    }
}

/// The state after a record was taken out of its slot and from under its key.
/// An empty slot is left as it is.
pub open spec fn removed(m: CacheModel, id: usize) -> CacheModel {
    match m.slot(id) {
        None => m,
        Some(record) => CacheModel {
            records: m.records.update(id as int, None),
            table: unlisted(m.table, record_key(record), id),
            lru: without(m.lru, id),
            free: m.free.push(id),
            ..m
        },
    }
}

/// The state after a record left its slot, which is counted where it had expired.
pub open spec fn freed(m: CacheModel, id: usize, now: Instant) -> CacheModel {
    match m.slot(id) {
        Some(record) if cache_types::expired(record, now) => CacheModel {
            stats: CacheStats {
                evictions_ttl: if m.stats.evictions_ttl < u64::MAX {
                    (m.stats.evictions_ttl + 1) as u64
                } else {
                    u64::MAX
                },
                ..m.stats
            },
            ..removed(m, id)
        },
        _ => removed(m, id),
    }
}

/// Whether a record stays until it is taken out by name: an immortal one, or
/// one that comes from a hosts file, a lease or the configuration.
pub open spec fn permanent(record: CacheRecord) -> bool {
    record.flags.meets(F_IMMORTAL | F_HOSTS | F_DHCP | F_CONFIG)
}

/// Whether a record has the given name and is still true.
pub open spec fn answers(record: CacheRecord, name: Seq<char>, now: Instant) -> bool {
    !cache_types::expired(record, now) && text::lower(record.name@) == text::lower(name)
}

/// Whether a record holds an address and is found by it.
pub open spec fn reverse_conflict(record: CacheRecord, addr: Option<IpAddr>) -> bool {
    &&& addr matches Some(a)
    &&& record.data == CacheRecordData::Address(a)
    &&& record.flags.has(F_REVERSE)
}

/// Whether a record has to leave before another one comes in. Permanent
/// records stay. Others leave once expired, and where they stand against a new
/// name or address.
pub open spec fn has_to_leave(
    record: CacheRecord,
    name: Seq<char>,
    addr: Option<IpAddr>,
    flags: CacheFlags,
    now: Instant,
) -> bool {
    if permanent(record) {
        false
    } else if cache_types::expired(record, now) {
        true
    } else if flags.has(F_FORWARD) && name.len() > 0 && text::lower(record.name@) == text::lower(
        name,
    ) {
        true
    } else {
        flags.has(F_REVERSE) && reverse_conflict(record, addr)
    }
}

/// The state after the slots `ids` were gone through.
pub open spec fn scan_slots(
    m: CacheModel,
    ids: Seq<usize>,
    name: Seq<char>,
    addr: Option<IpAddr>,
    flags: CacheFlags,
    now: Instant,
) -> CacheModel
    decreases ids.len(),
{
    if ids.len() == 0 {
        m
    } else {
        let before = scan_slots(m, ids.drop_last(), name, addr, flags, now);
        match before.slot(ids.last()) {
            Some(record) => if has_to_leave(record, name, addr, flags, now) {
                freed(before, ids.last(), now)
            } else {
                before
            },
            None => before,
        }
    }
}

/// The state after the slots of one key were gone through.
pub open spec fn scan_key(
    m: CacheModel,
    key: (Seq<char>, u16),
    name: Seq<char>,
    addr: Option<IpAddr>,
    flags: CacheFlags,
    now: Instant,
) -> CacheModel {
    scan_slots(m, m.bucket(key), name, addr, flags, now)
}

/// The state after the slots of the first `n` keys were gone through.
pub open spec fn scan_keys(
    m: CacheModel,
    keys: Seq<(Seq<char>, u16)>,
    n: nat,
    name: Seq<char>,
    addr: Option<IpAddr>,
    flags: CacheFlags,
    now: Instant,
) -> CacheModel
    decreases n,
{
    if n == 0 {
        m
    } else {
        scan_key(
            scan_keys(m, keys, (n - 1) as nat, name, addr, flags, now),
            keys[n - 1],
            name,
            addr,
            flags,
            now,
        )
    }
}

/// The record types that are gone through for a name.
pub open spec fn scanned_types() -> Seq<u16> {
    seq![1u16, 2, 5, 6, 12, 15, 16, 28, 33, 43, 46, 48]
}

/// The keys of a name for the record types that are gone through.
pub open spec fn keys_of_name(name: Seq<char>) -> Seq<(Seq<char>, u16)> {
    Seq::new(12, |i: int| cache_types::key_of(name, scanned_types()[i]))
}

/// Whether one of the first `n` slots holds a record of the given name.
pub open spec fn is_named(records: Seq<Option<CacheRecord>>, n: nat, name: Seq<char>) -> bool {
    exists|i: int|
        0 <= i < n && ((#[trigger] records[i]) matches Some(record) && text::lower(record.name@)
            == text::lower(name))
}

/// Whether a record is an alias for a name that no record has, and may leave
/// on that account. Where `only` is a name, aliases of other names are not
/// meant.
pub open spec fn is_dangling(
    records: Seq<Option<CacheRecord>>,
    record: CacheRecord,
    only: Option<Seq<char>>,
) -> bool {
    &&& !permanent(record)
    &&& record.data matches CacheRecordData::Cname(target)
    &&& !is_named(records, records.len(), target@)
    &&& only matches Some(name) ==> text::lowercase(record.name@) == text::lowercase(name)
}

/// The last of the first `n` slots that holds such an alias.
pub open spec fn dangling_slot(
    records: Seq<Option<CacheRecord>>,
    n: nat,
    only: Option<Seq<char>>,
) -> Option<usize>
    decreases n,
{
    if n == 0 {
        None
    } else if records[n - 1] matches Some(record) && is_dangling(records, record, only) {
        Some((n - 1) as usize)
    } else {
        dangling_slot(records, (n - 1) as nat, only)
    }
}

/// The state after aliases for names that no record has were taken out, one
/// after the other, at most `rounds` of them.
pub open spec fn swept(m: CacheModel, rounds: nat, only: Option<Seq<char>>) -> CacheModel
    decreases rounds,
{
    if rounds == 0 {
        m
    } else {
        match dangling_slot(m.records, m.records.len(), only) {
            Some(id) => swept(removed(m, id), (rounds - 1) as nat, only),
            None => m,
        }
    }
}

/// The least recently used of the slots `lru` whose record is not permanent.
pub open spec fn victim(records: Seq<Option<CacheRecord>>, lru: Seq<usize>) -> Option<usize>
    decreases lru.len(),
{
    if lru.len() == 0 {
        None
    } else if record_in(records, lru.last()) matches Some(record) && permanent(record) {
        victim(records, lru.drop_last())
    } else {
        Some(lru.last())
    }
}

/// The state after a record was put out to make room.
pub open spec fn evicted(m: CacheModel, id: usize) -> CacheModel {
    CacheModel {
        stats: CacheStats { evictions_lru: (m.stats.evictions_lru + 1) as u64, ..m.stats },
        ..removed(m, id)
    }
}

/// The state after it was seen to that a slot waits to be used: one does
/// already, else a new one is made, else the least recently used record that
/// is not permanent is put out. None where there is no such record.
pub open spec fn with_room(m: CacheModel) -> Option<CacheModel> {
    if m.free.len() > 0 {
        Some(m)
    } else if m.records.len() < m.config.max_entries {
        Some(
            CacheModel {
                records: m.records.push(None),
                free: seq![m.records.len() as usize],
                ..m
            },
        )
    } else {
        match victim(m.records, m.lru) {
            Some(id) => Some(evicted(m, id)),
            None => None,
        }
    }
}

/// The state after a record was put into the slot that was next to be used.
pub open spec fn stored(m: CacheModel, record: CacheRecord) -> CacheModel {
    let id = m.free.last();
    let key = record_key(record);
    CacheModel {
        records: m.records.update(id as int, Some(record)),
        table: m.table.insert(key, m.bucket(key).push(id)),
        lru: seq![id] + m.lru,
        free: m.free.drop_last(),
        stats: CacheStats { insertions: (m.stats.insertions + 1) as u64, ..m.stats },
        ..m
    }
}

/// Seconds that a record lasts at least.
pub open spec fn least_ttl(config: CacheConfig, record: CacheRecord) -> u64 {
    if (record.data is DnsKey || record.data is Ds) && config.min_cache_ttl < DNSSEC_MIN_TTL {
        DNSSEC_MIN_TTL
    } else {
        config.min_cache_ttl
    }
}

/// The instant so many seconds after `now`, or the last one that there is.
pub open spec fn after_seconds(now: Instant, seconds: u64) -> Instant {
    if now + seconds * NANOS_PER_SEC > u64::MAX {
        u64::MAX
    } else {
        (now + seconds * NANOS_PER_SEC) as u64
    }
}

/// A record as it is kept: it lasts at least as long as is asked for.
pub open spec fn settled(config: CacheConfig, record: CacheRecord, now: Instant) -> CacheRecord {
    let least = least_ttl(config, record);
    let end = after_seconds(now, least);
    if least == 0 || end <= record.ttd {
        record
    } else {
        CacheRecord { ttd: end, ttl: cache_types::seconds_left(end, now), ..record }
    }
}

/// The state after a record came in, and its slot. Where no room can be made
/// for it, nothing changes and there is no slot.
pub open spec fn inserted(m: CacheModel, record: CacheRecord, now: Instant) -> (
    CacheModel,
    Option<usize>,
) {
    let scanned = scan_key(m, record_key(record), record.name@, None, record.flags, now);
    match with_room(scanned) {
        Some(ready) => (
            stored(ready, settled(m.config, record, now)),
            Some(ready.free.last()),
        ),
        None => (m, None),
    }
}

/// The name that an alias in the slots `ids` leads to: that of the first one
/// with the given name that is still true.
pub open spec fn alias_in(
    records: Seq<Option<CacheRecord>>,
    ids: Seq<usize>,
    name: Seq<char>,
    now: Instant,
) -> Option<Seq<char>>
    decreases ids.len(),
{
    if ids.len() == 0 {
        None
    } else {
        match record_in(records, ids[0]) {
            Some(record) => if answers(record, name, now) && record.flags.has(F_CNAME)
                && record.data is Cname {
                Some(record.data->Cname_0@)
            } else {
                alias_in(records, ids.drop_first(), name, now)
            },
            None => alias_in(records, ids.drop_first(), name, now),
        }
    }
}

/// The first of the slots `ids` whose record has the given name and is still
/// true.
pub open spec fn first_answer(
    records: Seq<Option<CacheRecord>>,
    ids: Seq<usize>,
    name: Seq<char>,
    now: Instant,
) -> Option<usize>
    decreases ids.len(),
{
    if ids.len() == 0 {
        None
    } else {
        match record_in(records, ids[0]) {
            Some(record) => if answers(record, name, now) {
                Some(ids[0])
            } else {
                first_answer(records, ids.drop_first(), name, now)
            },
            None => first_answer(records, ids.drop_first(), name, now),
        }
    }
}

/// What a lookup comes to: the slot of the record, if there is one, and how
/// many aliases were followed.
pub open spec fn resolved(
    m: CacheModel,
    name: Seq<char>,
    qtype: u16,
    now: Instant,
    hops: nat,
) -> (Option<usize>, nat)
    decreases 10 - hops,
{
    if hops >= 10 {
        (None, hops)
    } else {
        match alias_in(m.records, m.bucket(cache_types::key_of(name, T_CNAME)), name, now) {
            Some(target) => resolved(m, target, qtype, now, hops + 1),
            None => (
                first_answer(m.records, m.bucket(cache_types::key_of(name, qtype)), name, now),
                hops,
            ),
        }
    }
}

/// The state after a lookup: the record that was found is now the most
/// recently used one.
pub open spec fn looked_up(m: CacheModel, name: Seq<char>, qtype: u16, now: Instant) -> CacheModel {
    let (found, hops) = resolved(m, name, qtype, now, 0);
    let counted = CacheStats { cname_chains: (m.stats.cname_chains + hops) as u64, ..m.stats };
    match found {
        Some(id) => CacheModel {
            lru: seq![id] + without(m.lru, id),
            stats: CacheStats { hits: (m.stats.hits + 1) as u64, ..counted },
            ..m
        },
        None => CacheModel {
            stats: CacheStats { misses: (m.stats.misses + 1) as u64, ..counted },
            ..m
        },
    }
}

/// The records in the first `n` slots for which `keep` holds.
pub open spec fn kept_records(
    records: Seq<Option<CacheRecord>>,
    n: nat,
    keep: spec_fn(CacheRecord) -> bool,
) -> Seq<CacheRecord>
    decreases n,
{
    if n == 0 {
        Seq::empty()
    } else {
        let before = kept_records(records, (n - 1) as nat, keep);
        match records[n - 1] {
            Some(record) => if keep(record) {
                before.push(record)
            } else {
                before
            },
            None => before,
        }
    }
}

/// The slots among the first `n` that hold a lease of a host.
pub open spec fn leases_of(
    records: Seq<Option<CacheRecord>>,
    n: nat,
    hostname: Seq<char>,
) -> Seq<usize>
    decreases n,
{
    if n == 0 {
        Seq::empty()
    } else {
        let before = leases_of(records, (n - 1) as nat, hostname);
        match records[n - 1] {
            Some(record) => if record.flags.has(F_DHCP) && text::lower(record.name@)
                == text::lower(hostname) {
                before.push((n - 1) as usize)
            } else {
                before
            },
            None => before,
        }
    }
}

/// The state after the records in the first `n` of the slots `ids` were taken
/// out.
pub open spec fn all_removed(m: CacheModel, ids: Seq<usize>, n: nat) -> CacheModel
    decreases n,
{
    if n == 0 {
        m
    } else {
        removed(all_removed(m, ids, (n - 1) as nat), ids[n - 1])
    }
}

/// The records that references point to.
pub open spec fn targets(v: Seq<&CacheRecord>) -> Seq<CacheRecord> {
    Seq::new(v.len(), |i: int| *v[i])
}

/// How many of the first `n` slots are in use.
pub open spec fn used_slots(records: Seq<Option<CacheRecord>>, n: nat) -> nat
    decreases n,
{
    if n == 0 {
        0
    } else {
        used_slots(records, (n - 1) as nat) + (if records[n - 1] is Some {
            1nat
        } else {
            0nat
        })
    }
}

/// The bits of a number rotated five places to the left.
pub open spec fn rotated(x: u32) -> u32 {
    (x << 5) | (x >> 27)
}

/// Whether a place of a name adds its character to the hash; at the other
/// places it is subtracted. The signs repeat after eleven places.
pub open spec fn adds(i: int) -> bool {
    let k = i % 11;
    k == 0 || k == 2 || k == 4 || k == 5 || k == 7 || k == 8
}

/// The lower-case form of the byte of a capital.
pub open spec fn lower_byte(b: u8) -> u8 {
    if 65 <= b <= 90 {
        (b + 32) as u8
    } else {
        b
    }
}

/// The hash of the first `n` bytes of a name.
pub open spec fn name_hash(bytes: Seq<u8>, n: nat) -> u32
    decreases n,
{
    if n == 0 {
        0
    } else {
        let ch = lower_byte(bytes[n - 1]) as u32;
        let mixed = rotated(name_hash(bytes, (n - 1) as nat)) ^ ch;
        if adds(n - 1) {
            mixed.wrapping_add(ch)
        } else {
            mixed.wrapping_sub(ch)
        }
    }
}

/// A list without one slot.
fn without_slot(list: &VecDeque<usize>, id: usize) -> (r: VecDeque<usize>)
    ensures
        r@ == without(list@, id),
{
    let mut r: VecDeque<usize> = VecDeque::new();
    let mut i: usize = 0;
    let n: usize = list.len();
    assert(list@.take(0) =~= Seq::<usize>::empty());
    while i < n
        invariant
            i <= n == list@.len(),
            r@ == without(list@.take(i as int), id),
        decreases n - i,
    {
        assert(list@.take(i + 1).drop_last() =~= list@.take(i as int));
        if list[i] != id {
            r.push_back(list[i]);
        }
        i = i + 1;
    }
    assert(list@.take(n as int) =~= list@);
    r
}

/// A list without one slot.
fn without_id(list: &Vec<usize>, id: usize) -> (r: Vec<usize>)
    ensures
        r@ == without(list@, id),
{
    let mut r: Vec<usize> = Vec::new();
    let mut i: usize = 0;
    assert(list@.take(0) =~= Seq::<usize>::empty());
    while i < list.len()
        invariant
            i <= list@.len(),
            r@ == without(list@.take(i as int), id),
        decreases list@.len() - i,
    {
        assert(list@.take(i + 1).drop_last() =~= list@.take(i as int));
        if list[i] != id {
            r.push(list[i]);
        }
        i = i + 1;
    }
    assert(list@.take(list@.len() as int) =~= list@);
    r
}

/// A copy of a list of slots.
fn copy_ids(list: &Vec<usize>) -> (r: Vec<usize>)
    ensures
        r@ == list@,
{
    let mut r: Vec<usize> = Vec::new();
    let mut i: usize = 0;
    while i < list.len()
        invariant
            i <= list@.len(),
            r@ == list@.take(i as int),
        decreases list@.len() - i,
    {
        r.push(list[i]);
        i = i + 1;
        assert(r@ =~= list@.take(i as int));
    }
    assert(r@ =~= list@);
    r
}

/// Whether a record has to leave before another one comes in.
fn must_leave(
    record: &CacheRecord,
    name: &str,
    addr: Option<IpAddr>,
    flags: CacheFlags,
    now: Instant,
) -> (r: bool)
    ensures
        r == has_to_leave(*record, name@, addr, flags, now),
{
    if is_permanent(record) {
        return false;
    }
    if record.is_expired(now) {
        return true;
    }
    if flags.contains(F_FORWARD) && !name.is_empty() && hostname_isequal(record.name(), name) {
        return true;
    }
    match addr {
        Some(a) => {
            let same: bool = match &record.data {
                CacheRecordData::Address(own) => *own == a,
                _ => false,
            };
            flags.contains(F_REVERSE) && same && record.flags.contains(F_REVERSE)
        },
        None => false,
    }
}

/// Whether a record stays until it is taken out by name.
fn is_permanent(record: &CacheRecord) -> (r: bool)
    ensures
        r == permanent(*record),
{
    record.flags.intersects(F_IMMORTAL | F_HOSTS | F_DHCP | F_CONFIG)
}

/// The record as it is kept.
fn settle(config: &CacheConfig, record: CacheRecord, now: Instant) -> (r: CacheRecord)
    ensures
        r == settled(*config, record, now),
{
    let dnssec: bool = match &record.data {
        CacheRecordData::DnsKey(_) => true,
        CacheRecordData::Ds(_) => true,
        _ => false,
    };
    let least: u64 = if dnssec && config.min_cache_ttl < DNSSEC_MIN_TTL {
        DNSSEC_MIN_TTL
    } else {
        config.min_cache_ttl
    };
    if least == 0 {
        return record;
    }
    let far: u128 = now as u128 + least as u128 * NANOS_PER_SEC as u128;
    let end: Instant = if far > u64::MAX as u128 {
        u64::MAX
    } else {
        far as u64
    };
    if end <= record.ttd {
        return record;
    }
    let mut record = record;
    record.ttl = seconds_until(end, now);
    record.ttd = end;
    record
}

impl Cache {
    /// An empty cache of the usual size.
    pub fn new() -> (r: Self)
        ensures
            r@.wf(),
            r@ == fresh(usual_config()),
    {
        Cache::with_config(CacheConfig::default())
    }

    /// An empty cache.
    pub fn with_config(config: CacheConfig) -> (r: Self)
        ensures
            r@.wf(),
            r@ == fresh(config),
    {
        Cache {
            records: Vec::new(),
            hash_table: SlotTable::new(),
            lru_list: VecDeque::new(),
            freelist: Vec::new(),
            stats: empty_stats(config.max_entries),
            next_uid: 1,
            config,
        }
    }

    /// Forgets all records and counts.
    pub fn clear(&mut self)
        ensures
            final(self)@.wf(),
            final(self)@ == fresh(old(self)@.config),
    {
        self.records.clear();
        self.hash_table.clear();
        self.lru_list.clear();
        self.freelist.clear();
        self.next_uid = 1;
        self.stats = empty_stats(self.config.max_entries);
    }

    /// The counts, with the number of records that are in the cache now.
    pub fn get_stats(&self) -> (r: CacheStats)
        ensures
            r == (CacheStats {
                entries: used_slots(self@.records, self@.records.len()) as usize,
                ..self@.stats
            }),
            r.entries == used_slots(self@.records, self@.records.len()),
    {
        let mut entries: usize = 0;
        let mut i: usize = 0;
        while i < self.records.len()
            invariant
                i <= self.records@.len(),
                entries == used_slots(self.records@, i as nat),
                entries <= i,
            decreases self.records@.len() - i,
        {
            if self.records[i].is_some() {
                entries = entries + 1;
            }
            i = i + 1;
        }
        CacheStats { entries, ..self.stats }
    }

    /// Puts a record into the cache. What has expired or stands against it
    /// under the same name and type leaves first. It lasts at least as long as
    /// the configuration asks for, and a key or a digest of one at least a
    /// minute. Where all the room is taken by permanent records, there is an
    /// error and nothing changes.
    pub fn insert(&mut self, record: CacheRecord, now: Instant) -> (r: Result<
        CacheRecordId,
        &'static str,
    >)
        requires
            old(self)@.wf(),
            old(self)@.stats.insertions < u64::MAX,
            old(self)@.stats.evictions_lru < u64::MAX,
        ensures
            final(self)@.wf(),
            final(self)@ == inserted(old(self)@, record, now).0,
            match inserted(old(self)@, record, now).1 {
                Some(slot) => r matches Ok(id) && id.slot() == slot,
                None => r matches Err(reason) && reason@ == "cache is full"@,
            },
    {
        let qtype: u16 = CacheRecord::derive_rr_type(&record.data);
        let key_name = to_lowercase_text(record.name());
        self.scan_free_internal(record.name(), None, record.flags, &key_name, qtype, now);
        let ghost scanned = self@;
        if !self.make_room() {
            proof {
                lemma_untouched(
                    old(self)@,
                    old(self)@.bucket(record_key(record)),
                    record.name@,
                    None,
                    record.flags,
                    now,
                );
            }
            return Err("cache is full");
        }
        let ghost ready = self@;
        let record = settle(&self.config, record, now);
        let id: usize = self.freelist.pop().unwrap();
        let mut ids: Vec<usize> = match self.hash_table.get(key_name.as_str(), qtype) {
            Some(list) => copy_ids(list),
            None => Vec::new(),
        };
        ids.push(id);
        self.hash_table.insert(key_name.as_str(), qtype, ids);
        assert(ready.free.contains(id)) by {
            assert(ready.free[ready.free.len() - 1] == id);
        }
        self.records.set(id, Some(record));
        self.lru_list.push_front(id);
        self.stats.insertions = self.stats.insertions + 1;
        proof {
            assert(self@.lru =~= seq![id] + ready.lru);
            assert(self@ == stored(ready, record));
            lemma_stored_wf(ready, record);
        }
        Ok(CacheRecordId::new(id))
    }

    /// Looks a record up by name and type. Aliases are followed, up to ten of
    /// them; records that have expired are passed over.
    pub fn lookup(&mut self, name: &str, qtype: u16, now: Instant) -> (r: Option<&CacheRecord>)
        requires
            old(self)@.wf(),
            old(self)@.stats.hits < u64::MAX,
            old(self)@.stats.misses < u64::MAX,
            old(self)@.stats.cname_chains + 10 <= u64::MAX,
        ensures
            final(self)@.wf(),
            final(self)@ == looked_up(old(self)@, name@, qtype, now),
            match resolved(old(self)@, name@, qtype, now, 0).0 {
                Some(id) => r matches Some(record) && old(self)@.slot(id) == Some(*record),
                None => r is None,
            },
    {
        let mut current: String = name.to_owned();
        let mut hops: usize = 0;
        let ghost m = self@;
        loop
            invariant
                m == old(self)@,
                m.wf(),
                m.stats.hits < u64::MAX,
                m.stats.misses < u64::MAX,
                m.stats.cname_chains + 10 <= u64::MAX,
                hops <= 10,
                self@ == (CacheModel {
                    stats: CacheStats {
                        cname_chains: (m.stats.cname_chains + hops) as u64,
                        ..m.stats
                    },
                    ..m
                }),
                resolved(m, name@, qtype, now, 0) == resolved(
                    m,
                    current@,
                    qtype,
                    now,
                    hops as nat,
                ),
            decreases 10 - hops,
        {
            if hops >= MAX_CNAME_CHAIN {
                self.stats.misses = self.stats.misses + 1;
                proof {
                    lemma_counted_wf(m, self@);
                }
                return None;
            }
            match self.find_alias(current.as_str(), now) {
                Some(target) => {
                    current = target;
                    hops = hops + 1;
                    self.stats.cname_chains = self.stats.cname_chains + 1;
                },
                None => {
                    return match self.find_answer(current.as_str(), qtype, now) {
                        Some(id) => {
                            self.move_to_front(id);
                            self.stats.hits = self.stats.hits + 1;
                            proof {
                                lemma_looked_up_wf(m, id, self@);
                            }
                            self.records[id].as_ref()
                        },
                        None => {
                            self.stats.misses = self.stats.misses + 1;
                            proof {
                                lemma_counted_wf(m, self@);
                            }
                            None
                        },
                    };
                },
            }
        }
    }

    /// The name that an alias for `name` leads to.
    fn find_alias(&self, name: &str, now: Instant) -> (r: Option<String>)
        ensures
            match r {
                Some(target) => alias_in(
                    self@.records,
                    self@.bucket(cache_types::key_of(name@, T_CNAME)),
                    name@,
                    now,
                ) == Some(target@),
                None => alias_in(
                    self@.records,
                    self@.bucket(cache_types::key_of(name@, T_CNAME)),
                    name@,
                    now,
                ) is None,
            },
    {
        let key_name = to_lowercase_text(name);
        let ids = match self.hash_table.get(key_name.as_str(), T_CNAME) {
            Some(ids) => ids,
            None => {
                return None;
            },
        };
        let mut i: usize = 0;
        assert(ids@.skip(0) =~= ids@);
        while i < ids.len()
            invariant
                i <= ids@.len(),
                alias_in(self@.records, ids@, name@, now) == alias_in(
                    self@.records,
                    ids@.skip(i as int),
                    name@,
                    now,
                ),
                ids@ == self@.bucket(cache_types::key_of(name@, T_CNAME)),
            decreases ids@.len() - i,
        {
            let id: usize = ids[i];
            assert(ids@.skip(i as int).drop_first() =~= ids@.skip(i + 1));
            if id < self.records.len() {
                match &self.records[id] {
                    Some(record) => {
                        if !record.is_expired(now) && hostname_isequal(record.name(), name)
                            && record.flags.contains(F_CNAME) {
                            match &record.data {
                                CacheRecordData::Cname(target) => {
                                    return Some(target.clone());
                                },
                                _ => {},
                            }
                        }
                    },
                    None => {},
                }
            }
            i = i + 1;
        }
        None
    }

    /// The slot of the record that answers a question.
    fn find_answer(&self, name: &str, qtype: u16, now: Instant) -> (r: Option<usize>)
        ensures
            r == first_answer(
                self@.records,
                self@.bucket(cache_types::key_of(name@, qtype)),
                name@,
                now,
            ),
            r matches Some(id) ==> id < self@.records.len() && self@.records[id as int] is Some,
    {
        let key_name = to_lowercase_text(name);
        let ids = match self.hash_table.get(key_name.as_str(), qtype) {
            Some(ids) => ids,
            None => {
                return None;
            },
        };
        let mut i: usize = 0;
        assert(ids@.skip(0) =~= ids@);
        while i < ids.len()
            invariant
                i <= ids@.len(),
                first_answer(self@.records, ids@, name@, now) == first_answer(
                    self@.records,
                    ids@.skip(i as int),
                    name@,
                    now,
                ),
                ids@ == self@.bucket(cache_types::key_of(name@, qtype)),
            decreases ids@.len() - i,
        {
            let id: usize = ids[i];
            assert(ids@.skip(i as int).drop_first() =~= ids@.skip(i + 1));
            if id < self.records.len() {
                match &self.records[id] {
                    Some(record) => {
                        if !record.is_expired(now) && hostname_isequal(record.name(), name) {
                            return Some(id);
                        }
                    },
                    None => {},
                }
            }
            i = i + 1;
        }
        None
    }

    /// All records of a name that are still true.
    pub fn find_by_name(&self, name: &str, now: Instant) -> (r: Vec<&CacheRecord>)
        ensures
            targets(r@) == kept_records(
                self@.records,
                self@.records.len(),
                |record: CacheRecord| answers(record, name@, now),
            ),
    {
        let ghost keep = |record: CacheRecord| answers(record, name@, now);
        let mut results: Vec<&CacheRecord> = Vec::new();
        let mut i: usize = 0;
        assert(targets(results@) =~= kept_records(self.records@, 0, keep));
        while i < self.records.len()
            invariant
                i <= self.records@.len(),
                keep == (|record: CacheRecord| answers(record, name@, now)),
                targets(results@) == kept_records(self.records@, i as nat, keep),
            decreases self.records@.len() - i,
        {
            let ghost before = targets(results@);
            match &self.records[i] {
                Some(record) => {
                    if hostname_isequal(record.name(), name) && !record.is_expired(now) {
                        results.push(record);
                        assert(targets(results@) =~= before.push(*record));
                    }
                },
                None => {},
            }
            i = i + 1;
        }
        results
    }

    /// All records that are found by an address and still true.
    pub fn find_by_addr(&self, addr: &IpAddr, now: Instant) -> (r: Vec<&CacheRecord>)
        ensures
            targets(r@) == kept_records(
                self@.records,
                self@.records.len(),
                |record: CacheRecord|
                    reverse_conflict(record, Some(*addr)) && !cache_types::expired(record, now),
            ),
    {
        let ghost keep = |record: CacheRecord|
            reverse_conflict(record, Some(*addr)) && !cache_types::expired(record, now);
        let mut results: Vec<&CacheRecord> = Vec::new();
        let mut i: usize = 0;
        assert(targets(results@) =~= kept_records(self.records@, 0, keep));
        while i < self.records.len()
            invariant
                i <= self.records@.len(),
                keep == (|record: CacheRecord|
                    reverse_conflict(record, Some(*addr)) && !cache_types::expired(record, now)),
                targets(results@) == kept_records(self.records@, i as nat, keep),
            decreases self.records@.len() - i,
        {
            let ghost before = targets(results@);
            match &self.records[i] {
                Some(record) => {
                    if record.flags.contains(F_REVERSE) && !record.is_expired(now) {
                        let same: bool = match &record.data {
                            CacheRecordData::Address(own) => *own == *addr,
                            _ => false,
                        };
                        if same {
                            results.push(record);
                            assert(targets(results@) =~= before.push(*record));
                        }
                    }
                },
                None => {},
            }
            i = i + 1;
        }
        results
    }

    /// Frees what has expired or stands against a name or an address, then
    /// aliases for names that no record has. With a name and the forward flag,
    /// its keys are gone through, else all keys, in an order that the table
    /// decides.
    pub fn scan_free(
        &mut self,
        name: Option<&str>,
        addr: Option<&IpAddr>,
        flags: CacheFlags,
        now: Instant,
    )
        requires
            old(self)@.wf(),
        ensures
            final(self)@.wf(),
            flags.has(F_FORWARD) && name is Some ==> final(self)@ == swept(
                scan_keys(
                    old(self)@,
                    keys_of_name(name->0@),
                    12,
                    name->0@,
                    owned_addr(addr),
                    flags,
                    now,
                ),
                old(self)@.records.len(),
                Some(name->0@),
            ),
            !(flags.has(F_FORWARD) && name is Some) ==> exists|keys: Seq<(Seq<char>, u16)>|
                {
                    &&& keys.no_duplicates()
                    &&& keys.to_set() == old(self)@.table.dom()
                    &&& final(self)@ == swept(
                        #[trigger] scan_keys(
                            old(self)@,
                            keys,
                            keys.len(),
                            name_or_empty(name),
                            owned_addr(addr),
                            flags,
                            now,
                        ),
                        old(self)@.records.len(),
                        None,
                    )
                },
    {
        let own_addr: Option<IpAddr> = match addr {
            Some(a) => Some(*a),
            None => None,
        };
        match name {
            Some(n) => {
                if flags.contains(F_FORWARD) {
                    self.scan_name(n, own_addr, flags, now);
                    self.sweep(Some(n));
                    return;
                }
            },
            None => {},
        }
        let keys = self.hash_table.keys();
        match name {
            Some(n) => {
                self.scan_in_order(&keys, n, own_addr, flags, now);
            },
            None => {
                proof {
                    reveal_strlit("");
                    assert(""@ =~= Seq::<char>::empty());
                }
                self.scan_in_order(&keys, "", own_addr, flags, now);
            },
        }
        proof {
            let order = cache_table::key_views(keys@);
            assert(order.len() == keys@.len());
            assert(self@ == scan_keys(
                old(self)@,
                order,
                order.len(),
                name_or_empty(name),
                owned_addr(addr),
                flags,
                now,
            ));
        }
        self.sweep(None);
    }

    /// Takes out aliases for names that no record has; where a name is given,
    /// only those of that name.
    fn sweep(&mut self, only: Option<&str>)
        requires
            old(self)@.wf(),
        ensures
            final(self)@.wf(),
            final(self)@ == swept(
                old(self)@,
                old(self)@.records.len(),
                match only {
                    Some(name) => Some(name@),
                    None => None,
                },
            ),
    {
        let ghost meant = match only {
            Some(name) => Some(name@),
            None => None,
        };
        let mut left: usize = self.records.len();
        while left > 0
            invariant
                self@.wf(),
                self@.records.len() == old(self)@.records.len(),
                meant == (match only {
                    Some(name) => Some(name@),
                    None => None,
                }),
                swept(self@, left as nat, meant) == swept(
                    old(self)@,
                    old(self)@.records.len(),
                    meant,
                ),
            decreases left,
        {
            match self.find_dangling(only) {
                Some(id) => {
                    self.remove_record(id);
                    left = left - 1;
                },
                None => {
                    return;
                },
            }
        }
    }

    /// The last slot with an alias for a name that no record has.
    fn find_dangling(&self, only: Option<&str>) -> (r: Option<usize>)
        ensures
            r == dangling_slot(
                self@.records,
                self@.records.len(),
                match only {
                    Some(name) => Some(name@),
                    None => None,
                },
            ),
            r matches Some(id) ==> id < self@.records.len(),
    {
        let ghost meant = match only {
            Some(name) => Some(name@),
            None => None,
        };
        let mut i: usize = self.records.len();
        while i > 0
            invariant
                i <= self.records@.len(),
                meant == (match only {
                    Some(name) => Some(name@),
                    None => None,
                }),
                dangling_slot(self@.records, self@.records.len(), meant) == dangling_slot(
                    self@.records,
                    i as nat,
                    meant,
                ),
            decreases i,
        {
            i = i - 1;
            let dangling: bool = match &self.records[i] {
                Some(record) => self.dangles(record, only),
                None => false,
            };
            if dangling {
                return Some(i);
            }
        }
        None
    }

    /// Whether a record is an alias for a name that no record has.
    fn dangles(&self, record: &CacheRecord, only: Option<&str>) -> (r: bool)
        ensures
            r == is_dangling(
                self@.records,
                *record,
                match only {
                    Some(name) => Some(name@),
                    None => None,
                },
            ),
    {
        if is_permanent(record) {
            return false;
        }
        match only {
            Some(name) => {
                if to_lowercase_text(record.name()) != to_lowercase_text(name) {
                    return false;
                }
            },
            None => {},
        }
        match &record.data {
            CacheRecordData::Cname(target) => !self.names(target.as_str()),
            _ => false,
        }
    }

    /// Whether any record has the given name.
    fn names(&self, name: &str) -> (r: bool)
        ensures
            r == is_named(self@.records, self@.records.len(), name@),
    {
        let mut i: usize = 0;
        while i < self.records.len()
            invariant
                i <= self.records@.len(),
                !is_named(self.records@, i as nat, name@),
            decreases self.records@.len() - i,
        {
            match &self.records[i] {
                Some(record) => {
                    if hostname_isequal(record.name(), name) {
                        assert(self@.records[i as int] is Some);
                        return true;
                    }
                },
                None => {},
            }
            i = i + 1;
        }
        false
    }

    /// Goes through the keys of a name.
    fn scan_name(&mut self, name: &str, addr: Option<IpAddr>, flags: CacheFlags, now: Instant)
        requires
            old(self)@.wf(),
        ensures
            final(self)@.wf(),
            final(self)@.records.len() == old(self)@.records.len(),
            final(self)@ == scan_keys(
                old(self)@,
                keys_of_name(name@),
                12,
                name@,
                addr,
                flags,
                now,
            ),
    {
        let types: [u16; 12] = [1, 2, 5, 6, 12, 15, 16, 28, 33, 43, 46, 48];
        assert(types@ =~= scanned_types());
        let key_name = to_lowercase_text(name);
        let mut i: usize = 0;
        while i < 12
            invariant
                i <= 12,
                self@.wf(),
                self@.records.len() == old(self)@.records.len(),
                types@ == scanned_types(),
                key_name@ == text::lowercase(name@),
                self@ == scan_keys(
                    old(self)@,
                    keys_of_name(name@),
                    i as nat,
                    name@,
                    addr,
                    flags,
                    now,
                ),
            decreases 12 - i,
        {
            self.scan_free_internal(name, addr, flags, &key_name, types[i], now);
            i = i + 1;
        }
    }

    /// Goes through the given keys one after the other.
    pub fn scan_in_order(
        &mut self,
        keys: &Vec<(String, u16)>,
        name: &str,
        addr: Option<IpAddr>,
        flags: CacheFlags,
        now: Instant,
    )
        requires
            old(self)@.wf(),
        ensures
            final(self)@.wf(),
            final(self)@.records.len() == old(self)@.records.len(),
            final(self)@ == scan_keys(
                old(self)@,
                cache_table::key_views(keys@),
                keys@.len(),
                name@,
                addr,
                flags,
                now,
            ),
    {
        let mut i: usize = 0;
        while i < keys.len()
            invariant
                i <= keys@.len(),
                self@.wf(),
                self@.records.len() == old(self)@.records.len(),
                self@ == scan_keys(
                    old(self)@,
                    cache_table::key_views(keys@),
                    i as nat,
                    name@,
                    addr,
                    flags,
                    now,
                ),
            decreases keys@.len() - i,
        {
            self.scan_free_internal(name, addr, flags, &keys[i].0, keys[i].1, now);
            i = i + 1;
        }
    }

    /// A line about the use of the cache.
    pub fn make_stat(&self) -> (r: String)
        ensures
            r@ == "cache size "@ + text::decimal(self@.stats.capacity as nat) + ", "@
                + text::decimal(self@.stats.hits as nat) + "/"@ + text::decimal(
                self@.stats.insertions as nat,
            ) + " cache insertions re-used unexpired cache entries."@,
    {
        let mut s: String = String::new();
        s.append("cache size ");
        push_decimal(&mut s, self.stats.capacity as u64);
        s.append(", ");
        push_decimal(&mut s, self.stats.hits);
        s.append("/");
        push_decimal(&mut s, self.stats.insertions);
        s.append(" cache insertions re-used unexpired cache entries.");
        assert(s@ =~= "cache size "@ + text::decimal(self@.stats.capacity as nat) + ", "@
            + text::decimal(self@.stats.hits as nat) + "/"@ + text::decimal(
            self@.stats.insertions as nat,
        ) + " cache insertions re-used unexpired cache entries."@);
        s
    }

    /// All records, expired ones too.
    pub fn enumerate(&self) -> (r: Vec<&CacheRecord>)
        ensures
            targets(r@) == kept_records(
                self@.records,
                self@.records.len(),
                |record: CacheRecord| true,
            ),
    {
        let ghost keep = |record: CacheRecord| true;
        let mut results: Vec<&CacheRecord> = Vec::new();
        let mut i: usize = 0;
        assert(targets(results@) =~= kept_records(self.records@, 0, keep));
        while i < self.records.len()
            invariant
                i <= self.records@.len(),
                keep == (|record: CacheRecord| true),
                targets(results@) == kept_records(self.records@, i as nat, keep),
            decreases self.records@.len() - i,
        {
            let ghost before = targets(results@);
            match &self.records[i] {
                Some(record) => {
                    results.push(record);
                    assert(targets(results@) =~= before.push(*record));
                },
                None => {},
            }
            i = i + 1;
        }
        results
    }

    /// Puts the address of a DHCP lease into the cache.
    pub fn add_dhcp_entry(
        &mut self,
        hostname: &str,
        addr: IpAddr,
        lease_expiry: Instant,
        now: Instant,
    ) -> (r: Result<CacheRecordId, &'static str>)
        requires
            old(self)@.wf(),
            old(self)@.stats.insertions < u64::MAX,
            old(self)@.stats.evictions_lru < u64::MAX,
        ensures
            final(self)@.wf(),
            exists|record: CacheRecord|
                {
                    &&& record.name@ == hostname@
                    &&& record.data == CacheRecordData::Address(addr)
                    &&& record.ttd == lease_expiry
                    &&& record.uid == 0
                    &&& record.flags == (CacheFlags { bits: F_DHCP | F_FORWARD })
                    &&& record.ttl == cache_types::seconds_left(lease_expiry, now)
                    &&& final(self)@ == #[trigger] inserted(old(self)@, record, now).0
                    &&& match inserted(old(self)@, record, now).1 {
                        Some(slot) => r matches Ok(id) && id.slot() == slot,
                        None => r matches Err(reason) && reason@ == "cache is full"@,
                    }
                },
    {
        let record = CacheRecord::new(
            hostname.to_owned(),
            CacheRecordData::Address(addr),
            lease_expiry,
            0,
            CacheFlags::from_bits(F_DHCP | F_FORWARD),
            now,
        );
        self.insert(record, now)
    }

    /// Takes the leases of a host out of the cache, and tells how many there
    /// were.
    pub fn unhash_dhcp(&mut self, hostname: &str) -> (r: usize)
        requires
            old(self)@.wf(),
        ensures
            final(self)@.wf(),
            r == leases_of(old(self)@.records, old(self)@.records.len(), hostname@).len(),
            final(self)@ == all_removed(
                old(self)@,
                leases_of(old(self)@.records, old(self)@.records.len(), hostname@),
                r as nat,
            ),
    {
        let mut to_remove: Vec<usize> = Vec::new();
        let mut i: usize = 0;
        assert(to_remove@ =~= leases_of(self.records@, 0, hostname@));
        while i < self.records.len()
            invariant
                i <= self.records@.len(),
                *self == *old(self),
                to_remove@ == leases_of(self.records@, i as nat, hostname@),
                forall|k: int|
                    0 <= k < to_remove@.len() ==> (#[trigger] to_remove@[k]) < self.records@.len(),
            decreases self.records@.len() - i,
        {
            match &self.records[i] {
                Some(record) => {
                    if record.flags.contains(F_DHCP) && hostname_isequal(record.name(), hostname) {
                        to_remove.push(i);
                    }
                },
                None => {},
            }
            i = i + 1;
        }
        let mut k: usize = 0;
        while k < to_remove.len()
            invariant
                k <= to_remove@.len(),
                self@.wf(),
                self@.records.len() == old(self)@.records.len(),
                forall|j: int|
                    0 <= j < to_remove@.len() ==> (#[trigger] to_remove@[j])
                        < old(self)@.records.len(),
                self@ == all_removed(old(self)@, to_remove@, k as nat),
            decreases to_remove@.len() - k,
        {
            self.remove_record(to_remove[k]);
            k = k + 1;
        }
        k
    }

    /// Goes through the slots of a key.
    fn scan_free_internal(
        &mut self,
        name: &str,
        addr: Option<IpAddr>,
        flags: CacheFlags,
        key_name: &String,
        qtype: u16,
        now: Instant,
    )
        requires
            old(self)@.wf(),
        ensures
            final(self)@.wf(),
            final(self)@ == scan_key(
                old(self)@,
                (key_name@, qtype),
                name@,
                addr,
                flags,
                now,
            ),
            final(self)@.stats == (CacheStats {
                evictions_ttl: final(self)@.stats.evictions_ttl,
                ..old(self)@.stats
            }),
            final(self)@.config == old(self)@.config,
            final(self)@.records.len() == old(self)@.records.len(),
    {
        let bucket: Vec<usize> = match self.hash_table.get(key_name.as_str(), qtype) {
            Some(ids) => copy_ids(ids),
            None => {
                return;
            },
        };
        assert forall|k: int| 0 <= k < bucket@.len() implies (#[trigger] bucket@[k])
            < self@.records.len() by {
            assert(self@.bucket((key_name@, qtype)).contains(bucket@[k]));
        }
        let mut i: usize = 0;
        assert(bucket@.take(0) =~= Seq::<usize>::empty());
        while i < bucket.len()
            invariant
                i <= bucket@.len(),
                self@.wf(),
                self@.stats == (CacheStats {
                    evictions_ttl: self@.stats.evictions_ttl,
                    ..old(self)@.stats
                }),
                self@.config == old(self)@.config,
                self@.records.len() == old(self)@.records.len(),
                bucket@ == old(self)@.bucket((key_name@, qtype)),
                forall|k: int|
                    0 <= k < bucket@.len() ==> (#[trigger] bucket@[k])
                        < old(self)@.records.len(),
                self@ == scan_slots(
                    old(self)@,
                    bucket@.take(i as int),
                    name@,
                    addr,
                    flags,
                    now,
                ),
            decreases bucket@.len() - i,
        {
            let id: usize = bucket[i];
            assert(bucket@.take(i + 1).drop_last() =~= bucket@.take(i as int));
            assert(bucket@.take(i + 1).last() == id);
            let (leaves, expired): (bool, bool) = match &self.records[id] {
                Some(record) => (
                    must_leave(record, name, addr, flags, now),
                    record.is_expired(now),
                ),
                None => (false, false),
            };
            if leaves {
                let ghost before = self@;
                self.remove_record(id);
                if expired {
                    self.stats.evictions_ttl = self.stats.evictions_ttl.saturating_add(1);
                }
                proof {
                    assert(self@ == freed(before, id, now));
                    lemma_freed_wf(before, id, now);
                }
            }
            i = i + 1;
        }
        assert(bucket@.take(i as int) =~= bucket@);
    }

    /// Takes a record out of its slot and from under its key.
    fn remove_record(&mut self, id: usize)
        requires
            old(self)@.wf(),
            id < old(self)@.records.len(),
        ensures
            final(self)@.wf(),
            final(self)@ == removed(old(self)@, id),
            final(self)@.records.len() == old(self)@.records.len(),
            final(self)@.stats == old(self)@.stats,
            final(self)@.config == old(self)@.config,
    {
        let (key_name, qtype): (String, u16) = match &self.records[id] {
            Some(record) => (
                to_lowercase_text(record.name()),
                CacheRecord::derive_rr_type(&record.data),
            ),
            None => {
                return;
            },
        };
        let rest: Vec<usize> = match self.hash_table.get(key_name.as_str(), qtype) {
            Some(ids) => without_id(ids, id),
            None => Vec::new(),
        };
        if rest.len() == 0 {
            self.hash_table.remove(key_name.as_str(), qtype);
        } else {
            self.hash_table.insert(key_name.as_str(), qtype, rest);
        }
        self.records.set(id, None);
        self.lru_list = without_slot(&self.lru_list, id);
        self.freelist.push(id);
        proof {
            assert(self@ == removed(old(self)@, id));
            lemma_removed_wf(old(self)@, id);
        }
    }

    /// Sees to it that a slot waits to be used, and tells whether one does.
    fn make_room(&mut self) -> (r: bool)
        requires
            old(self)@.wf(),
            old(self)@.stats.evictions_lru < u64::MAX,
        ensures
            match with_room(old(self)@) {
                Some(ready) => r && final(self)@ == ready && ready.wf() && ready.free.len() > 0,
                None => !r && final(self)@ == old(self)@,
            },
    {
        proof {
            lemma_with_room(old(self)@);
        }
        if self.freelist.len() > 0 {
            return true;
        }
        if self.records.len() < self.config.max_entries {
            let id: usize = self.records.len();
            self.records.push(None);
            self.freelist.push(id);
            assert(self@.free =~= seq![id]);
            return true;
        }
        match self.find_victim() {
            Some(id) => {
                self.remove_record(id);
                self.stats.evictions_lru = self.stats.evictions_lru + 1;
                true
            },
            None => false,
        }
    }

    /// The slot of the record that goes to make room.
    fn find_victim(&self) -> (r: Option<usize>)
        requires
            self@.wf(),
        ensures
            r == victim(self@.records, self@.lru),
            r matches Some(id) ==> id < self@.records.len(),
    {
        let mut i: usize = self.lru_list.len();
        assert(self@.lru.take(i as int) =~= self@.lru);
        while i > 0
            invariant
                i <= self.lru_list@.len(),
                self@.wf(),
                victim(self@.records, self@.lru) == victim(
                    self@.records,
                    self@.lru.take(i as int),
                ),
            decreases i,
        {
            assert(self@.lru.take(i as int).drop_last() =~= self@.lru.take(i - 1));
            i = i - 1;
            let id: usize = self.lru_list[i];
            assert(self@.lru[i as int] == id);
            assert(self@.lru.contains(id));
            let stays: bool = match &self.records[id] {
                Some(record) => is_permanent(record),
                None => false,
            };
            if !stays {
                return Some(id);
            }
        }
        None
    }

    /// Makes a record the most recently used one.
    fn move_to_front(&mut self, id: usize)
        ensures
            final(self)@ == (CacheModel {
                lru: seq![id] + without(old(self)@.lru, id),
                ..old(self)@
            }),
            final(self).records == old(self).records,
    {
        self.lru_list = without_slot(&self.lru_list, id);
        self.lru_list.push_front(id);
        assert(self@.lru =~= seq![id] + without(old(self)@.lru, id));
    }

    /// Whether a record is an alias that lookups follow.
    pub fn has_cname(record: &CacheRecord) -> (r: bool)
        ensures
            r == (record.data is Cname),
    {
        match &record.data {
            CacheRecordData::Cname(_) => true,
            _ => false,
        }
    }

    /// The hash of a name; the case of letters does not matter.
    pub fn compute_hash(name: &str) -> (r: u32)
        ensures
            r == name_hash(vstd::utf8::encode_utf8(name@), text::utf8_len(name@)),
    {
        let bytes = name.as_bytes();
        let mut hash: u32 = 0;
        let mut i: usize = 0;
        while i < bytes.len()
            invariant
                i <= bytes@.len(),
                bytes@ == vstd::utf8::encode_utf8(name@),
                hash == name_hash(bytes@, i as nat),
            decreases bytes@.len() - i,
        {
            let b: u8 = bytes[i];
            let ch: u32 = if b >= 65 && b <= 90 {
                (b + 32) as u32
            } else {
                b as u32
            };
            hash = (hash << 5) | (hash >> 27);
            hash = hash ^ ch;
            let k: usize = i % 11;
            if k == 0 || k == 2 || k == 4 || k == 5 || k == 7 || k == 8 {
                hash = hash.wrapping_add(ch);
            } else {
                hash = hash.wrapping_sub(ch);
            }
            i = i + 1;
        }
        hash
    }
}

/// Counts of a cache that nothing has happened to.
fn empty_stats(capacity: usize) -> (r: CacheStats)
    ensures
        r == fresh_stats(capacity),
{
    CacheStats {
        entries: 0,
        insertions: 0,
        hits: 0,
        misses: 0,
        evictions_ttl: 0,
        evictions_lru: 0,
        cname_chains: 0,
        capacity,
    }
}

/// A name, or the empty text.
pub open spec fn name_or_empty(name: Option<&str>) -> Seq<char> {
    match name {
        Some(n) => n@,
        None => Seq::empty(),
    }
}

/// The address behind an optional reference.
pub open spec fn owned_addr(addr: Option<&IpAddr>) -> Option<IpAddr> {
    match addr {
        Some(a) => Some(*a),
        None => None,
    }
}

/// What is in a list without one slot.
pub proof fn lemma_without(list: Seq<usize>, id: usize)
    ensures
        forall|s: usize|
            #[trigger] without(list, id).contains(s) <==> s != id && list.contains(s),
        list.no_duplicates() ==> without(list, id).no_duplicates(),
    decreases list.len(),
{
    if list.len() > 0 {
        let front = list.drop_last();
        lemma_without(front, id);
        let rest = without(front, id);
        assert(list =~= front.push(list.last()));
        lemma_pushed(front, list.last());
        lemma_pushed(rest, list.last());
        if list.no_duplicates() {
            assert(front.no_duplicates());
            assert(!front.contains(list.last()));
        }
    }
}

/// What is in a list after something was put at its end.
pub proof fn lemma_pushed(list: Seq<usize>, id: usize)
    ensures
        forall|s: usize| #[trigger] list.push(id).contains(s) <==> s == id || list.contains(s),
        list.push(id).no_duplicates() <==> list.no_duplicates() && !list.contains(id),
{
    let more = list.push(id);
    assert(more[list.len() as int] == id);
    assert forall|s: usize| #[trigger] more.contains(s) <==> s == id || list.contains(s) by {
        if list.contains(s) {
            let i = choose|i: int| 0 <= i < list.len() && list[i] == s;
            assert(more[i] == s);
        }
        if more.contains(s) && s != id {
            let i = choose|i: int| 0 <= i < more.len() && more[i] == s;
            assert(list[i] == s);
        }
    }
    if more.no_duplicates() {
        assert forall|i: int, j: int|
            0 <= i < list.len() && 0 <= j < list.len() && i != j implies list[i] != list[j] by {
            assert(more[i] != more[j]);
        }
        if list.contains(id) {
            let i = choose|i: int| 0 <= i < list.len() && list[i] == id;
            assert(more[i] == more[list.len() as int]);
        }
    }
}

/// What is in a list after something was put before it.
proof fn lemma_put_first(list: Seq<usize>, id: usize)
    ensures
        forall|s: usize|
            #[trigger] (seq![id] + list).contains(s) <==> s == id || list.contains(s),
        list.no_duplicates() && !list.contains(id) ==> (seq![id] + list).no_duplicates(),
{
    let more = seq![id] + list;
    assert(more[0] == id);
    assert forall|s: usize| #[trigger] more.contains(s) <==> s == id || list.contains(s) by {
        if list.contains(s) {
            let i = choose|i: int| 0 <= i < list.len() && list[i] == s;
            assert(more[i + 1] == s);
        }
        if more.contains(s) && s != id {
            let i = choose|i: int| 0 <= i < more.len() && more[i] == s;
            assert(list[i - 1] == s);
        }
    }
    if list.no_duplicates() && !list.contains(id) {
        assert forall|i: int, j: int|
            0 <= i < more.len() && 0 <= j < more.len() && i != j implies more[i] != more[j] by {
            if i > 0 {
                assert(more[i] == list[i - 1]);
                assert(list.contains(list[i - 1]));
            }
            if j > 0 {
                assert(more[j] == list[j - 1]);
                assert(list.contains(list[j - 1]));
            }
        }
    }
}

/// Taking a record out keeps the cache in order and touches no other record.
pub proof fn lemma_removed_wf(m: CacheModel, id: usize)
    requires
        m.wf(),
    ensures
        removed(m, id).wf(),
        removed(m, id).config == m.config,
        removed(m, id).stats == m.stats,
        removed(m, id).records.len() == m.records.len(),
        forall|s: usize|
            #[trigger] removed(m, id).slot(s) == (if s == id {
                None
            } else {
                m.slot(s)
            }),
{
    let n = removed(m, id);
    if let Some(record) = m.slot(id) {
        let key = record_key(record);
        lemma_without(m.lru, id);
        lemma_without(m.bucket(key), id);
        lemma_pushed(m.free, id);
        assert(!m.free.contains(id));
        assert forall|k: (Seq<char>, u16), s: usize| #[trigger]
            n.bucket(k).contains(s) implies n.holds(s, k) by {
            if k == key {
                assert(without(m.bucket(key), id).contains(s));
            }
            assert(m.bucket(k).contains(s));
            assert(m.holds(s, k));
            if s == id {
                assert(record_key(record) == k);
            }
        }
        assert forall|s: usize| (#[trigger] n.slot(s)) matches Some(other) implies n.bucket(
            record_key(n.slot(s)->0),
        ).contains(s) by {
            assert(m.slot(s) == n.slot(s));
            let k = record_key(n.slot(s)->0);
            assert(m.bucket(k).contains(s));
            if k == key {
                assert(without(m.bucket(key), id).contains(s));
            }
        }
    }
}

/// The same of a record that is counted where it had expired.
proof fn lemma_freed_wf(m: CacheModel, id: usize, now: Instant)
    requires
        m.wf(),
    ensures
        freed(m, id, now).wf(),
        freed(m, id, now).config == m.config,
        freed(m, id, now).stats == (CacheStats {
            evictions_ttl: freed(m, id, now).stats.evictions_ttl,
            ..m.stats
        }),
        freed(m, id, now).records.len() == m.records.len(),
        forall|s: usize|
            #[trigger] freed(m, id, now).slot(s) == (if s == id {
                None
            } else {
                m.slot(s)
            }),
{
    lemma_removed_wf(m, id);
    lemma_counted_wf(removed(m, id), freed(m, id, now));
    assert forall|s: usize| #[trigger] freed(m, id, now).slot(s) == removed(m, id).slot(s) by {}
}

/// Going through slots keeps the cache in order. Records stay as they are or
/// leave, permanent ones stay, and none that has to leave is left in the slots.
pub proof fn lemma_scanned(
    m: CacheModel,
    ids: Seq<usize>,
    name: Seq<char>,
    addr: Option<IpAddr>,
    flags: CacheFlags,
    now: Instant,
)
    requires
        m.wf(),
    ensures
        ({
            let n = scan_slots(m, ids, name, addr, flags, now);
            &&& n.wf()
            &&& n.config == m.config
            &&& n.stats == (CacheStats { evictions_ttl: n.stats.evictions_ttl, ..m.stats })
            &&& n.records.len() == m.records.len()
            &&& forall|s: usize| (#[trigger] n.slot(s)) is None || n.slot(s) == m.slot(s)
            &&& forall|s: usize|
                (#[trigger] m.slot(s)) matches Some(record) && permanent(record) ==> n.slot(s)
                    == m.slot(s)
            &&& forall|s: usize|
                #[trigger] ids.contains(s) ==> (n.slot(s) matches Some(record) ==> !has_to_leave(
                    record,
                    name,
                    addr,
                    flags,
                    now,
                ))
        }),
    decreases ids.len(),
{
    if ids.len() > 0 {
        let front = ids.drop_last();
        let before = scan_slots(m, front, name, addr, flags, now);
        lemma_scanned(m, front, name, addr, flags, now);
        lemma_freed_wf(before, ids.last(), now);
        lemma_pushed(front, ids.last());
        assert(ids =~= front.push(ids.last()));
    }
}

/// Slots of which none is freed leave the cache as it was.
proof fn lemma_untouched(
    m: CacheModel,
    ids: Seq<usize>,
    name: Seq<char>,
    addr: Option<IpAddr>,
    flags: CacheFlags,
    now: Instant,
)
    ensures
        ({
            let n = scan_slots(m, ids, name, addr, flags, now);
            &&& n.free.len() >= m.free.len()
            &&& n.free.len() == m.free.len() ==> n == m
        }),
    decreases ids.len(),
{
    if ids.len() > 0 {
        lemma_untouched(m, ids.drop_last(), name, addr, flags, now);
    }
}

/// What is put out to make room is a record that is not permanent; where there
/// is none, all records are permanent.
pub proof fn lemma_victim(records: Seq<Option<CacheRecord>>, lru: Seq<usize>)
    ensures
        match victim(records, lru) {
            Some(id) => lru.contains(id) && !(record_in(records, id) matches Some(record)
                && permanent(record)),
            None => forall|s: usize|
                #[trigger] lru.contains(s) ==> (record_in(records, s) matches Some(record)
                    && permanent(record)),
        },
    decreases lru.len(),
{
    if lru.len() > 0 {
        lemma_victim(records, lru.drop_last());
        lemma_pushed(lru.drop_last(), lru.last());
        assert(lru =~= lru.drop_last().push(lru.last()));
        assert(lru[lru.len() - 1] == lru.last());
    }
}

/// Making room keeps the cache in order and costs at most one record, which is
/// not permanent.
pub proof fn lemma_with_room(m: CacheModel)
    requires
        m.wf(),
    ensures
        with_room(m) matches Some(n) ==> {
            &&& n.wf()
            &&& n.free.len() > 0
            &&& n.config == m.config
            &&& n.stats.insertions == m.stats.insertions
            &&& forall|s: usize| (#[trigger] n.slot(s)) is None || n.slot(s) == m.slot(s)
            &&& forall|s: usize|
                (#[trigger] m.slot(s)) matches Some(record) && permanent(record) ==> n.slot(s)
                    == m.slot(s)
        },
{
    if m.free.len() > 0 {
    } else if m.records.len() < m.config.max_entries {
        let n = with_room(m)->0;
        let new = m.records.len() as usize;
        assert(n.free =~= m.free.push(new));
        lemma_pushed(m.free, new);
        assert forall|s: usize| #[trigger] n.slot(s) == m.slot(s) by {}
        assert forall|k: (Seq<char>, u16), s: usize| #[trigger]
            n.bucket(k).contains(s) implies n.holds(s, k) by {
            assert(m.bucket(k).contains(s));
        }
        assert(!m.lru.contains(new));
        assert(!m.free.contains(new));
    } else if let Some(id) = victim(m.records, m.lru) {
        lemma_victim(m.records, m.lru);
        lemma_removed_wf(m, id);
        let r = removed(m, id);
        let n = evicted(m, id);
        assert forall|s: usize| #[trigger] n.slot(s) == r.slot(s) by {}
        assert forall|k: (Seq<char>, u16), s: usize| #[trigger]
            n.bucket(k).contains(s) implies n.holds(s, k) by {
            assert(r.bucket(k).contains(s));
        }
    }
}

/// Putting a record into a slot that waits keeps the cache in order and touches
/// no other record.
pub proof fn lemma_stored_wf(m: CacheModel, record: CacheRecord)
    requires
        m.wf(),
        m.free.len() > 0,
    ensures
        stored(m, record).wf(),
        m.slot(m.free.last()) is None,
        forall|s: usize|
            #[trigger] stored(m, record).slot(s) == (if s == m.free.last() {
                Some(record)
            } else {
                m.slot(s)
            }),
{
    let n = stored(m, record);
    let id = m.free.last();
    let key = record_key(record);
    assert(m.free =~= n.free.push(id));
    lemma_pushed(n.free, id);
    assert(m.free.contains(id));
    assert(!m.lru.contains(id));
    lemma_put_first(m.lru, id);
    lemma_pushed(m.bucket(key), id);
    assert forall|s: usize| #[trigger] n.lru.contains(s) <==> s < n.records.len()
        && n.records[s as int] is Some by {
        assert(n.lru.contains(s) <==> s == id || m.lru.contains(s));
    }
    assert forall|s: usize| #[trigger] n.free.contains(s) <==> s < n.records.len()
        && n.records[s as int] is None by {
        assert(m.free.contains(s) <==> s == id || n.free.contains(s));
    }
    assert forall|k: (Seq<char>, u16), s: usize| #[trigger]
        n.bucket(k).contains(s) implies n.holds(s, k) by {
        if k == key {
            assert(m.bucket(key).push(id).contains(s));
        }
        if s != id {
            assert(m.bucket(k).contains(s));
            assert(m.holds(s, k));
        } else if k != key {
            assert(m.bucket(k).contains(s));
            assert(m.holds(s, k));
        }
    }
    assert forall|s: usize| (#[trigger] n.slot(s)) matches Some(other) implies n.bucket(
        record_key(n.slot(s)->0),
    ).contains(s) by {
        let k = record_key(n.slot(s)->0);
        if s != id {
            assert(m.slot(s) == n.slot(s));
            assert(m.bucket(k).contains(s));
        }
        if k == key {
            assert(m.bucket(key).push(id).contains(s));
        }
    }
}

/// Counting keeps the cache in order.
proof fn lemma_counted_wf(m: CacheModel, n: CacheModel)
    requires
        m.wf(),
        n == (CacheModel { stats: n.stats, ..m }),
        n.stats.capacity == m.stats.capacity,
    ensures
        n.wf(),
{
    assert forall|s: usize| (#[trigger] n.slot(s)) matches Some(other) implies n.bucket(
        record_key(n.slot(s)->0),
    ).contains(s) by {
        assert(m.slot(s) == n.slot(s));
    }
    assert forall|k: (Seq<char>, u16), s: usize| #[trigger]
        n.bucket(k).contains(s) implies n.holds(s, k) by {
        assert(m.bucket(k).contains(s));
        assert(m.holds(s, k));
    }
}

proof fn lemma_looked_up_wf(m: CacheModel, id: usize, n: CacheModel)
    requires
        m.wf(),
        m.slot(id) is Some,
        n.config == m.config,
        n.stats.capacity == m.stats.capacity,
        n.records == m.records,
        n.table == m.table,
        n.free == m.free,
        n.lru == seq![id] + without(m.lru, id),
    ensures
        n.wf(),
{
    lemma_without(m.lru, id);
    lemma_put_first(without(m.lru, id), id);
    assert forall|s: usize| #[trigger] n.lru.contains(s) <==> s < n.records.len()
        && n.records[s as int] is Some by {
        assert(n.lru.contains(s) <==> s == id || m.lru.contains(s));
    }
    assert forall|s: usize| (#[trigger] n.slot(s)) matches Some(other) implies n.bucket(
        record_key(n.slot(s)->0),
    ).contains(s) by {
        assert(m.slot(s) == n.slot(s));
    }
    assert forall|k: (Seq<char>, u16), s: usize| #[trigger]
        n.bucket(k).contains(s) implies n.holds(s, k) by {
        assert(m.bucket(k).contains(s));
        assert(m.holds(s, k));
    }
}

/// Whether the bytes of a name end with a domain: they are its own, or a dot
/// stands before them.
pub open spec fn is_under(name: Seq<u8>, domain: Seq<u8>) -> bool {
    &&& domain.is_suffix_of(name)
    &&& name.len() == domain.len() || name[name.len() - domain.len() - 1] == 46
}

/// Whether the bytes of a name end with a domain.
pub fn lies_under(name: &[u8], domain: &[u8]) -> (r: bool)
    ensures
        r == is_under(name@, domain@),
{
    ends_with(name, domain) && (name.len() == domain.len() || name[name.len() - domain.len() - 1]
        == 46)
}

/// Whether a name is one of the local domains or lies under one.
pub fn check_for_local_domain(name: &str, local_domains: &[String]) -> (r: bool)
    ensures
        r == exists|i: int|
            0 <= i < local_domains@.len() && is_under(
                vstd::utf8::encode_utf8(name@),
                vstd::utf8::encode_utf8((#[trigger] local_domains@[i])@),
            ),
{
    let name_bytes = name.as_bytes();
    let mut i: usize = 0;
    while i < local_domains.len()
        invariant
            i <= local_domains@.len(),
            name_bytes@ == vstd::utf8::encode_utf8(name@),
            forall|k: int|
                0 <= k < i ==> !is_under(
                    name_bytes@,
                    vstd::utf8::encode_utf8((#[trigger] local_domains@[k])@),
                ),
        decreases local_domains@.len() - i,
    {
        if lies_under(name_bytes, local_domains[i].as_str().as_bytes()) {
            return true;
        }
        i = i + 1;
    }
    false
}

/// Whether a row of bytes ends with another one.
fn ends_with(s: &[u8], end: &[u8]) -> (r: bool)
    ensures
        r == end@.is_suffix_of(s@),
{
    if end.len() > s.len() {
        return false;
    }
    let n: usize = s.len();
    let start: usize = n - end.len();
    let mut i: usize = 0;
    while i < end.len()
        invariant
            i <= end@.len() <= s@.len() == n,
            start == s@.len() - end@.len(),
            forall|k: int| 0 <= k < i ==> end@[k] == s@[start + k],
        decreases end@.len() - i,
    {
        if end[i] != s[start + i] {
            assert(s@.subrange(start as int, s@.len() as int)[i as int] == s@[start + i]);
            return false;
        }
        i = i + 1;
    }
    assert(end@ =~= s@.subrange(start as int, s@.len() as int));
    true
}

} // verus!
