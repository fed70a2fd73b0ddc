//! What holds of the cache as a whole.

use crate::addr::IpAddr;
use crate::cache::{self, CacheConfig, CacheModel, DNSSEC_MIN_TTL};
use crate::cache_types::{
    self, CacheFlags, CacheRecord, CacheRecordData, Instant, F_DHCP, F_FORWARD,
};
use crate::protocol::T_CNAME;
use crate::text;
use vstd::prelude::*;
use vstd::utf8::*;

verus! {

/// A cache never holds more records than it may, which is the capacity that it
/// reports.
pub proof fn law_size_is_bounded(m: CacheModel)
    requires
        m.wf(),
    ensures
        cache::used_slots(m.records, m.records.len()) <= m.stats.capacity,
        m.stats.capacity == m.config.max_entries,
{
    lemma_used_slots(m.records, m.records.len());
}

proof fn lemma_used_slots(records: Seq<Option<CacheRecord>>, n: nat)
    ensures
        cache::used_slots(records, n) <= n,
    decreases n,
{
    if n > 0 {
        lemma_used_slots(records, (n - 1) as nat);
    }
}

/// The name that an alias for `name` leads to, if there is one.
pub open spec fn alias_of(m: CacheModel, name: Seq<char>, now: Instant) -> Option<Seq<char>> {
    cache::alias_in(m.records, m.bucket(cache_types::key_of(name, T_CNAME)), name, now)
}

/// The name that `n` aliases one after the other lead to.
pub open spec fn led_to(m: CacheModel, name: Seq<char>, now: Instant, n: nat) -> Option<Seq<char>>
    decreases n,
{
    if n == 0 {
        Some(name)
    } else {
        match led_to(m, name, now, (n - 1) as nat) {
            Some(last) => alias_of(m, last, now),
            None => None,
        }
    }
}

/// A lookup follows at most ten aliases, to the first name that has none. What
/// it gives is a record of that name and of the type that was asked for, and
/// has not expired. Where ten aliases do not come to such a name, it gives
/// nothing.
pub proof fn law_lookup_gives_what_is_asked_for(
    m: CacheModel,
    name: Seq<char>,
    qtype: u16,
    now: Instant,
)
    requires
        m.wf(),
    ensures
        ({
            let (found, hops) = cache::resolved(m, name, qtype, now, 0);
            &&& hops <= 10
            &&& led_to(m, name, now, hops) is Some
            &&& hops < 10 ==> alias_of(m, led_to(m, name, now, hops)->0, now) is None
            &&& hops == 10 ==> found is None
            &&& found matches Some(id) ==> {
                &&& m.slot(id) matches Some(record)
                &&& !cache_types::expired(record, now)
                &&& cache_types::rr_type_of(record.data) == qtype
                &&& text::lower(record.name@) == text::lower(led_to(m, name, now, hops)->0)
            }
        }),
{
    lemma_resolved(m, name, name, qtype, now, 0);
}

proof fn lemma_resolved(
    m: CacheModel,
    start: Seq<char>,
    name: Seq<char>,
    qtype: u16,
    now: Instant,
    hops: nat,
)
    requires
        m.wf(),
        hops <= 10,
        led_to(m, start, now, hops) == Some(name),
    ensures
        ({
            let (found, last) = cache::resolved(m, name, qtype, now, hops);
            &&& hops <= last <= 10
            &&& led_to(m, start, now, last) is Some
            &&& last < 10 ==> alias_of(m, led_to(m, start, now, last)->0, now) is None
            &&& last == 10 ==> found is None
            &&& found matches Some(id) ==> {
                &&& m.slot(id) matches Some(record)
                &&& !cache_types::expired(record, now)
                &&& cache_types::rr_type_of(record.data) == qtype
                &&& text::lower(record.name@) == text::lower(led_to(m, start, now, last)->0)
            }
        }),
    decreases 10 - hops,
{
    if hops < 10 {
        match alias_of(m, name, now) {
            Some(target) => {
                lemma_resolved(m, start, target, qtype, now, hops + 1);
            },
            None => {
                lemma_first_answer(m, cache_types::key_of(name, qtype), name, now);
            },
        }
    }
}

proof fn lemma_first_answer(m: CacheModel, key: (Seq<char>, u16), name: Seq<char>, now: Instant)
    requires
        m.wf(),
    ensures
        cache::first_answer(m.records, m.bucket(key), name, now) matches Some(id) ==> {
            &&& m.bucket(key).contains(id)
            &&& m.slot(id) matches Some(record)
            &&& cache::answers(record, name, now)
            &&& cache::record_key(record) == key
        },
        cache::first_answer(m.records, m.bucket(key), name, now) is None ==> forall|s: usize|
            #[trigger] m.bucket(key).contains(s) ==> !(m.slot(s) matches Some(record)
                && cache::answers(record, name, now)),
{
    lemma_first_of(m.records, m.bucket(key), name, now);
}

proof fn lemma_first_of(
    records: Seq<Option<CacheRecord>>,
    ids: Seq<usize>,
    name: Seq<char>,
    now: Instant,
)
    ensures
        match cache::first_answer(records, ids, name, now) {
            Some(id) => ids.contains(id) && (cache::record_in(records, id) matches Some(record)
                && cache::answers(record, name, now)),
            None => forall|s: usize|
                #[trigger] ids.contains(s) ==> !(cache::record_in(records, s) matches Some(record)
                    && cache::answers(record, name, now)),
        },
    decreases ids.len(),
{
    if ids.len() > 0 {
        let rest = ids.drop_first();
        lemma_first_of(records, rest, name, now);
        assert(ids[0] == ids.first());
        assert forall|s: usize| #[trigger] ids.contains(s) implies s == ids[0] || rest.contains(
            s,
        ) by {
            let i = choose|i: int| 0 <= i < ids.len() && ids[i] == s;
            if i > 0 {
                assert(rest[i - 1] == s);
            }
        }
        assert forall|s: usize| #[trigger] rest.contains(s) implies ids.contains(s) by {
            let i = choose|i: int| 0 <= i < rest.len() && rest[i] == s;
            assert(ids[i + 1] == s);
        }
    }
}

/// A lookup that comes back to the name that it began with gives nothing.
pub proof fn law_circle_is_given_up(
    m: CacheModel,
    name: Seq<char>,
    qtype: u16,
    now: Instant,
    n: nat,
)
    requires
        m.wf(),
        n > 0,
        led_to(m, name, now, n) == Some(name),
    ensures
        cache::resolved(m, name, qtype, now, 0).0 is None,
{
    lemma_resolved(m, name, name, qtype, now, 0);
    let last = cache::resolved(m, name, qtype, now, 0).1;
    lemma_goes_round(m, name, now, n, last + 1);
}

proof fn lemma_goes_round(m: CacheModel, name: Seq<char>, now: Instant, n: nat, k: nat)
    requires
        n > 0,
        led_to(m, name, now, n) == Some(name),
    ensures
        led_to(m, name, now, k) is Some,
    decreases k,
{
    if k <= n {
        lemma_led_before(m, name, now, k, n);
    } else {
        lemma_goes_round(m, name, now, n, (k - n) as nat);
        lemma_led_on(m, name, now, n, (k - n) as nat);
    }
}

proof fn lemma_led_before(m: CacheModel, name: Seq<char>, now: Instant, k: nat, n: nat)
    requires
        k <= n,
        led_to(m, name, now, n) is Some,
    ensures
        led_to(m, name, now, k) is Some,
    decreases n - k,
{
    if k < n {
        lemma_led_before(m, name, now, k + 1, n);
    }
}

proof fn lemma_led_on(m: CacheModel, name: Seq<char>, now: Instant, n: nat, k: nat)
    requires
        led_to(m, name, now, n) == Some(name),
    ensures
        led_to(m, name, now, n + k) == led_to(m, name, now, k),
    decreases k,
{
    if k > 0 {
        lemma_led_on(m, name, now, n, (k - 1) as nat);
    }
}

/// A lookup counts once: as a hit where it gives a record, else as a miss. It
/// changes no record.
pub proof fn law_lookup_counts_once(m: CacheModel, name: Seq<char>, qtype: u16, now: Instant)
    requires
        m.stats.hits < u64::MAX,
        m.stats.misses < u64::MAX,
    ensures
        ({
            let n = cache::looked_up(m, name, qtype, now);
            let found = cache::resolved(m, name, qtype, now, 0).0 is Some;
            &&& n.stats.hits == m.stats.hits + (if found {
                1int
            } else {
                0int
            })
            &&& n.stats.misses == m.stats.misses + (if found {
                0int
            } else {
                1int
            })
            &&& n.records == m.records
            &&& n.table == m.table
        }),
{
}

/// The state after a record was let in.
pub open spec fn after_insert(m: CacheModel, record: CacheRecord, now: Instant) -> CacheModel {
    cache::inserted(m, record, now).0
}

/// What an insert comes to in terms of the records.
proof fn lemma_inserted(m: CacheModel, record: CacheRecord, now: Instant)
    requires
        m.wf(),
    ensures
        ({
            let (n, slot) = cache::inserted(m, record, now);
            let kept = cache::settled(m.config, record, now);
            &&& n.wf()
            &&& slot is None ==> n == m
            &&& slot matches Some(id) ==> {
                &&& n.slot(id) == Some(kept)
                &&& forall|s: usize|
                    s != id ==> (#[trigger] n.slot(s)) is None || n.slot(s) == m.slot(s)
                &&& forall|s: usize|
                    (#[trigger] m.slot(s)) matches Some(other) && cache::permanent(other) ==> s
                        != id && n.slot(s) == m.slot(s)
                &&& forall|s: usize|
                    s != id ==> ((#[trigger] n.slot(s)) matches Some(other) ==> (cache::record_key(
                        other,
                    ) == cache::record_key(record) ==> !cache::has_to_leave(
                        other,
                        record.name@,
                        None,
                        record.flags,
                        now,
                    )))
                &&& n.stats.insertions == (m.stats.insertions + 1) as u64
            }
        }),
{
    let key = cache::record_key(record);
    let ids = m.bucket(key);
    let scanned = cache::scan_key(m, key, record.name@, None, record.flags, now);
    cache::lemma_scanned(m, ids, record.name@, None, record.flags, now);
    cache::lemma_with_room(scanned);
    if let Some(ready) = cache::with_room(scanned) {
        let kept = cache::settled(m.config, record, now);
        cache::lemma_stored_wf(ready, kept);
        let n = cache::stored(ready, kept);
        let id = ready.free.last();
        assert forall|s: usize| s != id implies (#[trigger] n.slot(s)) is None || n.slot(s)
            == m.slot(s) by {
            assert(n.slot(s) == ready.slot(s));
            assert(ready.slot(s) is None || ready.slot(s) == scanned.slot(s));
            assert(scanned.slot(s) is None || scanned.slot(s) == m.slot(s));
        }
        assert forall|s: usize|
            (#[trigger] m.slot(s)) matches Some(other) && cache::permanent(other) implies s != id
            && n.slot(s) == m.slot(s) by {
            assert(scanned.slot(s) == m.slot(s));
            assert(ready.slot(s) == scanned.slot(s));
        }
        assert forall|s: usize| s != id implies ((#[trigger] n.slot(s)) matches Some(other) ==> (
        cache::record_key(other) == cache::record_key(record) ==> !cache::has_to_leave(
            other,
            record.name@,
            None,
            record.flags,
            now,
        ))) by {
            assert(n.slot(s) == ready.slot(s));
            assert(ready.slot(s) is None || ready.slot(s) == scanned.slot(s));
            assert(scanned.slot(s) is None || scanned.slot(s) == m.slot(s));
            if let Some(other) = n.slot(s) {
                if cache::record_key(other) == key {
                    assert(m.slot(s) == Some(other));
                    assert(ids.contains(s));
                }
            }
        }
    }
}

/// A record that came in is counted, stands in the cache, and as long as it is
/// true and no alias leads away from its name, a record of its name and type is
/// found. It is this one where no other record of the name and type is kept.
pub proof fn law_inserted_record_is_found(m: CacheModel, record: CacheRecord, now: Instant)
    requires
        m.wf(),
        m.stats.insertions < u64::MAX,
        cache::inserted(m, record, now).1 is Some,
        !cache_types::expired(record, now),
        alias_of(after_insert(m, record, now), record.name@, now) is None,
    ensures
        ({
            let n = after_insert(m, record, now);
            let slot = cache::inserted(m, record, now).1->0;
            let kept = cache::settled(m.config, record, now);
            let qtype = cache_types::rr_type_of(record.data);
            let found = cache::resolved(n, record.name@, qtype, now, 0).0;
            &&& n.stats.insertions == m.stats.insertions + 1
            &&& n.slot(slot) == Some(kept)
            &&& cache::kept_records(n.records, n.records.len(), |r: CacheRecord| true).contains(
                kept,
            )
            &&& found matches Some(id) && (n.slot(id) matches Some(other) && cache::answers(
                other,
                record.name@,
                now,
            ) && cache_types::rr_type_of(other.data) == qtype)
            &&& (forall|s: usize|
                s != slot ==> ((#[trigger] n.slot(s)) matches Some(other) ==> cache::record_key(
                    other,
                ) != cache::record_key(record))) ==> found == Some(slot)
        }),
{
    lemma_inserted(m, record, now);
    let n = after_insert(m, record, now);
    let slot = cache::inserted(m, record, now).1->0;
    let kept = cache::settled(m.config, record, now);
    let key = cache::record_key(record);
    assert(cache::record_key(kept) == key);
    assert(n.bucket(key).contains(slot));
    assert(cache::answers(kept, record.name@, now));
    lemma_first_answer(n, key, record.name@, now);
    lemma_is_kept(n.records, n.records.len(), slot as int);
    let found = cache::first_answer(n.records, n.bucket(key), record.name@, now);
    assert(n.bucket(key).contains(found->0));
    assert(n.slot(found->0) is Some);
}

/// A record in the cache that is still true is found by its name and type, or
/// another one of them is, as long as no alias leads away from the name.
pub proof fn law_kept_record_is_found(m: CacheModel, slot: usize, now: Instant)
    requires
        m.wf(),
        m.slot(slot) matches Some(record) && !cache_types::expired(record, now) && alias_of(
            m,
            record.name@,
            now,
        ) is None,
    ensures
        ({
            let record = m.slot(slot)->0;
            let qtype = cache_types::rr_type_of(record.data);
            let found = cache::resolved(m, record.name@, qtype, now, 0).0;
            found matches Some(id) && (m.slot(id) matches Some(other) && cache::answers(
                other,
                record.name@,
                now,
            ) && cache_types::rr_type_of(other.data) == qtype)
        }),
{
    let record = m.slot(slot)->0;
    let key = cache::record_key(record);
    assert(m.bucket(key).contains(slot));
    assert(cache::answers(record, record.name@, now));
    lemma_first_answer(m, key, record.name@, now);
}

proof fn lemma_is_kept(records: Seq<Option<CacheRecord>>, n: nat, i: int)
    requires
        0 <= i < n <= records.len(),
        records[i] is Some,
    ensures
        cache::kept_records(records, n, |r: CacheRecord| true).contains(records[i]->0),
    decreases n,
{
    let keep = |r: CacheRecord| true;
    let all = cache::kept_records(records, n, keep);
    let before = cache::kept_records(records, (n - 1) as nat, keep);
    if i == n - 1 {
        assert(all == before.push(records[i]->0));
        assert(all[before.len() as int] == records[i]->0);
    } else {
        lemma_is_kept(records, (n - 1) as nat, i);
        let k = choose|k: int| 0 <= k < before.len() && before[k] == records[i]->0;
        assert(all[k] == records[i]->0);
    }
}

/// Whether two records answer the same question. Case does not matter in ASCII
/// names; other names have to stand under the same key.
pub open spec fn same_question(a: CacheRecord, b: CacheRecord) -> bool {
    &&& text::lower(a.name@) == text::lower(b.name@)
    &&& cache_types::rr_type_of(a.data) == cache_types::rr_type_of(b.data)
    &&& is_ascii_chars(b.name@) || cache::record_key(a) == cache::record_key(b)
}

/// After a record with the forward flag came in, every other record of its
/// name and type is permanent.
pub proof fn law_insert_displaces(m: CacheModel, record: CacheRecord, now: Instant)
    requires
        m.wf(),
        record.flags.has(F_FORWARD),
        record.name@.len() > 0,
    ensures
        cache::inserted(m, record, now).1 matches Some(slot) ==> forall|s: usize|
            s != slot ==> ((#[trigger] after_insert(m, record, now).slot(s)) matches Some(other)
                ==> (same_question(other, record) ==> cache::permanent(other))),
{
    lemma_inserted(m, record, now);
    let n = after_insert(m, record, now);
    if let Some(slot) = cache::inserted(m, record, now).1 {
        assert forall|s: usize| s != slot implies ((#[trigger] n.slot(s)) matches Some(other) ==> (
        same_question(other, record) ==> cache::permanent(other))) by {
            if let Some(other) = n.slot(s) {
                if text::lower(other.name@) == text::lower(record.name@) && is_ascii_chars(
                    record.name@,
                ) {
                    text::lemma_ascii_too(record.name@, other.name@);
                }
            }
        }
    }
}

/// A record is refused only where every record that may be kept is kept and
/// all of them are permanent. The cache is then as it was.
pub proof fn law_refused_only_where_all_is_permanent(
    m: CacheModel,
    record: CacheRecord,
    now: Instant,
)
    requires
        m.wf(),
    ensures
        cache::inserted(m, record, now).1 is None <==> m.records.len() == m.config.max_entries
            && forall|s: usize|
            s < m.records.len() ==> ((#[trigger] m.slot(s)) matches Some(other)
                && cache::permanent(other)),
        cache::inserted(m, record, now).1 is None ==> after_insert(m, record, now) == m,
{
    let key = cache::record_key(record);
    let ids = m.bucket(key);
    let scanned = cache::scan_key(m, key, record.name@, None, record.flags, now);
    cache::lemma_scanned(m, ids, record.name@, None, record.flags, now);
    cache::lemma_victim(scanned.records, scanned.lru);
    if cache::with_room(scanned) is None {
        assert forall|s: usize| s < m.records.len() implies ((#[trigger] m.slot(s)) matches Some(
            other,
        ) && cache::permanent(other)) by {
            if scanned.slot(s) is None {
                assert(scanned.free.contains(s));
            } else {
                assert(scanned.lru.contains(s));
            }
        }
    }
    if m.records.len() == m.config.max_entries && (forall|s: usize|
        s < m.records.len() ==> ((#[trigger] m.slot(s)) matches Some(other) && cache::permanent(
            other,
        ))) {
        if scanned.free.len() > 0 {
            let s = scanned.free[0];
            assert(scanned.free.contains(s));
            assert(m.slot(s) is Some);
            assert(scanned.slot(s) == m.slot(s));
        }
        if let Some(id) = cache::victim(scanned.records, scanned.lru) {
            assert(scanned.lru.contains(id));
            assert(m.slot(id) is Some);
            assert(scanned.slot(id) == m.slot(id));
        }
    }
}

/// A record that is immortal, or comes from a hosts file, a lease or the
/// configuration, stays in its slot whatever is put in or freed.
pub proof fn law_permanent_record_stays(
    m: CacheModel,
    record: CacheRecord,
    keys: Seq<(Seq<char>, u16)>,
    n: nat,
    name: Seq<char>,
    addr: Option<IpAddr>,
    flags: CacheFlags,
    only: Option<Seq<char>>,
    now: Instant,
    id: usize,
)
    requires
        m.wf(),
        m.slot(id) matches Some(own) && cache::permanent(own),
    ensures
        after_insert(m, record, now).slot(id) == m.slot(id),
        cache::inserted(m, record, now).1 != Some(id),
        cache::swept(
            cache::scan_keys(m, keys, n, name, addr, flags, now),
            m.records.len(),
            only,
        ).slot(id) == m.slot(id),
{
    lemma_inserted(m, record, now);
    lemma_keys_scanned(m, keys, n, name, addr, flags, now);
    let scanned = cache::scan_keys(m, keys, n, name, addr, flags, now);
    assert(scanned.slot(id) == m.slot(id));
    lemma_swept(scanned, m.records.len(), only);
}

proof fn lemma_keys_scanned(
    m: CacheModel,
    keys: Seq<(Seq<char>, u16)>,
    n: nat,
    name: Seq<char>,
    addr: Option<IpAddr>,
    flags: CacheFlags,
    now: Instant,
)
    requires
        m.wf(),
    ensures
        ({
            let r = cache::scan_keys(m, keys, n, name, addr, flags, now);
            &&& r.wf()
            &&& r.records.len() == m.records.len()
            &&& forall|s: usize| (#[trigger] r.slot(s)) is None || r.slot(s) == m.slot(s)
            &&& forall|s: usize|
                (#[trigger] m.slot(s)) matches Some(own) && cache::permanent(own) ==> r.slot(s)
                    == m.slot(s)
        }),
    decreases n,
{
    if n > 0 {
        let before = cache::scan_keys(m, keys, (n - 1) as nat, name, addr, flags, now);
        lemma_keys_scanned(m, keys, (n - 1) as nat, name, addr, flags, now);
        cache::lemma_scanned(before, before.bucket(keys[n - 1]), name, addr, flags, now);
        let r = cache::scan_keys(m, keys, n, name, addr, flags, now);
        assert forall|s: usize| (#[trigger] r.slot(s)) is None || r.slot(s) == m.slot(s) by {
            assert(r.slot(s) is None || r.slot(s) == before.slot(s));
        }
        assert forall|s: usize|
            (#[trigger] m.slot(s)) matches Some(own) && cache::permanent(own) implies r.slot(s)
            == m.slot(s) by {
            assert(before.slot(s) == m.slot(s));
        }
    }
}

/// After a scan of all keys, whatever has expired has left, unless it is
/// permanent.
pub proof fn law_expired_records_leave(
    m: CacheModel,
    keys: Seq<(Seq<char>, u16)>,
    name: Seq<char>,
    addr: Option<IpAddr>,
    flags: CacheFlags,
    now: Instant,
)
    requires
        m.wf(),
        keys.to_set() == m.table.dom(),
    ensures
        ({
            let n = cache::swept(
                cache::scan_keys(m, keys, keys.len(), name, addr, flags, now),
                m.records.len(),
                None,
            );
            forall|s: usize|
                (#[trigger] n.slot(s)) matches Some(own) ==> cache::permanent(own)
                    || !cache_types::expired(own, now)
        }),
{
    let scanned = cache::scan_keys(m, keys, keys.len(), name, addr, flags, now);
    lemma_keys_scanned(m, keys, keys.len(), name, addr, flags, now);
    lemma_swept(scanned, m.records.len(), None);
    let n = cache::swept(scanned, m.records.len(), None);
    assert forall|s: usize| (#[trigger] n.slot(s)) matches Some(own) implies cache::permanent(
        n.slot(s)->0,
    ) || !cache_types::expired(n.slot(s)->0, now) by {
        let own = n.slot(s)->0;
        assert(scanned.slot(s) == n.slot(s));
        assert(m.slot(s) == n.slot(s));
        let key = cache::record_key(own);
        assert(m.bucket(key).contains(s));
        assert(m.table.dom().contains(key));
        assert(keys.to_set().contains(key));
        let i = choose|i: int| 0 <= i < keys.len() && keys[i] == key;
        lemma_key_is_scanned(m, keys, keys.len(), i, name, addr, flags, now, s);
    }
}

proof fn lemma_key_is_scanned(
    m: CacheModel,
    keys: Seq<(Seq<char>, u16)>,
    n: nat,
    i: int,
    name: Seq<char>,
    addr: Option<IpAddr>,
    flags: CacheFlags,
    now: Instant,
    s: usize,
)
    requires
        m.wf(),
        0 <= i < n <= keys.len(),
        m.slot(s) matches Some(own) && cache::record_key(own) == keys[i],
    ensures
        cache::scan_keys(m, keys, n, name, addr, flags, now).slot(s) matches Some(own)
            ==> !cache::has_to_leave(own, name, addr, flags, now),
    decreases n,
{
    let before = cache::scan_keys(m, keys, (n - 1) as nat, name, addr, flags, now);
    lemma_keys_scanned(m, keys, (n - 1) as nat, name, addr, flags, now);
    cache::lemma_scanned(before, before.bucket(keys[n - 1]), name, addr, flags, now);
    let r = cache::scan_keys(m, keys, n, name, addr, flags, now);
    if r.slot(s) is Some {
        assert(before.slot(s) == r.slot(s));
        assert(before.slot(s) == m.slot(s));
        if i == n - 1 {
            assert(before.bucket(keys[n - 1]).contains(s));
        } else {
            lemma_key_is_scanned(m, keys, (n - 1) as nat, i, name, addr, flags, now, s);
        }
    }
}

/// After aliases were swept out, none that was meant leads to a name that no
/// record has. Records stay as they are or leave, and only such aliases leave.
pub proof fn law_no_dangling_alias_left(m: CacheModel, only: Option<Seq<char>>)
    requires
        m.wf(),
    ensures
        ({
            let n = cache::swept(m, m.records.len(), only);
            &&& n.wf()
            &&& forall|s: usize|
                (#[trigger] n.slot(s)) matches Some(own) ==> !cache::is_dangling(
                    n.records,
                    own,
                    only,
                )
            &&& forall|s: usize|
                (#[trigger] m.slot(s)) matches Some(own) && !(own.data is Cname) ==> n.slot(s)
                    == m.slot(s)
        }),
{
    lemma_used_slots(m.records, m.records.len());
    lemma_swept(m, m.records.len(), only);
    lemma_swept_out(m, m.records.len(), only);
    let n = cache::swept(m, m.records.len(), only);
    assert forall|s: usize| (#[trigger] n.slot(s)) matches Some(own) implies !cache::is_dangling(
        n.records,
        n.slot(s)->0,
        only,
    ) by {
        lemma_none_dangling(n.records, n.records.len(), only, s as int);
    }
}

proof fn lemma_swept(m: CacheModel, rounds: nat, only: Option<Seq<char>>)
    requires
        m.wf(),
    ensures
        ({
            let n = cache::swept(m, rounds, only);
            &&& n.wf()
            &&& forall|s: usize| (#[trigger] n.slot(s)) is None || n.slot(s) == m.slot(s)
            &&& forall|s: usize|
                (#[trigger] m.slot(s)) matches Some(own) && (cache::permanent(own) || !(
                own.data is Cname)) ==> n.slot(s) == m.slot(s)
        }),
    decreases rounds,
{
    if rounds > 0 {
        if let Some(id) = cache::dangling_slot(m.records, m.records.len(), only) {
            lemma_dangling(m.records, m.records.len(), only);
            let r = cache::removed(m, id);
            cache::lemma_removed_wf(m, id);
            lemma_swept(r, (rounds - 1) as nat, only);
            let n = cache::swept(m, rounds, only);
            assert forall|s: usize| (#[trigger] n.slot(s)) is None || n.slot(s) == m.slot(s) by {
                assert(n.slot(s) is None || n.slot(s) == r.slot(s));
            }
            assert forall|s: usize|
                (#[trigger] m.slot(s)) matches Some(own) && (cache::permanent(own) || !(
                own.data is Cname)) implies n.slot(s) == m.slot(s) by {
                assert(r.slot(s) == m.slot(s));
            }
        }
    }
}

proof fn lemma_dangling(records: Seq<Option<CacheRecord>>, n: nat, only: Option<Seq<char>>)
    requires
        n <= records.len() <= usize::MAX,
    ensures
        cache::dangling_slot(records, n, only) matches Some(id) ==> id < n && (
        records[id as int] matches Some(own) && cache::is_dangling(records, own, only)),
    decreases n,
{
    if n > 0 {
        lemma_dangling(records, (n - 1) as nat, only);
    }
}

proof fn lemma_none_dangling(
    records: Seq<Option<CacheRecord>>,
    n: nat,
    only: Option<Seq<char>>,
    i: int,
)
    requires
        cache::dangling_slot(records, n, only) is None,
        0 <= i < n,
    ensures
        records[i] matches Some(own) ==> !cache::is_dangling(records, own, only),
    decreases n,
{
    if i < n - 1 {
        lemma_none_dangling(records, (n - 1) as nat, only, i);
    }
}

proof fn lemma_swept_out(m: CacheModel, rounds: nat, only: Option<Seq<char>>)
    requires
        m.wf(),
        cache::used_slots(m.records, m.records.len()) <= rounds,
    ensures
        ({
            let n = cache::swept(m, rounds, only);
            cache::dangling_slot(n.records, n.records.len(), only) is None
        }),
    decreases rounds,
{
    lemma_dangling(m.records, m.records.len(), only);
    if let Some(id) = cache::dangling_slot(m.records, m.records.len(), only) {
        cache::lemma_removed_wf(m, id);
        lemma_one_less(m.records, m.records.len(), id as int);
        lemma_swept_out(cache::removed(m, id), (rounds - 1) as nat, only);
    }
}

proof fn lemma_one_less(records: Seq<Option<CacheRecord>>, n: nat, i: int)
    requires
        0 <= i < records.len(),
        n <= records.len(),
        records[i] is Some,
    ensures
        cache::used_slots(records, n) == cache::used_slots(records.update(i, None), n) + (if i
            < n {
            1int
        } else {
            0int
        }),
    decreases n,
{
    if n > 0 {
        lemma_one_less(records, (n - 1) as nat, i);
    }
}

/// What is kept of a record that comes in: all of it, but it lasts no shorter
/// than every record has to, and a key or a digest of a key no shorter than the
/// minute that these last at least.
pub proof fn law_record_lasts(config: CacheConfig, record: CacheRecord, now: Instant)
    ensures
        ({
            let kept = cache::settled(config, record, now);
            &&& kept.ttd >= record.ttd
            &&& config.min_cache_ttl > 0 ==> kept.ttd >= cache::after_seconds(
                now,
                config.min_cache_ttl,
            )
            &&& record.data is DnsKey || record.data is Ds ==> kept.ttd >= cache::after_seconds(
                now,
                DNSSEC_MIN_TTL,
            )
            &&& kept == (CacheRecord { ttd: kept.ttd, ttl: kept.ttl, ..record })
        }),
{
    let least = cache::least_ttl(config, record);
    assert(least >= config.min_cache_ttl);
}

/// A record that was just looked up is the last one to make room.
pub proof fn law_used_record_goes_last(
    m: CacheModel,
    name: Seq<char>,
    qtype: u16,
    now: Instant,
)
    requires
        m.wf(),
    ensures
        ({
            let n = cache::looked_up(m, name, qtype, now);
            cache::resolved(m, name, qtype, now, 0).0 matches Some(id) ==> {
                &&& n.lru[0] == id
                &&& cache::victim(n.records, n.lru) == Some(id) ==> forall|s: usize|
                    #[trigger] m.lru.contains(s) && s != id ==> (m.slot(s) matches Some(other)
                        && cache::permanent(other))
            }
        }),
{
    if let Some(id) = cache::resolved(m, name, qtype, now, 0).0 {
        let rest = cache::without(m.lru, id);
        cache::lemma_without(m.lru, id);
        lemma_victim_before(m.records, rest, id);
        cache::lemma_victim(m.records, rest);
        assert forall|s: usize| #[trigger] m.lru.contains(s) && s != id implies rest.contains(
            s,
        ) by {}
    }
}

proof fn lemma_victim_before(records: Seq<Option<CacheRecord>>, lru: Seq<usize>, id: usize)
    requires
        !lru.contains(id),
    ensures
        cache::victim(records, seq![id] + lru) == Some(id) ==> cache::victim(records, lru) is None,
    decreases lru.len(),
{
    if lru.len() > 0 {
        assert((seq![id] + lru).drop_last() =~= seq![id] + lru.drop_last());
        assert((seq![id] + lru).last() == lru.last());
        assert(lru[lru.len() - 1] == lru.last());
        assert(!lru.drop_last().contains(id)) by {
            if lru.drop_last().contains(id) {
                let i = choose|i: int| 0 <= i < lru.len() - 1 && lru.drop_last()[i] == id;
                assert(lru[i] == id);
            }
        }
        lemma_victim_before(records, lru.drop_last(), id);
    }
}

/// After the leases of a host were taken out, none of them is left, and every
/// other record is.
pub proof fn law_no_lease_left(m: CacheModel, hostname: Seq<char>)
    requires
        m.wf(),
    ensures
        ({
            let ids = cache::leases_of(m.records, m.records.len(), hostname);
            let n = cache::all_removed(m, ids, ids.len());
            &&& n.wf()
            &&& forall|s: usize|
                #[trigger] n.slot(s) == (if m.slot(s) matches Some(own) && is_lease(
                    own,
                    hostname,
                ) {
                    None
                } else {
                    m.slot(s)
                })
        }),
{
    let ids = cache::leases_of(m.records, m.records.len(), hostname);
    lemma_leases(m.records, m.records.len(), hostname);
    lemma_all_removed(m, ids, ids.len());
    assert(ids.take(ids.len() as int) =~= ids);
}

/// Whether a record is a lease of a host.
pub open spec fn is_lease(record: CacheRecord, hostname: Seq<char>) -> bool {
    record.flags.has(F_DHCP) && text::lower(record.name@) == text::lower(hostname)
}

proof fn lemma_leases(records: Seq<Option<CacheRecord>>, n: nat, hostname: Seq<char>)
    requires
        n <= records.len() <= usize::MAX,
    ensures
        forall|s: usize|
            #[trigger] cache::leases_of(records, n, hostname).contains(s) <==> s < n && (
            records[s as int] matches Some(own) && is_lease(own, hostname)),
    decreases n,
{
    if n > 0 {
        let before = cache::leases_of(records, (n - 1) as nat, hostname);
        lemma_leases(records, (n - 1) as nat, hostname);
        cache::lemma_pushed(before, (n - 1) as usize);
    }
}

proof fn lemma_all_removed(m: CacheModel, ids: Seq<usize>, n: nat)
    requires
        m.wf(),
        n <= ids.len(),
    ensures
        ({
            let r = cache::all_removed(m, ids, n);
            &&& r.wf()
            &&& forall|s: usize|
                #[trigger] r.slot(s) == (if ids.take(n as int).contains(s) {
                    None
                } else {
                    m.slot(s)
                })
        }),
    decreases n,
{
    if n > 0 {
        lemma_all_removed(m, ids, (n - 1) as nat);
        let before = cache::all_removed(m, ids, (n - 1) as nat);
        cache::lemma_removed_wf(before, ids[n - 1]);
        cache::lemma_pushed(ids.take(n - 1), ids[n - 1]);
        assert(ids.take(n as int) =~= ids.take(n - 1).push(ids[n - 1]));
    }
}

/// The hash of an ASCII name does not depend on the case of its letters.
pub proof fn law_hash_ignores_case(a: Seq<char>, b: Seq<char>)
    requires
        is_ascii_chars(a),
        is_ascii_chars(b),
        text::lower(a) == text::lower(b),
    ensures
        cache::name_hash(encode_utf8(a), text::utf8_len(a)) == cache::name_hash(
            encode_utf8(b),
            text::utf8_len(b),
        ),
{
    is_ascii_chars_encode_utf8(a);
    is_ascii_chars_encode_utf8(b);
    assert(text::lower(a).len() == a.len());
    assert(text::lower(b).len() == b.len());
    lemma_same_hash(a, b, a.len());
}

proof fn lemma_same_hash(a: Seq<char>, b: Seq<char>, n: nat)
    requires
        is_ascii_chars(a),
        is_ascii_chars(b),
        text::lower(a) == text::lower(b),
        n <= a.len() == b.len(),
    ensures
        cache::name_hash(encode_utf8(a), n) == cache::name_hash(encode_utf8(b), n),
    decreases n,
{
    if n > 0 {
        lemma_same_hash(a, b, (n - 1) as nat);
        is_ascii_chars_encode_utf8(a);
        is_ascii_chars_encode_utf8(b);
        let i = n - 1;
        assert(text::lower(a)[i] == text::lower_char(a[i]));
        assert(text::lower(b)[i] == text::lower_char(b[i]));
        assert(encode_utf8(a)[i] == a[i] as u8);
        assert(encode_utf8(b)[i] == b[i] as u8);
    }
}

// ---------------------------------------------------------------------------
// Which records leave
// ---------------------------------------------------------------------------

/// Records that came from a hosts file, a lease or the configuration, and those that
/// never expire, are permanent; all others are not.
pub proof fn law_permanent_flags(record: CacheRecord)
    ensures
        cache::permanent(record) <==> record.flags.bits & 0x1 != 0 || record.flags.bits & 0x40 != 0
            || record.flags.bits & 0x10 != 0 || record.flags.bits & 0x2000 != 0,
{
    let b = record.flags.bits;
    assert((b & 0x2051 != 0) == (b & 0x1 != 0 || b & 0x40 != 0 || b & 0x10 != 0 || b & 0x2000
        != 0)) by (bit_vector);
    assert((0x1u32 | 0x40 | 0x10 | 0x2000) == 0x2051) by (bit_vector);
}

/// A record that is not permanent has to leave before another exactly where it is out of
/// date, where the other is found by name and has its name, whatever the case, or where
/// the other is found by its address and it has that.
pub proof fn law_leaves_for_another(
    record: CacheRecord,
    name: Seq<char>,
    addr: Option<IpAddr>,
    flags: CacheFlags,
    now: Instant,
)
    requires
        !cache::permanent(record),
    ensures
        cache::has_to_leave(record, name, addr, flags, now) <==> {
            ||| now >= record.ttd
            ||| flags.bits & 0x8 == 0x8 && name.len() > 0 && text::lower(record.name@)
                == text::lower(name)
            ||| flags.bits & 0x4 == 0x4 && record.flags.bits & 0x4 == 0x4 && (addr matches Some(a)
                && record.data == CacheRecordData::Address(a))
        },
{
    law_permanent_flags(record);
    let b = record.flags.bits;
    assert((b & 0x1 == 0x1) == (b & 0x1 != 0)) by (bit_vector);
}

/// Room is made by the record that was not used for the longest time, of those that are
/// not permanent.
pub proof fn law_least_used_makes_room(records: Seq<Option<CacheRecord>>, lru: Seq<usize>)
    ensures
        match cache::victim(records, lru) {
            Some(id) => exists|k: int|
                0 <= k < lru.len() && #[trigger] lru[k] == id && !(cache::record_in(
                    records,
                    id,
                ) matches Some(own) && cache::permanent(own)) && forall|j: int|
                    k < j < lru.len() ==> (cache::record_in(records, #[trigger] lru[j]) matches Some(
                        own,
                    ) && cache::permanent(own)),
            None => forall|j: int|
                0 <= j < lru.len() ==> (cache::record_in(records, #[trigger] lru[j]) matches Some(
                    own,
                ) && cache::permanent(own)),
        },
    decreases lru.len(),
{
    if lru.len() > 0 {
        let front = lru.drop_last();
        let last = lru.len() - 1;
        if cache::record_in(records, lru[last]) matches Some(own) && cache::permanent(own) {
            law_least_used_makes_room(records, front);
            match cache::victim(records, front) {
                Some(id) => {
                    let k = choose|k: int|
                        0 <= k < front.len() && #[trigger] front[k] == id && !(cache::record_in(
                            records,
                            id,
                        ) matches Some(own) && cache::permanent(own)) && forall|j: int|
                            k < j < front.len() ==> (cache::record_in(
                                records,
                                #[trigger] front[j],
                            ) matches Some(own) && cache::permanent(own));
                    assert(lru[k] == id);
                    assert forall|j: int| k < j < lru.len() implies (cache::record_in(
                        records,
                        #[trigger] lru[j],
                    ) matches Some(own) && cache::permanent(own)) by {
                        if j < last {
                            assert(front[j] == lru[j]);
                        }
                    }
                },
                None => {
                    assert forall|j: int| 0 <= j < lru.len() implies (cache::record_in(
                        records,
                        #[trigger] lru[j],
                    ) matches Some(own) && cache::permanent(own)) by {
                        if j < last {
                            assert(front[j] == lru[j]);
                        }
                    }
                },
            }
        } else {
            assert(lru[last] == lru.last());
        }
    }
}

/// Nothing else leaves when a record comes in: a record whose question is another one
/// stays, unless no room is left and it is the one that makes it.
pub proof fn law_insert_takes_nothing_else(
    m: CacheModel,
    record: CacheRecord,
    id: usize,
    now: Instant,
)
    requires
        m.wf(),
        m.slot(id) matches Some(other) && !cache::has_to_leave(
            other,
            record.name@,
            None,
            record.flags,
            now,
        ),
        m.free.len() > 0 || m.records.len() < m.config.max_entries,
    ensures
        after_insert(m, record, now).slot(id) == m.slot(id),
        cache::inserted(m, record, now).1 matches Some(slot) && slot != id,
{
    let key = cache::record_key(record);
    let ids = m.bucket(key);
    let scanned = cache::scan_key(m, key, record.name@, None, record.flags, now);
    cache::lemma_scanned(m, ids, record.name@, None, record.flags, now);
    lemma_scan_keeps(m, ids, record.name@, record.flags, now, id);
    lemma_scan_frees(m, ids, record.name@, None, record.flags, now);
    let ready = cache::with_room(scanned)->0;
    assert(scanned.free.len() > 0 || scanned.records.len() < scanned.config.max_entries);
    assert(ready.slot(id) == m.slot(id));
    if ready.free.last() == id {
        if scanned.free.len() > 0 {
            assert(scanned.free.contains(id)) by {
                assert(scanned.free[scanned.free.len() - 1] == id);
            }
        }
    }
    let slot = ready.free.last();
    assert(slot < ready.records.len()) by {
        if scanned.free.len() > 0 {
            assert(scanned.free.contains(scanned.free[scanned.free.len() - 1]));
        }
    }
    let n = cache::stored(ready, cache::settled(m.config, record, now));
    assert(n.records[id as int] == ready.records[id as int]);
}

proof fn lemma_scan_keeps(
    m: CacheModel,
    ids: Seq<usize>,
    name: Seq<char>,
    flags: CacheFlags,
    now: Instant,
    id: usize,
)
    requires
        m.slot(id) matches Some(other) && !cache::has_to_leave(other, name, None, flags, now),
    ensures
        cache::scan_slots(m, ids, name, None, flags, now).slot(id) == m.slot(id),
    decreases ids.len(),
{
    if ids.len() > 0 {
        lemma_scan_keeps(m, ids.drop_last(), name, flags, now, id);
    }
}

proof fn lemma_scan_frees(
    m: CacheModel,
    ids: Seq<usize>,
    name: Seq<char>,
    addr: Option<IpAddr>,
    flags: CacheFlags,
    now: Instant,
)
    ensures
        cache::scan_slots(m, ids, name, addr, flags, now).free.len() >= m.free.len(),
    decreases ids.len(),
{
    if ids.len() > 0 {
        lemma_scan_frees(m, ids.drop_last(), name, addr, flags, now);
    }
}

/// Where the cache is full and nothing has to leave for a record, exactly the least used
/// one that is not permanent makes room, and the eviction is counted.
pub proof fn law_full_cache_drops_the_least_used(
    m: CacheModel,
    record: CacheRecord,
    id: usize,
    now: Instant,
)
    requires
        m.wf(),
        m.free.len() == 0,
        m.records.len() == m.config.max_entries,
        forall|s: usize|
            (#[trigger] m.slot(s)) matches Some(other) ==> !cache::has_to_leave(
                other,
                record.name@,
                None,
                record.flags,
                now,
            ),
        cache::victim(m.records, m.lru) == Some(id),
        m.stats.evictions_lru < u64::MAX,
    ensures
        ({
            let n = after_insert(m, record, now);
            &&& cache::inserted(m, record, now).1 == Some(id)
            &&& n.slot(id) == Some(cache::settled(m.config, record, now))
            &&& forall|s: usize| s != id ==> #[trigger] n.slot(s) == m.slot(s)
            &&& n.stats.evictions_lru == m.stats.evictions_lru + 1
            &&& n.lru[0] == id
        }),
{
    let key = cache::record_key(record);
    let ids = m.bucket(key);
    lemma_scan_changes_nothing(m, ids, record.name@, record.flags, now);
    cache::lemma_victim(m.records, m.lru);
    assert(m.lru.contains(id));
    let ready = cache::with_room(m)->0;
    assert(ready.free =~= seq![id]);
}

proof fn lemma_scan_changes_nothing(
    m: CacheModel,
    ids: Seq<usize>,
    name: Seq<char>,
    flags: CacheFlags,
    now: Instant,
)
    requires
        forall|s: usize|
            (#[trigger] m.slot(s)) matches Some(other) ==> !cache::has_to_leave(
                other,
                name,
                None,
                flags,
                now,
            ),
    ensures
        cache::scan_slots(m, ids, name, None, flags, now) == m,
    decreases ids.len(),
{
    if ids.len() > 0 {
        lemma_scan_changes_nothing(m, ids.drop_last(), name, flags, now);
    }
}

// ---------------------------------------------------------------------------
// Times
// ---------------------------------------------------------------------------

/// A time to live counts whole seconds up to the end of a record, and none once it is
/// reached; an end that many seconds away is as many seconds away.
pub proof fn law_seconds_left(end: Instant, now: Instant, seconds: u32)
    ensures
        end <= now ==> cache_types::seconds_left(end, now) == 0,
        end > now && end - now < 0x1_0000_0000 * 1_000_000_000 ==> ({
            let left = cache_types::seconds_left(end, now);
            left * 1_000_000_000 <= end - now < (left + 1) * 1_000_000_000
        }),
        now + seconds * 1_000_000_000 <= u64::MAX ==> cache::after_seconds(now, seconds as u64)
            == now + seconds * 1_000_000_000 && cache_types::seconds_left(
            cache::after_seconds(now, seconds as u64),
            now,
        ) == seconds,
{
    if end > now && end - now < 0x1_0000_0000 * 1_000_000_000 {
        let d = (end - now) as int;
        assert(d / 1_000_000_000 < 0x1_0000_0000);
        vstd::arithmetic::div_mod::lemma_small_mod(
            (d / 1_000_000_000) as nat,
            0x1_0000_0000,
        );
    }
    if now + seconds * 1_000_000_000 <= u64::MAX {
        let d = seconds * 1_000_000_000;
        assert(d / 1_000_000_000 == seconds);
        vstd::arithmetic::div_mod::lemma_small_mod(seconds as nat, 0x1_0000_0000);
    }
}

/// The end of a record moves only where it lies before the least time that it has to
/// last: 60 seconds for keys and digests, and what is configured for all.
pub proof fn law_record_lasts_no_longer(config: CacheConfig, record: CacheRecord, now: Instant)
    ensures
        ({
            let kept = cache::settled(config, record, now);
            let least = if record.data is DnsKey || record.data is Ds {
                if config.min_cache_ttl < 60 {
                    60
                } else {
                    config.min_cache_ttl
                }
            } else {
                config.min_cache_ttl
            };
            &&& kept.ttd != record.ttd ==> kept.ttd == cache::after_seconds(now, least)
                && record.ttd < kept.ttd && least > 0 && kept.ttl == cache_types::seconds_left(
                kept.ttd,
                now,
            )
            &&& kept.ttd == record.ttd ==> kept == record
        }),
{
}

/// A record is out of date exactly where it can expire and its end is reached.
pub proof fn law_out_of_date(record: CacheRecord, now: Instant)
    ensures
        cache_types::expired(record, now) <==> record.flags.bits & 0x1 == 0 && now >= record.ttd,
{
    let b = record.flags.bits;
    assert((b & 0x1 == 0x1) == (b & 0x1 != 0)) by (bit_vector);
}

// ---------------------------------------------------------------------------
// Searches
// ---------------------------------------------------------------------------

/// A search keeps, in the order of their places, all records that it asks for.
pub proof fn law_search_keeps_all(
    records: Seq<Option<CacheRecord>>,
    keep: spec_fn(CacheRecord) -> bool,
)
    ensures
        cache::kept_records(records, records.len(), keep) == records.filter(
            |r: Option<CacheRecord>| r is Some && keep(r->0),
        ).map_values(|r: Option<CacheRecord>| r->0),
{
    lemma_kept_by(records, records.len(), keep);
    assert(records.take(records.len() as int) =~= records);
}

proof fn lemma_kept_by(
    records: Seq<Option<CacheRecord>>,
    n: nat,
    keep: spec_fn(CacheRecord) -> bool,
)
    requires
        n <= records.len(),
    ensures
        cache::kept_records(records, n, keep) == records.take(n as int).filter(
            |r: Option<CacheRecord>| r is Some && keep(r->0),
        ).map_values(|r: Option<CacheRecord>| r->0),
    decreases n,
{
    reveal(Seq::filter);
    let f = |r: Option<CacheRecord>| r is Some && keep(r->0);
    let g = |r: Option<CacheRecord>| r->0;
    let part = records.take(n as int);
    if n > 0 {
        lemma_kept_by(records, (n - 1) as nat, keep);
        let front = records.take(n - 1);
        assert(part.drop_last() =~= front);
        assert(part.last() == records[n - 1]);
        if f(records[n - 1]) {
            assert(part.filter(f) == front.filter(f).push(records[n - 1]));
            assert(front.filter(f).push(records[n - 1]).map_values(g) =~= front.filter(
                f,
            ).map_values(g).push(records[n - 1]->0));
        }
        assert(cache::kept_records(records, n, keep) =~= part.filter(f).map_values(g));
    } else {
        assert(cache::kept_records(records, 0, keep) =~= part.filter(f).map_values(g));
    }
}

/// The answer to a question is the first record under it that is not out of date and
/// bears the name, whatever the case.
pub proof fn law_first_record_answers(
    records: Seq<Option<CacheRecord>>,
    ids: Seq<usize>,
    name: Seq<char>,
    now: Instant,
)
    ensures
        match cache::first_answer(records, ids, name, now) {
            Some(id) => exists|k: int|
                0 <= k < ids.len() && #[trigger] ids[k] == id && is_fresh(
                    records,
                    ids[k],
                    name,
                    now,
                ) && forall|j: int| 0 <= j < k ==> !is_fresh(records, #[trigger] ids[j], name, now),
            None => forall|j: int|
                0 <= j < ids.len() ==> !is_fresh(records, #[trigger] ids[j], name, now),
        },
    decreases ids.len(),
{
    if ids.len() > 0 {
        lemma_fresh(records, ids[0], name, now);
        if !is_fresh(records, ids[0], name, now) {
            let rest = ids.drop_first();
            law_first_record_answers(records, rest, name, now);
            match cache::first_answer(records, rest, name, now) {
                Some(id) => {
                    let k = choose|k: int|
                        0 <= k < rest.len() && #[trigger] rest[k] == id && is_fresh(
                            records,
                            rest[k],
                            name,
                            now,
                        ) && forall|j: int|
                            0 <= j < k ==> !is_fresh(records, #[trigger] rest[j], name, now);
                    assert(ids[k + 1] == id);
                    assert forall|j: int| 0 <= j < k + 1 implies !is_fresh(
                        records,
                        #[trigger] ids[j],
                        name,
                        now,
                    ) by {
                        if j > 0 {
                            assert(rest[j - 1] == ids[j]);
                        }
                    }
                },
                None => {
                    assert forall|j: int| 0 <= j < ids.len() implies !is_fresh(
                        records,
                        #[trigger] ids[j],
                        name,
                        now,
                    ) by {
                        if j > 0 {
                            assert(rest[j - 1] == ids[j]);
                        }
                    }
                },
            }
        }
    }
}

/// Whether a place holds a record of a name that is not out of date.
pub open spec fn is_fresh(
    records: Seq<Option<CacheRecord>>,
    id: usize,
    name: Seq<char>,
    now: Instant,
) -> bool {
    &&& id < records.len()
    &&& records[id as int] matches Some(own) && (own.flags.bits & 0x1 != 0 || now < own.ttd)
        && text::lower(own.name@) == text::lower(name)
}

proof fn lemma_fresh(
    records: Seq<Option<CacheRecord>>,
    id: usize,
    name: Seq<char>,
    now: Instant,
)
    ensures
        is_fresh(records, id, name, now) <==> (cache::record_in(records, id) matches Some(own)
            && cache::answers(own, name, now)),
{
    if id < records.len() {
        if let Some(own) = records[id as int] {
            law_out_of_date(own, now);
        }
    }
}

/// An alias dangles where it is not permanent, no record of the cache bears the name
/// that it leads to, and it bears the name that is looked for, if there is one.
pub proof fn law_dangling_alias(
    records: Seq<Option<CacheRecord>>,
    record: CacheRecord,
    only: Option<Seq<char>>,
)
    ensures
        cache::is_dangling(records, record, only) <==> {
            &&& !cache::permanent(record)
            &&& record.data matches CacheRecordData::Cname(target) && forall|i: int|
                0 <= i < records.len() ==> ((#[trigger] records[i]) matches Some(other)
                    ==> text::lower(other.name@) != text::lower(target@))
            &&& only matches Some(name) ==> text::lowercase(record.name@) == text::lowercase(name)
        },
{
}

/// The slots that are used are counted, each once.
pub proof fn law_used_slots(records: Seq<Option<CacheRecord>>)
    ensures
        cache::used_slots(records, records.len()) == records.filter(
            |r: Option<CacheRecord>| r is Some,
        ).len(),
{
    lemma_used_by(records, records.len());
    assert(records.take(records.len() as int) =~= records);
}

proof fn lemma_used_by(records: Seq<Option<CacheRecord>>, n: nat)
    requires
        n <= records.len(),
    ensures
        cache::used_slots(records, n) == records.take(n as int).filter(
            |r: Option<CacheRecord>| r is Some,
        ).len(),
    decreases n,
{
    reveal(Seq::filter);
    if n > 0 {
        lemma_used_by(records, (n - 1) as nat);
        assert(records.take(n as int).drop_last() =~= records.take(n - 1));
        assert(records.take(n as int).last() == records[n - 1]);
    }
}

/// A scan for a name lets go whatever has to leave of all records of the name, whatever
/// their type, that the cache can hold with data.
pub proof fn law_name_is_scanned(
    m: CacheModel,
    name: Seq<char>,
    addr: Option<IpAddr>,
    flags: CacheFlags,
    now: Instant,
)
    requires
        m.wf(),
    ensures
        ({
            let n = cache::scan_keys(m, cache::keys_of_name(name), 12, name, addr, flags, now);
            forall|s: usize|
                (#[trigger] n.slot(s)) matches Some(own) ==> {
                    let t = cache_types::rr_type_of(own.data);
                    text::lowercase(own.name@) == text::lowercase(name) && (t == 1 || t == 5 || t
                        == 28 || t == 33 || t == 43 || t == 48) ==> !cache::has_to_leave(
                        own,
                        name,
                        addr,
                        flags,
                        now,
                    )
                }
        }),
{
    let keys = cache::keys_of_name(name);
    let n = cache::scan_keys(m, keys, 12, name, addr, flags, now);
    lemma_scanned_by_key(m, keys, 12, name, addr, flags, now);
    assert forall|s: usize| (#[trigger] n.slot(s)) matches Some(own) implies {
        let own = n.slot(s)->0;
        let t = cache_types::rr_type_of(own.data);
        text::lowercase(own.name@) == text::lowercase(name) && (t == 1 || t == 5 || t == 28 || t
            == 33 || t == 43 || t == 48) ==> !cache::has_to_leave(own, name, addr, flags, now)
    } by {
        let own = n.slot(s)->0;
        let t = cache_types::rr_type_of(own.data);
        let types = cache::scanned_types();
        assert(types[0] == 1 && types[2] == 5 && types[7] == 28 && types[8] == 33 && types[9] == 43
            && types[11] == 48);
        if text::lowercase(own.name@) == text::lowercase(name) {
            if t == 1 {
                assert(keys[0] == cache::record_key(own));
            } else if t == 5 {
                assert(keys[2] == cache::record_key(own));
            } else if t == 28 {
                assert(keys[7] == cache::record_key(own));
            } else if t == 33 {
                assert(keys[8] == cache::record_key(own));
            } else if t == 43 {
                assert(keys[9] == cache::record_key(own));
            } else if t == 48 {
                assert(keys[11] == cache::record_key(own));
            }
        }
    }
}

proof fn lemma_scanned_by_key(
    m: CacheModel,
    keys: Seq<(Seq<char>, u16)>,
    n: nat,
    name: Seq<char>,
    addr: Option<IpAddr>,
    flags: CacheFlags,
    now: Instant,
)
    requires
        m.wf(),
    ensures
        ({
            let r = cache::scan_keys(m, keys, n, name, addr, flags, now);
            forall|s: usize, j: int|
                #![trigger r.slot(s), keys[j]]
                0 <= j < n ==> (r.slot(s) matches Some(own) ==> (cache::record_key(own) == keys[j]
                    ==> !cache::has_to_leave(own, name, addr, flags, now)))
        }),
    decreases n,
{
    if n > 0 {
        let before = cache::scan_keys(m, keys, (n - 1) as nat, name, addr, flags, now);
        let r = cache::scan_keys(m, keys, n, name, addr, flags, now);
        lemma_scanned_by_key(m, keys, (n - 1) as nat, name, addr, flags, now);
        lemma_keys_scanned(m, keys, (n - 1) as nat, name, addr, flags, now);
        let ids = before.bucket(keys[n - 1]);
        cache::lemma_scanned(before, ids, name, addr, flags, now);
        assert forall|s: usize, j: int|
            #![trigger r.slot(s), keys[j]]
            0 <= j < n implies (r.slot(s) matches Some(own) ==> (cache::record_key(own) == keys[j]
            ==> !cache::has_to_leave(own, name, addr, flags, now))) by {
            if let Some(own) = r.slot(s) {
                assert(r.slot(s) == before.slot(s));
                if j == n - 1 && cache::record_key(own) == keys[j] {
                    assert(before.slot(s) is Some);
                    assert(ids.contains(s));
                }
            }
        }
    }
}

/// Whether a place holds an alias of a name that is not out of date and is marked as one.
pub open spec fn is_fresh_alias(
    records: Seq<Option<CacheRecord>>,
    id: usize,
    name: Seq<char>,
    now: Instant,
) -> bool {
    &&& is_fresh(records, id, name, now)
    &&& records[id as int]->0.flags.bits & 0x800 == 0x800
    &&& records[id as int]->0.data is Cname
}

/// A name stands for what the first alias of it says that is not out of date, and for
/// itself where there is none.
pub proof fn law_first_alias_is_followed(
    records: Seq<Option<CacheRecord>>,
    ids: Seq<usize>,
    name: Seq<char>,
    now: Instant,
)
    ensures
        match cache::alias_in(records, ids, name, now) {
            Some(target) => exists|k: int|
                0 <= k < ids.len() && is_fresh_alias(records, #[trigger] ids[k], name, now)
                    && records[ids[k] as int]->0.data->Cname_0@ == target && forall|j: int|
                    0 <= j < k ==> !is_fresh_alias(records, #[trigger] ids[j], name, now),
            None => forall|j: int|
                0 <= j < ids.len() ==> !is_fresh_alias(records, #[trigger] ids[j], name, now),
        },
    decreases ids.len(),
{
    if ids.len() > 0 {
        lemma_fresh(records, ids[0], name, now);
        if !is_fresh_alias(records, ids[0], name, now) {
            let rest = ids.drop_first();
            law_first_alias_is_followed(records, rest, name, now);
            match cache::alias_in(records, rest, name, now) {
                Some(target) => {
                    let k = choose|k: int|
                        0 <= k < rest.len() && is_fresh_alias(
                            records,
                            #[trigger] rest[k],
                            name,
                            now,
                        ) && records[rest[k] as int]->0.data->Cname_0@ == target && forall|j: int|
                            0 <= j < k ==> !is_fresh_alias(records, #[trigger] rest[j], name, now);
                    assert(ids[k + 1] == rest[k]);
                    assert forall|j: int| 0 <= j < k + 1 implies !is_fresh_alias(
                        records,
                        #[trigger] ids[j],
                        name,
                        now,
                    ) by {
                        if j > 0 {
                            assert(rest[j - 1] == ids[j]);
                        }
                    }
                },
                None => {
                    assert forall|j: int| 0 <= j < ids.len() implies !is_fresh_alias(
                        records,
                        #[trigger] ids[j],
                        name,
                        now,
                    ) by {
                        if j > 0 {
                            assert(rest[j - 1] == ids[j]);
                        }
                    }
                },
            }
        }
    }
}

/// A record that is let go is counted as expired exactly where it is out of date, and its
/// slot is empty then; the aliases that a search followed are counted.
pub proof fn law_expired_records_are_counted(
    m: CacheModel,
    id: usize,
    name: Seq<char>,
    qtype: u16,
    now: Instant,
)
    requires
        m.wf(),
        m.slot(id) is Some,
        m.stats.evictions_ttl < u64::MAX,
        m.stats.cname_chains + 10 <= u64::MAX,
    ensures
        cache::freed(m, id, now).slot(id) is None,
        cache::freed(m, id, now).stats.evictions_ttl == m.stats.evictions_ttl + if (
        m.slot(id)->0).flags.bits & 0x1 == 0 && now >= (m.slot(id)->0).ttd {
            1int
        } else {
            0
        },
        forall|s: usize| s != id ==> #[trigger] cache::freed(m, id, now).slot(s) == m.slot(s),
        cache::looked_up(m, name, qtype, now).stats.cname_chains == m.stats.cname_chains
            + cache::resolved(m, name, qtype, now, 0).1,
{
    law_out_of_date(m.slot(id)->0, now);
    law_lookup_gives_what_is_asked_for(m, name, qtype, now);
}

/// The hash of a name turns five bits to the left for each byte, mixes the byte in, and
/// adds or takes it away again by a pattern that repeats after eleven bytes.
pub proof fn law_hash_of_a_name(bytes: Seq<u8>, n: nat)
    requires
        n < bytes.len(),
    ensures
        cache::name_hash(bytes, 0) == 0,
        ({
            let h = cache::name_hash(bytes, n);
            let b = bytes[n as int];
            let c: u32 = if 65 <= b <= 90 {
                (b + 32) as u32
            } else {
                b as u32
            };
            let mixed = ((h << 5) | (h >> 27)) ^ c;
            let k = n as int % 11;
            cache::name_hash(bytes, n + 1) == if k == 0 || k == 2 || k == 4 || k == 5 || k == 7 || k
                == 8 {
                mixed.wrapping_add(c)
            } else {
                mixed.wrapping_sub(c)
            }
        }),
{
}

} // verus!
