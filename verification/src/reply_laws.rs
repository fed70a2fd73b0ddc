//! What holds of what the cache keeps of a reply and answers from it.

use crate::addr::IpAddr;
use crate::answer;
use crate::cache_laws;
use crate::cache_types::{self, CacheRecord, CacheRecordData, Instant};
use crate::compression;
use crate::dnssec::canonical::{self, RecordModel};
use crate::dnssec::rrsets;
use crate::dnssec::types;
use crate::dnssec::validator::{self, ValidationFault};
use crate::reply;
use crate::text;
use crate::wire;
use vstd::prelude::*;

verus! {

// ---------------------------------------------------------------------------
// What is kept of a reply
// ---------------------------------------------------------------------------

/// Whether a record can be kept: it is of the Internet, of a type that the cache knows,
/// and its data has the length, or holds the name, that belongs to the type.
pub open spec fn can_be_kept(record: RecordModel) -> bool {
    &&& record.class == 1
    &&& {
        ||| record.rtype == 1 && record.rdata.len() == 4
        ||| record.rtype == 28 && record.rdata.len() == 16
        ||| record.rtype == 5 && reply::name_in(record.rdata, 0) is Some
        ||| record.rtype == 33 && record.rdata.len() >= 6 && reply::name_in(record.rdata, 6)
            is Some
        ||| record.rtype == 48 && 4 <= record.rdata.len() <= 65535
        ||| record.rtype == 43 && record.rdata.len() >= 4
    }
}

/// All records of a reply that can be kept are, in their order.
pub proof fn law_records_that_are_kept(records: Seq<RecordModel>)
    ensures
        reply::cacheable(records, records.len()) == records.filter(
            |r: RecordModel| can_be_kept(r),
        ),
{
    lemma_cacheable(records, records.len());
    assert(records.take(records.len() as int) =~= records);
}

proof fn lemma_cacheable(records: Seq<RecordModel>, n: nat)
    requires
        n <= records.len(),
    ensures
        reply::cacheable(records, n) == records.take(n as int).filter(
            |r: RecordModel| can_be_kept(r),
        ),
    decreases n,
{
    reveal(Seq::filter);
    if n > 0 {
        lemma_cacheable(records, (n - 1) as nat);
        assert(records.take(n as int).drop_last() =~= records.take(n - 1));
        assert(records.take(n as int).last() == records[n - 1]);
    }
}

/// A reply that was cut short, or that is no message, is not kept at all.
pub proof fn law_truncated_reply_is_not_kept(packet: Seq<u8>)
    ensures
        packet.len() < 12 || packet[2] & 0x02 != 0 ==> reply::reply_records(packet).len() == 0,
{
    let b = packet[2];
    assert((b & 0x02 != 0) == (b / 2 % 2 == 1)) by (bit_vector);
}

/// The record that is kept bears the name, the type and the end of the one in the
/// reply, and is marked as one that came from a server, with the flag of its type; the
/// first of a name and type can displace others of the name.
pub proof fn law_kept_record(made: CacheRecord, record: RecordModel, first: bool, now: Instant)
    requires
        reply::is_made_of(made, record, first, now),
        can_be_kept(record),
        now + record.ttl * 1_000_000_000 <= u64::MAX,
    ensures
        made.name@ == record.name,
        made.rr_type == record.rtype,
        made.class == 1,
        made.ttd == now + record.ttl * 1_000_000_000,
        made.ttl == record.ttl,
        made.flags.bits & 0x10000 != 0,
        made.flags.bits & 0x8 != 0 <==> first,
        record.rtype == 1 ==> made.flags.bits & 0x80 != 0,
        record.rtype == 28 ==> made.flags.bits & 0x100 != 0,
        record.rtype == 5 ==> made.flags.bits & 0x800 != 0,
        record.rtype == 33 ==> made.flags.bits & 0x40000000 != 0,
        record.rtype == 48 ==> made.flags.bits & 0x1000 != 0,
        record.rtype == 43 ==> made.flags.bits & 0x4000 != 0,
        made.flags.bits & 0xa001 == 0,
{
    cache_laws::law_seconds_left(now, now, record.ttl);
    assert(0x10080u32 & 0x10000 != 0 && 0x10080u32 & 0x8 == 0 && 0x10080u32 & 0x80 != 0 && 0x10080u32
        & 0xa001 == 0 && 0x10088u32 & 0x10000 != 0 && 0x10088u32 & 0x8 != 0 && 0x10088u32 & 0x80 != 0
        && 0x10088u32 & 0xa001 == 0 && 0x10100u32 & 0x10000 != 0 && 0x10100u32 & 0x8 == 0
        && 0x10100u32 & 0x100 != 0 && 0x10100u32 & 0xa001 == 0 && 0x10108u32 & 0x10000 != 0
        && 0x10108u32 & 0x8 != 0 && 0x10108u32 & 0x100 != 0 && 0x10108u32 & 0xa001 == 0) by (
    bit_vector);
    assert(0x10800u32 & 0x10000 != 0 && 0x10800u32 & 0x8 == 0 && 0x10800u32 & 0x800 != 0
        && 0x10800u32 & 0xa001 == 0 && 0x10808u32 & 0x10000 != 0 && 0x10808u32 & 0x8 != 0
        && 0x10808u32 & 0x800 != 0 && 0x10808u32 & 0xa001 == 0 && 0x40010000u32 & 0x10000 != 0
        && 0x40010000u32 & 0x8 == 0 && 0x40010000u32 & 0x40000000 != 0 && 0x40010000u32 & 0xa001
        == 0 && 0x40010008u32 & 0x10000 != 0 && 0x40010008u32 & 0x8 != 0 && 0x40010008u32
        & 0x40000000 != 0 && 0x40010008u32 & 0xa001 == 0) by (bit_vector);
    assert(0x11000u32 & 0x10000 != 0 && 0x11000u32 & 0x8 == 0 && 0x11000u32 & 0x1000 != 0
        && 0x11000u32 & 0xa001 == 0 && 0x11008u32 & 0x10000 != 0 && 0x11008u32 & 0x8 != 0
        && 0x11008u32 & 0x1000 != 0 && 0x11008u32 & 0xa001 == 0 && 0x14000u32 & 0x10000 != 0
        && 0x14000u32 & 0x8 == 0 && 0x14000u32 & 0x4000 != 0 && 0x14000u32 & 0xa001 == 0
        && 0x14008u32 & 0x10000 != 0 && 0x14008u32 & 0x8 != 0 && 0x14008u32 & 0x4000 != 0
        && 0x14008u32 & 0xa001 == 0) by (bit_vector);
}

/// What is kept of the data of an address, a key or a digest, and is answered from the
/// cache later, is that data again; of a key the protocol is that of DNSSEC.
pub proof fn law_kept_data_is_given_back(data: CacheRecordData, record: RecordModel)
    requires
        reply::says(data, record),
        data is Address || data is DnsKey || data is Ds,
        data is DnsKey || data is Ds ==> record.rdata.len() >= 4,
    ensures
        data is Address || data is Ds ==> answer::record_data(data) == record.rdata,
        data is DnsKey ==> answer::record_data(data) == record.rdata.update(2, 3),
{
    let rdata = record.rdata;
    match data {
        CacheRecordData::DnsKey(key) => {
            lemma_be16_again(rdata, 0);
            assert(answer::record_data(data) =~= rdata.update(2, 3));
        },
        CacheRecordData::Ds(ds) => {
            lemma_be16_again(rdata, 0);
            assert(answer::record_data(data) =~= rdata);
        },
        _ => {},
    }
}

proof fn lemma_be16_again(s: Seq<u8>, i: int)
    requires
        0 <= i,
        i + 1 < s.len(),
    ensures
        wire::be16_bytes(wire::be16(s, i)) == seq![s[i], s[i + 1]],
{
    let (a, b) = (s[i], s[i + 1]);
    assert(((a * 256 + b) as u16) / 256 == a as u16);
    assert(((a * 256 + b) as u16) % 256 == b as u16);
    assert(wire::be16_bytes(wire::be16(s, i)) =~= seq![a, b]);
}

// ---------------------------------------------------------------------------
// What is answered from the cache
// ---------------------------------------------------------------------------

/// Whether a record says that there is nothing.
pub open spec fn says_nothing(record: CacheRecord) -> bool {
    record.flags.bits & 0x20 != 0 || record.flags.bits & 0x400 != 0 || record.data is Negative
        || record.data is NxDomain || record.data is NoData
}

proof fn lemma_says_nothing(record: CacheRecord)
    ensures
        answer::is_negative(record) == says_nothing(record),
{
    let b = record.flags.bits;
    assert((b & 0x420 != 0) == (b & 0x20 != 0 || b & 0x400 != 0)) by (bit_vector);
    assert((0x20u32 | 0x400) == 0x420) by (bit_vector);
}

/// The header of an answer bears the number of the query, says that it is an answer and
/// that recursion is available, repeats whether it was wished for, and counts one
/// question and the records.
pub proof fn law_header_of_an_answer(packet: Seq<u8>, record: CacheRecord, now: Instant)
    ensures
        answer::answer_of(packet, record, now) matches Some(a) ==> {
            &&& a.len() >= 12
            &&& a[0] == packet[0]
            &&& a[1] == packet[1]
            &&& a[2] & 0x80 != 0
            &&& a[2] & 0x7E == 0
            &&& a[2] & 0x01 == packet[2] & 0x01
            &&& a[3] & 0x80 != 0
            &&& a[3] & 0x70 == 0
            &&& a[3] & 0x0F == if record.flags.bits & 0x400 != 0 || record.data is NxDomain {
                3u8
            } else {
                0u8
            }
            &&& wire::be16(a, 4) == 1
            &&& wire::be16(a, 6) == if says_nothing(record) {
                0u16
            } else {
                1u16
            }
            &&& wire::be16(a, 8) == 0
            &&& wire::be16(a, 10) == 0
        },
{
    lemma_says_nothing(record);
    let b = record.flags.bits;
    assert((b & 0x400 == 0x400) == (b & 0x400 != 0)) by (bit_vector);
    let q = packet[2];
    let f = (128 + q % 2) as u8;
    assert(f & 0x80 != 0 && f & 0x7E == 0 && f & 0x01 == q & 0x01) by (bit_vector)
        requires
            f == 128 + q % 2,
    ;
    assert(128u8 & 0x80 != 0 && 128u8 & 0x70 == 0 && 128u8 & 0x0F == 0 && 131u8 & 0x80 != 0 && 131u8
        & 0x70 == 0 && 131u8 & 0x0F == 3) by (bit_vector);
}

/// Behind the question of the query an answer holds one record: a pointer to the name,
/// the type of the record's data, the Internet class, the seconds that are left of it,
/// and its data with its length.
pub proof fn law_record_of_an_answer(packet: Seq<u8>, record: CacheRecord, now: Instant, zero: int)
    requires
        compression::labels_end(packet, 12) == Some(zero),
        answer::answer_of(packet, record, now) is Some,
        !says_nothing(record),
    ensures
        ({
            let a = answer::answer_of(packet, record, now)->0;
            let data = answer::record_data(record.data);
            let p = zero + 5;
            &&& a.len() == p + 12 + data.len()
            &&& a.subrange(12, p) == packet.subrange(12, p)
            &&& wire::be16(a, p) == 0xC00C
            &&& wire::be16(a, p + 2) == cache_types::rr_type_of(record.data)
            &&& wire::be16(a, p + 4) == 1
            &&& wire::be32(a, p + 6) == if record.flags.bits & 0x1 != 0 {
                record.ttl
            } else {
                cache_types::seconds_left(record.ttd, now)
            }
            &&& wire::be16(a, p + 10) == data.len()
            &&& a.skip(p + 12) == data
        }),
{
    lemma_says_nothing(record);
    lemma_labels_end(packet, 12);
    let b = record.flags.bits;
    assert((b & 0x1 == 0x1) == (b & 0x1 != 0)) by (bit_vector);
    let a = answer::answer_of(packet, record, now)->0;
    let data = answer::record_data(record.data);
    let p = zero + 5;
    let ttl = answer::answer_ttl(record, now);
    let rtype = cache_types::rr_type_of(record.data);
    wire::law_u16_round_trip(rtype);
    wire::law_u16_round_trip(1);
    wire::law_u16_round_trip(data.len() as u16);
    wire::law_u32_round_trip(ttl);
    let r = answer::answer_record(record, now);
    assert(a.len() == p + r.len());
    assert(forall|k: int| 0 <= k < r.len() ==> #[trigger] r[k] == a[p + k]);
    assert(a[p] == r[0] && a[p + 1] == r[1]);
    assert(r[0] == 0xC0 && r[1] == 0x0C);
    assert(a[p + 2] == wire::be16_bytes(rtype)[0] && a[p + 3] == wire::be16_bytes(rtype)[1]);
    assert(a[p + 4] == wire::be16_bytes(1)[0] && a[p + 5] == wire::be16_bytes(1)[1]);
    assert(a[p + 6] == wire::be32_bytes(ttl)[0] && a[p + 7] == wire::be32_bytes(ttl)[1] && a[p + 8]
        == wire::be32_bytes(ttl)[2] && a[p + 9] == wire::be32_bytes(ttl)[3]);
    assert(a[p + 10] == wire::be16_bytes(data.len() as u16)[0] && a[p + 11] == wire::be16_bytes(
        data.len() as u16,
    )[1]);
    assert(a.subrange(12, p) =~= packet.subrange(12, p));
    assert(a.skip(p + 12) =~= data);
}

proof fn lemma_labels_end(packet: Seq<u8>, pos: int)
    requires
        0 <= pos,
    ensures
        compression::labels_end(packet, pos) matches Some(zero) ==> pos <= zero < packet.len(),
    decreases packet.len() - pos,
{
    if pos < packet.len() && packet[pos] != 0 && packet[pos] < 0x40 && pos + 1 + packet[pos]
        < packet.len() {
        lemma_labels_end(packet, pos + 1 + packet[pos]);
    }
}

/// The type of a record is that of its data.
pub proof fn law_type_of_data(data: CacheRecordData)
    ensures
        data matches CacheRecordData::Address(IpAddr::V4(_)) ==> cache_types::rr_type_of(data) == 1,
        data matches CacheRecordData::Address(IpAddr::V6(_)) ==> cache_types::rr_type_of(data)
            == 28,
        data is Cname || data is CName ==> cache_types::rr_type_of(data) == 5,
        data is Srv ==> cache_types::rr_type_of(data) == 33,
        data is DnsKey ==> cache_types::rr_type_of(data) == 48,
        data is Ds ==> cache_types::rr_type_of(data) == 43,
{
}

/// The data of a service stands in an answer as its priority, its weight, its port and
/// its name; that of an alias is its name.
pub proof fn law_data_of_an_answer(data: CacheRecordData)
    ensures
        data matches CacheRecordData::Srv(srv) ==> {
            let w = answer::record_data(data);
            &&& wire::be16(w, 0) == srv.spec_priority()
            &&& wire::be16(w, 2) == srv.spec_weight()
            &&& wire::be16(w, 4) == srv.spec_port()
            &&& w.skip(6) == canonical::wire_name(srv.spec_target())
        },
        data matches CacheRecordData::Cname(target) ==> answer::record_data(data)
            == types::name_wire(target@),
        data matches CacheRecordData::CName(target) ==> answer::record_data(data)
            == types::name_wire(target@),
{
    if let CacheRecordData::Srv(srv) = data {
        let w = answer::record_data(data);
        let (x, y, z) = (srv.spec_priority(), srv.spec_weight(), srv.spec_port());
        wire::law_u16_round_trip(x);
        wire::law_u16_round_trip(y);
        wire::law_u16_round_trip(z);
        assert(w[0] == wire::be16_bytes(x)[0] && w[1] == wire::be16_bytes(x)[1]);
        assert(w[2] == wire::be16_bytes(y)[0] && w[3] == wire::be16_bytes(y)[1]);
        assert(w[4] == wire::be16_bytes(z)[0] && w[5] == wire::be16_bytes(z)[1]);
        assert(w.skip(6) =~= canonical::wire_name(srv.spec_target()));
    }
}

/// Only a question for the Internet class whose name is written without pointers is
/// answered from the cache.
pub proof fn law_only_plain_questions_are_answered(
    packet: Seq<u8>,
    record: CacheRecord,
    now: Instant,
)
    ensures
        answer::answer_of(packet, record, now) is Some ==> (compression::labels_end(
            packet,
            12,
        ) matches Some(zero) && zero + 5 <= packet.len() && packet[zero + 3] == 0 && packet[zero
            + 4] == 1),
        compression::labels_end(packet, 12) matches Some(zero) && zero + 5 <= packet.len()
            && packet[zero + 3] == 0 && packet[zero + 4] == 1 && answer::record_data(
            record.data,
        ).len() <= 65535 ==> answer::answer_of(packet, record, now) is Some,
{
    if let Some(zero) = compression::labels_end(packet, 12) {
        let (a, b) = (packet[zero + 3], packet[zero + 4]);
        assert(a * 256 + b == 1 <==> a == 0 && b == 1);
    }
}

/// A record is the first of its kind in a reply where none before it has its type and
/// its name in lower case.
pub proof fn law_first_of_its_kind(records: Seq<RecordModel>, i: int)
    ensures
        reply::is_first(records, i) <==> forall|j: int|
            0 <= j < i ==> (#[trigger] records[j]).rtype != records[i].rtype || text::lowercase(
                records[j].name,
            ) != text::lowercase(records[i].name),
{
}

/// What is kept of a reply that was not cut short is of its answer section alone, which
/// is read behind its questions.
pub proof fn law_records_of_a_reply(packet: Seq<u8>, start: int)
    requires
        packet.len() >= 12,
        packet[2] & 0x02 == 0,
        validator::reply_questions(packet, 12, (packet[4] * 256 + packet[5]) as nat) == Ok::<
            int,
            ValidationFault,
        >(start),
    ensures
        reply::reply_records(packet) == rrsets::section_records(
            packet,
            start,
            (packet[6] * 256 + packet[7]) as nat,
            Seq::empty(),
        ).filter(|r: RecordModel| can_be_kept(r)),
{
    let b = packet[2];
    assert((b & 0x02 == 0) == (b / 2 % 2 == 0)) by (bit_vector);
    law_records_that_are_kept(validator::answers_of(packet, start));
}

/// A name that was written into data is read from it again.
pub proof fn law_name_in_data(name: Seq<char>, front: Seq<u8>, tail: Seq<u8>)
    requires
        types::is_plain_name(name),
    ensures
        reply::name_in(front + types::name_wire(name) + tail, front.len() as int) == Some(name),
{
    types::lemma_name_read_back(name, front, tail);
}

} // verus!
