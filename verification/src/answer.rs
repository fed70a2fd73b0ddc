//! Answers made of records that are in the cache.

use crate::addr::IpAddr;
use crate::cache_types::{
    self, seconds_until, CacheFlags, CacheRecord, CacheRecordData, Instant, F_NEG, F_NXDOMAIN,
};
use crate::compression::{self, find_labels_end};
use crate::dnssec::canonical::{self, to_wire};
use crate::dnssec::types::{self, push_name};
use crate::parser;
use crate::parser_laws;
use crate::protocol::{C_IN, HEADER_LEN};
use crate::wire::{self, push_bytes, push_u16, push_u32, read_u16};
use vstd::prelude::*;

verus! {

/// Whether a record says that something does not exist.
pub open spec fn is_negative(record: CacheRecord) -> bool {
    record.flags.meets(F_NEG | F_NXDOMAIN) || record.data is Negative || record.data is NxDomain
        || record.data is NoData
}

/// The code of the answer: three where there is no such name.
pub open spec fn answer_code(record: CacheRecord) -> u8 {
    if record.flags.has(F_NXDOMAIN) || record.data is NxDomain {
        3
    } else {
        0
    }
}

/// The data of a record as it stands in a message.
pub open spec fn record_data(data: CacheRecordData) -> Seq<u8> {
    match data {
        CacheRecordData::Address(IpAddr::V4(a)) => a.bytes(),
        CacheRecordData::Address(IpAddr::V6(a)) => a.bytes(),
        CacheRecordData::Cname(target) => types::name_wire(target@),
        CacheRecordData::CName(target) => types::name_wire(target@),
        CacheRecordData::Srv(srv) => wire::be16_bytes(srv.spec_priority()) + wire::be16_bytes(
            srv.spec_weight(),
        ) + wire::be16_bytes(srv.spec_port()) + canonical::wire_name(srv.spec_target()),
        CacheRecordData::DnsKey(key) => wire::be16_bytes(key.spec_flags()) + seq![
            3u8,
            key.spec_algorithm(),
        ] + key.spec_keydata(),
        CacheRecordData::Ds(ds) => wire::be16_bytes(ds.spec_keytag()) + seq![
            ds.spec_algorithm(),
            ds.spec_digest_type(),
        ] + ds.spec_keydata(),
        _ => Seq::empty(),
    }
}

/// Seconds that a record is still true. An immortal one lasts as long as when it
/// was made.
pub open spec fn answer_ttl(record: CacheRecord, now: Instant) -> u32 {
    if record.flags.has(CacheFlags::IMMORTAL) {
        record.ttl
    } else {
        cache_types::seconds_left(record.ttd, now)
    }
}

/// A record as it stands in an answer, under the name that was asked for.
pub open spec fn answer_record(record: CacheRecord, now: Instant) -> Seq<u8> {
    compression::pointer_bytes(HEADER_LEN as u16) + wire::be16_bytes(
        cache_types::rr_type_of(record.data),
    ) + wire::be16_bytes(C_IN) + wire::be32_bytes(answer_ttl(record, now)) + wire::be16_bytes(
        record_data(record.data).len() as u16,
    ) + record_data(record.data)
}

/// The header of an answer to a query, with so many records.
pub open spec fn answer_header(packet: Seq<u8>, code: u8, records: u8) -> Seq<u8> {
    seq![
        packet[0],
        packet[1],
        (128 + packet[2] % 2) as u8,
        (128 + code) as u8,
        0u8,
        1u8,
        0u8,
        records,
        0u8,
        0u8,
        0u8,
        0u8,
    ]
}

/// The answer to a query: its question, and the record unless that says that
/// there is none. There is no answer to a question of another class or with a
/// compressed name, nor where the data is too long.
pub open spec fn answer_of(packet: Seq<u8>, record: CacheRecord, now: Instant) -> Option<Seq<u8>> {
    match compression::labels_end(packet, HEADER_LEN as int) {
        Some(zero) => if zero + 5 > packet.len() || wire::be16(packet, zero + 3) != C_IN {
            None
        } else {
            let question = packet.subrange(HEADER_LEN as int, zero + 5);
            if is_negative(record) {
                Some(answer_header(packet, answer_code(record), 0) + question)
            } else if record_data(record.data).len() > u16::MAX {
                None
            } else {
                Some(answer_header(packet, 0, 1) + question + answer_record(record, now))
            }
        },
        None => None,
    }
}

/// The data of a record as it stands in a message.
fn data_bytes(data: &CacheRecordData) -> (r: Vec<u8>)
    ensures
        r@ == record_data(*data),
{
    let mut v: Vec<u8> = Vec::new();
    match data {
        CacheRecordData::Address(IpAddr::V4(a)) => {
            push_bytes(&mut v, a.octets().as_slice());
        },
        CacheRecordData::Address(IpAddr::V6(a)) => {
            push_bytes(&mut v, a.octets().as_slice());
        },
        CacheRecordData::Cname(target) => {
            push_name(&mut v, target.as_str());
        },
        CacheRecordData::CName(target) => {
            push_name(&mut v, target.as_str());
        },
        CacheRecordData::Srv(srv) => {
            push_u16(&mut v, srv.priority());
            push_u16(&mut v, srv.weight());
            push_u16(&mut v, srv.port());
            let mut target = srv.target();
            to_wire(&mut target);
            push_bytes(&mut v, target.as_slice());
        },
        CacheRecordData::DnsKey(key) => {
            push_u16(&mut v, key.flags());
            v.push(3);
            v.push(key.algorithm());
            let bytes = key.keydata();
            push_bytes(&mut v, bytes.as_slice());
        },
        CacheRecordData::Ds(ds) => {
            push_u16(&mut v, ds.keytag());
            v.push(ds.algorithm());
            v.push(ds.digest_type());
            let bytes = ds.keydata();
            push_bytes(&mut v, bytes.as_slice());
        },
        _ => {},
    }
    assert(v@ =~= record_data(*data));
    v
}

/// Whether a record says that something does not exist, and the code of the
/// answer.
fn negative_code(record: &CacheRecord) -> (r: (bool, u8))
    ensures
        r == (is_negative(*record), answer_code(*record)),
{
    let (none, no_name): (bool, bool) = match &record.data {
        CacheRecordData::NxDomain => (true, true),
        CacheRecordData::Negative => (true, false),
        CacheRecordData::NoData => (true, false),
        _ => (false, false),
    };
    let code: u8 = if no_name || record.flags.contains(F_NXDOMAIN) {
        3
    } else {
        0
    };
    (none || record.flags.intersects(F_NEG | F_NXDOMAIN), code)
}

/// Makes the answer to a query out of a record.
pub fn answer_from(packet: &[u8], record: &CacheRecord, now: Instant) -> (r: Option<Vec<u8>>)
    ensures
        match r {
            Some(answer) => answer_of(packet@, *record, now) == Some(answer@),
            None => answer_of(packet@, *record, now) is None,
        },
{
    let zero: usize = match find_labels_end(packet, HEADER_LEN) {
        Some(zero) => zero,
        None => {
            return None;
        },
    };
    if packet.len() - zero < 5 || read_u16(packet, zero + 3) != C_IN {
        return None;
    }
    let (negative, code): (bool, u8) = negative_code(record);
    let data = data_bytes(&record.data);
    if !negative && data.len() > 65535 {
        return None;
    }
    let mut v: Vec<u8> = Vec::new();
    v.push(packet[0]);
    v.push(packet[1]);
    v.push(128 + packet[2] % 2);
    v.push(
        128 + if negative {
            code
        } else {
            0
        },
    );
    push_u16(&mut v, 1);
    push_u16(
        &mut v,
        if negative {
            0
        } else {
            1
        },
    );
    push_u32(&mut v, 0);
    let ghost head = answer_header(
        packet@,
        if negative {
            code
        } else {
            0
        },
        if negative {
            0
        } else {
            1
        },
    );
    assert(v@ =~= head);
    let ghost question = packet@.subrange(HEADER_LEN as int, zero + 5);
    push_bytes(&mut v, vstd::slice::slice_subrange(packet, HEADER_LEN, zero + 5));
    if negative {
        return Some(v);
    }
    v.push(0xC0);
    v.push(0x0C);
    push_u16(&mut v, CacheRecord::derive_rr_type(&record.data));
    push_u16(&mut v, C_IN);
    let ttl: u32 = if record.flags.contains(CacheFlags::IMMORTAL) {
        record.ttl
    } else {
        seconds_until(record.ttd, now)
    };
    push_u32(&mut v, ttl);
    push_u16(&mut v, data.len() as u16);
    push_bytes(&mut v, data.as_slice());
    proof {
        assert(compression::pointer_bytes(HEADER_LEN as u16) =~= seq![0xC0u8, 0x0Cu8]);
        assert(v@ =~= head + question + answer_record(*record, now));
    }
    Some(v)
}

proof fn lemma_labels_end(packet: Seq<u8>, pos: int, labels: Seq<Seq<u8>>)
    requires
        parser_laws::are_labels(labels),
        parser_laws::stands_at(packet, pos, parser_laws::name_bytes(labels)),
    ensures
        compression::labels_end(packet, pos) == Some(pos + parser_laws::label_bytes(labels).len()),
    decreases labels.len(),
{
    let bytes = parser_laws::name_bytes(labels);
    assert forall|i: int| 0 <= i < bytes.len() implies packet[pos + i] == #[trigger] bytes[i] by {
        assert(packet.subrange(pos, pos + bytes.len())[i] == packet[pos + i]);
    }
    assert(packet[pos + 0] == bytes[0]);
    if labels.len() > 0 {
        let label = labels[0];
        let rest = labels.drop_first();
        let tail = parser_laws::name_bytes(rest);
        let next = pos + 1 + label.len();
        assert(0 < label.len() <= 63);
        assert(bytes =~= seq![label.len() as u8] + label + tail);
        assert(packet.subrange(next, next + tail.len()) =~= tail) by {
            assert forall|i: int| 0 <= i < tail.len() implies packet[next + i] == tail[i] by {
                assert(bytes[1 + label.len() + i] == tail[i]);
                assert(packet[pos + (1 + label.len() + i)] == bytes[1 + label.len() + i]);
            }
        }
        assert forall|i: int| 0 <= i < rest.len() implies 0 < (#[trigger] rest[i]).len() <= 63
            && parser::forbidden_byte(rest[i]) is None by {
            assert(rest[i] == labels[i + 1]);
        }
        lemma_labels_end(packet, next, rest);
    } else {
        assert(parser_laws::label_bytes(labels).len() == 0);
    }
}

/// A question of the Internet class is answered out of any record whose data
/// fits. The answer is marked as one, has the number of the query, and its
/// question is read as that of the query.
pub proof fn law_answer_has_the_question(
    id: u16,
    recursion: bool,
    labels: Seq<Seq<u8>>,
    qtype: u16,
    record: CacheRecord,
    now: Instant,
)
    requires
        parser_laws::is_name(labels),
        is_negative(record) || record_data(record.data).len() <= u16::MAX,
    ensures
        ({
            let query = parser_laws::query_bytes(id, recursion, labels, qtype, C_IN);
            &&& answer_of(query, record, now) matches Some(answer)
            &&& wire::be16(answer, 0) == id
            &&& answer[2] >= 128
            &&& wire::be16(answer, 6) == (if is_negative(record) {
                0u16
            } else {
                1u16
            })
            &&& parser::request_of(answer) == parser::request_of(query)
        }),
{
    let query = parser_laws::query_bytes(id, recursion, labels, qtype, C_IN);
    let end: int = 17 + parser_laws::label_bytes(labels).len() as int;
    let question = query.subrange(12, end);
    lemma_question(id, recursion, labels, qtype);
    parser_laws::law_question_is_read(id, recursion, labels, qtype, C_IN);
    if is_negative(record) {
        let head = answer_header(query, answer_code(record), 0);
        assert(head + question =~= head + question + Seq::<u8>::empty());
        lemma_same_question(head, labels, qtype, Seq::empty());
    } else {
        lemma_same_question(
            answer_header(query, 0, 1),
            labels,
            qtype,
            answer_record(record, now),
        );
    }
}

/// Where the question of a query stands.
proof fn lemma_question(id: u16, recursion: bool, labels: Seq<Seq<u8>>, qtype: u16)
    requires
        parser_laws::is_name(labels),
    ensures
        ({
            let query = parser_laws::query_bytes(id, recursion, labels, qtype, C_IN);
            let zero = 12 + parser_laws::label_bytes(labels).len() as int;
            &&& compression::labels_end(query, 12) == Some(zero)
            &&& query.len() == zero + 5
            &&& query.subrange(12, zero + 5) == parser_laws::name_bytes(labels) + wire::be16_bytes(
                qtype,
            ) + wire::be16_bytes(C_IN)
            &&& wire::be16(query, zero + 3) == C_IN
            &&& wire::be16(query, 0) == id
        }),
{
    let query = parser_laws::query_bytes(id, recursion, labels, qtype, C_IN);
    let name = parser_laws::name_bytes(labels);
    let p: int = 12 + name.len() as int;
    assert(query.subrange(12, p) =~= name);
    lemma_labels_end(query, 12, labels);
    wire::law_u16_round_trip(id);
    wire::law_u16_round_trip(C_IN);
    assert(query[0] == wire::be16_bytes(id)[0] && query[1] == wire::be16_bytes(id)[1]);
    assert(query[p + 2] == wire::be16_bytes(C_IN)[0] && query[p + 3] == wire::be16_bytes(C_IN)[1]);
    assert(query.subrange(12, p + 4) =~= name + wire::be16_bytes(qtype) + wire::be16_bytes(C_IN));
}

/// A message with the header of an answer and a question is read as that question.
proof fn lemma_same_question(
    head: Seq<u8>,
    labels: Seq<Seq<u8>>,
    qtype: u16,
    behind: Seq<u8>,
)
    requires
        parser_laws::is_name(labels),
        head.len() == 12,
        head[2] == 128 || head[2] == 129,
        head[4] == 0,
        head[5] == 1,
    ensures
        parser::request_of(
            head + (parser_laws::name_bytes(labels) + wire::be16_bytes(qtype) + wire::be16_bytes(
                C_IN,
            )) + behind,
        ) == Ok::<(Seq<char>, u16, u16), parser::ParseFault>(
            (parser_laws::name_text(labels), qtype, C_IN),
        ),
{
    let name = parser_laws::name_bytes(labels);
    let question = name + wire::be16_bytes(qtype) + wire::be16_bytes(C_IN);
    let answer = head + question + behind;
    let p: int = 12 + name.len() as int;
    assert(answer.subrange(12, p) =~= name);
    wire::law_u16_round_trip(qtype);
    wire::law_u16_round_trip(C_IN);
    assert(answer[p] == wire::be16_bytes(qtype)[0] && answer[p + 1] == wire::be16_bytes(qtype)[1]);
    assert(answer[p + 2] == wire::be16_bytes(C_IN)[0] && answer[p + 3] == wire::be16_bytes(
        C_IN,
    )[1]);
    assert(answer[2] == head[2] && answer[4] == head[4] && answer[5] == head[5]);
    parser_laws::law_name_is_read(answer, 12, labels);
}

/// An address in an answer is read back.
pub proof fn law_address_is_read_back(
    front: Seq<u8>,
    record: CacheRecord,
    addr: IpAddr,
    now: Instant,
)
    requires
        record.data == CacheRecordData::Address(addr),
    ensures
        ({
            let packet = front + answer_record(record, now);
            parser::addresses_in(packet, front.len() as int, 1, Seq::empty()) == Ok::<
                (int, Seq<IpAddr>),
                parser::ParseFault,
            >((packet.len() as int, seq![addr]))
        }),
{
    let data = record_data(record.data);
    let rtype = cache_types::rr_type_of(record.data);
    let all = answer_record(record, now);
    let packet = front + all;
    let n = front.len() as int;
    wire::law_u16_round_trip(rtype);
    wire::law_u16_round_trip(C_IN);
    wire::law_u16_round_trip(data.len() as u16);
    match addr {
        IpAddr::V4(a) => {
            wire::law_u32_round_trip(a.bits);
        },
        IpAddr::V6(a) => {
            assert(vstd::arithmetic::power::pow(256, 16) == 0x1_0000_0000_0000_0000_0000_0000_0000_0000)
                by {
                reveal_with_fuel(vstd::arithmetic::power::pow, 17);
            }
            wire::law_be_value_of_digits(a.bits as nat, 16);
        },
    }
    assert(all.len() == 12 + data.len());
    assert forall|i: int| 0 <= i < all.len() implies packet[n + i] == #[trigger] all[i] by {}
    let pointer = compression::pointer_bytes(HEADER_LEN as u16);
    assert(pointer =~= seq![0xC0u8, 0x0Cu8]);
    assert(all[0] == 0xC0 && all[1] == 0x0C);
    assert(all[2] == wire::be16_bytes(rtype)[0] && all[3] == wire::be16_bytes(rtype)[1]);
    assert(all[4] == wire::be16_bytes(C_IN)[0] && all[5] == wire::be16_bytes(C_IN)[1]);
    assert(all[10] == wire::be16_bytes(data.len() as u16)[0]);
    assert(all[11] == wire::be16_bytes(data.len() as u16)[1]);
    assert(packet[n + 0] == 0xC0);
    assert(wire::be16(packet, n + 2) == rtype);
    assert(wire::be16(packet, n + 4) == C_IN);
    assert(wire::be16(packet, n + 10) == data.len());
    assert(packet.subrange(n + 12, n + 12 + data.len()) =~= data);
    assert(parser::name_end(packet, n) == Ok::<int, parser::ParseFault>(n + 2));
    let span = parser::record_span(packet, n)->Ok_0;
    assert(parser::record_address(packet, span) == Some(addr));
    assert(Seq::<IpAddr>::empty().push(addr) =~= seq![addr]);
    reveal_with_fuel(parser::addresses_in, 2);
}

} // verus!
