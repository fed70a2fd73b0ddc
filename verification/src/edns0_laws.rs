//! What holds of EDNS0 data across several calls.

use crate::addr::IpAddr;
use crate::compression;
use crate::edns0::{
    self, ClientSubnet, ClientSubnetModel, DaemonOptions, Edns0Fault, Edns0Option, Edns0OptionCode,
    OptPlace, EDNS0_DO_BIT, EDNS0_OPTION_CLIENT_SUBNET,
};
use crate::parser;
use crate::protocol::{T_OPT, T_TKEY, T_TSIG};
use crate::text;
use crate::wire;
use vstd::prelude::*;
use vstd::utf8::*;

verus! {

/// Two messages with the same bytes from the header up to `limit`.
pub open spec fn same_below(a: Seq<u8>, b: Seq<u8>, limit: int) -> bool {
    &&& limit <= a.len()
    &&& limit <= b.len()
    &&& forall|i: int| 12 <= i < limit ==> a[i] == b[i]
}

/// A name that ends below the limit ends at the same place in both messages.
proof fn lemma_same_name(a: Seq<u8>, b: Seq<u8>, limit: int, pos: int)
    requires
        same_below(a, b, limit),
        12 <= pos,
        parser::name_end(a, pos) matches Ok(end) && end <= limit,
    ensures
        parser::name_end(b, pos) == parser::name_end(a, pos),
    decreases a.len() - pos,
{
    parser::lemma_name_advance(a, pos);
    let byte = a[pos];
    assert(b[pos] == byte);
    if compression::label_type_of(byte) is Normal && byte > 0 {
        parser::lemma_name_advance(a, pos + 1 + byte);
        lemma_same_name(a, b, limit, pos + 1 + byte);
    }
}

/// Questions that end below the limit end at the same place in both messages.
proof fn lemma_same_questions(a: Seq<u8>, b: Seq<u8>, limit: int, pos: int, count: nat)
    requires
        same_below(a, b, limit),
        12 <= pos <= a.len(),
        parser::questions_end(a, pos, count) matches Ok(end) && end <= limit,
    ensures
        parser::questions_end(b, pos, count) == parser::questions_end(a, pos, count),
    decreases count,
{
    if count > 0 {
        parser::lemma_name_advance(a, pos);
        let next = parser::question_end(a, pos)->Ok_0;
        parser::lemma_questions_advance(a, next, (count - 1) as nat);
        lemma_same_name(a, b, limit, pos);
        lemma_same_questions(a, b, limit, next, (count - 1) as nat);
    }
}

/// A record that ends below the limit is the same in both messages.
proof fn lemma_same_record(a: Seq<u8>, b: Seq<u8>, limit: int, pos: int)
    requires
        same_below(a, b, limit),
        12 <= pos <= a.len(),
        parser::record_span(a, pos) matches Ok(span) && span.end <= limit,
    ensures
        parser::record_span(b, pos) == parser::record_span(a, pos),
        parser::record_span(a, pos) matches Ok(span) && pos < span.fixed && span.fixed + 10
            == span.data <= span.end,
{
    parser::lemma_name_advance(a, pos);
    lemma_same_name(a, b, limit, pos);
}

/// Records that end below the limit end at the same place in both messages.
proof fn lemma_same_section(a: Seq<u8>, b: Seq<u8>, limit: int, pos: int, count: nat)
    requires
        same_below(a, b, limit),
        12 <= pos <= a.len(),
        parser::section_end(a, pos, count) matches Ok(end) && end <= limit,
    ensures
        parser::section_end(b, pos, count) == parser::section_end(a, pos, count),
    decreases count,
{
    if count > 0 {
        parser::lemma_name_advance(a, pos);
        let span = parser::record_span(a, pos)->Ok_0;
        parser::lemma_section_advance(a, span.end, (count - 1) as nat);
        lemma_same_record(a, b, limit, pos);
        lemma_same_section(a, b, limit, span.end, (count - 1) as nat);
    }
}

/// An additional section that starts below the limit starts at the same place in
/// both messages.
proof fn lemma_same_start(a: Seq<u8>, b: Seq<u8>, limit: int)
    requires
        same_below(a, b, limit),
        a.len() >= 12,
        forall|i: int| 4 <= i < 10 ==> a[i] == b[i],
        edns0::additional_start(a) matches Ok(start) && start <= limit,
    ensures
        edns0::additional_start(b) == edns0::additional_start(a),
        edns0::additional_start(a) matches Ok(start) && 12 <= start <= a.len(),
{
    let qd = wire::be16(a, 4) as nat;
    let an = wire::be16(a, 6) as nat;
    let ns = wire::be16(a, 8) as nat;
    let p = parser::questions_end(a, 12, qd)->Ok_0;
    parser::lemma_questions_advance(a, 12, qd);
    parser::lemma_section_advance(a, p, an);
    let q = parser::section_end(a, p, an)->Ok_0;
    parser::lemma_section_advance(a, q, ns);
    lemma_same_questions(a, b, limit, 12, qd);
    lemma_same_section(a, b, limit, p, an);
    lemma_same_section(a, b, limit, q, ns);
}

/// An OPT record below the limit is found in both messages, and both searches
/// read the same records before it.
proof fn lemma_same_search(
    a: Seq<u8>,
    b: Seq<u8>,
    limit: int,
    pos: int,
    count: nat,
    more: nat,
    is_sign: bool,
)
    requires
        same_below(a, b, limit),
        12 <= pos <= a.len(),
        edns0::search_opt(a, pos, count, is_sign) matches Ok(Some(place)) && place.fixed + 6 <= limit,
        a.len() == b.len(),
        edns0::search_opt(a, pos, count, is_sign) matches Ok(Some(place)) && forall|i: int|
            place.fixed + 8 <= i < a.len() ==> a[i] == b[i],
        edns0::search_opt(a, pos, count, is_sign) matches Ok(Some(place)) && place.fixed + 10 <= a.len(),
        count <= more,
    ensures
        edns0::search_opt(a, pos, count, is_sign) matches Ok(Some(place)) && edns0::search_opt(
            b,
            pos,
            more,
            is_sign,
        ) == Ok::<Option<OptPlace>, Edns0Fault>(
            Some(OptPlace { flags: wire::be16(b, place.fixed + 6), ..place }),
        ),
    decreases count,
{
    let place = edns0::search_opt(a, pos, count, is_sign)->Ok_0->Some_0;
    parser::lemma_name_advance(a, pos);
    let p = parser::name_end(a, pos)->Ok_0;
    let kind = wire::be16(a, p);
    let rdlength = wire::be16(a, p + 8);
    if kind == T_OPT {
        lemma_same_name(a, b, limit, pos);
    } else {
        lemma_found_later(a, p + 10 + rdlength, (count - 1) as nat, is_sign);
        lemma_same_name(a, b, limit, pos);
        lemma_same_search(
            a,
            b,
            limit,
            p + 10 + rdlength,
            (count - 1) as nat,
            (more - 1) as nat,
            is_sign,
        );
    }
}

/// An OPT record stands behind where its search starts.
proof fn lemma_found_later(packet: Seq<u8>, pos: int, count: nat, is_sign: bool)
    requires
        0 <= pos <= packet.len(),
    ensures
        edns0::search_opt(packet, pos, count, is_sign) matches Ok(Some(place)) ==> pos <= place.offset
            < place.fixed && place.fixed + 10 <= packet.len(),
    decreases count,
{
    if count > 0 {
        parser::lemma_name_advance(packet, pos);
        if let Ok(p) = parser::name_end(packet, pos) {
            if p + 10 + wire::be16(packet, p + 8) <= packet.len() {
                lemma_found_later(
                    packet,
                    p + 10 + wire::be16(packet, p + 8),
                    (count - 1) as nat,
                    is_sign,
                );
            }
        }
    }
}

/// Once the bit is set in an OPT record, the record is found where it was, with
/// the bit set and all else as it was.
pub proof fn law_do_bit_is_set(packet: Seq<u8>, minsize: u16)
    requires
        edns0::opt_place(packet, false) matches Ok(Some(_)),
    ensures
        edns0::opt_place(packet, false) matches Ok(Some(place)) && edns0::opt_place(
            edns0::with_do_bit(packet, minsize),
            false,
        ) == Ok::<Option<OptPlace>, Edns0Fault>(
            Some(OptPlace { flags: place.flags | EDNS0_DO_BIT, ..place }),
        ),
        edns0::opt_place(packet, false) matches Ok(Some(place)) && (place.flags | EDNS0_DO_BIT)
            & EDNS0_DO_BIT != 0,
{
    let place = edns0::opt_place(packet, false)->Ok_0->Some_0;
    let flags = place.flags;
    assert((flags | 0x8000u16) & 0x8000u16 != 0) by (bit_vector);
    if flags & EDNS0_DO_BIT != 0 {
        assert(flags & 0x8000u16 != 0 ==> flags | 0x8000u16 == flags) by (bit_vector);
    } else {
        let after = edns0::with_do_bit(packet, minsize);
        let start = edns0::additional_start(packet)->Ok_0;
        let count = wire::be16(packet, 10) as nat;
        lemma_start_bounds(packet);
        lemma_found_later(packet, start, count, false);
        let limit = place.fixed + 6;
        lemma_same_start(packet, after, limit);
        lemma_same_search(packet, after, limit, start, count, count, false);
        wire::law_u16_round_trip(flags | EDNS0_DO_BIT);
    }
}

/// The additional section starts behind the header.
proof fn lemma_start_bounds(packet: Seq<u8>)
    requires
        packet.len() >= 12,
        edns0::additional_start(packet) is Ok,
    ensures
        12 <= edns0::additional_start(packet)->Ok_0 <= packet.len(),
{
    let qd = wire::be16(packet, 4) as nat;
    let an = wire::be16(packet, 6) as nat;
    let ns = wire::be16(packet, 8) as nat;
    parser::lemma_questions_advance(packet, 12, qd);
    let p = parser::questions_end(packet, 12, qd)->Ok_0;
    parser::lemma_section_advance(packet, p, an);
    let q = parser::section_end(packet, p, an)->Ok_0;
    parser::lemma_section_advance(packet, q, ns);
}

/// Setting the bit a second time changes nothing.
pub proof fn law_do_bit_once(packet: Seq<u8>, first: u16, second: u16)
    requires
        edns0::opt_place(packet, false) matches Ok(Some(_)),
    ensures
        edns0::with_do_bit(edns0::with_do_bit(packet, first), second) == edns0::with_do_bit(packet, first),
{
    law_do_bit_is_set(packet, first);
}

/// None of `count` records at `pos` is an OPT record or a signature, and they can
/// all be read.
pub open spec fn plain_records(packet: Seq<u8>, pos: int, count: nat) -> bool
    decreases count,
{
    count > 0 ==> {
        &&& parser::record_span(packet, pos) matches Ok(span)
        &&& wire::be16(packet, span.fixed) != T_OPT
        &&& wire::be16(packet, span.fixed) != T_TSIG
        &&& wire::be16(packet, span.fixed) != T_TKEY
        &&& plain_records(packet, span.end, (count - 1) as nat)
    }
}

/// A search over records without OPT goes on behind them.
proof fn lemma_search_past(
    a: Seq<u8>,
    b: Seq<u8>,
    pos: int,
    count: nat,
    more: nat,
    is_sign: bool,
)
    requires
        same_below(a, b, a.len() as int),
        12 <= pos <= a.len(),
        plain_records(a, pos, count),
        parser::section_end(a, pos, count) is Ok,
    ensures
        edns0::search_opt(b, pos, count + more, is_sign) == edns0::search_opt(
            b,
            parser::section_end(a, pos, count)->Ok_0,
            more,
            is_sign,
        ),
    decreases count,
{
    if count > 0 {
        parser::lemma_name_advance(a, pos);
        let span = parser::record_span(a, pos)->Ok_0;
        lemma_same_record(a, b, a.len() as int, pos);
        lemma_search_past(a, b, span.end, (count - 1) as nat, more, is_sign);
    }
}

/// A message has no OPT record, and its records fill it.
pub open spec fn is_plain(packet: Seq<u8>) -> bool {
    &&& packet.len() >= 12
    &&& edns0::additional_start(packet) matches Ok(start)
    &&& parser::section_end(packet, start, wire::be16(packet, 10) as nat) == Ok::<
        int,
        parser::ParseFault,
    >(packet.len() as int)
    &&& plain_records(packet, start, wire::be16(packet, 10) as nat)
}

/// An OPT record that was put behind a message is found there, with its payload
/// size and flags, and its data holds the options.
pub proof fn law_added_opt_is_found(
    packet: Seq<u8>,
    udp_sz: u16,
    flags: u16,
    options: Seq<(u16, Seq<u8>)>,
    is_sign: bool,
)
    requires
        is_plain(packet),
        wire::be16(packet, 10) < 65535,
        edns0::options_bytes(options).len() < 65536,
    ensures
        ({
            let after = edns0::with_record(packet, edns0::opt_record(udp_sz, flags, options));
            &&& edns0::opt_place(after, is_sign) == Ok::<Option<OptPlace>, Edns0Fault>(
                Some(
                    OptPlace {
                        offset: packet.len() as int,
                        fixed: packet.len() + 1int,
                        udp_size: udp_sz,
                        rcode_ext: 0,
                        flags,
                    },
                ),
            )
            &&& edns0::record_data(after, packet.len() as int) == edns0::options_bytes(options)
            &&& edns0::options_in(edns0::record_data(after, packet.len() as int)) == options
        }),
{
    let record = edns0::opt_record(udp_sz, flags, options);
    let all = packet + record;
    let after = edns0::with_record(packet, record);
    let bytes = edns0::options_bytes(options);
    let n = packet.len() as int;
    let count = wire::be16(packet, 10);
    let start = edns0::additional_start(packet)->Ok_0;
    assert(wire::be16(all, 10) == count);
    wire::law_u16_round_trip((count + 1) as u16);
    assert(wire::be16(after, 10) == count + 1);
    lemma_start_bounds(packet);
    lemma_same_start(packet, after, n);
    lemma_search_past(packet, after, start, count as nat, 1, is_sign);
    wire::law_u16_round_trip(T_OPT);
    wire::law_u16_round_trip(udp_sz);
    wire::law_u16_round_trip(flags);
    wire::law_u16_round_trip(bytes.len() as u16);
    assert(record.len() == 11 + bytes.len());
    assert(forall|i: int| n <= i < after.len() ==> after[i] == record[i - n]);
    assert(after[n] == 0);
    assert(compression::label_type_of(0u8) is Normal) by {
        assert(0u8 & 0xC0u8 == 0) by (bit_vector);
    }
    assert(parser::name_end(after, n) == Ok::<int, parser::ParseFault>(n + 1));
    assert(wire::be16(after, n + 1) == T_OPT);
    assert(wire::be16(after, n + 3) == udp_sz);
    assert(after[n + 5] == 0);
    assert(wire::be16(after, n + 7) == flags);
    assert(wire::be16(after, n + 9) == bytes.len());
    assert(edns0::search_opt(after, n, 1, is_sign) == Ok::<Option<OptPlace>, Edns0Fault>(
        Some(
            OptPlace {
                offset: n,
                fixed: n + 1,
                udp_size: udp_sz,
                rcode_ext: 0,
                flags,
            },
        ),
    ));
    assert(edns0::record_data(after, n) =~= bytes);
    lemma_lengths_fit(options);
    law_options_round_trip(options);
}

/// Options that fit into an OPT record are each short enough for their length
/// field.
proof fn lemma_lengths_fit(options: Seq<(u16, Seq<u8>)>)
    requires
        edns0::options_bytes(options).len() < 65536,
    ensures
        forall|i: int| 0 <= i < options.len() ==> (#[trigger] options[i]).1.len() < 65536,
    decreases options.len(),
{
    if options.len() > 0 {
        lemma_lengths_fit(options.drop_last());
        assert forall|i: int| 0 <= i < options.len() implies (#[trigger] options[i]).1.len()
            < 65536 by {
            if i < options.len() - 1 {
                assert(options[i] == options.drop_last()[i]);
            }
        }
    }
}

/// Reading from the end of some options goes on with those behind them.
proof fn lemma_read_options(
    options: Seq<(u16, Seq<u8>)>,
    n: nat,
    data: Seq<u8>,
)
    requires
        n <= options.len(),
        data == edns0::options_bytes(options),
        forall|i: int| 0 <= i < options.len() ==> (#[trigger] options[i]).1.len() < 65536,
    ensures
        edns0::options_from(
            data,
            edns0::options_bytes(options.take(n as int)).len() as int,
            options.take(n as int),
        ) == options,
        edns0::options_bytes(options.take(n as int)) == data.take(
            edns0::options_bytes(options.take(n as int)).len() as int,
        ),
        edns0::options_bytes(options.take(n as int)).len() <= data.len(),
    decreases options.len() - n,
{
    let pos = edns0::options_bytes(options.take(n as int)).len() as int;
    if n == options.len() {
        assert(options.take(n as int) =~= options);
        assert(data.take(pos) =~= data);
    } else {
        let (code, value) = options[n as int];
        lemma_read_options(options, n + 1, data);
        let longer = options.take(n + 1int);
        assert(longer.drop_last() =~= options.take(n as int));
        assert(longer.last() == options[n as int]);
        let end = edns0::options_bytes(longer).len() as int;
        let field = wire::be16_bytes(edns0::length_field(value.len()));
        let front = edns0::options_bytes(options.take(n as int));
        assert(edns0::options_bytes(longer) == front + wire::be16_bytes(code) + field + value);
        assert(edns0::options_bytes(longer) == data.take(end));
        assert(end == pos + 4 + value.len());
        assert(forall|i: int| 0 <= i < end ==> data[i] == edns0::options_bytes(longer)[i]);
        assert(front =~= data.take(pos));
        wire::law_u16_round_trip(code);
        wire::law_u16_round_trip(edns0::length_field(value.len()));
        assert(data[pos] == wire::be16_bytes(code)[0]);
        assert(data[pos + 1] == wire::be16_bytes(code)[1]);
        assert(data[pos + 2] == field[0]);
        assert(data[pos + 3] == field[1]);
        assert(wire::be16(data, pos) == code);
        assert(wire::be16(data, pos + 2) == value.len());
        assert(data.subrange(pos + 4, pos + 4 + value.len()) =~= value);
        assert(options.take(n as int).push((code, value)) =~= longer);
    }
}

/// Options that were written are read back, where each is short enough for its
/// length field.
pub proof fn law_options_round_trip(options: Seq<(u16, Seq<u8>)>)
    requires
        forall|i: int| 0 <= i < options.len() ==> (#[trigger] options[i]).1.len() < 65536,
    ensures
        edns0::options_in(edns0::options_bytes(options)) == options,
{
    lemma_read_options(options, 0, edns0::options_bytes(options));
    assert(options.take(0) =~= Seq::empty());
}

/// After options were deleted, none with that number is left.
pub proof fn law_deleted_option_is_gone(
    existing: Seq<(u16, Seq<u8>)>,
    added: Seq<(u16, Seq<u8>)>,
    code: u16,
)
    requires
        code != 0,
    ensures
        forall|i: int|
            0 <= i < edns0::changed_options(existing, added, code, false).len() ==> (
            #[trigger] edns0::changed_options(existing, added, code, false)[i]).0 != code,
{
    lemma_none_left(existing, code);
    lemma_none_left(added, code);
    let kept = edns0::options_without(existing, code);
    let new = edns0::options_without(added, code);
    assert forall|i: int|
        0 <= i < edns0::changed_options(existing, added, code, false).len() implies (
    #[trigger] edns0::changed_options(existing, added, code, false)[i]).0 != code by {
        if i < kept.len() {
            assert((kept + new)[i] == kept[i]);
        } else {
            assert((kept + new)[i] == new[i - kept.len()]);
        }
    }
}

/// None of the options that are kept has the number that leaves.
proof fn lemma_none_left(options: Seq<(u16, Seq<u8>)>, code: u16)
    requires
        code != 0,
    ensures
        forall|i: int|
            0 <= i < edns0::options_without(options, code).len() ==> (#[trigger] edns0::options_without(
                options,
                code,
            )[i]).0 != code,
    decreases options.len(),
{
    if options.len() > 0 {
        lemma_none_left(options.drop_last(), code);
        let rest = edns0::options_without(options.drop_last(), code);
        let all = edns0::options_without(options, code);
        assert forall|i: int| 0 <= i < all.len() implies (#[trigger] all[i]).0 != code by {
            if i < rest.len() {
                assert(all[i] == rest[i]);
            }
        }
    }
}

/// When an option takes the place of those with its number, it is the only one
/// with it, and stands last.
pub proof fn law_replaced_option_is_alone(
    existing: Seq<(u16, Seq<u8>)>,
    code: u16,
    data: Seq<u8>,
)
    requires
        code != 0,
    ensures
        ({
            let all = edns0::changed_options(existing, seq![(code, data)], code, true);
            &&& all.last() == (code, data)
            &&& forall|i: int| 0 <= i < all.len() - 1 ==> (#[trigger] all[i]).0 != code
        }),
{
    lemma_none_left(existing, code);
    let kept = edns0::options_without(existing, code);
    let all = edns0::changed_options(existing, seq![(code, data)], code, true);
    assert forall|i: int| 0 <= i < all.len() - 1 implies (#[trigger] all[i]).0 != code by {
        assert(all[i] == kept[i]);
    }
}

/// An option with another number stays where options leave.
pub proof fn law_other_options_stay(options: Seq<(u16, Seq<u8>)>, code: u16, i: int)
    requires
        0 <= i < options.len(),
        options[i].0 != code,
    ensures
        edns0::options_without(options, code).contains(options[i]),
    decreases options.len(),
{
    let rest = edns0::options_without(options.drop_last(), code);
    let all = edns0::options_without(options, code);
    if i == options.len() - 1 {
        assert(all[all.len() - 1] == options[i]);
    } else {
        law_other_options_stay(options.drop_last(), code, i);
        assert(options.drop_last()[i] == options[i]);
        let k = choose|k: int| 0 <= k < rest.len() && rest[k] == options[i];
        assert(all[k] == options[i]);
    }
}

/// The data of a client subnet option is read back as the subnet it was made of.
pub proof fn law_subnet_round_trip(s: ClientSubnet)
    ensures
        edns0::subnet_in(Edns0Option::ClientSubnet(s).payload()) == Ok::<ClientSubnetModel, Edns0Fault>(
            s@,
        ),
{
    let data = Edns0Option::ClientSubnet(s).payload();
    wire::law_u16_round_trip(s.family);
    assert(data[0] == wire::be16_bytes(s.family)[0]);
    assert(data[1] == wire::be16_bytes(s.family)[1]);
    assert(data.skip(4) =~= s.addr@);
}

/// A whole address that was told is read back.
pub proof fn law_told_address_is_read(addr: IpAddr)
    ensures
        edns0::subnet_in(edns0::subnet_option(addr, edns0::addr_bits(addr))) matches Ok(s) && edns0::subnet_addr(s) == Some(
            (addr, edns0::addr_bits(addr)),
        ),
{
    let data = edns0::subnet_option(addr, edns0::addr_bits(addr));
    wire::law_u16_round_trip(edns0::family_of(addr));
    assert(data[0] == wire::be16_bytes(edns0::family_of(addr))[0]);
    assert(data[1] == wire::be16_bytes(edns0::family_of(addr))[1]);
    edns0::lemma_addr_len(addr);
    assert(edns0::addr_bytes(addr).take(edns0::addr_bits(addr) as int / 8) =~= edns0::addr_bytes(addr));
    assert(data.skip(4) =~= edns0::addr_bytes(addr));
    edns0::law_whole_address_round_trip(addr, edns0::subnet_in(data)->Ok_0);
}

/// A reply that repeats the subnet of the query fits it.
pub proof fn law_own_subnet_fits(addr: IpAddr, netmask: u8)
    ensures
        edns0::subnet_fits(
            seq![(EDNS0_OPTION_CLIENT_SUBNET, edns0::subnet_option(addr, netmask))],
            addr,
            netmask,
        ) == Ok::<bool, Edns0Fault>(true),
{
    let data = edns0::subnet_option(addr, netmask);
    wire::law_u16_round_trip(edns0::family_of(addr));
    assert(data[0] == wire::be16_bytes(edns0::family_of(addr))[0]);
    assert(data[1] == wire::be16_bytes(edns0::family_of(addr))[1]);
    assert(data[3] == 0);
}

// ---------------------------------------------------------------------------
// Client subnets
// ---------------------------------------------------------------------------

/// A reply that names no subnet fits any query.
pub proof fn law_reply_without_subnet_fits(
    options: Seq<(u16, Seq<u8>)>,
    source: IpAddr,
    netmask: u8,
)
    requires
        forall|k: int| 0 <= k < options.len() ==> (#[trigger] options[k]).0 != 8,
    ensures
        edns0::subnet_fits(options, source, netmask) == Ok::<bool, Edns0Fault>(true),
    decreases options.len(),
{
    if options.len() > 0 {
        let rest = options.drop_first();
        assert(options[0].0 != 8);
        assert forall|k: int| 0 <= k < rest.len() implies (#[trigger] rest[k]).0 != 8 by {
            assert(rest[k] == options[k + 1]);
        }
        law_reply_without_subnet_fits(rest, source, netmask);
    }
}

/// The first subnet that a reply names, wherever it stands among its options, fits a
/// query exactly where it is of the family of the client's address and its scope is
/// not longer than what was told: each scope from nothing up to that does, and none
/// beyond it, whatever else the subnet says. One that is too short to be read is an
/// error.
pub proof fn law_first_subnet_decides(
    options: Seq<(u16, Seq<u8>)>,
    i: int,
    source: IpAddr,
    netmask: u8,
)
    requires
        0 <= i < options.len(),
        options[i].0 == 8,
        forall|k: int| 0 <= k < i ==> (#[trigger] options[k]).0 != 8,
    ensures
        ({
            let data = options[i].1;
            let family: u8 = match source {
                IpAddr::V4(_) => 1,
                IpAddr::V6(_) => 2,
            };
            let fits = edns0::subnet_fits(options, source, netmask);
            &&& data.len() < 4 ==> fits is Err
            &&& data.len() >= 4 ==> fits == Ok::<bool, Edns0Fault>(
                data[0] == 0 && data[1] == family && data[3] <= netmask,
            )
        }),
    decreases i,
{
    if i > 0 {
        let rest = options.drop_first();
        assert(options[0].0 != 8);
        assert forall|k: int| 0 <= k < i - 1 implies (#[trigger] rest[k]).0 != 8 by {
            assert(rest[k] == options[k + 1]);
        }
        law_first_subnet_decides(rest, i - 1, source, netmask);
    }
}

/// A reply is checked by the options of its OPT record; without one it fits.
pub proof fn law_source_is_checked_by_the_options(
    packet: Seq<u8>,
    udp_sz: u16,
    flags: u16,
    options: Seq<(u16, Seq<u8>)>,
    source: IpAddr,
    netmask: u8,
)
    requires
        is_plain(packet),
        wire::be16(packet, 10) < 65535,
        edns0::options_bytes(options).len() < 65536,
    ensures
        edns0::source_fits(
            edns0::with_record(packet, edns0::opt_record(udp_sz, flags, options)),
            source,
            netmask,
        ) == edns0::subnet_fits(options, source, netmask),
        edns0::source_fits(packet, source, netmask) == Ok::<bool, Edns0Fault>(true),
{
    law_added_opt_is_found(packet, udp_sz, flags, options, false);
    lemma_plain_has_none(packet);
}

/// A message without an OPT record has none to be found.
proof fn lemma_plain_has_none(packet: Seq<u8>)
    requires
        is_plain(packet),
    ensures
        edns0::opt_place(packet, false) == Ok::<Option<OptPlace>, Edns0Fault>(None),
        edns0::opt_place(packet, true) == Ok::<Option<OptPlace>, Edns0Fault>(None),
{
    let start = edns0::additional_start(packet)->Ok_0;
    let count = wire::be16(packet, 10) as nat;
    lemma_start_bounds(packet);
    lemma_search_past(packet, packet, start, count, 0, false);
    lemma_search_past(packet, packet, start, count, 0, true);
}

/// What is told of a client's address: its family, how many of its bits, no scope, and
/// the bytes that hold those bits, of which the last has nothing beyond them.
pub proof fn law_told_subnet(addr: IpAddr, netmask: u8)
    ensures
        ({
            let data = edns0::subnet_option(addr, netmask);
            let all = edns0::addr_bytes(addr);
            let bits: int = match addr {
                IpAddr::V4(_) => 32,
                IpAddr::V6(_) => 128,
            };
            let told = if netmask < bits {
                netmask as int
            } else {
                bits
            };
            let n = (told + 7) / 8;
            let size = vstd::arithmetic::power2::pow2((8 - told % 8) as nat);
            &&& data.len() == 4 + n
            &&& data[0] == 0
            &&& data[1] == match addr {
                IpAddr::V4(_) => 1u8,
                IpAddr::V6(_) => 2u8,
            }
            &&& data[2] == told
            &&& data[3] == 0
            &&& forall|i: int| 0 <= i < told / 8 ==> #[trigger] data[4 + i] == all[i]
            &&& told % 8 != 0 ==> data[3 + n] <= all[n - 1] < data[3 + n] + size && data[3
                + n] as int % size as int == 0
        }),
{
    let data = edns0::subnet_option(addr, netmask);
    let all = edns0::addr_bytes(addr);
    edns0::lemma_addr_len(addr);
    let bits: int = edns0::addr_bits(addr) as int;
    let told = if netmask < bits {
        netmask as int
    } else {
        bits
    };
    let n = (told + 7) / 8;
    let part = edns0::masked_prefix(addr, netmask);
    assert(edns0::prefix_bytes(addr, netmask) == n);
    assert(part.len() == n);
    assert(forall|i: int| 0 <= i < n ==> #[trigger] data[4 + i] == part[i]);
    assert forall|i: int| 0 <= i < told / 8 implies #[trigger] data[4 + i] == all[i] by {
        assert(i < n);
        if told % 8 != 0 {
            assert(i != n - 1);
        }
    }
    if told % 8 != 0 {
        let r = (netmask % 8) as u8;
        let b = all[n - 1];
        lemma_masked(b, r);
        assert(data[4 + (n - 1)] == part[n - 1]);
        assert(part[n - 1] == b & (0xFFu8 << ((8 - r) as u8)));
    }
}

proof fn lemma_masked(b: u8, r: u8)
    requires
        0 < r < 8,
    ensures
        ({
            let m = b & (0xFFu8 << ((8 - r) as u8));
            let size = vstd::arithmetic::power2::pow2((8 - r) as nat);
            m <= b < m + size && m as int % size as int == 0
        }),
{
    vstd::arithmetic::power2::lemma2_to64();
    let k = (8 - r) as u8;
    let m = b & (0xFFu8 << k);
    assert(m <= b && (k == 1 ==> b - m < 2 && m % 2 == 0) && (k == 2 ==> b - m < 4 && m % 4 == 0)
        && (k == 3 ==> b - m < 8 && m % 8 == 0) && (k == 4 ==> b - m < 16 && m % 16 == 0) && (k == 5
        ==> b - m < 32 && m % 32 == 0) && (k == 6 ==> b - m < 64 && m % 64 == 0) && (k == 7 ==> b
        - m < 128 && m % 128 == 0)) by (bit_vector)
        requires
            m == b & (0xFFu8 << k),
            1 <= k <= 7,
    ;
}

/// The address in a subnet has the bytes that were told, and zeros behind them; one
/// with more bytes than its family has is none.
pub proof fn law_address_of_a_subnet(s: ClientSubnetModel)
    ensures
        ({
            let len: int = if s.family == 1 {
                4
            } else {
                16
            };
            match edns0::subnet_addr(s) {
                Some((addr, netmask)) => {
                    &&& netmask == s.source_netmask
                    &&& s.family == 1 <==> addr is V4
                    &&& s.family == 2 <==> addr is V6
                    &&& s.addr.len() <= len
                    &&& edns0::addr_bytes(addr).len() == len
                    &&& forall|i: int|
                        0 <= i < len ==> #[trigger] edns0::addr_bytes(addr)[i] == if i
                            < s.addr.len() {
                            s.addr[i]
                        } else {
                            0u8
                        }
                },
                None => s.addr.len() > len || !(s.family == 1 || s.family == 2),
            }
        }),
{
    if s.family == 1 && s.addr.len() <= 4 {
        let bytes = edns0::padded(s.addr, 4);
        lemma_be32_of_bytes(bytes);
    } else if s.family == 2 && s.addr.len() <= 16 {
        let bytes = edns0::padded(s.addr, 16);
        wire::law_be_digits_of_value(bytes);
        wire::lemma_be_value_bound(bytes);
        assert(vstd::arithmetic::power::pow(256, 16) == u128::MAX + 1) by {
            reveal(vstd::arithmetic::power::pow);
            reveal_with_fuel(vstd::arithmetic::power::pow, 17);
        }
    }
}

pub proof fn lemma_be32_of_bytes(bytes: Seq<u8>)
    requires
        bytes.len() == 4,
    ensures
        wire::be32_bytes(wire::be32(bytes, 0)) == bytes,
{
    let a = bytes[0] as int;
    let b = bytes[1] as int;
    let c = bytes[2] as int;
    let d = bytes[3] as int;
    let v = wire::be32(bytes, 0) as int;
    assert(v == a * 0x1000000 + b * 0x10000 + c * 0x100 + d);
    assert(v / 0x1000000 == a);
    assert(v / 0x10000 == a * 0x100 + b);
    assert(v / 0x100 == a * 0x10000 + b * 0x100 + c);
    assert(v / 0x10000 % 256 == b);
    assert(v / 0x100 % 256 == c);
    assert(v % 256 == d);
    assert(wire::be32_bytes(wire::be32(bytes, 0)) =~= bytes);
}

/// A query that is sent on carries an option exactly where it is configured: the
/// hardware address where that is to be told and was found, the written one where one
/// was found for it, and the first 24 bits of an IPv4 address, or 56 of an IPv6
/// address, where the subnet is to be told. It carries no others, and each once.
pub proof fn law_configured_options(
    source: IpAddr,
    options: DaemonOptions,
    mac: Option<Seq<u8>>,
    device_mac: Option<Seq<u8>>,
)
    ensures
        ({
            let all = edns0::config_options(source, options, mac, device_mac);
            let bits: u8 = match source {
                IpAddr::V4(_) => 24,
                IpAddr::V6(_) => 56,
            };
            &&& forall|i: int, j: int|
                0 <= i < j < all.len() ==> (#[trigger] all[i]).0 != (#[trigger] all[j]).0
            &&& forall|i: int|
                0 <= i < all.len() ==> {
                    ||| (#[trigger] all[i]).0 == 65001 && options.add_mac && mac == Some(all[i].1)
                    ||| all[i].0 == 65073 && (device_mac matches Some(m) && all[i].1
                        == vstd::utf8::encode_utf8(edns0::mac_text(m)))
                    ||| all[i].0 == 8 && options.client_subnet && all[i].1
                        == edns0::subnet_option(source, bits)
                }
            &&& options.add_mac && mac is Some ==> exists|i: int|
                0 <= i < all.len() && (#[trigger] all[i]).0 == 65001
            &&& device_mac is Some ==> exists|i: int|
                0 <= i < all.len() && (#[trigger] all[i]).0 == 65073
            &&& options.client_subnet ==> exists|i: int|
                0 <= i < all.len() && (#[trigger] all[i]).0 == 8
        }),
{
    let all = edns0::config_options(source, options, mac, device_mac);
    let first = edns0::config_options(
        source,
        DaemonOptions { client_subnet: false, ..options },
        mac,
        None,
    );
    let second = edns0::config_options(
        source,
        DaemonOptions { client_subnet: false, ..options },
        mac,
        device_mac,
    );
    if options.add_mac && mac is Some {
        assert(first[0].0 == 65001);
        assert(second[0] == first[0]);
        assert(all[0] == first[0]);
    }
    if device_mac is Some {
        assert(second[first.len() as int].0 == 65073);
        assert(all[first.len() as int] == second[first.len() as int]);
    }
    if options.client_subnet {
        assert(all[second.len() as int].0 == 8);
    }
}

/// A hardware address in writing has two hexadecimal digits for each byte, the higher
/// half first, and a colon between each two bytes.
pub proof fn law_written_hardware_address(mac: Seq<u8>)
    ensures
        ({
            let t = edns0::mac_text(mac);
            &&& mac.len() == 0 ==> t.len() == 0
            &&& mac.len() > 0 ==> t.len() == 3 * mac.len() - 1
            &&& forall|i: int|
                0 <= i < mac.len() ==> {
                    &&& text::hex_value(t[3 * i]) == Some((#[trigger] mac[i]) as int / 16)
                    &&& text::hex_value(t[3 * i + 1]) == Some(mac[i] as int % 16)
                    &&& i + 1 < mac.len() ==> t[3 * i + 2] == ':'
                }
        }),
    decreases mac.len(),
{
    if mac.len() > 0 {
        let last = mac.last();
        let pair = text::lower(text::hex_byte(last));
        lemma_hex_pair(last);
        law_written_hardware_address(mac.drop_last());
        let before = edns0::mac_text(mac.drop_last());
        let t = edns0::mac_text(mac);
        let n = mac.len() - 1;
        if mac.len() > 1 {
            assert(t =~= before + seq![':'] + pair);
            assert(t[3 * n] == pair[0] && t[3 * n + 1] == pair[1] && t[3 * n - 1] == ':');
            assert forall|i: int| 0 <= i < mac.len() implies {
                &&& text::hex_value(t[3 * i]) == Some((#[trigger] mac[i]) as int / 16)
                &&& text::hex_value(t[3 * i + 1]) == Some(mac[i] as int % 16)
                &&& i + 1 < mac.len() ==> t[3 * i + 2] == ':'
            } by {
                if i < n {
                    assert(mac.drop_last()[i] == mac[i]);
                    assert(t[3 * i] == before[3 * i] && t[3 * i + 1] == before[3 * i + 1]);
                    if i + 1 < n {
                        assert(t[3 * i + 2] == before[3 * i + 2]);
                    }
                }
            }
        }
    }
}

proof fn lemma_hex_pair(b: u8)
    ensures
        ({
            let pair = text::lower(text::hex_byte(b));
            &&& pair.len() == 2
            &&& text::hex_value(pair[0]) == Some(b as int / 16)
            &&& text::hex_value(pair[1]) == Some(b as int % 16)
        }),
{
    lemma_hex_digit((b / 16) as int);
    lemma_hex_digit((b % 16) as int);
}

proof fn lemma_hex_digit(d: int)
    requires
        0 <= d < 16,
    ensures
        text::hex_value(text::lower_char(text::hex_upper(d))) == Some(d),
{
}

// ---------------------------------------------------------------------------
// The OPT record in a message
// ---------------------------------------------------------------------------

/// An OPT record is found at whatever place among the additional records, as long as
/// those before it are others and no signature.
pub proof fn law_opt_is_found_anywhere(packet: Seq<u8>, n: nat, is_sign: bool)
    requires
        packet.len() >= 12,
        n < wire::be16(packet, 10),
        edns0::additional_start(packet) matches Ok(start) && plain_records(packet, start, n) && (
        parser::section_end(packet, start, n) matches Ok(pos) && (parser::record_span(
            packet,
            pos,
        ) matches Ok(span) && wire::be16(packet, span.fixed) == 41)),
    ensures
        ({
            let start = edns0::additional_start(packet)->Ok_0;
            let pos = parser::section_end(packet, start, n)->Ok_0;
            let fixed = parser::record_span(packet, pos)->Ok_0.fixed;
            edns0::opt_place(packet, is_sign) == Ok::<Option<OptPlace>, Edns0Fault>(
                Some(
                    OptPlace {
                        offset: pos,
                        fixed,
                        udp_size: wire::be16(packet, fixed + 2),
                        rcode_ext: packet[fixed + 4],
                        flags: wire::be16(packet, fixed + 6),
                    },
                ),
            )
        }),
{
    let start = edns0::additional_start(packet)->Ok_0;
    let count = wire::be16(packet, 10) as nat;
    lemma_start_bounds(packet);
    lemma_search_past(packet, packet, start, n, (count - n) as nat, is_sign);
}

/// A message that has no OPT record gets one with the DNSSEC OK bit, the highest of
/// its flags, and with the payload size that was asked for, or 512.
pub proof fn law_do_bit_is_added(packet: Seq<u8>, minsize: u16)
    requires
        is_plain(packet),
        wire::be16(packet, 10) < 65535,
    ensures
        edns0::opt_place(edns0::with_do_bit(packet, minsize), false) matches Ok(Some(place))
            && place.flags == 0x8000 && place.offset == packet.len() && place.udp_size == (
        if minsize == 0 {
            512u16
        } else {
            minsize
        }),
        edns0::with_do_bit(packet, minsize).len() == packet.len() + 11,
        forall|i: int|
            0 <= i < packet.len() && i != 10 && i != 11 ==> edns0::with_do_bit(packet, minsize)[i]
                == packet[i],
{
    lemma_plain_has_none(packet);
    law_added_opt_is_found(
        packet,
        edns0::asked_size(minsize),
        EDNS0_DO_BIT,
        Seq::empty(),
        false,
    );
}

/// A message that has no OPT record gets one behind its records, with the payload size
/// and exactly the options that were to be added.
pub proof fn law_options_are_added(
    packet: Seq<u8>,
    udp_sz: u16,
    added: Seq<(u16, Seq<u8>)>,
)
    requires
        is_plain(packet),
        wire::be16(packet, 10) < 65535,
        edns0::options_bytes(added).len() < 65536,
    ensures
        ({
            let (after, result) = edns0::pseudoheader(packet, udp_sz, added, 0, false);
            &&& result == Ok::<usize, Edns0Fault>(after.len() as usize)
            &&& after.len() == packet.len() + 11 + edns0::options_bytes(added).len()
            &&& edns0::opt_place(after, false) matches Ok(Some(place)) && place.udp_size == udp_sz
                && place.offset == packet.len()
            &&& edns0::options_in(edns0::record_data(after, packet.len() as int)) == added
            &&& forall|i: int|
                0 <= i < packet.len() && i != 10 && i != 11 ==> after[i] == packet[i]
        }),
{
    lemma_plain_has_none(packet);
    lemma_nothing_leaves(added);
    lemma_nothing_leaves(Seq::empty());
    assert(Seq::<(u16, Seq<u8>)>::empty() + added =~= added);
    law_added_opt_is_found(packet, udp_sz, 0, added, false);
}

proof fn lemma_nothing_leaves(options: Seq<(u16, Seq<u8>)>)
    ensures
        edns0::options_without(options, 0) == options,
    decreases options.len(),
{
    if options.len() > 0 {
        lemma_nothing_leaves(options.drop_last());
        assert(options =~= options.drop_last().push(options.last()));
    }
}

/// Taking the OPT record that was put behind a message away gives the message back.
pub proof fn law_opt_is_taken_away(
    packet: Seq<u8>,
    udp_sz: u16,
    flags: u16,
    options: Seq<(u16, Seq<u8>)>,
)
    requires
        is_plain(packet),
        wire::be16(packet, 10) < 65535,
        edns0::options_bytes(options).len() < 65536,
    ensures
        edns0::without_opt(
            edns0::with_record(packet, edns0::opt_record(udp_sz, flags, options)),
        ) == Ok::<Seq<u8>, parser::ParseFault>(packet),
{
    let record = edns0::opt_record(udp_sz, flags, options);
    let after = edns0::with_record(packet, record);
    let n = packet.len() as int;
    let count = wire::be16(packet, 10);
    let start = edns0::additional_start(packet)->Ok_0;
    law_added_opt_is_found(packet, udp_sz, flags, options, false);
    lemma_start_bounds(packet);
    lemma_same_start(packet, after, n);
    assert(wire::be16(packet + record, 10) == count);
    wire::law_u16_round_trip((count + 1) as u16);
    wire::law_u16_round_trip(count);
    lemma_strip_past(packet, after, start, count as nat, 1, after.take(start), 0);
    assert(after.take(start) + after.subrange(start, n) =~= after.take(n));
    lemma_opt_at(packet, udp_sz, flags, options);
    lemma_strip_last(after, n, count as nat);
    lemma_front_again(packet, record, count);
}

/// A last record that is an OPT record is left out.
proof fn lemma_strip_last(after: Seq<u8>, n: int, number: nat)
    requires
        parser::record_span(after, n) matches Ok(span) && span.end == after.len() && wire::be16(
            after,
            span.fixed,
        ) == T_OPT,
    ensures
        edns0::strip_records(after, n, 1, after.take(n), number) == Ok::<
            (Seq<u8>, nat, int),
            parser::ParseFault,
        >((after.take(n), number, after.len() as int)),
{
    reveal_with_fuel(edns0::strip_records, 2);
}

/// What stands before a record that was put behind a message is the message, once the
/// record is no longer counted.
proof fn lemma_front_again(packet: Seq<u8>, record: Seq<u8>, count: u16)
    requires
        packet.len() >= 12,
        count == wire::be16(packet, 10),
    ensures
        ({
            let after = edns0::with_record(packet, record);
            let front = after.take(packet.len() as int) + after.skip(after.len() as int);
            edns0::with_arcount(front, count) == packet
        }),
{
    let after = edns0::with_record(packet, record);
    let front = after.take(packet.len() as int) + after.skip(after.len() as int);
    assert(front.len() == packet.len());
    assert(wire::be16_bytes(count)[0] == packet[10]);
    assert(wire::be16_bytes(count)[1] == packet[11]);
    assert forall|i: int| 0 <= i < packet.len() && i != 10 && i != 11 implies front[i]
        == packet[i] by {
        assert(after[i] == (packet + record)[i]);
    }
    assert(edns0::with_arcount(front, count) =~= packet);
}

/// The record that was put behind a message is read there.
proof fn lemma_opt_at(
    packet: Seq<u8>,
    udp_sz: u16,
    flags: u16,
    options: Seq<(u16, Seq<u8>)>,
)
    requires
        packet.len() >= 12,
        edns0::options_bytes(options).len() < 65536,
    ensures
        ({
            let after = edns0::with_record(packet, edns0::opt_record(udp_sz, flags, options));
            &&& parser::record_span(after, packet.len() as int) matches Ok(span) && span.end
                == after.len() && wire::be16(after, span.fixed) == T_OPT
        }),
{
    let record = edns0::opt_record(udp_sz, flags, options);
    let after = edns0::with_record(packet, record);
    let bytes = edns0::options_bytes(options);
    let n = packet.len() as int;
    wire::law_u16_round_trip(T_OPT);
    wire::law_u16_round_trip(bytes.len() as u16);
    assert(record.len() == 11 + bytes.len());
    assert(forall|i: int| n <= i < after.len() ==> after[i] == record[i - n]);
    assert(after[n] == 0);
    assert(compression::label_type_of(0u8) is Normal) by {
        assert(0u8 & 0xC0u8 == 0) by (bit_vector);
    }
    assert(parser::name_end(after, n) == Ok::<int, parser::ParseFault>(n + 1));
    assert(wire::be16(after, n + 1) == T_OPT);
    assert(wire::be16(after, n + 9) == bytes.len());
}

/// Records without OPT are all kept.
proof fn lemma_strip_past(
    a: Seq<u8>,
    b: Seq<u8>,
    pos: int,
    count: nat,
    more: nat,
    kept: Seq<u8>,
    number: nat,
)
    requires
        same_below(a, b, a.len() as int),
        12 <= pos <= a.len(),
        plain_records(a, pos, count),
        parser::section_end(a, pos, count) is Ok,
    ensures
        ({
            let end = parser::section_end(a, pos, count)->Ok_0;
            &&& pos <= end <= a.len()
            &&& edns0::strip_records(b, pos, count + more, kept, number) == edns0::strip_records(
                b,
                end,
                more,
                kept + b.subrange(pos, end),
                number + count,
            )
        }),
    decreases count,
{
    if count > 0 {
        parser::lemma_name_advance(a, pos);
        let span = parser::record_span(a, pos)->Ok_0;
        lemma_same_record(a, b, a.len() as int, pos);
        let longer = kept + b.subrange(pos, span.end);
        lemma_strip_past(a, b, span.end, (count - 1) as nat, more, longer, number + 1);
        let end = parser::section_end(a, pos, count)->Ok_0;
        assert(longer + b.subrange(span.end, end) =~= kept + b.subrange(pos, end));
    } else {
        assert(kept + b.subrange(pos, pos) =~= kept);
    }
}

/// Where a message has an OPT record already, the options that are added stand behind
/// those it has, and the record is still the only one.
pub proof fn law_options_join_those_there(
    packet: Seq<u8>,
    old_sz: u16,
    flags: u16,
    existing: Seq<(u16, Seq<u8>)>,
    udp_sz: u16,
    added: Seq<(u16, Seq<u8>)>,
)
    requires
        is_plain(packet),
        wire::be16(packet, 10) < 65535,
        edns0::options_bytes(existing).len() < 65536,
        edns0::options_bytes(existing + added).len() < 65536,
    ensures
        ({
            let before = edns0::with_record(packet, edns0::opt_record(old_sz, flags, existing));
            let (after, result) = edns0::pseudoheader(before, udp_sz, added, 0, false);
            &&& result == Ok::<usize, Edns0Fault>(after.len() as usize)
            &&& after.take(10) == packet.take(10)
            &&& wire::be16(after, 10) == wire::be16(packet, 10) + 1
            &&& after.subrange(12, packet.len() as int) == packet.skip(12)
            &&& edns0::opt_place(after, false) matches Ok(Some(place)) && place.udp_size == udp_sz
                && place.offset == packet.len()
            &&& edns0::options_in(edns0::record_data(after, packet.len() as int)) == existing
                + added
        }),
{
    let before = edns0::with_record(packet, edns0::opt_record(old_sz, flags, existing));
    let (after, result) = edns0::pseudoheader(before, udp_sz, added, 0, false);
    law_added_opt_is_found(packet, old_sz, flags, existing, false);
    law_opt_is_taken_away(packet, old_sz, flags, existing);
    lemma_nothing_leaves(existing);
    lemma_nothing_leaves(added);
    law_added_opt_is_found(packet, udp_sz, 0, existing + added, false);
    let record = edns0::opt_record(udp_sz, 0, existing + added);
    assert(wire::be16(packet + record, 10) == wire::be16(packet, 10));
    wire::law_u16_round_trip((wire::be16(packet, 10) + 1) as u16);
    assert(after.take(10) =~= packet.take(10));
    assert(after.subrange(12, packet.len() as int) =~= packet.skip(12));
}

/// Options leave exactly where they have the number, and the others keep their order.
pub proof fn law_options_that_stay(options: Seq<(u16, Seq<u8>)>, code: u16)
    requires
        code != 0,
    ensures
        edns0::options_without(options, code) == options.filter(
            |o: (u16, Seq<u8>)| o.0 != code,
        ),
    decreases options.len(),
{
    reveal(Seq::filter);
    let keep = |o: (u16, Seq<u8>)| o.0 != code;
    if options.len() > 0 {
        law_options_that_stay(options.drop_last(), code);
    } else {
        assert(options.filter(keep) =~= options);
    }
}

// ---------------------------------------------------------------------------
// Numbers and fields
// ---------------------------------------------------------------------------

/// The options have the numbers that are registered for them, or that their makers use.
pub proof fn law_numbers_of_options(data: Edns0Option)
    ensures
        edns0::code_number(Edns0OptionCode::Nsid) == 3,
        edns0::code_number(Edns0OptionCode::ClientSubnet) == 8,
        edns0::code_number(Edns0OptionCode::Expire) == 9,
        edns0::code_number(Edns0OptionCode::Cookie) == 10,
        edns0::code_number(Edns0OptionCode::TcpKeepalive) == 11,
        edns0::code_number(Edns0OptionCode::Padding) == 12,
        edns0::code_number(Edns0OptionCode::ExtendedDnsError) == 15,
        edns0::code_number(Edns0OptionCode::Mac) == 65001,
        edns0::code_number(Edns0OptionCode::NomDeviceId) == 65073,
        edns0::code_number(Edns0OptionCode::NomCpeId) == 65074,
        edns0::code_number(Edns0OptionCode::Umbrella) == 20292,
        match data {
            Edns0Option::ClientSubnet(_) => data.number() == 8,
            Edns0Option::Mac(_) => data.number() == 65001,
            Edns0Option::NomCpeId(_) => data.number() == 65074,
            Edns0Option::NomDeviceId(_) => data.number() == 65073,
            Edns0Option::Umbrella { .. } => data.number() == 20292,
            Edns0Option::Cookie(_) => data.number() == 10,
            Edns0Option::Nsid(_) => data.number() == 3,
            Edns0Option::ExtendedDnsError { .. } => data.number() == 15,
            Edns0Option::Padding(_) => data.number() == 12,
            Edns0Option::Unknown { code, .. } => data.number() == code,
        },
{
}

/// The data of a client subnet is its family, the length that was asked with, the one
/// that is answered for, and the address; that of an extended error its number and
/// its text; that of padding zeros.
pub proof fn law_data_of_options(data: Edns0Option)
    ensures
        data matches Edns0Option::ClientSubnet(s) ==> {
            let w = data.payload();
            &&& w.len() == 4 + s.addr@.len()
            &&& w[0] * 256 + w[1] == s.family
            &&& w[2] == s.source_netmask
            &&& w[3] == s.scope_netmask
            &&& w.skip(4) == s.addr@
        },
        data matches Edns0Option::ExtendedDnsError { info_code, extra_text } ==> {
            let w = data.payload();
            &&& w[0] * 256 + w[1] == info_code
            &&& w.skip(2) == encode_utf8(extra_text@)
        },
        data matches Edns0Option::Padding(n) ==> data.payload().len() == n && forall|i: int|
            0 <= i < n ==> #[trigger] data.payload()[i] == 0,
        data matches Edns0Option::Umbrella { device_id, asset_id } ==> data.payload() == device_id@
            + asset_id@,
{
    match data {
        Edns0Option::ClientSubnet(s) => {
            wire::law_u16_round_trip(s.family);
            let w = data.payload();
            assert(w[0] == wire::be16_bytes(s.family)[0] && w[1] == wire::be16_bytes(
                s.family,
            )[1]);
            assert(w.skip(4) =~= s.addr@);
        },
        Edns0Option::ExtendedDnsError { info_code, extra_text } => {
            wire::law_u16_round_trip(info_code);
            let w = data.payload();
            assert(w[0] == wire::be16_bytes(info_code)[0] && w[1] == wire::be16_bytes(
                info_code,
            )[1]);
            assert(w.skip(2) =~= encode_utf8(extra_text@));
        },
        _ => {},
    }
}

/// Of the additional records the first OPT record is found, with its size, its part of
/// the response code and its flags. The search ends before a signature of the message,
/// unless signatures may be passed.
pub proof fn law_search_for_opt(packet: Seq<u8>, pos: int, p: int, count: nat, is_sign: bool)
    requires
        count > 0,
        0 <= pos < p,
        parser::name_end(packet, pos) == Ok::<int, parser::ParseFault>(p),
        p + 10 + packet[p + 8] * 256 + packet[p + 9] <= packet.len(),
        p + 10 <= packet.len(),
    ensures
        ({
            let kind = packet[p] * 256 + packet[p + 1];
            let end = p + 10 + packet[p + 8] * 256 + packet[p + 9];
            let r = edns0::search_opt(packet, pos, count, is_sign);
            &&& kind == 41 ==> (r matches Ok(Some(place)) && place.offset == pos && place.fixed == p
                && place.udp_size == packet[p + 2] * 256 + packet[p + 3] && place.rcode_ext
                == packet[p + 4] && place.flags == packet[p + 6] * 256 + packet[p + 7])
            &&& (kind == 250 || kind == 249) && !is_sign ==> r == Ok::<
                Option<OptPlace>,
                Edns0Fault,
            >(None)
            &&& kind != 41 && (is_sign || kind != 250 && kind != 249) ==> r == edns0::search_opt(
                packet,
                end,
                (count - 1) as nat,
                is_sign,
            )
            &&& edns0::search_opt(packet, pos, 0, is_sign) == Ok::<Option<OptPlace>, Edns0Fault>(
                None,
            )
        }),
{
}

/// A message with options is not longer than the size that it announces; where it would
/// be, it stays as it was.
pub proof fn law_options_keep_the_size(packet: Seq<u8>, added: Seq<(u16, Seq<u8>)>, size: u16)
    requires
        edns0::with_options(packet, added, size).len() <= usize::MAX,
    ensures
        edns0::with_options(packet, added, size) == packet || edns0::with_options(
            packet,
            added,
            size,
        ).len() <= size,
        edns0::configured(packet, size as usize, added, size).1 matches Ok(len) ==> added.len() == 0
            || len <= size,
{
    let (after, result) = edns0::pseudoheader(packet, size, added, 0, false);
    if let Ok(len) = result {
        assert(len == after.len() as usize);
    }
}

} // verus!
