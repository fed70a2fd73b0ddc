//! What holds of answers with authority: which zone a name or an address belongs to,
//! and what is answered for it.

use crate::addr::IpAddr;
use crate::auth::{self, AddrList, AuthFault, AuthState, AuthZone};
use crate::domain_laws;
use crate::parser::{self, ParseFault};
use crate::protocol::{C_IN, T_AXFR, T_NS, T_PTR, T_SOA};
use crate::text;
use crate::wire;
use vstd::arithmetic::power2::pow2;
use vstd::prelude::*;
use vstd::utf8::*;

verus! {

// ---------------------------------------------------------------------------
// Names and zones
// ---------------------------------------------------------------------------

/// Whether a name is that of a domain, whatever the case of its letters.
pub open spec fn is_top(domain: Seq<char>, name: Seq<char>) -> bool {
    text::lower(name) == text::lower(domain)
}

/// Whether the name of a domain stands behind the dot at a place of a name.
pub open spec fn is_below_at(domain: Seq<char>, name: Seq<char>, k: int) -> bool {
    &&& 0 <= k < name.len()
    &&& name[k] == '.'
    &&& text::lower(name.skip(k + 1)) == text::lower(domain)
}

/// Whether a name is that of a domain or ends in a dot and that.
pub open spec fn belongs(domain: Seq<char>, name: Seq<char>) -> bool {
    is_top(domain, name) || exists|k: int| is_below_at(domain, name, k)
}

proof fn lemma_cut(front: Seq<char>, rest: Seq<char>, domain: Seq<char>)
    requires
        text::lower(rest) == text::lower(domain),
    ensures
        ({
            let n = encode_utf8(front + rest);
            let cut = n.len() - encode_utf8(domain).len();
            &&& cut == encode_utf8(front).len()
            &&& is_char_boundary(n, cut)
            &&& decode_utf8(n.skip(cut)) == rest
        }),
{
    text::lemma_lower_utf8_len(rest);
    text::lemma_lower_utf8_len(domain);
    text::lemma_utf8_concat(front, rest);
    domain_laws::lemma_boundary(front, rest);
    let n = encode_utf8(front + rest);
    let cut = encode_utf8(front).len() as int;
    assert(n.skip(cut) =~= encode_utf8(rest));
    encode_utf8_decode_utf8(rest);
}

pub proof fn lemma_last_byte(front: Seq<char>)
    requires
        front.len() > 0,
    ensures
        encode_utf8(front).len() > 0,
        front.last() == '.' <==> encode_utf8(front).last() == 46,
{
    let init = front.drop_last();
    let c = front.last();
    assert(front =~= init + seq![c]);
    text::lemma_utf8_concat(init, seq![c]);
    lemma_char_byte(c);
}

proof fn lemma_char_byte(c: char)
    ensures
        encode_utf8(seq![c]).len() > 0,
        c == '.' <==> encode_utf8(seq![c]).last() == 46,
{
    reveal_with_fuel(encode_utf8, 2);
    char_is_scalar(c);
    let e = encode_utf8(seq![c]);
    assert(seq![c].drop_first() =~= Seq::<char>::empty());
    assert(e =~= encode_scalar(c as u32));
    if c <= '\u{7f}' {
        assert(is_ascii_chars(seq![c]));
        is_ascii_chars_encode_utf8(seq![c]);
        assert(e[0] == c as u8);
    } else {
        let v = c as u32;
        assert((0x80u8 | (v & 0x3F) as u8) >= 0x80) by (bit_vector);
        assert(e.last() == last_continuation_byte(v));
    }
}

/// A name is in a zone exactly where it is that of its domain, or ends in a dot and
/// that, whatever the case of the letters. Where it is longer, the place of that dot
/// is told.
pub proof fn law_zone_of_a_name(domain: Seq<char>, name: Seq<char>)
    ensures
        auth::zone_place(domain, name).0 == belongs(domain, name),
        auth::zone_place(domain, name) == (true, None::<usize>) <==> is_top(domain, name),
        forall|k: int|
            #[trigger] is_below_at(domain, name, k) && text::utf8_len(name) <= usize::MAX
                ==> auth::zone_place(domain, name) == (true, Some(
                text::utf8_len(name.take(k)) as usize,
            )),
{
    let n = encode_utf8(name);
    let cut = n.len() - encode_utf8(domain).len();
    encode_utf8_valid_utf8(name);
    encode_utf8_decode_utf8(name);
    if is_top(domain, name) {
        assert(Seq::<char>::empty() + name =~= name);
        lemma_cut(Seq::empty(), name, domain);
    }
    assert forall|k: int| #[trigger] is_below_at(domain, name, k) implies auth::zone_place(
        domain,
        name,
    ).0 && cut == text::utf8_len(name.take(k)) + 1 && cut > 0 && n[cut - 1] == 46 by {
        let front = name.take(k + 1);
        assert(front + name.skip(k + 1) =~= name);
        lemma_cut(front, name.skip(k + 1), domain);
        lemma_last_byte(front);
        text::lemma_utf8_concat(front, name.skip(k + 1));
        assert(n[cut - 1] == encode_utf8(front).last());
        assert(front =~= name.take(k) + seq!['.']);
        text::lemma_utf8_concat(name.take(k), seq!['.']);
        text::lemma_utf8_ascii_char('.');
    }
    if auth::zone_place(domain, name).0 {
        let front = decode_utf8(n.subrange(0, cut));
        let rest = decode_utf8(n.subrange(cut, n.len() as int));
        assert(n.skip(cut) =~= n.subrange(cut, n.len() as int));
        valid_utf8_split(n, cut);
        decode_utf8_split(n, cut);
        assert(name =~= front + rest);
        decode_utf8_encode_utf8(n.subrange(0, cut));
        if cut == 0 {
            assert(encode_utf8(front).len() == 0);
            if front.len() > 0 {
                lemma_last_byte(front);
            }
            assert(name =~= rest);
        } else {
            if front.len() == 0 {
                assert(encode_utf8(front).len() == 0);
            }
            lemma_last_byte(front);
            let k = front.len() - 1;
            assert(name.skip(k + 1) =~= rest);
            assert(encode_utf8(front).last() == n[cut - 1]);
            assert(is_below_at(domain, name, k));
            if is_top(domain, name) {
                assert(cut == 0);
            }
        }
    }
}

/// The zone of a name is the first in the configured order that it belongs to, and
/// there is one wherever it belongs to any.
pub proof fn law_first_zone_of_a_name(zones: Seq<AuthZone>, name: Seq<char>)
    ensures
        match auth::forward_zone(zones, name, 0) {
            Some(i) => {
                &&& 0 <= i < zones.len()
                &&& belongs(zones[i].domain@, name)
                &&& forall|k: int| 0 <= k < i ==> !belongs((#[trigger] zones[k]).domain@, name)
            },
            None => forall|k: int|
                0 <= k < zones.len() ==> !belongs((#[trigger] zones[k]).domain@, name),
        },
{
    lemma_forward_zone(zones, name, 0);
}

proof fn lemma_forward_zone(zones: Seq<AuthZone>, name: Seq<char>, from: int)
    requires
        0 <= from <= zones.len(),
    ensures
        match auth::forward_zone(zones, name, from) {
            Some(i) => {
                &&& from <= i < zones.len()
                &&& belongs(zones[i].domain@, name)
                &&& forall|k: int| from <= k < i ==> !belongs((#[trigger] zones[k]).domain@, name)
            },
            None => forall|k: int|
                from <= k < zones.len() ==> !belongs((#[trigger] zones[k]).domain@, name),
        },
    decreases zones.len() - from,
{
    if from < zones.len() {
        law_zone_of_a_name(zones[from].domain@, name);
        lemma_forward_zone(zones, name, from + 1);
    }
}

// ---------------------------------------------------------------------------
// Addresses and zones
// ---------------------------------------------------------------------------

/// Whether two numbers of so many bits agree in the first of them: they stand in the
/// same block of those that do.
pub open spec fn in_block(a: nat, b: nat, bits: nat, prefix: nat) -> bool {
    let size = pow2((bits - prefix) as nat);
    let start = b - b % size;
    start <= a < start + size
}

proof fn lemma_block(a: nat, b: nat, size: nat)
    by (nonlinear_arith)
    requires
        size > 0,
    ensures
        a / size == b / size <==> b - b % size <= a < b - b % size + size,
{
    let q = b / size;
    assert(b == size * q + b % size);
    assert(a == size * (a / size) + a % size);
    assert(0 <= a % size < size);
    if a / size < q {
        assert(size * (a / size) + size <= size * q);
    }
    if a / size > q {
        assert(size * q + size <= size * (a / size));
    }
}

/// An address is in a network exactly where both are of one family, the prefix is not
/// longer than an address, and the address stands in the block of those that begin
/// with the same bits as the network's.
pub proof fn law_network_of_an_address(addr: IpAddr, net: AddrList)
    ensures
        auth::in_network(addr, net) == match (addr, net.addr) {
            (IpAddr::V4(a), IpAddr::V4(n)) => net.prefixlen <= 32 && in_block(
                a.bits as nat,
                n.bits as nat,
                32,
                net.prefixlen as nat,
            ),
            (IpAddr::V6(a), IpAddr::V6(n)) => net.prefixlen <= 128 && in_block(
                a.bits as nat,
                n.bits as nat,
                128,
                net.prefixlen as nat,
            ),
            _ => false,
        },
{
    vstd::arithmetic::power2::lemma2_to64();
    match (addr, net.addr) {
        (IpAddr::V4(a), IpAddr::V4(n)) => {
            if net.prefixlen <= 32 {
                let size = pow2((32 - net.prefixlen) as nat);
                vstd::arithmetic::power2::lemma_pow2_pos((32 - net.prefixlen) as nat);
                lemma_block(a.bits as nat, n.bits as nat, size);
            }
        },
        (IpAddr::V6(a), IpAddr::V6(n)) => {
            if net.prefixlen <= 128 {
                let size = pow2((128 - net.prefixlen) as nat);
                vstd::arithmetic::power2::lemma_pow2_pos((128 - net.prefixlen) as nat);
                lemma_block(a.bits as nat, n.bits as nat, size);
            }
        },
        _ => {},
    }
}

/// Whether an address is in one of the networks of a list.
pub open spec fn is_in_some(list: Seq<AddrList>, addr: IpAddr) -> bool {
    exists|k: int| 0 <= k < list.len() && auth::in_network(addr, #[trigger] list[k])
}

proof fn lemma_first_network(list: Seq<AddrList>, addr: IpAddr, from: int)
    requires
        0 <= from <= list.len(),
    ensures
        match auth::first_network(list, addr, from) {
            Some(i) => {
                &&& from <= i < list.len()
                &&& auth::in_network(addr, list[i])
                &&& forall|k: int| from <= k < i ==> !auth::in_network(addr, #[trigger] list[k])
            },
            None => forall|k: int|
                from <= k < list.len() ==> !auth::in_network(addr, #[trigger] list[k]),
        },
    decreases list.len() - from,
{
    if from < list.len() {
        lemma_first_network(list, addr, from + 1);
    }
}

/// The network of an address is the first of the list that it is in, and there is one
/// wherever it is in any.
pub proof fn law_first_network_of_an_address(list: Seq<AddrList>, addr: IpAddr)
    ensures
        match auth::first_network(list, addr, 0) {
            Some(i) => {
                &&& 0 <= i < list.len()
                &&& auth::in_network(addr, list[i])
                &&& forall|k: int| 0 <= k < i ==> !auth::in_network(addr, #[trigger] list[k])
            },
            None => !is_in_some(list, addr),
        },
{
    lemma_first_network(list, addr, 0);
}

/// An address may be answered for in a zone exactly where none of the networks that
/// are left out holds it, and one of the zone's networks does if it has a list of
/// them.
pub proof fn law_zone_allows(zone: AuthZone, addr: IpAddr)
    ensures
        auth::zone_allows(zone, addr) == (!is_in_some(zone.exclude@, addr) && (match zone.subnet {
            Some(list) => is_in_some(list@, addr),
            None => true,
        })),
        auth::in_subnet(zone, addr) == (match zone.subnet {
            Some(list) => is_in_some(list@, addr),
            None => false,
        }),
{
    law_first_network_of_an_address(zone.exclude@, addr);
    if let Some(list) = zone.subnet {
        law_first_network_of_an_address(list@, addr);
    }
}

/// The zone of an address is the first in the configured order with a network that
/// holds it, and there is one wherever any has.
pub proof fn law_first_zone_of_an_address(zones: Seq<AuthZone>, addr: IpAddr)
    ensures
        match auth::reverse_zone(zones, addr, 0) {
            Some(i) => {
                &&& 0 <= i < zones.len()
                &&& zones[i].subnet matches Some(list) && is_in_some(list@, addr)
                &&& forall|k: int|
                    0 <= k < i ==> !((#[trigger] zones[k]).subnet matches Some(list) && is_in_some(
                        list@,
                        addr,
                    ))
            },
            None => forall|k: int|
                0 <= k < zones.len() ==> !((#[trigger] zones[k]).subnet matches Some(list)
                    && is_in_some(list@, addr)),
        },
{
    lemma_reverse_zone(zones, addr, 0);
}

proof fn lemma_reverse_zone(zones: Seq<AuthZone>, addr: IpAddr, from: int)
    requires
        0 <= from <= zones.len(),
    ensures
        match auth::reverse_zone(zones, addr, from) {
            Some(i) => {
                &&& from <= i < zones.len()
                &&& zones[i].subnet matches Some(list) && is_in_some(list@, addr)
                &&& forall|k: int|
                    from <= k < i ==> !((#[trigger] zones[k]).subnet matches Some(list)
                        && is_in_some(list@, addr))
            },
            None => forall|k: int|
                from <= k < zones.len() ==> !((#[trigger] zones[k]).subnet matches Some(list)
                    && is_in_some(list@, addr)),
        },
    decreases zones.len() - from,
{
    if from < zones.len() {
        law_zone_allows(zones[from], addr);
        lemma_reverse_zone(zones, addr, from + 1);
    }
}

// ---------------------------------------------------------------------------
// Answers
// ---------------------------------------------------------------------------

/// Whether a message asks one question: for a type of a name, in the class of the
/// Internet.
pub open spec fn asks(packet: Seq<u8>, name: Seq<char>, qtype: u16) -> bool {
    &&& packet.len() >= 12
    &&& wire::be16(packet, 4) == 1
    &&& packet[2] / 8 % 16 == 0
    &&& parser::name_at(packet, 12) matches Ok((p, n)) && n == name && p + 4 <= packet.len()
        && wire::be16(packet, p) == qtype && wire::be16(packet, p + 2) == C_IN
}

/// Whether the header of an answer says so much: it is an answer, with or without
/// authority, with a code, and so many records in the answer and the authority
/// section. It has the number and the questions of the query.
pub open spec fn says(
    answer: Seq<u8>,
    packet: Seq<u8>,
    local_query: bool,
    authority: bool,
    code: u8,
    counts: (u16, u16),
) -> bool {
    &&& answer.len() >= 12
    &&& answer[0] == packet[0] && answer[1] == packet[1]
    &&& answer[2] & 0x86 == if authority {
        0x84u8
    } else {
        0x80u8
    }
    &&& answer[2] & 0x79 == packet[2] & 0x79
    &&& answer[3] & 0x80 == if local_query {
        0x80u8
    } else {
        0u8
    }
    &&& answer[3] & 0x2F == code
    &&& answer[4] == packet[4] && answer[5] == packet[5]
    &&& wire::be16(answer, 6) == counts.0
    &&& wire::be16(answer, 8) == counts.1
    &&& wire::be16(answer, 10) == 0
}

/// What a query with one question is answered, as far as the header tells.
pub open spec fn is_answered(
    packet: Seq<u8>,
    qlen: usize,
    peer: Seq<char>,
    local_query: bool,
    zones: Seq<AuthZone>,
    has_server: bool,
    authority: bool,
    code: u8,
    counts: (u16, u16),
) -> bool {
    auth::auth_outcome(packet, qlen, peer, local_query, zones) matches Ok((end, st)) && forall|
        header: Seq<u8>,
    |
        header.len() >= 12 ==> says(
            #[trigger] auth::answer_header(header, packet, st, local_query, has_server),
            packet,
            local_query,
            authority,
            code,
            counts,
        )
}

proof fn lemma_header(
    header: Seq<u8>,
    packet: Seq<u8>,
    st: AuthState,
    local_query: bool,
    has_server: bool,
    code: u8,
    counts: (u16, u16),
)
    requires
        header.len() >= 12,
        packet.len() >= 12,
        code < 16,
        auth::response_code(st, local_query) == code,
        counts == (if auth::is_refused(st, local_query) {
            (0u16, 0u16)
        } else {
            auth::record_counts(st, has_server)
        }),
    ensures
        says(
            auth::answer_header(header, packet, st, local_query, has_server),
            packet,
            local_query,
            st.auth,
            code,
            counts,
        ),
{
    let h = packet[2];
    let l = packet[3];
    wire::law_u16_round_trip(counts.0);
    wire::law_u16_round_trip(counts.1);
    assert((((h & 0xF9) | 0x80) | 0x04) & 0x86 == 0x84 && ((h & 0xF9) | 0x80) & 0x86 == 0x80 && (((h
        & 0xF9) | 0x80) | 0x04) & 0x79 == h & 0x79 && ((h & 0xF9) | 0x80) & 0x79 == h & 0x79)
        by (bit_vector);
    assert(((((l & 0x7F) & 0xDF) & 0xF0) | code) & 0x80 == 0 && ((((l & 0x7F) & 0xDF) & 0xF0)
        | code) & 0x2F == code && ((((l | 0x80) & 0xDF) & 0xF0) | code) & 0x80 == 0x80 && ((((l
        | 0x80) & 0xDF) & 0xF0) | code) & 0x2F == code) by (bit_vector)
        requires
            code < 16,
    ;
}

proof fn lemma_one_question(
    packet: Seq<u8>,
    qlen: usize,
    name: Seq<char>,
    qtype: u16,
    peer: Seq<char>,
    local_query: bool,
    zones: Seq<AuthZone>,
)
    requires
        asks(packet, name, qtype),
        qlen >= 12,
    ensures
        ({
            let st = auth::initial_state(local_query);
            match auth::after_question(st, name, qtype, C_IN, local_query, zones) {
                None => auth::auth_outcome(packet, qlen, peer, local_query, zones) == Err::<
                    (int, AuthState),
                    AuthFault,
                >(AuthFault::UnauthorizedAxfr { peer_addr: peer }),
                Some(next) => auth::auth_outcome(packet, qlen, peer, local_query, zones) matches Ok(
                    (_, found),
                ) && found == next,
            }
        }),
{
    parser::law_extract_and_skip_agree(packet, 12);
    reveal_with_fuel(parser::questions_end, 2);
    reveal_with_fuel(auth::after_questions, 2);
}

/// Whether a question is about the name of an address, which only remote clients may
/// ask.
pub open spec fn is_reverse(name: Seq<char>, qtype: u16, local_query: bool) -> bool {
    !local_query && (qtype == T_PTR || qtype == T_SOA || qtype == T_NS) && parser::arpa_addr(
        name,
    ) is Ok
}

/// A name outside all configured zones is refused to remote clients, without
/// authority and without records. To local ones it does not exist.
pub proof fn law_name_outside_the_zones(
    packet: Seq<u8>,
    qlen: usize,
    name: Seq<char>,
    qtype: u16,
    peer: Seq<char>,
    local_query: bool,
    zones: Seq<AuthZone>,
    has_server: bool,
)
    requires
        asks(packet, name, qtype),
        qlen >= 12,
        !is_reverse(name, qtype, local_query),
        forall|k: int| 0 <= k < zones.len() ==> !belongs((#[trigger] zones[k]).domain@, name),
    ensures
        is_answered(
            packet,
            qlen,
            peer,
            local_query,
            zones,
            has_server,
            false,
            if local_query {
                3
            } else {
                5
            },
            (0, 0),
        ),
{
    lemma_one_question(packet, qlen, name, qtype, peer, local_query, zones);
    law_first_zone_of_a_name(zones, name);
    let st = auth::after_question(
        auth::initial_state(local_query),
        name,
        qtype,
        C_IN,
        local_query,
        zones,
    )->0;
    let code: u8 = if local_query {
        3
    } else {
        5
    };
    assert forall|header: Seq<u8>| header.len() >= 12 implies says(
        #[trigger] auth::answer_header(header, packet, st, local_query, has_server),
        packet,
        local_query,
        false,
        code,
        (0, 0),
    ) by {
        lemma_header(header, packet, st, local_query, has_server, code, (0, 0));
    }
}

/// The name of any configured zone, at whatever place among them, is answered for with
/// authority: its start of authority is one answer, with the server behind it where
/// there is one, its name servers are the server, and its transfer is refused.
pub proof fn law_top_of_a_zone(
    packet: Seq<u8>,
    qlen: usize,
    name: Seq<char>,
    qtype: u16,
    peer: Seq<char>,
    local_query: bool,
    zones: Seq<AuthZone>,
    z: int,
    has_server: bool,
)
    requires
        asks(packet, name, qtype),
        qlen >= 12,
        !is_reverse(name, qtype, local_query),
        0 <= z < zones.len(),
        is_top(zones[z].domain@, name),
        forall|k: int| 0 <= k < z ==> !belongs((#[trigger] zones[k]).domain@, name),
        qtype == T_SOA || qtype == T_NS || qtype == T_AXFR,
    ensures
        qtype == T_AXFR ==> auth::auth_outcome(packet, qlen, peer, local_query, zones) == Err::<
            (int, AuthState),
            AuthFault,
        >(AuthFault::UnauthorizedAxfr { peer_addr: peer }),
        qtype != T_AXFR ==> is_answered(
            packet,
            qlen,
            peer,
            local_query,
            zones,
            has_server,
            true,
            0,
            if qtype == T_SOA {
                (1, if has_server {
                    1
                } else {
                    0
                })
            } else {
                (if has_server {
                    1
                } else {
                    0
                }, 0)
            },
        ),
{
    lemma_one_question(packet, qlen, name, qtype, peer, local_query, zones);
    law_first_zone_of_a_name(zones, name);
    let i = auth::forward_zone(zones, name, 0)->0;
    assert(belongs(zones[z].domain@, name));
    assert(i == z);
    law_zone_of_a_name(zones[z].domain@, name);
    if qtype != T_AXFR {
        let st = auth::after_question(
            auth::initial_state(local_query),
            name,
            qtype,
            C_IN,
            local_query,
            zones,
        )->0;
        let counts: (u16, u16) = auth::record_counts(st, has_server);
        assert forall|header: Seq<u8>| header.len() >= 12 implies says(
            #[trigger] auth::answer_header(header, packet, st, local_query, has_server),
            packet,
            local_query,
            true,
            0,
            counts,
        ) by {
            lemma_header(header, packet, st, local_query, has_server, 0, counts);
        }
    }
}

/// Anything else that is asked of a name in one of the zones does not exist. Remote
/// clients are told so with authority, and with one record of the zone.
pub proof fn law_nothing_else_exists(
    packet: Seq<u8>,
    qlen: usize,
    name: Seq<char>,
    qtype: u16,
    peer: Seq<char>,
    local_query: bool,
    zones: Seq<AuthZone>,
    z: int,
    has_server: bool,
)
    requires
        asks(packet, name, qtype),
        qlen >= 12,
        !is_reverse(name, qtype, local_query),
        0 <= z < zones.len(),
        belongs(zones[z].domain@, name),
        forall|k: int| 0 <= k < z ==> !belongs((#[trigger] zones[k]).domain@, name),
        !is_top(zones[z].domain@, name) || !(qtype == T_SOA || qtype == T_NS || qtype == T_AXFR),
    ensures
        is_answered(
            packet,
            qlen,
            peer,
            local_query,
            zones,
            has_server,
            !local_query,
            3,
            if local_query {
                (0, 0)
            } else {
                (0, 1)
            },
        ),
{
    lemma_one_question(packet, qlen, name, qtype, peer, local_query, zones);
    law_first_zone_of_a_name(zones, name);
    let i = auth::forward_zone(zones, name, 0)->0;
    assert(i == z);
    law_zone_of_a_name(zones[z].domain@, name);
    let st = auth::after_question(
        auth::initial_state(local_query),
        name,
        qtype,
        C_IN,
        local_query,
        zones,
    )->0;
    let counts: (u16, u16) = auth::record_counts(st, has_server);
    assert forall|header: Seq<u8>| header.len() >= 12 implies says(
        #[trigger] auth::answer_header(header, packet, st, local_query, has_server),
        packet,
        local_query,
        !local_query,
        3,
        counts,
    ) by {
        lemma_header(header, packet, st, local_query, has_server, 3, counts);
    }
}

/// A remote client that asks about the name of an address is refused where no zone has
/// a network that holds the address. Where one has, at whatever place among them, its
/// start of authority and its name servers are answered with authority, and any other
/// name of the address does not exist.
pub proof fn law_name_of_an_address(
    packet: Seq<u8>,
    qlen: usize,
    name: Seq<char>,
    qtype: u16,
    peer: Seq<char>,
    zones: Seq<AuthZone>,
    addr: IpAddr,
    has_server: bool,
)
    requires
        asks(packet, name, qtype),
        qlen >= 12,
        is_reverse(name, qtype, false),
        parser::arpa_addr(name) == Ok::<IpAddr, ParseFault>(addr),
    ensures
        ({
            let known = exists|k: int|
                0 <= k < zones.len() && ((#[trigger] zones[k]).subnet matches Some(list)
                    && is_in_some(list@, addr));
            let server: u16 = if has_server {
                1
            } else {
                0
            };
            is_answered(
                packet,
                qlen,
                peer,
                false,
                zones,
                has_server,
                known,
                if !known {
                    5
                } else if qtype == T_PTR {
                    3
                } else {
                    0
                },
                if !known {
                    (0, 0)
                } else if qtype == T_SOA {
                    (1, server)
                } else if qtype == T_NS {
                    (server, 0)
                } else {
                    (0, 1)
                },
            )
        }),
{
    lemma_one_question(packet, qlen, name, qtype, peer, false, zones);
    law_first_zone_of_an_address(zones, addr);
    let st = auth::after_question(auth::initial_state(false), name, qtype, C_IN, false, zones)->0;
    let counts: (u16, u16) = if auth::is_refused(st, false) {
        (0, 0)
    } else {
        auth::record_counts(st, has_server)
    };
    let code = auth::response_code(st, false);
    assert forall|header: Seq<u8>| header.len() >= 12 implies says(
        #[trigger] auth::answer_header(header, packet, st, false, has_server),
        packet,
        false,
        st.auth,
        code,
        counts,
    ) by {
        lemma_header(header, packet, st, false, has_server, code, counts);
    }
}

/// What the query says of its operation and of what it wishes stays as it is in the
/// answer, but for the bits that the answer sets.
pub proof fn law_flags_are_repeated(query: u8, auth: bool, local_query: bool, code: u8)
    requires
        code < 16,
    ensures
        auth::flags_high(query, auth) & 0x79 == query & 0x79,
        auth::flags_high(query, auth) & 0x04 != 0 <==> auth,
        auth::flags_low(query, local_query, code) & 0x50 == query & 0x50,
{
    assert((((query & 0xF9) | 0x80) | 0x04) & 0x79 == query & 0x79 && ((query & 0xF9) | 0x80) & 0x79
        == query & 0x79 && (((query & 0xF9) | 0x80) | 0x04) & 0x04 != 0 && ((query & 0xF9) | 0x80)
        & 0x04 == 0) by (bit_vector);
    assert(((((query & 0x7F) & 0xDF) & 0xF0) | code) & 0x50 == query & 0x50 && ((((query | 0x80)
        & 0xDF) & 0xF0) | code) & 0x50 == query & 0x50) by (bit_vector)
        requires
            code < 16,
    ;
}

} // verus!
