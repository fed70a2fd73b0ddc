//! Authoritative answers for configured zones.

use crate::addr::{IpAddr, Ipv4Addr, Ipv6Addr, SocketAddr};
use crate::cache::Cache;
use crate::domain::{self, hostname_isequal};
use crate::parser::{self, extract_name, in_arpa_name_2_addr, skip_questions};
use crate::protocol::{
    C_IN, NOERROR, NXDOMAIN, REFUSED, T_AXFR, T_NS, T_PTR, T_SOA,
};
use crate::text::{self, push_decimal};
use crate::wire::{self, read_u16};
use vstd::prelude::*;
use vstd::slice::slice_subrange;
use vstd::utf8::*;

verus! {

/// A network, by one of its addresses and the length of its prefix.
#[derive(Debug, Clone, Copy)]
pub struct AddrList {
    pub addr: IpAddr,
    pub prefixlen: u32,
}

/// A zone that is answered for.
#[derive(Debug, Clone)]
pub struct AuthZone {
    /// The domain at the top of the zone.
    pub domain: String,
    /// The networks that the zone is about; all addresses where there are
    /// none.
    pub subnet: Option<Vec<AddrList>>,
    /// Networks that are left out.
    pub exclude: Vec<AddrList>,
}

/// What the authoritative part is configured with.
#[derive(Debug, Clone)]
pub struct AuthConfig {
    pub auth_zones: Vec<AuthZone>,
    /// The name of the server.
    pub auth_server: Option<String>,
}

/// The configuration.
#[derive(Debug, Clone)]
pub struct Config {
    pub auth: AuthConfig,
}

/// Why a query gets no authoritative answer.
#[derive(Debug, Clone)]
pub enum AuthError {
    /// The query cannot be read.
    InvalidQuery { reason: String },
    /// The answer does not fit.
    BufferOverflow { attempted: usize, available: usize },
    /// A zone transfer was asked for by a peer without the right to it.
    UnauthorizedAxfr { peer_addr: String },
    /// A name is too long.
    NameTooLong { length: usize },
    /// A zone transfer took too long.
    AxfrTimeout,
}

/// What an `AuthError` says, with its texts as sequences of characters.
pub enum AuthFault {
    InvalidQuery { reason: Seq<char> },
    BufferOverflow { attempted: usize, available: usize },
    UnauthorizedAxfr { peer_addr: Seq<char> },
    NameTooLong { length: usize },
    AxfrTimeout,
}

impl View for AuthError {
    type V = AuthFault;

    open spec fn view(&self) -> AuthFault {
        match *self {
            AuthError::InvalidQuery { reason } => AuthFault::InvalidQuery { reason: reason@ },
            AuthError::BufferOverflow { attempted, available } => AuthFault::BufferOverflow {
                attempted,
                available,
            },
            AuthError::UnauthorizedAxfr { peer_addr } => AuthFault::UnauthorizedAxfr {
                peer_addr: peer_addr@,
            },
            AuthError::NameTooLong { length } => AuthFault::NameTooLong { length },
            AuthError::AxfrTimeout => AuthFault::AxfrTimeout,
        }
    }
}

impl AuthFault {
    /// The text of the error.
    pub open spec fn message(self) -> Seq<char> {
        match self {
            AuthFault::InvalidQuery { reason } => "Invalid query: "@ + reason,
            AuthFault::BufferOverflow { attempted, available } => {
                "Buffer overflow: attempted "@ + text::decimal(attempted as nat) + ", available "@
                    + text::decimal(available as nat)
            },
            AuthFault::UnauthorizedAxfr { peer_addr } => "Unauthorized AXFR from "@ + peer_addr,
            AuthFault::NameTooLong { length } => {
                "Domain name too long: "@ + text::decimal(length as nat)
            },
            AuthFault::AxfrTimeout => "Zone transfer timeout"@,
        }
    }
}

impl AuthError {
    /// The text of the error.
    pub fn to_string(&self) -> (r: String)
        ensures
            r@ == self@.message(),
    {
        let mut s: String = String::new();
        match self {
            AuthError::InvalidQuery { reason } => {
                s.append("Invalid query: ");
                s.append(reason.as_str());
            },
            AuthError::BufferOverflow { attempted, available } => {
                s.append("Buffer overflow: attempted ");
                push_decimal(&mut s, *attempted as u64);
                s.append(", available ");
                push_decimal(&mut s, *available as u64);
            },
            AuthError::UnauthorizedAxfr { peer_addr } => {
                s.append("Unauthorized AXFR from ");
                s.append(peer_addr.as_str());
            },
            AuthError::NameTooLong { length } => {
                s.append("Domain name too long: ");
                push_decimal(&mut s, *length as u64);
            },
            AuthError::AxfrTimeout => {
                s.append("Zone transfer timeout");
            },
        }
        assert(s@ =~= self@.message());
        s
    }
}

// ---------------------------------------------------------------------------
// Networks
// ---------------------------------------------------------------------------

/// `ipnetwork::Ipv4Network::new` and `contains`: whether an address agrees
/// with that of the network in the first `prefix` bits. No network has a
/// prefix of more than 32 bits.
#[verifier::external_body]
fn v4_network_contains(net: u32, prefix: u8, addr: u32) -> (r: bool)
    ensures
        r == (prefix <= 32 && domain::same_net(
            Ipv4Addr { bits: addr },
            Ipv4Addr { bits: net },
            prefix as u32,
        )),
{
    match ipnetwork::Ipv4Network::new(net.into(), prefix) {
        Ok(network) => network.contains(addr.into()),
        Err(_) => false,
    }
}

/// `ipnetwork::Ipv6Network::new` and `contains`: whether an address agrees
/// with that of the network in the first `prefix` bits. No network has a
/// prefix of more than 128 bits.
#[verifier::external_body]
fn v6_network_contains(net: u128, prefix: u8, addr: u128) -> (r: bool)
    ensures
        r == (prefix <= 128 && domain::same_net6(
            Ipv6Addr { bits: addr },
            Ipv6Addr { bits: net },
            prefix as u32,
        )),
{
    match ipnetwork::Ipv6Network::new(net.into(), prefix) {
        Ok(network) => network.contains(addr.into()),
        Err(_) => false,
    }
}

/// Whether an address is in a network. A prefix that is too long for the
/// family makes no network.
pub open spec fn in_network(addr: IpAddr, net: AddrList) -> bool {
    match (addr, net.addr) {
        (IpAddr::V4(a), IpAddr::V4(n)) => net.prefixlen <= 32 && domain::same_net(
            a,
            n,
            net.prefixlen,
        ),
        (IpAddr::V6(a), IpAddr::V6(n)) => net.prefixlen <= 128 && domain::same_net6(
            a,
            n,
            net.prefixlen,
        ),
        _ => false,
    }
}

/// The first network from `i` on that an address is in.
pub open spec fn first_network(list: Seq<AddrList>, addr: IpAddr, i: int) -> Option<int>
    decreases list.len() - i,
{
    if i >= list.len() {
        None
    } else if in_network(addr, list[i]) {
        Some(i)
    } else {
        first_network(list, addr, i + 1)
    }
}

/// Whether an address is in a network of a zone.
pub open spec fn in_subnet(zone: AuthZone, addr: IpAddr) -> bool {
    zone.subnet matches Some(list) && first_network(list@, addr, 0) is Some
}

/// Whether an address may be answered for in a zone: it is not left out, and it
/// is in a network of the zone if the zone has any.
pub open spec fn zone_allows(zone: AuthZone, addr: IpAddr) -> bool {
    &&& first_network(zone.exclude@, addr, 0) is None
    &&& zone.subnet is None || in_subnet(zone, addr)
}

/// The first network of a list that an address is in.
fn find_addrlist<'a>(list: &'a Vec<AddrList>, addr: &IpAddr) -> (r: Option<&'a AddrList>)
    ensures
        match first_network(list@, *addr, 0) {
            Some(i) => 0 <= i < list@.len() && r == Some(&list@[i]),
            None => r is None,
        },
{
    let mut i: usize = 0;
    while i < list.len()
        invariant
            i <= list@.len(),
            first_network(list@, *addr, 0) == first_network(list@, *addr, i as int),
        decreases list@.len() - i,
    {
        let entry = &list[i];
        match (addr, entry.addr) {
            (IpAddr::V4(a), IpAddr::V4(n)) => {
                if entry.prefixlen <= 32 && v4_network_contains(
                    n.bits,
                    entry.prefixlen as u8,
                    a.bits,
                ) {
                    return Some(entry);
                }
            },
            (IpAddr::V6(a), IpAddr::V6(n)) => {
                if entry.prefixlen <= 128 && v6_network_contains(
                    n.bits,
                    entry.prefixlen as u8,
                    a.bits,
                ) {
                    return Some(entry);
                }
            },
            _ => {},
        }
        i = i + 1;
    }
    None
}

/// The network of a zone that an address is in.
fn find_subnet<'a>(zone: &'a AuthZone, addr: &IpAddr) -> (r: Option<&'a AddrList>)
    ensures
        r is Some <==> in_subnet(*zone, *addr),
{
    match &zone.subnet {
        Some(list) => find_addrlist(list, addr),
        None => None,
    }
}

/// Whether an address is left out of a zone.
fn find_exclude(zone: &AuthZone, addr: &IpAddr) -> (r: bool)
    ensures
        r == (first_network(zone.exclude@, *addr, 0) is Some),
{
    find_addrlist(&zone.exclude, addr).is_some()
}

/// Whether an address may be answered for in a zone.
pub fn filter_zone(zone: &AuthZone, addr: &IpAddr) -> (r: bool)
    ensures
        r == zone_allows(*zone, *addr),
{
    if find_exclude(zone, addr) {
        return false;
    }
    if zone.subnet.is_none() {
        return true;
    }
    find_subnet(zone, addr).is_some()
}

/// An address that is left out of a zone is never answered for, whatever
/// networks the zone has.
pub proof fn law_exclusion_wins(zone: AuthZone, addr: IpAddr)
    requires
        exists|i: int|
            0 <= i < zone.exclude@.len() && in_network(addr, #[trigger] zone.exclude@[i]),
    ensures
        !zone_allows(zone, addr),
{
    let i = choose|i: int|
        0 <= i < zone.exclude@.len() && in_network(addr, #[trigger] zone.exclude@[i]);
    lemma_network_found(zone.exclude@, addr, 0, i);
}

proof fn lemma_network_found(list: Seq<AddrList>, addr: IpAddr, from: int, i: int)
    requires
        0 <= from <= i < list.len(),
        in_network(addr, list[i]),
    ensures
        first_network(list, addr, from) is Some,
    decreases i - from,
{
    if from < i && !in_network(addr, list[from]) {
        lemma_network_found(list, addr, from + 1, i);
    }
}

// ---------------------------------------------------------------------------
// Zones
// ---------------------------------------------------------------------------

/// Whether a name is in the zone with this domain, and, where it is not the
/// domain itself, at which byte of the name the dot before the domain stands.
/// A name that has no character boundary where the domain would start is not
/// in the zone.
pub open spec fn zone_place(domain: Seq<char>, name: Seq<char>) -> (bool, Option<usize>) {
    let n = encode_utf8(name);
    let d = encode_utf8(domain);
    let cut = n.len() - d.len();
    if cut < 0 || !is_char_boundary(n, cut) || text::lower(decode_utf8(n.skip(cut)))
        != text::lower(domain) {
        (false, None)
    } else if cut == 0 {
        (true, None)
    } else if n[cut - 1] == 46 {
        (true, Some((cut - 1) as usize))
    } else {
        (false, None)
    }
}

/// Whether a name is in a zone, and at which byte of it the dot before the
/// domain of the zone stands.
pub fn in_zone(zone: &AuthZone, name: &str) -> (r: (bool, Option<usize>))
    ensures
        r == zone_place(zone.domain@, name@),
{
    let namelen: usize = name.as_bytes().len();
    let domainlen: usize = zone.domain.as_str().as_bytes().len();
    if namelen < domainlen {
        return (false, None);
    }
    let cut: usize = namelen - domainlen;
    if !name.is_char_boundary(cut) {
        return (false, None);
    }
    let (_, suffix) = name.split_at(cut);
    proof {
        assert(encode_utf8(suffix@) =~= encode_utf8(name@).skip(cut as int));
        encode_utf8_decode_utf8(suffix@);
    }
    if !hostname_isequal(suffix, zone.domain.as_str()) {
        return (false, None);
    }
    if cut == 0 {
        return (true, None);
    }
    if name.as_bytes()[cut - 1] == 46 {
        return (true, Some(cut - 1));
    }
    (false, None)
}

/// The first zone from `i` on with a network that an address is in.
pub open spec fn reverse_zone(zones: Seq<AuthZone>, addr: IpAddr, i: int) -> Option<int>
    decreases zones.len() - i,
{
    if i >= zones.len() {
        None
    } else if in_subnet(zones[i], addr) {
        Some(i)
    } else {
        reverse_zone(zones, addr, i + 1)
    }
}

/// The first zone from `i` on that a name is in.
pub open spec fn forward_zone(zones: Seq<AuthZone>, name: Seq<char>, i: int) -> Option<int>
    decreases zones.len() - i,
{
    if i >= zones.len() {
        None
    } else if zone_place(zones[i].domain@, name).0 {
        Some(i)
    } else {
        forward_zone(zones, name, i + 1)
    }
}

fn find_reverse_zone(zones: &Vec<AuthZone>, addr: &IpAddr) -> (r: Option<usize>)
    ensures
        match r {
            Some(i) => i < zones@.len() && reverse_zone(zones@, *addr, 0) == Some(i as int),
            None => reverse_zone(zones@, *addr, 0) is None,
        },
{
    let mut i: usize = 0;
    while i < zones.len()
        invariant
            i <= zones@.len(),
            reverse_zone(zones@, *addr, 0) == reverse_zone(zones@, *addr, i as int),
        decreases zones@.len() - i,
    {
        if find_subnet(&zones[i], addr).is_some() {
            return Some(i);
        }
        i = i + 1;
    }
    None
}

fn find_forward_zone(zones: &Vec<AuthZone>, name: &str) -> (r: Option<usize>)
    ensures
        match r {
            Some(i) => i < zones@.len() && forward_zone(zones@, name@, 0) == Some(i as int),
            None => forward_zone(zones@, name@, 0) is None,
        },
{
    let mut i: usize = 0;
    while i < zones.len()
        invariant
            i <= zones@.len(),
            forward_zone(zones@, name@, 0) == forward_zone(zones@, name@, i as int),
        decreases zones@.len() - i,
    {
        if in_zone(&zones[i], name).0 {
            return Some(i);
        }
        i = i + 1;
    }
    None
}

// ---------------------------------------------------------------------------
// Answers
// ---------------------------------------------------------------------------

/// What is known of an answer after some of the questions.
#[derive(Debug, Clone, Copy, PartialEq, Eq, Structural)]
pub struct AuthState {
    /// The answer carries authority.
    pub auth: bool,
    /// No question was about a name that is known to exist.
    pub nxdomain: bool,
    /// A question was about something outside the zones.
    pub out_of_zone: bool,
    /// The start-of-authority record was asked for.
    pub soa: bool,
    /// The name servers were asked for.
    pub ns: bool,
    /// The zone that the answer is about.
    pub zone: Option<usize>,
}

/// What is known before the first question.
pub open spec fn initial_state(local_query: bool) -> AuthState {
    AuthState {
        auth: !local_query,
        nxdomain: true,
        out_of_zone: false,
        soa: false,
        ns: false,
        zone: None,
    }
}

/// What is known after a question outside the zones.
pub open spec fn outside(st: AuthState) -> AuthState {
    AuthState { auth: false, out_of_zone: true, ..st }
}

/// The address that a question asks the name of, if it is such a question of a
/// remote client.
pub open spec fn reverse_subject(name: Seq<char>, qtype: u16, local_query: bool) -> Option<IpAddr> {
    if (qtype == T_PTR || qtype == T_SOA || qtype == T_NS) && !local_query {
        match parser::arpa_addr(name) {
            Ok(addr) => Some(addr),
            Err(_) => None,
        }
    } else {
        None
    }
}

/// What is known after a question about the name at the top of its zone, or
/// below it. Nothing where it asks for a transfer of the zone.
pub open spec fn answer_in_zone(
    st: AuthState,
    domain: Seq<char>,
    name: Seq<char>,
    qtype: u16,
) -> Option<AuthState> {
    if zone_place(domain, name) != (true, None::<usize>) {
        Some(st)
    } else if qtype == T_SOA {
        Some(AuthState { auth: true, soa: true, nxdomain: false, ..st })
    } else if qtype == T_AXFR {
        None
    } else if qtype == T_NS {
        Some(AuthState { auth: true, ns: true, nxdomain: false, ..st })
    } else {
        Some(st)
    }
}

/// What is known after the address of a reverse question was found in a zone.
pub open spec fn reverse_found(st: AuthState, zone: usize, qtype: u16) -> AuthState {
    if qtype == T_SOA {
        AuthState { soa: true, nxdomain: false, zone: Some(zone), ..st }
    } else if qtype == T_NS {
        AuthState { ns: true, nxdomain: false, zone: Some(zone), ..st }
    } else {
        AuthState { zone: Some(zone), ..st }
    }
}

/// What is known after one more question. Nothing where it asks for a transfer
/// of a zone.
pub open spec fn after_question(
    st: AuthState,
    name: Seq<char>,
    qtype: u16,
    qclass: u16,
    local_query: bool,
    zones: Seq<AuthZone>,
) -> Option<AuthState> {
    if qclass != C_IN {
        Some(outside(st))
    } else {
        match reverse_subject(name, qtype, local_query) {
            Some(addr) => match reverse_zone(zones, addr, 0) {
                None => Some(outside(AuthState { zone: None, ..st })),
                Some(i) => answer_in_zone(
                    reverse_found(st, i as usize, qtype),
                    zones[i].domain@,
                    name,
                    qtype,
                ),
            },
            None => match st.zone {
                Some(z) => answer_in_zone(st, zones[z as int].domain@, name, qtype),
                None => match forward_zone(zones, name, 0) {
                    None => Some(outside(st)),
                    Some(i) => answer_in_zone(
                        AuthState { zone: Some(i as usize), ..st },
                        zones[i].domain@,
                        name,
                        qtype,
                    ),
                },
            },
        }
    }
}

/// A query that cannot be read.
pub open spec fn invalid_query(reason: Seq<char>) -> AuthFault {
    AuthFault::InvalidQuery { reason }
}

/// What is known after all questions, of which `count` are left at `pos`.
pub open spec fn after_questions(
    packet: Seq<u8>,
    pos: int,
    count: nat,
    st: AuthState,
    peer: Seq<char>,
    local_query: bool,
    zones: Seq<AuthZone>,
) -> Result<AuthState, AuthFault>
    decreases count,
{
    if count == 0 {
        Ok(st)
    } else {
        match parser::name_at(packet, pos) {
            Err(e) => Err(invalid_query("Cannot extract name: "@ + e.debug_text())),
            Ok((p, name)) => if p + 4 > packet.len() {
                Err(invalid_query("Question truncated"@))
            } else {
                match after_question(
                    st,
                    name,
                    wire::be16(packet, p),
                    wire::be16(packet, p + 2),
                    local_query,
                    zones,
                ) {
                    None => Err(AuthFault::UnauthorizedAxfr { peer_addr: peer }),
                    Some(next) => after_questions(
                        packet,
                        p + 4,
                        (count - 1) as nat,
                        next,
                        peer,
                        local_query,
                        zones,
                    ),
                }
            },
        }
    }
}

/// How many records the answer and the authority section announce.
pub open spec fn record_counts(st: AuthState, has_server: bool) -> (u16, u16) {
    if !st.auth || st.zone is None {
        (0, 0)
    } else if st.soa && st.ns {
        (if has_server {
            2
        } else {
            1
        }, 0)
    } else if st.soa {
        (1, if has_server {
            1
        } else {
            0
        })
    } else if st.ns {
        (if has_server {
            1
        } else {
            0
        }, 0)
    } else {
        (0, 1)
    }
}

/// Whether the query is refused.
pub open spec fn is_refused(st: AuthState, local_query: bool) -> bool {
    !((st.auth || local_query) && st.nxdomain) && st.out_of_zone && !local_query
}

/// The response code of the answer.
pub open spec fn response_code(st: AuthState, local_query: bool) -> u8 {
    if (st.auth || local_query) && st.nxdomain {
        NXDOMAIN
    } else if is_refused(st, local_query) {
        REFUSED
    } else {
        NOERROR
    }
}

/// The third byte of the header of an answer: a response, not truncated, with
/// authority where there is any.
pub open spec fn flags_high(query: u8, auth: bool) -> u8 {
    let base = (query & 0xF9) | 0x80;
    if auth {
        base | 0x04
    } else {
        base
    }
}

/// The fourth byte of the header of an answer: recursion is offered to local
/// clients, nothing is signed, and the last four bits are the response code.
pub open spec fn flags_low(query: u8, local_query: bool, code: u8) -> u8 {
    let offered = if local_query {
        query | 0x80
    } else {
        query & 0x7F
    };
    ((offered & 0xDF) & 0xF0) | code
}

/// The header of the answer, of which `header` was there before.
pub open spec fn answer_header(
    header: Seq<u8>,
    packet: Seq<u8>,
    st: AuthState,
    local_query: bool,
    has_server: bool,
) -> Seq<u8> {
    let counts = if is_refused(st, local_query) {
        (0u16, 0u16)
    } else {
        record_counts(st, has_server)
    };
    Seq::new(
        header.len(),
        |i: int|
            if i == 2 {
                flags_high(packet[2], st.auth)
            } else if i == 3 {
                flags_low(packet[3], local_query, response_code(st, local_query))
            } else if i == 6 || i == 7 {
                wire::be16_bytes(counts.0)[i - 6]
            } else if i == 8 || i == 9 {
                wire::be16_bytes(counts.1)[i - 8]
            } else if i == 10 || i == 11 {
                0u8
            } else if i < 12 {
                packet[i]
            } else {
                header[i]
            },
    )
}

/// What comes of a query: the position after its questions with what is known
/// of the answer, or the error.
pub open spec fn auth_outcome(
    packet: Seq<u8>,
    qlen: usize,
    peer: Seq<char>,
    local_query: bool,
    zones: Seq<AuthZone>,
) -> Result<(int, AuthState), AuthFault> {
    if packet.len() < 12 || qlen < 12 {
        Err(invalid_query("Packet too short"@))
    } else if wire::be16(packet, 4) == 0 {
        Err(invalid_query("Zero questions"@))
    } else if packet[2] / 8 % 16 != 0 {
        Err(
            invalid_query(
                "Invalid opcode: "@ + text::decimal((packet[2] / 8 % 16) as nat),
            ),
        )
    } else {
        let count = wire::be16(packet, 4) as nat;
        match parser::questions_end(packet, 12, count) {
            Err(e) => Err(invalid_query("Cannot skip questions: "@ + e.debug_text())),
            Ok(end) => match after_questions(
                packet,
                12,
                count,
                initial_state(local_query),
                peer,
                local_query,
                zones,
            ) {
                Err(e) => Err(e),
                Ok(st) => Ok((end, st)),
            },
        }
    }
}

/// Whether the answer starts within the limit. The limit counts only once the
/// questions were found.
pub open spec fn fits(packet: Seq<u8>, qlen: usize, limit: usize) -> bool {
    packet.len() >= 12 && qlen >= 12 && wire::be16(packet, 4) != 0 && packet[2] / 8 % 16 == 0 ==> (
    parser::questions_end(packet, 12, wire::be16(packet, 4) as nat) matches Ok(end) ==> end
        <= limit)
}

/// The error for a query that cannot be read.
fn bad_query(what: &str, detail: &str) -> (r: AuthError)
    ensures
        r@ == invalid_query(what@ + detail@),
{
    let mut reason: String = String::new();
    reason.append(what);
    reason.append(detail);
    assert(reason@ =~= what@ + detail@);
    AuthError::InvalidQuery { reason }
}

/// What is known after one more question about a name in a zone.
fn answer_at_top(st: AuthState, zone: &AuthZone, name: &str, qtype: u16) -> (r: Option<AuthState>)
    ensures
        r == answer_in_zone(st, zone.domain@, name@, qtype),
{
    let (inside, cut) = in_zone(zone, name);
    if !inside || cut.is_some() {
        return Some(st);
    }
    if qtype == T_SOA {
        Some(AuthState { auth: true, soa: true, nxdomain: false, ..st })
    } else if qtype == T_AXFR {
        None
    } else if qtype == T_NS {
        Some(AuthState { auth: true, ns: true, nxdomain: false, ..st })
    } else {
        Some(st)
    }
}

/// What is known after one more question; nothing where it asks for a transfer
/// of a zone.
pub fn answer_question(
    st: AuthState,
    name: &str,
    qtype: u16,
    qclass: u16,
    local_query: bool,
    zones: &Vec<AuthZone>,
) -> (r: Option<AuthState>)
    requires
        st.zone matches Some(z) ==> z < zones@.len(),
    ensures
        r == after_question(st, name@, qtype, qclass, local_query, zones@),
        r matches Some(next) ==> (next.zone matches Some(z) ==> z < zones@.len()),
{
    if qclass != C_IN {
        return Some(AuthState { auth: false, out_of_zone: true, ..st });
    }
    if (qtype == T_PTR || qtype == T_SOA || qtype == T_NS) && !local_query {
        match in_arpa_name_2_addr(name) {
            Ok(addr) => {
                return match find_reverse_zone(zones, &addr) {
                    None => Some(AuthState { auth: false, out_of_zone: true, zone: None, ..st }),
                    Some(i) => {
                        let found = if qtype == T_SOA {
                            AuthState { soa: true, nxdomain: false, zone: Some(i), ..st }
                        } else if qtype == T_NS {
                            AuthState { ns: true, nxdomain: false, zone: Some(i), ..st }
                        } else {
                            AuthState { zone: Some(i), ..st }
                        };
                        answer_at_top(found, &zones[i], name, qtype)
                    },
                };
            },
            Err(_) => {},
        }
    }
    match st.zone {
        Some(z) => answer_at_top(st, &zones[z], name, qtype),
        None => match find_forward_zone(zones, name) {
            None => Some(AuthState { auth: false, out_of_zone: true, ..st }),
            Some(i) => answer_at_top(
                AuthState { zone: Some(i), ..st },
                &zones[i],
                name,
                qtype,
            ),
        },
    }
}

/// Copies the header of the query to that of the answer, if there is room.
fn copy_header(header: &mut [u8], packet: &[u8])
    requires
        packet@.len() >= 12,
    ensures
        final(header)@ == (if old(header)@.len() >= 12 {
            packet@.take(12) + old(header)@.skip(12)
        } else {
            old(header)@
        }),
{
    if header.len() >= 12 {
        let mut i: usize = 0;
        assert(packet@.take(0) + old(header)@.skip(0) =~= old(header)@);
        while i < 12
            invariant
                i <= 12 <= header@.len(),
                header@.len() == old(header)@.len(),
                packet@.len() >= 12,
                header@ == packet@.take(i as int) + old(header)@.skip(i as int),
            decreases 12 - i,
        {
            header[i] = packet[i];
            i = i + 1;
            assert(header@ =~= packet@.take(i as int) + old(header)@.skip(i as int));
        }
    }
}

/// How many records the answer and the authority section announce.
fn count_records(st: &AuthState, has_server: bool) -> (r: (u16, u16))
    ensures
        r == record_counts(*st, has_server),
{
    let mut anscount: u16 = 0;
    let mut authcount: u16 = 0;
    if st.auth && st.zone.is_some() {
        if !st.ns || st.soa {
            if st.soa {
                anscount = anscount + 1;
            } else {
                authcount = authcount + 1;
            }
        }
        if (anscount != 0 || st.ns) && has_server {
            if st.ns {
                anscount = anscount + 1;
            } else {
                authcount = authcount + 1;
            }
        }
    }
    (anscount, authcount)
}

/// Turns the copied header of the query into that of the answer.
fn finish_header(
    header: &mut [u8],
    packet: &[u8],
    st: &AuthState,
    local_query: bool,
    has_server: bool,
)
    requires
        packet@.len() >= 12,
        old(header)@.len() >= 12,
        old(header)@.take(12) == packet@.take(12),
    ensures
        final(header)@ == answer_header(old(header)@, packet@, *st, local_query, has_server),
{
    let (mut anscount, mut authcount) = count_records(st, has_server);
    let mut high: u8 = (packet[2] & 0xF9) | 0x80;
    if st.auth {
        high = high | 0x04;
    }
    let offered: u8 = if local_query {
        packet[3] | 0x80
    } else {
        packet[3] & 0x7F
    };
    let code: u8 = if (st.auth || local_query) && st.nxdomain {
        NXDOMAIN
    } else if st.out_of_zone && !local_query {
        anscount = 0;
        authcount = 0;
        REFUSED
    } else {
        NOERROR
    };
    let ghost target = answer_header(header@, packet@, *st, local_query, has_server);
    header[2] = high;
    header[3] = ((offered & 0xDF) & 0xF0) | code;
    header[6] = (anscount / 256) as u8;
    header[7] = (anscount % 256) as u8;
    header[8] = (authcount / 256) as u8;
    header[9] = (authcount % 256) as u8;
    header[10] = 0;
    header[11] = 0;
    proof {
        let before = old(header)@;
        assert(before[0] == before.take(12)[0] && before[1] == before.take(12)[1] && before[4]
            == before.take(12)[4] && before[5] == before.take(12)[5]);
        assert(packet@.take(12)[0] == packet@[0] && packet@.take(12)[1] == packet@[1]
            && packet@.take(12)[4] == packet@[4] && packet@.take(12)[5] == packet@[5]);
        assert(header@ =~= target);
    }
}

/// Answers a query for the configured zones. The header of the answer is
/// written to `header`, and the length of the answer is returned. A transfer of
/// a zone is refused to everyone.
pub fn answer_auth(
    header: &mut [u8],
    packet: &[u8],
    limit: usize,
    qlen: usize,
    _now: u64,
    peer_addr: &SocketAddr,
    local_query: bool,
    _do_bit: bool,
    _have_pseudoheader: bool,
    config: &Config,
    _cache: &Cache,
) -> (r: Result<usize, AuthError>)
    requires
        fits(packet@, qlen, limit),
        auth_outcome(
            packet@,
            qlen,
            peer_addr.written(),
            local_query,
            config.auth.auth_zones@,
        ) is Ok ==> old(header)@.len() >= 12,
    ensures
        match auth_outcome(
            packet@,
            qlen,
            peer_addr.written(),
            local_query,
            config.auth.auth_zones@,
        ) {
            Ok((end, st)) => r == Ok::<usize, AuthError>(end as usize) && final(header)@
                == answer_header(
                old(header)@,
                packet@,
                st,
                local_query,
                config.auth.auth_server is Some,
            ),
            Err(e) => {
                &&& r matches Err(error) && error@ == e
                &&& final(header)@ == (if packet@.len() >= 12 && qlen >= 12 && old(header)@.len()
                    >= 12 {
                    packet@.take(12) + old(header)@.skip(12)
                } else {
                    old(header)@
                })
            },
        },
{
    if packet.len() < 12 || qlen < 12 {
        return Err(AuthError::InvalidQuery { reason: "Packet too short".to_owned() });
    }
    let packet_len: usize = packet.len();
    copy_header(header, packet);
    let qdcount: u16 = read_u16(packet, 4);
    if qdcount == 0 {
        return Err(AuthError::InvalidQuery { reason: "Zero questions".to_owned() });
    }
    let opcode: u8 = packet[2] / 8 % 16;
    if opcode != 0 {
        let mut number: String = String::new();
        push_decimal(&mut number, opcode as u64);
        assert(number@ =~= text::decimal(opcode as nat));
        return Err(bad_query("Invalid opcode: ", number.as_str()));
    }
    let question_start = slice_subrange(packet, 12, packet_len);
    assert(question_start@ =~= packet@.skip(12));
    let ansp: usize = match skip_questions(packet, question_start, qdcount) {
        Ok(rest) => packet_len - rest.len(),
        Err(e) => {
            return Err(bad_query("Cannot skip questions: ", e.debug_text().as_str()));
        },
    };
    let mut st = AuthState {
        auth: !local_query,
        nxdomain: true,
        out_of_zone: false,
        soa: false,
        ns: false,
        zone: None,
    };
    let zones = &config.auth.auth_zones;
    let mut p: usize = 12;
    let mut left: u16 = qdcount;
    let ghost outcome = after_questions(
        packet@,
        12,
        qdcount as nat,
        initial_state(local_query),
        peer_addr.written(),
        local_query,
        zones@,
    );
    let ghost copied = header@;
    while left > 0
        invariant
            p <= packet_len == packet@.len(),
            packet_len >= 12,
            qlen >= 12,
            qdcount == wire::be16(packet@, 4),
            qdcount != 0,
            packet@[2] / 8 % 16 == 0,
            parser::questions_end(packet@, 12, qdcount as nat) == Ok::<int, parser::ParseFault>(
                ansp as int,
            ),
            zones@ == config.auth.auth_zones@,
            header@ == copied,
            copied == (if old(header)@.len() >= 12 {
                packet@.take(12) + old(header)@.skip(12)
            } else {
                old(header)@
            }),
            st.zone matches Some(z) ==> z < zones@.len(),
            outcome == after_questions(
                packet@,
                12,
                qdcount as nat,
                initial_state(local_query),
                peer_addr.written(),
                local_query,
                zones@,
            ),
            outcome == after_questions(
                packet@,
                p as int,
                left as nat,
                st,
                peer_addr.written(),
                local_query,
                zones@,
            ),
        decreases left,
    {
        let input = slice_subrange(packet, p, packet_len);
        assert(input@ =~= packet@.skip(p as int));
        let (rest, name) = match extract_name(packet, input) {
            Ok(found) => found,
            Err(e) => {
                return Err(bad_query("Cannot extract name: ", e.debug_text().as_str()));
            },
        };
        p = packet_len - rest.len();
        if packet_len - p < 4 {
            return Err(AuthError::InvalidQuery { reason: "Question truncated".to_owned() });
        }
        let qtype: u16 = read_u16(packet, p);
        let qclass: u16 = read_u16(packet, p + 2);
        p = p + 4;
        match answer_question(st, name.as_str(), qtype, qclass, local_query, zones) {
            Some(next) => {
                st = next;
            },
            None => {
                return Err(AuthError::UnauthorizedAxfr { peer_addr: peer_addr.to_string() });
            },
        }
        left = left - 1;
    }
    let has_server: bool = config.auth.auth_server.is_some();
    proof {
        assert(header@.take(12) =~= packet@.take(12));
        assert(header@.skip(12) =~= old(header)@.skip(12));
    }
    finish_header(header, packet, &st, local_query, has_server);
    assert(header@ =~= answer_header(old(header)@, packet@, st, local_query, has_server)) by {
        let before = packet@.take(12) + old(header)@.skip(12);
        assert forall|i: int| 12 <= i < before.len() implies before[i] == old(header)@[i] by {
            assert(before[i] == old(header)@.skip(12)[i - 12]);
        }
    }
    Ok(ansp)
}

/// A transfer of a zone, asked for by its domain, is refused to every peer.
pub proof fn law_zone_transfer_refused(
    st: AuthState,
    name: Seq<char>,
    local_query: bool,
    zones: Seq<AuthZone>,
    z: int,
)
    requires
        0 <= z < zones.len(),
        match st.zone {
            Some(own) => own == z,
            None => forward_zone(zones, name, 0) == Some(z),
        },
        zone_place(zones[z].domain@, name) == (true, None::<usize>),
    ensures
        after_question(st, name, T_AXFR, C_IN, local_query, zones) is None,
{
}

/// A remote query with a single question about something outside all zones is
/// refused, and the answer announces no records.
pub proof fn law_outside_is_refused(
    st: AuthState,
    name: Seq<char>,
    qtype: u16,
    zones: Seq<AuthZone>,
)
    requires
        st == initial_state(false),
        reverse_subject(name, qtype, false) is None,
        forward_zone(zones, name, 0) is None,
    ensures
        after_question(st, name, qtype, C_IN, false, zones) matches Some(next) && response_code(
            next,
            false,
        ) == REFUSED && is_refused(next, false) && !next.auth,
{
}

/// An answer with authority never offers to look further for a remote client,
/// and is never marked as signed.
pub proof fn law_answer_flags(query: u8, code: u8)
    requires
        code < 16,
    ensures
        flags_low(query, false, code) & 0x80 == 0,
        flags_low(query, true, code) & 0x80 == 0x80,
        flags_low(query, false, code) & 0x20 == 0,
        flags_low(query, true, code) & 0x20 == 0,
        flags_low(query, false, code) & 0x0F == code,
        flags_low(query, true, code) & 0x0F == code,
        flags_high(query, true) & 0x84 == 0x84,
        flags_high(query, false) & 0x86 == 0x80,
        flags_high(query, true) & 0x02 == 0,
{
    assert(((((query & 0x7F) & 0xDF) & 0xF0) | code) & 0x80 == 0 && ((((query & 0x7F) & 0xDF) & 0xF0)
        | code) & 0x20 == 0 && ((((query & 0x7F) & 0xDF) & 0xF0) | code) & 0x0F == code
        && ((((query | 0x80) & 0xDF) & 0xF0) | code) & 0x80 == 0x80 && ((((query | 0x80) & 0xDF)
        & 0xF0) | code) & 0x20 == 0 && ((((query | 0x80) & 0xDF) & 0xF0) | code) & 0x0F == code)
        by (bit_vector)
        requires
            code < 16,
    ;
    assert((((query & 0xF9) | 0x80) | 0x04) & 0x84 == 0x84 && ((query & 0xF9) | 0x80) & 0x86 == 0x80
        && (((query & 0xF9) | 0x80) | 0x04) & 0x02 == 0) by (bit_vector);
}

} // verus!
