//! Forwarding queries to upstream servers: what to do next, and what came of it.
//!
//! A `Forwarder` keeps the records of queries that are under way. It sends and
//! receives nothing itself: it tells which action is next and is told what came of
//! it.

use crate::addr::{IpAddr, SocketAddr};
use crate::answer::{self, answer_from};
use crate::cache::{self, Cache};
use crate::cache_types::Instant;
use crate::edns0::{self, copy_with_options, DaemonOptions};
use crate::hash::{self, hash_questions, SHA256_DIGEST_SIZE};
use crate::parser::{self, extract_request, ParseError};
use crate::protocol::PACKETSZ;
use crate::reply::{self, store_reply};
use crate::text::{self, to_lowercase_text};
use crate::wire::{self, copy_range, push_bytes, push_u16, push_u32, read_u16};
use rand::Rng;
use std::collections::hash_map::DefaultHasher;
use std::collections::HashMap;
use std::hash::Hasher;
use vstd::array::array_as_slice;
use vstd::hash_map::StringHashMap;
use vstd::prelude::*;
use vstd::std_specs::hash::DefaultHasherAdditionalSpecFns;
use vstd::std_specs::iter::IteratorSpec;

verus! {

broadcast use vstd::std_specs::hash::group_hash_axioms;

/// How often a query is sent again.
pub const MAX_RETRIES: u32 = 3;

/// How long the first reply is waited for, in milliseconds.
pub const INITIAL_RETRY_TIMEOUT_MS: u64 = 100;

/// The longest time that a reply is waited for, in milliseconds.
pub const MAX_RETRY_TIMEOUT_MS: u64 = 5000;

/// How many queries can be under way.
pub const MAX_FORWARD_RECORDS: usize = 5000;

/// By which a query that is under way is found.
pub type TransactionId = u64;

/// What is known of a query that is sent on.
#[derive(Debug, Clone, Copy, PartialEq, Eq, Structural)]
pub struct ForwardFlags {
    bits: u16,
}

impl ForwardFlags {
    /// Not sent yet.
    pub const NEW_QUERY: u16 = 1;

    /// Another query waits for it.
    pub const DEPENDANCY: u16 = 2;

    /// Asks for DNSSEC records.
    pub const DNSSEC_QUERY: u16 = 4;

    /// The client checks signatures itself.
    pub const CHECKING_DISABLED: u16 = 8;

    /// The client wants DNSSEC records.
    pub const DO_QUERY: u16 = 16;

    /// An answer that has expired will do.
    pub const STALE_QUERY: u16 = 32;

    /// The flags as bits.
    pub closed spec fn mask(self) -> u16 {
        self.bits
    }

    /// No flags.
    pub fn empty() -> (r: Self)
        ensures
            r.mask() == 0,
    {
        ForwardFlags { bits: 0 }
    }

    /// The flags with these bits.
    pub fn from_bits(bits: u16) -> (r: Self)
        ensures
            r.mask() == bits,
    {
        ForwardFlags { bits }
    }

    /// The flags as bits.
    pub fn bits(&self) -> (r: u16)
        ensures
            r == self.mask(),
    {
        self.bits
    }

    /// Whether all the flags of a mask are set.
    pub fn contains(&self, mask: u16) -> (r: bool)
        ensures
            r == (self.mask() & mask == mask),
    {
        self.bits & mask == mask
    }

    /// Sets the flags of a mask.
    pub fn insert(&mut self, mask: u16)
        ensures
            final(self).mask() == old(self).mask() | mask,
    {
        self.bits = self.bits | mask;
    }

    /// Takes the flags of a mask away.
    pub fn remove(&mut self, mask: u16)
        ensures
            final(self).mask() == old(self).mask() & !mask,
    {
        self.bits = self.bits & !mask;
    }
}

/// Flags that were set are there, and flags that were taken away are not; others
/// are as they were.
pub proof fn law_flags(bits: u16, mask: u16, other: u16)
    requires
        mask & other == 0,
    ensures
        (bits | mask) & mask == mask,
        (bits & !mask) & mask == 0,
        (bits | mask) & other == bits & other,
        (bits & !mask) & other == bits & other,
{
    assert((bits | mask) & mask == mask) by (bit_vector);
    assert((bits & !mask) & mask == 0) by (bit_vector);
    assert((bits | mask) & other == bits & other && (bits & !mask) & other == bits & other)
        by (bit_vector)
        requires
            mask & other == 0u16,
    ;
}

/// A query that is under way.
#[derive(Debug, Clone, Copy)]
pub struct ForwardRecord {
    /// The random number that it was sent with.
    pub new_query_id: u16,
    /// The number that the client gave it.
    pub orig_query_id: u16,
    pub source_addr: SocketAddr,
    pub dest_addr: SocketAddr,
    pub upstream_server: Option<SocketAddr>,
    pub sent_time: Instant,
    /// The digest of its questions.
    pub query_hash: [u8; SHA256_DIGEST_SIZE],
    pub flags: ForwardFlags,
    pub retry_count: u32,
    /// Whether it was sent over TCP.
    pub tcp: bool,
}

/// What a `ForwardRecord` says.
pub struct FrecModel {
    pub new_query_id: u16,
    pub orig_query_id: u16,
    pub source_addr: SocketAddr,
    pub dest_addr: SocketAddr,
    pub upstream_server: Option<SocketAddr>,
    pub sent_time: Instant,
    pub query_hash: Seq<u8>,
    pub flags: u16,
    pub retry_count: u32,
    pub tcp: bool,
}

impl View for ForwardRecord {
    type V = FrecModel;

    open spec fn view(&self) -> FrecModel {
        FrecModel {
            new_query_id: self.new_query_id,
            orig_query_id: self.orig_query_id,
            source_addr: self.source_addr,
            dest_addr: self.dest_addr,
            upstream_server: self.upstream_server,
            sent_time: self.sent_time,
            query_hash: self.query_hash@,
            flags: self.flags.mask(),
            retry_count: self.retry_count,
            tcp: self.tcp,
        }
    }
}

/// How long ago a time was; none when it is yet to come.
pub open spec fn elapsed(since: Instant, now: Instant) -> u64 {
    if now >= since {
        (now - since) as u64
    } else {
        0
    }
}

impl ForwardRecord {
    /// Whether the query asks for DNSSEC records.
    pub fn is_dnssec(&self) -> (r: bool)
        ensures
            r == (self@.flags & ForwardFlags::DNSSEC_QUERY == ForwardFlags::DNSSEC_QUERY),
    {
        self.flags.contains(ForwardFlags::DNSSEC_QUERY)
    }

    /// Whether the query was sent over TCP.
    pub fn is_tcp(&self) -> (r: bool)
        ensures
            r == self.tcp,
    {
        self.tcp
    }

    /// Whether the query was sent longer than `timeout` nanoseconds ago.
    pub fn is_expired(&self, timeout: u64, now: Instant) -> (r: bool)
        ensures
            r == (elapsed(self.sent_time, now) > timeout),
    {
        if now >= self.sent_time {
            now - self.sent_time > timeout
        } else {
            false
        }
    }
}

/// Why a query got no answer.
#[derive(Debug, Clone, PartialEq, Eq)]
pub enum ForwardError {
    PoolExhausted,
    Timeout,
    ServerUnavailable,
    PacketTooLarge,
    InvalidResponse,
    NetworkError(String),
    CacheError(String),
    ParseError(String),
    SerializationError(String),
}

/// What a `ForwardError` says, with its texts as sequences of characters.
pub enum ForwardFault {
    PoolExhausted,
    Timeout,
    ServerUnavailable,
    PacketTooLarge,
    InvalidResponse,
    NetworkError(Seq<char>),
    CacheError(Seq<char>),
    ParseError(Seq<char>),
    SerializationError(Seq<char>),
}

impl View for ForwardError {
    type V = ForwardFault;

    open spec fn view(&self) -> ForwardFault {
        match *self {
            ForwardError::PoolExhausted => ForwardFault::PoolExhausted,
            ForwardError::Timeout => ForwardFault::Timeout,
            ForwardError::ServerUnavailable => ForwardFault::ServerUnavailable,
            ForwardError::PacketTooLarge => ForwardFault::PacketTooLarge,
            ForwardError::InvalidResponse => ForwardFault::InvalidResponse,
            ForwardError::NetworkError(msg) => ForwardFault::NetworkError(msg@),
            ForwardError::CacheError(msg) => ForwardFault::CacheError(msg@),
            ForwardError::ParseError(msg) => ForwardFault::ParseError(msg@),
            ForwardError::SerializationError(msg) => ForwardFault::SerializationError(msg@),
        }
    }
}

impl ForwardFault {
    /// The text of the error.
    pub open spec fn message(self) -> Seq<char> {
        match self {
            ForwardFault::PoolExhausted => "Forward record pool exhausted"@,
            ForwardFault::Timeout => "Query timed out"@,
            ForwardFault::ServerUnavailable => "No upstream servers available"@,
            ForwardFault::PacketTooLarge => "Packet too large"@,
            ForwardFault::InvalidResponse => "Invalid response from upstream"@,
            ForwardFault::NetworkError(msg) => "Network error: "@ + msg,
            ForwardFault::CacheError(msg) => "Cache error: "@ + msg,
            ForwardFault::ParseError(msg) => "Parse error: "@ + msg,
            ForwardFault::SerializationError(msg) => "Serialization error: "@ + msg,
        }
    }
}

impl ForwardError {
    /// The text of the error.
    pub fn to_string(&self) -> (r: String)
        ensures
            r@ == self@.message(),
    {
        let mut s: String = String::new();
        match self {
            ForwardError::PoolExhausted => {
                s.append("Forward record pool exhausted");
            },
            ForwardError::Timeout => {
                s.append("Query timed out");
            },
            ForwardError::ServerUnavailable => {
                s.append("No upstream servers available");
            },
            ForwardError::PacketTooLarge => {
                s.append("Packet too large");
            },
            ForwardError::InvalidResponse => {
                s.append("Invalid response from upstream");
            },
            ForwardError::NetworkError(msg) => {
                s.append("Network error: ");
                s.append(msg.as_str());
            },
            ForwardError::CacheError(msg) => {
                s.append("Cache error: ");
                s.append(msg.as_str());
            },
            ForwardError::ParseError(msg) => {
                s.append("Parse error: ");
                s.append(msg.as_str());
            },
            ForwardError::SerializationError(msg) => {
                s.append("Serialization error: ");
                s.append(msg.as_str());
            },
        }
        assert(s@ =~= self@.message());
        s
    }

    /// The error for a message that cannot be read.
    pub fn from_parse_error(err: &ParseError) -> (r: Self)
        ensures
            r@ == ForwardFault::ParseError(err@.debug_text()),
    {
        ForwardError::ParseError(err.debug_text())
    }

    /// The same error once more.
    pub fn copy(&self) -> (r: Self)
        ensures
            r@ == self@,
    {
        match self {
            ForwardError::PoolExhausted => ForwardError::PoolExhausted,
            ForwardError::Timeout => ForwardError::Timeout,
            ForwardError::ServerUnavailable => ForwardError::ServerUnavailable,
            ForwardError::PacketTooLarge => ForwardError::PacketTooLarge,
            ForwardError::InvalidResponse => ForwardError::InvalidResponse,
            ForwardError::NetworkError(msg) => ForwardError::NetworkError(msg.as_str().to_owned()),
            ForwardError::CacheError(msg) => ForwardError::CacheError(msg.as_str().to_owned()),
            ForwardError::ParseError(msg) => ForwardError::ParseError(msg.as_str().to_owned()),
            ForwardError::SerializationError(msg) => ForwardError::SerializationError(
                msg.as_str().to_owned(),
            ),
        }
    }
}

/// What has happened so far.
#[derive(Debug, Clone, Copy, PartialEq, Eq, Structural)]
pub struct ForwarderStats {
    pub total_queries: u64,
    pub upstream_queries: u64,
    pub retries: u64,
    pub timeouts: u64,
    pub cache_hits: u64,
    pub cache_misses: u64,
    pub successful_forwards: u64,
    pub failed_forwards: u64,
}

impl ForwarderStats {
    /// Every number can be counted up.
    pub open spec fn has_room(self) -> bool {
        &&& self.total_queries < u64::MAX
        &&& self.upstream_queries < u64::MAX
        &&& self.retries < u64::MAX
        &&& self.timeouts < u64::MAX
        &&& self.cache_hits < u64::MAX
        &&& self.cache_misses < u64::MAX
        &&& self.successful_forwards < u64::MAX
        &&& self.failed_forwards < u64::MAX
    }

    /// Whether every number can be counted up.
    pub fn can_count(&self) -> (r: bool)
        ensures
            r == self.has_room(),
    {
        let max: u64 = 0xFFFF_FFFF_FFFF_FFFF;
        self.total_queries < max && self.upstream_queries < max && self.retries < max
            && self.timeouts < max && self.cache_hits < max && self.cache_misses < max
            && self.successful_forwards < max && self.failed_forwards < max
    }
}

/// The question of a query; queries with the same one need only one answer.
#[derive(Debug, Clone, Hash, PartialEq, Eq)]
pub struct QueryKey {
    /// The name in lower case.
    pub domain: String,
    pub qtype: u16,
    pub qclass: u16,
}

impl View for QueryKey {
    type V = (Seq<char>, u16, u16);

    open spec fn view(&self) -> (Seq<char>, u16, u16) {
        (self.domain@, self.qtype, self.qclass)
    }
}

/// The questions in a vector.
pub open spec fn keys_in(keys: Seq<QueryKey>) -> Set<(Seq<char>, u16, u16)> {
    Set::new(|k: (Seq<char>, u16, u16)| exists|i: int| 0 <= i < keys.len() && #[trigger] keys[i]@
        == k)
}

// ---------------------------------------------------------------------------
// Messages
// ---------------------------------------------------------------------------

/// How long the reply to an attempt is waited for: twice as long as to the one
/// before, up to a limit.
pub open spec fn backoff_ms(attempt: nat) -> nat
    decreases attempt,
{
    if attempt == 0 {
        INITIAL_RETRY_TIMEOUT_MS as nat
    } else if 2 * backoff_ms((attempt - 1) as nat) > MAX_RETRY_TIMEOUT_MS {
        MAX_RETRY_TIMEOUT_MS as nat
    } else {
        2 * backoff_ms((attempt - 1) as nat)
    }
}

/// How long the reply to an attempt is waited for, in milliseconds.
pub fn retry_timeout(attempt: u32) -> (r: u64)
    ensures
        r == backoff_ms(attempt as nat),
        INITIAL_RETRY_TIMEOUT_MS <= r <= MAX_RETRY_TIMEOUT_MS,
{
    let mut ms: u64 = INITIAL_RETRY_TIMEOUT_MS;
    let mut i: u32 = 0;
    while i < attempt
        invariant
            i <= attempt,
            ms == backoff_ms(i as nat),
            INITIAL_RETRY_TIMEOUT_MS <= ms <= MAX_RETRY_TIMEOUT_MS,
        decreases attempt - i,
    {
        ms = if 2 * ms > MAX_RETRY_TIMEOUT_MS {
            MAX_RETRY_TIMEOUT_MS
        } else {
            2 * ms
        };
        i = i + 1;
    }
    ms
}

/// The wait is a power of two times the first one, as long as that stays within
/// the limit.
pub proof fn law_backoff_doubles(attempt: nat)
    ensures
        backoff_ms(attempt) == (if 100 * vstd::arithmetic::power2::pow2(attempt) <= 5000 {
            100 * vstd::arithmetic::power2::pow2(attempt)
        } else {
            5000
        }),
    decreases attempt,
{
    if attempt == 0 {
        vstd::arithmetic::power2::lemma2_to64();
    } else {
        law_backoff_doubles((attempt - 1) as nat);
        vstd::arithmetic::power2::lemma_pow2_unfold(attempt);
    }
}

/// A message with another number.
pub open spec fn with_id(packet: Seq<u8>, id: u16) -> Seq<u8> {
    packet.update(0, wire::be16_bytes(id)[0]).update(1, wire::be16_bytes(id)[1])
}

/// A copy of a message with another number.
fn copy_with_id(packet: &[u8], id: u16) -> (r: Vec<u8>)
    requires
        packet@.len() >= 2,
    ensures
        r@ == with_id(packet@, id),
{
    let mut r = copy_range(packet, 0, packet.len());
    assert(r@ =~= packet@);
    r.set(0, (id / 256) as u8);
    r.set(1, (id % 256) as u8);
    r
}

/// The digest of the questions of a message.
pub open spec fn query_digest(packet: Seq<u8>) -> Option<Seq<u8>> {
    match hash::questions_material(packet) {
        Some(bytes) => Some(hash::sha256(bytes)),
        None => None,
    }
}

/// The error for questions that cannot be read.
pub open spec fn digest_fault() -> ForwardFault {
    ForwardFault::ParseError("Failed to hash query"@)
}

/// The digest of the questions of a message.
fn compute_query_hash(packet: &[u8]) -> (r: Result<[u8; SHA256_DIGEST_SIZE], ForwardError>)
    ensures
        match r {
            Ok(digest) => query_digest(packet@) == Some(digest@),
            Err(e) => query_digest(packet@) is None && e@ == digest_fault(),
        },
{
    match hash_questions(packet) {
        Some(digest) => Ok(digest),
        None => Err(ForwardError::ParseError("Failed to hash query".to_owned())),
    }
}

/// What a reply comes to for the client: it must have the questions of the query,
/// and gets the client's number back.
pub open spec fn reply_for(response: Seq<u8>, frec: FrecModel) -> Result<
    Seq<u8>,
    ForwardFault,
> {
    match query_digest(response) {
        None => Err(digest_fault()),
        Some(digest) => if digest == frec.query_hash {
            Ok(with_id(response, frec.orig_query_id))
        } else {
            Err(ForwardFault::InvalidResponse)
        },
    }
}

/// What a result with bytes says.
pub open spec fn outcome(r: Result<Vec<u8>, ForwardError>) -> Result<Seq<u8>, ForwardFault> {
    match r {
        Ok(bytes) => Ok(bytes@),
        Err(e) => Err(e@),
    }
}

/// Compares digests.
fn same_digest(a: &[u8; SHA256_DIGEST_SIZE], b: &[u8; SHA256_DIGEST_SIZE]) -> (r: bool)
    ensures
        r == (a@ == b@),
{
    let mut i: usize = 0;
    while i < SHA256_DIGEST_SIZE
        invariant
            i <= 32,
            forall|k: int| 0 <= k < i ==> a@[k] == b@[k],
        decreases 32 - i,
    {
        if a[i] != b[i] {
            return false;
        }
        i = i + 1;
    }
    assert(a@ =~= b@);
    true
}

/// Makes the answer for the client out of a reply.
pub fn check_reply(response: &[u8], frec: &ForwardRecord) -> (r: Result<Vec<u8>, ForwardError>)
    ensures
        outcome(r) == reply_for(response@, frec@),
{
    let digest = match compute_query_hash(response) {
        Ok(digest) => digest,
        Err(e) => {
            return Err(e);
        },
    };
    if !same_digest(&digest, &frec.query_hash) {
        return Err(ForwardError::InvalidResponse);
    }
    assert(response@.len() >= 12);
    Ok(copy_with_id(response, frec.orig_query_id))
}

/// An answer is the reply but for its number, which is the client's.
pub proof fn law_answer_has_the_clients_number(response: Seq<u8>, frec: FrecModel)
    ensures
        reply_for(response, frec) matches Ok(answer) ==> {
            &&& answer.len() == response.len()
            &&& wire::be16(answer, 0) == frec.orig_query_id
            &&& forall|i: int| 2 <= i < answer.len() ==> answer[i] == response[i]
        },
{
    wire::law_u16_round_trip(frec.orig_query_id);
}

/// A reply with other questions than the query is refused, where their digests
/// differ.
pub proof fn law_other_questions_are_refused(response: Seq<u8>, frec: FrecModel)
    requires
        query_digest(response) != Some(frec.query_hash),
    ensures
        reply_for(response, frec) is Err,
{
}

/// A reply with the questions of the query is taken.
pub proof fn law_own_questions_are_taken(packet: Seq<u8>, response: Seq<u8>, frec: FrecModel)
    requires
        query_digest(packet) == Some(frec.query_hash),
        hash::questions_material(response) == hash::questions_material(packet),
    ensures
        reply_for(response, frec) == Ok::<Seq<u8>, ForwardFault>(
            with_id(response, frec.orig_query_id),
        ),
{
}

/// A message behind its length, as it is sent over TCP.
pub open spec fn tcp_frame(packet: Seq<u8>) -> Result<Seq<u8>, ForwardFault> {
    if packet.len() > 65535 {
        Err(ForwardFault::PacketTooLarge)
    } else {
        Ok(wire::be16_bytes(packet.len() as u16) + packet)
    }
}

/// Puts a message behind its length, as it is sent over TCP.
pub fn frame_tcp(packet: &[u8]) -> (r: Result<Vec<u8>, ForwardError>)
    ensures
        outcome(r) == tcp_frame(packet@),
{
    if packet.len() > 65535 {
        return Err(ForwardError::PacketTooLarge);
    }
    let mut framed: Vec<u8> = Vec::new();
    push_u16(&mut framed, packet.len() as u16);
    push_bytes(&mut framed, packet);
    assert(framed@ =~= wire::be16_bytes(packet@.len() as u16) + packet@);
    Ok(framed)
}

/// How long the message is that follows a length.
pub fn framed_len(prefix: [u8; 2]) -> (r: usize)
    ensures
        r == wire::be16(prefix@, 0),
{
    read_u16(array_as_slice(&prefix), 0) as usize
}

/// The length in front of a message that was framed is its length.
pub proof fn law_frame_tells_the_length(packet: Seq<u8>)
    requires
        packet.len() <= 65535,
    ensures
        tcp_frame(packet) matches Ok(framed) && wire::be16(framed, 0) == packet.len()
            && framed.skip(2) == packet,
{
    wire::law_u16_round_trip(packet.len() as u16);
    let framed = wire::be16_bytes(packet.len() as u16) + packet;
    assert(framed.skip(2) =~= packet);
}

// ---------------------------------------------------------------------------
// Numbers
// ---------------------------------------------------------------------------

/// `rand::Rng::gen` with the generator of the thread, which the operating system
/// seeds: any number of 16 bits can come, so that nothing is stated of it. A system
/// that gives no seed makes the call panic.
#[verifier::external_body]
fn random_u16() -> (r: u16) {
    rand::thread_rng().gen()
}

/// The bytes of an address with a port.
pub open spec fn addr_material(addr: SocketAddr) -> Seq<u8> {
    (match addr.ip {
        IpAddr::V4(a) => seq![4u8] + a.bytes(),
        IpAddr::V6(a) => seq![6u8] + a.bytes(),
    }) + wire::be16_bytes(addr.port) + wire::be32_bytes(addr.flowinfo) + wire::be32_bytes(
        addr.scope_id,
    )
}

/// The number by which a query that is under way is found: the hash of its number
/// and its client.
pub open spec fn transaction_of(query_id: u16, source: SocketAddr) -> TransactionId {
    DefaultHasher::spec_finish(seq![wire::be16_bytes(query_id) + addr_material(source)])
}

/// The number by which a query that is under way is found.
pub fn generate_transaction_id(query_id: u16, source_addr: &SocketAddr) -> (r: TransactionId)
    ensures
        r == transaction_of(query_id, *source_addr),
{
    let mut data: Vec<u8> = Vec::new();
    push_u16(&mut data, query_id);
    match &source_addr.ip {
        IpAddr::V4(a) => {
            data.push(4);
            let octets = a.octets();
            push_bytes(&mut data, array_as_slice(&octets));
        },
        IpAddr::V6(a) => {
            data.push(6);
            let octets = a.octets();
            push_bytes(&mut data, array_as_slice(&octets));
        },
    }
    push_u16(&mut data, source_addr.port);
    push_u32(&mut data, source_addr.flowinfo);
    push_u32(&mut data, source_addr.scope_id);
    assert(data@ =~= wire::be16_bytes(query_id) + addr_material(*source_addr));
    let mut hasher = DefaultHasher::new();
    hasher.write(data.as_slice());
    assert(hasher@ =~= seq![wire::be16_bytes(query_id) + addr_material(*source_addr)]);
    hasher.finish()
}

// ---------------------------------------------------------------------------
// What happens to a query
// ---------------------------------------------------------------------------

/// What is to be done next for a query.
#[derive(Debug, PartialEq, Eq)]
pub enum ForwardAction {
    /// Wait for the result of the query in flight that has the same question.
    Join,
    /// Pick an upstream server for the name.
    SelectServer,
    /// Send the message to the server.
    Transmit { packet: Vec<u8>, server: SocketAddr },
    /// Wait for the reply.
    Await { transaction_id: TransactionId, timeout_ms: u64 },
    /// Give the result to the client, and to those who wait for it where
    /// `broadcast` says so.
    Finish { result: Result<Vec<u8>, ForwardError>, broadcast: bool },
}

/// What a `ForwardAction` says.
pub enum ForwardStep {
    Join,
    SelectServer,
    Transmit { packet: Seq<u8>, server: SocketAddr },
    Await { transaction_id: TransactionId, timeout_ms: nat },
    Finish { result: Result<Seq<u8>, ForwardFault>, broadcast: bool },
}

impl View for ForwardAction {
    type V = ForwardStep;

    open spec fn view(&self) -> ForwardStep {
        match *self {
            ForwardAction::Join => ForwardStep::Join,
            ForwardAction::SelectServer => ForwardStep::SelectServer,
            ForwardAction::Transmit { packet, server } => ForwardStep::Transmit {
                packet: packet@,
                server,
            },
            ForwardAction::Await { transaction_id, timeout_ms } => ForwardStep::Await {
                transaction_id,
                timeout_ms: timeout_ms as nat,
            },
            ForwardAction::Finish { result, broadcast } => ForwardStep::Finish {
                result: outcome(result),
                broadcast,
            },
        }
    }
}

/// What came of an action.
#[derive(Debug, PartialEq, Eq)]
pub enum ForwardEvent {
    /// The query with the same question has a result.
    Joined { result: Result<Vec<u8>, ForwardError> },
    /// The query with the same question went without a result.
    JoinLost,
    /// There is no server for the name.
    NoServer,
    /// A server was picked at a time; the query gets a number. The hardware address
    /// of the client, where one was found, is to be told as it is or in writing.
    Server {
        server: SocketAddr,
        new_query_id: u16,
        now: Instant,
        mac: Option<Vec<u8>>,
        device_mac: Option<Vec<u8>>,
    },
    /// The message was sent.
    Sent,
    /// The message was not sent.
    NotSent { error: String },
    /// A reply came at a time.
    Reply { packet: Vec<u8>, now: Instant },
    /// No reply will come.
    ReplyLost,
    /// No reply came in time.
    TimedOut,
}

/// What a `ForwardEvent` says.
pub enum ForwardNews {
    Joined { result: Result<Seq<u8>, ForwardFault> },
    JoinLost,
    NoServer,
    Server {
        server: SocketAddr,
        new_query_id: u16,
        now: Instant,
        mac: Option<Seq<u8>>,
        device_mac: Option<Seq<u8>>,
    },
    Sent,
    NotSent { error: Seq<char> },
    Reply { packet: Seq<u8>, now: Instant },
    ReplyLost,
    TimedOut,
}

impl View for ForwardEvent {
    type V = ForwardNews;

    open spec fn view(&self) -> ForwardNews {
        match *self {
            ForwardEvent::Joined { result } => ForwardNews::Joined { result: outcome(result) },
            ForwardEvent::JoinLost => ForwardNews::JoinLost,
            ForwardEvent::NoServer => ForwardNews::NoServer,
            ForwardEvent::Server { server, new_query_id, now, mac, device_mac } => {
                ForwardNews::Server {
                    server,
                    new_query_id,
                    now,
                    mac: edns0::found_mac(mac),
                    device_mac: edns0::found_mac(device_mac),
                }
            },
            ForwardEvent::Sent => ForwardNews::Sent,
            ForwardEvent::NotSent { error } => ForwardNews::NotSent { error: error@ },
            ForwardEvent::Reply { packet, now } => ForwardNews::Reply { packet: packet@, now },
            ForwardEvent::ReplyLost => ForwardNews::ReplyLost,
            ForwardEvent::TimedOut => ForwardNews::TimedOut,
        }
    }
}

/// A query on its way through the forwarder.
#[derive(Debug, Clone)]
pub struct QueryRun {
    packet: Vec<u8>,
    source_addr: SocketAddr,
    dest_addr: SocketAddr,
    query_name: String,
    key: QueryKey,
    retry_count: u32,
    last_error: Option<ForwardError>,
    transaction_id: TransactionId,
}

/// The state of a query on its way through the forwarder.
pub struct RunModel {
    /// The message of the client.
    pub packet: Seq<u8>,
    pub source_addr: SocketAddr,
    pub dest_addr: SocketAddr,
    pub query_name: Seq<char>,
    /// Its question.
    pub key: (Seq<char>, u16, u16),
    /// How often it was sent again.
    pub retry_count: nat,
    /// What the last attempt came to.
    pub last_error: Option<ForwardFault>,
    /// The record of the last attempt.
    pub transaction_id: TransactionId,
}

/// What an error that may be there says.
pub open spec fn fault_of(e: Option<ForwardError>) -> Option<ForwardFault> {
    match e {
        Some(e) => Some(e@),
        None => None,
    }
}

impl View for QueryRun {
    type V = RunModel;

    closed spec fn view(&self) -> RunModel {
        RunModel {
            packet: self.packet@,
            source_addr: self.source_addr,
            dest_addr: self.dest_addr,
            query_name: self.query_name@,
            key: self.key@,
            retry_count: self.retry_count as nat,
            last_error: fault_of(self.last_error),
            transaction_id: self.transaction_id,
        }
    }
}

impl RunModel {
    /// The message has a header, and it was not sent too often.
    pub open spec fn wf(self) -> bool {
        self.packet.len() >= 12 && self.retry_count <= MAX_RETRIES
    }
}

impl QueryRun {
    /// The name that is asked for, by which a server is picked.
    pub fn query_name(&self) -> (r: &str)
        ensures
            r@ == self@.query_name,
    {
        self.query_name.as_str()
    }

    /// The question, by which those who wait for the result find it.
    pub fn query_key(&self) -> (r: QueryKey)
        ensures
            r@ == self@.key,
    {
        copy_key(&self.key)
    }
}

/// A question once more.
fn copy_key(key: &QueryKey) -> (r: QueryKey)
    ensures
        r@ == key@,
{
    QueryKey { domain: key.domain.as_str().to_owned(), qtype: key.qtype, qclass: key.qclass }
}

/// The state of a forwarder.
#[verifier::ext_equal]
pub struct ForwarderModel {
    /// The queries that are under way.
    pub records: Map<TransactionId, FrecModel>,
    pub stats: ForwarderStats,
    /// The questions that are asked of a server.
    pub inflight: Set<(Seq<char>, u16, u16)>,
    /// How many records the cache can hold; none when there is no cache.
    pub cache_size: usize,
    /// Which options queries that are sent on carry.
    pub options: DaemonOptions,
    /// The payload size that they tell.
    pub payload_size: u16,
}

/// The record of an attempt.
pub open spec fn attempt_record(
    run: RunModel,
    server: SocketAddr,
    new_query_id: u16,
    now: Instant,
    digest: Seq<u8>,
) -> FrecModel {
    FrecModel {
        new_query_id,
        orig_query_id: wire::be16(run.packet, 0),
        source_addr: run.source_addr,
        dest_addr: run.dest_addr,
        upstream_server: Some(server),
        sent_time: now,
        query_hash: digest,
        flags: ForwardFlags::NEW_QUERY,
        retry_count: run.retry_count as u32,
        tcp: false,
    }
}

/// Gives a result to the client and to all who wait for it.
pub open spec fn finished(
    m: ForwarderModel,
    run: RunModel,
    result: Result<Seq<u8>, ForwardFault>,
) -> (ForwarderModel, RunModel, ForwardStep) {
    (
        ForwarderModel { inflight: m.inflight.remove(run.key), ..m },
        run,
        ForwardStep::Finish { result, broadcast: m.inflight.contains(run.key) },
    )
}

/// The forwarder with one more query that failed.
pub open spec fn count_failed(m: ForwarderModel) -> ForwarderModel {
    ForwarderModel {
        stats: ForwarderStats {
            failed_forwards: (m.stats.failed_forwards + 1) as u64,
            ..m.stats
        },
        ..m
    }
}

/// The forwarder without the record of the last attempt of a query.
pub open spec fn without_attempt(m: ForwarderModel, run: RunModel) -> ForwarderModel {
    ForwarderModel { records: m.records.remove(run.transaction_id), ..m }
}

/// After an attempt that came to nothing: the next one, or the end.
pub open spec fn try_again(m: ForwarderModel, run: RunModel, e: ForwardFault) -> (
    ForwarderModel,
    RunModel,
    ForwardStep,
) {
    let run = RunModel { last_error: Some(e), ..run };
    if run.retry_count < MAX_RETRIES {
        (m, RunModel { retry_count: run.retry_count + 1, ..run }, ForwardStep::SelectServer)
    } else {
        finished(count_failed(m), run, Err(e))
    }
}

/// What a reply to a query leads to.
pub open spec fn on_reply(m: ForwarderModel, run: RunModel, packet: Seq<u8>) -> (
    ForwarderModel,
    RunModel,
    ForwardStep,
) {
    let result = if m.records.contains_key(run.transaction_id) {
        reply_for(packet, m.records[run.transaction_id])
    } else {
        Err(ForwardFault::InvalidResponse)
    };
    match result {
        Ok(answer) => {
            let frec = m.records[run.transaction_id];
            let done = ForwarderModel {
                records: m.records.remove(transaction_of(frec.new_query_id, frec.source_addr)),
                stats: ForwarderStats {
                    successful_forwards: (m.stats.successful_forwards + 1) as u64,
                    ..m.stats
                },
                ..m
            };
            finished(done, run, Ok(answer))
        },
        Err(e) => finished(
            count_failed(without_attempt(m, run)),
            RunModel { last_error: Some(e), ..run },
            Err(e),
        ),
    }
}

/// What is sent to a server: the client's message with the options that are
/// configured.
pub open spec fn outgoing(
    m: ForwarderModel,
    run: RunModel,
    mac: Option<Seq<u8>>,
    device_mac: Option<Seq<u8>>,
) -> Seq<u8> {
    edns0::with_options(
        run.packet,
        edns0::config_options(run.source_addr.ip, m.options, mac, device_mac),
        m.payload_size,
    )
}

/// Whether the cache has kept what a reply leads to: its answers where it was
/// taken and there is a cache, else nothing.
pub open spec fn is_kept(
    m: ForwarderModel,
    before: cache::CacheModel,
    after: cache::CacheModel,
    step: ForwardStep,
    packet: Seq<u8>,
    now: Instant,
) -> bool {
    if m.cache_size > 0 && (step matches ForwardStep::Finish { result, .. } && result is Ok) {
        reply::is_stored(before, after, packet, now)
    } else {
        after == before
    }
}

/// What the choice of a server leads to.
pub open spec fn on_server(
    m: ForwarderModel,
    run: RunModel,
    server: SocketAddr,
    new_query_id: u16,
    now: Instant,
    mac: Option<Seq<u8>>,
    device_mac: Option<Seq<u8>>,
) -> (ForwarderModel, RunModel, ForwardStep) {
    match query_digest(run.packet) {
        None => finished(m, run, Err(digest_fault())),
        Some(digest) => if m.records.len() >= MAX_FORWARD_RECORDS {
            finished(m, run, Err(ForwardFault::PoolExhausted))
        } else {
            let id = transaction_of(new_query_id, run.source_addr);
            let frec = attempt_record(run, server, new_query_id, now, digest);
            let again: u64 = if run.retry_count > 0 {
                1
            } else {
                0
            };
            (
                ForwarderModel {
                    records: m.records.insert(id, frec),
                    stats: ForwarderStats { retries: (m.stats.retries + again) as u64, ..m.stats },
                    ..m
                },
                RunModel { transaction_id: id, ..run },
                ForwardStep::Transmit {
                    packet: with_id(outgoing(m, run, mac, device_mac), new_query_id),
                    server,
                },
            )
        },
    }
}

/// What an event leads to.
pub open spec fn advanced(m: ForwarderModel, run: RunModel, news: ForwardNews) -> (
    ForwarderModel,
    RunModel,
    ForwardStep,
) {
    match news {
        ForwardNews::Joined { result } => (
            m,
            run,
            ForwardStep::Finish { result, broadcast: false },
        ),
        ForwardNews::JoinLost => (m, run, ForwardStep::SelectServer),
        ForwardNews::NoServer => finished(m, run, Err(ForwardFault::ServerUnavailable)),
        ForwardNews::Server { server, new_query_id, now, mac, device_mac } => on_server(
            m,
            run,
            server,
            new_query_id,
            now,
            mac,
            device_mac,
        ),
        ForwardNews::Sent => (
            ForwarderModel {
                stats: ForwarderStats {
                    upstream_queries: (m.stats.upstream_queries + 1) as u64,
                    ..m.stats
                },
                ..m
            },
            run,
            ForwardStep::Await {
                transaction_id: run.transaction_id,
                timeout_ms: backoff_ms(run.retry_count),
            },
        ),
        ForwardNews::NotSent { error } => finished(
            without_attempt(m, run),
            run,
            Err(ForwardFault::NetworkError(error)),
        ),
        ForwardNews::Reply { packet, now } => on_reply(m, run, packet),
        ForwardNews::ReplyLost => try_again(without_attempt(m, run), run, ForwardFault::Timeout),
        ForwardNews::TimedOut => {
            let late = without_attempt(m, run);
            try_again(
                ForwarderModel {
                    stats: ForwarderStats { timeouts: (m.stats.timeouts + 1) as u64, ..m.stats },
                    ..late
                },
                run,
                ForwardFault::Timeout,
            )
        },
    }
}

/// The question of a query, in lower case.
pub open spec fn key_of(name: Seq<char>, qtype: u16, qclass: u16) -> (Seq<char>, u16, u16) {
    (text::lowercase(name), qtype, qclass)
}

/// A query before its first attempt.
pub open spec fn first_run(
    packet: Seq<u8>,
    source: SocketAddr,
    dest: SocketAddr,
    request: (Seq<char>, u16, u16),
) -> RunModel {
    RunModel {
        packet,
        source_addr: source,
        dest_addr: dest,
        query_name: request.0,
        key: key_of(request.0, request.1, request.2),
        retry_count: 0,
        last_error: None,
        transaction_id: 0,
    }
}

/// What a message from a client leads to: it ends at once when it cannot be read,
/// waits for another query with the same question, or is sent to a server.
pub open spec fn begun(
    m: ForwarderModel,
    packet: Seq<u8>,
    source: SocketAddr,
    dest: SocketAddr,
) -> (ForwarderModel, Option<RunModel>, ForwardStep) {
    let counted = ForwarderModel {
        stats: ForwarderStats { total_queries: (m.stats.total_queries + 1) as u64, ..m.stats },
        ..m
    };
    if packet.len() < 12 {
        (
            counted,
            None,
            ForwardStep::Finish {
                result: Err(ForwardFault::ParseError("Packet too short for DNS header"@)),
                broadcast: false,
            },
        )
    } else {
        match parser::request_of(packet) {
            Err(e) => (
                counted,
                None,
                ForwardStep::Finish {
                    result: Err(ForwardFault::ParseError(e.debug_text())),
                    broadcast: false,
                },
            ),
            Ok(request) => {
                let run = first_run(packet, source, dest, request);
                if m.inflight.contains(run.key) {
                    (counted, Some(run), ForwardStep::Join)
                } else {
                    (
                        ForwarderModel { inflight: m.inflight.insert(run.key), ..counted },
                        Some(run),
                        ForwardStep::SelectServer,
                    )
                }
            },
        }
    }
}

/// The model of a query that may be there.
pub open spec fn run_of(run: Option<QueryRun>) -> Option<RunModel> {
    match run {
        Some(run) => Some(run@),
        None => None,
    }
}

/// A new record that nothing was sent for.
pub open spec fn blank_record(
    new_query_id: u16,
    source: SocketAddr,
    dest: SocketAddr,
    now: Instant,
) -> FrecModel {
    FrecModel {
        new_query_id,
        orig_query_id: 0,
        source_addr: source,
        dest_addr: dest,
        upstream_server: None,
        sent_time: now,
        query_hash: Seq::new(32, |i: int| 0u8),
        flags: ForwardFlags::NEW_QUERY,
        retry_count: 0,
        tcp: false,
    }
}

/// Gets a new record with a number, unless there are too many.
pub open spec fn allocated(
    m: ForwarderModel,
    new_query_id: u16,
    source: SocketAddr,
    dest: SocketAddr,
    now: Instant,
) -> (ForwarderModel, Result<TransactionId, ForwardFault>) {
    if m.records.len() >= MAX_FORWARD_RECORDS {
        (m, Err(ForwardFault::PoolExhausted))
    } else {
        let id = transaction_of(new_query_id, source);
        (
            ForwarderModel {
                records: m.records.insert(id, blank_record(new_query_id, source, dest, now)),
                ..m
            },
            Ok(id),
        )
    }
}

/// The models of the records in a table.
pub open spec fn models(records: Map<TransactionId, ForwardRecord>) -> Map<
    TransactionId,
    FrecModel,
> {
    records.map_values(|r: ForwardRecord| r@)
}

/// Forwards queries to upstream servers.
pub struct Forwarder {
    records: HashMap<TransactionId, ForwardRecord>,
    stats: ForwarderStats,
    inflight: Vec<QueryKey>,
    cache_size: usize,
    options: DaemonOptions,
    payload_size: u16,
}

impl View for Forwarder {
    type V = ForwarderModel;

    closed spec fn view(&self) -> ForwarderModel {
        ForwarderModel {
            records: models(self.records@),
            stats: self.stats,
            inflight: keys_in(self.inflight@),
            cache_size: self.cache_size,
            options: self.options,
            payload_size: self.payload_size,
        }
    }
}

impl Forwarder {
    /// No question is in flight twice.
    pub closed spec fn wf(self) -> bool {
        forall|i: int, j: int|
            0 <= i < j < self.inflight@.len() ==> (#[trigger] self.inflight@[i])@ != (
            #[trigger] self.inflight@[j])@
    }

    /// A forwarder with nothing to do, which adds no options to queries.
    pub fn new(cache_size: usize) -> (r: Self)
        ensures
            r.wf(),
            r@.records == Map::<TransactionId, FrecModel>::empty(),
            r@.stats == (ForwarderStats {
                total_queries: 0,
                upstream_queries: 0,
                retries: 0,
                timeouts: 0,
                cache_hits: 0,
                cache_misses: 0,
                successful_forwards: 0,
                failed_forwards: 0,
            }),
            r@.inflight == Set::<(Seq<char>, u16, u16)>::empty(),
            r@.cache_size == cache_size,
            r@.options == (DaemonOptions { add_mac: false, client_subnet: false }),
            r@.payload_size == PACKETSZ,
    {
        let r = Forwarder {
            records: HashMap::new(),
            stats: ForwarderStats {
                total_queries: 0,
                upstream_queries: 0,
                retries: 0,
                timeouts: 0,
                cache_hits: 0,
                cache_misses: 0,
                successful_forwards: 0,
                failed_forwards: 0,
            },
            inflight: Vec::new(),
            cache_size,
            options: DaemonOptions { add_mac: false, client_subnet: false },
            payload_size: PACKETSZ as u16,
        };
        assert(r@.records =~= Map::empty());
        assert(r@.inflight =~= Set::empty());
        r
    }

    /// Configures the options that queries carry when they are sent on.
    pub fn set_options(&mut self, options: DaemonOptions, payload_size: u16)
        requires
            old(self).wf(),
        ensures
            final(self).wf(),
            final(self)@ == (ForwarderModel { options, payload_size, ..old(self)@ }),
    {
        self.options = options;
        self.payload_size = payload_size;
    }

    /// Where a question stands among those in flight.
    fn find_key(&self, key: &QueryKey) -> (r: Option<usize>)
        ensures
            match r {
                Some(i) => i < self.inflight@.len() && self.inflight@[i as int]@ == key@,
                None => !self@.inflight.contains(key@),
            },
    {
        let mut i: usize = 0;
        while i < self.inflight.len()
            invariant
                i <= self.inflight@.len(),
                forall|k: int| 0 <= k < i ==> (#[trigger] self.inflight@[k])@ != key@,
            decreases self.inflight@.len() - i,
        {
            let other = &self.inflight[i];
            if other.qtype == key.qtype && other.qclass == key.qclass && other.domain == key.domain
            {
                return Some(i);
            }
            i = i + 1;
        }
        None
    }

    /// Takes a question out of flight; tells whether it was there.
    fn take_key(&mut self, key: &QueryKey) -> (r: bool)
        requires
            old(self).wf(),
        ensures
            final(self).wf(),
            r == old(self)@.inflight.contains(key@),
            final(self)@ == (ForwarderModel {
                inflight: old(self)@.inflight.remove(key@),
                ..old(self)@
            }),
    {
        let ghost before = self.inflight@;
        match self.find_key(key) {
            None => {
                assert(self@.inflight =~= old(self)@.inflight.remove(key@));
                false
            },
            Some(i) => {
                assert(before[i as int]@ == key@);
                self.inflight.remove(i);
                proof {
                    let after = self.inflight@;
                    assert forall|k: (Seq<char>, u16, u16)|
                        keys_in(after).contains(k) <==> keys_in(before).remove(key@).contains(
                            k,
                        ) by {
                        if keys_in(after).contains(k) {
                            let j = choose|j: int| 0 <= j < after.len() && #[trigger] after[j]@ == k;
                            if j < i {
                                assert(before[j]@ == k);
                            } else {
                                assert(before[j + 1]@ == k);
                            }
                        }
                        if keys_in(before).remove(key@).contains(k) {
                            let j = choose|j: int|
                                0 <= j < before.len() && #[trigger] before[j]@ == k;
                            if j < i {
                                assert(after[j]@ == k);
                            } else {
                                assert(after[j - 1]@ == k);
                            }
                        }
                    }
                    assert(keys_in(after) =~= keys_in(before).remove(key@));
                }
                true
            },
        }
    }

    /// Ends a query: its result is for all who wait for it.
    fn finish(&mut self, key: &QueryKey, result: Result<Vec<u8>, ForwardError>) -> (r:
        ForwardAction)
        requires
            old(self).wf(),
        ensures
            final(self).wf(),
            final(self)@ == (ForwarderModel {
                inflight: old(self)@.inflight.remove(key@),
                ..old(self)@
            }),
            r@ == (ForwardStep::Finish {
                result: outcome(result),
                broadcast: old(self)@.inflight.contains(key@),
            }),
    {
        let broadcast = self.take_key(key);
        ForwardAction::Finish { result, broadcast }
    }

    /// Starts to forward a query: tells what to do first, and with which query
    /// unless it is at its end.
    pub fn forward_query(
        &mut self,
        packet: &[u8],
        source_addr: SocketAddr,
        dest_addr: SocketAddr,
    ) -> (r: (Option<QueryRun>, ForwardAction))
        requires
            old(self).wf(),
            old(self)@.stats.total_queries < u64::MAX,
        ensures
            final(self).wf(),
            (final(self)@, run_of(r.0), r.1@) == begun(
                old(self)@,
                packet@,
                source_addr,
                dest_addr,
            ),
            r.0 matches Some(run) ==> run@.wf(),
    {
        self.stats.total_queries = self.stats.total_queries + 1;
        if packet.len() < 12 {
            let e = ForwardError::ParseError("Packet too short for DNS header".to_owned());
            return (None, ForwardAction::Finish { result: Err(e), broadcast: false });
        }
        let (query_name, qtype, qclass) = match extract_request(packet) {
            Ok(request) => request,
            Err(e) => {
                let e = ForwardError::from_parse_error(&e);
                return (None, ForwardAction::Finish { result: Err(e), broadcast: false });
            },
        };
        let key = QueryKey { domain: to_lowercase_text(query_name.as_str()), qtype, qclass };
        let run = QueryRun {
            packet: copy_range(packet, 0, packet.len()),
            source_addr,
            dest_addr,
            query_name,
            key,
            retry_count: 0,
            last_error: None,
            transaction_id: 0,
        };
        assert(run.packet@ =~= packet@);
        if self.find_key(&run.key).is_some() {
            return (Some(run), ForwardAction::Join);
        }
        let ghost before = self.inflight@;
        let new_key = copy_key(&run.key);
        self.inflight.push(new_key);
        proof {
            let after = self.inflight@;
            assert forall|k: (Seq<char>, u16, u16)|
                keys_in(after).contains(k) <==> keys_in(before).insert(run.key@).contains(k) by {
                if keys_in(before).contains(k) {
                    let j = choose|j: int| 0 <= j < before.len() && #[trigger] before[j]@ == k;
                    assert(after[j]@ == k);
                }
                assert(after[before.len() as int]@ == run.key@);
            }
            assert(keys_in(after) =~= keys_in(before).insert(run.key@));
            assert forall|i: int, j: int| 0 <= i < j < after.len() implies (
            #[trigger] after[i])@ != (#[trigger] after[j])@ by {
                assert(after[i] == before[i]);
                if j == before.len() {
                    assert(before[i]@ != run.key@);
                } else {
                    assert(after[j] == before[j]);
                }
            }
        }
        (Some(run), ForwardAction::SelectServer)
    }

    /// Goes on with a query whose last attempt came to nothing.
    fn retry(&mut self, run: &mut QueryRun, e: ForwardError) -> (r: ForwardAction)
        requires
            old(self).wf(),
            old(self)@.stats.failed_forwards < u64::MAX,
            old(run)@.wf(),
        ensures
            final(self).wf(),
            final(run)@.wf(),
            (final(self)@, final(run)@, r@) == try_again(old(self)@, old(run)@, e@),
    {
        run.last_error = Some(e.copy());
        if run.retry_count < MAX_RETRIES {
            run.retry_count = run.retry_count + 1;
            return ForwardAction::SelectServer;
        }
        self.stats.failed_forwards = self.stats.failed_forwards + 1;
        self.finish(&run.key, Err(e))
    }

    /// Frees the record of a query.
    pub fn free_frec(&mut self, transaction_id: TransactionId)
        requires
            old(self).wf(),
        ensures
            final(self).wf(),
            final(self)@ == (ForwarderModel {
                records: old(self)@.records.remove(transaction_id),
                ..old(self)@
            }),
    {
        let ghost before = self.records@;
        self.records.remove(&transaction_id);
        assert(models(self.records@) =~= models(before).remove(transaction_id));
    }

    /// Makes the answer for the client out of the reply to a query. Where there is
    /// one, the record of the query is freed and the cache keeps the answers of the
    /// reply.
    pub fn reply_query(
        &mut self,
        cache: &mut Cache,
        response_packet: &[u8],
        frec: &ForwardRecord,
        now: Instant,
    ) -> (r: Result<Vec<u8>, ForwardError>)
        requires
            old(self).wf(),
            old(cache)@.wf(),
            reply::can_count(old(cache)@, u16::MAX as nat),
        ensures
            final(self).wf(),
            final(cache)@.wf(),
            outcome(r) == reply_for(response_packet@, frec@),
            final(self)@ == (if r is Ok {
                ForwarderModel {
                    records: old(self)@.records.remove(
                        transaction_of(frec.new_query_id, frec.source_addr),
                    ),
                    ..old(self)@
                }
            } else {
                old(self)@
            }),
            if r is Ok && old(self)@.cache_size > 0 {
                reply::is_stored(old(cache)@, final(cache)@, response_packet@, now)
            } else {
                final(cache)@ == old(cache)@
            },
    {
        let r = check_reply(response_packet, frec);
        if r.is_ok() {
            if self.cache_size > 0 {
                store_reply(cache, response_packet, now);
            }
            let id = generate_transaction_id(frec.new_query_id, &frec.source_addr);
            self.free_frec(id);
        }
        r
    }

    /// Goes on with a query whose reply came.
    fn take_reply(
        &mut self,
        cache: &mut Cache,
        run: &mut QueryRun,
        packet: &[u8],
        now: Instant,
    ) -> (r: ForwardAction)
        requires
            old(self).wf(),
            old(self)@.stats.has_room(),
            old(cache)@.wf(),
            reply::can_count(old(cache)@, u16::MAX as nat),
            old(run)@.wf(),
        ensures
            final(self).wf(),
            final(cache)@.wf(),
            final(run)@.wf(),
            (final(self)@, final(run)@, r@) == on_reply(old(self)@, old(run)@, packet@),
            is_kept(old(self)@, old(cache)@, final(cache)@, r@, packet@, now),
    {
        let found: Option<ForwardRecord> = match self.records.get(&run.transaction_id) {
            Some(frec) => Some(*frec),
            None => None,
        };
        let result = match found {
            Some(frec) => self.reply_query(cache, packet, &frec, now),
            None => Err(ForwardError::InvalidResponse),
        };
        match result {
            Ok(answer) => {
                self.stats.successful_forwards = self.stats.successful_forwards + 1;
                self.finish(&run.key, Ok(answer))
            },
            Err(e) => {
                self.free_frec(run.transaction_id);
                run.last_error = Some(e.copy());
                self.stats.failed_forwards = self.stats.failed_forwards + 1;
                self.finish(&run.key, Err(e))
            },
        }
    }

    /// Goes on with a query that a server was picked for.
    fn take_server(
        &mut self,
        run: &mut QueryRun,
        server: SocketAddr,
        new_query_id: u16,
        now: Instant,
        mac: &Option<Vec<u8>>,
        device_mac: &Option<Vec<u8>>,
    ) -> (r: ForwardAction)
        requires
            old(self).wf(),
            old(self)@.stats.has_room(),
            old(run)@.wf(),
        ensures
            final(self).wf(),
            final(run)@.wf(),
            (final(self)@, final(run)@, r@) == on_server(
                old(self)@,
                old(run)@,
                server,
                new_query_id,
                now,
                edns0::found_mac(*mac),
                edns0::found_mac(*device_mac),
            ),
    {
        let query_hash = match compute_query_hash(run.packet.as_slice()) {
            Ok(digest) => digest,
            Err(e) => {
                return self.finish(&run.key, Err(e));
            },
        };
        if self.get_pending_queries() >= MAX_FORWARD_RECORDS {
            return self.finish(&run.key, Err(ForwardError::PoolExhausted));
        }
        let id = generate_transaction_id(new_query_id, &run.source_addr);
        let frec = ForwardRecord {
            new_query_id,
            orig_query_id: read_u16(run.packet.as_slice(), 0),
            source_addr: run.source_addr,
            dest_addr: run.dest_addr,
            upstream_server: Some(server),
            sent_time: now,
            query_hash,
            flags: ForwardFlags::from_bits(ForwardFlags::NEW_QUERY),
            retry_count: run.retry_count,
            tcp: false,
        };
        let ghost before = self.records@;
        self.records.insert(id, frec);
        assert(models(self.records@) =~= models(before).insert(id, frec@));
        run.transaction_id = id;
        if run.retry_count > 0 {
            self.stats.retries = self.stats.retries + 1;
        }
        let outgoing = copy_with_options(
            run.packet.as_slice(),
            &run.source_addr,
            &self.options,
            self.payload_size,
            mac,
            device_mac,
        );
        proof {
            edns0::lemma_with_options_len(
                run.packet@,
                edns0::config_options(
                    run.source_addr.ip,
                    self.options,
                    edns0::found_mac(*mac),
                    edns0::found_mac(*device_mac),
                ),
                self.payload_size,
            );
        }
        ForwardAction::Transmit { packet: copy_with_id(outgoing.as_slice(), new_query_id), server }
    }

    /// Goes on with a query: takes what came of the last action and tells the next
    /// one. The cache keeps the answers of a reply that is taken.
    pub fn forward_event(
        &mut self,
        cache: &mut Cache,
        run: &mut QueryRun,
        event: ForwardEvent,
    ) -> (r: ForwardAction)
        requires
            old(self).wf(),
            old(self)@.stats.has_room(),
            old(cache)@.wf(),
            reply::can_count(old(cache)@, u16::MAX as nat),
            old(run)@.wf(),
        ensures
            final(self).wf(),
            final(cache)@.wf(),
            final(run)@.wf(),
            (final(self)@, final(run)@, r@) == advanced(old(self)@, old(run)@, event@),
            match event@ {
                ForwardNews::Reply { packet, now } => is_kept(
                    old(self)@,
                    old(cache)@,
                    final(cache)@,
                    r@,
                    packet,
                    now,
                ),
                _ => final(cache)@ == old(cache)@,
            },
    {
        match event {
            ForwardEvent::Joined { result } => ForwardAction::Finish { result, broadcast: false },
            ForwardEvent::JoinLost => ForwardAction::SelectServer,
            ForwardEvent::NoServer => self.finish(
                &run.key,
                Err(ForwardError::ServerUnavailable),
            ),
            ForwardEvent::Server { server, new_query_id, now, mac, device_mac } => {
                self.take_server(run, server, new_query_id, now, &mac, &device_mac)
            },
            ForwardEvent::Sent => {
                self.stats.upstream_queries = self.stats.upstream_queries + 1;
                ForwardAction::Await {
                    transaction_id: run.transaction_id,
                    timeout_ms: retry_timeout(run.retry_count),
                }
            },
            ForwardEvent::NotSent { error } => {
                self.free_frec(run.transaction_id);
                self.finish(&run.key, Err(ForwardError::NetworkError(error)))
            },
            ForwardEvent::Reply { packet, now } => {
                self.take_reply(cache, run, packet.as_slice(), now)
            },
            ForwardEvent::ReplyLost => {
                self.free_frec(run.transaction_id);
                self.retry(run, ForwardError::Timeout)
            },
            ForwardEvent::TimedOut => {
                self.free_frec(run.transaction_id);
                self.stats.timeouts = self.stats.timeouts + 1;
                self.retry(run, ForwardError::Timeout)
            },
        }
    }

    /// How many queries are under way.
    pub fn get_pending_queries(&self) -> (r: usize)
        ensures
            r == self@.records.len(),
    {
        assert(models(self.records@).dom() =~= self.records@.dom());
        self.records.len()
    }

    /// Gets a new record with a number.
    pub fn new_frec_with_id(
        &mut self,
        new_query_id: u16,
        source_addr: SocketAddr,
        dest_addr: SocketAddr,
        now: Instant,
    ) -> (r: Result<TransactionId, ForwardError>)
        requires
            old(self).wf(),
        ensures
            final(self).wf(),
            (final(self)@, id_outcome(r)) == allocated(
                old(self)@,
                new_query_id,
                source_addr,
                dest_addr,
                now,
            ),
    {
        if self.get_pending_queries() >= MAX_FORWARD_RECORDS {
            return Err(ForwardError::PoolExhausted);
        }
        let id = generate_transaction_id(new_query_id, &source_addr);
        let frec = ForwardRecord {
            new_query_id,
            orig_query_id: 0,
            source_addr,
            dest_addr,
            upstream_server: None,
            sent_time: now,
            query_hash: [0u8;32],
            flags: ForwardFlags::from_bits(ForwardFlags::NEW_QUERY),
            retry_count: 0,
            tcp: false,
        };
        let ghost before = self.records@;
        self.records.insert(id, frec);
        proof {
            assert(frec.query_hash@ =~= Seq::new(32, |i: int| 0u8));
            assert(models(self.records@) =~= models(before).insert(id, frec@));
        }
        Ok(id)
    }

    /// Gets a new record with a random number.
    pub fn get_new_frec(&mut self, source_addr: SocketAddr, dest_addr: SocketAddr, now: Instant)
        -> (r: Result<TransactionId, ForwardError>)
        requires
            old(self).wf(),
        ensures
            final(self).wf(),
            exists|id: u16|
                (final(self)@, id_outcome(r)) == #[trigger] allocated(
                    old(self)@,
                    id,
                    source_addr,
                    dest_addr,
                    now,
                ),
    {
        let id = self.get_id();
        self.new_frec_with_id(id, source_addr, dest_addr, now)
    }

    /// The record of a query with a number and a digest of its questions.
    pub fn lookup_frec(&self, query_id: u16, hash: &[u8; SHA256_DIGEST_SIZE]) -> (r: Option<
        ForwardRecord,
    >)
        ensures
            match r {
                Some(frec) => frec.new_query_id == query_id && frec@.query_hash == hash@
                    && self@.records.contains_value(frec@),
                None => forall|id: TransactionId| #[trigger]
                    self@.records.contains_key(id) ==> self@.records[id].new_query_id != query_id
                        || self@.records[id].query_hash != hash@,
            },
    {
        let ghost all = vstd::std_specs::hash::spec_hash_map_iter(&self.records).remaining();
        for pair in it: self.records.iter()
            invariant
                it.seq() == all,
                forall|i: int|
                    0 <= i < it.index() ==> (#[trigger] it.seq()[i]).1@.new_query_id != query_id
                        || it.seq()[i].1@.query_hash != hash@,
        {
            let (id, frec) = pair;
            if frec.new_query_id == query_id && same_digest(&frec.query_hash, hash) {
                assert(self.records@.contains_key(*id));
                assert(self@.records.dom().contains(*id));
                assert(self@.records[*id] == frec@);
                return Some(*frec);
            }
        }
        assert forall|id: TransactionId| #[trigger] self@.records.contains_key(id) implies exists|
            i: int,
        |
            0 <= i < all.len() && #[trigger] all[i] == (&id, &self.records@[id]) by {
            assert(all.contains((&id, &self.records@[id])));
        }
        None
    }

    /// The record of a query of a client.
    pub fn lookup_frec_by_sender(&self, source_addr: SocketAddr) -> (r: Option<ForwardRecord>)
        ensures
            match r {
                Some(frec) => frec.source_addr == source_addr && self@.records.contains_value(
                    frec@,
                ),
                None => forall|id: TransactionId| #[trigger]
                    self@.records.contains_key(id) ==> self@.records[id].source_addr
                        != source_addr,
            },
    {
        let ghost all = vstd::std_specs::hash::spec_hash_map_iter(&self.records).remaining();
        for pair in it: self.records.iter()
            invariant
                it.seq() == all,
                forall|i: int|
                    0 <= i < it.index() ==> (#[trigger] it.seq()[i]).1@.source_addr != source_addr,
        {
            let (id, frec) = pair;
            if frec.source_addr == source_addr {
                assert(self.records@.contains_key(*id));
                assert(self@.records.dom().contains(*id));
                assert(self@.records[*id] == frec@);
                return Some(*frec);
            }
        }
        assert forall|id: TransactionId| #[trigger] self@.records.contains_key(id) implies exists|
            i: int,
        |
            0 <= i < all.len() && #[trigger] all[i] == (&id, &self.records@[id]) by {
            assert(all.contains((&id, &self.records@[id])));
        }
        None
    }

    /// The query that a number was given to.
    fn find_query_id(&self, query_id: u16) -> (r: Option<TransactionId>)
        ensures
            match r {
                Some(id) => self@.records.contains_key(id) && self@.records[id].new_query_id
                    == query_id,
                None => forall|id: TransactionId| #[trigger]
                    self@.records.contains_key(id) ==> self@.records[id].new_query_id != query_id,
            },
    {
        let ghost all = vstd::std_specs::hash::spec_hash_map_iter(&self.records).remaining();
        for pair in it: self.records.iter()
            invariant
                it.seq() == all,
                forall|i: int|
                    0 <= i < it.index() ==> (#[trigger] it.seq()[i]).1@.new_query_id != query_id,
        {
            let (id, frec) = pair;
            if frec.new_query_id == query_id {
                return Some(*id);
            }
        }
        assert forall|id: TransactionId| #[trigger] self@.records.contains_key(id) implies exists|
            i: int,
        |
            0 <= i < all.len() && #[trigger] all[i] == (&id, &self.records@[id]) by {
            assert(all.contains((&id, &self.records@[id])));
        }
        None
    }

    /// The query that a message from a server may be the reply to. A message
    /// without a whole header is none.
    pub fn route_response(&self, packet: &[u8]) -> (r: Option<TransactionId>)
        ensures
            match r {
                Some(id) => packet@.len() >= 12 && self@.records.contains_key(id)
                    && self@.records[id].new_query_id == wire::be16(packet@, 0),
                None => packet@.len() < 12 || forall|id: TransactionId| #[trigger]
                    self@.records.contains_key(id) ==> self@.records[id].new_query_id
                        != wire::be16(packet@, 0),
            },
    {
        if packet.len() < 12 {
            return None;
        }
        self.find_query_id(read_u16(packet, 0))
    }

    /// Receives a query: answers it out of the cache where there is one that
    /// holds an answer, else starts to forward it.
    pub fn receive_query(
        &mut self,
        cache: &mut Cache,
        packet: &[u8],
        source_addr: SocketAddr,
        dest_addr: SocketAddr,
        now: Instant,
    ) -> (r: (Option<QueryRun>, ForwardAction))
        requires
            old(self).wf(),
            old(self)@.stats.has_room(),
            old(cache)@.wf(),
            old(cache)@.stats.hits < u64::MAX,
            old(cache)@.stats.misses < u64::MAX,
            old(cache)@.stats.cname_chains + 10 <= u64::MAX,
        ensures
            final(self).wf(),
            final(cache)@.wf(),
            r.0 matches Some(run) ==> run@.wf(),
            match parser::request_of(packet@) {
                Err(e) => {
                    &&& final(self)@ == old(self)@
                    &&& final(cache)@ == old(cache)@
                    &&& r.0 is None
                    &&& r.1@ == ForwardStep::Finish {
                        result: Err(
                            ForwardFault::ParseError("Failed to parse query: "@ + e.debug_text()),
                        ),
                        broadcast: false,
                    }
                },
                Ok(request) => {
                    &&& (final(self)@, run_of(r.0), r.1@) == received(
                        old(self)@,
                        old(cache)@,
                        packet@,
                        request,
                        source_addr,
                        dest_addr,
                        now,
                    )
                    &&& final(cache)@ == (if old(self)@.cache_size > 0 {
                        cache::looked_up(old(cache)@, request.0, request.1, now)
                    } else {
                        old(cache)@
                    })
                },
            },
    {
        let (query_name, qtype, _) = match extract_request(packet) {
            Ok(request) => request,
            Err(e) => {
                let mut msg: String = "Failed to parse query: ".to_owned();
                msg.append(e.debug_text().as_str());
                assert(msg@ =~= "Failed to parse query: "@ + e@.debug_text());
                return (
                    None,
                    ForwardAction::Finish {
                        result: Err(ForwardError::ParseError(msg)),
                        broadcast: false,
                    },
                );
            },
        };
        if self.cache_size > 0 {
            match cache.lookup(query_name.as_str(), qtype, now) {
                Some(record) => {
                    self.stats.cache_hits = self.stats.cache_hits + 1;
                    match answer_from(packet, record, now) {
                        Some(reply) => {
                            return (
                                None,
                                ForwardAction::Finish { result: Ok(reply), broadcast: false },
                            );
                        },
                        None => {},
                    }
                },
                None => {
                    self.stats.cache_misses = self.stats.cache_misses + 1;
                },
            }
        }
        self.forward_query(packet, source_addr, dest_addr)
    }

    /// The numbers of what has happened, by name.
    pub fn get_stats(&self) -> (r: StringHashMap<u64>)
        ensures
            r@ == self@.stats_by_name(),
    {
        let mut r: StringHashMap<u64> = StringHashMap::new();
        r.insert("pending_queries".to_owned(), self.get_pending_queries() as u64);
        r.insert("total_queries".to_owned(), self.stats.total_queries);
        r.insert("upstream_queries".to_owned(), self.stats.upstream_queries);
        r.insert("retries".to_owned(), self.stats.retries);
        r.insert("timeouts".to_owned(), self.stats.timeouts);
        r.insert("cache_hits".to_owned(), self.stats.cache_hits);
        r.insert("cache_misses".to_owned(), self.stats.cache_misses);
        r.insert("successful_forwards".to_owned(), self.stats.successful_forwards);
        r.insert("failed_forwards".to_owned(), self.stats.failed_forwards);
        r
    }

    /// Whether everything that happens can still be counted.
    pub fn can_count(&self) -> (r: bool)
        ensures
            r == self@.stats.has_room(),
    {
        self.stats.can_count()
    }

    /// A random number for a query.
    pub fn get_id(&self) -> u16 {
        random_u16()
    }

    /// A random number for a query.
    pub fn generate_random_id() -> u16 {
        random_u16()
    }
}

impl ForwarderModel {
    /// The numbers of what has happened, by name.
    pub open spec fn stats_by_name(self) -> Map<Seq<char>, u64> {
        Map::empty().insert("pending_queries"@, self.records.len() as u64).insert(
            "total_queries"@,
            self.stats.total_queries,
        ).insert("upstream_queries"@, self.stats.upstream_queries).insert(
            "retries"@,
            self.stats.retries,
        ).insert("timeouts"@, self.stats.timeouts).insert(
            "cache_hits"@,
            self.stats.cache_hits,
        ).insert("cache_misses"@, self.stats.cache_misses).insert(
            "successful_forwards"@,
            self.stats.successful_forwards,
        ).insert("failed_forwards"@, self.stats.failed_forwards)
    }
}

/// The forwarder after the cache was asked for a name.
pub open spec fn cache_asked(
    m: ForwarderModel,
    cache: cache::CacheModel,
    name: Seq<char>,
    qtype: u16,
    now: Instant,
) -> ForwarderModel {
    if m.cache_size == 0 {
        m
    } else if cache::resolved(cache, name, qtype, now, 0).0 is Some {
        ForwarderModel {
            stats: ForwarderStats { cache_hits: (m.stats.cache_hits + 1) as u64, ..m.stats },
            ..m
        }
    } else {
        ForwarderModel {
            stats: ForwarderStats { cache_misses: (m.stats.cache_misses + 1) as u64, ..m.stats },
            ..m
        }
    }
}

/// The answer that the cache holds to a query, if it does.
pub open spec fn cached_answer(
    m: ForwarderModel,
    cache: cache::CacheModel,
    packet: Seq<u8>,
    request: (Seq<char>, u16, u16),
    now: Instant,
) -> Option<Seq<u8>> {
    if m.cache_size == 0 {
        None
    } else {
        match cache::resolved(cache, request.0, request.1, now, 0).0 {
            Some(id) => answer::answer_of(packet, cache.slot(id)->0, now),
            None => None,
        }
    }
}

/// What a query that can be read leads to: the answer that the cache holds, or
/// its forwarding.
pub open spec fn received(
    m: ForwarderModel,
    cache: cache::CacheModel,
    packet: Seq<u8>,
    request: (Seq<char>, u16, u16),
    source: SocketAddr,
    dest: SocketAddr,
    now: Instant,
) -> (ForwarderModel, Option<RunModel>, ForwardStep) {
    let asked = cache_asked(m, cache, request.0, request.1, now);
    match cached_answer(m, cache, packet, request, now) {
        Some(reply) => (asked, None, ForwardStep::Finish { result: Ok(reply), broadcast: false }),
        None => begun(asked, packet, source, dest),
    }
}

/// How long to pause before a query is sent again, in milliseconds; it times out
/// when it was sent often enough.
pub fn retry_send(frec: &ForwardRecord) -> (r: Result<u64, ForwardError>)
    ensures
        match r {
            Ok(ms) => frec.retry_count < MAX_RETRIES && ms == backoff_ms(frec.retry_count as nat),
            Err(e) => frec.retry_count >= MAX_RETRIES && e@ == ForwardFault::Timeout,
        },
{
    if frec.retry_count >= MAX_RETRIES {
        return Err(ForwardError::Timeout);
    }
    Ok(retry_timeout(frec.retry_count))
}

/// Writes down that a query is sent again.
pub fn mark_resent(frec: &mut ForwardRecord, now: Instant)
    requires
        old(frec).retry_count < MAX_RETRIES,
    ensures
        final(frec)@ == (FrecModel {
            retry_count: (old(frec).retry_count + 1) as u32,
            sent_time: now,
            ..old(frec)@
        }),
{
    frec.retry_count = frec.retry_count + 1;
    frec.sent_time = now;
}

/// Forgets all that is in the cache.
pub fn clear_cache_and_reload(cache: &mut Cache)
    ensures
        final(cache)@.wf(),
        final(cache)@ == cache::fresh(old(cache)@.config),
{
    cache.clear();
}

/// What a result with the number of a record says.
pub open spec fn id_outcome(r: Result<TransactionId, ForwardError>) -> Result<
    TransactionId,
    ForwardFault,
> {
    match r {
        Ok(id) => Ok(id),
        Err(e) => Err(e@),
    }
}

} // verus!
