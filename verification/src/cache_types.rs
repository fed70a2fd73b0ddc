//! Records of the cache and the keys that they are found by.

use crate::addr::{IpAddr, Ipv4Addr, Ipv6Addr};
use crate::blockdata::BlockData;
use crate::protocol::{C_IN, T_A, T_AAAA, T_ANY, T_CNAME, T_DNSKEY, T_DS, T_SRV};
use crate::text::{self, to_lowercase_text};
use vstd::prelude::*;

verus! {

/// A point in time: nanoseconds on a clock that never goes back.
pub type Instant = u64;

/// Nanoseconds in a second.
pub const NANOS_PER_SEC: u64 = 1_000_000_000;

/// The slot of a record in the cache.
#[derive(Debug, Clone, Copy, PartialEq, Eq, Hash, Structural)]
pub struct CacheRecordId {
    id: usize,
}

impl CacheRecordId {
    /// The number of the slot.
    pub closed spec fn slot(self) -> usize {
        self.id
    }

    #[must_use]
    pub fn new(id: usize) -> (r: Self)
        ensures
            r.slot() == id,
    {
        CacheRecordId { id }
    }

    /// The number of the slot.
    #[must_use]
    pub fn get(&self) -> (r: usize)
        ensures
            r == self.slot(),
    {
        self.id
    }
}

/// No source.
pub const UID_NONE: u32 = 0;

/// From the configuration.
pub const SRC_CONFIG: u32 = 1;

/// From the hosts file.
pub const SRC_HOSTS: u32 = 2;

/// From the first further hosts file; later ones count up.
pub const SRC_AH: u32 = 3;

/// Properties of a cached record, as a set of bits.
#[derive(Debug, Clone, Copy, PartialEq, Eq, Hash, Structural)]
pub struct CacheFlags {
    pub bits: u32,
}

impl CacheFlags {
    /// Never expires.
    pub const IMMORTAL: u32 = 0x1;

    /// Found by its address.
    pub const REVERSE: u32 = 0x4;

    /// Found by its name.
    pub const FORWARD: u32 = 0x8;

    /// From a DHCP lease.
    pub const DHCP: u32 = 0x10;

    /// Says that there is no such record.
    pub const NEG: u32 = 0x20;

    /// From a hosts file.
    pub const HOSTS: u32 = 0x40;

    /// Holds an IPv4 address.
    pub const IPV4: u32 = 0x80;

    /// Holds an IPv6 address.
    pub const IPV6: u32 = 0x100;

    /// Says that there is no such name.
    pub const NXDOMAIN: u32 = 0x400;

    /// Is an alias.
    pub const CNAME: u32 = 0x800;

    /// Holds a DNSSEC key.
    pub const DNSKEY: u32 = 0x1000;

    /// From the configuration.
    pub const CONFIG: u32 = 0x2000;

    /// Holds a delegation signer.
    pub const DS: u32 = 0x4000;

    /// Was validated by DNSSEC.
    pub const DNSSECOK: u32 = 0x8000;

    /// From an upstream server.
    pub const UPSTREAM: u32 = 0x10000;

    /// Names a record type.
    pub const RRNAME: u32 = 0x20000;

    /// Tells of a server.
    pub const SERVER: u32 = 0x40000;

    /// Tells of a query.
    pub const QUERY: u32 = 0x80000;

    /// Tells of an answer without error.
    pub const NOERR: u32 = 0x100000;

    /// Was answered with authority.
    pub const AUTH: u32 = 0x200000;

    /// Belongs to DNSSEC.
    pub const DNSSEC: u32 = 0x400000;

    /// Carries a key tag.
    pub const KEYTAG: u32 = 0x800000;

    /// Carries a security status.
    pub const SECSTAT: u32 = 0x1000000;

    /// There is no such record.
    pub const NO_RR: u32 = 0x2000000;

    /// Was put into an address set.
    pub const IPSET: u32 = 0x4000000;

    /// Has nothing more to tell.
    pub const NOEXTRA: u32 = 0x8000000;

    /// Belongs to a server for a domain.
    pub const DOMAINSRV: u32 = 0x10000000;

    /// Carries a response code.
    pub const RCODE: u32 = 0x20000000;

    /// Is a service record.
    pub const SRV: u32 = 0x40000000;

    /// Whether all bits of `mask` are set.
    pub open spec fn has(self, mask: u32) -> bool {
        self.bits & mask == mask
    }

    /// Whether any bit of `mask` is set.
    pub open spec fn meets(self, mask: u32) -> bool {
        self.bits & mask != 0
    }

    /// The set with these bits.
    pub fn from_bits(bits: u32) -> (r: Self)
        ensures
            r.bits == bits,
    {
        CacheFlags { bits }
    }

    /// The empty set.
    pub fn empty() -> (r: Self)
        ensures
            r.bits == 0,
    {
        CacheFlags { bits: 0 }
    }

    /// Whether all bits of `mask` are set.
    pub fn contains(&self, mask: u32) -> (r: bool)
        ensures
            r == self.has(mask),
    {
        self.bits & mask == mask
    }

    /// Whether any bit of `mask` is set.
    pub fn intersects(&self, mask: u32) -> (r: bool)
        ensures
            r == self.meets(mask),
    {
        self.bits & mask != 0
    }

    /// Sets the bits of `mask`.
    pub fn insert(&mut self, mask: u32)
        ensures
            final(self).bits == old(self).bits | mask,
            final(self).has(mask),
    {
        let b = self.bits;
        assert((b | mask) & mask == mask) by (bit_vector);
        self.bits = self.bits | mask;
    }

    /// Clears the bits of `mask`.
    pub fn remove(&mut self, mask: u32)
        ensures
            final(self).bits == old(self).bits & !mask,
            !final(self).meets(mask),
    {
        let b = self.bits;
        assert((b & !mask) & mask == 0) by (bit_vector);
        self.bits = self.bits & !mask;
    }
}

impl Default for CacheFlags {
    fn default() -> (r: Self)
        ensures
            r.bits == 0,
    {
        CacheFlags::empty()
    }
}

pub const F_IMMORTAL: u32 = CacheFlags::IMMORTAL;

pub const F_REVERSE: u32 = CacheFlags::REVERSE;

pub const F_FORWARD: u32 = CacheFlags::FORWARD;

pub const F_DHCP: u32 = CacheFlags::DHCP;

pub const F_NEG: u32 = CacheFlags::NEG;

pub const F_HOSTS: u32 = CacheFlags::HOSTS;

pub const F_IPV4: u32 = CacheFlags::IPV4;

pub const F_IPV6: u32 = CacheFlags::IPV6;

pub const F_NXDOMAIN: u32 = CacheFlags::NXDOMAIN;

pub const F_CNAME: u32 = CacheFlags::CNAME;

pub const F_DNSKEY: u32 = CacheFlags::DNSKEY;

pub const F_CONFIG: u32 = CacheFlags::CONFIG;

pub const F_DS: u32 = CacheFlags::DS;

pub const F_DNSSECOK: u32 = CacheFlags::DNSSECOK;

pub const F_UPSTREAM: u32 = CacheFlags::UPSTREAM;

pub const F_RRNAME: u32 = CacheFlags::RRNAME;

pub const F_SERVER: u32 = CacheFlags::SERVER;

pub const F_QUERY: u32 = CacheFlags::QUERY;

pub const F_NOERR: u32 = CacheFlags::NOERR;

pub const F_AUTH: u32 = CacheFlags::AUTH;

pub const F_DNSSEC: u32 = CacheFlags::DNSSEC;

pub const F_KEYTAG: u32 = CacheFlags::KEYTAG;

pub const F_SECSTAT: u32 = CacheFlags::SECSTAT;

pub const F_NO_RR: u32 = CacheFlags::NO_RR;

pub const F_IPSET: u32 = CacheFlags::IPSET;

pub const F_NOEXTRA: u32 = CacheFlags::NOEXTRA;

pub const F_DOMAINSRV: u32 = CacheFlags::DOMAINSRV;

pub const F_RCODE: u32 = CacheFlags::RCODE;

pub const F_SRV: u32 = CacheFlags::SRV;

/// The length of data, as far as sixteen bits can tell it.
pub open spec fn short_len(n: nat) -> u16 {
    if n > u16::MAX {
        u16::MAX
    } else {
        n as u16
    }
}

fn clamp_len(n: usize) -> (r: u16)
    ensures
        r == short_len(n as nat),
{
    if n > 0xFFFF {
        0xFFFF
    } else {
        n as u16
    }
}

/// A service record.
#[derive(Debug, Clone)]
pub struct SrvData {
    target: BlockData,
    targetlen: u16,
    srvport: u16,
    priority: u16,
    weight: u16,
}

impl SrvData {
    pub closed spec fn spec_target(self) -> Seq<u8> {
        self.target@
    }

    pub closed spec fn spec_port(self) -> u16 {
        self.srvport
    }

    pub closed spec fn spec_priority(self) -> u16 {
        self.priority
    }

    pub closed spec fn spec_weight(self) -> u16 {
        self.weight
    }

    #[must_use]
    pub fn new(target: &[u8], port: u16, priority: u16, weight: u16) -> (r: Self)
        ensures
            r.spec_target() == target@,
            r.spec_port() == port,
            r.spec_priority() == priority,
            r.spec_weight() == weight,
    {
        SrvData {
            target: BlockData::from_bytes(target),
            targetlen: clamp_len(target.len()),
            srvport: port,
            priority,
            weight,
        }
    }

    /// The name of the host.
    #[must_use]
    pub fn target(&self) -> (r: Vec<u8>)
        ensures
            r@ == self.spec_target(),
    {
        self.target.to_bytes()
    }

    #[must_use]
    pub fn port(&self) -> (r: u16)
        ensures
            r == self.spec_port(),
    {
        self.srvport
    }

    #[must_use]
    pub fn priority(&self) -> (r: u16)
        ensures
            r == self.spec_priority(),
    {
        self.priority
    }

    #[must_use]
    pub fn weight(&self) -> (r: u16)
        ensures
            r == self.spec_weight(),
    {
        self.weight
    }
}

/// A DNSSEC key.
#[derive(Debug, Clone)]
pub struct DnsKeyData {
    keydata: BlockData,
    keylen: u16,
    flags: u16,
    keytag: u16,
    algo: u8,
}

impl DnsKeyData {
    pub closed spec fn spec_keydata(self) -> Seq<u8> {
        self.keydata@
    }

    pub closed spec fn spec_flags(self) -> u16 {
        self.flags
    }

    pub closed spec fn spec_keytag(self) -> u16 {
        self.keytag
    }

    pub closed spec fn spec_algorithm(self) -> u8 {
        self.algo
    }

    #[must_use]
    pub fn new(keydata: &[u8], flags: u16, keytag: u16, algorithm: u8) -> (r: Self)
        ensures
            r.spec_keydata() == keydata@,
            r.spec_flags() == flags,
            r.spec_keytag() == keytag,
            r.spec_algorithm() == algorithm,
    {
        DnsKeyData {
            keydata: BlockData::from_bytes(keydata),
            keylen: clamp_len(keydata.len()),
            flags,
            keytag,
            algo: algorithm,
        }
    }

    #[must_use]
    pub fn keydata(&self) -> (r: Vec<u8>)
        ensures
            r@ == self.spec_keydata(),
    {
        self.keydata.to_bytes()
    }

    #[must_use]
    pub fn flags(&self) -> (r: u16)
        ensures
            r == self.spec_flags(),
    {
        self.flags
    }

    #[must_use]
    pub fn keytag(&self) -> (r: u16)
        ensures
            r == self.spec_keytag(),
    {
        self.keytag
    }

    #[must_use]
    pub fn algorithm(&self) -> (r: u8)
        ensures
            r == self.spec_algorithm(),
    {
        self.algo
    }
}

/// The digest of a DNSSEC key.
#[derive(Debug, Clone)]
pub struct DsData {
    keydata: BlockData,
    keylen: u16,
    keytag: u16,
    algo: u8,
    digest: u8,
}

impl DsData {
    pub closed spec fn spec_keydata(self) -> Seq<u8> {
        self.keydata@
    }

    pub closed spec fn spec_keytag(self) -> u16 {
        self.keytag
    }

    pub closed spec fn spec_algorithm(self) -> u8 {
        self.algo
    }

    pub closed spec fn spec_digest_type(self) -> u8 {
        self.digest
    }

    #[must_use]
    pub fn new(keydata: &[u8], keytag: u16, algorithm: u8, digest_type: u8) -> (r: Self)
        ensures
            r.spec_keydata() == keydata@,
            r.spec_keytag() == keytag,
            r.spec_algorithm() == algorithm,
            r.spec_digest_type() == digest_type,
    {
        DsData {
            keydata: BlockData::from_bytes(keydata),
            keylen: clamp_len(keydata.len()),
            keytag,
            algo: algorithm,
            digest: digest_type,
        }
    }

    #[must_use]
    pub fn keydata(&self) -> (r: Vec<u8>)
        ensures
            r@ == self.spec_keydata(),
    {
        self.keydata.to_bytes()
    }

    #[must_use]
    pub fn keytag(&self) -> (r: u16)
        ensures
            r == self.spec_keytag(),
    {
        self.keytag
    }

    #[must_use]
    pub fn algorithm(&self) -> (r: u8)
        ensures
            r == self.spec_algorithm(),
    {
        self.algo
    }

    #[must_use]
    pub fn digest_type(&self) -> (r: u8)
        ensures
            r == self.spec_digest_type(),
    {
        self.digest
    }
}

/// What a cached record says.
#[derive(Debug, Clone)]
pub enum CacheRecordData {
    Address(IpAddr),
    /// The name that is meant.
    Cname(String),
    /// The name that is meant; not followed in a lookup.
    CName(String),
    Srv(SrvData),
    DnsKey(DnsKeyData),
    Ds(DsData),
    Negative,
    NxDomain,
    NoData,
}

/// The record type that data belongs to.
pub open spec fn rr_type_of(data: CacheRecordData) -> u16 {
    match data {
        CacheRecordData::Address(IpAddr::V4(_)) => T_A,
        CacheRecordData::Address(IpAddr::V6(_)) => T_AAAA,
        CacheRecordData::Cname(_) => T_CNAME,
        CacheRecordData::CName(_) => T_CNAME,
        CacheRecordData::Srv(_) => T_SRV,
        CacheRecordData::DnsKey(_) => T_DNSKEY,
        CacheRecordData::Ds(_) => T_DS,
        _ => T_ANY,
    }
}

/// What records are found by: a name in lower case and a record type.
#[derive(Debug, Clone, PartialEq, Eq, Hash)]
pub struct DomainKey {
    name: String,
    qtype: u16,
}

impl View for DomainKey {
    type V = (Seq<char>, u16);

    closed spec fn view(&self) -> (Seq<char>, u16) {
        (self.name@, self.qtype)
    }
}

/// The key of a name and a record type.
pub open spec fn key_of(name: Seq<char>, qtype: u16) -> (Seq<char>, u16) {
    (text::lowercase(name), qtype)
}

impl DomainKey {
    #[must_use]
    pub fn new(name: String, qtype: u16) -> (r: Self)
        ensures
            r@ == key_of(name@, qtype),
    {
        DomainKey { name: to_lowercase_text(name.as_str()), qtype }
    }

    #[must_use]
    pub fn name(&self) -> (r: &str)
        ensures
            r@ == self@.0,
    {
        self.name.as_str()
    }

    #[must_use]
    pub fn qtype(&self) -> (r: u16)
        ensures
            r == self@.1,
    {
        self.qtype
    }
}

/// ASCII names that differ only in the case of letters have the same key.
pub proof fn law_key_ignores_case(a: Seq<char>, b: Seq<char>, qtype: u16)
    requires
        vstd::utf8::is_ascii_chars(a),
        vstd::utf8::is_ascii_chars(b),
        text::lower(a) == text::lower(b),
    ensures
        key_of(a, qtype) == key_of(b, qtype),
{
}

/// A cached record.
#[derive(Debug, Clone)]
pub struct CacheRecord {
    pub name: String,
    pub data: CacheRecordData,
    /// When the record is no longer true.
    pub ttd: Instant,
    /// Where the record comes from.
    pub uid: u32,
    pub flags: CacheFlags,
    pub rr_type: u16,
    pub class: u16,
    /// Seconds that the record was to last when it was made.
    pub ttl: u32,
    /// When the record was made.
    pub inserted_at: Option<Instant>,
}

/// Whole seconds from `now` until `ttd`, as far as thirty-two bits hold them.
pub open spec fn seconds_left(ttd: Instant, now: Instant) -> u32 {
    if ttd > now {
        ((ttd - now) / 1_000_000_000 % 0x1_0000_0000) as u32
    } else {
        0
    }
}

/// Whole seconds from `now` until `ttd`, as far as thirty-two bits hold them.
pub fn seconds_until(ttd: Instant, now: Instant) -> (r: u32)
    ensures
        r == seconds_left(ttd, now),
{
    if ttd > now {
        let secs: u64 = (ttd - now) / NANOS_PER_SEC;
        (secs % 0x1_0000_0000) as u32
    } else {
        0
    }
}

/// Whether a record is no longer true at `now`. An immortal one stays true.
pub open spec fn expired(record: CacheRecord, now: Instant) -> bool {
    !record.flags.has(CacheFlags::IMMORTAL) && now >= record.ttd
}

impl CacheRecord {
    /// A record of the Internet class that is made at `now`.
    #[must_use]
    pub fn new(
        name: String,
        data: CacheRecordData,
        ttd: Instant,
        uid: u32,
        flags: CacheFlags,
        now: Instant,
    ) -> (r: Self)
        ensures
            r == (CacheRecord {
                name,
                data,
                ttd,
                uid,
                flags,
                rr_type: rr_type_of(data),
                class: C_IN,
                ttl: seconds_left(ttd, now),
                inserted_at: Some(now),
            }),
    {
        let rr_type: u16 = Self::derive_rr_type(&data);
        let ttl: u32 = seconds_until(ttd, now);
        CacheRecord {
            name,
            data,
            ttd,
            uid,
            flags,
            rr_type,
            class: C_IN,
            ttl,
            inserted_at: Some(now),
        }
    }

    /// The record type that data belongs to.
    pub fn derive_rr_type(data: &CacheRecordData) -> (r: u16)
        ensures
            r == rr_type_of(*data),
    {
        match data {
            CacheRecordData::Address(IpAddr::V4(_)) => T_A,
            CacheRecordData::Address(IpAddr::V6(_)) => T_AAAA,
            CacheRecordData::Cname(_) => T_CNAME,
            CacheRecordData::CName(_) => T_CNAME,
            CacheRecordData::Srv(_) => T_SRV,
            CacheRecordData::DnsKey(_) => T_DNSKEY,
            CacheRecordData::Ds(_) => T_DS,
            CacheRecordData::Negative => T_ANY,
            CacheRecordData::NxDomain => T_ANY,
            CacheRecordData::NoData => T_ANY,
        }
    }

    #[must_use]
    pub fn name(&self) -> (r: &str)
        ensures
            r@ == self.name@,
    {
        self.name.as_str()
    }

    #[must_use]
    pub fn data(&self) -> (r: &CacheRecordData)
        ensures
            *r == self.data,
    {
        &self.data
    }

    #[must_use]
    pub fn ttd(&self) -> (r: Instant)
        ensures
            r == self.ttd,
    {
        self.ttd
    }

    #[must_use]
    pub fn uid(&self) -> (r: u32)
        ensures
            r == self.uid,
    {
        self.uid
    }

    #[must_use]
    pub fn flags(&self) -> (r: CacheFlags)
        ensures
            r == self.flags,
    {
        self.flags
    }

    /// Whether the record is no longer true at `now`.
    #[must_use]
    pub fn is_expired(&self, now: Instant) -> (r: bool)
        ensures
            r == expired(*self, now),
    {
        if self.flags.contains(CacheFlags::IMMORTAL) {
            return false;
        }
        now >= self.ttd
    }

    /// A record for an address question, good for an hour, that holds the
    /// loopback address of the family; none for other questions.
    pub fn from_response(
        _response: &[u8],
        query_name: &str,
        query_type: u16,
        now: Instant,
    ) -> (r: Option<Self>)
        requires
            now + 3600 * NANOS_PER_SEC <= u64::MAX,
        ensures
            query_type != T_A && query_type != T_AAAA ==> r is None,
            query_type == T_A || query_type == T_AAAA ==> {
                &&& r matches Some(record)
                &&& record.name@ == query_name@
                &&& record.data == CacheRecordData::Address(
                    if query_type == T_A {
                        IpAddr::V4(Ipv4Addr { bits: 0x7F00_0001 })
                    } else {
                        IpAddr::V6(Ipv6Addr { bits: 1 })
                    },
                )
                &&& record.ttd == now + 3600 * NANOS_PER_SEC
                &&& record.uid == UID_NONE
                &&& record.flags == (CacheFlags { bits: CacheFlags::FORWARD })
                &&& record.rr_type == query_type
                &&& record.class == C_IN
                &&& record.ttl == 3600
                &&& record.inserted_at == Some(now)
            },
    {
        let ttd: Instant = now + 3600 * NANOS_PER_SEC;
        let addr = if query_type == T_A {
            IpAddr::V4(Ipv4Addr { bits: 0x7F00_0001 })
        } else if query_type == T_AAAA {
            IpAddr::V6(Ipv6Addr { bits: 1 })
        } else {
            return None;
        };
        Some(
            CacheRecord::new(
                query_name.to_owned(),
                CacheRecordData::Address(addr),
                ttd,
                UID_NONE,
                CacheFlags::from_bits(CacheFlags::FORWARD),
                now,
            ),
        )
    }
}

/// An immortal record never expires, whatever the time.
pub proof fn law_immortal_never_expires(record: CacheRecord, now: Instant)
    requires
        record.flags.has(CacheFlags::IMMORTAL),
    ensures
        !expired(record, now),
{
}

/// A record that has expired stays so.
pub proof fn law_expiry_is_final(record: CacheRecord, now: Instant, later: Instant)
    requires
        expired(record, now),
        now <= later,
    ensures
        expired(record, later),
{
}

} // verus!
