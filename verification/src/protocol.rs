//! Numbers of the DNS protocol.

use vstd::prelude::*;

verus! {

/// Longest textual domain name that is handled, in bytes.
pub const MAXDNAME: usize = 1025;

/// Longest label of a domain name, in bytes.
pub const MAXLABEL: usize = 63;

/// Largest message without EDNS0.
pub const PACKETSZ: usize = 512;

/// Length of the header that starts every message.
pub const HEADER_LEN: usize = 12;

/// The Internet class.
pub const C_IN: u16 = 1;

pub const T_A: u16 = 1;

pub const T_NS: u16 = 2;

pub const T_CNAME: u16 = 5;

pub const T_SOA: u16 = 6;

pub const T_PTR: u16 = 12;

pub const T_MX: u16 = 15;

pub const T_TXT: u16 = 16;

pub const T_AAAA: u16 = 28;

pub const T_SRV: u16 = 33;

pub const T_OPT: u16 = 41;

pub const T_DS: u16 = 43;

pub const T_RRSIG: u16 = 46;

pub const T_NSEC: u16 = 47;

pub const T_DNSKEY: u16 = 48;

pub const T_NSEC3: u16 = 50;

pub const T_TKEY: u16 = 249;

pub const T_TSIG: u16 = 250;

pub const T_AXFR: u16 = 252;

pub const T_ANY: u16 = 255;

pub const NOERROR: u8 = 0;

pub const NXDOMAIN: u8 = 3;

pub const REFUSED: u8 = 5;

/// Operation codes of a message.
#[derive(Debug, Clone, Copy, PartialEq, Eq, Structural)]
pub enum DnsOpcode {
    Query,
    IQuery,
    Status,
    Notify,
    Update,
}

impl DnsOpcode {
    pub open spec fn code(self) -> u8 {
        match self {
            DnsOpcode::Query => 0,
            DnsOpcode::IQuery => 1,
            DnsOpcode::Status => 2,
            DnsOpcode::Notify => 4,
            DnsOpcode::Update => 5,
        }
    }

    /// The number of the operation on the wire.
    pub fn to_code(self) -> (r: u8)
        ensures
            r == self.code(),
    {
        match self {
            DnsOpcode::Query => 0,
            DnsOpcode::IQuery => 1,
            DnsOpcode::Status => 2,
            DnsOpcode::Notify => 4,
            DnsOpcode::Update => 5,
        }
    }
}

/// Response codes of a message.
#[derive(Debug, Clone, Copy, PartialEq, Eq, Structural)]
pub enum ResponseCode {
    NoError,
    FormErr,
    ServFail,
    NxDomain,
    NotImp,
    Refused,
}

impl ResponseCode {
    pub open spec fn code(self) -> u8 {
        match self {
            ResponseCode::NoError => 0,
            ResponseCode::FormErr => 1,
            ResponseCode::ServFail => 2,
            ResponseCode::NxDomain => 3,
            ResponseCode::NotImp => 4,
            ResponseCode::Refused => 5,
        }
    }

    /// The number of the response code on the wire.
    pub fn to_code(self) -> (r: u8)
        ensures
            r == self.code(),
    {
        match self {
            ResponseCode::NoError => 0,
            ResponseCode::FormErr => 1,
            ResponseCode::ServFail => 2,
            ResponseCode::NxDomain => 3,
            ResponseCode::NotImp => 4,
            ResponseCode::Refused => 5,
        }
    }
}

/// Record types.
#[derive(Debug, Clone, Copy, PartialEq, Eq, Structural)]
pub enum DnsRrType {
    A,
    Ns,
    Cname,
    Soa,
    Ptr,
    Aaaa,
    Srv,
}

impl DnsRrType {
    pub open spec fn code(self) -> u16 {
        match self {
            DnsRrType::A => T_A,
            DnsRrType::Ns => T_NS,
            DnsRrType::Cname => T_CNAME,
            DnsRrType::Soa => T_SOA,
            DnsRrType::Ptr => T_PTR,
            DnsRrType::Aaaa => T_AAAA,
            DnsRrType::Srv => T_SRV,
        }
    }

    /// The number of the record type on the wire.
    pub fn to_code(self) -> (r: u16)
        ensures
            r == self.code(),
    {
        match self {
            DnsRrType::A => T_A,
            DnsRrType::Ns => T_NS,
            DnsRrType::Cname => T_CNAME,
            DnsRrType::Soa => T_SOA,
            DnsRrType::Ptr => T_PTR,
            DnsRrType::Aaaa => T_AAAA,
            DnsRrType::Srv => T_SRV,
        }
    }
}

} // verus!
