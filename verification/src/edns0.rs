//! EDNS0: the OPT record, its options and the DNSSEC OK bit.

use crate::addr::{IpAddr, Ipv4Addr, Ipv6Addr, SocketAddr};
use crate::buffer::{self, as_bytes, extend, extend_u16, set_byte};
use crate::parser::{self, skip_name, skip_questions, skip_section, take_record, ParseError};
use crate::protocol::{PACKETSZ, T_OPT, T_TKEY, T_TSIG};
use crate::text::{self, push_decimal, push_hex_byte, to_ascii_lower};
use crate::wire::{self, copy_range, push_bytes, push_u16, read_u16};
use bytes::BytesMut;
use vstd::prelude::*;
use vstd::slice::slice_subrange;
use vstd::utf8::*;

verus! {

pub const EDNS0_OPTION_CLIENT_SUBNET: u16 = 8;

pub const EDNS0_OPTION_MAC: u16 = 65001;

pub const EDNS0_OPTION_NOMDEVICEID: u16 = 65073;

pub const EDNS0_OPTION_NOMCPEID: u16 = 65074;

pub const EDNS0_OPTION_UMBRELLA: u16 = 20292;

/// The flag by which a client asks for DNSSEC records.
pub const EDNS0_DO_BIT: u16 = 0x8000;

/// Why EDNS0 data cannot be read or written.
#[derive(Debug, Clone, PartialEq, Eq)]
pub enum Edns0Error {
    BufferTooSmall { required: usize, available: usize },
    MalformedPacket { reason: String },
    InvalidOption { option_code: u16, reason: String },
    ParseError { details: String },
    InternalError { message: String },
}

/// What an `Edns0Error` says, with its texts as sequences of characters.
pub enum Edns0Fault {
    BufferTooSmall { required: usize, available: usize },
    MalformedPacket { reason: Seq<char> },
    InvalidOption { option_code: u16, reason: Seq<char> },
    ParseError { details: Seq<char> },
    InternalError { message: Seq<char> },
}

impl View for Edns0Error {
    type V = Edns0Fault;

    open spec fn view(&self) -> Edns0Fault {
        match *self {
            Edns0Error::BufferTooSmall { required, available } => Edns0Fault::BufferTooSmall {
                required,
                available,
            },
            Edns0Error::MalformedPacket { reason } => Edns0Fault::MalformedPacket {
                reason: reason@,
            },
            Edns0Error::InvalidOption { option_code, reason } => Edns0Fault::InvalidOption {
                option_code,
                reason: reason@,
            },
            Edns0Error::ParseError { details } => Edns0Fault::ParseError { details: details@ },
            Edns0Error::InternalError { message } => Edns0Fault::InternalError {
                message: message@,
            },
        }
    }
}

impl Edns0Fault {
    /// The text of the error.
    pub open spec fn message(self) -> Seq<char> {
        match self {
            Edns0Fault::BufferTooSmall { required, available } => {
                "Buffer too small: required "@ + text::decimal(required as nat)
                    + " bytes, available "@ + text::decimal(available as nat) + " bytes"@
            },
            Edns0Fault::MalformedPacket { reason } => "Malformed packet: "@ + reason,
            Edns0Fault::InvalidOption { option_code, reason } => {
                "Invalid EDNS0 option "@ + text::decimal(option_code as nat) + ": "@ + reason
            },
            Edns0Fault::ParseError { details } => "Parse error: "@ + details,
            Edns0Fault::InternalError { message } => "Internal error: "@ + message,
        }
    }
}

impl Edns0Error {
    /// The text of the error.
    pub fn to_string(&self) -> (r: String)
        ensures
            r@ == self@.message(),
    {
        let mut s: String = String::new();
        match self {
            Edns0Error::BufferTooSmall { required, available } => {
                s.append("Buffer too small: required ");
                push_decimal(&mut s, *required as u64);
                s.append(" bytes, available ");
                push_decimal(&mut s, *available as u64);
                s.append(" bytes");
            },
            Edns0Error::MalformedPacket { reason } => {
                s.append("Malformed packet: ");
                s.append(reason.as_str());
            },
            Edns0Error::InvalidOption { option_code, reason } => {
                s.append("Invalid EDNS0 option ");
                push_decimal(&mut s, *option_code as u64);
                s.append(": ");
                s.append(reason.as_str());
            },
            Edns0Error::ParseError { details } => {
                s.append("Parse error: ");
                s.append(details.as_str());
            },
            Edns0Error::InternalError { message } => {
                s.append("Internal error: ");
                s.append(message.as_str());
            },
        }
        assert(s@ =~= self@.message());
        s
    }
}

/// What an option is about.
#[derive(Debug, Clone, Copy, PartialEq, Eq, Hash, Structural)]
pub enum Edns0OptionCode {
    Llq,
    Ul,
    Nsid,
    Dau,
    Dhu,
    N3u,
    ClientSubnet,
    Expire,
    Cookie,
    TcpKeepalive,
    Padding,
    Chain,
    KeyTag,
    ExtendedDnsError,
    Mac,
    NomCpeId,
    NomDeviceId,
    Umbrella,
    Unknown(u16),
}

/// The meaning of an option number.
pub open spec fn code_meaning(code: u16) -> Edns0OptionCode {
    if code == 1 {
        Edns0OptionCode::Llq
    } else if code == 2 {
        Edns0OptionCode::Ul
    } else if code == 3 {
        Edns0OptionCode::Nsid
    } else if code == 5 {
        Edns0OptionCode::Dau
    } else if code == 6 {
        Edns0OptionCode::Dhu
    } else if code == 7 {
        Edns0OptionCode::N3u
    } else if code == EDNS0_OPTION_CLIENT_SUBNET {
        Edns0OptionCode::ClientSubnet
    } else if code == 9 {
        Edns0OptionCode::Expire
    } else if code == 10 {
        Edns0OptionCode::Cookie
    } else if code == 11 {
        Edns0OptionCode::TcpKeepalive
    } else if code == 12 {
        Edns0OptionCode::Padding
    } else if code == 13 {
        Edns0OptionCode::Chain
    } else if code == 14 {
        Edns0OptionCode::KeyTag
    } else if code == 15 {
        Edns0OptionCode::ExtendedDnsError
    } else if code == EDNS0_OPTION_MAC {
        Edns0OptionCode::Mac
    } else if code == EDNS0_OPTION_NOMCPEID {
        Edns0OptionCode::NomCpeId
    } else if code == EDNS0_OPTION_NOMDEVICEID {
        Edns0OptionCode::NomDeviceId
    } else if code == EDNS0_OPTION_UMBRELLA {
        Edns0OptionCode::Umbrella
    } else {
        Edns0OptionCode::Unknown(code)
    }
}

/// The number of an option.
pub open spec fn code_number(code: Edns0OptionCode) -> u16 {
    match code {
        Edns0OptionCode::Llq => 1,
        Edns0OptionCode::Ul => 2,
        Edns0OptionCode::Nsid => 3,
        Edns0OptionCode::Dau => 5,
        Edns0OptionCode::Dhu => 6,
        Edns0OptionCode::N3u => 7,
        Edns0OptionCode::ClientSubnet => EDNS0_OPTION_CLIENT_SUBNET,
        Edns0OptionCode::Expire => 9,
        Edns0OptionCode::Cookie => 10,
        Edns0OptionCode::TcpKeepalive => 11,
        Edns0OptionCode::Padding => 12,
        Edns0OptionCode::Chain => 13,
        Edns0OptionCode::KeyTag => 14,
        Edns0OptionCode::ExtendedDnsError => 15,
        Edns0OptionCode::Mac => EDNS0_OPTION_MAC,
        Edns0OptionCode::NomCpeId => EDNS0_OPTION_NOMCPEID,
        Edns0OptionCode::NomDeviceId => EDNS0_OPTION_NOMDEVICEID,
        Edns0OptionCode::Umbrella => EDNS0_OPTION_UMBRELLA,
        Edns0OptionCode::Unknown(c) => c,
    }
}

impl vstd::std_specs::convert::FromSpecImpl<u16> for Edns0OptionCode {
    open spec fn obeys_from_spec() -> bool {
        true
    }

    open spec fn from_spec(code: u16) -> Edns0OptionCode {
        code_meaning(code)
    }
}

impl From<u16> for Edns0OptionCode {
    fn from(code: u16) -> (r: Self) {
        if code == 1 {
            Edns0OptionCode::Llq
        } else if code == 2 {
            Edns0OptionCode::Ul
        } else if code == 3 {
            Edns0OptionCode::Nsid
        } else if code == 5 {
            Edns0OptionCode::Dau
        } else if code == 6 {
            Edns0OptionCode::Dhu
        } else if code == 7 {
            Edns0OptionCode::N3u
        } else if code == EDNS0_OPTION_CLIENT_SUBNET {
            Edns0OptionCode::ClientSubnet
        } else if code == 9 {
            Edns0OptionCode::Expire
        } else if code == 10 {
            Edns0OptionCode::Cookie
        } else if code == 11 {
            Edns0OptionCode::TcpKeepalive
        } else if code == 12 {
            Edns0OptionCode::Padding
        } else if code == 13 {
            Edns0OptionCode::Chain
        } else if code == 14 {
            Edns0OptionCode::KeyTag
        } else if code == 15 {
            Edns0OptionCode::ExtendedDnsError
        } else if code == EDNS0_OPTION_MAC {
            Edns0OptionCode::Mac
        } else if code == EDNS0_OPTION_NOMCPEID {
            Edns0OptionCode::NomCpeId
        } else if code == EDNS0_OPTION_NOMDEVICEID {
            Edns0OptionCode::NomDeviceId
        } else if code == EDNS0_OPTION_UMBRELLA {
            Edns0OptionCode::Umbrella
        } else {
            Edns0OptionCode::Unknown(code)
        }
    }
}

impl vstd::std_specs::convert::FromSpecImpl<Edns0OptionCode> for u16 {
    open spec fn obeys_from_spec() -> bool {
        true
    }

    open spec fn from_spec(code: Edns0OptionCode) -> u16 {
        code_number(code)
    }
}

impl From<Edns0OptionCode> for u16 {
    fn from(code: Edns0OptionCode) -> (r: Self) {
        match code {
            Edns0OptionCode::Llq => 1,
            Edns0OptionCode::Ul => 2,
            Edns0OptionCode::Nsid => 3,
            Edns0OptionCode::Dau => 5,
            Edns0OptionCode::Dhu => 6,
            Edns0OptionCode::N3u => 7,
            Edns0OptionCode::ClientSubnet => EDNS0_OPTION_CLIENT_SUBNET,
            Edns0OptionCode::Expire => 9,
            Edns0OptionCode::Cookie => 10,
            Edns0OptionCode::TcpKeepalive => 11,
            Edns0OptionCode::Padding => 12,
            Edns0OptionCode::Chain => 13,
            Edns0OptionCode::KeyTag => 14,
            Edns0OptionCode::ExtendedDnsError => 15,
            Edns0OptionCode::Mac => EDNS0_OPTION_MAC,
            Edns0OptionCode::NomCpeId => EDNS0_OPTION_NOMCPEID,
            Edns0OptionCode::NomDeviceId => EDNS0_OPTION_NOMDEVICEID,
            Edns0OptionCode::Umbrella => EDNS0_OPTION_UMBRELLA,
            Edns0OptionCode::Unknown(c) => c,
        }
    }
}

/// The meaning of a number has that number.
pub proof fn law_option_code_round_trip(code: u16)
    ensures
        code_number(code_meaning(code)) == code,
{
}

/// A part of an address that is told to an upstream server.
#[derive(Debug, Clone, PartialEq, Eq)]
pub struct ClientSubnet {
    /// One for IPv4, two for IPv6.
    pub family: u16,
    pub source_netmask: u8,
    pub scope_netmask: u8,
    /// The first bytes of the address.
    pub addr: Vec<u8>,
}

/// What a `ClientSubnet` holds, with its bytes as a sequence.
pub struct ClientSubnetModel {
    pub family: u16,
    pub source_netmask: u8,
    pub scope_netmask: u8,
    pub addr: Seq<u8>,
}

impl View for ClientSubnet {
    type V = ClientSubnetModel;

    open spec fn view(&self) -> ClientSubnetModel {
        ClientSubnetModel {
            family: self.family,
            source_netmask: self.source_netmask,
            scope_netmask: self.scope_netmask,
            addr: self.addr@,
        }
    }
}

/// The family number of an address.
pub open spec fn family_of(addr: IpAddr) -> u16 {
    match addr {
        IpAddr::V4(_) => 1,
        IpAddr::V6(_) => 2,
    }
}

/// The bytes of an address.
pub open spec fn addr_bytes(addr: IpAddr) -> Seq<u8> {
    match addr {
        IpAddr::V4(a) => a.bytes(),
        IpAddr::V6(a) => a.bytes(),
    }
}

/// How many bits an address has.
pub open spec fn addr_bits(addr: IpAddr) -> u8 {
    match addr {
        IpAddr::V4(_) => 32,
        IpAddr::V6(_) => 128,
    }
}

/// How many bytes of an address hold its first `netmask` bits.
pub open spec fn prefix_bytes(addr: IpAddr, netmask: u8) -> int {
    let need = (netmask + 7) / 8;
    let all = addr_bits(addr) as int / 8;
    if need < all {
        need
    } else {
        all
    }
}

/// A netmask, but not longer than the address.
pub open spec fn capped_netmask(addr: IpAddr, netmask: u8) -> u8 {
    if netmask < addr_bits(addr) {
        netmask
    } else {
        addr_bits(addr)
    }
}

/// The bytes of an address in a vector.
fn octets_of(addr: &IpAddr) -> (r: Vec<u8>)
    ensures
        r@ == addr_bytes(*addr),
        r@.len() == addr_bits(*addr) as int / 8,
{
    match addr {
        IpAddr::V4(a) => {
            let o = a.octets();
            copy_range(vstd::array::array_as_slice(&o), 0, 4)
        },
        IpAddr::V6(a) => {
            let o = a.octets();
            let r = copy_range(vstd::array::array_as_slice(&o), 0, 16);
            assert(o@.subrange(0, 16) =~= o@);
            r
        },
    }
}

/// Bytes with zeros behind them, up to `len`.
pub open spec fn padded(bytes: Seq<u8>, len: nat) -> Seq<u8> {
    Seq::new(
        len,
        |i: int|
            if i < bytes.len() {
                bytes[i]
            } else {
                0u8
            },
    )
}

fn pad(bytes: &Vec<u8>, len: usize) -> (r: Vec<u8>)
    ensures
        r@ == padded(bytes@, len as nat),
{
    let mut r: Vec<u8> = Vec::new();
    let mut i: usize = 0;
    while i < len
        invariant
            i <= len,
            r@ == padded(bytes@, len as nat).take(i as int),
        decreases len - i,
    {
        if i < bytes.len() {
            r.push(bytes[i]);
        } else {
            r.push(0);
        }
        i = i + 1;
        assert(r@ =~= padded(bytes@, len as nat).take(i as int));
    }
    assert(r@ =~= padded(bytes@, len as nat));
    r
}

impl ClientSubnet {
    /// The first bytes of an address, as many as the netmask needs.
    pub fn from_addr(addr: &IpAddr, netmask: u8) -> (r: Self)
        requires
            netmask <= 248,
        ensures
            r.family == family_of(*addr),
            r.source_netmask == capped_netmask(*addr, netmask),
            r.scope_netmask == 0,
            r.addr@ == addr_bytes(*addr).take(prefix_bytes(*addr, netmask)),
    {
        let octets = octets_of(addr);
        let need: usize = ((netmask + 7) / 8) as usize;
        let used: usize = if need < octets.len() {
            need
        } else {
            octets.len()
        };
        let part = copy_range(octets.as_slice(), 0, used);
        assert(part@ =~= addr_bytes(*addr).take(prefix_bytes(*addr, netmask)));
        match addr {
            IpAddr::V4(_) => ClientSubnet {
                family: 1,
                source_netmask: if netmask < 32 {
                    netmask
                } else {
                    32
                },
                scope_netmask: 0,
                addr: part,
            },
            IpAddr::V6(_) => ClientSubnet {
                family: 2,
                source_netmask: if netmask < 128 {
                    netmask
                } else {
                    128
                },
                scope_netmask: 0,
                addr: part,
            },
        }
    }

    /// The address, with zeros for what is missing, and the netmask.
    pub fn to_addr(&self) -> (r: Option<(IpAddr, u8)>)
        ensures
            r == subnet_addr(self@),
    {
        if self.family == 1 {
            if self.addr.len() > 4 {
                return None;
            }
            let bytes = pad(&self.addr, 4);
            assert(bytes@.subrange(0, 4) =~= bytes@);
            return Some(
                (IpAddr::V4(Ipv4Addr::read(bytes.as_slice(), 0)), self.source_netmask),
            );
        }
        if self.family == 2 {
            if self.addr.len() > 16 {
                return None;
            }
            let bytes = pad(&self.addr, 16);
            assert(bytes@.subrange(0, 16) =~= bytes@);
            return Some(
                (IpAddr::V6(Ipv6Addr::read(bytes.as_slice(), 0)), self.source_netmask),
            );
        }
        None
    }
}

/// The address of a subnet, with zeros for what is missing, and its netmask.
pub open spec fn subnet_addr(s: ClientSubnetModel) -> Option<(IpAddr, u8)> {
    if s.family == 1 && s.addr.len() <= 4 {
        Some(
            (
                IpAddr::V4(Ipv4Addr { bits: wire::be32(padded(s.addr, 4), 0) }),
                s.source_netmask,
            ),
        )
    } else if s.family == 2 && s.addr.len() <= 16 {
        Some(
            (
                IpAddr::V6(Ipv6Addr { bits: wire::be_value(padded(s.addr, 16)) as u128 }),
                s.source_netmask,
            ),
        )
    } else {
        None
    }
}

/// A subnet that holds a whole address gives that address back.
pub proof fn law_whole_address_round_trip(addr: IpAddr, s: ClientSubnetModel)
    requires
        s.family == family_of(addr),
        s.source_netmask == addr_bits(addr),
        s.addr == addr_bytes(addr),
    ensures
        subnet_addr(s) == Some((addr, addr_bits(addr))),
{
    match addr {
        IpAddr::V4(a) => {
            assert(padded(s.addr, 4) =~= a.bytes());
            wire::law_u32_round_trip(a.bits);
        },
        IpAddr::V6(a) => {
            assert(vstd::arithmetic::power::pow(256, 16) == u128::MAX + 1) by {
                reveal(vstd::arithmetic::power::pow);
                reveal_with_fuel(vstd::arithmetic::power::pow, 17);
            }
            wire::law_be_value_of_digits(a.bits as nat, 16);
            assert(padded(s.addr, 16) =~= a.bytes());
        },
    }
}

/// An option of an OPT record.
#[derive(Debug, Clone)]
pub enum Edns0Option {
    ClientSubnet(ClientSubnet),
    Mac(Vec<u8>),
    NomCpeId(Vec<u8>),
    NomDeviceId(Vec<u8>),
    Umbrella { device_id: Vec<u8>, asset_id: Vec<u8> },
    Cookie(Vec<u8>),
    Nsid(Vec<u8>),
    ExtendedDnsError { info_code: u16, extra_text: String },
    /// So many zero bytes.
    Padding(usize),
    Unknown { code: u16, data: Vec<u8> },
}

impl Edns0Option {
    pub open spec fn number(self) -> u16 {
        match self {
            Edns0Option::ClientSubnet(_) => EDNS0_OPTION_CLIENT_SUBNET,
            Edns0Option::Mac(_) => EDNS0_OPTION_MAC,
            Edns0Option::NomCpeId(_) => EDNS0_OPTION_NOMCPEID,
            Edns0Option::NomDeviceId(_) => EDNS0_OPTION_NOMDEVICEID,
            Edns0Option::Umbrella { .. } => EDNS0_OPTION_UMBRELLA,
            Edns0Option::Cookie(_) => 10,
            Edns0Option::Nsid(_) => 3,
            Edns0Option::ExtendedDnsError { .. } => 15,
            Edns0Option::Padding(_) => 12,
            Edns0Option::Unknown { code, .. } => code,
        }
    }

    pub open spec fn payload(self) -> Seq<u8> {
        match self {
            Edns0Option::ClientSubnet(cs) => wire::be16_bytes(cs.family).push(
                cs.source_netmask,
            ).push(cs.scope_netmask) + cs.addr@,
            Edns0Option::Mac(data) => data@,
            Edns0Option::NomCpeId(data) => data@,
            Edns0Option::NomDeviceId(data) => data@,
            Edns0Option::Umbrella { device_id, asset_id } => device_id@ + asset_id@,
            Edns0Option::Cookie(data) => data@,
            Edns0Option::Nsid(data) => data@,
            Edns0Option::ExtendedDnsError { info_code, extra_text } => wire::be16_bytes(info_code)
                + encode_utf8(extra_text@),
            Edns0Option::Padding(len) => Seq::new(len as nat, |i: int| 0u8),
            Edns0Option::Unknown { data, .. } => data@,
        }
    }

    /// The number of the option.
    pub fn code(&self) -> (r: u16)
        ensures
            r == self.number(),
    {
        match self {
            Edns0Option::ClientSubnet(_) => EDNS0_OPTION_CLIENT_SUBNET,
            Edns0Option::Mac(_) => EDNS0_OPTION_MAC,
            Edns0Option::NomCpeId(_) => EDNS0_OPTION_NOMCPEID,
            Edns0Option::NomDeviceId(_) => EDNS0_OPTION_NOMDEVICEID,
            Edns0Option::Umbrella { .. } => EDNS0_OPTION_UMBRELLA,
            Edns0Option::Cookie(_) => 10,
            Edns0Option::Nsid(_) => 3,
            Edns0Option::ExtendedDnsError { .. } => 15,
            Edns0Option::Padding(_) => 12,
            Edns0Option::Unknown { code, .. } => *code,
        }
    }

    /// The data of the option as it stands in a message.
    pub fn to_bytes(&self) -> (r: Vec<u8>)
        ensures
            r@ == self.payload(),
    {
        let mut data: Vec<u8> = Vec::new();
        match self {
            Edns0Option::ClientSubnet(cs) => {
                push_u16(&mut data, cs.family);
                data.push(cs.source_netmask);
                data.push(cs.scope_netmask);
                push_bytes(&mut data, cs.addr.as_slice());
            },
            Edns0Option::Mac(bytes) => push_bytes(&mut data, bytes.as_slice()),
            Edns0Option::NomCpeId(bytes) => push_bytes(&mut data, bytes.as_slice()),
            Edns0Option::NomDeviceId(bytes) => push_bytes(&mut data, bytes.as_slice()),
            Edns0Option::Umbrella { device_id, asset_id } => {
                push_bytes(&mut data, device_id.as_slice());
                push_bytes(&mut data, asset_id.as_slice());
            },
            Edns0Option::Cookie(bytes) => push_bytes(&mut data, bytes.as_slice()),
            Edns0Option::Nsid(bytes) => push_bytes(&mut data, bytes.as_slice()),
            Edns0Option::ExtendedDnsError { info_code, extra_text } => {
                push_u16(&mut data, *info_code);
                push_bytes(&mut data, extra_text.as_str().as_bytes());
            },
            Edns0Option::Padding(len) => {
                let mut i: usize = 0;
                while i < *len
                    invariant
                        i <= *len,
                        data@ == Seq::new(i as nat, |k: int| 0u8),
                    decreases *len - i,
                {
                    data.push(0);
                    i = i + 1;
                    assert(data@ =~= Seq::new(i as nat, |k: int| 0u8));
                }
            },
            Edns0Option::Unknown { data: bytes, .. } => push_bytes(&mut data, bytes.as_slice()),
        }
        assert(data@ =~= self.payload());
        data
    }
}

// ---------------------------------------------------------------------------
// Finding the OPT record
// ---------------------------------------------------------------------------

/// A result is the one stated.
pub open spec fn gives<T>(r: Result<T, Edns0Error>, expected: Result<T, Edns0Fault>) -> bool {
    match r {
        Ok(v) => expected == Ok::<T, Edns0Fault>(v),
        Err(e) => expected == Err::<T, Edns0Fault>(e@),
    }
}

/// The length of a message, which must hold a header.
pub open spec fn message_len(packet: Seq<u8>) -> Result<usize, Edns0Fault> {
    if packet.len() < 12 {
        Err(Edns0Fault::BufferTooSmall { required: 12, available: packet.len() as usize })
    } else {
        Ok(packet.len() as usize)
    }
}

/// What is known of an OPT record: where it and its type start, and its payload
/// size, extended response code and flags.
pub struct OptPlace {
    pub offset: int,
    pub fixed: int,
    pub udp_size: u16,
    pub rcode_ext: u8,
    pub flags: u16,
}

/// A section that cannot be read.
pub open spec fn parse_fault(what: Seq<char>, e: parser::ParseFault) -> Edns0Fault {
    Edns0Fault::ParseError { details: what + e.message() }
}

/// The sections before the additional one.
pub enum Section {
    Questions,
    Answers,
    Authority,
}

/// Where the additional section starts, or which section before it cannot be
/// read.
pub open spec fn additional_start(packet: Seq<u8>) -> Result<int, (Section, parser::ParseFault)> {
    match parser::questions_end(packet, 12, wire::be16(packet, 4) as nat) {
        Err(e) => Err((Section::Questions, e)),
        Ok(p) => match parser::section_end(packet, p, wire::be16(packet, 6) as nat) {
            Err(e) => Err((Section::Answers, e)),
            Ok(q) => match parser::section_end(packet, q, wire::be16(packet, 8) as nat) {
                Err(e) => Err((Section::Authority, e)),
                Ok(s) => Ok(s),
            },
        },
    }
}

/// Looks for the OPT record among `count` records at `pos`. A record of a
/// signature ends the search, unless it is made for the signer.
pub open spec fn search_opt(packet: Seq<u8>, pos: int, count: nat, is_sign: bool) -> Result<
    Option<OptPlace>,
    Edns0Fault,
>
    decreases count,
{
    if count == 0 {
        Ok(None)
    } else {
        match parser::name_end(packet, pos) {
            Err(e) => Err(parse_fault("Failed to skip name in additional section: "@, e)),
            Ok(p) => {
                let left = packet.len() - p;
                let kind = wire::be16(packet, p);
                let rdlength = wire::be16(packet, p + 8);
                if left < 10 {
                    Err(Edns0Fault::BufferTooSmall { required: 10, available: left as usize })
                } else if kind == T_OPT {
                    if left < 10 + rdlength {
                        Err(
                            Edns0Fault::MalformedPacket {
                                reason: "OPT record RDLENGTH "@ + text::decimal(rdlength as nat)
                                    + " exceeds packet boundary"@,
                            },
                        )
                    } else {
                        Ok(
                            Some(
                                OptPlace {
                                    offset: pos,
                                    fixed: p,
                                    udp_size: wire::be16(packet, p + 2),
                                    rcode_ext: packet[p + 4],
                                    flags: wire::be16(packet, p + 6),
                                },
                            ),
                        )
                    }
                } else if (kind == T_TSIG || kind == T_TKEY) && !is_sign {
                    Ok(None)
                } else if left < 10 + rdlength {
                    Err(
                        Edns0Fault::BufferTooSmall {
                            required: (10 + rdlength) as usize,
                            available: left as usize,
                        },
                    )
                } else {
                    search_opt(packet, p + 10 + rdlength, (count - 1) as nat, is_sign)
                }
            },
        }
    }
}

/// The OPT record of a message. A message with a signature before it has none,
/// unless it is the signer who asks.
pub open spec fn opt_place(packet: Seq<u8>, is_sign: bool) -> Result<Option<OptPlace>, Edns0Fault> {
    if packet.len() < 12 {
        Err(Edns0Fault::BufferTooSmall { required: 12, available: packet.len() as usize })
    } else if wire::be16(packet, 10) == 0 {
        Ok(None)
    } else {
        match additional_start(packet) {
            Err((Section::Questions, e)) => Err(parse_fault("Failed to skip questions: "@, e)),
            Err((Section::Answers, e)) => Err(parse_fault("Failed to skip answer section: "@, e)),
            Err((Section::Authority, e)) => Err(parse_fault("Failed to skip authority section: "@, e)),
            Ok(pos) => search_opt(packet, pos, wire::be16(packet, 10) as nat, is_sign),
        }
    }
}

/// A whole OPT record stands at a place behind the header.
pub open spec fn is_opt_at(packet: Seq<u8>, place: OptPlace) -> bool {
    &&& 12 <= place.offset < place.fixed
    &&& parser::record_span(packet, place.offset) matches Ok(span)
    &&& span.fixed == place.fixed
    &&& span.fixed + 10 == span.data <= span.end <= packet.len()
    &&& wire::be16(packet, place.fixed) == T_OPT
    &&& wire::be16(packet, place.fixed + 6) == place.flags
}

/// What a found OPT record is returned as.
pub open spec fn place_tuple(p: OptPlace) -> (usize, u16, u8, u16) {
    (p.offset as usize, p.udp_size, p.rcode_ext, p.flags)
}

/// The error for a section that cannot be read.
fn parse_error(what: &str, e: ParseError) -> (r: Edns0Error)
    ensures
        r@ == parse_fault(what@, e@),
{
    let mut details: String = String::new();
    details.append(what);
    details.append(e.to_string().as_str());
    assert(details@ =~= what@ + e@.message());
    Edns0Error::ParseError { details }
}

/// What follows the authority section, with texts for the errors of the three
/// sections before it.
fn skip_to_additional<'a>(
    packet: &'a [u8],
    questions: &str,
    answers: &str,
    authority: &str,
) -> (r: Result<&'a [u8], Edns0Error>)
    requires
        packet@.len() >= 12,
    ensures
        match r {
            Ok(rest) => parser::is_tail(rest@, packet@) && additional_start(packet@) == Ok::<
                int,
                (Section, parser::ParseFault),
            >(packet@.len() - rest@.len()) && rest@.len() + 12 <= packet@.len(),
            Err(e) => match additional_start(packet@) {
                Err((Section::Questions, f)) => e@ == parse_fault(questions@, f),
                Err((Section::Answers, f)) => e@ == parse_fault(answers@, f),
                Err((Section::Authority, f)) => e@ == parse_fault(authority@, f),
                Ok(_) => false,
            },
        },
{
    let start = slice_subrange(packet, 12, packet.len());
    assert(start@ =~= packet@.skip(12));
    let p = match skip_questions(packet, start, read_u16(packet, 4)) {
        Ok(rest) => rest,
        Err(e) => {
            return Err(parse_error(questions, e));
        },
    };
    let q = match skip_section(packet, p, read_u16(packet, 6)) {
        Ok(rest) => rest,
        Err(e) => {
            return Err(parse_error(answers, e));
        },
    };
    match skip_section(packet, q, read_u16(packet, 8)) {
        Ok(rest) => {
            proof {
                parser::lemma_questions_advance(packet@, 12, wire::be16(packet@, 4) as nat);
                parser::lemma_section_advance(
                    packet@,
                    packet@.len() - p@.len(),
                    wire::be16(packet@, 6) as nat,
                );
                parser::lemma_section_advance(
                    packet@,
                    packet@.len() - q@.len(),
                    wire::be16(packet@, 8) as nat,
                );
            }
            Ok(rest)
        },
        Err(e) => Err(parse_error(authority, e)),
    }
}

/// Finds the OPT record of a message: its offset, payload size, extended
/// response code and flags.
pub fn find_pseudoheader(packet: &[u8], is_sign: bool) -> (r: Result<
    Option<(usize, u16, u8, u16)>,
    Edns0Error,
>)
    ensures
        match opt_place(packet@, is_sign) {
            Ok(Some(place)) => r == Ok::<_, Edns0Error>(Some(place_tuple(place))) && is_opt_at(
                packet@,
                place,
            ) && place.offset <= usize::MAX,
            Ok(None) => r == Ok::<_, Edns0Error>(None::<(usize, u16, u8, u16)>),
            Err(f) => r matches Err(e) && e@ == f,
        },
{
    if packet.len() < 12 {
        return Err(Edns0Error::BufferTooSmall { required: 12, available: packet.len() });
    }
    let arcount: u16 = read_u16(packet, 10);
    if arcount == 0 {
        return Ok(None);
    }
    let mut pos = match skip_to_additional(
        packet,
        "Failed to skip questions: ",
        "Failed to skip answer section: ",
        "Failed to skip authority section: ",
    ) {
        Ok(rest) => rest,
        Err(e) => {
            return Err(e);
        },
    };
    let mut left: u16 = arcount;
    while left > 0
        invariant
            packet@.len() >= 12,
            parser::is_tail(pos@, packet@),
            pos@.len() + 12 <= packet@.len(),
            opt_place(packet@, is_sign) == search_opt(
                packet@,
                packet@.len() - pos@.len(),
                left as nat,
                is_sign,
            ),
        decreases left,
    {
        let offset: usize = packet.len() - pos.len();
        let after_name = match skip_name(packet, pos) {
            Ok(rest) => rest,
            Err(e) => {
                return Err(parse_error("Failed to skip name in additional section: ", e));
            },
        };
        proof {
            parser::lemma_name_advance(packet@, offset as int);
        }
        if after_name.len() < 10 {
            return Err(
                Edns0Error::BufferTooSmall { required: 10, available: after_name.len() },
            );
        }
        let rr_type: u16 = read_u16(after_name, 0);
        let rr_class: u16 = read_u16(after_name, 2);
        let rdlength: usize = read_u16(after_name, 8) as usize;
        let ghost p = packet@.len() - after_name@.len();
        assert(rr_type == wire::be16(packet@, p));
        assert(rr_class == wire::be16(packet@, p + 2));
        assert(rdlength == wire::be16(packet@, p + 8));
        if rr_type == T_OPT {
            let rcode_ext: u8 = after_name[4];
            let flags: u16 = read_u16(after_name, 6);
            assert(flags == wire::be16(packet@, p + 6));
            if after_name.len() - 10 < rdlength {
                let mut reason: String = String::new();
                reason.append("OPT record RDLENGTH ");
                push_decimal(&mut reason, rdlength as u64);
                reason.append(" exceeds packet boundary");
                assert(reason@ =~= "OPT record RDLENGTH "@ + text::decimal(rdlength as nat)
                    + " exceeds packet boundary"@);
                return Err(Edns0Error::MalformedPacket { reason });
            }
            return Ok(Some((offset, rr_class, rcode_ext, flags)));
        }
        if (rr_type == T_TSIG || rr_type == T_TKEY) && !is_sign {
            return Ok(None);
        }
        if after_name.len() - 10 < rdlength {
            return Err(
                Edns0Error::BufferTooSmall {
                    required: 10 + rdlength,
                    available: after_name.len(),
                },
            );
        }
        let next = slice_subrange(after_name, 10 + rdlength, after_name.len());
        assert(next@ =~= packet@.skip(packet@.len() - next@.len()));
        pos = next;
        left = left - 1;
    }
    Ok(None)
}


// ---------------------------------------------------------------------------
// Options
// ---------------------------------------------------------------------------

/// Options as numbers and data.
pub open spec fn option_list(options: Seq<(u16, Vec<u8>)>) -> Seq<(u16, Seq<u8>)> {
    options.map_values(|o: (u16, Vec<u8>)| (o.0, o.1@))
}

/// The options in the data of an OPT record from `pos` on, behind those in
/// `found`. What does not make a whole option is left out.
pub open spec fn options_from(
    data: Seq<u8>,
    pos: int,
    found: Seq<(u16, Seq<u8>)>,
) -> Seq<(u16, Seq<u8>)>
    decreases data.len() - pos,
{
    let len = wire::be16(data, pos + 2) as int;
    if pos + 4 > data.len() || pos + 4 + len > data.len() {
        found
    } else {
        options_from(
            data,
            pos + 4 + len,
            found.push((wire::be16(data, pos), data.subrange(pos + 4, pos + 4 + len))),
        )
    }
}

/// The options in the data of an OPT record.
pub open spec fn options_in(data: Seq<u8>) -> Seq<(u16, Seq<u8>)> {
    options_from(data, 0, Seq::empty())
}

/// The data of the record at `offset`.
pub open spec fn record_data(packet: Seq<u8>, offset: int) -> Seq<u8> {
    match parser::record_span(packet, offset) {
        Ok(span) => packet.subrange(span.data, span.end),
        Err(_) => Seq::empty(),
    }
}

/// The options of the OPT record at `opt_offset`.
fn extract_opt_options(packet: &[u8], opt_offset: usize) -> (r: Vec<(u16, Vec<u8>)>)
    requires
        opt_offset <= packet@.len(),
        parser::record_span(packet@, opt_offset as int) is Ok,
    ensures
        option_list(r@) == options_in(record_data(packet@, opt_offset as int)),
{
    let start = slice_subrange(packet, opt_offset, packet.len());
    assert(start@ =~= packet@.skip(opt_offset as int));
    let mut options: Vec<(u16, Vec<u8>)> = Vec::new();
    match take_record(packet, start) {
        Ok(parts) => {
            let data = parts.data;
            let n: usize = data.len();
            let mut pos: usize = 0;
            assert(option_list(options@) =~= Seq::empty());
            while pos + 4 <= n && read_u16(data, pos + 2) as usize <= n - pos - 4
                invariant
                    n == data@.len(),
                    n <= isize::MAX,
                    pos <= n,
                    options_in(data@) == options_from(data@, pos as int, option_list(options@)),
                decreases n - pos,
            {
                let code: u16 = read_u16(data, pos);
                let len: usize = read_u16(data, pos + 2) as usize;
                let value = copy_range(data, pos + 4, pos + 4 + len);
                let ghost before = option_list(options@);
                options.push((code, value));
                assert(option_list(options@) =~= before.push((code, value@)));
                pos = pos + 4 + len;
            }
        },
        Err(_) => {},
    }
    options
}

/// The number of a length: only its low sixteen bits fit.
pub open spec fn length_field(len: nat) -> u16 {
    (len % 65536) as u16
}

/// Options as they stand in the data of an OPT record.
pub open spec fn options_bytes(options: Seq<(u16, Seq<u8>)>) -> Seq<u8>
    decreases options.len(),
{
    if options.len() == 0 {
        Seq::empty()
    } else {
        let (code, data) = options.last();
        options_bytes(options.drop_last()) + wire::be16_bytes(code) + wire::be16_bytes(
            length_field(data.len()),
        ) + data
    }
}

/// An OPT record with the root as its name.
pub open spec fn opt_record(udp_sz: u16, flags: u16, options: Seq<(u16, Seq<u8>)>) -> Seq<u8> {
    seq![0u8] + wire::be16_bytes(T_OPT) + wire::be16_bytes(udp_sz) + seq![0u8, 0u8]
        + wire::be16_bytes(flags) + wire::be16_bytes(length_field(options_bytes(options).len()))
        + options_bytes(options)
}

/// A message with another number of additional records.
pub open spec fn with_arcount(packet: Seq<u8>, count: u16) -> Seq<u8> {
    packet.update(10, wire::be16_bytes(count)[0]).update(11, wire::be16_bytes(count)[1])
}

/// A message with one record more at its end.
pub open spec fn with_record(packet: Seq<u8>, record: Seq<u8>) -> Seq<u8> {
    let all = packet + record;
    if all.len() < 12 {
        all
    } else {
        with_arcount(all, (wire::be16(all, 10) + 1) as u16)
    }
}

/// The count of additional records can be raised once a record is put behind
/// the message, and the message stays within what a buffer can hold.
pub open spec fn can_append(packet: Seq<u8>, record: Seq<u8>) -> bool {
    let all = packet + record;
    &&& all.len() <= isize::MAX
    &&& all.len() >= 12 ==> wire::be16(all, 10) < 65535
}

/// Counts one additional record more.
fn bump_arcount(packet: &mut BytesMut) -> (r: Result<usize, Edns0Error>)
    requires
        buffer::content(*old(packet)).len() >= 12 ==> wire::be16(
            buffer::content(*old(packet)),
            10,
        ) < 65535,
        buffer::content(*old(packet)).len() <= isize::MAX,
    ensures
        gives(r, message_len(buffer::content(*old(packet)))),
        buffer::content(*old(packet)).len() < 12 ==> *final(packet) == *old(packet),
        buffer::content(*old(packet)).len() >= 12 ==> buffer::content(*final(packet))
            == with_arcount(
            buffer::content(*old(packet)),
            (wire::be16(buffer::content(*old(packet)), 10) + 1) as u16,
        ),
{
    let len: usize = as_bytes(packet).len();
    if len < 12 {
        return Err(Edns0Error::BufferTooSmall { required: 12, available: len });
    }
    let count: u16 = read_u16(as_bytes(packet), 10) + 1;
    set_byte(packet, 10, (count / 256) as u8);
    set_byte(packet, 11, (count % 256) as u8);
    Ok(len)
}

/// Puts the first bytes of an OPT record behind a message.
fn extend_opt_start(packet: &mut BytesMut, udp_sz: u16, flags: u16, rdlength: u16)
    requires
        buffer::content(*old(packet)).len() + 11 <= isize::MAX,
    ensures
        buffer::content(*final(packet)) == buffer::content(*old(packet)) + (seq![0u8]
            + wire::be16_bytes(T_OPT) + wire::be16_bytes(udp_sz) + seq![0u8, 0u8]
            + wire::be16_bytes(flags) + wire::be16_bytes(rdlength)),
{
    let root = [0u8];
    extend(packet, vstd::array::array_as_slice(&root));
    extend_u16(packet, T_OPT);
    extend_u16(packet, udp_sz);
    let zeros = [0u8, 0u8];
    extend(packet, vstd::array::array_as_slice(&zeros));
    extend_u16(packet, flags);
    extend_u16(packet, rdlength);
    assert(buffer::content(*packet) =~= buffer::content(*old(packet)) + (seq![0u8]
        + wire::be16_bytes(T_OPT) + wire::be16_bytes(udp_sz) + seq![0u8, 0u8]
        + wire::be16_bytes(flags) + wire::be16_bytes(rdlength)));
}

/// The options before the last ones take no more room than all.
proof fn lemma_options_size(options: Seq<(u16, Seq<u8>)>, n: int)
    requires
        0 <= n <= options.len(),
    ensures
        options_bytes(options.take(n)).len() <= options_bytes(options).len(),
    decreases options.len(),
{
    if n == options.len() {
        assert(options.take(n) =~= options);
    } else {
        assert(options.drop_last().take(n) =~= options.take(n));
        lemma_options_size(options.drop_last(), n);
    }
}

/// How many bytes the options take.
fn options_len(options: &Vec<(u16, Vec<u8>)>) -> (r: usize)
    requires
        options_bytes(option_list(options@)).len() <= usize::MAX,
    ensures
        r == options_bytes(option_list(options@)).len(),
{
    let mut total: usize = 0;
    let mut i: usize = 0;
    let ghost all = option_list(options@);
    assert(all.take(0) =~= Seq::empty());
    while i < options.len()
        invariant
            i <= options@.len(),
            all == option_list(options@),
            total == options_bytes(all.take(i as int)).len(),
            options_bytes(all).len() <= usize::MAX,
        decreases options@.len() - i,
    {
        proof {
            lemma_options_size(all, i + 1);
            assert(all.take(i + 1).drop_last() =~= all.take(i as int));
            assert(all.take(i + 1).last() == all[i as int]);
        }
        total = total + 4 + options[i].1.len();
        i = i + 1;
    }
    assert(all.take(i as int) =~= all);
    total
}

/// Puts an OPT record with these options behind a message and counts it.
pub fn add_opt_record_to_end(
    packet: &mut BytesMut,
    udp_sz: u16,
    options: &Vec<(u16, Vec<u8>)>,
) -> (r: Result<usize, Edns0Error>)
    requires
        can_append(
            buffer::content(*old(packet)),
            opt_record(udp_sz, 0, option_list(options@)),
        ),
    ensures
        ({
            let before = buffer::content(*old(packet));
            let after = buffer::content(*final(packet));
            let record = opt_record(udp_sz, 0, option_list(options@));
            &&& after == with_record(before, record)
            &&& gives(r, message_len(after))
        }),
{
    let rdlength: usize = options_len(options);
    let ghost all = option_list(options@);
    let ghost before = buffer::content(*packet);
    extend_opt_start(packet, udp_sz, 0, (rdlength % 65536) as u16);
    let ghost start = buffer::content(*packet);
    let mut i: usize = 0;
    assert(all.take(0) =~= Seq::empty());
    assert(start + options_bytes(all.take(0)) =~= start);
    while i < options.len()
        invariant
            i <= options@.len(),
            all == option_list(options@),
            buffer::content(*packet) == start + options_bytes(all.take(i as int)),
            start.len() + options_bytes(all).len() <= isize::MAX,
        decreases options@.len() - i,
    {
        proof {
            lemma_options_size(all, i + 1);
            assert(all.take(i + 1).drop_last() =~= all.take(i as int));
            assert(all.take(i + 1).last() == all[i as int]);
        }
        let ghost now = buffer::content(*packet);
        let data = &options[i].1;
        extend_u16(packet, options[i].0);
        extend_u16(packet, (data.len() % 65536) as u16);
        extend(packet, data.as_slice());
        assert(buffer::content(*packet) =~= start + options_bytes(all.take(i + 1)));
        i = i + 1;
    }
    assert(all.take(i as int) =~= all);
    assert(buffer::content(*packet) =~= before + opt_record(udp_sz, 0, all));
    bump_arcount(packet)
}

/// Puts an OPT record with the DNSSEC OK bit and no options behind a message and
/// counts it.
fn add_opt_record_with_do(packet: &mut BytesMut, udp_sz: u16) -> (r: Result<usize, Edns0Error>)
    requires
        can_append(
            buffer::content(*old(packet)),
            opt_record(udp_sz, EDNS0_DO_BIT, Seq::empty()),
        ),
    ensures
        ({
            let before = buffer::content(*old(packet));
            let after = buffer::content(*final(packet));
            &&& after == with_record(before, opt_record(udp_sz, EDNS0_DO_BIT, Seq::empty()))
            &&& gives(r, message_len(after))
        }),
{
    let ghost before = buffer::content(*packet);
    extend_opt_start(packet, udp_sz, EDNS0_DO_BIT, 0);
    assert(buffer::content(*packet) =~= before + opt_record(
        udp_sz,
        EDNS0_DO_BIT,
        Seq::empty(),
    ));
    bump_arcount(packet)
}

/// The records among `count` at `pos` that are no OPT records, behind those in
/// `kept`; their number, and where the records end.
pub open spec fn strip_records(
    packet: Seq<u8>,
    pos: int,
    count: nat,
    kept: Seq<u8>,
    number: nat,
) -> Result<(Seq<u8>, nat, int), parser::ParseFault>
    decreases count,
{
    if count == 0 {
        Ok((kept, number, pos))
    } else {
        match parser::record_span(packet, pos) {
            Err(e) => Err(e),
            Ok(span) => if wire::be16(packet, span.fixed) == T_OPT {
                strip_records(packet, span.end, (count - 1) as nat, kept, number)
            } else {
                strip_records(
                    packet,
                    span.end,
                    (count - 1) as nat,
                    kept + packet.subrange(pos, span.end),
                    number + 1,
                )
            },
        }
    }
}

/// A message without its OPT records. Bytes behind the records stay; pointers
/// into what moved are not adjusted.
pub open spec fn without_opt(packet: Seq<u8>) -> Result<Seq<u8>, parser::ParseFault> {
    match additional_start(packet) {
        Err((_, e)) => Err(e),
        Ok(start) => match strip_records(
            packet,
            start,
            wire::be16(packet, 10) as nat,
            packet.take(start),
            0,
        ) {
            Err(e) => Err(e),
            Ok((kept, number, end)) => Ok(
                with_arcount(kept + packet.skip(end), number as u16),
            ),
        },
    }
}

/// The error when an OPT record cannot be taken out.
pub open spec fn strip_fault(e: parser::ParseFault) -> Edns0Fault {
    Edns0Fault::InternalError { message: "rrfilter failed: "@ + e.message() }
}

/// Takes the OPT records out of a message whose sections before the additional
/// one can be read.
fn strip_opt(packet: &[u8]) -> (r: Result<Vec<u8>, Edns0Error>)
    requires
        packet@.len() >= 12,
        additional_start(packet@) is Ok,
    ensures
        match r {
            Ok(bytes) => without_opt(packet@) == Ok::<Seq<u8>, parser::ParseFault>(bytes@)
                && bytes@.len() <= packet@.len(),
            Err(e) => without_opt(packet@) matches Err(f) && e@ == strip_fault(f),
        },
{
    let mut pos = match skip_to_additional(packet, "", "", "") {
        Ok(rest) => rest,
        Err(e) => {
            return Err(e);
        },
    };
    let start: usize = packet.len() - pos.len();
    let arcount: u16 = read_u16(packet, 10);
    let mut kept = copy_range(packet, 0, start);
    assert(kept@ =~= packet@.take(start as int));
    let mut number: u16 = 0;
    let mut left: u16 = arcount;
    while left > 0
        invariant
            12 <= start <= packet@.len(),
            parser::is_tail(pos@, packet@),
            number + left <= arcount,
            12 <= kept@.len() <= packet@.len() - pos@.len(),
            strip_records(
                packet@,
                start as int,
                arcount as nat,
                packet@.take(start as int),
                0,
            ) == strip_records(
                packet@,
                packet@.len() - pos@.len(),
                left as nat,
                kept@,
                number as nat,
            ),
            additional_start(packet@) == Ok::<int, (Section, parser::ParseFault)>(start as int),
            arcount == wire::be16(packet@, 10),
        decreases left,
    {
        let ghost at = packet@.len() - pos@.len();
        match take_record(packet, pos) {
            Ok(parts) => {
                let kind: u16 = read_u16(parts.fixed, 0);
                assert(kind == wire::be16(packet@, packet@.len() - parts.fixed@.len()));
                proof {
                    parser::lemma_name_advance(packet@, at);
                }
                if kind != T_OPT {
                    let whole = slice_subrange(pos, 0, pos.len() - parts.rest.len());
                    assert(whole@ =~= packet@.subrange(at, packet@.len() - parts.rest@.len()));
                    push_bytes(&mut kept, whole);
                    number = number + 1;
                }
                pos = parts.rest;
            },
            Err(e) => {
                let mut message: String = String::new();
                message.append("rrfilter failed: ");
                message.append(e.to_string().as_str());
                assert(message@ =~= "rrfilter failed: "@ + e@.message());
                return Err(Edns0Error::InternalError { message });
            },
        }
        left = left - 1;
    }
    push_bytes(&mut kept, pos);
    kept.set(10, (number / 256) as u8);
    kept.set(11, (number % 256) as u8);
    Ok(kept)
}

/// The options that are kept when those with a number leave; zero is no number.
pub open spec fn options_without(options: Seq<(u16, Seq<u8>)>, code: u16) -> Seq<(u16, Seq<u8>)>
    decreases options.len(),
{
    if options.len() == 0 {
        options
    } else {
        let rest = options_without(options.drop_last(), code);
        if code != 0 && options.last().0 == code {
            rest
        } else {
            rest.push(options.last())
        }
    }
}

/// The options after a change: those with the number `code` leave, and the new
/// ones come behind the others; when options are deleted, new ones with that
/// number stay away.
pub open spec fn changed_options(
    existing: Seq<(u16, Seq<u8>)>,
    added: Seq<(u16, Seq<u8>)>,
    code: u16,
    replace: bool,
) -> Seq<(u16, Seq<u8>)> {
    options_without(existing, code) + (if replace {
        added
    } else {
        options_without(added, code)
    })
}

/// Copies the options but for those with a number to the end of a list.
fn push_options_without(
    list: &mut Vec<(u16, Vec<u8>)>,
    options: &Vec<(u16, Vec<u8>)>,
    code: u16,
)
    ensures
        option_list(final(list)@) == option_list(old(list)@) + options_without(
            option_list(options@),
            code,
        ),
{
    let ghost all = option_list(options@);
    let ghost before = option_list(list@);
    let mut i: usize = 0;
    assert(all.take(0) =~= Seq::empty());
    assert(before + options_without(all.take(0), code) =~= before);
    while i < options.len()
        invariant
            i <= options@.len(),
            all == option_list(options@),
            option_list(list@) == before + options_without(all.take(i as int), code),
        decreases options@.len() - i,
    {
        proof {
            assert(all.take(i + 1).drop_last() =~= all.take(i as int));
            assert(all.take(i + 1).last() == all[i as int]);
        }
        let ghost now = option_list(list@);
        if code == 0 || options[i].0 != code {
            let data = copy_range(options[i].1.as_slice(), 0, options[i].1.len());
            assert(data@ =~= options@[i as int].1@);
            list.push((options[i].0, data));
            assert(option_list(list@) =~= now.push(all[i as int]));
            assert(option_list(list@) =~= before + options_without(all.take(i + 1), code));
        }
        i = i + 1;
    }
    assert(all.take(i as int) =~= all);
}

/// The message and the result after an OPT record was put in or changed.
pub open spec fn pseudoheader(
    packet: Seq<u8>,
    udp_sz: u16,
    added: Seq<(u16, Seq<u8>)>,
    code: u16,
    replace: bool,
) -> (Seq<u8>, Result<usize, Edns0Fault>) {
    match opt_place(packet, false) {
        Err(e) => (packet, Err(e)),
        Ok(None) => {
            let all = changed_options(Seq::empty(), added, code, replace);
            let after = with_record(packet, opt_record(udp_sz, 0, all));
            (after, Ok(after.len() as usize))
        },
        Ok(Some(place)) => match without_opt(packet) {
            Err(e) => (packet, Err(strip_fault(e))),
            Ok(rest) => {
                let all = changed_options(
                    options_in(record_data(packet, place.offset)),
                    added,
                    code,
                    replace,
                );
                let after = with_record(rest, opt_record(udp_sz, 0, all));
                (after, Ok(after.len() as usize))
            },
        },
    }
}

/// There is room for an OPT record with these options: the message stays within
/// what a buffer can hold, and a record that is not there yet can be counted.
pub open spec fn has_room(packet: Seq<u8>, added: Seq<(u16, Seq<u8>)>) -> bool {
    &&& packet.len() + 11 + options_bytes(added).len() <= isize::MAX
    &&& opt_place(packet, false) == Ok::<Option<OptPlace>, Edns0Fault>(None) ==> wire::be16(
        packet,
        10,
    ) < 65535
}

/// Fewer options take no more room.
proof fn lemma_without_size(options: Seq<(u16, Seq<u8>)>, code: u16)
    ensures
        options_bytes(options_without(options, code)).len() <= options_bytes(options).len(),
    decreases options.len(),
{
    if options.len() > 0 {
        lemma_without_size(options.drop_last(), code);
        let rest = options_without(options.drop_last(), code);
        assert(rest.push(options.last()).drop_last() =~= rest);
    }
}

/// The room of two lists of options is that of one with all.
proof fn lemma_options_concat(a: Seq<(u16, Seq<u8>)>, b: Seq<(u16, Seq<u8>)>)
    ensures
        options_bytes(a + b) == options_bytes(a) + options_bytes(b),
    decreases b.len(),
{
    if b.len() == 0 {
        assert(a + b =~= a);
        assert(options_bytes(a) + options_bytes(b) =~= options_bytes(a));
    } else {
        lemma_options_concat(a, b.drop_last());
        assert((a + b).drop_last() =~= a + b.drop_last());
        assert(options_bytes(a + b) =~= options_bytes(a) + options_bytes(b));
    }
}

/// Options that were read take no more room than where they stood.
proof fn lemma_options_from_size(data: Seq<u8>, pos: int, found: Seq<(u16, Seq<u8>)>)
    requires
        0 <= pos <= data.len(),
        options_bytes(found).len() <= pos,
    ensures
        options_bytes(options_from(data, pos, found)).len() <= data.len(),
    decreases data.len() - pos,
{
    let len = wire::be16(data, pos + 2) as int;
    if pos + 4 <= data.len() && pos + 4 + len <= data.len() {
        let one = (wire::be16(data, pos), data.subrange(pos + 4, pos + 4 + len));
        assert(found.push(one).drop_last() =~= found);
        lemma_options_from_size(data, pos + 4 + len, found.push(one));
    }
}

/// Taking the OPT records out gives as many bytes less as they took, of which
/// the first one is at a known place.
proof fn lemma_strip_room(
    packet: Seq<u8>,
    pos: int,
    count: nat,
    kept: Seq<u8>,
    number: nat,
    is_sign: bool,
)
    requires
        0 <= pos <= packet.len(),
        kept.len() <= pos,
        search_opt(packet, pos, count, is_sign) matches Ok(Some(_)),
    ensures
        search_opt(packet, pos, count, is_sign) matches Ok(Some(place)) ==> strip_records(
            packet,
            pos,
            count,
            kept,
            number,
        ) matches Ok((after, n, end)) ==> after.len() + 11 + record_data(
            packet,
            place.offset,
        ).len() <= end <= packet.len() && n < number + count && kept.len() <= after.len(),
    decreases count,
{
    parser::lemma_name_advance(packet, pos);
    if let Ok(span) = parser::record_span(packet, pos) {
        if wire::be16(packet, span.fixed) == T_OPT {
            lemma_strip_bound(packet, span.end, (count - 1) as nat, kept, number);
        } else {
            lemma_strip_room(
                packet,
                span.end,
                (count - 1) as nat,
                kept + packet.subrange(pos, span.end),
                number + 1,
                is_sign,
            );
        }
    }
}

/// Records that are kept take no more room than all.
proof fn lemma_strip_bound(
    packet: Seq<u8>,
    pos: int,
    count: nat,
    kept: Seq<u8>,
    number: nat,
)
    requires
        0 <= pos <= packet.len(),
    ensures
        strip_records(packet, pos, count, kept, number) matches Ok((after, n, end)) ==> {
            &&& kept.len() <= after.len() <= kept.len() + (end - pos)
            &&& pos <= end <= packet.len()
            &&& n <= number + count
        },
    decreases count,
{
    if count > 0 {
        parser::lemma_name_advance(packet, pos);
        if let Ok(span) = parser::record_span(packet, pos) {
            if wire::be16(packet, span.fixed) == T_OPT {
                lemma_strip_bound(packet, span.end, (count - 1) as nat, kept, number);
            } else {
                lemma_strip_bound(
                    packet,
                    span.end,
                    (count - 1) as nat,
                    kept + packet.subrange(pos, span.end),
                    number + 1,
                );
            }
        }
    }
}

/// Puts an OPT record into a message, or changes the one that is there: it gets
/// this payload size, the options with the number `opt_code` leave it (zero for
/// none), and those in `opt_data` come in. With `replace` false the options are
/// deleted: those in `opt_data` with that number stay away. The record is the
/// last one afterwards.
pub fn add_pseudoheader(
    packet: &mut BytesMut,
    udp_sz: u16,
    opt_data: &Vec<(u16, Vec<u8>)>,
    opt_code: u16,
    replace: bool,
) -> (r: Result<usize, Edns0Error>)
    requires
        has_room(buffer::content(*old(packet)), option_list(opt_data@)),
    ensures
        ({
            let (after, result) = pseudoheader(
                buffer::content(*old(packet)),
                udp_sz,
                option_list(opt_data@),
                opt_code,
                replace,
            );
            buffer::content(*final(packet)) == after && gives(r, result)
        }),
{
    let ghost before = buffer::content(*packet);
    let ghost added = option_list(opt_data@);
    let found = match find_pseudoheader(as_bytes(packet), false) {
        Ok(found) => found,
        Err(e) => {
            return Err(e);
        },
    };
    let mut options: Vec<(u16, Vec<u8>)> = Vec::new();
    let ghost mut existing: Seq<(u16, Seq<u8>)> = Seq::empty();
    match found {
        Some((offset, _, _, _)) => {
            let old_options = extract_opt_options(as_bytes(packet), offset);
            let rest = match strip_opt(as_bytes(packet)) {
                Ok(rest) => rest,
                Err(e) => {
                    return Err(e);
                },
            };
            proof {
                existing = option_list(old_options@);
                lemma_room_after_strip(before, udp_sz, added, opt_code, replace);
            }
            push_options_without(&mut options, &old_options, opt_code);
            buffer::replace(packet, rest.as_slice());
        },
        None => {
            proof {
                lemma_changed_size(existing, added, opt_code, replace);
                lemma_appended_count(
                    before,
                    opt_record(
                        udp_sz,
                        0,
                        changed_options(existing, added, opt_code, replace),
                    ),
                );
            }
        },
    }
    assert(option_list(options@) =~= options_without(existing, opt_code));
    push_options_without(
        &mut options,
        opt_data,
        if replace {
            0
        } else {
            opt_code
        },
    );
    proof {
        lemma_without_all(added);
        assert(option_list(options@) =~= changed_options(existing, added, opt_code, replace));
    }
    add_opt_record_to_end(packet, udp_sz, &options)
}

/// The header of a message stays in front when bytes come behind it.
proof fn lemma_appended_count(packet: Seq<u8>, record: Seq<u8>)
    requires
        packet.len() >= 12,
    ensures
        wire::be16(packet + record, 10) == wire::be16(packet, 10),
{
}

/// A changed list of options takes no more room than the two lists it is made of.
proof fn lemma_changed_size(
    existing: Seq<(u16, Seq<u8>)>,
    added: Seq<(u16, Seq<u8>)>,
    code: u16,
    replace: bool,
)
    ensures
        options_bytes(changed_options(existing, added, code, replace)).len() <= options_bytes(
            existing,
        ).len() + options_bytes(added).len(),
{
    lemma_without_size(existing, code);
    lemma_without_size(added, code);
    lemma_options_concat(
        options_without(existing, code),
        if replace {
            added
        } else {
            options_without(added, code)
        },
    );
}

/// The additional section starts behind the header.
proof fn lemma_additional_start(packet: Seq<u8>)
    requires
        packet.len() >= 12,
    ensures
        additional_start(packet) matches Ok(start) ==> 12 <= start <= packet.len(),
{
    parser::lemma_questions_advance(packet, 12, wire::be16(packet, 4) as nat);
    if let Ok(p) = parser::questions_end(packet, 12, wire::be16(packet, 4) as nat) {
        parser::lemma_section_advance(packet, p, wire::be16(packet, 6) as nat);
        if let Ok(q) = parser::section_end(packet, p, wire::be16(packet, 6) as nat) {
            parser::lemma_section_advance(packet, q, wire::be16(packet, 8) as nat);
        }
    }
}

/// Once the OPT record is out, the changed one has room.
proof fn lemma_room_after_strip(
    packet: Seq<u8>,
    udp_sz: u16,
    added: Seq<(u16, Seq<u8>)>,
    code: u16,
    replace: bool,
)
    requires
        has_room(packet, added),
        opt_place(packet, false) matches Ok(Some(_)),
        without_opt(packet) is Ok,
    ensures
        opt_place(packet, false) matches Ok(Some(place)) ==> can_append(
            without_opt(packet)->Ok_0,
            opt_record(
                udp_sz,
                0,
                changed_options(
                    options_in(record_data(packet, place.offset)),
                    added,
                    code,
                    replace,
                ),
            ),
        ),
        without_opt(packet)->Ok_0.len() >= 12,
{
    let place = opt_place(packet, false)->Ok_0->Some_0;
    lemma_additional_start(packet);
    let start = additional_start(packet)->Ok_0;
    let count = wire::be16(packet, 10);
    lemma_strip_room(packet, start, count as nat, packet.take(start), 0, false);
    let (kept, number, end) = strip_records(
        packet,
        start,
        count as nat,
        packet.take(start),
        0,
    )->Ok_0;
    let data = record_data(packet, place.offset);
    lemma_options_from_size(data, 0, Seq::empty());
    let all = changed_options(options_in(data), added, code, replace);
    lemma_changed_size(options_in(data), added, code, replace);
    let rest = without_opt(packet)->Ok_0;
    assert(rest.len() == kept.len() + (packet.len() - end));
    let record = opt_record(udp_sz, 0, all);
    assert(record.len() == 11 + options_bytes(all).len());
    lemma_appended_count(rest, record);
    assert(number < 65535);
    assert(wire::be16(rest, 10) == number);
}

/// When no number leaves, all options stay.
proof fn lemma_without_all(options: Seq<(u16, Seq<u8>)>)
    ensures
        options_without(options, 0) == options,
    decreases options.len(),
{
    if options.len() > 0 {
        lemma_without_all(options.drop_last());
        assert(options.drop_last().push(options.last()) =~= options);
    }
}

// ---------------------------------------------------------------------------
// The DNSSEC OK bit
// ---------------------------------------------------------------------------

/// The payload size when a minimum is asked for; zero asks for the usual one.
pub open spec fn asked_size(minsize: u16) -> u16 {
    if minsize == 0 {
        PACKETSZ as u16
    } else {
        minsize
    }
}

/// A message with other flags in its OPT record.
pub open spec fn with_flags(packet: Seq<u8>, fixed: int, flags: u16) -> Seq<u8> {
    packet.update(fixed + 6, wire::be16_bytes(flags)[0]).update(
        fixed + 7,
        wire::be16_bytes(flags)[1],
    )
}

/// A message that asks for DNSSEC records.
pub open spec fn with_do_bit(packet: Seq<u8>, minsize: u16) -> Seq<u8> {
    match opt_place(packet, false) {
        Err(_) => packet,
        Ok(None) => with_record(
            packet,
            opt_record(asked_size(minsize), EDNS0_DO_BIT, Seq::empty()),
        ),
        Ok(Some(place)) => if place.flags & EDNS0_DO_BIT != 0 {
            packet
        } else {
            with_flags(packet, place.fixed, place.flags | EDNS0_DO_BIT)
        },
    }
}

/// Sets the DNSSEC OK bit in the OPT record of a message, or puts an OPT record
/// with that bit into it.
pub fn add_do_bit(packet: &mut BytesMut, minsize: u16) -> (r: Result<usize, Edns0Error>)
    requires
        has_room(buffer::content(*old(packet)), Seq::empty()),
    ensures
        buffer::content(*final(packet)) == with_do_bit(buffer::content(*old(packet)), minsize),
        gives(
            r,
            match opt_place(buffer::content(*old(packet)), false) {
                Err(e) => Err(e),
                Ok(_) => Ok(buffer::content(*final(packet)).len() as usize),
            },
        ),
{
    let ghost before = buffer::content(*packet);
    let udp_size: u16 = if minsize == 0 {
        PACKETSZ as u16
    } else {
        minsize
    };
    match find_pseudoheader(as_bytes(packet), false) {
        Err(e) => Err(e),
        Ok(Some((offset, _, _, flags))) => {
            let len: usize = as_bytes(packet).len();
            if flags & EDNS0_DO_BIT != 0 {
                return Ok(len);
            }
            let fixed: usize = fixed_part(as_bytes(packet), offset);
            let new_flags: u16 = flags | EDNS0_DO_BIT;
            set_byte(packet, fixed + 6, (new_flags / 256) as u8);
            set_byte(packet, fixed + 7, (new_flags % 256) as u8);
            Ok(len)
        },
        Ok(None) => {
            proof {
                lemma_appended_count(
                    before,
                    opt_record(udp_size, EDNS0_DO_BIT, Seq::empty()),
                );
            }
            add_opt_record_with_do(packet, udp_size)
        },
    }
}

/// Where the type of the record at `offset` stands.
fn fixed_part(packet: &[u8], offset: usize) -> (r: usize)
    requires
        offset <= packet@.len(),
        parser::record_span(packet@, offset as int) is Ok,
    ensures
        parser::record_span(packet@, offset as int) matches Ok(span) && span.fixed == r,
{
    let start = slice_subrange(packet, offset, packet.len());
    assert(start@ =~= packet@.skip(offset as int));
    match take_record(packet, start) {
        Ok(parts) => packet.len() - parts.fixed.len(),
        Err(_) => 0,
    }
}

// ---------------------------------------------------------------------------
// Client subnets
// ---------------------------------------------------------------------------

/// The subnet in the data of an option.
pub open spec fn subnet_in(data: Seq<u8>) -> Result<ClientSubnetModel, Edns0Fault> {
    if data.len() < 4 {
        Err(
            Edns0Fault::InvalidOption {
                option_code: EDNS0_OPTION_CLIENT_SUBNET,
                reason: "Option too short: "@ + text::decimal(data.len()) + " bytes"@,
            },
        )
    } else {
        Ok(
            ClientSubnetModel {
                family: wire::be16(data, 0),
                source_netmask: data[2],
                scope_netmask: data[3],
                addr: data.skip(4),
            },
        )
    }
}

/// Reads the data of a client subnet option.
pub fn parse_subnet_option(data: &[u8]) -> (r: Result<ClientSubnet, Edns0Error>)
    ensures
        match r {
            Ok(s) => subnet_in(data@) == Ok::<ClientSubnetModel, Edns0Fault>(s@),
            Err(e) => subnet_in(data@) == Err::<ClientSubnetModel, Edns0Fault>(e@),
        },
{
    if data.len() < 4 {
        let mut reason: String = String::new();
        reason.append("Option too short: ");
        push_decimal(&mut reason, data.len() as u64);
        reason.append(" bytes");
        assert(reason@ =~= "Option too short: "@ + text::decimal(data@.len()) + " bytes"@);
        return Err(
            Edns0Error::InvalidOption { option_code: EDNS0_OPTION_CLIENT_SUBNET, reason },
        );
    }
    let addr = copy_range(data, 4, data.len());
    assert(addr@ =~= data@.skip(4));
    Ok(
        ClientSubnet {
            family: read_u16(data, 0),
            source_netmask: data[2],
            scope_netmask: data[3],
            addr,
        },
    )
}

/// The first `netmask` bits of an address, filled up with zeros to whole bytes.
pub open spec fn masked_prefix(addr: IpAddr, netmask: u8) -> Seq<u8> {
    let n = prefix_bytes(addr, netmask);
    let part = addr_bytes(addr).take(n);
    if netmask % 8 != 0 && netmask < addr_bits(addr) {
        part.update(n - 1, part[n - 1] & (0xFFu8 << ((8 - netmask % 8) as u8)))
    } else {
        part
    }
}

/// The data of the option that tells `netmask` bits of an address.
pub open spec fn subnet_option(addr: IpAddr, netmask: u8) -> Seq<u8> {
    wire::be16_bytes(family_of(addr)) + seq![capped_netmask(addr, netmask), 0u8] + masked_prefix(
        addr,
        netmask,
    )
}

/// The data of the option that tells the first bits of an address.
pub fn calc_subnet_opt(source: &IpAddr, source_netmask: u8) -> (r: Vec<u8>)
    requires
        source_netmask <= 248,
    ensures
        r@ == subnet_option(*source, source_netmask),
{
    let subnet = ClientSubnet::from_addr(source, source_netmask);
    let bits: u8 = match source {
        IpAddr::V4(_) => 32,
        IpAddr::V6(_) => 128,
    };
    let mut data: Vec<u8> = Vec::new();
    push_u16(&mut data, subnet.family);
    data.push(subnet.source_netmask);
    data.push(0);
    push_bytes(&mut data, subnet.addr.as_slice());
    assert(addr_bytes(*source).len() == addr_bits(*source) as int / 8) by {
        lemma_addr_len(*source);
    }
    if source_netmask % 8 != 0 && source_netmask < bits {
        let last: usize = data.len() - 1;
        let mask: u8 = 0xFFu8 << (8 - source_netmask % 8);
        let byte: u8 = data[last] & mask;
        data.set(last, byte);
    }
    assert(data@ =~= subnet_option(*source, source_netmask));
    data
}

/// An address has as many bytes as its bits fill.
pub proof fn lemma_addr_len(addr: IpAddr)
    ensures
        addr_bytes(addr).len() == addr_bits(addr) as int / 8,
{
    if let IpAddr::V6(a) = addr {
        assert(vstd::arithmetic::power::pow(256, 16) == u128::MAX + 1) by {
            reveal(vstd::arithmetic::power::pow);
            reveal_with_fuel(vstd::arithmetic::power::pow, 17);
        }
        wire::law_be_value_of_digits(a.bits as nat, 16);
    }
}

/// How many bits of a client's address are told.
pub open spec fn told_bits(source: IpAddr) -> u8 {
    match source {
        IpAddr::V4(_) => 24,
        IpAddr::V6(_) => 56,
    }
}

/// The data of the option that tells a client's subnet.
pub fn add_source_addr_option(source: &IpAddr) -> (r: Vec<u8>)
    ensures
        r@ == subnet_option(*source, told_bits(*source)),
{
    match source {
        IpAddr::V4(_) => calc_subnet_opt(source, 24),
        IpAddr::V6(_) => calc_subnet_opt(source, 56),
    }
}

/// Whether the first client subnet among the options fits a query.
pub open spec fn subnet_fits(
    options: Seq<(u16, Seq<u8>)>,
    source: IpAddr,
    netmask: u8,
) -> Result<bool, Edns0Fault>
    decreases options.len(),
{
    if options.len() == 0 {
        Ok(true)
    } else if options[0].0 == EDNS0_OPTION_CLIENT_SUBNET {
        match subnet_in(options[0].1) {
            Err(e) => Err(e),
            Ok(s) => Ok(s.family == family_of(source) && s.scope_netmask <= netmask),
        }
    } else {
        subnet_fits(options.drop_first(), source, netmask)
    }
}

/// Whether a reply answers for the subnet that was told: it names none, or one
/// of the same family whose scope is not longer than what was told.
pub open spec fn source_fits(packet: Seq<u8>, source: IpAddr, netmask: u8) -> Result<
    bool,
    Edns0Fault,
> {
    match opt_place(packet, false) {
        Err(e) => Err(e),
        Ok(None) => Ok(true),
        Ok(Some(place)) => subnet_fits(
            options_in(record_data(packet, place.offset)),
            source,
            netmask,
        ),
    }
}

/// Whether a reply answers for the subnet that was told.
pub fn check_source(
    packet: &[u8],
    query_source: &IpAddr,
    query_source_netmask: u8,
) -> (r: Result<bool, Edns0Error>)
    ensures
        gives(r, source_fits(packet@, *query_source, query_source_netmask)),
{
    let offset: usize = match find_pseudoheader(packet, false) {
        Err(e) => {
            return Err(e);
        },
        Ok(None) => {
            return Ok(true);
        },
        Ok(Some((offset, _, _, _))) => offset,
    };
    let options = extract_opt_options(packet, offset);
    let ghost all = option_list(options@);
    let mut i: usize = 0;
    assert(all.skip(0) =~= all);
    while i < options.len()
        invariant
            i <= options@.len(),
            all == option_list(options@),
            source_fits(packet@, *query_source, query_source_netmask) == subnet_fits(
                all.skip(i as int),
                *query_source,
                query_source_netmask,
            ),
        decreases options@.len() - i,
    {
        assert(all.skip(i as int)[0] == all[i as int]);
        if options[i].0 == EDNS0_OPTION_CLIENT_SUBNET {
            let subnet = match parse_subnet_option(options[i].1.as_slice()) {
                Ok(subnet) => subnet,
                Err(e) => {
                    return Err(e);
                },
            };
            let expected: u16 = match query_source {
                IpAddr::V4(_) => 1,
                IpAddr::V6(_) => 2,
            };
            if subnet.family != expected {
                return Ok(false);
            }
            if subnet.scope_netmask > query_source_netmask {
                return Ok(false);
            }
            return Ok(true);
        }
        assert(all.skip(i as int).drop_first() =~= all.skip(i + 1));
        i = i + 1;
    }
    Ok(true)
}

// ---------------------------------------------------------------------------
// The options of a forwarded query
// ---------------------------------------------------------------------------

/// Which options queries that are sent on carry.
#[derive(Debug, Clone, Copy, PartialEq, Eq, Structural)]
pub struct DaemonOptions {
    /// Tell the client's hardware address.
    pub add_mac: bool,
    /// Tell the client's subnet.
    pub client_subnet: bool,
}

/// A hardware address in writing: two hexadecimal digits for each byte, with
/// colons between them.
pub open spec fn mac_text(mac: Seq<u8>) -> Seq<char>
    decreases mac.len(),
{
    if mac.len() == 0 {
        Seq::empty()
    } else if mac.len() == 1 {
        text::lower(text::hex_byte(mac[0]))
    } else {
        mac_text(mac.drop_last()) + seq![':'] + text::lower(text::hex_byte(mac.last()))
    }
}

/// Writes a hardware address.
fn print_mac(mac: &[u8]) -> (r: String)
    ensures
        r@ == mac_text(mac@),
{
    let mut s: String = String::new();
    let mut i: usize = 0;
    assert(s@ =~= mac_text(mac@.take(0)));
    while i < mac.len()
        invariant
            i <= mac@.len(),
            s@ == mac_text(mac@.take(i as int)),
        decreases mac@.len() - i,
    {
        let ghost now = s@;
        let mut two: String = String::new();
        push_hex_byte(&mut two, mac[i]);
        assert(two@ =~= text::hex_byte(mac@[i as int]));
        if i > 0 {
            s.push(':');
        }
        s.append(to_ascii_lower(two.as_str()).as_str());
        proof {
            assert(mac@.take(i + 1).drop_last() =~= mac@.take(i as int));
            if i == 0 {
                assert(now =~= Seq::empty());
            }
            assert(s@ =~= mac_text(mac@.take(i + 1)));
        }
        i = i + 1;
    }
    assert(mac@.take(i as int) =~= mac@);
    s
}

/// The bytes of a hardware address that was found, if it has any.
pub open spec fn found_mac(mac: Option<Vec<u8>>) -> Option<Seq<u8>> {
    match mac {
        Some(bytes) => if bytes@.len() > 0 {
            Some(bytes@)
        } else {
            None
        },
        None => None,
    }
}

/// The options that a query of a client gets, where `mac` is the hardware address
/// to tell and `device_mac` the one to tell in writing.
pub open spec fn config_options(
    source: IpAddr,
    options: DaemonOptions,
    mac: Option<Seq<u8>>,
    device_mac: Option<Seq<u8>>,
) -> Seq<(u16, Seq<u8>)> {
    let first = match mac {
        Some(bytes) if options.add_mac => seq![(EDNS0_OPTION_MAC, bytes)],
        _ => Seq::empty(),
    };
    let second = match device_mac {
        Some(bytes) => first.push((EDNS0_OPTION_NOMDEVICEID, encode_utf8(mac_text(bytes)))),
        None => first,
    };
    if options.client_subnet {
        second.push((EDNS0_OPTION_CLIENT_SUBNET, subnet_option(source, told_bits(source))))
    } else {
        second
    }
}

/// Collects the options that a query of a client gets. A hardware address that
/// was not found, or is empty, is not told.
pub fn collect_options(
    source: &SocketAddr,
    options: &DaemonOptions,
    mac: &Option<Vec<u8>>,
    device_mac: &Option<Vec<u8>>,
) -> (r: Vec<(u16, Vec<u8>)>)
    ensures
        option_list(r@) == config_options(
            source.ip,
            *options,
            found_mac(*mac),
            found_mac(*device_mac),
        ),
{
    let mut list: Vec<(u16, Vec<u8>)> = Vec::new();
    if options.add_mac {
        match mac {
            Some(bytes) => if bytes.len() > 0 {
                let copy = copy_range(bytes.as_slice(), 0, bytes.len());
                assert(copy@ =~= bytes@);
                list.push((EDNS0_OPTION_MAC, copy));
            },
            None => {},
        }
    }
    let ghost first = option_list(list@);
    match device_mac {
        Some(bytes) => if bytes.len() > 0 {
            let written = print_mac(bytes.as_slice());
            let data = written.as_str().as_bytes();
            let copy = copy_range(data, 0, data.len());
            assert(copy@ =~= encode_utf8(mac_text(bytes@)));
            list.push((EDNS0_OPTION_NOMDEVICEID, copy));
            assert(option_list(list@) =~= first.push((EDNS0_OPTION_NOMDEVICEID, copy@)));
        },
        None => {},
    }
    let ghost second = option_list(list@);
    if options.client_subnet {
        let data = add_source_addr_option(&source.ip);
        list.push((EDNS0_OPTION_CLIENT_SUBNET, data));
        assert(option_list(list@) =~= second.push((EDNS0_OPTION_CLIENT_SUBNET, data@)));
    }
    assert(option_list(list@) =~= config_options(
        source.ip,
        *options,
        found_mac(*mac),
        found_mac(*device_mac),
    ));
    list
}

/// The message and the result after a query got its options: with options, it
/// must not be longer than `limit`.
pub open spec fn configured(
    packet: Seq<u8>,
    limit: usize,
    added: Seq<(u16, Seq<u8>)>,
    pktsz: u16,
) -> (Seq<u8>, Result<usize, Edns0Fault>) {
    let (after, result) = pseudoheader(packet, pktsz, added, 0, false);
    match result {
        Ok(len) if added.len() > 0 && len > limit => (
            after,
            Err(Edns0Fault::BufferTooSmall { required: len, available: limit }),
        ),
        _ => (after, result),
    }
}

/// Puts the configured options into a query that is sent on. `mac` and
/// `device_mac` are the client's hardware address where one was found.
pub fn add_edns0_config(
    packet: &mut BytesMut,
    limit: usize,
    source: &SocketAddr,
    options: &DaemonOptions,
    pktsz: u16,
    mac: &Option<Vec<u8>>,
    device_mac: &Option<Vec<u8>>,
) -> (r: Result<usize, Edns0Error>)
    requires
        has_room(
            buffer::content(*old(packet)),
            config_options(source.ip, *options, found_mac(*mac), found_mac(*device_mac)),
        ),
    ensures
        ({
            let (after, result) = configured(
                buffer::content(*old(packet)),
                limit,
                config_options(source.ip, *options, found_mac(*mac), found_mac(*device_mac)),
                pktsz,
            );
            buffer::content(*final(packet)) == after && gives(r, result)
        }),
{
    let opt_data = collect_options(source, options, mac, device_mac);
    match add_pseudoheader(packet, pktsz, &opt_data, 0, false) {
        Err(e) => Err(e),
        Ok(len) => {
            if opt_data.len() > 0 && len > limit {
                return Err(Edns0Error::BufferTooSmall { required: len, available: limit });
            }
            Ok(len)
        },
    }
}

/// A query with options. One that has no room for them, or would grow beyond the
/// payload size, stays as it is.
pub open spec fn with_options(packet: Seq<u8>, added: Seq<(u16, Seq<u8>)>, pktsz: u16) -> Seq<u8> {
    let (after, result) = configured(packet, pktsz as usize, added, pktsz);
    if added.len() > 0 && has_room(packet, added) && result is Ok {
        after
    } else {
        packet
    }
}

/// Whether options take no more bytes than a limit.
fn options_fit(options: &Vec<(u16, Vec<u8>)>, limit: usize) -> (r: bool)
    ensures
        r == (options_bytes(option_list(options@)).len() <= limit),
{
    let ghost all = option_list(options@);
    let mut n: usize = 0;
    let mut i: usize = 0;
    while i < options.len()
        invariant
            i <= options@.len(),
            all == option_list(options@),
            n == options_bytes(all.take(i as int)).len(),
            n <= limit,
        decreases options@.len() - i,
    {
        proof {
            assert(all.take(i + 1).drop_last() =~= all.take(i as int));
            assert(all.take(i + 1).last() == (options@[i as int].0, options@[i as int].1@));
            assert(all.take(all.len() as int) =~= all);
            lemma_options_size(all, i + 1);
        }
        let size: usize = options[i].1.len();
        let left: usize = limit - n;
        if left < 4 || left - 4 < size {
            return false;
        }
        n = n + 4 + size;
        i = i + 1;
    }
    assert(all.take(i as int) =~= all);
    true
}

/// A copy of a query with the configured options.
pub fn copy_with_options(
    packet: &[u8],
    source: &SocketAddr,
    options: &DaemonOptions,
    pktsz: u16,
    mac: &Option<Vec<u8>>,
    device_mac: &Option<Vec<u8>>,
) -> (r: Vec<u8>)
    ensures
        r@ == with_options(
            packet@,
            config_options(source.ip, *options, found_mac(*mac), found_mac(*device_mac)),
            pktsz,
        ),
{
    let plain = copy_range(packet, 0, packet.len());
    assert(plain@ =~= packet@);
    let added = collect_options(source, options, mac, device_mac);
    assert(option_list(added@).len() == added@.len());
    if added.len() == 0 || packet.len() > isize::MAX as usize - 11 {
        return plain;
    }
    if !options_fit(&added, isize::MAX as usize - 11 - packet.len()) {
        return plain;
    }
    match find_pseudoheader(packet, false) {
        Ok(None) => {
            if packet.len() < 12 || read_u16(packet, 10) == 65535 {
                return plain;
            }
        },
        _ => {},
    }
    let mut buffer = buffer::from_bytes(packet);
    match add_edns0_config(&mut buffer, pktsz as usize, source, options, pktsz, mac, device_mac) {
        Ok(_) => {
            let bytes = as_bytes(&buffer);
            let r = copy_range(bytes, 0, bytes.len());
            assert(r@ =~= buffer::content(buffer));
            r
        },
        Err(_) => plain,
    }
}

/// A query with options still has its header.
pub proof fn lemma_with_options_len(packet: Seq<u8>, added: Seq<(u16, Seq<u8>)>, pktsz: u16)
    requires
        packet.len() >= 11,
    ensures
        with_options(packet, added, pktsz).len() >= 11,
{
}

/// A query without configured options stays as it is.
pub proof fn law_without_options_nothing_changes(
    packet: Seq<u8>,
    source: IpAddr,
    options: DaemonOptions,
    mac: Option<Seq<u8>>,
    pktsz: u16,
)
    requires
        !options.add_mac,
        !options.client_subnet,
    ensures
        with_options(packet, config_options(source, options, mac, None), pktsz) == packet,
{
}

} // verus!
