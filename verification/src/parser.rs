//! Reading of DNS messages: names, questions, record sections, addresses and
//! the names of reverse lookups.

use crate::addr::{IpAddr, Ipv4Addr, Ipv6Addr};
use crate::compression::{
    self, decode_compression_pointer, drop_final_dot, LabelType, MAX_COMPRESSION_HOPS,
};
use crate::protocol::{C_IN, MAXDNAME, MAXLABEL, T_A, T_AAAA};
use crate::text::{
    self, eq_ignore_case, parse_number, push_decimal, push_hex_byte, split_text, text_from_utf8,
    to_chars,
};
use crate::wire::{self, read_u16};
use vstd::prelude::*;
use vstd::slice::slice_subrange;
use vstd::utf8::*;

verus! {

/// Longest name of a reverse lookup, in bytes.
pub const MAXARPANAME: usize = 75;

/// Why a message or a name cannot be read.
#[derive(Debug, Clone, PartialEq, Eq)]
pub enum ParseError {
    /// Fewer bytes are there than are needed.
    InvalidLength { expected: usize, actual: usize },
    /// A length byte announces neither a label nor a pointer.
    InvalidLabelType { label_type: u8 },
    /// A name goes through too many pointers.
    CompressionLoop { hops: usize },
    /// A name is too long.
    NameTooLong { length: usize },
    /// A label is too long.
    LabelTooLong { length: usize },
    /// A name is not that of a reverse lookup.
    InvalidArpaName { reason: String },
    /// The message breaks a rule of the protocol.
    MalformedPacket { reason: String },
}

/// What a `ParseError` says, with its texts as sequences of characters.
pub enum ParseFault {
    InvalidLength { expected: usize, actual: usize },
    InvalidLabelType { label_type: u8 },
    CompressionLoop { hops: usize },
    NameTooLong { length: usize },
    LabelTooLong { length: usize },
    InvalidArpaName { reason: Seq<char> },
    MalformedPacket { reason: Seq<char> },
}

impl View for ParseError {
    type V = ParseFault;

    open spec fn view(&self) -> ParseFault {
        match *self {
            ParseError::InvalidLength { expected, actual } => ParseFault::InvalidLength {
                expected,
                actual,
            },
            ParseError::InvalidLabelType { label_type } => ParseFault::InvalidLabelType {
                label_type,
            },
            ParseError::CompressionLoop { hops } => ParseFault::CompressionLoop { hops },
            ParseError::NameTooLong { length } => ParseFault::NameTooLong { length },
            ParseError::LabelTooLong { length } => ParseFault::LabelTooLong { length },
            ParseError::InvalidArpaName { reason } => ParseFault::InvalidArpaName {
                reason: reason@,
            },
            ParseError::MalformedPacket { reason } => ParseFault::MalformedPacket {
                reason: reason@,
            },
        }
    }
}

impl ParseFault {
    /// The text of the error.
    pub open spec fn message(self) -> Seq<char> {
        match self {
            ParseFault::InvalidLength { expected, actual } => {
                "Invalid packet length: expected at least "@ + text::decimal(expected as nat)
                    + " bytes, got "@ + text::decimal(actual as nat)
            },
            ParseFault::InvalidLabelType { label_type } => {
                "Invalid DNS label type: 0x"@ + text::hex_byte(label_type)
            },
            ParseFault::CompressionLoop { hops } => {
                "Compression pointer loop detected after "@ + text::decimal(hops as nat)
                    + " hops (max 255)"@
            },
            ParseFault::NameTooLong { length } => {
                "DNS name too long: "@ + text::decimal(length as nat) + " bytes exceeds 1025 limit"@
            },
            ParseFault::LabelTooLong { length } => {
                "DNS label too long: "@ + text::decimal(length as nat) + " bytes exceeds 63 limit"@
            },
            ParseFault::InvalidArpaName { reason } => "Invalid reverse DNS name: "@ + reason,
            ParseFault::MalformedPacket { reason } => "Malformed DNS packet: "@ + reason,
        }
    }

    /// The error as its variant with its fields. A reason stands in quotes as
    /// it is; those that this module gives hold nothing to be escaped.
    pub open spec fn debug_text(self) -> Seq<char> {
        match self {
            ParseFault::InvalidLength { expected, actual } => {
                "InvalidLength { expected: "@ + text::decimal(expected as nat) + ", actual: "@
                    + text::decimal(actual as nat) + " }"@
            },
            ParseFault::InvalidLabelType { label_type } => {
                "InvalidLabelType { label_type: "@ + text::decimal(label_type as nat) + " }"@
            },
            ParseFault::CompressionLoop { hops } => {
                "CompressionLoop { hops: "@ + text::decimal(hops as nat) + " }"@
            },
            ParseFault::NameTooLong { length } => {
                "NameTooLong { length: "@ + text::decimal(length as nat) + " }"@
            },
            ParseFault::LabelTooLong { length } => {
                "LabelTooLong { length: "@ + text::decimal(length as nat) + " }"@
            },
            ParseFault::InvalidArpaName { reason } => {
                "InvalidArpaName { reason: \""@ + reason + "\" }"@
            },
            ParseFault::MalformedPacket { reason } => {
                "MalformedPacket { reason: \""@ + reason + "\" }"@
            },
        }
    }
}

impl ParseError {
    /// The text of the error.
    pub fn to_string(&self) -> (r: String)
        ensures
            r@ == self@.message(),
    {
        let mut s: String = String::new();
        match self {
            ParseError::InvalidLength { expected, actual } => {
                s.append("Invalid packet length: expected at least ");
                push_decimal(&mut s, *expected as u64);
                s.append(" bytes, got ");
                push_decimal(&mut s, *actual as u64);
            },
            ParseError::InvalidLabelType { label_type } => {
                s.append("Invalid DNS label type: 0x");
                push_hex_byte(&mut s, *label_type);
            },
            ParseError::CompressionLoop { hops } => {
                s.append("Compression pointer loop detected after ");
                push_decimal(&mut s, *hops as u64);
                s.append(" hops (max 255)");
            },
            ParseError::NameTooLong { length } => {
                s.append("DNS name too long: ");
                push_decimal(&mut s, *length as u64);
                s.append(" bytes exceeds 1025 limit");
            },
            ParseError::LabelTooLong { length } => {
                s.append("DNS label too long: ");
                push_decimal(&mut s, *length as u64);
                s.append(" bytes exceeds 63 limit");
            },
            ParseError::InvalidArpaName { reason } => {
                s.append("Invalid reverse DNS name: ");
                s.append(reason.as_str());
            },
            ParseError::MalformedPacket { reason } => {
                s.append("Malformed DNS packet: ");
                s.append(reason.as_str());
            },
        }
        assert(s@ =~= self@.message());
        s
    }

    /// The error as its variant with its fields.
    pub fn debug_text(&self) -> (r: String)
        ensures
            r@ == self@.debug_text(),
    {
        let mut s: String = String::new();
        match self {
            ParseError::InvalidLength { expected, actual } => {
                s.append("InvalidLength { expected: ");
                push_decimal(&mut s, *expected as u64);
                s.append(", actual: ");
                push_decimal(&mut s, *actual as u64);
                s.append(" }");
            },
            ParseError::InvalidLabelType { label_type } => {
                s.append("InvalidLabelType { label_type: ");
                push_decimal(&mut s, *label_type as u64);
                s.append(" }");
            },
            ParseError::CompressionLoop { hops } => {
                s.append("CompressionLoop { hops: ");
                push_decimal(&mut s, *hops as u64);
                s.append(" }");
            },
            ParseError::NameTooLong { length } => {
                s.append("NameTooLong { length: ");
                push_decimal(&mut s, *length as u64);
                s.append(" }");
            },
            ParseError::LabelTooLong { length } => {
                s.append("LabelTooLong { length: ");
                push_decimal(&mut s, *length as u64);
                s.append(" }");
            },
            ParseError::InvalidArpaName { reason } => {
                s.append("InvalidArpaName { reason: \"");
                s.append(reason.as_str());
                s.append("\" }");
            },
            ParseError::MalformedPacket { reason } => {
                s.append("MalformedPacket { reason: \"");
                s.append(reason.as_str());
                s.append("\" }");
            },
        }
        assert(s@ =~= self@.debug_text());
        s
    }
}

/// Pointers gone through while one name is read, and where to go on after it.
struct CompressionState {
    hops: usize,
    return_position: Option<usize>,
}

impl CompressionState {
    fn new() -> (r: Self)
        ensures
            r.hops == 0,
            r.return_position is None,
    {
        CompressionState { hops: 0, return_position: None }
    }

    /// Counts one more pointer.
    fn add_hop(&mut self) -> (r: Result<(), ParseError>)
        requires
            old(self).hops <= 255,
        ensures
            final(self).hops == old(self).hops + 1,
            final(self).return_position == old(self).return_position,
            match r {
                Ok(_) => final(self).hops <= 255,
                Err(e) => final(self).hops > 255 && e@ == (ParseFault::CompressionLoop {
                    hops: final(self).hops,
                }),
            },
    {
        self.hops = self.hops + 1;
        if self.hops > MAX_COMPRESSION_HOPS {
            return Err(ParseError::CompressionLoop { hops: self.hops });
        }
        Ok(())
    }

    /// Keeps the first position that it is given.
    fn set_return_position(&mut self, pos: usize)
        ensures
            final(self).hops == old(self).hops,
            final(self).return_position == (match old(self).return_position {
                Some(p) => Some(p),
                None => Some(pos),
            }),
    {
        if self.return_position.is_none() {
            self.return_position = Some(pos);
        }
    }
}

/// Whether `input` is what `packet` ends with. A slice of a message that is
/// handed to the functions below is always of this form.
pub open spec fn is_tail(input: Seq<u8>, packet: Seq<u8>) -> bool {
    input.len() <= packet.len() && input == packet.skip(packet.len() - input.len())
}

/// The characters with the codes of the bytes.
pub open spec fn latin1(bytes: Seq<u8>) -> Seq<char> {
    Seq::new(bytes.len(), |i: int| bytes[i] as char)
}

/// The first byte of a label that the text of a name cannot hold: a zero or a
/// dot.
pub open spec fn forbidden_byte(label: Seq<u8>) -> Option<u8>
    decreases label.len(),
{
    if label.len() == 0 {
        None
    } else if label[0] == 0 || label[0] == 46 {
        Some(label[0])
    } else {
        forbidden_byte(label.drop_first())
    }
}

/// Reads a name at `pos`. `name` was read before, `hops` pointers were gone
/// through, and `back` is where the name ends in the message if a pointer was
/// met. The result is the position after the name, and its text.
pub open spec fn read_name(
    packet: Seq<u8>,
    pos: int,
    name: Seq<char>,
    hops: nat,
    back: Option<int>,
) -> Result<(int, Seq<char>), ParseFault>
    decreases 256 - hops, packet.len() - pos,
{
    if pos >= packet.len() {
        Err(
            ParseFault::InvalidLength {
                expected: text::as_size(pos + 1),
                actual: packet.len() as usize,
            },
        )
    } else {
        let byte = packet[pos];
        match compression::label_type_of(byte) {
            LabelType::Normal => {
                let end = pos + 1 + byte;
                if byte == 0 {
                    Ok(
                        (
                            match back {
                                Some(b) => b,
                                None => pos + 1,
                            },
                            compression::without_final_dot(name),
                        ),
                    )
                } else if text::utf8_len(name) + byte + 1 > MAXDNAME {
                    Err(
                        ParseFault::NameTooLong {
                            length: text::as_size(text::utf8_len(name) + byte + 1),
                        },
                    )
                } else if end > packet.len() {
                    Err(
                        ParseFault::InvalidLength {
                            expected: text::as_size(end),
                            actual: packet.len() as usize,
                        },
                    )
                } else {
                    let label = packet.subrange(pos + 1, end);
                    match forbidden_byte(label) {
                        Some(b) => Err(
                            ParseFault::MalformedPacket {
                                reason: "Invalid character in label: 0x"@ + text::hex_byte(b),
                            },
                        ),
                        None => read_name(
                            packet,
                            end,
                            (name + latin1(label)).push('.'),
                            hops,
                            back,
                        ),
                    }
                }
            },
            LabelType::Pointer => {
                if hops + 1 > 255 {
                    Err(ParseFault::CompressionLoop { hops: (hops + 1) as usize })
                } else if pos + 1 >= packet.len() {
                    Err(
                        ParseFault::InvalidLength {
                            expected: text::as_size(pos + 2),
                            actual: packet.len() as usize,
                        },
                    )
                } else {
                    let target = compression::pointer_offset(byte, packet[pos + 1]);
                    if target >= packet.len() {
                        Err(
                            ParseFault::InvalidLength {
                                expected: (target + 1) as usize,
                                actual: packet.len() as usize,
                            },
                        )
                    } else {
                        read_name(
                            packet,
                            target as int,
                            name,
                            hops + 1,
                            match back {
                                Some(b) => Some(b),
                                None => Some(pos + 2),
                            },
                        )
                    }
                }
            },
            _ => Err(ParseFault::InvalidLabelType { label_type: byte }),
        }
    }
}

/// The name at `pos`, and the position after it.
pub open spec fn name_at(packet: Seq<u8>, pos: int) -> Result<(int, Seq<char>), ParseFault> {
    read_name(packet, pos, Seq::empty(), 0, None)
}

/// The position after the name at `pos`; pointers are not followed.
pub open spec fn name_end(packet: Seq<u8>, pos: int) -> Result<int, ParseFault>
    decreases packet.len() - pos,
{
    if pos >= packet.len() {
        Err(
            ParseFault::InvalidLength {
                expected: text::as_size(pos + 1),
                actual: packet.len() as usize,
            },
        )
    } else {
        let byte = packet[pos];
        match compression::label_type_of(byte) {
            LabelType::Normal => {
                if byte == 0 {
                    Ok(pos + 1)
                } else if pos + 1 + byte > packet.len() {
                    Err(
                        ParseFault::InvalidLength {
                            expected: text::as_size(pos + 1 + byte),
                            actual: packet.len() as usize,
                        },
                    )
                } else {
                    name_end(packet, pos + 1 + byte)
                }
            },
            LabelType::Pointer => {
                if pos + 1 >= packet.len() {
                    Err(
                        ParseFault::InvalidLength {
                            expected: text::as_size(pos + 2),
                            actual: packet.len() as usize,
                        },
                    )
                } else {
                    Ok(pos + 2)
                }
            },
            _ => Err(ParseFault::InvalidLabelType { label_type: byte }),
        }
    }
}

/// Where `need` more bytes after `pos` end.
pub open spec fn after_bytes(packet: Seq<u8>, pos: int, need: int) -> Result<int, ParseFault> {
    if packet.len() - pos < need {
        Err(
            ParseFault::InvalidLength {
                expected: need as usize,
                actual: (packet.len() - pos) as usize,
            },
        )
    } else {
        Ok(pos + need)
    }
}

/// The position after one question at `pos`.
pub open spec fn question_end(packet: Seq<u8>, pos: int) -> Result<int, ParseFault> {
    match name_end(packet, pos) {
        Ok(p) => after_bytes(packet, p, 4),
        Err(e) => Err(e),
    }
}

/// The position after `count` questions.
pub open spec fn questions_end(packet: Seq<u8>, pos: int, count: nat) -> Result<int, ParseFault>
    decreases count,
{
    if count == 0 {
        Ok(pos)
    } else {
        match question_end(packet, pos) {
            Ok(p) => questions_end(packet, p, (count - 1) as nat),
            Err(e) => Err(e),
        }
    }
}

/// One resource record as it stands in a message.
pub struct RecordSpan {
    /// Position of the type.
    pub fixed: int,
    /// Position of the data.
    pub data: int,
    /// Position after the data.
    pub end: int,
}

/// The record at `pos`.
pub open spec fn record_span(packet: Seq<u8>, pos: int) -> Result<RecordSpan, ParseFault> {
    match name_end(packet, pos) {
        Err(e) => Err(e),
        Ok(fixed) => match after_bytes(packet, fixed, 8) {
            Err(e) => Err(e),
            Ok(length_at) => match after_bytes(packet, length_at, 2) {
                Err(e) => Err(e),
                Ok(data) => match after_bytes(
                    packet,
                    data,
                    wire::be16(packet, length_at) as int,
                ) {
                    Err(e) => Err(e),
                    Ok(end) => Ok(RecordSpan { fixed, data, end }),
                },
            },
        },
    }
}

/// The position after `count` records.
pub open spec fn section_end(packet: Seq<u8>, pos: int, count: nat) -> Result<int, ParseFault>
    decreases count,
{
    if count == 0 {
        Ok(pos)
    } else {
        match record_span(packet, pos) {
            Ok(span) => section_end(packet, span.end, (count - 1) as nat),
            Err(e) => Err(e),
        }
    }
}

/// The address that a record holds: four bytes of an A record or sixteen of an
/// AAAA record of the Internet class.
pub open spec fn record_address(packet: Seq<u8>, span: RecordSpan) -> Option<IpAddr> {
    let data = packet.subrange(span.data, span.end);
    if wire::be16(packet, span.fixed + 2) != C_IN {
        None
    } else if wire::be16(packet, span.fixed) == T_A && data.len() == 4 {
        Some(IpAddr::V4(Ipv4Addr { bits: wire::be32(data, 0) }))
    } else if wire::be16(packet, span.fixed) == T_AAAA && data.len() == 16 {
        Some(IpAddr::V6(Ipv6Addr { bits: wire::be_value(data) as u128 }))
    } else {
        None
    }
}

/// The addresses in `count` records, after those in `found`, and the position
/// after the records.
pub open spec fn addresses_in(
    packet: Seq<u8>,
    pos: int,
    count: nat,
    found: Seq<IpAddr>,
) -> Result<(int, Seq<IpAddr>), ParseFault>
    decreases count,
{
    if count == 0 {
        Ok((pos, found))
    } else {
        match record_span(packet, pos) {
            Err(e) => Err(e),
            Ok(span) => addresses_in(
                packet,
                span.end,
                (count - 1) as nat,
                match record_address(packet, span) {
                    Some(a) => found.push(a),
                    None => found,
                },
            ),
        }
    }
}

/// The question of a standard query: name, type and class.
pub open spec fn request_of(packet: Seq<u8>) -> Result<(Seq<char>, u16, u16), ParseFault> {
    if packet.len() < 12 {
        Err(ParseFault::InvalidLength { expected: 12, actual: packet.len() as usize })
    } else if wire::be16(packet, 4) != 1 {
        Err(
            ParseFault::MalformedPacket {
                reason: "Expected exactly 1 question, got "@ + text::decimal(
                    wire::be16(packet, 4) as nat,
                ),
            },
        )
    } else if packet[2] / 8 % 16 != 0 {
        Err(
            ParseFault::MalformedPacket {
                reason: "Expected QUERY opcode (0), got "@ + text::decimal(
                    (packet[2] / 8 % 16) as nat,
                ),
            },
        )
    } else if packet[2] < 128 && (wire::be16(packet, 6) != 0 || wire::be16(packet, 8) != 0) {
        Err(
            ParseFault::MalformedPacket {
                reason: "Query packet should not have answers or authority records"@,
            },
        )
    } else {
        match name_at(packet, 12) {
            Err(e) => Err(e),
            Ok((p, name)) => match after_bytes(packet, p, 4) {
                Err(e) => Err(e),
                Ok(_) => Ok((name, wire::be16(packet, p), wire::be16(packet, p + 2))),
            },
        }
    }
}

/// Reads the name that `input` starts with. Gives the bytes after it and its
/// text, in which dots separate the labels.
pub fn extract_name<'a>(packet: &'a [u8], input: &'a [u8]) -> (r: Result<
    (&'a [u8], String),
    ParseError,
>)
    requires
        is_tail(input@, packet@),
    ensures
        match r {
            Ok((rest, name)) => is_tail(rest@, packet@) && name_at(
                packet@,
                packet@.len() - input@.len(),
            ) == Ok::<(int, Seq<char>), ParseFault>((packet@.len() - rest@.len(), name@)),
            Err(e) => name_at(packet@, packet@.len() - input@.len()) == Err::<
                (int, Seq<char>),
                ParseFault,
            >(e@),
        },
{
    let packet_len: usize = packet.len();
    let start: usize = packet_len - input.len();
    let mut name: String = String::new();
    let mut state = CompressionState::new();
    let mut current_pos: usize = start;
    let ghost outcome = name_at(packet@, start as int);
    loop
        invariant
            packet_len == packet@.len(),
            state.hops <= 255,
            state.hops == 0 <==> state.return_position is None,
            state.return_position matches Some(p) ==> p <= packet_len,
            start == packet@.len() - input@.len(),
            outcome == name_at(packet@, start as int),
            outcome == read_name(
                packet@,
                current_pos as int,
                name@,
                state.hops as nat,
                match state.return_position {
                    Some(p) => Some(p as int),
                    None => None,
                },
            ),
        decreases 256 - state.hops, packet@.len() - current_pos,
    {
        if current_pos >= packet_len {
            return Err(
                ParseError::InvalidLength {
                    expected: current_pos.saturating_add(1),
                    actual: packet_len,
                },
            );
        }
        let label_byte = packet[current_pos];
        match LabelType::from_byte(label_byte) {
            LabelType::Normal => {
                let label_len: usize = label_byte as usize;
                if label_len == 0 {
                    let end: usize = match state.return_position {
                        Some(p) => p,
                        None => current_pos + 1,
                    };
                    let rest = slice_subrange(packet, end, packet_len);
                    assert(rest@ =~= packet@.skip(end as int));
                    return Ok((rest, drop_final_dot(name)));
                }
                let total: usize = name.as_str().as_bytes().len().saturating_add(label_len + 1);
                if total > MAXDNAME {
                    return Err(ParseError::NameTooLong { length: total });
                }
                if label_len > packet_len - current_pos - 1 {
                    return Err(
                        ParseError::InvalidLength {
                            expected: (current_pos + 1).saturating_add(label_len),
                            actual: packet_len,
                        },
                    );
                }
                let label = slice_subrange(packet, current_pos + 1, current_pos + 1 + label_len);
                match push_label(&mut name, label) {
                    Some(byte) => {
                        let mut reason: String = String::new();
                        reason.append("Invalid character in label: 0x");
                        push_hex_byte(&mut reason, byte);
                        assert(reason@ =~= "Invalid character in label: 0x"@ + text::hex_byte(
                            byte,
                        ));
                        return Err(ParseError::MalformedPacket { reason });
                    },
                    None => {},
                }
                name.push('.');
                current_pos = current_pos + 1 + label_len;
            },
            LabelType::Pointer => {
                match state.add_hop() {
                    Ok(_) => {},
                    Err(e) => {
                        return Err(e);
                    },
                }
                if packet_len - current_pos <= 1 {
                    return Err(
                        ParseError::InvalidLength {
                            expected: current_pos.saturating_add(2),
                            actual: packet_len,
                        },
                    );
                }
                if state.hops == 1 {
                    state.set_return_position(current_pos + 2);
                }
                let offset: usize = decode_compression_pointer(
                    packet[current_pos],
                    packet[current_pos + 1],
                ) as usize;
                if offset >= packet_len {
                    return Err(
                        ParseError::InvalidLength { expected: offset + 1, actual: packet_len },
                    );
                }
                current_pos = offset;
            },
            _ => {
                return Err(ParseError::InvalidLabelType { label_type: label_byte });
            },
        }
    }
}

/// Appends a label to a name, up to the first byte that a name cannot hold,
/// which is returned.
fn push_label(name: &mut String, label: &[u8]) -> (r: Option<u8>)
    ensures
        r == forbidden_byte(label@),
        r is None ==> final(name)@ == old(name)@ + latin1(label@),
{
    let mut i: usize = 0;
    assert(label@.skip(0) =~= label@);
    while i < label.len()
        invariant
            i <= label@.len(),
            forbidden_byte(label@) == forbidden_byte(label@.skip(i as int)),
            name@ == old(name)@ + latin1(label@.take(i as int)),
        decreases label@.len() - i,
    {
        let byte = label[i];
        assert(label@.skip(i as int).drop_first() =~= label@.skip(i + 1));
        if byte == 0 || byte == 46 {
            return Some(byte);
        }
        name.push(byte as char);
        i = i + 1;
        assert(name@ =~= old(name)@ + latin1(label@.take(i as int)));
    }
    assert(label@.take(i as int) =~= label@);
    None
}

/// Gives the bytes after the name that `input` starts with.
pub fn skip_name<'a>(packet: &'a [u8], input: &'a [u8]) -> (r: Result<&'a [u8], ParseError>)
    requires
        is_tail(input@, packet@),
    ensures
        match r {
            Ok(rest) => is_tail(rest@, packet@) && name_end(packet@, packet@.len() - input@.len())
                == Ok::<int, ParseFault>(packet@.len() - rest@.len()),
            Err(e) => name_end(packet@, packet@.len() - input@.len()) == Err::<int, ParseFault>(e@),
        },
{
    let packet_len: usize = packet.len();
    let start: usize = packet_len - input.len();
    let mut current_pos: usize = start;
    let ghost outcome = name_end(packet@, start as int);
    loop
        invariant
            packet_len == packet@.len(),
            start == packet@.len() - input@.len(),
            outcome == name_end(packet@, start as int),
            outcome == name_end(packet@, current_pos as int),
        decreases packet@.len() - current_pos,
    {
        if current_pos >= packet_len {
            return Err(
                ParseError::InvalidLength {
                    expected: current_pos.saturating_add(1),
                    actual: packet_len,
                },
            );
        }
        let label_byte = packet[current_pos];
        match LabelType::from_byte(label_byte) {
            LabelType::Normal => {
                let label_len: usize = label_byte as usize;
                if label_len == 0 {
                    let rest = slice_subrange(packet, current_pos + 1, packet_len);
                    assert(rest@ =~= packet@.skip(current_pos + 1));
                    return Ok(rest);
                }
                if label_len > packet_len - current_pos - 1 {
                    return Err(
                        ParseError::InvalidLength {
                            expected: (current_pos + 1).saturating_add(label_len),
                            actual: packet_len,
                        },
                    );
                }
                current_pos = current_pos + 1 + label_len;
            },
            LabelType::Pointer => {
                if packet_len - current_pos <= 1 {
                    return Err(
                        ParseError::InvalidLength {
                            expected: current_pos.saturating_add(2),
                            actual: packet_len,
                        },
                    );
                }
                let rest = slice_subrange(packet, current_pos + 2, packet_len);
                assert(rest@ =~= packet@.skip(current_pos + 2));
                return Ok(rest);
            },
            _ => {
                return Err(ParseError::InvalidLabelType { label_type: label_byte });
            },
        }
    }
}

/// Gives what follows the first `need` bytes of `input`.
fn advance<'a>(packet: &'a [u8], input: &'a [u8], need: usize) -> (r: Result<&'a [u8], ParseError>)
    requires
        is_tail(input@, packet@),
    ensures
        match r {
            Ok(rest) => is_tail(rest@, packet@) && after_bytes(
                packet@,
                packet@.len() - input@.len(),
                need as int,
            ) == Ok::<int, ParseFault>(packet@.len() - rest@.len()) && rest@.len() + need
                == input@.len(),
            Err(e) => after_bytes(packet@, packet@.len() - input@.len(), need as int) == Err::<
                int,
                ParseFault,
            >(e@),
        },
{
    if input.len() < need {
        return Err(ParseError::InvalidLength { expected: need, actual: input.len() });
    }
    let rest = slice_subrange(input, need, input.len());
    assert(rest@ =~= packet@.skip(packet@.len() - rest@.len()));
    Ok(rest)
}

/// Gives the bytes after `qdcount` questions.
pub fn skip_questions<'a>(packet: &'a [u8], input: &'a [u8], qdcount: u16) -> (r: Result<
    &'a [u8],
    ParseError,
>)
    requires
        is_tail(input@, packet@),
    ensures
        match r {
            Ok(rest) => is_tail(rest@, packet@) && questions_end(
                packet@,
                packet@.len() - input@.len(),
                qdcount as nat,
            ) == Ok::<int, ParseFault>(packet@.len() - rest@.len()),
            Err(e) => questions_end(packet@, packet@.len() - input@.len(), qdcount as nat)
                == Err::<int, ParseFault>(e@),
        },
{
    let mut input_left = input;
    let mut left: u16 = qdcount;
    while left > 0
        invariant
            is_tail(input_left@, packet@),
            questions_end(packet@, packet@.len() - input@.len(), qdcount as nat) == questions_end(
                packet@,
                packet@.len() - input_left@.len(),
                left as nat,
            ),
        decreases left,
    {
        match skip_name(packet, input_left) {
            Ok(rest) => {
                input_left = rest;
            },
            Err(e) => {
                return Err(e);
            },
        }
        match advance(packet, input_left, 4) {
            Ok(rest) => {
                input_left = rest;
            },
            Err(e) => {
                return Err(e);
            },
        }
        left = left - 1;
    }
    Ok(input_left)
}

/// One record that was walked over: its fixed part, its data and what follows.
pub(crate) struct RecordParts<'a> {
    pub(crate) fixed: &'a [u8],
    pub(crate) data: &'a [u8],
    pub(crate) rest: &'a [u8],
}

/// Takes the record that `input` starts with apart.
pub(crate) fn take_record<'a>(packet: &'a [u8], input: &'a [u8]) -> (r: Result<
    RecordParts<'a>,
    ParseError,
>)
    requires
        is_tail(input@, packet@),
    ensures
        match r {
            Ok(parts) => {
                &&& is_tail(parts.fixed@, packet@)
                &&& is_tail(parts.rest@, packet@)
                &&& record_span(packet@, packet@.len() - input@.len()) matches Ok(span)
                &&& span.fixed == packet@.len() - parts.fixed@.len()
                &&& span.end == packet@.len() - parts.rest@.len()
                &&& 0 <= span.fixed
                &&& span.fixed + 10 == span.data <= span.end <= packet@.len()
                &&& parts.data@ == packet@.subrange(span.data, span.end)
            },
            Err(e) => record_span(packet@, packet@.len() - input@.len()) == Err::<
                RecordSpan,
                ParseFault,
            >(e@),
        },
{
    let fixed = match skip_name(packet, input) {
        Ok(rest) => rest,
        Err(e) => {
            return Err(e);
        },
    };
    let length_at = match advance(packet, fixed, 8) {
        Ok(rest) => rest,
        Err(e) => {
            return Err(e);
        },
    };
    let data = match advance(packet, length_at, 2) {
        Ok(rest) => rest,
        Err(e) => {
            return Err(e);
        },
    };
    let rdlength: usize = read_u16(length_at, 0) as usize;
    assert(rdlength == wire::be16(packet@, packet@.len() - length_at@.len()));
    let rest = match advance(packet, data, rdlength) {
        Ok(rest) => rest,
        Err(e) => {
            return Err(e);
        },
    };
    let record_data = slice_subrange(data, 0, rdlength);
    assert(record_data@ =~= packet@.subrange(
        packet@.len() - data@.len(),
        packet@.len() - rest@.len(),
    ));
    Ok(RecordParts { fixed, data: record_data, rest })
}

/// Gives the bytes after `count` records.
pub fn skip_section<'a>(packet: &'a [u8], input: &'a [u8], count: u16) -> (r: Result<
    &'a [u8],
    ParseError,
>)
    requires
        is_tail(input@, packet@),
    ensures
        match r {
            Ok(rest) => is_tail(rest@, packet@) && section_end(
                packet@,
                packet@.len() - input@.len(),
                count as nat,
            ) == Ok::<int, ParseFault>(packet@.len() - rest@.len()),
            Err(e) => section_end(packet@, packet@.len() - input@.len(), count as nat) == Err::<
                int,
                ParseFault,
            >(e@),
        },
{
    let mut input_left = input;
    let mut left: u16 = count;
    while left > 0
        invariant
            is_tail(input_left@, packet@),
            section_end(packet@, packet@.len() - input@.len(), count as nat) == section_end(
                packet@,
                packet@.len() - input_left@.len(),
                left as nat,
            ),
        decreases left,
    {
        match take_record(packet, input_left) {
            Ok(parts) => {
                input_left = parts.rest;
            },
            Err(e) => {
                return Err(e);
            },
        }
        left = left - 1;
    }
    Ok(input_left)
}

/// Collects the addresses in the next `ancount` records, and gives the bytes
/// after them.
pub fn extract_addresses<'a>(packet: &'a [u8], input: &'a [u8], ancount: u16) -> (r: Result<
    (&'a [u8], Vec<IpAddr>),
    ParseError,
>)
    requires
        is_tail(input@, packet@),
    ensures
        match r {
            Ok((rest, addresses)) => is_tail(rest@, packet@) && addresses_in(
                packet@,
                packet@.len() - input@.len(),
                ancount as nat,
                Seq::empty(),
            ) == Ok::<(int, Seq<IpAddr>), ParseFault>(
                (packet@.len() - rest@.len(), addresses@),
            ),
            Err(e) => addresses_in(
                packet@,
                packet@.len() - input@.len(),
                ancount as nat,
                Seq::empty(),
            ) == Err::<(int, Seq<IpAddr>), ParseFault>(e@),
        },
{
    let mut addresses: Vec<IpAddr> = Vec::new();
    let mut input_left = input;
    let mut left: u16 = ancount;
    while left > 0
        invariant
            is_tail(input_left@, packet@),
            addresses_in(
                packet@,
                packet@.len() - input@.len(),
                ancount as nat,
                Seq::empty(),
            ) == addresses_in(
                packet@,
                packet@.len() - input_left@.len(),
                left as nat,
                addresses@,
            ),
        decreases left,
    {
        match take_record(packet, input_left) {
            Ok(parts) => {
                let rr_type: u16 = read_u16(parts.fixed, 0);
                let rr_class: u16 = read_u16(parts.fixed, 2);
                let data = parts.data;
                if rr_class == C_IN {
                    if rr_type == T_A && data.len() == 4 {
                        assert(data@.subrange(0, 4) =~= data@);
                        addresses.push(IpAddr::V4(Ipv4Addr::read(data, 0)));
                    } else if rr_type == T_AAAA && data.len() == 16 {
                        assert(data@.subrange(0, 16) =~= data@);
                        addresses.push(IpAddr::V6(Ipv6Addr::read(data, 0)));
                    }
                }
                input_left = parts.rest;
            },
            Err(e) => {
                return Err(e);
            },
        }
        left = left - 1;
    }
    Ok((input_left, addresses))
}

/// The question of a standard query, which must be its only one.
pub fn extract_request(packet: &[u8]) -> (r: Result<(String, u16, u16), ParseError>)
    ensures
        match r {
            Ok((name, qtype, qclass)) => request_of(packet@) == Ok::<
                (Seq<char>, u16, u16),
                ParseFault,
            >((name@, qtype, qclass)),
            Err(e) => request_of(packet@) == Err::<(Seq<char>, u16, u16), ParseFault>(e@),
        },
{
    if packet.len() < 12 {
        return Err(ParseError::InvalidLength { expected: 12, actual: packet.len() });
    }
    let qdcount: u16 = read_u16(packet, 4);
    let ancount: u16 = read_u16(packet, 6);
    let nscount: u16 = read_u16(packet, 8);
    let is_reply: bool = packet[2] >= 128;
    let opcode: u8 = packet[2] / 8 % 16;
    if qdcount != 1 {
        let mut reason: String = String::new();
        reason.append("Expected exactly 1 question, got ");
        push_decimal(&mut reason, qdcount as u64);
        assert(reason@ =~= "Expected exactly 1 question, got "@ + text::decimal(qdcount as nat));
        return Err(ParseError::MalformedPacket { reason });
    }
    if opcode != 0 {
        let mut reason: String = String::new();
        reason.append("Expected QUERY opcode (0), got ");
        push_decimal(&mut reason, opcode as u64);
        assert(reason@ =~= "Expected QUERY opcode (0), got "@ + text::decimal(opcode as nat));
        return Err(ParseError::MalformedPacket { reason });
    }
    if !is_reply && (ancount != 0 || nscount != 0) {
        return Err(
            ParseError::MalformedPacket {
                reason: "Query packet should not have answers or authority records".to_owned(),
            },
        );
    }
    let input = slice_subrange(packet, 12, packet.len());
    assert(input@ =~= packet@.skip(12));
    let (rest, name) = match extract_name(packet, input) {
        Ok(found) => found,
        Err(e) => {
            return Err(e);
        },
    };
    match advance(packet, rest, 4) {
        Ok(_) => {},
        Err(e) => {
            return Err(e);
        },
    }
    let qtype: u16 = read_u16(rest, 0);
    let qclass: u16 = read_u16(rest, 2);
    assert(qtype == wire::be16(packet@, packet@.len() - rest@.len()));
    assert(qclass == wire::be16(packet@, packet@.len() - rest@.len() + 2));
    Ok((name, qtype, qclass))
}

/// A name that can be skipped ends behind its start and within the message.
pub proof fn lemma_name_advance(packet: Seq<u8>, pos: int)
    requires
        0 <= pos,
    ensures
        name_end(packet, pos) matches Ok(end) ==> pos < end <= packet.len(),
    decreases packet.len() - pos,
{
    if pos < packet.len() {
        let byte = packet[pos];
        if compression::label_type_of(byte) is Normal && byte > 0 && pos + 1 + byte
            <= packet.len() {
            lemma_name_advance(packet, pos + 1 + byte);
        }
    }
}

/// Questions that can be skipped end not before their start.
pub proof fn lemma_questions_advance(packet: Seq<u8>, pos: int, count: nat)
    requires
        0 <= pos <= packet.len(),
    ensures
        questions_end(packet, pos, count) matches Ok(end) ==> pos <= end <= packet.len(),
    decreases count,
{
    if count > 0 {
        lemma_name_advance(packet, pos);
        if let Ok(p) = question_end(packet, pos) {
            lemma_questions_advance(packet, p, (count - 1) as nat);
        }
    }
}

/// Records that can be skipped end not before their start.
pub proof fn lemma_section_advance(packet: Seq<u8>, pos: int, count: nat)
    requires
        0 <= pos <= packet.len(),
    ensures
        section_end(packet, pos, count) matches Ok(end) ==> pos <= end <= packet.len(),
    decreases count,
{
    if count > 0 {
        lemma_name_advance(packet, pos);
        if let Ok(span) = record_span(packet, pos) {
            lemma_section_advance(packet, span.end, (count - 1) as nat);
        }
    }
}

/// A name that is not that of a reverse lookup.
pub open spec fn arpa_fault(reason: Seq<char>) -> ParseFault {
    ParseFault::InvalidArpaName { reason }
}

/// The byte that a label of an `in-addr.arpa` name stands for.
pub open spec fn octet_label(label: Seq<char>) -> Result<u8, ParseFault> {
    if !text::all_digits(label) {
        Err(arpa_fault("Non-digit component: "@ + label))
    } else if label.len() == 0 || text::decimal_value(label) > 255 {
        Err(arpa_fault("Invalid octet value: "@ + label))
    } else {
        Ok(text::decimal_value(label) as u8)
    }
}

/// The bytes that the labels stand for; the first label that stands for none
/// decides the error.
pub open spec fn octet_labels(labels: Seq<Seq<char>>) -> Result<Seq<u8>, ParseFault>
    decreases labels.len(),
{
    if labels.len() == 0 {
        Ok(Seq::empty())
    } else {
        match octet_labels(labels.drop_last()) {
            Err(e) => Err(e),
            Ok(octets) => match octet_label(labels.last()) {
                Err(e) => Err(e),
                Ok(octet) => Ok(octets.push(octet)),
            },
        }
    }
}

/// The address whose bytes are given last first. Only the first four count,
/// and those that are missing at the end of the address are zero.
pub open spec fn reversed_ipv4(octets: Seq<u8>) -> Seq<u8> {
    let used = if octets.len() < 4 {
        octets
    } else {
        octets.take(4)
    };
    Seq::new(
        4,
        |k: int|
            if k < used.len() {
                used[used.len() - 1 - k]
            } else {
                0u8
            },
    )
}

/// The hexadecimal digit that a label of an `ip6.arpa` name stands for.
pub open spec fn nibble_label(label: Seq<char>) -> Result<u8, ParseFault> {
    if text::utf8_len(label) != 1 {
        Err(arpa_fault("Invalid nibble: "@ + label))
    } else {
        match text::hex_value(label[0]) {
            None => Err(arpa_fault("Non-hex nibble: "@ + seq![label[0]])),
            Some(v) => Ok(v as u8),
        }
    }
}

/// The digits that the labels stand for.
pub open spec fn nibble_labels(labels: Seq<Seq<char>>) -> Result<Seq<u8>, ParseFault>
    decreases labels.len(),
{
    if labels.len() == 0 {
        Ok(Seq::empty())
    } else {
        match nibble_labels(labels.drop_last()) {
            Err(e) => Err(e),
            Ok(nibbles) => match nibble_label(labels.last()) {
                Err(e) => Err(e),
                Ok(nibble) => Ok(nibbles.push(nibble)),
            },
        }
    }
}

/// The number whose hexadecimal digits are given, least significant first.
pub open spec fn nibbles_value(nibbles: Seq<u8>) -> nat
    decreases nibbles.len(),
{
    if nibbles.len() == 0 {
        0
    } else {
        nibbles[0] as nat + 16 * nibbles_value(nibbles.drop_first())
    }
}

/// The byte that two characters stand for in hexadecimal. A plus sign may take
/// the place of the first digit.
pub open spec fn hex_pair(t: Seq<char>) -> Option<int> {
    if t.len() != 2 {
        None
    } else {
        match (text::hex_value(t[0]), text::hex_value(t[1])) {
            (Some(high), Some(low)) => Some(high * 16 + low),
            (None, Some(low)) => if t[0] == '+' {
                Some(low)
            } else {
                None
            },
            _ => None,
        }
    }
}

/// The first `count` bytes that a row of hexadecimal digits stands for.
pub open spec fn hex_row(digits: Seq<u8>, count: nat) -> Result<Seq<u8>, ParseFault>
    decreases count,
{
    if count == 0 {
        Ok(Seq::empty())
    } else {
        match hex_row(digits, (count - 1) as nat) {
            Err(e) => Err(e),
            Ok(bytes) => {
                let pair = digits.subrange(2 * count - 2, 2 * count as int);
                if !valid_utf8(pair) {
                    Err(arpa_fault("Invalid UTF-8 in hex string"@))
                } else {
                    match hex_pair(decode_utf8(pair)) {
                        None => Err(arpa_fault("Invalid hex digit: "@ + decode_utf8(pair))),
                        Some(v) => Ok(bytes.push(v as u8)),
                    }
                }
            },
        }
    }
}

/// Whether a label starts like a bit string.
pub open spec fn starts_bitstring(label: Seq<char>) -> bool {
    label.len() >= 3 && label[0] == '\\' && label[1] == '[' && label[2] == 'x'
}

/// The address that a bit-string label of the form `\[xDIGITS/128]` stands
/// for.
pub open spec fn bitstring_addr(label: Seq<char>) -> Result<IpAddr, ParseFault> {
    if !starts_bitstring(label) || label.last() != ']' {
        Err(arpa_fault("Invalid bitstring format"@))
    } else {
        let digits = text::split(label.skip(3), '/')[0];
        if text::utf8_len(digits) != 32 {
            Err(
                arpa_fault(
                    "Bitstring must be 32 hex digits, got "@ + text::decimal(
                        text::utf8_len(digits),
                    ),
                ),
            )
        } else {
            match hex_row(encode_utf8(digits), 16) {
                Err(e) => Err(e),
                Ok(bytes) => Ok(IpAddr::V6(Ipv6Addr { bits: wire::be_value(bytes) as u128 })),
            }
        }
    }
}

/// The address that the labels before `in-addr.arpa` stand for.
pub open spec fn ipv4_arpa_addr(labels: Seq<Seq<char>>) -> Result<IpAddr, ParseFault> {
    match octet_labels(labels) {
        Err(e) => Err(e),
        Ok(octets) => Ok(IpAddr::V4(Ipv4Addr { bits: wire::be32(reversed_ipv4(octets), 0) })),
    }
}

/// The address that the labels before `ip6.arpa` stand for.
pub open spec fn ipv6_arpa_addr(labels: Seq<Seq<char>>) -> Result<IpAddr, ParseFault> {
    if labels.len() == 1 && starts_bitstring(labels[0]) {
        bitstring_addr(labels[0])
    } else if labels.len() != 32 {
        Err(
            arpa_fault(
                "IPv6 nibble format requires exactly 32 labels, got "@ + text::decimal(
                    labels.len(),
                ),
            ),
        )
    } else {
        match nibble_labels(labels) {
            Err(e) => Err(e),
            Ok(nibbles) => Ok(IpAddr::V6(Ipv6Addr { bits: nibbles_value(nibbles) as u128 })),
        }
    }
}

/// The address that a name asks about in a reverse lookup.
pub open spec fn arpa_addr(name: Seq<char>) -> Result<IpAddr, ParseFault> {
    if text::utf8_len(name) > MAXARPANAME {
        Err(
            arpa_fault("Name too long: "@ + text::decimal(text::utf8_len(name)) + " > 75"@),
        )
    } else {
        let labels = text::split(name, '.');
        if labels.len() < 3 {
            Err(arpa_fault("Insufficient labels"@))
        } else {
            let top = text::lower(labels[labels.len() - 1]);
            let second = text::lower(labels[labels.len() - 2]);
            let rest = labels.take(labels.len() - 2);
            if second == text::lower("in-addr"@) && top == text::lower("arpa"@) {
                ipv4_arpa_addr(rest)
            } else if second == text::lower("ip6"@) && (top == text::lower("arpa"@) || top
                == text::lower("int"@)) {
                ipv6_arpa_addr(rest)
            } else {
                Err(arpa_fault("Not a valid in-addr.arpa or ip6.arpa name"@))
            }
        }
    }
}

/// The error with a reason made of a fixed text and a variable one.
fn arpa_error(what: &str, detail: &str) -> (r: ParseError)
    ensures
        r@ == arpa_fault(what@ + detail@),
{
    let mut reason: String = String::new();
    reason.append(what);
    reason.append(detail);
    assert(reason@ =~= what@ + detail@);
    ParseError::InvalidArpaName { reason }
}

/// The error with a reason made of a fixed text and a number.
fn arpa_error_number(what: &str, n: usize) -> (r: ParseError)
    ensures
        r@ == arpa_fault(what@ + text::decimal(n as nat)),
{
    let mut reason: String = String::new();
    reason.append(what);
    push_decimal(&mut reason, n as u64);
    assert(reason@ =~= what@ + text::decimal(n as nat));
    ParseError::InvalidArpaName { reason }
}

/// The address that a name such as `4.3.2.1.in-addr.arpa` asks about.
pub fn in_arpa_name_2_addr(name: &str) -> (r: Result<IpAddr, ParseError>)
    ensures
        match r {
            Ok(addr) => arpa_addr(name@) == Ok::<IpAddr, ParseFault>(addr),
            Err(e) => arpa_addr(name@) == Err::<IpAddr, ParseFault>(e@),
        },
{
    let name_len: usize = name.as_bytes().len();
    if name_len > MAXARPANAME {
        let mut reason: String = String::new();
        reason.append("Name too long: ");
        push_decimal(&mut reason, name_len as u64);
        reason.append(" > 75");
        assert(reason@ =~= "Name too long: "@ + text::decimal(text::utf8_len(name@)) + " > 75"@);
        return Err(ParseError::InvalidArpaName { reason });
    }
    let labels = split_text(name, '.');
    let ghost all = text::texts(labels@);
    if labels.len() < 3 {
        return Err(ParseError::InvalidArpaName { reason: "Insufficient labels".to_owned() });
    }
    let count: usize = labels.len() - 2;
    let top = labels[labels.len() - 1].as_str();
    let second = labels[count].as_str();
    if eq_ignore_case(second, "in-addr") && eq_ignore_case(top, "arpa") {
        return parse_ipv4_arpa(&labels, count);
    }
    if eq_ignore_case(second, "ip6") && (eq_ignore_case(top, "arpa") || eq_ignore_case(
        top,
        "int",
    )) {
        return parse_ipv6_arpa(&labels, count);
    }
    Err(
        ParseError::InvalidArpaName {
            reason: "Not a valid in-addr.arpa or ip6.arpa name".to_owned(),
        },
    )
}

/// The address that the first `count` labels stand for, last byte first.
fn parse_ipv4_arpa(labels: &Vec<String>, count: usize) -> (r: Result<IpAddr, ParseError>)
    requires
        count <= labels@.len(),
    ensures
        match r {
            Ok(addr) => ipv4_arpa_addr(text::texts(labels@).take(count as int)) == Ok::<
                IpAddr,
                ParseFault,
            >(addr),
            Err(e) => ipv4_arpa_addr(text::texts(labels@).take(count as int)) == Err::<
                IpAddr,
                ParseFault,
            >(e@),
        },
{
    let ghost all = text::texts(labels@).take(count as int);
    let mut octets: Vec<u8> = Vec::new();
    let mut i: usize = 0;
    assert(all.take(0) =~= Seq::<Seq<char>>::empty());
    while i < count
        invariant
            i <= count <= labels@.len(),
            all == text::texts(labels@).take(count as int),
            octet_labels(all.take(i as int)) == Ok::<Seq<u8>, ParseFault>(octets@),
        decreases count - i,
    {
        let label = labels[i].as_str();
        proof {
            assert(all.take(i + 1).drop_last() =~= all.take(i as int));
            assert(all.take(i + 1).last() == label@);
            lemma_first_octet_fault(all, (i + 1) as nat);
        }
        if !only_digits(label) {
            return Err(arpa_error("Non-digit component: ", label));
        }
        proof {
            if label@.len() > 0 {
                assert(text::is_digit(label@[0]));
            }
        }
        match parse_number(label, 255) {
            Some(octet) => {
                octets.push(octet as u8);
            },
            None => {
                return Err(arpa_error("Invalid octet value: ", label));
            },
        }
        i = i + 1;
    }
    assert(all.take(count as int) =~= all);
    let n: usize = octets.len();
    let a: u8 = if n >= 4 {
        octets[3]
    } else if n > 0 {
        octets[n - 1]
    } else {
        0
    };
    let b: u8 = if n >= 4 {
        octets[2]
    } else if n > 1 {
        octets[n - 2]
    } else {
        0
    };
    let c: u8 = if n >= 4 {
        octets[1]
    } else if n > 2 {
        octets[n - 3]
    } else {
        0
    };
    let d: u8 = if n >= 4 {
        octets[0]
    } else {
        0
    };
    assert(seq![a, b, c, d] =~= reversed_ipv4(octets@));
    Ok(IpAddr::V4(Ipv4Addr::new(a, b, c, d)))
}

/// Whether a text holds nothing but decimal digits.
fn only_digits(s: &str) -> (r: bool)
    ensures
        r == text::all_digits(s@),
{
    let chars = to_chars(s);
    let mut i: usize = 0;
    while i < chars.len()
        invariant
            i <= chars@.len(),
            chars@ == s@,
            forall|k: int| 0 <= k < i ==> text::is_digit(#[trigger] s@[k]),
        decreases chars@.len() - i,
    {
        if !('0' <= chars[i] && chars[i] <= '9') {
            assert(!text::is_digit(s@[i as int]));
            return false;
        }
        i = i + 1;
    }
    true
}

/// The first faulty label decides what is wrong with all of them.
proof fn lemma_first_octet_fault(labels: Seq<Seq<char>>, n: nat)
    requires
        n <= labels.len(),
    ensures
        octet_labels(labels.take(n as int)) matches Err(e) ==> octet_labels(labels) == Err::<
            Seq<u8>,
            ParseFault,
        >(e),
    decreases labels.len() - n,
{
    if n == labels.len() {
        assert(labels.take(n as int) =~= labels);
    } else {
        assert(labels.take((n + 1) as int).drop_last() =~= labels.take(n as int));
        lemma_first_octet_fault(labels, n + 1);
    }
}

/// The first faulty label decides what is wrong with all of them.
proof fn lemma_first_nibble_fault(labels: Seq<Seq<char>>, n: nat)
    requires
        n <= labels.len(),
    ensures
        nibble_labels(labels.take(n as int)) matches Err(e) ==> nibble_labels(labels) == Err::<
            Seq<u8>,
            ParseFault,
        >(e),
    decreases labels.len() - n,
{
    if n == labels.len() {
        assert(labels.take(n as int) =~= labels);
    } else {
        assert(labels.take((n + 1) as int).drop_last() =~= labels.take(n as int));
        lemma_first_nibble_fault(labels, n + 1);
    }
}

/// The first faulty pair of digits decides what is wrong with the row.
proof fn lemma_first_hex_fault(digits: Seq<u8>, n: nat, count: nat)
    requires
        n <= count,
    ensures
        hex_row(digits, n) matches Err(e) ==> hex_row(digits, count) == Err::<Seq<u8>, ParseFault>(
            e,
        ),
    decreases count - n,
{
    if n < count {
        lemma_first_hex_fault(digits, n + 1, count);
    }
}

/// The value of a hexadecimal digit of either case.
fn hex_digit_value(c: char) -> (r: Option<u8>)
    ensures
        match r {
            Some(v) => text::hex_value(c) == Some(v as int) && v < 16,
            None => text::hex_value(c) is None,
        },
{
    if '0' <= c && c <= '9' {
        Some(c as u8 - 48)
    } else if 'a' <= c && c <= 'f' {
        Some(c as u8 - 87)
    } else if 'A' <= c && c <= 'F' {
        Some(c as u8 - 55)
    } else {
        None
    }
}

/// Whether a label starts like a bit string.
fn is_bitstring_start(label: &Vec<char>) -> (r: bool)
    ensures
        r == starts_bitstring(label@),
{
    label.len() >= 3 && label[0] == '\\' && label[1] == '[' && label[2] == 'x'
}

/// The address that the first `count` labels stand for, as thirty-two
/// hexadecimal digits or as one bit string.
fn parse_ipv6_arpa(labels: &Vec<String>, count: usize) -> (r: Result<IpAddr, ParseError>)
    requires
        count <= labels@.len(),
    ensures
        match r {
            Ok(addr) => ipv6_arpa_addr(text::texts(labels@).take(count as int)) == Ok::<
                IpAddr,
                ParseFault,
            >(addr),
            Err(e) => ipv6_arpa_addr(text::texts(labels@).take(count as int)) == Err::<
                IpAddr,
                ParseFault,
            >(e@),
        },
{
    let ghost all = text::texts(labels@).take(count as int);
    if count == 1 && is_bitstring_start(&to_chars(labels[0].as_str())) {
        return parse_ipv6_bitstring(labels[0].as_str());
    }
    if count != 32 {
        return Err(
            arpa_error_number("IPv6 nibble format requires exactly 32 labels, got ", count),
        );
    }
    let mut nibbles: Vec<u8> = Vec::new();
    let mut i: usize = 0;
    assert(all.take(0) =~= Seq::<Seq<char>>::empty());
    while i < count
        invariant
            i <= count == 32 <= labels@.len(),
            all == text::texts(labels@).take(count as int),
            nibbles@.len() == i,
            forall|k: int| 0 <= k < i ==> (#[trigger] nibbles@[k]) < 16,
            nibble_labels(all.take(i as int)) == Ok::<Seq<u8>, ParseFault>(nibbles@),
        decreases count - i,
    {
        let label = labels[i].as_str();
        proof {
            assert(all.take(i + 1).drop_last() =~= all.take(i as int));
            assert(all.take(i + 1).last() == label@);
            lemma_first_nibble_fault(all, (i + 1) as nat);
        }
        if label.as_bytes().len() != 1 {
            return Err(arpa_error("Invalid nibble: ", label));
        }
        let chars = to_chars(label);
        let c: char = chars[0];
        match hex_digit_value(c) {
            Some(v) => {
                nibbles.push(v);
            },
            None => {
                let mut reason: String = String::new();
                reason.append("Non-hex nibble: ");
                reason.push(c);
                assert(reason@ =~= "Non-hex nibble: "@ + seq![c]);
                return Err(ParseError::InvalidArpaName { reason });
            },
        }
        i = i + 1;
    }
    assert(all.take(count as int) =~= all);
    let mut bits: u128 = 0;
    let mut k: usize = 32;
    assert(nibbles@.skip(32) =~= Seq::<u8>::empty());
    while k > 0
        invariant
            k <= 32,
            nibbles@.len() == 32,
            forall|j: int| 0 <= j < 32 ==> (#[trigger] nibbles@[j]) < 16,
            bits == nibbles_value(nibbles@.skip(k as int)),
        decreases k,
    {
        let ghost next = nibbles@.skip(k - 1);
        k = k - 1;
        proof {
            assert(next.drop_first() =~= nibbles@.skip(k + 1));
            assert(next[0] == nibbles@[k as int]);
            lemma_nibbles_bound(next);
        }
        bits = bits * 16 + (nibbles[k] as u128);
    }
    assert(nibbles@.skip(0) =~= nibbles@);
    Ok(IpAddr::V6(Ipv6Addr { bits }))
}

/// Thirty-two hexadecimal digits or fewer stand for a number that fits.
proof fn lemma_nibbles_bound(nibbles: Seq<u8>)
    requires
        nibbles.len() <= 32,
        forall|j: int| 0 <= j < nibbles.len() ==> (#[trigger] nibbles[j]) < 16,
    ensures
        nibbles_value(nibbles) <= u128::MAX,
{
    lemma_nibbles_below_pow(nibbles);
    vstd::arithmetic::power::lemma_pow_increases(16, nibbles.len(), 32);
    assert(vstd::arithmetic::power::pow(16, 32) == u128::MAX + 1) by {
        reveal(vstd::arithmetic::power::pow);
        reveal_with_fuel(vstd::arithmetic::power::pow, 33);
    }
}

proof fn lemma_nibbles_below_pow(nibbles: Seq<u8>)
    requires
        forall|j: int| 0 <= j < nibbles.len() ==> (#[trigger] nibbles[j]) < 16,
    ensures
        nibbles_value(nibbles) < vstd::arithmetic::power::pow(16, nibbles.len()),
    decreases nibbles.len(),
{
    if nibbles.len() == 0 {
        vstd::arithmetic::power::lemma_pow0(16);
    } else {
        lemma_nibbles_below_pow(nibbles.drop_first());
        assert(vstd::arithmetic::power::pow(16, nibbles.len())
            == 16 * vstd::arithmetic::power::pow(16, (nibbles.len() - 1) as nat)) by {
            reveal(vstd::arithmetic::power::pow);
        }
    }
}

/// The address that a bit-string label stands for.
fn parse_ipv6_bitstring(label: &str) -> (r: Result<IpAddr, ParseError>)
    ensures
        match r {
            Ok(addr) => bitstring_addr(label@) == Ok::<IpAddr, ParseFault>(addr),
            Err(e) => bitstring_addr(label@) == Err::<IpAddr, ParseFault>(e@),
        },
{
    let chars = to_chars(label);
    if !is_bitstring_start(&chars) || chars[chars.len() - 1] != ']' {
        return Err(ParseError::InvalidArpaName { reason: "Invalid bitstring format".to_owned() });
    }
    let tail = text::from_chars(&chars, 3, chars.len());
    assert(tail@ =~= label@.skip(3));
    let pieces = split_text(tail.as_str(), '/');
    let ghost split_pieces = text::texts(pieces@);
    let digits = pieces[0].as_str();
    assert(digits@ == split_pieces[0]);
    let row = digits.as_bytes();
    if row.len() != 32 {
        return Err(arpa_error_number("Bitstring must be 32 hex digits, got ", row.len()));
    }
    let mut bytes: Vec<u8> = Vec::new();
    let mut i: usize = 0;
    while i < 16
        invariant
            i <= 16,
            row@.len() == 32,
            row@ == encode_utf8(digits@),
            bytes@.len() == i,
            hex_row(row@, i as nat) == Ok::<Seq<u8>, ParseFault>(bytes@),
            starts_bitstring(label@),
            label@.last() == ']',
            digits@ == text::split(label@.skip(3), '/')[0],
        decreases 16 - i,
    {
        let pair = slice_subrange(row, 2 * i, 2 * i + 2);
        proof {
            lemma_first_hex_fault(row@, (i + 1) as nat, 16);
        }
        let two = match text_from_utf8(pair) {
            Some(t) => t,
            None => {
                return Err(
                    ParseError::InvalidArpaName {
                        reason: "Invalid UTF-8 in hex string".to_owned(),
                    },
                );
            },
        };
        match parse_hex_pair(two.as_str()) {
            Some(v) => {
                bytes.push(v);
            },
            None => {
                return Err(arpa_error("Invalid hex digit: ", two.as_str()));
            },
        }
        i = i + 1;
    }
    assert(bytes@.subrange(0, 16) =~= bytes@);
    Ok(IpAddr::V6(Ipv6Addr::read(bytes.as_slice(), 0)))
}

/// The byte that two characters stand for in hexadecimal.
fn parse_hex_pair(s: &str) -> (r: Option<u8>)
    ensures
        match r {
            Some(v) => hex_pair(s@) == Some(v as int),
            None => hex_pair(s@) is None,
        },
{
    let chars = to_chars(s);
    if chars.len() != 2 {
        return None;
    }
    match (hex_digit_value(chars[0]), hex_digit_value(chars[1])) {
        (Some(high), Some(low)) => Some(high * 16 + low),
        (None, Some(low)) => if chars[0] == '+' {
            Some(low)
        } else {
            None
        },
        _ => None,
    }
}

/// Once a pointer was met, a name ends where that pointer ends.
proof fn lemma_end_after_pointer(
    packet: Seq<u8>,
    pos: int,
    name: Seq<char>,
    hops: nat,
    back: int,
)
    requires
        0 <= pos,
    ensures
        read_name(packet, pos, name, hops, Some(back)) matches Ok(r) ==> r.0 == back,
    decreases 256 - hops, packet.len() - pos,
{
    if pos < packet.len() {
        let byte = packet[pos];
        match compression::label_type_of(byte) {
            LabelType::Normal => {
                let end = pos + 1 + byte;
                if byte > 0 && end <= packet.len() {
                    let label = packet.subrange(pos + 1, end);
                    lemma_end_after_pointer(
                        packet,
                        end,
                        (name + latin1(label)).push('.'),
                        hops,
                        back,
                    );
                }
            },
            LabelType::Pointer => {
                if hops + 1 <= 255 && pos + 1 < packet.len() {
                    let target = compression::pointer_offset(byte, packet[pos + 1]) as int;
                    lemma_end_after_pointer(packet, target, name, hops + 1, back);
                }
            },
            _ => {},
        }
    }
}

/// Reading a name and skipping it lead to the same place, whether or not the
/// name is compressed.
pub proof fn law_extract_and_skip_agree(packet: Seq<u8>, pos: int)
    requires
        0 <= pos <= packet.len(),
    ensures
        name_at(packet, pos) matches Ok(r) ==> name_end(packet, pos) == Ok::<int, ParseFault>(r.0),
{
    lemma_same_end(packet, pos, Seq::empty());
}

proof fn lemma_same_end(packet: Seq<u8>, pos: int, name: Seq<char>)
    requires
        0 <= pos <= packet.len(),
    ensures
        read_name(packet, pos, name, 0, None) matches Ok(r) ==> name_end(packet, pos) == Ok::<
            int,
            ParseFault,
        >(r.0),
    decreases packet.len() - pos,
{
    if pos < packet.len() {
        let byte = packet[pos];
        match compression::label_type_of(byte) {
            LabelType::Normal => {
                let end = pos + 1 + byte;
                if byte > 0 && end <= packet.len() {
                    let label = packet.subrange(pos + 1, end);
                    lemma_same_end(packet, end, (name + latin1(label)).push('.'));
                }
            },
            LabelType::Pointer => {
                if pos + 1 < packet.len() {
                    let target = compression::pointer_offset(byte, packet[pos + 1]) as int;
                    lemma_end_after_pointer(packet, target, name, 1, pos + 2);
                }
            },
            _ => {},
        }
    }
}

} // verus!
