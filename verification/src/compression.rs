//! Name compression: pointers, the table of names already written, and the
//! reading of a possibly compressed name.

use crate::protocol::{HEADER_LEN, MAXDNAME, MAXLABEL};
use crate::text::{
    self, from_chars, join_from, push_decimal, push_hex_byte, split_text, text_from_utf8_lossy, to_chars,
};
use std::collections::HashSet;
use vstd::hash_map::StringHashMap;
use vstd::prelude::*;
use vstd::utf8::*;

verus! {

broadcast use vstd::std_specs::hash::group_hash_axioms;

/// The two bits that mark a pointer.
pub const COMPRESSION_POINTER_FLAG: u8 = 0xC0;

/// The bits of a pointer that hold the offset; also the largest offset.
pub const COMPRESSION_OFFSET_MASK: u16 = 0x3FFF;

/// How many pointers a name may go through.
pub const MAX_COMPRESSION_HOPS: usize = 255;

/// Why a name cannot be compressed or read.
#[derive(Debug, Clone, Copy, PartialEq, Eq, Structural)]
pub enum CompressionError {
    /// A pointer is reached for the second time.
    CyclicPointer { offset: usize },
    /// The two top bits of a length byte are neither those of a label nor
    /// those of a pointer.
    InvalidLabelType { label_type: u8 },
    /// The name goes through too many pointers.
    ExceededMaxHops { hops: usize },
    /// An offset lies beyond the bytes that it may reach.
    OffsetOutOfBounds { offset: usize, packet_len: usize },
    /// The name is too long.
    NameTooLong { length: usize },
    /// A label is too long.
    LabelTooLong { length: usize },
}

impl CompressionError {
    /// The text of the error.
    pub open spec fn message(self) -> Seq<char> {
        match self {
            CompressionError::CyclicPointer { offset } => {
                "Cyclic compression pointer detected at offset "@ + text::decimal(
                    offset as nat,
                )
            },
            CompressionError::InvalidLabelType { label_type } => {
                "Invalid DNS label type: 0x"@ + text::hex_byte(label_type)
            },
            CompressionError::ExceededMaxHops { hops } => {
                "Exceeded maximum compression hops: "@ + text::decimal(hops as nat)
                    + " > 255"@
            },
            CompressionError::OffsetOutOfBounds { offset, packet_len } => {
                "Compression pointer offset "@ + text::decimal(offset as nat)
                    + " exceeds packet length "@ + text::decimal(packet_len as nat)
            },
            CompressionError::NameTooLong { length } => {
                "Decompressed name length "@ + text::decimal(length as nat)
                    + " exceeds MAXDNAME 1025"@
            },
            CompressionError::LabelTooLong { length } => {
                "Label length "@ + text::decimal(length as nat) + " exceeds MAXLABEL 63"@
            },
        }
    }

    /// The text of the error.
    pub fn to_string(&self) -> (r: String)
        ensures
            r@ == self.message(),
    {
        let mut s: String = String::new();
        match self {
            CompressionError::CyclicPointer { offset } => {
                s.append("Cyclic compression pointer detected at offset ");
                push_decimal(&mut s, *offset as u64);
            },
            CompressionError::InvalidLabelType { label_type } => {
                s.append("Invalid DNS label type: 0x");
                push_hex_byte(&mut s, *label_type);
            },
            CompressionError::ExceededMaxHops { hops } => {
                s.append("Exceeded maximum compression hops: ");
                push_decimal(&mut s, *hops as u64);
                s.append(" > 255");
            },
            CompressionError::OffsetOutOfBounds { offset, packet_len } => {
                s.append("Compression pointer offset ");
                push_decimal(&mut s, *offset as u64);
                s.append(" exceeds packet length ");
                push_decimal(&mut s, *packet_len as u64);
            },
            CompressionError::NameTooLong { length } => {
                s.append("Decompressed name length ");
                push_decimal(&mut s, *length as u64);
                s.append(" exceeds MAXDNAME 1025");
            },
            CompressionError::LabelTooLong { length } => {
                s.append("Label length ");
                push_decimal(&mut s, *length as u64);
                s.append(" exceeds MAXLABEL 63");
            },
        }
        assert(s@ =~= self.message());
        s
    }
}

/// What the two top bits of a length byte announce.
#[derive(Debug, Clone, Copy, PartialEq, Eq, Structural)]
pub enum LabelType {
    Normal,
    Pointer,
    Extended,
    Reserved,
}

/// The kind of label that a length byte announces.
pub open spec fn label_type_of(byte: u8) -> LabelType {
    if byte < 0x40 {
        LabelType::Normal
    } else if byte < 0x80 {
        LabelType::Extended
    } else if byte < 0xC0 {
        LabelType::Reserved
    } else {
        LabelType::Pointer
    }
}

impl LabelType {
    /// The kind of label that a length byte announces.
    #[must_use]
    pub fn from_byte(byte: u8) -> (r: Self)
        ensures
            r == label_type_of(byte),
    {
        if byte < 0x40 {
            LabelType::Normal
        } else if byte < 0x80 {
            LabelType::Extended
        } else if byte < 0xC0 {
            LabelType::Reserved
        } else {
            LabelType::Pointer
        }
    }

    /// Whether a name may hold such a label.
    #[must_use]
    pub fn is_valid(&self) -> (r: bool)
        ensures
            r == (*self is Normal || *self is Pointer),
    {
        match self {
            LabelType::Normal => true,
            LabelType::Pointer => true,
            _ => false,
        }
    }
}

/// The offset that the two bytes of a pointer hold.
pub open spec fn pointer_offset(byte1: u8, byte2: u8) -> u16 {
    ((byte1 % 64) * 256 + byte2) as u16
}

/// The two bytes of a pointer to `offset`.
pub open spec fn pointer_bytes(offset: u16) -> Seq<u8> {
    seq![(0xC0 + offset / 256) as u8, (offset % 256) as u8]
}

/// The offset that the two bytes of a pointer hold.
#[must_use]
pub fn decode_compression_pointer(byte1: u8, byte2: u8) -> (r: u16)
    ensures
        r == pointer_offset(byte1, byte2),
        r <= COMPRESSION_OFFSET_MASK,
{
    ((byte1 % 64) as u16) * 256 + (byte2 as u16)
}

/// The two bytes of a pointer; an error if the offset needs more than
/// fourteen bits.
pub fn encode_compression_pointer(offset: u16) -> (r: Result<[u8; 2], CompressionError>)
    ensures
        match r {
            Ok(bytes) => offset <= COMPRESSION_OFFSET_MASK && bytes@ == pointer_bytes(offset),
            Err(e) => offset > COMPRESSION_OFFSET_MASK && e == (
            CompressionError::OffsetOutOfBounds {
                offset: offset as usize,
                packet_len: COMPRESSION_OFFSET_MASK as usize,
            }),
        },
{
    if offset > COMPRESSION_OFFSET_MASK {
        return Err(
            CompressionError::OffsetOutOfBounds {
                offset: offset as usize,
                packet_len: COMPRESSION_OFFSET_MASK as usize,
            },
        );
    }
    let byte1: u8 = COMPRESSION_POINTER_FLAG + ((offset / 256) as u8);
    let byte2: u8 = (offset % 256) as u8;
    let bytes = [byte1, byte2];
    assert(bytes@ =~= pointer_bytes(offset));
    Ok(bytes)
}

/// A pointer reads back as the offset that it was made for, and its first
/// byte announces a pointer.
pub proof fn law_pointer_round_trip(offset: u16)
    requires
        offset <= COMPRESSION_OFFSET_MASK,
    ensures
        pointer_offset(pointer_bytes(offset)[0], pointer_bytes(offset)[1]) == offset,
        label_type_of(pointer_bytes(offset)[0]) is Pointer,
{
}

/// The bytes that labels take on the wire, each with its length byte.
pub open spec fn labels_wire_len(parts: Seq<Seq<char>>) -> nat
    decreases parts.len(),
{
    if parts.len() == 0 {
        0
    } else {
        text::utf8_len(parts[0]) + 1 + labels_wire_len(parts.drop_first())
    }
}

/// The table after a name with these labels was written at `offset`: every
/// suffix that is not empty is entered with its own offset, unless it already
/// has one.
pub open spec fn record_suffixes(
    table: Map<Seq<char>, u16>,
    parts: Seq<Seq<char>>,
    offset: int,
) -> Map<Seq<char>, u16>
    decreases parts.len(),
{
    if parts.len() == 0 {
        table
    } else {
        let suffix = text::join(parts, '.');
        let next = if suffix.len() > 0 && !table.contains_key(suffix) {
            table.insert(suffix, offset as u16)
        } else {
            table
        };
        record_suffixes(
            next,
            parts.drop_first(),
            offset + text::utf8_len(parts[0]) + 1,
        )
    }
}

/// The offset of the longest suffix of at least two labels that is in the
/// table.
pub open spec fn longest_suffix(table: Map<Seq<char>, u16>, parts: Seq<Seq<char>>) -> Option<u16>
    decreases parts.len(),
{
    if parts.len() < 2 {
        None
    } else if table.contains_key(text::join(parts, '.')) {
        Some(table[text::join(parts, '.')])
    } else {
        longest_suffix(table, parts.drop_first())
    }
}

/// Where a name can point to: its own offset, or that of its longest proper
/// suffix of at least two labels.
pub open spec fn suffix_offset(table: Map<Seq<char>, u16>, name: Seq<char>) -> Option<u16> {
    if table.contains_key(name) {
        Some(table[name])
    } else {
        longest_suffix(table, text::split(name, '.').drop_first())
    }
}

/// A text without the dot that it may end with.
pub open spec fn without_final_dot(s: Seq<char>) -> Seq<char> {
    if s.len() > 0 && s.last() == '.' {
        s.drop_last()
    } else {
        s
    }
}

/// What comes of a pointer at `own` that does not lead backward, to `target`.
/// Further pointers are looked at from `offset` on to tell a cycle and an
/// overlong chain apart from a plain forward pointer.
pub open spec fn chase(
    packet: Seq<u8>,
    offset: int,
    visited: Set<usize>,
    hops: nat,
    target: usize,
    own: usize,
) -> CompressionError
    decreases 256 - hops,
{
    if offset + 1 >= packet.len() || !(label_type_of(packet[offset]) is Pointer) {
        CompressionError::OffsetOutOfBounds { offset: target, packet_len: own }
    } else if visited.contains(offset as usize) {
        CompressionError::CyclicPointer { offset: offset as usize }
    } else if hops + 1 > 255 {
        CompressionError::ExceededMaxHops { hops: (hops + 1) as usize }
    } else {
        chase(
            packet,
            pointer_offset(packet[offset], packet[offset + 1]) as int,
            visited.insert(offset as usize),
            hops + 1,
            target,
            own,
        )
    }
}

/// The name that is read from `offset` on, where `text` and `length` were read
/// before and the pointers in `visited` were followed.
pub open spec fn follow(
    packet: Seq<u8>,
    offset: int,
    text: Seq<char>,
    length: nat,
    visited: Set<usize>,
    hops: nat,
) -> Result<Seq<char>, CompressionError>
    decreases 256 - hops, packet.len() - offset,
{
    if offset >= packet.len() {
        Err(
            CompressionError::OffsetOutOfBounds {
                offset: text::as_size(offset),
                packet_len: packet.len() as usize,
            },
        )
    } else {
        let byte = packet[offset];
        if byte == 0 {
            Ok(without_final_dot(text))
        } else {
            match label_type_of(byte) {
                LabelType::Normal => {
                    let end = offset + 1 + byte;
                    if end > packet.len() {
                        Err(
                            CompressionError::OffsetOutOfBounds {
                                offset: text::as_size(end),
                                packet_len: packet.len() as usize,
                            },
                        )
                    } else if length + byte + 1 >= MAXDNAME {
                        Err(CompressionError::NameTooLong { length: (length + byte + 1) as usize })
                    } else {
                        follow(
                            packet,
                            end,
                            (text + text::decoded(
                                packet.subrange(offset + 1, end),
                            )).push('.'),
                            length + byte as nat + 1,
                            visited,
                            hops,
                        )
                    }
                },
                LabelType::Pointer => {
                    if visited.contains(offset as usize) {
                        Err(CompressionError::CyclicPointer { offset: offset as usize })
                    } else if hops + 1 > 255 {
                        Err(CompressionError::ExceededMaxHops { hops: (hops + 1) as usize })
                    } else if offset + 1 >= packet.len() {
                        Err(
                            CompressionError::OffsetOutOfBounds {
                                offset: (offset + 1) as usize,
                                packet_len: packet.len() as usize,
                            },
                        )
                    } else {
                        let target = pointer_offset(byte, packet[offset + 1]);
                        let seen = visited.insert(offset as usize);
                        if target >= offset {
                            Err(
                                chase(
                                    packet,
                                    target as int,
                                    seen,
                                    hops + 1,
                                    target as usize,
                                    offset as usize,
                                ),
                            )
                        } else {
                            follow(packet, target as int, text, length, seen, hops + 1)
                        }
                    }
                },
                _ => if byte == 0x40 {
                    Err(CompressionError::LabelTooLong { length: 0x40 })
                } else {
                    Err(CompressionError::InvalidLabelType { label_type: byte })
                },
            }
        }
    }
}

/// Where labels from `pos` on end with a zero byte, if they do.
pub open spec fn labels_end(packet: Seq<u8>, pos: int) -> Option<int>
    decreases packet.len() - pos,
{
    if pos >= packet.len() {
        None
    } else if packet[pos] == 0 {
        Some(pos)
    } else if packet[pos] < 0x40 && pos + 1 + packet[pos] < packet.len() {
        labels_end(packet, pos + 1 + packet[pos])
    } else {
        None
    }
}

/// Where the name asked for at `start` begins. The zero byte that ends the
/// first name behind the header is passed over where another name comes next;
/// any other zero byte is a name of its own, the root.
pub open spec fn name_start(packet: Seq<u8>, start: int) -> int {
    if HEADER_LEN < start && start + 1 < packet.len() && packet[start] == 0 && packet[start + 1]
        != 0 && labels_end(packet, HEADER_LEN as int) == Some(start) {
        start + 1
    } else {
        start
    }
}

/// Where labels from `pos` on end with a zero byte, if they do.
pub fn find_labels_end(packet: &[u8], pos: usize) -> (r: Option<usize>)
    ensures
        match r {
            Some(end) => labels_end(packet@, pos as int) == Some(end as int) && pos <= end
                < packet@.len(),
            None => labels_end(packet@, pos as int) is None,
        },
{
    let mut at: usize = pos;
    while at < packet.len()
        invariant
            pos <= at,
            labels_end(packet@, pos as int) == labels_end(packet@, at as int),
        decreases packet@.len() - at,
    {
        let byte: usize = packet[at] as usize;
        if byte == 0 {
            return Some(at);
        }
        if byte >= 0x40 || byte >= packet.len() - at - 1 {
            return None;
        }
        at = at + 1 + byte;
    }
    None
}

/// The names already written to a message, with the offset of each.
pub struct CompressionContext {
    label_positions: StringHashMap<u16>,
}

impl View for CompressionContext {
    type V = Map<Seq<char>, u16>;

    closed spec fn view(&self) -> Map<Seq<char>, u16> {
        self.label_positions@
    }
}

impl CompressionContext {
    /// A context for an empty message.
    #[must_use]
    pub fn new() -> (r: Self)
        ensures
            r@ == Map::<Seq<char>, u16>::empty(),
    {
        CompressionContext { label_positions: StringHashMap::new() }
    }

    /// Enters a name that was written at `offset`, with all its suffixes.
    /// Nothing is entered, and `false` returned, where no pointer can reach
    /// `offset`.
    pub fn add_label(&mut self, name: String, offset: u16) -> (r: bool)
        requires
            offset <= COMPRESSION_OFFSET_MASK ==> offset + text::utf8_len(name@) + 1
                <= u16::MAX,
        ensures
            r == (offset <= COMPRESSION_OFFSET_MASK),
            final(self)@ == (if r {
                record_suffixes(old(self)@, text::split(name@, '.'), offset as int)
            } else {
                old(self)@
            }),
    {
        if offset > COMPRESSION_OFFSET_MASK {
            return false;
        }
        let parts = split_text(name.as_str(), '.');
        let ghost all = text::texts(parts@);
        let mut current_offset: u16 = offset;
        let mut i: usize = 0;
        proof {
            lemma_labels_wire_len(all);
            text::law_split_join(name@, '.');
            assert(all.skip(0) =~= all);
        }
        while i < parts.len()
            invariant
                i <= parts@.len(),
                all == text::texts(parts@),
                current_offset + labels_wire_len(all.skip(i as int)) <= u16::MAX,
                record_suffixes(self@, all.skip(i as int), current_offset as int)
                    == record_suffixes(old(self)@, all, offset as int),
            decreases parts@.len() - i,
        {
            let suffix = join_from(&parts, i, '.');
            assert(all.skip(i as int).drop_first() =~= all.skip(i + 1));
            assert(all.skip(i as int)[0] == parts@[i as int]@);
            if !suffix.as_str().is_empty() {
                if !self.label_positions.contains_key(suffix.as_str()) {
                    self.label_positions.insert(suffix, current_offset);
                }
            }
            current_offset = current_offset + (parts[i].as_str().as_bytes().len() as u16) + 1;
            i = i + 1;
        }
        assert(all.skip(i as int) =~= Seq::<Seq<char>>::empty());
        true
    }

    /// The offset that a name, or its longest known suffix, was written at. A
    /// last label alone counts only where it is the whole name.
    #[must_use]
    pub fn find_suffix(&self, name: &str) -> (r: Option<u16>)
        ensures
            r == suffix_offset(self@, name@),
    {
        match self.label_positions.get(name) {
            Some(offset) => {
                return Some(*offset);
            },
            None => {},
        }
        let parts = split_text(name, '.');
        let ghost all = text::texts(parts@);
        let mut i: usize = 1;
        assert(all.skip(1) =~= text::split(name@, '.').drop_first());
        while parts.len() - i > 1
            invariant
                1 <= i <= parts@.len(),
                all == text::texts(parts@),
                longest_suffix(self@, all.skip(i as int)) == suffix_offset(self@, name@),
            decreases parts@.len() - i,
        {
            let suffix = join_from(&parts, i, '.');
            assert(all.skip(i as int).drop_first() =~= all.skip(i + 1));
            match self.label_positions.get(suffix.as_str()) {
                Some(offset) => {
                    return Some(*offset);
                },
                None => {},
            }
            i = i + 1;
        }
        None
    }

    /// A pointer to a name or to its longest known suffix.
    pub fn create_pointer(&self, name: &str) -> (r: Option<Result<[u8; 2], CompressionError>>)
        ensures
            match suffix_offset(self@, name@) {
                None => r is None,
                Some(offset) => match r {
                    None => false,
                    Some(Ok(bytes)) => offset <= COMPRESSION_OFFSET_MASK && bytes@
                        == pointer_bytes(offset),
                    Some(Err(e)) => offset > COMPRESSION_OFFSET_MASK && e == (
                    CompressionError::OffsetOutOfBounds {
                        offset: offset as usize,
                        packet_len: COMPRESSION_OFFSET_MASK as usize,
                    }),
                },
            },
    {
        match self.find_suffix(name) {
            Some(offset) => Some(encode_compression_pointer(offset)),
            None => None,
        }
    }

    /// Reads the name at `start_offset`, going through pointers, which must
    /// lead backward.
    pub fn follow_pointer(&self, packet: &[u8], start_offset: usize) -> (r: Result<
        String,
        CompressionError,
    >)
        ensures
            match r {
                Ok(name) => follow(
                    packet@,
                    name_start(packet@, start_offset as int),
                    Seq::empty(),
                    0,
                    Set::empty(),
                    0,
                ) == Ok::<Seq<char>, CompressionError>(name@),
                Err(e) => follow(
                    packet@,
                    name_start(packet@, start_offset as int),
                    Seq::empty(),
                    0,
                    Set::empty(),
                    0,
                ) == Err::<Seq<char>, CompressionError>(e),
            },
    {
        let mut result: String = String::new();
        let mut offset: usize = start_offset;
        if HEADER_LEN < start_offset && start_offset < packet.len() && packet.len() - start_offset
            > 1 && packet[start_offset] == 0 && packet[start_offset + 1] != 0 {
            match find_labels_end(packet, HEADER_LEN) {
                Some(end) => {
                    if end == start_offset {
                        offset = start_offset + 1;
                    }
                },
                None => {},
            }
        }
        let mut visited: HashSet<usize> = HashSet::new();
        let mut hops: usize = 0;
        let mut length: usize = 0;
        let ghost outcome = follow(
            packet@,
            name_start(packet@, start_offset as int),
            Seq::empty(),
            0,
            Set::empty(),
            0,
        );
        loop
            invariant
                hops <= 255,
                length < MAXDNAME,
                outcome == follow(
                    packet@,
                    name_start(packet@, start_offset as int),
                    Seq::empty(),
                    0,
                    Set::empty(),
                    0,
                ),
                outcome == follow(
                    packet@,
                    offset as int,
                    result@,
                    length as nat,
                    visited@,
                    hops as nat,
                ),
            decreases 256 - hops, packet@.len() - offset,
        {
            if offset >= packet.len() {
                return Err(
                    CompressionError::OffsetOutOfBounds { offset, packet_len: packet.len() },
                );
            }
            let byte = packet[offset];
            if byte == 0 {
                return Ok(drop_final_dot(result));
            }
            match LabelType::from_byte(byte) {
                LabelType::Normal => {
                    let label_len: usize = byte as usize;
                    if label_len > packet.len() - offset - 1 {
                        return Err(
                            CompressionError::OffsetOutOfBounds {
                                offset: (offset + 1).saturating_add(label_len),
                                packet_len: packet.len(),
                            },
                        );
                    }
                    let label = text_from_utf8_lossy(
                        vstd::slice::slice_subrange(packet, offset + 1, offset + 1 + label_len),
                    );
                    length = length + label_len + 1;
                    if length >= MAXDNAME {
                        return Err(CompressionError::NameTooLong { length });
                    }
                    result.append(label.as_str());
                    result.push('.');
                    offset = offset + 1 + label_len;
                },
                LabelType::Pointer => {
                    if visited.contains(&offset) {
                        return Err(CompressionError::CyclicPointer { offset });
                    }
                    visited.insert(offset);
                    hops = hops + 1;
                    if hops > MAX_COMPRESSION_HOPS {
                        return Err(CompressionError::ExceededMaxHops { hops });
                    }
                    if packet.len() - offset <= 1 {
                        return Err(
                            CompressionError::OffsetOutOfBounds {
                                offset: offset + 1,
                                packet_len: packet.len(),
                            },
                        );
                    }
                    let target: usize = decode_compression_pointer(
                        packet[offset],
                        packet[offset + 1],
                    ) as usize;
                    if target >= offset {
                        return Err(chase_forward(packet, target, visited, hops, offset));
                    }
                    offset = target;
                },
                _ => {
                    if byte == 0x40 {
                        return Err(CompressionError::LabelTooLong { length: 0x40 });
                    }
                    return Err(CompressionError::InvalidLabelType { label_type: byte });
                },
            }
        }
    }

    /// Forgets all names.
    pub fn clear(&mut self)
        ensures
            final(self)@ == Map::<Seq<char>, u16>::empty(),
    {
        self.label_positions.clear();
    }
}

impl Default for CompressionContext {
    fn default() -> (r: Self)
        ensures
            r@ == Map::<Seq<char>, u16>::empty(),
    {
        CompressionContext::new()
    }
}

/// The text without the dot that it may end with.
pub(crate) fn drop_final_dot(s: String) -> (r: String)
    ensures
        r@ == without_final_dot(s@),
{
    let chars = to_chars(s.as_str());
    if chars.len() > 0 && chars[chars.len() - 1] == '.' {
        from_chars(&chars, 0, chars.len() - 1)
    } else {
        s
    }
}

/// Tells what is wrong with a pointer at `own` that leads to `target`, which
/// does not lie before it.
fn chase_forward(
    packet: &[u8],
    target: usize,
    visited: HashSet<usize>,
    hops: usize,
    own: usize,
) -> (r: CompressionError)
    requires
        hops <= 255,
    ensures
        r == chase(packet@, target as int, visited@, hops as nat, target, own),
{
    let mut offset: usize = target;
    let mut seen = visited;
    let mut count: usize = hops;
    loop
        invariant
            count <= 255,
            chase(packet@, target as int, visited@, hops as nat, target, own) == chase(
                packet@,
                offset as int,
                seen@,
                count as nat,
                target,
                own,
            ),
        decreases 256 - count,
    {
        if offset >= packet.len() || packet.len() - offset <= 1 {
            return CompressionError::OffsetOutOfBounds { offset: target, packet_len: own };
        }
        match LabelType::from_byte(packet[offset]) {
            LabelType::Pointer => {},
            _ => {
                return CompressionError::OffsetOutOfBounds { offset: target, packet_len: own };
            },
        }
        if seen.contains(&offset) {
            return CompressionError::CyclicPointer { offset };
        }
        seen.insert(offset);
        count = count + 1;
        if count > MAX_COMPRESSION_HOPS {
            return CompressionError::ExceededMaxHops { hops: count };
        }
        offset = decode_compression_pointer(packet[offset], packet[offset + 1]) as usize;
    }
}

/// The labels of a name take one byte more on the wire than the name has with
/// its dots.
proof fn lemma_labels_wire_len(parts: Seq<Seq<char>>)
    requires
        parts.len() >= 1,
    ensures
        labels_wire_len(parts) == text::utf8_len(text::join(parts, '.')) + 1,
    decreases parts.len(),
{
    if parts.len() == 1 {
        assert(parts.drop_first() =~= Seq::<Seq<char>>::empty());
        assert(labels_wire_len(parts.drop_first()) == 0);
    } else {
        let init = parts.drop_last();
        lemma_labels_wire_len(init);
        lemma_labels_wire_len_push(init, parts.last());
        assert(init.push(parts.last()) =~= parts);
        text::lemma_utf8_concat(
            text::join(init, '.').push('.'),
            parts.last(),
        );
        text::lemma_utf8_concat(text::join(init, '.'), seq!['.']);
        text::lemma_utf8_ascii_char('.');
        assert(text::join(init, '.') + seq!['.'] =~= text::join(init, '.').push('.'));
    }
}

proof fn lemma_labels_wire_len_push(parts: Seq<Seq<char>>, part: Seq<char>)
    ensures
        labels_wire_len(parts.push(part)) == labels_wire_len(parts) + text::utf8_len(part)
            + 1,
    decreases parts.len(),
{
    if parts.len() == 0 {
        assert(parts.push(part).drop_first() =~= Seq::<Seq<char>>::empty());
        assert(labels_wire_len(parts.push(part).drop_first()) == 0);
    } else {
        lemma_labels_wire_len_push(parts.drop_first(), part);
        assert(parts.push(part).drop_first() =~= parts.drop_first().push(part));
    }
}

/// A name that is in the table keeps the offset of its first occurrence,
/// whatever is entered later.
pub proof fn law_first_occurrence_kept(
    table: Map<Seq<char>, u16>,
    parts: Seq<Seq<char>>,
    offset: int,
    name: Seq<char>,
)
    requires
        table.contains_key(name),
    ensures
        record_suffixes(table, parts, offset).contains_key(name),
        record_suffixes(table, parts, offset)[name] == table[name],
    decreases parts.len(),
{
    if parts.len() > 0 {
        let suffix = text::join(parts, '.');
        let next = if suffix.len() > 0 && !table.contains_key(suffix) {
            table.insert(suffix, offset as u16)
        } else {
            table
        };
        law_first_occurrence_kept(
            next,
            parts.drop_first(),
            offset + text::utf8_len(parts[0]) + 1,
            name,
        );
    }
}

/// A name that was just entered for the first time is found at its own
/// offset.
pub proof fn law_entered_name_is_found(
    table: Map<Seq<char>, u16>,
    name: Seq<char>,
    offset: u16,
)
    requires
        name.len() > 0,
        !table.contains_key(name),
    ensures
        suffix_offset(
            record_suffixes(table, text::split(name, '.'), offset as int),
            name,
        ) == Some(offset),
{
    let parts = text::split(name, '.');
    text::law_split_join(name, '.');
    law_first_occurrence_kept(
        table.insert(name, offset),
        parts.drop_first(),
        offset + text::utf8_len(parts[0]) + 1,
        name,
    );
}

/// The suffix from the label `k` on is in the table after a name was entered.
proof fn lemma_suffix_entered(
    table: Map<Seq<char>, u16>,
    parts: Seq<Seq<char>>,
    offset: int,
    k: int,
)
    requires
        0 <= k < parts.len(),
        text::join(parts.skip(k), '.').len() > 0,
    ensures
        ({
            let suffix = text::join(parts.skip(k), '.');
            let after = record_suffixes(table, parts, offset);
            &&& after.contains_key(suffix)
            &&& after[suffix] == (if table.contains_key(suffix) {
                table[suffix]
            } else {
                (offset + labels_wire_len(parts) - labels_wire_len(parts.skip(k))) as u16
            })
        }),
        labels_wire_len(parts) >= labels_wire_len(parts.skip(k)),
        k > 0 ==> labels_wire_len(parts) > labels_wire_len(parts.skip(k)),
    decreases parts.len(),
{
    let suffix = text::join(parts.skip(k), '.');
    let whole = text::join(parts, '.');
    let next = if whole.len() > 0 && !table.contains_key(whole) {
        table.insert(whole, offset as u16)
    } else {
        table
    };
    let further = offset + text::utf8_len(parts[0]) + 1;
    if k == 0 {
        assert(parts.skip(0) =~= parts);
        law_first_occurrence_kept(next, parts.drop_first(), further, suffix);
    } else {
        assert(parts.drop_first().skip(k - 1) =~= parts.skip(k));
        lemma_suffix_entered(next, parts.drop_first(), further, k - 1);
        lemma_labels_wire_len(parts);
        lemma_labels_wire_len(parts.skip(k));
        assert(whole != suffix);
    }
}

/// After a name was entered, each suffix of it that starts at a label and is not
/// empty is found where it was written: as many bytes behind the name as stand
/// before it. One that was known before keeps its offset.
pub proof fn law_each_suffix_is_found(
    table: Map<Seq<char>, u16>,
    before: Seq<char>,
    suffix: Seq<char>,
    offset: u16,
)
    requires
        suffix.len() > 0,
        before.len() == 0 || before.last() == '.',
        offset + text::utf8_len(before + suffix) < u16::MAX,
    ensures
        suffix_offset(
            record_suffixes(table, text::split(before + suffix, '.'), offset as int),
            suffix,
        ) == Some(
            if table.contains_key(suffix) {
                table[suffix]
            } else {
                (offset + text::utf8_len(before)) as u16
            },
        ),
{
    let name = before + suffix;
    let parts = text::split(name, '.');
    let rest = text::split(suffix, '.');
    text::law_split_join(name, '.');
    text::law_split_join(suffix, '.');
    text::lemma_utf8_concat(before, suffix);
    let k = parts.len() - rest.len();
    if before.len() == 0 {
        assert(name =~= suffix);
    } else {
        let front = before.drop_last();
        assert(before =~= front.push('.'));
        text::law_split_in_two(front, suffix, '.');
        text::law_split_join(front, '.');
    }
    assert(parts.skip(k) =~= rest);
    lemma_suffix_entered(table, parts, offset as int, k);
    lemma_labels_wire_len(parts);
    lemma_labels_wire_len(rest);
}

/// Of the suffixes of a name, from itself down to the last two labels, the longest that
/// is in the table is taken, and none where none is.
pub proof fn law_longest_suffix_is_taken(table: Map<Seq<char>, u16>, parts: Seq<Seq<char>>)
    ensures
        match longest_suffix(table, parts) {
            Some(offset) => exists|k: int|
                is_entered(table, parts, k) && table[text::join(parts.skip(k), '.')] == offset
                    && forall|j: int| 0 <= j < k ==> !#[trigger] is_entered(table, parts, j),
            None => forall|k: int| !#[trigger] is_entered(table, parts, k),
        },
    decreases parts.len(),
{
    if parts.len() >= 2 {
        assert(parts.skip(0) =~= parts);
        let rest = parts.drop_first();
        law_longest_suffix_is_taken(table, rest);
        assert forall|k: int| 0 <= k implies #[trigger] is_entered(table, rest, k) == is_entered(
            table,
            parts,
            k + 1,
        ) by {
            if k <= rest.len() {
                assert(rest.skip(k) =~= parts.skip(k + 1));
            }
        }
        if table.contains_key(text::join(parts, '.')) {
            assert(is_entered(table, parts, 0));
        } else {
            assert(!is_entered(table, parts, 0));
            match longest_suffix(table, rest) {
                Some(offset) => {
                    let k = choose|k: int|
                        is_entered(table, rest, k) && table[text::join(rest.skip(k), '.')] == offset
                            && forall|j: int| 0 <= j < k ==> !#[trigger] is_entered(table, rest, j);
                    assert(rest.skip(k) =~= parts.skip(k + 1));
                    assert(is_entered(table, parts, k + 1));
                    assert forall|j: int| 0 <= j < k + 1 implies !#[trigger] is_entered(
                        table,
                        parts,
                        j,
                    ) by {
                        if j > 0 {
                            assert(!is_entered(table, rest, j - 1));
                        }
                    }
                },
                None => {
                    assert forall|k: int| !#[trigger] is_entered(table, parts, k) by {
                        if k > 0 {
                            assert(!is_entered(table, rest, k - 1));
                        }
                    }
                },
            }
        }
    }
}

/// Whether what is left of a name of labels behind the first ones is in the table; it has
/// two labels at least.
pub open spec fn is_entered(table: Map<Seq<char>, u16>, parts: Seq<Seq<char>>, k: int) -> bool {
    &&& 0 <= k
    &&& k + 2 <= parts.len()
    &&& table.contains_key(text::join(parts.skip(k), '.'))
}

} // verus!
