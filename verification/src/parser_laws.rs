//! What is read of names, questions and addresses that were written by the rules of
//! the protocol.

use crate::addr::{IpAddr, Ipv4Addr, Ipv6Addr};
use crate::addr_text;
use crate::compression::{self, COMPRESSION_OFFSET_MASK};
use crate::edns0_laws;
use crate::parser::{self, ParseFault, RecordSpan};
use crate::protocol::{HEADER_LEN, MAXDNAME};
use crate::text;
use crate::wire;
use vstd::prelude::*;
use vstd::utf8::*;

verus! {

/// Labels on the wire: each behind its length.
pub open spec fn label_bytes(labels: Seq<Seq<u8>>) -> Seq<u8>
    decreases labels.len(),
{
    if labels.len() == 0 {
        Seq::empty()
    } else {
        seq![labels[0].len() as u8] + labels[0] + label_bytes(labels.drop_first())
    }
}

/// A name on the wire: its labels, then a zero.
pub open spec fn name_bytes(labels: Seq<Seq<u8>>) -> Seq<u8> {
    label_bytes(labels) + seq![0u8]
}

/// A text with labels behind it, each with a dot at its end.
pub open spec fn with_labels(name: Seq<char>, labels: Seq<Seq<u8>>) -> Seq<char>
    decreases labels.len(),
{
    if labels.len() == 0 {
        name
    } else {
        with_labels((name + parser::latin1(labels[0])).push('.'), labels.drop_first())
    }
}

/// The text of a name.
pub open spec fn name_text(labels: Seq<Seq<u8>>) -> Seq<char> {
    compression::without_final_dot(with_labels(Seq::empty(), labels))
}

/// Labels of one to 63 bytes that a text can hold.
pub open spec fn are_labels(labels: Seq<Seq<u8>>) -> bool {
    forall|i: int|
        0 <= i < labels.len() ==> 0 < (#[trigger] labels[i]).len() <= 63 && parser::forbidden_byte(
            labels[i],
        ) is None
}

/// A name that is not too long.
pub open spec fn is_name(labels: Seq<Seq<u8>>) -> bool {
    are_labels(labels) && text::utf8_len(with_labels(Seq::empty(), labels)) <= MAXDNAME
}

/// Whether `bytes` stand at `pos`.
pub open spec fn stands_at(packet: Seq<u8>, pos: int, bytes: Seq<u8>) -> bool {
    0 <= pos && pos + bytes.len() <= packet.len() && packet.subrange(pos, pos + bytes.len())
        == bytes
}

proof fn lemma_latin1_len(bytes: Seq<u8>)
    ensures
        text::utf8_len(parser::latin1(bytes)) >= bytes.len(),
    decreases bytes.len(),
{
    let chars = parser::latin1(bytes);
    if bytes.len() > 0 {
        lemma_latin1_len(bytes.drop_first());
        assert(chars.drop_first() =~= parser::latin1(bytes.drop_first()));
        assert(chars =~= seq![chars[0]] + chars.drop_first());
        text::lemma_utf8_concat(seq![chars[0]], chars.drop_first());
        assert(encode_utf8(seq![chars[0]]).len() >= 1) by {
            assert(seq![chars[0]].len() == 1);
        }
    }
}

/// What one more label adds to the length of a text.
proof fn lemma_label_len(name: Seq<char>, label: Seq<u8>)
    ensures
        text::utf8_len((name + parser::latin1(label)).push('.')) >= text::utf8_len(name)
            + label.len() + 1,
{
    let longer = name + parser::latin1(label);
    lemma_latin1_len(label);
    text::lemma_utf8_concat(name, parser::latin1(label));
    assert(longer.push('.') =~= longer + seq!['.']);
    text::lemma_utf8_concat(longer, seq!['.']);
    text::lemma_utf8_ascii_char('.');
}

proof fn lemma_labels_len(name: Seq<char>, labels: Seq<Seq<u8>>)
    ensures
        text::utf8_len(with_labels(name, labels)) >= text::utf8_len(name),
    decreases labels.len(),
{
    if labels.len() > 0 {
        lemma_label_len(name, labels[0]);
        lemma_labels_len((name + parser::latin1(labels[0])).push('.'), labels.drop_first());
    }
}

/// Labels are read one after the other.
proof fn lemma_labels_are_read(
    packet: Seq<u8>,
    pos: int,
    labels: Seq<Seq<u8>>,
    name: Seq<char>,
    hops: nat,
    back: Option<int>,
)
    requires
        are_labels(labels),
        stands_at(packet, pos, label_bytes(labels)),
        text::utf8_len(with_labels(name, labels)) <= MAXDNAME,
    ensures
        parser::read_name(packet, pos, name, hops, back) == parser::read_name(
            packet,
            pos + label_bytes(labels).len(),
            with_labels(name, labels),
            hops,
            back,
        ),
    decreases labels.len(),
{
    if labels.len() > 0 {
        let label = labels[0];
        let rest = labels.drop_first();
        let bytes = label_bytes(labels);
        let longer = (name + parser::latin1(label)).push('.');
        let end = pos + 1 + label.len();
        assert(0 < label.len() <= 63);
        assert(packet[pos] == bytes[0]) by {
            assert(packet.subrange(pos, pos + bytes.len())[0] == packet[pos]);
        }
        assert(packet.subrange(pos + 1, end) =~= label) by {
            assert forall|i: int| 0 <= i < label.len() implies packet[pos + 1 + i] == label[i] by {
                assert(packet.subrange(pos, pos + bytes.len())[1 + i] == packet[pos + 1 + i]);
                assert(bytes[1 + i] == label[i]);
            }
        }
        assert(stands_at(packet, end, label_bytes(rest))) by {
            let tail = label_bytes(rest);
            assert forall|i: int| 0 <= i < tail.len() implies packet[end + i] == tail[i] by {
                assert(packet.subrange(pos, pos + bytes.len())[1 + label.len() + i]
                    == packet[end + i]);
                assert(bytes[1 + label.len() + i] == tail[i]);
            }
            assert(packet.subrange(end, end + tail.len()) =~= tail);
        }
        assert(are_labels(rest)) by {
            assert forall|i: int| 0 <= i < rest.len() implies 0 < (#[trigger] rest[i]).len() <= 63
                && parser::forbidden_byte(rest[i]) is None by {
                assert(rest[i] == labels[i + 1]);
            }
        }
        lemma_label_len(name, label);
        lemma_labels_len(longer, rest);
        lemma_labels_are_read(packet, end, rest, longer, hops, back);
    } else {
        assert(label_bytes(labels).len() == 0);
    }
}

/// A name that stands in a message is read as its labels with dots between them.
pub proof fn law_name_is_read(packet: Seq<u8>, pos: int, labels: Seq<Seq<u8>>)
    requires
        is_name(labels),
        stands_at(packet, pos, name_bytes(labels)),
    ensures
        parser::name_at(packet, pos) == Ok::<(int, Seq<char>), ParseFault>(
            (pos + name_bytes(labels).len(), name_text(labels)),
        ),
{
    lemma_front_stands(packet, pos, label_bytes(labels), seq![0u8]);
    lemma_labels_are_read(packet, pos, labels, Seq::empty(), 0, None);
}

/// What stands in front of other bytes stands there too, and so do those.
proof fn lemma_front_stands(packet: Seq<u8>, pos: int, front: Seq<u8>, behind: Seq<u8>)
    requires
        stands_at(packet, pos, front + behind),
    ensures
        stands_at(packet, pos, front),
        stands_at(packet, pos + front.len(), behind),
        behind.len() > 0 ==> packet[pos + front.len()] == behind[0],
{
    let all = front + behind;
    assert forall|i: int| 0 <= i < all.len() implies packet[pos + i] == all[i] by {
        assert(packet.subrange(pos, pos + all.len())[i] == packet[pos + i]);
    }
    assert(packet.subrange(pos, pos + front.len()) =~= front) by {
        assert forall|i: int| 0 <= i < front.len() implies packet[pos + i] == front[i] by {
            assert(all[i] == front[i]);
        }
    }
    let at = pos + front.len();
    assert(packet.subrange(at, at + behind.len()) =~= behind) by {
        assert forall|i: int| 0 <= i < behind.len() implies packet[at + i] == behind[i] by {
            assert(all[front.len() + i] == behind[i]);
            assert(packet[pos + (front.len() + i)] == all[front.len() + i]);
        }
    }
    if behind.len() > 0 {
        assert(packet.subrange(at, at + behind.len())[0] == packet[at]);
    }
}

proof fn lemma_labels_concat(name: Seq<char>, a: Seq<Seq<u8>>, b: Seq<Seq<u8>>)
    ensures
        with_labels(with_labels(name, a), b) == with_labels(name, a + b),
    decreases a.len(),
{
    if a.len() == 0 {
        assert(a + b =~= b);
    } else {
        assert((a + b).drop_first() =~= a.drop_first() + b);
        lemma_labels_concat((name + parser::latin1(a[0])).push('.'), a.drop_first(), b);
    }
}

/// Labels with a pointer behind them are read as if the labels that the pointer
/// leads to stood in its place; reading goes on behind the pointer.
pub proof fn law_compressed_name_is_read(
    packet: Seq<u8>,
    pos: int,
    labels: Seq<Seq<u8>>,
    target: u16,
    others: Seq<Seq<u8>>,
)
    requires
        is_name(labels + others),
        target <= COMPRESSION_OFFSET_MASK,
        stands_at(packet, pos, label_bytes(labels) + compression::pointer_bytes(target)),
        stands_at(packet, target as int, name_bytes(others)),
    ensures
        parser::name_at(packet, pos) == Ok::<(int, Seq<char>), ParseFault>(
            (pos + label_bytes(labels).len() + 2, name_text(labels + others)),
        ),
{
    let pointer = compression::pointer_bytes(target);
    let at = pos + label_bytes(labels).len();
    let name = with_labels(Seq::empty(), labels);
    lemma_front_stands(packet, pos, label_bytes(labels), pointer);
    lemma_front_stands(packet, target as int, label_bytes(others), seq![0u8]);
    assert(packet[at + 1] == pointer[1]) by {
        assert(packet.subrange(at, at + 2)[1] == packet[at + 1]);
    }
    compression::law_pointer_round_trip(target);
    lemma_labels_concat(Seq::empty(), labels, others);
    lemma_labels_len(name, others);
    assert(are_labels(labels)) by {
        assert forall|i: int| 0 <= i < labels.len() implies 0 < (#[trigger] labels[i]).len() <= 63
            && parser::forbidden_byte(labels[i]) is None by {
            assert(labels[i] == (labels + others)[i]);
        }
    }
    assert(are_labels(others)) by {
        assert forall|i: int| 0 <= i < others.len() implies 0 < (#[trigger] others[i]).len() <= 63
            && parser::forbidden_byte(others[i]) is None by {
            assert(others[i] == (labels + others)[labels.len() + i]);
        }
    }
    lemma_labels_are_read(packet, pos, labels, Seq::empty(), 0, None);
    lemma_labels_are_read(packet, target as int, others, name, 1, Some(at + 2));
    assert(parser::read_name(packet, at, name, 0, None) == parser::read_name(
        packet,
        target as int,
        name,
        1,
        Some(at + 2),
    ));
}

/// A standard query with one question.
pub open spec fn query_bytes(
    id: u16,
    recursion: bool,
    labels: Seq<Seq<u8>>,
    qtype: u16,
    qclass: u16,
) -> Seq<u8> {
    wire::be16_bytes(id) + seq![
        if recursion {
            1u8
        } else {
            0u8
        },
        0u8,
        0u8,
        1u8,
        0u8,
        0u8,
        0u8,
        0u8,
        0u8,
        0u8,
    ] + name_bytes(labels) + wire::be16_bytes(qtype) + wire::be16_bytes(qclass)
}

/// The question of a query is read as it was written.
pub proof fn law_question_is_read(
    id: u16,
    recursion: bool,
    labels: Seq<Seq<u8>>,
    qtype: u16,
    qclass: u16,
)
    requires
        is_name(labels),
    ensures
        parser::request_of(query_bytes(id, recursion, labels, qtype, qclass)) == Ok::<
            (Seq<char>, u16, u16),
            ParseFault,
        >((name_text(labels), qtype, qclass)),
{
    let packet = query_bytes(id, recursion, labels, qtype, qclass);
    let name = name_bytes(labels);
    let p: int = 12 + name.len() as int;
    assert(packet.subrange(12, p) =~= name);
    law_name_is_read(packet, 12, labels);
    wire::law_u16_round_trip(qtype);
    wire::law_u16_round_trip(qclass);
    assert(packet[p] == wire::be16_bytes(qtype)[0] && packet[p + 1] == wire::be16_bytes(qtype)[1]);
    assert(packet[p + 2] == wire::be16_bytes(qclass)[0] && packet[p + 3]
        == wire::be16_bytes(qclass)[1]);
}

/// Labels that are ASCII.
pub open spec fn are_ascii(labels: Seq<Seq<u8>>) -> bool {
    forall|i: int, j: int|
        0 <= i < labels.len() && 0 <= j < labels[i].len() ==> (#[trigger] labels[i][j]) < 128
}

proof fn lemma_ascii_is_decoded(bytes: Seq<u8>)
    requires
        forall|j: int| 0 <= j < bytes.len() ==> bytes[j] < 128,
    ensures
        text::decoded(bytes) == parser::latin1(bytes),
{
    let chars = parser::latin1(bytes);
    assert forall|j: int| 0 <= j < chars.len() implies chars[j] as u32 <= 0x7f by {
        assert(bytes[j] < 128);
    }
    assert(is_ascii_chars(chars));
    is_ascii_chars_encode_utf8(chars);
    assert(encode_utf8(chars) =~= bytes);
    encode_utf8_valid_utf8(chars);
    encode_utf8_decode_utf8(chars);
}

proof fn lemma_labels_are_followed(
    packet: Seq<u8>,
    pos: int,
    labels: Seq<Seq<u8>>,
    name: Seq<char>,
    length: nat,
    visited: Set<usize>,
    hops: nat,
)
    requires
        are_labels(labels),
        are_ascii(labels),
        stands_at(packet, pos, label_bytes(labels)),
        length + label_bytes(labels).len() < MAXDNAME,
    ensures
        compression::follow(packet, pos, name, length, visited, hops) == compression::follow(
            packet,
            pos + label_bytes(labels).len(),
            with_labels(name, labels),
            length + label_bytes(labels).len(),
            visited,
            hops,
        ),
    decreases labels.len(),
{
    if labels.len() > 0 {
        let label = labels[0];
        let rest = labels.drop_first();
        let front = seq![label.len() as u8] + label;
        let end = pos + 1 + label.len();
        assert(label_bytes(labels) =~= front + label_bytes(rest));
        lemma_front_stands(packet, pos, front, label_bytes(rest));
        lemma_front_stands(packet, pos, seq![label.len() as u8], label);
        assert(seq![label.len() as u8][0] == packet[pos]) by {
            assert(packet.subrange(pos, pos + 1)[0] == packet[pos]);
        }
        assert forall|i: int| 0 <= i < rest.len() implies 0 < (#[trigger] rest[i]).len() <= 63
            && parser::forbidden_byte(rest[i]) is None by {
            assert(rest[i] == labels[i + 1]);
        }
        assert forall|i: int, j: int|
            0 <= i < rest.len() && 0 <= j < rest[i].len() implies (#[trigger] rest[i][j])
            < 128 by {
            assert(labels[i + 1][j] < 128);
        }
        assert forall|j: int| 0 <= j < label.len() implies label[j] < 128 by {
            assert(labels[0][j] < 128);
        }
        lemma_ascii_is_decoded(label);
        assert(packet.subrange(pos + 1, end) == label);
        lemma_labels_are_followed(
            packet,
            end,
            rest,
            (name + parser::latin1(label)).push('.'),
            length + label.len() + 1,
            visited,
            hops,
        );
    } else {
        assert(label_bytes(labels).len() == 0);
    }
}

/// An ASCII name that stands in a message is followed to its labels with dots
/// between them.
pub proof fn law_name_is_followed(packet: Seq<u8>, pos: int, labels: Seq<Seq<u8>>)
    requires
        are_labels(labels),
        are_ascii(labels),
        label_bytes(labels).len() < MAXDNAME,
        stands_at(packet, pos, name_bytes(labels)),
    ensures
        compression::follow(packet, pos, Seq::empty(), 0, Set::empty(), 0) == Ok::<
            Seq<char>,
            compression::CompressionError,
        >(name_text(labels)),
{
    lemma_front_stands(packet, pos, label_bytes(labels), seq![0u8]);
    lemma_labels_are_followed(packet, pos, labels, Seq::empty(), 0, Set::empty(), 0);
}

/// ASCII labels with a pointer back to other labels are followed as if those stood
/// in its place.
pub proof fn law_pointer_is_followed(
    packet: Seq<u8>,
    pos: int,
    labels: Seq<Seq<u8>>,
    target: u16,
    others: Seq<Seq<u8>>,
)
    requires
        are_labels(labels),
        are_labels(others),
        are_ascii(labels),
        are_ascii(others),
        label_bytes(labels).len() + label_bytes(others).len() < MAXDNAME,
        target <= COMPRESSION_OFFSET_MASK,
        target < pos + label_bytes(labels).len() <= usize::MAX,
        stands_at(packet, pos, label_bytes(labels) + compression::pointer_bytes(target)),
        stands_at(packet, target as int, name_bytes(others)),
    ensures
        compression::follow(packet, pos, Seq::empty(), 0, Set::empty(), 0) == Ok::<
            Seq<char>,
            compression::CompressionError,
        >(name_text(labels + others)),
{
    let pointer = compression::pointer_bytes(target);
    let at = pos + label_bytes(labels).len();
    let name = with_labels(Seq::empty(), labels);
    let seen = Set::<usize>::empty().insert(at as usize);
    lemma_front_stands(packet, pos, label_bytes(labels), pointer);
    lemma_front_stands(packet, target as int, label_bytes(others), seq![0u8]);
    assert(packet[at + 1] == pointer[1]) by {
        assert(packet.subrange(at, at + 2)[1] == packet[at + 1]);
    }
    compression::law_pointer_round_trip(target);
    lemma_labels_concat(Seq::empty(), labels, others);
    lemma_labels_are_followed(packet, pos, labels, Seq::empty(), 0, Set::empty(), 0);
    lemma_labels_are_followed(
        packet,
        target as int,
        others,
        name,
        label_bytes(labels).len(),
        seen,
        1,
    );
}

/// Whether all labels that are met from `pos` on, through pointers that lead
/// backward too, are ASCII and can stand in a text.
pub open spec fn is_plain(packet: Seq<u8>, pos: int, hops: nat) -> bool
    decreases 256 - hops, packet.len() - pos,
{
    if pos >= packet.len() || packet[pos] == 0 {
        true
    } else if packet[pos] < 0x40 {
        let end = pos + 1 + packet[pos];
        end <= packet.len() ==> {
            &&& parser::forbidden_byte(packet.subrange(pos + 1, end)) is None
            &&& forall|i: int| pos < i < end ==> (#[trigger] packet[i]) < 128
            &&& is_plain(packet, end, hops)
        }
    } else if packet[pos] >= 0xC0 && pos + 1 < packet.len() && hops < 255 {
        let target = compression::pointer_offset(packet[pos], packet[pos + 1]) as int;
        target < pos ==> is_plain(packet, target, hops + 1)
    } else {
        true
    }
}

/// Whether a text holds labels, each with a dot at its end.
pub open spec fn is_dotted(name: Seq<char>) -> bool {
    name.len() > 0 ==> name.len() > 1 && name.last() == '.' && name[name.len() - 2] != '.'
}

proof fn lemma_last_not_forbidden(label: Seq<u8>)
    requires
        label.len() > 0,
        parser::forbidden_byte(label) is None,
    ensures
        label.last() != 46,
    decreases label.len(),
{
    if label.len() > 1 {
        lemma_last_not_forbidden(label.drop_first());
    }
}

proof fn lemma_followed_is_read(
    packet: Seq<u8>,
    pos: int,
    name: Seq<char>,
    visited: Set<usize>,
    hops: nat,
    back: Option<int>,
)
    requires
        0 <= pos,
        is_plain(packet, pos, hops),
        is_ascii_chars(name),
        is_dotted(name),
        compression::follow(packet, pos, name, name.len(), visited, hops) is Ok,
    ensures
        ({
            let followed = compression::follow(packet, pos, name, name.len(), visited, hops)->Ok_0;
            &&& parser::read_name(packet, pos, name, hops, back) matches Ok((end, read))
            &&& read == followed
            &&& followed.len() > 0 ==> followed.last() != '.'
        }),
    decreases 256 - hops, packet.len() - pos,
{
    let byte = packet[pos];
    if byte == 0 {
    } else if byte < 0x40 {
        let end = pos + 1 + byte;
        let label = packet.subrange(pos + 1, end);
        let longer = (name + parser::latin1(label)).push('.');
        assert forall|j: int| 0 <= j < label.len() implies label[j] < 128 by {
            assert(packet[pos + 1 + j] < 128);
        }
        lemma_ascii_is_decoded(label);
        lemma_last_not_forbidden(label);
        is_ascii_chars_encode_utf8(name);
        assert(text::utf8_len(name) == name.len());
        assert(is_ascii_chars(longer)) by {
            assert forall|i: int| 0 <= i < longer.len() implies '\0' <= #[trigger] longer[i]
                <= '\u{7f}' by {
                if i < name.len() {
                    assert('\0' <= name[i] <= '\u{7f}');
                } else if i < name.len() + label.len() {
                    assert(longer[i] == label[i - name.len()] as char);
                }
            }
        }
        assert(longer[longer.len() - 2] == label.last() as char);
        assert(longer.len() == name.len() + byte + 1);
        lemma_followed_is_read(packet, end, longer, visited, hops, back);
    } else if byte >= 0xC0 {
        let target = compression::pointer_offset(byte, packet[pos + 1]) as int;
        let seen = visited.insert(pos as usize);
        let behind = match back {
            Some(b) => Some(b),
            None => Some(pos + 2),
        };
        lemma_followed_is_read(packet, target, name, seen, hops + 1, behind);
    }
}

/// Where the labels that are met are ASCII and can stand in a text, a name that
/// is followed is also read, as the same text, which does not end with a dot. A
/// zero byte is the root, unless it is passed over as the end of the first
/// name.
pub proof fn law_followed_name_is_read(packet: Seq<u8>, start: int)
    requires
        0 <= start < packet.len(),
        is_plain(packet, compression::name_start(packet, start), 0),
        compression::follow(
            packet,
            compression::name_start(packet, start),
            Seq::empty(),
            0,
            Set::empty(),
            0,
        ) is Ok,
    ensures
        ({
            let at = compression::name_start(packet, start);
            let name = compression::follow(
                packet,
                at,
                Seq::empty(),
                0,
                Set::empty(),
                0,
            )->Ok_0;
            &&& parser::name_at(packet, at) matches Ok((end, read))
            &&& read == name
            &&& name.len() > 0 ==> name.last() != '.'
            &&& at != start ==> compression::labels_end(packet, HEADER_LEN as int) == Some(start)
            &&& at == start && packet[start] == 0 ==> name == Seq::<char>::empty()
        }),
{
    let at = compression::name_start(packet, start);
    lemma_followed_is_read(packet, at, Seq::empty(), Set::empty(), 0, None);
}

/// Whether all pointers that are met from `pos` on lead backward.
pub open spec fn leads_back(packet: Seq<u8>, pos: int, hops: nat) -> bool
    decreases 256 - hops, packet.len() - pos,
{
    if pos >= packet.len() || packet[pos] == 0 {
        true
    } else if packet[pos] < 0x40 {
        pos + 1 + packet[pos] <= packet.len() ==> leads_back(packet, pos + 1 + packet[pos], hops)
    } else if packet[pos] >= 0xC0 && pos + 1 < packet.len() && hops < 255 {
        let target = compression::pointer_offset(packet[pos], packet[pos + 1]) as int;
        target < pos && leads_back(packet, target, hops + 1)
    } else {
        true
    }
}

/// Whether the name from `pos` on ends after `n` pointers.
spec fn ends_after(packet: Seq<u8>, pos: int, n: nat) -> bool
    decreases n, packet.len() - pos,
{
    if pos >= packet.len() {
        false
    } else if packet[pos] == 0 {
        n == 0
    } else if packet[pos] < 0x40 {
        pos + 1 + packet[pos] <= packet.len() && ends_after(packet, pos + 1 + packet[pos], n)
    } else {
        n > 0 && ends_after(
            packet,
            compression::pointer_offset(packet[pos], packet[pos + 1]) as int,
            (n - 1) as nat,
        )
    }
}

/// Whether the name from `pos` on ends after more than `n` pointers.
spec fn ends_later(packet: Seq<u8>, pos: int, n: nat) -> bool {
    exists|k: nat| k > n && #[trigger] ends_after(packet, pos, k)
}

proof fn lemma_ends_once(packet: Seq<u8>, pos: int, a: nat, b: nat)
    requires
        ends_after(packet, pos, a),
        ends_after(packet, pos, b),
    ensures
        a == b,
    decreases a, packet.len() - pos,
{
    if packet[pos] == 0 {
    } else if packet[pos] < 0x40 {
        lemma_ends_once(packet, pos + 1 + packet[pos], a, b);
    } else {
        let target = compression::pointer_offset(packet[pos], packet[pos + 1]) as int;
        lemma_ends_once(packet, target, (a - 1) as nat, (b - 1) as nat);
    }
}

/// A name that is read ends after some pointers.
proof fn lemma_read_ends(
    packet: Seq<u8>,
    pos: int,
    name: Seq<char>,
    hops: nat,
    back: Option<int>,
) -> (n: nat)
    requires
        parser::read_name(packet, pos, name, hops, back) is Ok,
    ensures
        ends_after(packet, pos, n),
    decreases 256 - hops, packet.len() - pos,
{
    let byte = packet[pos];
    if byte == 0 {
        0
    } else if byte < 0x40 {
        let end = pos + 1 + byte;
        let longer = (name + parser::latin1(packet.subrange(pos + 1, end))).push('.');
        lemma_read_ends(packet, end, longer, hops, back)
    } else {
        let target = compression::pointer_offset(byte, packet[pos + 1]) as int;
        let behind = match back {
            Some(b) => Some(b),
            None => Some(pos + 2),
        };
        let n = lemma_read_ends(packet, target, name, hops + 1, behind);
        n + 1
    }
}

proof fn lemma_read_is_followed(
    packet: Seq<u8>,
    pos: int,
    name: Seq<char>,
    visited: Set<usize>,
    hops: nat,
    back: Option<int>,
    n: nat,
)
    requires
        0 <= pos,
        packet.len() <= usize::MAX,
        is_plain(packet, pos, hops),
        leads_back(packet, pos, hops),
        is_ascii_chars(name),
        parser::read_name(packet, pos, name, hops, back) is Ok,
        parser::read_name(packet, pos, name, hops, back)->Ok_0.1.len() + 1 < MAXDNAME,
        ends_after(packet, pos, n),
        forall|v: usize| #[trigger] visited.contains(v) ==> ends_later(packet, v as int, n),
    ensures
        compression::follow(packet, pos, name, name.len(), visited, hops) == Ok::<
            Seq<char>,
            compression::CompressionError,
        >(parser::read_name(packet, pos, name, hops, back)->Ok_0.1),
        parser::read_name(packet, pos, name, hops, back)->Ok_0.1.len() + 1 >= name.len(),
    decreases 256 - hops, packet.len() - pos,
{
    let byte = packet[pos];
    if byte == 0 {
    } else if byte < 0x40 {
        let end = pos + 1 + byte;
        let label = packet.subrange(pos + 1, end);
        let longer = (name + parser::latin1(label)).push('.');
        assert forall|j: int| 0 <= j < label.len() implies label[j] < 128 by {
            assert(packet[pos + 1 + j] < 128);
        }
        lemma_ascii_is_decoded(label);
        assert(is_ascii_chars(longer)) by {
            assert forall|i: int| 0 <= i < longer.len() implies '\0' <= #[trigger] longer[i]
                <= '\u{7f}' by {
                if i < name.len() {
                    assert('\0' <= name[i] <= '\u{7f}');
                } else if i < name.len() + label.len() {
                    assert(longer[i] == label[i - name.len()] as char);
                }
            }
        }
        assert(longer.len() == name.len() + byte + 1);
        lemma_read_is_followed(packet, end, longer, visited, hops, back, n);
    } else {
        let target = compression::pointer_offset(byte, packet[pos + 1]) as int;
        let seen = visited.insert(pos as usize);
        let behind = match back {
            Some(b) => Some(b),
            None => Some(pos + 2),
        };
        if visited.contains(pos as usize) {
            let k = choose|k: nat| k > n && #[trigger] ends_after(packet, pos, k);
            lemma_ends_once(packet, pos, k, n);
        }
        let fewer = (n - 1) as nat;
        assert forall|v: usize| #[trigger] seen.contains(v) implies ends_later(
            packet,
            v as int,
            fewer,
        ) by {
            if v == pos as usize {
                assert(ends_after(packet, pos, n));
            } else {
                assert(visited.contains(v));
                let k = choose|k: nat| k > n && #[trigger] ends_after(packet, v as int, k);
                assert(ends_after(packet, v as int, k));
            }
        }
        lemma_read_is_followed(packet, target, name, seen, hops + 1, behind, fewer);
    }
}

/// Where the labels that are met are ASCII and the pointers lead backward, a name
/// that is read and is short enough is also followed, to the same text.
pub proof fn law_read_name_is_followed(packet: Seq<u8>, start: int)
    requires
        0 <= start < packet.len() <= usize::MAX,
        is_plain(packet, start, 0),
        leads_back(packet, start, 0),
        compression::name_start(packet, start) == start,
        parser::name_at(packet, start) matches Ok((_, name)) && name.len() + 1 < MAXDNAME,
    ensures
        compression::follow(
            packet,
            compression::name_start(packet, start),
            Seq::empty(),
            0,
            Set::empty(),
            0,
        ) == Ok::<Seq<char>, compression::CompressionError>(
            parser::name_at(packet, start)->Ok_0.1,
        ),
{
    let n = lemma_read_ends(packet, start, Seq::empty(), 0, None);
    lemma_read_is_followed(packet, start, Seq::empty(), Set::empty(), 0, None, n);
}

// ---------------------------------------------------------------------------
// Requests
// ---------------------------------------------------------------------------

/// A message is a request exactly where it has a header, asks one question with the
/// usual operation, is empty otherwise unless it is a reply, and the question can
/// be read.
pub proof fn law_request_is_taken(packet: Seq<u8>)
    ensures
        parser::request_of(packet) is Ok <==> {
            &&& packet.len() >= 12
            &&& wire::be16(packet, 4) == 1
            &&& packet[2] & 0x78 == 0
            &&& packet[2] & 0x80 == 0 ==> wire::be16(packet, 6) == 0 && wire::be16(packet, 8) == 0
            &&& parser::name_at(packet, 12) matches Ok((p, _)) && p + 4 <= packet.len()
        },
        parser::request_of(packet) matches Ok((name, qtype, qclass)) ==> (parser::name_at(
            packet,
            12,
        ) matches Ok((p, read)) && name == read && qtype == packet[p] * 256 + packet[p + 1]
            && qclass == packet[p + 2] * 256 + packet[p + 3]),
{
    let b = packet[2];
    assert((b & 0x78 == 0) == (b / 8 % 16 == 0)) by (bit_vector);
    assert((b & 0x80 == 0) == (b < 128)) by (bit_vector);
}

/// The two upper bits of its first byte tell what a label is: a length, or a pointer,
/// whose other bits are a place in the message.
pub proof fn law_kinds_of_labels(a: u8, b: u8)
    ensures
        compression::label_type_of(a) is Normal <==> a & 0xC0 == 0,
        compression::label_type_of(a) is Extended <==> a & 0xC0 == 0x40,
        compression::label_type_of(a) is Reserved <==> a & 0xC0 == 0x80,
        compression::label_type_of(a) is Pointer <==> a & 0xC0 == 0xC0,
        compression::pointer_offset(a, b) == (a & 0x3F) * 256 + b,
{
    assert((a & 0xC0 == 0) == (a < 0x40) && (a & 0xC0 == 0x40) == (0x40 <= a && a < 0x80) && (a
        & 0xC0 == 0x80) == (0x80 <= a && a < 0xC0) && (a & 0xC0 == 0xC0) == (0xC0 <= a) && (a & 0x3F)
        == a % 64) by (bit_vector);
}

// ---------------------------------------------------------------------------
// Addresses in records
// ---------------------------------------------------------------------------

/// A record holds an address exactly where it is of the Internet and its data has the
/// length of an address of its type, which is then that data.
pub proof fn law_address_of_a_record(packet: Seq<u8>, span: RecordSpan)
    requires
        0 <= span.fixed,
        span.fixed + 4 <= packet.len(),
        0 <= span.data <= span.end <= packet.len(),
    ensures
        ({
            let data = packet.subrange(span.data, span.end);
            let rtype = packet[span.fixed] * 256 + packet[span.fixed + 1];
            let class = packet[span.fixed + 2] * 256 + packet[span.fixed + 3];
            match parser::record_address(packet, span) {
                Some(IpAddr::V4(a)) => class == 1 && rtype == 1 && a.bytes() == data,
                Some(IpAddr::V6(a)) => class == 1 && rtype == 28 && a.bytes() == data,
                None => class != 1 || !(rtype == 1 && data.len() == 4 || rtype == 28 && data.len()
                    == 16),
            }
        }),
{
    let data = packet.subrange(span.data, span.end);
    if data.len() == 4 {
        edns0_laws::lemma_be32_of_bytes(data);
    }
    if data.len() == 16 {
        wire::law_be_digits_of_value(data);
        wire::lemma_be_value_bound(data);
        assert(vstd::arithmetic::power::pow(256, 16) == u128::MAX + 1) by {
            reveal(vstd::arithmetic::power::pow);
            reveal_with_fuel(vstd::arithmetic::power::pow, 17);
        }
    }
}

/// The addresses of a section are those of its records, one behind the other.
pub proof fn law_addresses_of_a_section(packet: Seq<u8>, pos: int, count: nat, found: Seq<IpAddr>)
    requires
        count > 0,
    ensures
        parser::addresses_in(packet, pos, 0, found) == Ok::<(int, Seq<IpAddr>), ParseFault>(
            (pos, found),
        ),
        match parser::record_span(packet, pos) {
            Ok(span) => parser::addresses_in(packet, pos, count, found) == parser::addresses_in(
                packet,
                span.end,
                (count - 1) as nat,
                found + match parser::record_address(packet, span) {
                    Some(a) => seq![a],
                    None => Seq::empty(),
                },
            ),
            Err(e) => parser::addresses_in(packet, pos, count, found) == Err::<
                (int, Seq<IpAddr>),
                ParseFault,
            >(e),
        },
{
    if let Ok(span) = parser::record_span(packet, pos) {
        if let Some(a) = parser::record_address(packet, span) {
            assert(found + seq![a] =~= found.push(a));
        } else {
            assert(found + Seq::<IpAddr>::empty() =~= found);
        }
    }
}

/// A record spans its name, ten bytes, the last two of which tell how much data follows,
/// and that data.
pub proof fn law_span_of_a_record(packet: Seq<u8>, pos: int)
    requires
        0 <= pos,
    ensures
        parser::record_span(packet, pos) matches Ok(span) ==> {
            &&& parser::name_end(packet, pos) == Ok::<int, ParseFault>(span.fixed)
            &&& span.data == span.fixed + 10
            &&& span.end == span.data + packet[span.fixed + 8] * 256 + packet[span.fixed + 9]
            &&& span.end <= packet.len()
        },
        parser::name_end(packet, pos) matches Ok(p) && p >= 0 && p + 10 + packet[p + 8] * 256
            + packet[p + 9] <= packet.len() && p + 10 <= packet.len() ==> parser::record_span(
            packet,
            pos,
        ) is Ok,
{
}

// ---------------------------------------------------------------------------
// Names of addresses
// ---------------------------------------------------------------------------

/// Four decimal numbers name the address that has them in the opposite order.
pub proof fn law_reverse_name(a: u8, b: u8, c: u8, d: u8)
    ensures
        parser::ipv4_arpa_addr(
            seq![
                text::decimal(d as nat),
                text::decimal(c as nat),
                text::decimal(b as nat),
                text::decimal(a as nat),
            ],
        ) == Ok::<IpAddr, ParseFault>(
            IpAddr::V4(
                Ipv4Addr { bits: (a * 0x1000000 + b * 0x10000 + c * 0x100 + d) as u32 },
            ),
        ),
{
    let labels = seq![
        text::decimal(d as nat),
        text::decimal(c as nat),
        text::decimal(b as nat),
        text::decimal(a as nat),
    ];
    lemma_octet(a);
    lemma_octet(b);
    lemma_octet(c);
    lemma_octet(d);
    let l3 = labels.drop_last();
    let l2 = l3.drop_last();
    let l1 = l2.drop_last();
    assert(l1.drop_last() =~= Seq::<Seq<char>>::empty());
    assert(parser::octet_labels(l1.drop_last()) == Ok::<Seq<u8>, ParseFault>(Seq::empty()));
    assert(parser::octet_labels(l1) == Ok::<Seq<u8>, ParseFault>(Seq::<u8>::empty().push(d)));
    assert(parser::octet_labels(l2) == Ok::<Seq<u8>, ParseFault>(
        Seq::<u8>::empty().push(d).push(c),
    ));
    assert(parser::octet_labels(l3) == Ok::<Seq<u8>, ParseFault>(
        Seq::<u8>::empty().push(d).push(c).push(b),
    ));
    let octets = Seq::<u8>::empty().push(d).push(c).push(b).push(a);
    assert(parser::octet_labels(labels) == Ok::<Seq<u8>, ParseFault>(octets));
    assert(octets.take(4) =~= octets);
    assert(parser::reversed_ipv4(octets) =~= seq![a, b, c, d]);
}

proof fn lemma_octet(x: u8)
    ensures
        parser::octet_label(text::decimal(x as nat)) == Ok::<u8, ParseFault>(x),
{
    text::law_decimal_round_trip(x as nat);
}

/// Fewer numbers name the network that begins with them: the rest is zero.
pub proof fn law_reverse_name_of_a_network(octets: Seq<u8>)
    requires
        octets.len() <= 4,
    ensures
        parser::reversed_ipv4(octets) == octets.reverse() + Seq::new(
            (4 - octets.len()) as nat,
            |k: int| 0u8,
        ),
{
    assert(octets.take(octets.len() as int) =~= octets);
    assert(parser::reversed_ipv4(octets) =~= octets.reverse() + Seq::new(
        (4 - octets.len()) as nat,
        |k: int| 0u8,
    ));
}

/// The digit of a number at a place, counted from the lowest.
pub open spec fn nibble(n: nat, i: nat) -> int
    decreases i,
{
    if i == 0 {
        (n % 16) as int
    } else {
        nibble(n / 16, (i - 1) as nat)
    }
}

/// Thirty-two hexadecimal digits, the lowest first, name the address that they spell.
pub proof fn law_reverse_name6(bits: u128, labels: Seq<Seq<char>>)
    requires
        labels.len() == 32,
        forall|i: int|
            0 <= i < 32 ==> #[trigger] labels[i] == seq![
                addr_text::hex_lower(nibble(bits as nat, i as nat)),
            ],
    ensures
        parser::ipv6_arpa_addr(labels) == Ok::<IpAddr, ParseFault>(IpAddr::V6(Ipv6Addr { bits })),
{
    lemma_nibble_labels(bits as nat, labels, 32);
    assert(labels.take(32) =~= labels);
    let nibbles = parser::nibble_labels(labels)->Ok_0;
    assert(vstd::arithmetic::power::pow(16, 32) == u128::MAX + 1) by {
        reveal(vstd::arithmetic::power::pow);
        reveal_with_fuel(vstd::arithmetic::power::pow, 33);
    }
    lemma_nibbles_value(bits as nat, nibbles);
}

proof fn lemma_nibble_bound(n: nat, i: nat)
    ensures
        0 <= nibble(n, i) < 16,
    decreases i,
{
    if i > 0 {
        lemma_nibble_bound(n / 16, (i - 1) as nat);
    }
}

proof fn lemma_hex_label(d: int)
    requires
        0 <= d < 16,
    ensures
        parser::nibble_label(seq![addr_text::hex_lower(d)]) == Ok::<u8, ParseFault>(d as u8),
{
    let c = addr_text::hex_lower(d);
    assert(is_ascii_chars(seq![c]));
    is_ascii_chars_encode_utf8(seq![c]);
    assert(text::utf8_len(seq![c]) == 1);
    assert(text::hex_value(c) == Some(d));
}

proof fn lemma_nibble_labels(n: nat, labels: Seq<Seq<char>>, k: nat)
    requires
        k <= labels.len(),
        forall|i: int|
            0 <= i < labels.len() ==> #[trigger] labels[i] == seq![
                addr_text::hex_lower(nibble(n, i as nat)),
            ],
    ensures
        parser::nibble_labels(labels.take(k as int)) matches Ok(nibbles) && nibbles.len() == k
            && forall|i: int| 0 <= i < k ==> #[trigger] nibbles[i] == nibble(n, i as nat),
    decreases k,
{
    let part = labels.take(k as int);
    if k > 0 {
        lemma_nibble_labels(n, labels, (k - 1) as nat);
        assert(part.drop_last() =~= labels.take(k - 1));
        assert(part.last() == labels[k - 1]);
        lemma_nibble_bound(n, (k - 1) as nat);
        lemma_hex_label(nibble(n, (k - 1) as nat));
    } else {
        assert(part =~= Seq::<Seq<char>>::empty());
    }
}

proof fn lemma_nibbles_value(n: nat, nibbles: Seq<u8>)
    requires
        n < vstd::arithmetic::power::pow(16, nibbles.len()),
        forall|i: int| 0 <= i < nibbles.len() ==> #[trigger] nibbles[i] == nibble(n, i as nat),
    ensures
        parser::nibbles_value(nibbles) == n,
    decreases nibbles.len(),
{
    reveal(vstd::arithmetic::power::pow);
    if nibbles.len() > 0 {
        let rest = nibbles.drop_first();
        assert(vstd::arithmetic::power::pow(16, nibbles.len()) == 16
            * vstd::arithmetic::power::pow(16, rest.len()));
        assert forall|i: int| 0 <= i < rest.len() implies #[trigger] rest[i] == nibble(
            n / 16,
            i as nat,
        ) by {
            assert(rest[i] == nibbles[i + 1]);
            assert(nibble(n, (i + 1) as nat) == nibble(n / 16, i as nat));
        }
        lemma_nibbles_value(n / 16, rest);
        assert(nibbles[0] == nibble(n, 0));
    }
}

/// A name under `in-addr.arpa` is that of a short address, and one under `ip6.arpa` or
/// `ip6.int` that of a long one, whatever the case; no other name is one of an address.
pub proof fn law_names_of_addresses(rest: Seq<Seq<char>>, second: Seq<char>, top: Seq<char>)
    requires
        rest.len() >= 1,
        forall|i: int| 0 <= i < rest.len() ==> !(#[trigger] rest[i]).contains('.'),
        !second.contains('.'),
        !top.contains('.'),
        text::utf8_len(text::join(rest.push(second).push(top), '.')) <= 75,
    ensures
        ({
            let r = parser::arpa_addr(text::join(rest.push(second).push(top), '.'));
            let t = text::lower(top);
            let s = text::lower(second);
            if s == text::lower("in-addr"@) && t == text::lower("arpa"@) {
                r == parser::ipv4_arpa_addr(rest)
            } else if s == text::lower("ip6"@) && (t == text::lower("arpa"@) || t == text::lower(
                "int"@,
            )) {
                r == parser::ipv6_arpa_addr(rest)
            } else {
                r is Err
            }
        }),
{
    let parts = rest.push(second).push(top);
    assert forall|i: int| 0 <= i < parts.len() implies !(#[trigger] parts[i]).contains('.') by {
        if i < rest.len() {
            assert(parts[i] == rest[i]);
        }
    }
    text::law_join_split(parts, '.');
    assert(parts.take(parts.len() - 2) =~= rest);
}

/// Thirty-two hexadecimal digits in a bit string name the address whose bytes they
/// spell, the first byte first.
pub proof fn law_bit_string(bytes: Seq<u8>)
    requires
        bytes.len() == 16,
    ensures
        parser::bitstring_addr(
            seq!['\\', '[', 'x'] + hex_digits(bytes) + seq!['/', '1', '2', '8', ']'],
        ) == Ok::<IpAddr, ParseFault>(
            IpAddr::V6(Ipv6Addr { bits: wire::be_value(bytes) as u128 }),
        ),
{
    let digits = hex_digits(bytes);
    let label = seq!['\\', '[', 'x'] + digits + seq!['/', '1', '2', '8', ']'];
    let tail = seq!['1', '2', '8', ']'];
    assert(label.skip(3) =~= digits.push('/') + tail);
    text::law_split_in_two(digits, tail, '/');
    lemma_hex_digits(bytes);
    assert(!digits.contains('/'));
    assert(seq![digits][0] == digits);
    text::law_join_split(seq![digits], '/');
    assert(text::join(seq![digits], '/') =~= digits);
    assert(text::split(digits, '/') == seq![digits]);
    assert(text::split(label.skip(3), '/')[0] == digits);
    is_ascii_chars_encode_utf8(digits);
    assert(text::utf8_len(digits) == 32);
    lemma_hex_row(bytes, 16);
    assert(bytes.take(16) =~= bytes);
}

/// Bytes in hexadecimal, two digits for each.
pub open spec fn hex_digits(bytes: Seq<u8>) -> Seq<char> {
    Seq::new(
        2 * bytes.len(),
        |i: int|
            addr_text::hex_lower(
                if i % 2 == 0 {
                    bytes[i / 2] as int / 16
                } else {
                    bytes[i / 2] as int % 16
                },
            ),
    )
}

proof fn lemma_hex_digit(d: int)
    requires
        0 <= d < 16,
    ensures
        text::hex_value(addr_text::hex_lower(d)) == Some(d),
        (addr_text::hex_lower(d) as u32) < 128,
        addr_text::hex_lower(d) != '/',
{
}

proof fn lemma_hex_digits(bytes: Seq<u8>)
    ensures
        is_ascii_chars(hex_digits(bytes)),
        !hex_digits(bytes).contains('/'),
{
    let digits = hex_digits(bytes);
    assert forall|i: int| 0 <= i < digits.len() implies (#[trigger] digits[i] as u32) < 128
        && digits[i] != '/' by {
        lemma_hex_digit(
            if i % 2 == 0 {
                bytes[i / 2] as int / 16
            } else {
                bytes[i / 2] as int % 16
            },
        );
    }
}

proof fn lemma_hex_row(bytes: Seq<u8>, count: nat)
    requires
        count <= bytes.len(),
    ensures
        parser::hex_row(encode_utf8(hex_digits(bytes)), count) == Ok::<Seq<u8>, ParseFault>(
            bytes.take(count as int),
        ),
    decreases count,
{
    if count == 0 {
        assert(bytes.take(0) =~= Seq::<u8>::empty());
    } else {
        lemma_hex_row(bytes, (count - 1) as nat);
        lemma_hex_digits(bytes);
        let digits = hex_digits(bytes);
        let all = encode_utf8(digits);
        is_ascii_chars_encode_utf8(digits);
        let pair = all.subrange(2 * count - 2, 2 * count as int);
        let two = digits.subrange(2 * count - 2, 2 * count as int);
        assert(is_ascii_chars(two));
        is_ascii_chars_encode_utf8(two);
        assert(pair =~= encode_utf8(two));
        encode_utf8_valid_utf8(two);
        encode_utf8_decode_utf8(two);
        let b = bytes[count - 1] as int;
        assert(two[0] == addr_text::hex_lower(b / 16)) by {
            assert((2 * count - 2) % 2 == 0 && (2 * count - 2) / 2 == count - 1);
        }
        assert(two[1] == addr_text::hex_lower(b % 16)) by {
            assert((2 * count - 1) % 2 == 1 && (2 * count - 1) / 2 == count - 1);
        }
        lemma_hex_digit(b / 16);
        lemma_hex_digit(b % 16);
        assert(bytes.take(count as int) =~= bytes.take(count - 1).push(bytes[count - 1]));
    }
}

// ---------------------------------------------------------------------------
// Texts of names
// ---------------------------------------------------------------------------

/// A label is refused exactly where it holds a zero or a dot, and the first such byte is
/// told.
pub proof fn law_forbidden_bytes(label: Seq<u8>)
    ensures
        match parser::forbidden_byte(label) {
            Some(b) => exists|i: int|
                0 <= i < label.len() && #[trigger] label[i] == b && (b == 0 || b == 46) && forall|
                    j: int,
                |
                    0 <= j < i ==> #[trigger] label[j] != 0 && label[j] != 46,
            None => forall|j: int|
                0 <= j < label.len() ==> #[trigger] label[j] != 0 && label[j] != 46,
        },
    decreases label.len(),
{
    if label.len() > 0 && label[0] != 0 && label[0] != 46 {
        let rest = label.drop_first();
        law_forbidden_bytes(rest);
        match parser::forbidden_byte(rest) {
            Some(b) => {
                let i = choose|i: int|
                    0 <= i < rest.len() && #[trigger] rest[i] == b && (b == 0 || b == 46) && forall|
                        j: int,
                    |
                        0 <= j < i ==> #[trigger] rest[j] != 0 && rest[j] != 46;
                assert(label[i + 1] == b);
                assert forall|j: int| 0 <= j < i + 1 implies #[trigger] label[j] != 0 && label[j]
                    != 46 by {
                    if j > 0 {
                        assert(rest[j - 1] == label[j]);
                    }
                }
            },
            None => {
                assert forall|j: int| 0 <= j < label.len() implies #[trigger] label[j] != 0
                    && label[j] != 46 by {
                    if j > 0 {
                        assert(rest[j - 1] == label[j]);
                    }
                }
            },
        }
    }
}

/// The text of a name is its labels with a dot between each two of them, byte by byte.
pub proof fn law_text_of_a_name(labels: Seq<Seq<u8>>)
    requires
        are_labels(labels),
    ensures
        name_text(labels) == text::join(
            labels.map_values(
                |label: Seq<u8>| Seq::new(label.len(), |i: int| label[i] as u32 as char),
            ),
            '.',
        ),
{
    let f = |label: Seq<u8>| Seq::new(label.len(), |i: int| label[i] as u32 as char);
    let parts = labels.map_values(f);
    if labels.len() > 0 {
        lemma_text_from(Seq::empty(), labels);
        let all = with_labels(Seq::empty(), labels);
        assert(all =~= text::join(parts, '.').push('.')) by {
            assert(Seq::<char>::empty() + text::join(parts, '.').push('.') =~= text::join(
                parts,
                '.',
            ).push('.'));
        }
        assert(all.drop_last() =~= text::join(parts, '.'));
    }
}

proof fn lemma_text_from(name: Seq<char>, labels: Seq<Seq<u8>>)
    requires
        labels.len() > 0,
    ensures
        with_labels(name, labels) == name + text::join(
            labels.map_values(
                |label: Seq<u8>| Seq::new(label.len(), |i: int| label[i] as u32 as char),
            ),
            '.',
        ).push('.'),
    decreases labels.len(),
{
    let f = |label: Seq<u8>| Seq::new(label.len(), |i: int| label[i] as u32 as char);
    let parts = labels.map_values(f);
    let next = (name + parser::latin1(labels[0])).push('.');
    let rest = labels.drop_first();
    assert(parser::latin1(labels[0]) =~= parts[0]);
    if rest.len() == 0 {
        assert(with_labels(next, rest) == next);
        assert(parts =~= seq![parts[0]]);
        assert(next =~= name + parts[0].push('.'));
    } else {
        lemma_text_from(next, rest);
        let others = rest.map_values(f);
        assert(parts =~= seq![parts[0]] + others);
        lemma_join_front(parts[0], others);
        assert(next + text::join(others, '.').push('.') =~= name + text::join(parts, '.').push(
            '.',
        ));
    }
}

proof fn lemma_join_front(first: Seq<char>, others: Seq<Seq<char>>)
    requires
        others.len() > 0,
    ensures
        text::join(seq![first] + others, '.') == first.push('.') + text::join(others, '.'),
    decreases others.len(),
{
    let all = seq![first] + others;
    if others.len() == 1 {
        assert(all.drop_last() =~= seq![first]);
        assert(text::join(seq![first], '.') == first);
        assert(text::join(others, '.') == others[0] && all.last() == others[0]);
        assert(text::join(all, '.') =~= first.push('.') + text::join(others, '.'));
    } else {
        lemma_join_front(first, others.drop_last());
        assert(all.drop_last() =~= seq![first] + others.drop_last());
        assert(text::join(all, '.') =~= first.push('.') + text::join(others, '.'));
    }
}

/// A pointer in a name leads only back: one that leads to itself or beyond is an error,
/// and so is a pointer behind 255 others.
pub proof fn law_pointers_lead_back(
    packet: Seq<u8>,
    offset: int,
    name: Seq<char>,
    length: nat,
    visited: Set<usize>,
    hops: nat,
)
    requires
        0 <= offset,
        offset + 1 < packet.len(),
        packet[offset] & 0xC0 == 0xC0,
    ensures
        ({
            let target = (packet[offset] & 0x3F) * 256 + packet[offset + 1];
            let r = compression::follow(packet, offset, name, length, visited, hops);
            &&& target >= offset || hops >= 255 ==> r is Err
            &&& target < offset && hops < 255 && !visited.contains(offset as usize) ==> r
                == compression::follow(
                packet,
                target,
                name,
                length,
                visited.insert(offset as usize),
                hops + 1,
            )
        }),
{
    law_kinds_of_labels(packet[offset], packet[offset + 1]);
    let a = packet[offset];
    assert(a & 0xC0 == 0xC0 ==> a != 0) by (bit_vector);
}

/// A label in a name is read as it stands, and what follows it is read next; a name of
/// 1025 bytes is too long.
pub proof fn law_labels_are_followed(
    packet: Seq<u8>,
    offset: int,
    name: Seq<char>,
    length: nat,
    visited: Set<usize>,
    hops: nat,
)
    requires
        0 <= offset < packet.len(),
        0 < packet[offset] < 64,
        offset + 1 + packet[offset] <= packet.len(),
    ensures
        ({
            let end = offset + 1 + packet[offset];
            let r = compression::follow(packet, offset, name, length, visited, hops);
            &&& length + packet[offset] + 1 >= 1025 ==> r is Err
            &&& length + packet[offset] + 1 < 1025 ==> r == compression::follow(
                packet,
                end,
                (name + text::decoded(packet.subrange(offset + 1, end))).push('.'),
                (length + packet[offset] + 1) as nat,
                visited,
                hops,
            )
        }),
{
}

/// So is a label where a name is read; there a pointer may lead anywhere in the message,
/// but not behind 255 others.
pub proof fn law_labels_are_read(
    packet: Seq<u8>,
    pos: int,
    name: Seq<char>,
    hops: nat,
    back: Option<int>,
)
    requires
        0 <= pos < packet.len(),
    ensures
        ({
            let byte = packet[pos];
            let r = parser::read_name(packet, pos, name, hops, back);
            let end = pos + 1 + byte;
            &&& 0 < byte < 64 && (text::utf8_len(name) + byte + 1 > 1025 || end > packet.len())
                ==> r is Err
            &&& 0 < byte < 64 && text::utf8_len(name) + byte + 1 <= 1025 && end <= packet.len() && (
            forall|i: int| pos < i < end ==> #[trigger] packet[i] != 0 && packet[i] != 46) ==> r
                == parser::read_name(
                packet,
                end,
                (name + parser::latin1(packet.subrange(pos + 1, end))).push('.'),
                hops,
                back,
            )
            &&& 64 <= byte < 192 ==> r == Err::<(int, Seq<char>), ParseFault>(
                ParseFault::InvalidLabelType { label_type: byte },
            )
            &&& byte >= 192 && hops >= 255 ==> r is Err
            &&& byte >= 192 && hops < 255 && pos + 1 < packet.len() ==> {
                let target = (byte - 192) * 256 + packet[pos + 1];
                &&& target >= packet.len() ==> r is Err
                &&& target < packet.len() ==> r == parser::read_name(
                    packet,
                    target,
                    name,
                    hops + 1,
                    if back is Some {
                        back
                    } else {
                        Some(pos + 2)
                    },
                )
            }
        }),
{
    let byte = packet[pos];
    let end = pos + 1 + byte;
    if 0 < byte < 64 && end <= packet.len() {
        let label = packet.subrange(pos + 1, end);
        law_forbidden_bytes(label);
        if forall|i: int| pos < i < end ==> #[trigger] packet[i] != 0 && packet[i] != 46 {
            assert forall|j: int| 0 <= j < label.len() implies #[trigger] label[j] != 0 && label[j]
                != 46 by {
                assert(label[j] == packet[pos + 1 + j]);
            }
        }
    }
}

} // verus!
