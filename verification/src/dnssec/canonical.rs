//! The canonical form of names and records, which is what signatures cover.

use crate::parser::{self, extract_name};
use crate::text;
use crate::wire::{copy_range, push_bytes};
use vstd::prelude::*;
use vstd::slice::slice_subrange;
use vstd::utf8::*;

verus! {

/// The byte that stands before a character with a special meaning; the character
/// itself is then one higher.
pub const NAME_ESCAPE: u8 = 1;

const DOT: u8 = 0x2E;

pub const SERIAL_UNDEF: i32 = -100;

pub const SERIAL_EQ: i32 = 0;

pub const SERIAL_LT: i32 = -1;

pub const SERIAL_GT: i32 = 1;

// ---------------------------------------------------------------------------
// Names
// ---------------------------------------------------------------------------

/// A byte with an ASCII capital in its lower-case form.
pub open spec fn lower_byte(b: u8) -> u8 {
    if 0x41 <= b <= 0x5A {
        (b + 32) as u8
    } else {
        b
    }
}

/// A label behind its length; an empty one is left out.
pub open spec fn counted_label(label: Seq<u8>) -> Seq<u8> {
    if label.len() == 0 {
        Seq::empty()
    } else {
        seq![(label.len() % 256) as u8] + label
    }
}

/// The wire form of a text from `i` on, where `label` has been begun and `done`
/// comes before it. A zero byte ends the text; an escape with nothing behind it is
/// left out.
pub open spec fn wire_from(text: Seq<u8>, i: int, label: Seq<u8>, done: Seq<u8>) -> Seq<u8>
    decreases text.len() - i,
{
    if i >= text.len() || text[i] == 0 {
        (done + counted_label(label)).push(0)
    } else if text[i] == 0x2E {
        wire_from(text, i + 1, Seq::empty(), done + counted_label(label))
    } else if text[i] == NAME_ESCAPE {
        if i + 1 >= text.len() || text[i + 1] == 0 {
            wire_from(text, i + 1, label, done)
        } else {
            wire_from(text, i + 2, label.push((text[i + 1] - 1) as u8), done)
        }
    } else {
        wire_from(text, i + 1, label.push(lower_byte(text[i])), done)
    }
}

/// A name in canonical wire form: lower case, each label behind its length, and a
/// zero byte at the end.
pub open spec fn wire_name(text: Seq<u8>) -> Seq<u8> {
    wire_from(text, 0, Seq::empty(), Seq::empty())
}

/// Appends a label behind its length.
pub fn push_label(out: &mut Vec<u8>, label: &Vec<u8>)
    ensures
        final(out)@ == old(out)@ + counted_label(label@),
{
    if label.len() > 0 {
        out.push((label.len() % 256) as u8);
        push_bytes(out, label.as_slice());
    }
    assert(out@ =~= old(out)@ + counted_label(label@));
}

/// Turns a name with dots between its labels into canonical wire form; gives its
/// length.
pub fn to_wire(name: &mut Vec<u8>) -> (r: usize)
    ensures
        final(name)@ == wire_name(old(name)@),
        r == final(name)@.len(),
{
    let n: usize = name.len();
    let ghost text = name@;
    let mut out: Vec<u8> = Vec::new();
    let mut label: Vec<u8> = Vec::new();
    let mut i: usize = 0;
    while i < n && name[i] != 0
        invariant
            n == name@.len(),
            name@ == text,
            i <= n,
            wire_name(text) == wire_from(text, i as int, label@, out@),
        decreases n - i,
    {
        let b: u8 = name[i];
        if b == DOT {
            push_label(&mut out, &label);
            label = Vec::new();
            i = i + 1;
        } else if b == NAME_ESCAPE {
            if n - i > 1 && name[i + 1] != 0 {
                label.push(name[i + 1] - 1);
                i = i + 2;
            } else {
                i = i + 1;
            }
        } else {
            if 0x41 <= b && b <= 0x5A {
                label.push(b + 32);
            } else {
                label.push(b);
            }
            i = i + 1;
        }
    }
    push_label(&mut out, &label);
    out.push(0);
    let len: usize = out.len();
    *name = out;
    len
}

/// A byte as it stands in a text: behind an escape, one higher, where it would
/// have a special meaning.
pub open spec fn escaped_byte(b: u8) -> Seq<u8> {
    if b == 0x2E || b == 0 || b == NAME_ESCAPE {
        seq![NAME_ESCAPE, (b + 1) as u8]
    } else {
        seq![b]
    }
}

/// Bytes as they stand in a text.
pub open spec fn escaped(bytes: Seq<u8>) -> Seq<u8>
    decreases bytes.len(),
{
    if bytes.len() == 0 {
        Seq::empty()
    } else {
        escaped(bytes.drop_last()) + escaped_byte(bytes.last())
    }
}

/// The text of a name in wire form from `i` on, behind `done`. A label that is cut
/// short by the end of the data is taken as far as it goes.
pub open spec fn text_from(wire: Seq<u8>, i: int, done: Seq<u8>) -> Seq<u8>
    decreases wire.len() - i,
{
    if i >= wire.len() || wire[i] == 0 {
        done
    } else {
        let end = if i + 1 + wire[i] <= wire.len() {
            i + 1 + wire[i]
        } else {
            wire.len() as int
        };
        let label = escaped(wire.subrange(i + 1, end));
        text_from(
            wire,
            end,
            if i == 0 {
                label
            } else {
                done.push(0x2E) + label
            },
        )
    }
}

/// The text of a name in wire form: its labels with dots between them.
pub open spec fn text_name(wire: Seq<u8>) -> Seq<u8> {
    text_from(wire, 0, Seq::empty())
}

/// Turns a name in wire form into a text with dots between its labels.
pub fn from_wire(name: &mut Vec<u8>)
    ensures
        final(name)@ == text_name(old(name)@),
{
    let n: usize = name.len();
    let ghost wire = name@;
    let mut out: Vec<u8> = Vec::new();
    let mut i: usize = 0;
    while i < n && name[i] != 0
        invariant
            n == name@.len(),
            name@ == wire,
            i <= n,
            i == 0 ==> out@.len() == 0,
            text_name(wire) == text_from(wire, i as int, out@),
        decreases n - i,
    {
        let len: usize = name[i] as usize;
        let end: usize = if len <= n - i - 1 {
            i + 1 + len
        } else {
            n
        };
        let ghost done = out@;
        if i > 0 {
            out.push(DOT);
        }
        let ghost front = out@;
        let mut k: usize = i + 1;
        assert(front + escaped(wire.subrange(i + 1, i + 1)) =~= front);
        while k < end
            invariant
                n == name@.len(),
                name@ == wire,
                i < k <= end <= n,
                out@ == front + escaped(wire.subrange(i + 1, k as int)),
            decreases end - k,
        {
            let b: u8 = name[k];
            proof {
                let longer = wire.subrange(i + 1, k + 1);
                assert(longer.drop_last() =~= wire.subrange(i + 1, k as int));
                assert(longer.last() == b);
            }
            if b == DOT || b == 0 || b == NAME_ESCAPE {
                out.push(NAME_ESCAPE);
                out.push(b + 1);
            } else {
                out.push(b);
            }
            assert(out@ =~= front + escaped(wire.subrange(i + 1, k + 1)));
            k = k + 1;
        }
        proof {
            let label = escaped(wire.subrange(i + 1, end as int));
            assert(out@ =~= if i == 0 {
                label
            } else {
                done.push(0x2E) + label
            });
        }
        i = end;
    }
    *name = out;
}

/// A label that wire form can hold, in lower case.
pub open spec fn is_canonical_label(label: Seq<u8>) -> bool {
    &&& 1 <= label.len() <= 255
    &&& forall|i: int| 0 <= i < label.len() ==> !(0x41 <= #[trigger] label[i] <= 0x5A)
}

/// Labels in wire form.
pub open spec fn wire_of_labels(labels: Seq<Seq<u8>>) -> Seq<u8>
    decreases labels.len(),
{
    if labels.len() == 0 {
        seq![0u8]
    } else {
        counted_label(labels[0]) + wire_of_labels(labels.drop_first())
    }
}

/// Labels as a text behind one another, each but the first behind a dot.
pub open spec fn text_of_labels(labels: Seq<Seq<u8>>, first: bool) -> Seq<u8>
    decreases labels.len(),
{
    if labels.len() == 0 {
        Seq::empty()
    } else {
        (if first {
            Seq::empty()
        } else {
            seq![0x2Eu8]
        }) + escaped(labels[0]) + text_of_labels(labels.drop_first(), false)
    }
}

/// The text of labels in wire form.
proof fn lemma_text_of_wire(front: Seq<u8>, labels: Seq<Seq<u8>>, done: Seq<u8>)
    requires
        forall|i: int| 0 <= i < labels.len() ==> is_canonical_label(#[trigger] labels[i]),
        front.len() == 0 ==> done.len() == 0,
    ensures
        text_from(front + wire_of_labels(labels), front.len() as int, done) == done
            + text_of_labels(labels, front.len() == 0),
    decreases labels.len(),
{
    let wire = front + wire_of_labels(labels);
    let i = front.len() as int;
    if labels.len() == 0 {
        assert(wire[i] == 0);
        assert(done + text_of_labels(labels, front.len() == 0) =~= done);
    } else {
        let label = labels[0];
        let rest = labels.drop_first();
        let counted = counted_label(label);
        assert(is_canonical_label(label));
        assert(wire_of_labels(labels) == counted + wire_of_labels(rest));
        assert(wire[i] == label.len());
        let end = i + 1 + label.len();
        assert(wire_of_labels(rest).len() >= 0);
        assert(wire.subrange(i + 1, end) =~= label);
        let now = if i == 0 {
            escaped(label)
        } else {
            done.push(0x2E) + escaped(label)
        };
        assert forall|k: int| 0 <= k < rest.len() implies is_canonical_label(
            #[trigger] rest[k],
        ) by {
            assert(rest[k] == labels[k + 1]);
        }
        assert(wire =~= (front + counted) + wire_of_labels(rest));
        lemma_text_of_wire(front + counted, rest, now);
        assert(now + text_of_labels(rest, false) =~= done + text_of_labels(
            labels,
            front.len() == 0,
        ));
    }
}

/// Escaped bytes are read back as those bytes.
proof fn lemma_read_escaped(
    front: Seq<u8>,
    bytes: Seq<u8>,
    n: int,
    tail: Seq<u8>,
    label: Seq<u8>,
    done: Seq<u8>,
)
    requires
        0 <= n <= bytes.len(),
        forall|i: int| 0 <= i < bytes.len() ==> !(0x41 <= #[trigger] bytes[i] <= 0x5A),
    ensures
        ({
            let text = front + escaped(bytes) + tail;
            wire_from(text, front.len() as int, label, done) == wire_from(
                text,
                (front + escaped(bytes.take(n))).len() as int,
                label + bytes.take(n),
                done,
            )
        }),
        escaped(bytes.take(n)).len() <= escaped(bytes).len(),
        escaped(bytes.take(n)) == escaped(bytes).take(escaped(bytes.take(n)).len() as int),
    decreases n,
{
    let text = front + escaped(bytes) + tail;
    lemma_escaped_prefix(bytes, n);
    if n == 0 {
        assert(bytes.take(0) =~= Seq::empty());
        assert(front + escaped(bytes.take(0)) =~= front);
        assert(label + bytes.take(0) =~= label);
    } else {
        lemma_read_escaped(front, bytes, n - 1, tail, label, done);
        let short = bytes.take(n - 1);
        let long = bytes.take(n);
        let b = bytes[n - 1];
        assert(long.drop_last() =~= short);
        assert(long.last() == b);
        let pos = (front + escaped(short)).len() as int;
        let piece = escaped_byte(b);
        assert(escaped(long) == escaped(short) + piece);
        assert(escaped(long) == escaped(bytes).take(escaped(long).len() as int));
        assert(forall|k: int|
            0 <= k < escaped(long).len() ==> #[trigger] text[front.len() + k] == escaped(long)[k]);
        assert(text[front.len() + escaped(short).len() as int] == piece[0]);
        if piece.len() == 2 {
            assert(text[front.len() + (escaped(short).len() + 1) as int] == piece[1]);
        }
        assert((label + short).push(b) =~= label + long);
    }
}

/// Escaping the first bytes gives the first part of escaping all.
proof fn lemma_escaped_prefix(bytes: Seq<u8>, n: int)
    requires
        0 <= n <= bytes.len(),
    ensures
        escaped(bytes.take(n)).len() <= escaped(bytes).len(),
        escaped(bytes.take(n)) == escaped(bytes).take(escaped(bytes.take(n)).len() as int),
    decreases bytes.len(),
{
    if n == bytes.len() {
        assert(bytes.take(n) =~= bytes);
        assert(escaped(bytes).take(escaped(bytes).len() as int) =~= escaped(bytes));
    } else {
        let init = bytes.drop_last();
        lemma_escaped_prefix(init, n);
        assert(init.take(n) =~= bytes.take(n));
        assert(escaped(bytes).take(escaped(bytes.take(n)).len() as int) =~= escaped(init).take(
            escaped(bytes.take(n)).len() as int,
        ));
    }
}

/// The wire form of labels as a text, from a label on.
proof fn lemma_wire_of_text(front: Seq<u8>, labels: Seq<Seq<u8>>, label: Seq<u8>, done: Seq<u8>)
    requires
        forall|i: int| 0 <= i < labels.len() ==> is_canonical_label(#[trigger] labels[i]),
        front.len() == 0 ==> label.len() == 0 && done.len() == 0,
    ensures
        wire_from(
            front + text_of_labels(labels, front.len() == 0),
            front.len() as int,
            label,
            done,
        ) == done + counted_label(label) + wire_of_labels(labels),
    decreases labels.len(),
{
    let first = front.len() == 0;
    let text = front + text_of_labels(labels, first);
    if labels.len() == 0 {
        assert(text =~= front);
        assert((done + counted_label(label)).push(0) =~= done + counted_label(label)
            + wire_of_labels(labels));
    } else {
        let next = labels[0];
        let rest = labels.drop_first();
        assert(is_canonical_label(next));
        let dot: Seq<u8> = if first {
            Seq::empty()
        } else {
            seq![0x2Eu8]
        };
        let tail = text_of_labels(rest, false);
        assert(text =~= (front + dot) + escaped(next) + tail);
        let done2 = if first {
            done
        } else {
            done + counted_label(label)
        };
        if first {
            assert(label =~= Seq::empty());
            assert(front + dot =~= front);
        } else {
            assert(text[front.len() as int] == 0x2E);
        }
        assert(wire_from(text, front.len() as int, label, done) == wire_from(
            text,
            (front + dot).len() as int,
            Seq::empty(),
            done2,
        ));
        lemma_read_escaped(
            front + dot,
            next,
            next.len() as int,
            tail,
            Seq::empty(),
            done2,
        );
        assert(next.take(next.len() as int) =~= next);
        assert(Seq::<u8>::empty() + next =~= next);
        assert forall|k: int| 0 <= k < rest.len() implies is_canonical_label(
            #[trigger] rest[k],
        ) by {
            assert(rest[k] == labels[k + 1]);
        }
        let front2 = front + dot + escaped(next);
        lemma_escaped_not_empty(next);
        assert(text =~= front2 + tail);
        lemma_wire_of_text(front2, rest, next, done2);
        assert(done2 + counted_label(next) + wire_of_labels(rest) =~= done + counted_label(label)
            + wire_of_labels(labels));
    }
}

/// Escaping something gives something.
proof fn lemma_escaped_not_empty(bytes: Seq<u8>)
    requires
        bytes.len() > 0,
    ensures
        escaped(bytes).len() > 0,
{
}

/// A name in canonical wire form is got back from its text.
pub proof fn law_wire_name_round_trip(labels: Seq<Seq<u8>>)
    requires
        forall|i: int| 0 <= i < labels.len() ==> is_canonical_label(#[trigger] labels[i]),
    ensures
        wire_name(text_name(wire_of_labels(labels))) == wire_of_labels(labels),
{
    let wire = wire_of_labels(labels);
    lemma_text_of_wire(Seq::empty(), labels, Seq::empty());
    assert(Seq::<u8>::empty() + wire =~= wire);
    let text = text_of_labels(labels, true);
    assert(Seq::<u8>::empty() + text =~= text);
    lemma_wire_of_text(Seq::empty(), labels, Seq::empty(), Seq::empty());
    assert(Seq::<u8>::empty() + counted_label(Seq::empty()) + wire =~= wire);
}

/// What is behind a place in two texts that differ in case has the same wire form.
proof fn lemma_wire_ignores_case(a: Seq<u8>, b: Seq<u8>, i: int, label: Seq<u8>, done: Seq<u8>)
    requires
        0 <= i,
        a.len() == b.len(),
        forall|k: int|
            0 <= k < a.len() ==> lower_byte(#[trigger] a[k]) == lower_byte(b[k]) && a[k]
                != NAME_ESCAPE,
    ensures
        wire_from(a, i, label, done) == wire_from(b, i, label, done),
    decreases a.len() - i,
{
    if i < a.len() && a[i] != 0 {
        if a[i] == 0x2E {
            lemma_wire_ignores_case(a, b, i + 1, Seq::empty(), done + counted_label(label));
        } else {
            lemma_wire_ignores_case(a, b, i + 1, label.push(lower_byte(a[i])), done);
        }
    }
}

/// Names that differ only in the case of ASCII letters have the same canonical
/// wire form.
pub proof fn law_wire_name_ignores_case(a: Seq<u8>, b: Seq<u8>)
    requires
        a.len() == b.len(),
        forall|k: int|
            0 <= k < a.len() ==> lower_byte(#[trigger] a[k]) == lower_byte(b[k]) && a[k]
                != NAME_ESCAPE,
    ensures
        wire_name(a) == wire_name(b),
{
    lemma_wire_ignores_case(a, b, 0, Seq::empty(), Seq::empty());
}

/// How many labels a name has.
pub open spec fn label_count(name: Seq<char>) -> nat {
    if name.len() == 0 {
        0
    } else if name[0] == '.' {
        (text::split(name, '.').len() - 1) as nat
    } else {
        text::split(name, '.').len()
    }
}

/// How many labels a name has: one more than it has dots, unless it starts with
/// one.
pub fn count_labels(name: &str) -> (r: usize)
    ensures
        r == label_count(name@),
{
    if name.is_empty() {
        return 0;
    }
    let parts = text::split_text(name, '.');
    assert(text::texts(parts@).len() == parts@.len());
    if name.get_char(0) == '.' {
        parts.len() - 1
    } else {
        parts.len()
    }
}

// ---------------------------------------------------------------------------
// Serial numbers
// ---------------------------------------------------------------------------

/// How two serial numbers compare on their circle: the one that is less than half
/// the circle ahead is the greater; two that are half the circle apart do not
/// compare.
pub open spec fn serial_order(s1: u32, s2: u32) -> i32 {
    let ahead = (s1 - s2) % 0x1_0000_0000;
    if ahead == 0 {
        SERIAL_EQ
    } else if ahead < 0x8000_0000 {
        SERIAL_GT
    } else if ahead > 0x8000_0000 {
        SERIAL_LT
    } else {
        SERIAL_UNDEF
    }
}

/// Compares two serial numbers.
pub fn serial_compare_32(s1: u32, s2: u32) -> (r: i32)
    ensures
        r == serial_order(s1, s2),
{
    if s1 == s2 {
        return SERIAL_EQ;
    }
    let ahead: u32 = s1.wrapping_sub(s2);
    if ahead < 0x8000_0000 {
        SERIAL_GT
    } else if ahead > 0x8000_0000 {
        SERIAL_LT
    } else {
        SERIAL_UNDEF
    }
}

/// Of two serial numbers that compare, one is the greater exactly when the other
/// is the lesser.
pub proof fn law_serial_order_turns(s1: u32, s2: u32)
    ensures
        serial_order(s1, s2) == SERIAL_GT <==> serial_order(s2, s1) == SERIAL_LT,
        serial_order(s1, s2) == SERIAL_EQ <==> s1 == s2,
        serial_order(s1, s2) == SERIAL_UNDEF <==> serial_order(s2, s1) == SERIAL_UNDEF,
{
}

/// A serial number is greater than one that it follows by less than half the
/// circle.
pub proof fn law_serial_follows(s: u32, step: u32)
    requires
        0 < step < 0x8000_0000,
    ensures
        serial_order(((s + step) % 0x1_0000_0000) as u32, s) == SERIAL_GT,
{
}

// ---------------------------------------------------------------------------
// Record data
// ---------------------------------------------------------------------------

/// The part of a descriptor that stands for all bytes that are left.
pub const ALL_BYTES: u16 = 0xFFFF;

/// The canonical bytes of record data between `ip` and `end` by a descriptor: zero
/// for a name, which is written out in full, `ALL_BYTES` for what is left, and any
/// other number for so many bytes. A name that cannot be read is passed over.
pub open spec fn canonical_bytes(packet: Seq<u8>, ip: int, end: int, desc: Seq<u16>) -> Seq<u8>
    decreases desc.len(),
{
    if ip >= end || desc.len() == 0 {
        Seq::empty()
    } else {
        let (bytes, next) = canonical_piece(packet, ip, end, desc[0]);
        bytes + canonical_bytes(packet, next, end, desc.drop_first())
    }
}

/// The canonical bytes by one part of a descriptor, and where the next part
/// starts.
pub open spec fn canonical_piece(packet: Seq<u8>, ip: int, end: int, part: u16) -> (
    Seq<u8>,
    int,
) {
    if part == 0 {
        match parser::name_at(packet, ip) {
            Ok((next, name)) => (wire_name(encode_utf8(name)), next),
            Err(_) => (Seq::empty(), ip),
        }
    } else if part == ALL_BYTES || part > end - ip {
        (packet.subrange(ip, end), end)
    } else {
        (packet.subrange(ip, ip + part), ip + part)
    }
}

/// The parts of the data of a type: which of them are names that signatures cover
/// in canonical form.
pub open spec fn descriptor(rtype: u16) -> Seq<u16> {
    match rtype {
        // NS, MD, MF, CNAME, MB, MG, MR, PTR, NXT and DNAME: a name.
        2 | 3 | 4 | 5 | 7 | 8 | 9 | 12 | 30 | 39 => seq![0, ALL_BYTES],
        // SOA, MINFO and RP: two names.
        6 | 14 | 17 => seq![0, 0, ALL_BYTES],
        // MX, AFSDB, RT and KX: a number and a name.
        15 | 18 | 21 | 36 => seq![2, 0, ALL_BYTES],
        // SIG: its own fields and a name.
        24 => seq![18, 0, ALL_BYTES],
        // PX: a number and two names.
        26 => seq![2, 0, 0, ALL_BYTES],
        // SRV: three numbers and a name.
        33 => seq![6, 0, ALL_BYTES],
        _ => seq![ALL_BYTES],
    }
}

/// The parts of the data of a type.
fn find_descriptor(rtype: u16) -> (r: Vec<u16>)
    ensures
        r@ == descriptor(rtype),
{
    match rtype {
        2 | 3 | 4 | 5 | 7 | 8 | 9 | 12 | 30 | 39 => vec![0, ALL_BYTES],
        6 | 14 | 17 => vec![0, 0, ALL_BYTES],
        15 | 18 | 21 | 36 => vec![2, 0, ALL_BYTES],
        24 => vec![18, 0, ALL_BYTES],
        26 => vec![2, 0, 0, ALL_BYTES],
        33 => vec![6, 0, ALL_BYTES],
        _ => vec![ALL_BYTES],
    }
}

/// The data of a record of a type, between two places, in canonical form.
pub open spec fn canonical_data(packet: Seq<u8>, start: int, end: int, rtype: u16) -> Seq<u8> {
    canonical_bytes(packet, start, end, descriptor(rtype))
}

/// Reads the data of a record in canonical form.
pub fn read_data(packet: &[u8], start: usize, end: usize, rtype: u16) -> (r: Vec<u8>)
    requires
        start <= packet@.len(),
        end <= packet@.len(),
    ensures
        r@ == canonical_data(packet@, start as int, end as int, rtype),
{
    let mut state = RdataState::new(start, end, find_descriptor(rtype));
    let ghost all = canonical_data(packet@, start as int, end as int, rtype);
    assert(state.fits(packet@));
    let mut data: Vec<u8> = Vec::new();
    assert(data@ + state.rest(packet@) =~= all);
    while get_rdata(packet, &mut state)
        invariant
            state.fits(packet@),
            data@ + state.rest(packet@) == all,
        ensures
            data@ == all,
        decreases state.rest(packet@).len(),
    {
        match state.op {
            Some(byte) => {
                let ghost before = data@;
                data.push(byte);
                assert(data@ + state.rest(packet@) =~= all);
            },
            None => {},
        }
    }
    data
}

/// Data of a type without names is its own canonical form.
pub proof fn law_plain_data_is_canonical(packet: Seq<u8>, start: int, end: int, rtype: u16)
    requires
        0 <= start <= end <= packet.len(),
        descriptor(rtype) == seq![ALL_BYTES],
    ensures
        canonical_data(packet, start, end, rtype) == packet.subrange(start, end),
{
    let desc = seq![ALL_BYTES];
    assert(desc.drop_first() =~= Seq::empty());
    reveal_with_fuel(canonical_bytes, 2);
    assert(canonical_bytes(packet, start, end, desc) =~= packet.subrange(start, end));
}

/// Data that is a name is covered as that name in canonical form, however it was
/// written in the message.
pub proof fn law_name_data_is_canonical(
    packet: Seq<u8>,
    start: int,
    end: int,
    rtype: u16,
    name: Seq<char>,
)
    requires
        start < end,
        descriptor(rtype) == seq![0, ALL_BYTES],
        parser::name_at(packet, start) == Ok::<(int, Seq<char>), parser::ParseFault>((end, name)),
    ensures
        canonical_data(packet, start, end, rtype) == wire_name(encode_utf8(name)),
{
    let desc = seq![0, ALL_BYTES];
    assert(desc.drop_first() =~= seq![ALL_BYTES]);
    reveal_with_fuel(canonical_bytes, 2);
    assert(canonical_bytes(packet, start, end, desc) =~= wire_name(encode_utf8(name)));
}

/// How far record data has been read in canonical form.
pub struct RdataState {
    /// Where the next part starts.
    pub ip: usize,
    /// Where the data ends.
    pub end: usize,
    /// The byte that was read last.
    pub op: Option<u8>,
    /// The bytes of the present part.
    pub chunk: Vec<u8>,
    /// How many of them have been read.
    pub c: usize,
    pub desc: Vec<u16>,
    /// How many parts of the descriptor have been used.
    pub used: usize,
}

impl RdataState {
    /// The state fits a message.
    pub open spec fn fits(self, packet: Seq<u8>) -> bool {
        &&& self.ip <= packet.len()
        &&& self.end <= packet.len()
        &&& self.c <= self.chunk@.len()
        &&& self.used <= self.desc@.len()
    }

    /// The bytes that are still to be read.
    pub open spec fn rest(self, packet: Seq<u8>) -> Seq<u8> {
        self.chunk@.skip(self.c as int) + canonical_bytes(
            packet,
            self.ip as int,
            self.end as int,
            self.desc@.skip(self.used as int),
        )
    }

    /// Nothing has been read of the data between two places.
    pub fn new(start: usize, end: usize, desc: Vec<u16>) -> (r: Self)
        ensures
            forall|packet: Seq<u8>|
                start <= packet.len() && end <= packet.len() ==> #[trigger] r.fits(packet)
                    && r.rest(packet) == canonical_bytes(
                    packet,
                    start as int,
                    end as int,
                    desc@,
                ),
    {
        let r = RdataState {
            ip: start,
            end,
            op: None,
            chunk: Vec::new(),
            c: 0,
            desc,
            used: 0,
        };
        proof {
            assert(r.desc@.skip(0) =~= desc@);
            assert forall|packet: Seq<u8>| start <= packet.len() && end <= packet.len() implies
                #[trigger] r.fits(packet) && r.rest(packet) == canonical_bytes(
                packet,
                start as int,
                end as int,
                desc@,
            ) by {
                assert(r.rest(packet) =~= canonical_bytes(
                    packet,
                    start as int,
                    end as int,
                    desc@,
                ));
            }
        }
        r
    }
}

/// Reads the next canonical byte of record data; false at its end.
pub fn get_rdata(packet: &[u8], state: &mut RdataState) -> (r: bool)
    requires
        old(state).fits(packet@),
    ensures
        final(state).fits(packet@),
        r == (old(state).rest(packet@).len() > 0),
        r ==> final(state).op == Some(old(state).rest(packet@)[0]) && final(state).rest(packet@)
            == old(state).rest(packet@).skip(1),
        !r ==> final(state).rest(packet@).len() == 0 && final(state).op == old(state).op,
{
    let ghost all = state.rest(packet@);
    while state.c == state.chunk.len()
        invariant
            state.fits(packet@),
            state.rest(packet@) == all,
            all == old(state).rest(packet@),
            state.op == old(state).op,
        decreases state.desc@.len() - state.used,
    {
        assert(state.chunk@.skip(state.c as int) =~= Seq::empty());
        if state.ip >= state.end || state.used >= state.desc.len() {
            assert(state.desc@.skip(state.used as int).len() == state.desc@.len() - state.used);
            assert(all =~= Seq::empty());
            return false;
        }
        let part: u16 = state.desc[state.used];
        let ghost desc = state.desc@.skip(state.used as int);
        assert(desc[0] == part);
        assert(desc.drop_first() =~= state.desc@.skip(state.used + 1));
        let ghost (piece, next) = canonical_piece(
            packet@,
            state.ip as int,
            state.end as int,
            part,
        );
        assert(all =~= piece + canonical_bytes(
            packet@,
            next,
            state.end as int,
            desc.drop_first(),
        ));
        if part == 0 {
            let input = slice_subrange(packet, state.ip, packet.len());
            assert(input@ =~= packet@.skip(state.ip as int));
            match extract_name(packet, input) {
                Ok((rest, name)) => {
                    let bytes = name.as_str().as_bytes();
                    let mut chunk = copy_range(bytes, 0, bytes.len());
                    assert(chunk@ =~= encode_utf8(name@));
                    to_wire(&mut chunk);
                    state.chunk = chunk;
                    state.ip = packet.len() - rest.len();
                },
                Err(_) => {
                    state.chunk = Vec::new();
                },
            }
        } else {
            let left: usize = state.end - state.ip;
            let stop: usize = if part == ALL_BYTES || part as usize > left {
                state.end
            } else {
                state.ip + part as usize
            };
            state.chunk = copy_range(packet, state.ip, stop);
            state.ip = stop;
        }
        state.c = 0;
        state.used = state.used + 1;
        assert(state.chunk@.skip(0) =~= state.chunk@);
        assert(state.chunk@ =~= piece);
    }
    let read: usize = state.c;
    let len: usize = state.chunk.len();
    assert(read < len);
    state.op = Some(state.chunk[read]);
    state.c = read + 1;
    proof {
        assert(all[0] == state.chunk@[state.c - 1]);
        assert(state.rest(packet@) =~= all.skip(1));
    }
    true
}

// ---------------------------------------------------------------------------
// The order of records
// ---------------------------------------------------------------------------

/// A record that is signed.
#[derive(Debug, Clone)]
pub struct ResourceRecord {
    pub name: String,
    pub rtype: u16,
    pub class: u16,
    pub ttl: u32,
    pub rdlength: u16,
    pub rdata: Vec<u8>,
}

/// What a `ResourceRecord` holds.
pub struct RecordModel {
    pub name: Seq<char>,
    pub rtype: u16,
    pub class: u16,
    pub ttl: u32,
    pub rdlength: u16,
    pub rdata: Seq<u8>,
}

impl View for ResourceRecord {
    type V = RecordModel;

    open spec fn view(&self) -> RecordModel {
        RecordModel {
            name: self.name@,
            rtype: self.rtype,
            class: self.class,
            ttl: self.ttl,
            rdlength: self.rdlength,
            rdata: self.rdata@,
        }
    }
}

/// The records of a vector.
pub open spec fn record_models(records: Seq<ResourceRecord>) -> Seq<RecordModel> {
    records.map_values(|r: ResourceRecord| r@)
}

/// The order of bytes from the first on; what another starts with comes before
/// it.
pub open spec fn bytes_le(a: Seq<u8>, b: Seq<u8>) -> bool
    decreases a.len(),
{
    if a.len() == 0 {
        true
    } else if b.len() == 0 {
        false
    } else if a[0] != b[0] {
        a[0] < b[0]
    } else {
        bytes_le(a.drop_first(), b.drop_first())
    }
}

/// Records in the order of their data.
pub open spec fn is_ordered(records: Seq<RecordModel>) -> bool {
    forall|i: int, j: int|
        0 <= i <= j < records.len() ==> bytes_le(
            #[trigger] records[i].rdata,
            #[trigger] records[j].rdata,
        )
}

/// The records with the same data, in the order in which they stand.
pub open spec fn same_data(records: Seq<RecordModel>, rdata: Seq<u8>) -> Seq<RecordModel>
    decreases records.len(),
{
    if records.len() == 0 {
        records
    } else {
        let rest = same_data(records.drop_last(), rdata);
        if records.last().rdata == rdata {
            rest.push(records.last())
        } else {
            rest
        }
    }
}

/// Compares bytes.
pub fn bytes_before(a: &Vec<u8>, b: &Vec<u8>) -> (r: bool)
    ensures
        r == bytes_le(a@, b@),
{
    let mut i: usize = 0;
    assert(a@.skip(0) =~= a@);
    assert(b@.skip(0) =~= b@);
    while i < a.len() && i < b.len() && a[i] == b[i]
        invariant
            i <= a@.len(),
            i <= b@.len(),
            bytes_le(a@, b@) == bytes_le(a@.skip(i as int), b@.skip(i as int)),
        decreases a@.len() - i,
    {
        assert(a@.skip(i as int).drop_first() =~= a@.skip(i + 1));
        assert(b@.skip(i as int).drop_first() =~= b@.skip(i + 1));
        i = i + 1;
    }
    if i == a.len() {
        return true;
    }
    if i == b.len() {
        return false;
    }
    a[i] < b[i]
}

/// Any two byte rows are in order one way, and both ways only when they are the
/// same.
pub proof fn lemma_bytes_total(a: Seq<u8>, b: Seq<u8>)
    ensures
        bytes_le(a, b) || bytes_le(b, a),
        bytes_le(a, b) && bytes_le(b, a) ==> a == b,
        bytes_le(a, a),
    decreases a.len(),
{
    if a.len() > 0 {
        lemma_bytes_total(a.drop_first(), a.drop_first());
        if b.len() > 0 && a[0] == b[0] {
            lemma_bytes_total(a.drop_first(), b.drop_first());
            if bytes_le(a, b) && bytes_le(b, a) {
                assert(a =~= seq![a[0]] + a.drop_first());
                assert(b =~= seq![b[0]] + b.drop_first());
            }
        }
    } else if b.len() == 0 {
        assert(a =~= b);
    }
}

/// The order goes on from one to the next.
pub proof fn lemma_bytes_transitive(a: Seq<u8>, b: Seq<u8>, c: Seq<u8>)
    requires
        bytes_le(a, b),
        bytes_le(b, c),
    ensures
        bytes_le(a, c),
    decreases a.len(),
{
    if a.len() > 0 && b.len() > 0 && c.len() > 0 && a[0] == b[0] && b[0] == c[0] {
        lemma_bytes_transitive(a.drop_first(), b.drop_first(), c.drop_first());
    }
}

/// The records with the same data of two rows.
proof fn lemma_same_data_concat(a: Seq<RecordModel>, b: Seq<RecordModel>, rdata: Seq<u8>)
    ensures
        same_data(a + b, rdata) == same_data(a, rdata) + same_data(b, rdata),
    decreases b.len(),
{
    if b.len() == 0 {
        assert(a + b =~= a);
        assert(same_data(a, rdata) + same_data(b, rdata) =~= same_data(a, rdata));
    } else {
        assert((a + b).drop_last() =~= a + b.drop_last());
        lemma_same_data_concat(a, b.drop_last(), rdata);
        assert(same_data(a + b, rdata) =~= same_data(a, rdata) + same_data(b, rdata));
    }
}

/// Where no record has the data, none is among those with it.
proof fn lemma_no_same_data(records: Seq<RecordModel>, rdata: Seq<u8>)
    requires
        forall|i: int| 0 <= i < records.len() ==> (#[trigger] records[i]).rdata != rdata,
    ensures
        same_data(records, rdata).len() == 0,
    decreases records.len(),
{
    if records.len() > 0 {
        assert(records.last() == records[records.len() - 1]);
        assert forall|i: int| 0 <= i < records.drop_last().len() implies (
        #[trigger] records.drop_last()[i]).rdata != rdata by {
            assert(records.drop_last()[i] == records[i]);
        }
        lemma_no_same_data(records.drop_last(), rdata);
    }
}

/// A record that is put behind all that are not after it keeps the order, and
/// comes last among those with its data.
proof fn lemma_insert(records: Seq<RecordModel>, k: int, record: RecordModel)
    requires
        is_ordered(records),
        0 <= k <= records.len(),
        forall|i: int| 0 <= i < k ==> bytes_le((#[trigger] records[i]).rdata, record.rdata),
        k < records.len() ==> !bytes_le(records[k].rdata, record.rdata),
    ensures
        is_ordered(records.insert(k, record)),
        forall|rdata: Seq<u8>|
            #![trigger same_data(records.insert(k, record), rdata)]
            same_data(records.insert(k, record), rdata) == same_data(
                records.push(record),
                rdata,
            ),
{
    let after = records.insert(k, record);
    assert forall|i: int| k <= i < records.len() implies bytes_le(
        record.rdata,
        (#[trigger] records[i]).rdata,
    ) && records[i].rdata != record.rdata by {
        lemma_bytes_total(records[k].rdata, record.rdata);
        assert(bytes_le(records[k].rdata, records[i].rdata));
        lemma_bytes_transitive(record.rdata, records[k].rdata, records[i].rdata);
        if records[i].rdata == record.rdata {
            assert(bytes_le(records[k].rdata, record.rdata));
        }
    }
    assert forall|i: int, j: int| 0 <= i <= j < after.len() implies bytes_le(
        #[trigger] after[i].rdata,
        #[trigger] after[j].rdata,
    ) by {
        lemma_bytes_total(record.rdata, record.rdata);
        let a = if i < k {
            i
        } else {
            i - 1
        };
        let b = if j < k {
            j
        } else {
            j - 1
        };
        if i != k && j != k {
            assert(after[i] == records[a]);
            assert(after[j] == records[b]);
        } else if i == k && j != k {
            assert(after[j] == records[b]);
        } else if i != k {
            assert(after[i] == records[a]);
        }
    }
    assert forall|rdata: Seq<u8>|
        #![trigger same_data(records.insert(k, record), rdata)]
        same_data(after, rdata) == same_data(records.push(record), rdata) by {
        let front = records.take(k);
        let back = records.skip(k);
        let one = seq![record];
        assert(after =~= (front + one) + back);
        assert(records.push(record) =~= (front + back) + one);
        lemma_same_data_concat(front + one, back, rdata);
        lemma_same_data_concat(front, one, rdata);
        lemma_same_data_concat(front + back, one, rdata);
        lemma_same_data_concat(front, back, rdata);
        if rdata == record.rdata {
            assert forall|i: int| 0 <= i < back.len() implies (#[trigger] back[i]).rdata
                != rdata by {
                assert(back[i] == records[k + i]);
            }
            lemma_no_same_data(back, rdata);
        } else {
            lemma_no_same_data(one, rdata);
        }
        assert(same_data(after, rdata) =~= same_data(records.push(record), rdata));
    }
}

/// Puts records in the order of their data; those with the same data stay in the
/// order in which they stood.
pub fn sort_rrset(rrset: &mut Vec<ResourceRecord>)
    ensures
        is_ordered(record_models(final(rrset)@)),
        forall|rdata: Seq<u8>|
            #![trigger same_data(record_models(final(rrset)@), rdata)]
            same_data(record_models(final(rrset)@), rdata) == same_data(
                record_models(old(rrset)@),
                rdata,
            ),
        final(rrset)@.len() == old(rrset)@.len(),
{
    let ghost all = record_models(rrset@);
    let n: usize = rrset.len();
    let mut sorted: Vec<ResourceRecord> = Vec::new();
    let mut i: usize = 0;
    assert(record_models(sorted@) =~= Seq::empty());
    assert(all.take(0) =~= Seq::empty());
    assert(rrset@.skip(0) =~= rrset@);
    while i < n
        invariant
            i <= n == all.len(),
            rrset@.len() == n - i,
            record_models(rrset@) == all.skip(i as int),
            sorted@.len() == i,
            is_ordered(record_models(sorted@)),
            forall|rdata: Seq<u8>|
                #![trigger same_data(record_models(sorted@), rdata)]
                same_data(record_models(sorted@), rdata) == same_data(
                    all.take(i as int),
                    rdata,
                ),
        decreases n - i,
    {
        let ghost before = rrset@;
        let record = rrset.remove(0);
        assert(record@ == all[i as int]) by {
            assert(record_models(before)[0] == all.skip(i as int)[0]);
        }
        assert(record_models(rrset@) =~= all.skip(i + 1)) by {
            assert(record_models(rrset@) =~= record_models(before).skip(1));
        }
        let ghost models = record_models(sorted@);
        let mut k: usize = 0;
        while k < sorted.len() && bytes_before(&sorted[k].rdata, &record.rdata)
            invariant
                k <= sorted@.len(),
                models == record_models(sorted@),
                forall|j: int|
                    0 <= j < k ==> bytes_le((#[trigger] models[j]).rdata, record@.rdata),
            decreases sorted@.len() - k,
        {
            assert(models[k as int] == sorted@[k as int]@);
            k = k + 1;
        }
        proof {
            if k < models.len() {
                assert(models[k as int] == sorted@[k as int]@);
            }
            lemma_insert(models, k as int, record@);
        }
        let ghost one = record@;
        sorted.insert(k, record);
        proof {
            assert(record_models(sorted@) =~= models.insert(k as int, one));
            assert(all.take(i + 1) =~= all.take(i as int).push(one));
            assert forall|rdata: Seq<u8>|
                #![trigger same_data(record_models(sorted@), rdata)]
                same_data(record_models(sorted@), rdata) == same_data(all.take(i + 1), rdata) by {
                assert(same_data(models, rdata) == same_data(all.take(i as int), rdata));
                assert(models.push(one).drop_last() =~= models);
                assert(all.take(i + 1).drop_last() =~= all.take(i as int));
            }
        }
        i = i + 1;
    }
    assert(all.take(i as int) =~= all);
    *rrset = sorted;
}

} // verus!
