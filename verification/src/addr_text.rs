//! Addresses in writing: the dotted form of IPv4 and the hexadecimal form of
//! IPv6, in both directions.

use crate::addr::{IpAddr, Ipv4Addr, Ipv6Addr, SocketAddr};
use crate::text::{self, from_chars, parse_number, push_decimal, split_text, to_chars};
use vstd::prelude::*;

verus! {

/// Lower-case hexadecimal digit of a number below sixteen.
pub open spec fn hex_lower(d: int) -> char {
    if d < 10 {
        (d + 48) as char
    } else {
        (d + 87) as char
    }
}

/// A number in lower-case hexadecimal, without leading zeros.
pub open spec fn hex_text(n: nat) -> Seq<char>
    decreases n,
{
    if n < 16 {
        seq![hex_lower(n as int)]
    } else {
        hex_text(n / 16).push(hex_lower((n % 16) as int))
    }
}

/// The last `len` groups of sixteen bits of a number, most significant first.
pub open spec fn groups_of(n: nat, len: nat) -> Seq<u16>
    decreases len,
{
    if len == 0 {
        Seq::<u16>::empty()
    } else {
        groups_of(n / 65536, (len - 1) as nat).push((n % 65536) as u16)
    }
}

/// The number that a row of groups stands for, most significant first.
pub open spec fn groups_value(s: Seq<u16>) -> nat
    decreases s.len(),
{
    if s.len() == 0 {
        0
    } else {
        groups_value(s.drop_last()) * 65536 + s.last() as nat
    }
}

/// Groups in hexadecimal.
pub open spec fn group_texts(groups: Seq<u16>) -> Seq<Seq<char>> {
    Seq::new(groups.len(), |i: int| hex_text(groups[i] as nat))
}

/// Groups in hexadecimal with colons between them.
pub open spec fn groups_text(groups: Seq<u16>) -> Seq<char> {
    text::join(group_texts(groups), ':')
}

/// A run of zero groups.
pub struct ZeroRun {
    pub start: int,
    pub len: int,
}

/// How many of the first `n` groups are zero at their end.
pub open spec fn zeros_before(groups: Seq<u16>, n: int) -> int
    decreases n,
{
    if n <= 0 || groups[n - 1] != 0 {
        0
    } else {
        zeros_before(groups, n - 1) + 1
    }
}

/// The longest run of zeros among the first `n` groups; the first one where
/// several are as long.
pub open spec fn longest_run(groups: Seq<u16>, n: int) -> ZeroRun
    decreases n,
{
    if n <= 0 {
        ZeroRun { start: 0, len: 0 }
    } else {
        let before = longest_run(groups, n - 1);
        let here = zeros_before(groups, n);
        if here > before.len {
            ZeroRun { start: n - here, len: here }
        } else {
            before
        }
    }
}

impl Ipv6Addr {
    /// The eight groups of the address.
    pub open spec fn groups(self) -> Seq<u16> {
        groups_of(self.bits as nat, 8)
    }

    /// Whether the address carries an IPv4 address, under `::ffff:0:0/96`.
    pub open spec fn is_mapped(self) -> bool {
        self.bits / 0x1_0000_0000 == 0xffff
    }

    /// The address in writing.
    pub open spec fn written(self) -> Seq<char> {
        let groups = self.groups();
        let run = longest_run(groups, 8);
        if self.is_mapped() {
            "::ffff:"@ + (Ipv4Addr { bits: (self.bits % 0x1_0000_0000) as u32 }).dotted()
        } else if run.len > 1 {
            groups_text(groups.take(run.start)) + "::"@ + groups_text(
                groups.skip(run.start + run.len),
            )
        } else {
            groups_text(groups)
        }
    }
}

/// The byte that a piece of a dotted address stands for: one to three digits,
/// without a leading zero.
pub open spec fn dotted_piece(t: Seq<char>) -> Option<u8> {
    if 1 <= t.len() <= 3 && text::all_digits(t) && (t.len() > 1 ==> t[0] != '0')
        && text::decimal_value(t) <= 255 {
        Some(text::decimal_value(t) as u8)
    } else {
        None
    }
}

/// The address that a dotted text stands for.
pub open spec fn parse_dotted(t: Seq<char>) -> Option<Ipv4Addr> {
    let p = text::split(t, '.');
    if p.len() != 4 {
        None
    } else {
        match (dotted_piece(p[0]), dotted_piece(p[1]), dotted_piece(p[2]), dotted_piece(p[3])) {
            (Some(a), Some(b), Some(c), Some(d)) => Some(
                Ipv4Addr { bits: crate::wire::be32(seq![a, b, c, d], 0) },
            ),
            _ => None,
        }
    }
}

/// The number that hexadecimal digits stand for.
pub open spec fn hex_number(t: Seq<char>) -> Option<nat>
    decreases t.len(),
{
    if t.len() == 0 {
        Some(0)
    } else {
        match (hex_number(t.drop_last()), text::hex_value(t.last())) {
            (Some(high), Some(low)) => Some((high * 16 + low) as nat),
            _ => None,
        }
    }
}

/// The group that a text stands for: one to four hexadecimal digits.
pub open spec fn hex_group(t: Seq<char>) -> Option<u16> {
    if 1 <= t.len() <= 4 {
        match hex_number(t) {
            Some(n) => Some(n as u16),
            None => None,
        }
    } else {
        None
    }
}

/// The groups that the pieces stand for.
pub open spec fn hex_groups(pieces: Seq<Seq<char>>) -> Option<Seq<u16>>
    decreases pieces.len(),
{
    if pieces.len() == 0 {
        Some(Seq::empty())
    } else {
        match (hex_groups(pieces.drop_last()), hex_group(pieces.last())) {
            (Some(groups), Some(group)) => Some(groups.push(group)),
            _ => None,
        }
    }
}

/// The groups of one side of an address; an empty side has none.
pub open spec fn side_groups(t: Seq<char>) -> Option<Seq<u16>> {
    if t.len() == 0 {
        Some(Seq::empty())
    } else {
        hex_groups(text::split(t, ':'))
    }
}

/// Where two colons first stand together, from `i` on.
pub open spec fn gap_from(t: Seq<char>, i: int) -> Option<int>
    decreases t.len() - i,
{
    if i + 1 >= t.len() {
        None
    } else if t[i] == ':' && t[i + 1] == ':' {
        Some(i)
    } else {
        gap_from(t, i + 1)
    }
}

/// The groups that a text in hexadecimal form stands for. Two colons together
/// stand for at least one group of zeros.
pub open spec fn parse_groups(t: Seq<char>) -> Option<Seq<u16>> {
    match gap_from(t, 0) {
        None => match side_groups(t) {
            Some(groups) => if groups.len() == 8 {
                Some(groups)
            } else {
                None
            },
            None => None,
        },
        Some(i) => match (side_groups(t.take(i)), side_groups(t.skip(i + 2))) {
            (Some(head), Some(tail)) => if head.len() + tail.len() <= 7 {
                Some(head + Seq::new((8 - head.len() - tail.len()) as nat, |k: int| 0u16) + tail)
            } else {
                None
            },
            _ => None,
        },
    }
}

/// The address that a text in hexadecimal form stands for.
pub open spec fn parse_hexadecimal(t: Seq<char>) -> Option<Ipv6Addr> {
    match parse_groups(t) {
        Some(groups) => Some(Ipv6Addr { bits: groups_value(groups) as u128 }),
        None => None,
    }
}

/// The byte that a piece of a dotted address stands for.
fn read_dotted_piece(s: &str) -> (r: Option<u8>)
    ensures
        r == dotted_piece(s@),
{
    let chars = to_chars(s);
    if chars.len() < 1 || chars.len() > 3 {
        return None;
    }
    if chars[0] == '+' {
        assert(!text::is_digit(s@[0]));
        return None;
    }
    if chars.len() > 1 && chars[0] == '0' {
        return None;
    }
    match parse_number(s, 255) {
        Some(n) => Some(n as u8),
        None => None,
    }
}

impl Ipv4Addr {
    /// The address that a dotted text stands for.
    pub fn from_text(s: &str) -> (r: Option<Self>)
        ensures
            r == parse_dotted(s@),
    {
        let pieces = split_text(s, '.');
        let ghost p = text::texts(pieces@);
        if pieces.len() != 4 {
            return None;
        }
        assert(p[0] == pieces@[0]@ && p[1] == pieces@[1]@ && p[2] == pieces@[2]@ && p[3]
            == pieces@[3]@);
        match (
            read_dotted_piece(pieces[0].as_str()),
            read_dotted_piece(pieces[1].as_str()),
            read_dotted_piece(pieces[2].as_str()),
            read_dotted_piece(pieces[3].as_str()),
        ) {
            (Some(a), Some(b), Some(c), Some(d)) => Some(Ipv4Addr::new(a, b, c, d)),
            _ => None,
        }
    }

    /// The IPv6 address that carries this one, under `::ffff:0:0/96`.
    pub fn to_ipv6_mapped(&self) -> (r: Ipv6Addr)
        ensures
            r.is_mapped(),
            r.bits % 0x1_0000_0000 == self.bits,
    {
        Ipv6Addr { bits: 0xffff_0000_0000 + (self.bits as u128) }
    }
}

/// Appends a number in hexadecimal.
fn push_hex(s: &mut String, n: u16)
    ensures
        final(s)@ == old(s)@ + hex_text(n as nat),
    decreases n,
{
    if n >= 16 {
        push_hex(s, n / 16);
    }
    let d: u8 = (n % 16) as u8;
    if d < 10 {
        s.push((d + 48) as char);
    } else {
        s.push((d + 87) as char);
    }
    assert(s@ =~= old(s)@ + hex_text(n as nat));
}

/// Appends the groups from `from` up to `to`.
fn push_groups(s: &mut String, groups: &Vec<u16>, from: usize, to: usize)
    requires
        from <= to <= groups@.len(),
    ensures
        final(s)@ == old(s)@ + groups_text(groups@.subrange(from as int, to as int)),
{
    let ghost all = group_texts(groups@.subrange(from as int, to as int));
    let ghost start = s@;
    let mut i: usize = from;
    assert(start + text::join(all.take(0), ':') =~= start);
    while i < to
        invariant
            from <= i <= to <= groups@.len(),
            all == group_texts(groups@.subrange(from as int, to as int)),
            s@ == start + text::join(all.take(i - from), ':'),
        decreases to - i,
    {
        assert(all.take(i + 1 - from).drop_last() =~= all.take(i - from));
        assert(all.take(i + 1 - from).last() == hex_text(groups@[i as int] as nat));
        if i > from {
            s.push(':');
        }
        push_hex(s, groups[i]);
        i = i + 1;
        assert(s@ =~= start + text::join(all.take(i - from), ':'));
    }
    assert(all.take(all.len() as int) =~= all);
}

impl Ipv6Addr {
    /// The address made of eight groups.
    pub fn new(a: u16, b: u16, c: u16, d: u16, e: u16, f: u16, g: u16, h: u16) -> (r: Self)
        ensures
            r.bits == groups_value(seq![a, b, c, d, e, f, g, h]),
    {
        let v: Vec<u16> = vec![a, b, c, d, e, f, g, h];
        assert(v@ =~= seq![a, b, c, d, e, f, g, h]);
        Ipv6Addr { bits: value_of_groups(&v) }
    }

    /// The eight groups of the address.
    pub fn segments(&self) -> (r: Vec<u16>)
        ensures
            r@ == self.groups(),
            r@.len() == 8,
    {
        let mut r: Vec<u16> = vec![0, 0, 0, 0, 0, 0, 0, 0];
        let mut left: u128 = self.bits;
        let mut k: usize = 8;
        while k > 0
            invariant
                k <= 8,
                r@.len() == 8,
                self.groups() == groups_of(left as nat, k as nat) + r@.skip(k as int),
            decreases k,
        {
            let group: u16 = (left % 65536) as u16;
            let ghost tail = r@.skip(k as int);
            k = k - 1;
            r.set(k, group);
            assert(r@.skip(k as int) =~= seq![group] + tail);
            assert(groups_of(left as nat, (k + 1) as nat) + tail =~= groups_of(
                (left / 65536) as nat,
                k as nat,
            ) + (seq![group] + tail));
            left = left / 65536;
        }
        assert(r@ =~= self.groups());
        r
    }

    /// The address in writing.
    pub fn to_string(&self) -> (r: String)
        ensures
            r@ == self.written(),
    {
        let mut s: String = String::new();
        if self.bits / 0x1_0000_0000 == 0xffff {
            let v4 = Ipv4Addr { bits: (self.bits % 0x1_0000_0000) as u32 };
            s.append("::ffff:");
            s.append(v4.to_string().as_str());
            assert(s@ =~= self.written());
            return s;
        }
        let groups = self.segments();
        let mut start: usize = 0;
        let mut len: usize = 0;
        let mut here: usize = 0;
        let mut i: usize = 0;
        while i < 8
            invariant
                i <= 8,
                groups@.len() == 8,
                here == zeros_before(groups@, i as int),
                here <= i,
                start + len <= i,
                longest_run(groups@, i as int) == (ZeroRun { start: start as int, len: len as int }),
            decreases 8 - i,
        {
            if groups[i] == 0 {
                here = here + 1;
            } else {
                here = 0;
            }
            i = i + 1;
            if here > len {
                start = i - here;
                len = here;
            }
        }
        if len > 1 {
            push_groups(&mut s, &groups, 0, start);
            s.append("::");
            push_groups(&mut s, &groups, start + len, 8);
            assert(groups@.subrange(0, start as int) =~= groups@.take(start as int));
            assert(groups@.subrange(start + len, 8) =~= groups@.skip(start + len));
            assert(s@ =~= self.written());
        } else {
            push_groups(&mut s, &groups, 0, 8);
            assert(groups@.subrange(0, 8) =~= groups@);
            assert(s@ =~= self.written());
        }
        s
    }

    /// The address that a text in hexadecimal form stands for.
    pub fn from_text(s: &str) -> (r: Option<Self>)
        ensures
            r == parse_hexadecimal(s@),
    {
        let chars = to_chars(s);
        let mut i: usize = 0;
        while chars.len() - i > 1
            invariant
                i <= chars@.len(),
                chars@ == s@,
                gap_from(s@, 0) == gap_from(s@, i as int),
            decreases chars@.len() - i,
        {
            if chars[i] == ':' && chars[i + 1] == ':' {
                let head = match read_side(from_chars(&chars, 0, i).as_str()) {
                    Some(groups) => groups,
                    None => {
                        assert(s@.subrange(0, i as int) =~= s@.take(i as int));
                        return None;
                    },
                };
                let tail = match read_side(from_chars(&chars, i + 2, chars.len()).as_str()) {
                    Some(groups) => groups,
                    None => {
                        assert(s@.subrange(i + 2, s@.len() as int) =~= s@.skip(i + 2));
                        return None;
                    },
                };
                assert(s@.subrange(0, i as int) =~= s@.take(i as int));
                assert(s@.subrange(i + 2, s@.len() as int) =~= s@.skip(i + 2));
                return join_sides(head, tail);
            }
            i = i + 1;
        }
        match read_side(s) {
            Some(groups) => if groups.len() == 8 {
                Some(Ipv6Addr { bits: value_of_groups(&groups) })
            } else {
                None
            },
            None => None,
        }
    }
}

impl SocketAddr {
    /// The scope in writing, if there is one.
    pub open spec fn scope_written(self) -> Seq<char> {
        if self.scope_id == 0 {
            Seq::empty()
        } else {
            seq!['%'] + text::decimal(self.scope_id as nat)
        }
    }

    /// The address and the port in writing.
    pub open spec fn written(self) -> Seq<char> {
        match self.ip {
            IpAddr::V4(a) => a.dotted().push(':') + text::decimal(self.port as nat),
            IpAddr::V6(a) => seq!['['] + a.written() + self.scope_written() + "]:"@
                + text::decimal(self.port as nat),
        }
    }

    /// The address and the port in writing.
    pub fn to_string(&self) -> (r: String)
        ensures
            r@ == self.written(),
    {
        let mut s: String = String::new();
        match self.ip {
            IpAddr::V4(a) => {
                s.append(a.to_string().as_str());
                s.push(':');
            },
            IpAddr::V6(a) => {
                s.push('[');
                s.append(a.to_string().as_str());
                if self.scope_id != 0 {
                    s.push('%');
                    push_decimal(&mut s, self.scope_id as u64);
                }
                s.append("]:");
            },
        }
        push_decimal(&mut s, self.port as u64);
        assert(s@ =~= self.written());
        s
    }
}

/// The groups of one side of an address.
fn read_side(s: &str) -> (r: Option<Vec<u16>>)
    ensures
        match r {
            Some(groups) => side_groups(s@) == Some(groups@),
            None => side_groups(s@) is None,
        },
{
    let mut groups: Vec<u16> = Vec::new();
    if s.is_empty() {
        return Some(groups);
    }
    let pieces = split_text(s, ':');
    let ghost all = text::texts(pieces@);
    let mut i: usize = 0;
    assert(all.take(0) =~= Seq::<Seq<char>>::empty());
    while i < pieces.len()
        invariant
            i <= pieces@.len(),
            s@.len() > 0,
            all == text::texts(pieces@),
            all == text::split(s@, ':'),
            hex_groups(all.take(i as int)) == Some(groups@),
        decreases pieces@.len() - i,
    {
        proof {
            assert(all.take(i + 1).drop_last() =~= all.take(i as int));
            assert(all.take(i + 1).last() == pieces@[i as int]@);
            lemma_groups_of_part(all, (i + 1) as nat);
        }
        match read_group(pieces[i].as_str()) {
            Some(group) => {
                groups.push(group);
            },
            None => {
                return None;
            },
        }
        i = i + 1;
    }
    assert(all.take(all.len() as int) =~= all);
    Some(groups)
}

/// Pieces stand for groups only where each of them does.
proof fn lemma_groups_of_part(pieces: Seq<Seq<char>>, n: nat)
    requires
        n <= pieces.len(),
    ensures
        hex_groups(pieces.take(n as int)) is None ==> hex_groups(pieces) is None,
    decreases pieces.len() - n,
{
    if n == pieces.len() {
        assert(pieces.take(n as int) =~= pieces);
    } else {
        assert(pieces.take((n + 1) as int).drop_last() =~= pieces.take(n as int));
        lemma_groups_of_part(pieces, n + 1);
    }
}

/// Digits stand for a number only where each of them does.
proof fn lemma_number_of_part(t: Seq<char>, n: nat)
    requires
        n <= t.len(),
    ensures
        hex_number(t.take(n as int)) is None ==> hex_number(t) is None,
    decreases t.len() - n,
{
    if n == t.len() {
        assert(t.take(n as int) =~= t);
    } else {
        assert(t.take((n + 1) as int).drop_last() =~= t.take(n as int));
        lemma_number_of_part(t, n + 1);
    }
}

/// The group that a text stands for.
fn read_group(s: &str) -> (r: Option<u16>)
    ensures
        r == hex_group(s@),
{
    let chars = to_chars(s);
    if chars.len() < 1 || chars.len() > 4 {
        return None;
    }
    let mut value: u32 = 0;
    let mut i: usize = 0;
    while i < chars.len()
        invariant
            i <= chars@.len() <= 4,
            1 <= chars@.len(),
            chars@ == s@,
            i == 0 ==> value == 0,
            i == 1 ==> value < 0x10,
            i == 2 ==> value < 0x100,
            i == 3 ==> value < 0x1000,
            i == 4 ==> value < 0x10000,
            hex_number(s@.take(i as int)) == Some(value as nat),
        decreases chars@.len() - i,
    {
        let c: char = chars[i];
        proof {
            assert(s@.take(i + 1).drop_last() =~= s@.take(i as int));
            assert(s@.take(i + 1).last() == c);
            lemma_number_of_part(s@, (i + 1) as nat);
        }
        let d: u32 = if '0' <= c && c <= '9' {
            c as u32 - 48
        } else if 'a' <= c && c <= 'f' {
            c as u32 - 87
        } else if 'A' <= c && c <= 'F' {
            c as u32 - 55
        } else {
            return None;
        };
        value = value * 16 + d;
        i = i + 1;
    }
    assert(s@.take(s@.len() as int) =~= s@);
    Some(value as u16)
}

/// The address with groups of zeros between its two sides.
fn join_sides(head: Vec<u16>, tail: Vec<u16>) -> (r: Option<Ipv6Addr>)
    ensures
        r == (if head@.len() + tail@.len() <= 7 {
            Some(
                Ipv6Addr {
                    bits: groups_value(
                        head@ + Seq::new(
                            (8 - head@.len() - tail@.len()) as nat,
                            |k: int| 0u16,
                        ) + tail@,
                    ) as u128,
                },
            )
        } else {
            None
        }),
{
    if head.len() > 7 || tail.len() > 7 - head.len() {
        return None;
    }
    let mut all: Vec<u16> = Vec::new();
    let zeros: usize = 8 - head.len() - tail.len();
    let mut i: usize = 0;
    while i < 8
        invariant
            i <= 8,
            zeros == 8 - head@.len() - tail@.len(),
            head@.len() + tail@.len() <= 7,
            all@.len() == i,
            forall|k: int|
                0 <= k < i ==> #[trigger] all@[k] == (if k < head@.len() {
                    head@[k]
                } else if k < head@.len() + zeros {
                    0u16
                } else {
                    tail@[k - head@.len() - zeros]
                }),
        decreases 8 - i,
    {
        if i < head.len() {
            all.push(head[i]);
        } else if i < head.len() + zeros {
            all.push(0);
        } else {
            all.push(tail[i - head.len() - zeros]);
        }
        i = i + 1;
    }
    assert(all@ =~= head@ + Seq::new((8 - head@.len() - tail@.len()) as nat, |k: int| 0u16)
        + tail@);
    Some(Ipv6Addr { bits: value_of_groups(&all) })
}

/// The number that eight groups stand for.
fn value_of_groups(groups: &Vec<u16>) -> (r: u128)
    requires
        groups@.len() == 8,
    ensures
        r == groups_value(groups@),
{
    let mut bits: u128 = 0;
    let mut i: usize = 0;
    while i < 8
        invariant
            i <= 8,
            groups@.len() == 8,
            bits == groups_value(groups@.take(i as int)),
        decreases 8 - i,
    {
        let ghost next = groups@.take(i + 1);
        proof {
            assert(next.drop_last() =~= groups@.take(i as int));
            assert(next.last() == groups@[i as int]);
            lemma_groups_value_bound(next);
        }
        bits = bits * 65536 + (groups[i] as u128);
        i = i + 1;
    }
    assert(groups@.take(8) =~= groups@);
    bits
}

/// Eight groups or fewer stand for a number that fits.
proof fn lemma_groups_value_bound(s: Seq<u16>)
    requires
        s.len() <= 8,
    ensures
        groups_value(s) <= u128::MAX,
{
    lemma_groups_below_pow(s);
    vstd::arithmetic::power::lemma_pow_increases(65536, s.len(), 8);
    assert(vstd::arithmetic::power::pow(65536, 8) == u128::MAX + 1) by {
        reveal(vstd::arithmetic::power::pow);
        reveal_with_fuel(vstd::arithmetic::power::pow, 9);
    }
}

proof fn lemma_groups_below_pow(s: Seq<u16>)
    ensures
        groups_value(s) < vstd::arithmetic::power::pow(65536, s.len()),
    decreases s.len(),
{
    if s.len() == 0 {
        vstd::arithmetic::power::lemma_pow0(65536);
    } else {
        lemma_groups_below_pow(s.drop_last());
        assert(vstd::arithmetic::power::pow(65536, s.len())
            == 65536 * vstd::arithmetic::power::pow(65536, (s.len() - 1) as nat)) by {
            reveal(vstd::arithmetic::power::pow);
        }
    }
}

/// Whether all groups from a place on, as many as told, are zero.
pub open spec fn is_zero_run(groups: Seq<u16>, start: int, len: int) -> bool {
    &&& 0 <= start
    &&& 0 <= len
    &&& start + len <= groups.len()
    &&& forall|i: int| start <= i < start + len ==> #[trigger] groups[i] == 0
}

/// The run of zeros that an address is shortened by is the longest, and of two that are
/// as long the first.
pub proof fn law_longest_run(groups: Seq<u16>, start: int, len: int)
    requires
        is_zero_run(groups, start, len),
        len > 0,
    ensures
        ({
            let run = longest_run(groups, groups.len() as int);
            &&& is_zero_run(groups, run.start as int, run.len as int)
            &&& len <= run.len
            &&& len == run.len ==> run.start <= start
        }),
{
    lemma_longest_run(groups, groups.len() as int, start, len);
}

proof fn lemma_zeros_before(groups: Seq<u16>, n: int, start: int)
    requires
        0 <= n <= groups.len(),
        0 <= start <= n,
    ensures
        0 <= zeros_before(groups, n) <= n,
        is_zero_run(groups, n - zeros_before(groups, n), zeros_before(groups, n)),
        is_zero_run(groups, start, n - start) ==> n - start <= zeros_before(groups, n),
    decreases n,
{
    if n > 0 && groups[n - 1] == 0 {
        if start < n {
            lemma_zeros_before(groups, n - 1, start);
            let here = zeros_before(groups, n);
            assert forall|i: int| n - here <= i < n implies #[trigger] groups[i] == 0 by {
                if i < n - 1 {
                    assert(n - 1 - zeros_before(groups, n - 1) <= i);
                }
            }
        } else {
            lemma_zeros_before(groups, n - 1, n - 1);
            let here = zeros_before(groups, n);
            assert forall|i: int| n - here <= i < n implies #[trigger] groups[i] == 0 by {
                if i < n - 1 {
                    assert(n - 1 - zeros_before(groups, n - 1) <= i);
                }
            }
        }
    } else if n > 0 {
        if start < n && is_zero_run(groups, start, n - start) {
            assert(groups[n - 1] == 0);
        }
    }
}

proof fn lemma_longest_run(groups: Seq<u16>, n: int, start: int, len: int)
    requires
        0 <= n <= groups.len(),
    ensures
        ({
            let run = longest_run(groups, n);
            &&& is_zero_run(groups, run.start as int, run.len as int)
            &&& run.start + run.len <= n
            &&& is_zero_run(groups, start, len) && start + len <= n && len > 0 ==> len <= run.len
                && (len == run.len ==> run.start <= start)
        }),
    decreases n,
{
    if n > 0 {
        lemma_longest_run(groups, n - 1, start, len);
        let here = zeros_before(groups, n);
        lemma_zeros_before(groups, n, if 0 <= start <= n {
            start
        } else {
            0
        });
        if is_zero_run(groups, start, len) && start + len == n && len > 0 {
            assert(len <= here);
        }
    }
}

/// An address is written as its eight groups; the longest run of zeros is left out where
/// it has two groups or more, and nothing else is. An address that holds a short one ends
/// in its dotted form.
pub proof fn law_written_address(a: Ipv6Addr, start: int, len: int)
    requires
        a.bits / 0x1_0000_0000 != 0xffff,
    ensures
        (forall|i: int| 0 <= i < 7 ==> #[trigger] a.groups()[i] != 0 || a.groups()[i + 1] != 0)
            ==> a.written() == groups_text(a.groups()),
        len >= 2 && is_zero_run(a.groups(), start, len) && (forall|s: int, l: int|
            #[trigger] is_zero_run(a.groups(), s, l) ==> l <= len && (l == len ==> start <= s))
            ==> a.written() == groups_text(a.groups().take(start)) + "::"@ + groups_text(
            a.groups().skip(start + len),
        ),
{
    let groups = a.groups();
    lemma_groups_len(a.bits as nat, 8);
    let run = longest_run(groups, 8);
    lemma_longest_run(groups, 8, 0, 0);
    if forall|i: int| 0 <= i < 7 ==> #[trigger] groups[i] != 0 || groups[i + 1] != 0 {
        if run.len > 1 {
            let s = run.start as int;
            assert(groups[s] == 0 && groups[s + 1] == 0);
        }
    }
    if len >= 2 && is_zero_run(groups, start, len) && (forall|s: int, l: int|
        #[trigger] is_zero_run(groups, s, l) ==> l <= len && (l == len ==> start <= s)) {
        law_longest_run(groups, start, len);
        assert(is_zero_run(groups, run.start as int, run.len as int));
    }
}

proof fn lemma_groups_len(n: nat, len: nat)
    ensures
        groups_of(n, len).len() == len,
    decreases len,
{
    if len > 0 {
        lemma_groups_len(n / 65536, (len - 1) as nat);
    }
}

} // verus!
