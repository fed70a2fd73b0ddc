//! What holds of conditional domains: which addresses they cover, and that a synthetic
//! name leads back to the address that it was made for.

use crate::addr::{IpAddr, Ipv4Addr, Ipv6Addr};
use crate::addr_text;
use crate::dnssec::{denial_laws, rrsets_laws};
use crate::domain::{self, CondDomain};
use crate::text;
use crate::wire;
use vstd::arithmetic::power2::pow2;
use vstd::prelude::*;
use vstd::utf8::*;

verus! {

/// Whether the parts of the synthetic names of a domain are ASCII.
pub open spec fn is_ascii_domain(c: CondDomain) -> bool {
    is_ascii_chars(domain::prefix_of(c)) && is_ascii_chars(c.domain@)
}

pub proof fn lemma_boundary(a: Seq<char>, b: Seq<char>)
    ensures
        is_char_boundary(encode_utf8(a + b), encode_utf8(a).len() as int),
    decreases a.len(),
{
    broadcast use encode_utf8_valid_utf8;

    if a.len() == 0 {
    } else {
        let all = a + b;
        encode_utf8_first_scalar(all);
        lemma_boundary(a.drop_first(), b);
        assert(all.drop_first() =~= a.drop_first() + b);
        assert(pop_first_scalar(encode_utf8(all)) =~= encode_utf8(all.drop_first()));
        text::lemma_utf8_concat(a, b);
    }
}

/// Whether a name in lower case starts with the prefix of a domain in lower case.
pub open spec fn has_prefix(c: CondDomain, name: Seq<char>) -> bool {
    text::lowercase(domain::prefix_of(c)).is_prefix_of(text::lowercase(name))
}

/// An ASCII name that is written otherwise only in the case of letters starts
/// with the prefix as well.
proof fn lemma_has_prefix(c: CondDomain, x: Seq<char>, name: Seq<char>)
    requires
        is_ascii_chars(domain::prefix_of(c)),
        is_ascii_chars(x),
        text::lower(name) == text::lower(domain::prefix_of(c) + x),
    ensures
        has_prefix(c, name),
{
    let p = domain::prefix_of(c);
    assert(is_ascii_chars(p + x));
    text::lemma_ascii_too(p + x, name);
    assert(text::lower(p) =~= text::lower(name).subrange(0, text::lower(p).len() as int)) by {
        assert forall|i: int| 0 <= i < p.len() implies text::lower(p)[i] == #[trigger] text::lower(
            name,
        )[i] by {
            assert(text::lower(p + x)[i] == text::lower_char((p + x)[i]));
        }
    }
}

/// A name that starts with the prefix of a domain, in either case, is cut right
/// behind it.
proof fn lemma_tail(c: CondDomain, x: Seq<char>, name: Seq<char>)
    requires
        has_prefix(c, name),
        text::lower(name) == text::lower(domain::prefix_of(c) + x),
    ensures
        domain::can_cut(name, c),
        name.len() == domain::prefix_of(c).len() + x.len(),
        domain::synth_tail(name, c) == Some(name.skip(domain::prefix_of(c).len() as int)),
        text::lower(name.skip(domain::prefix_of(c).len() as int)) == text::lower(x),
{
    let p = domain::prefix_of(c);
    let n = p.len() as int;
    assert(text::lower(name).len() == name.len());
    assert(text::lower(p + x).len() == (p + x).len());
    let front = name.take(n);
    let tail = name.skip(n);
    assert forall|i: int| 0 <= i < name.len() implies text::lower_char(#[trigger] name[i])
        == text::lower_char((p + x)[i]) by {
        assert(text::lower(name)[i] == text::lower_char(name[i]));
        assert(text::lower(p + x)[i] == text::lower_char((p + x)[i]));
    }
    assert(text::lower(front) =~= text::lower(p));
    assert(text::lower(tail) =~= text::lower(x));
    text::lemma_lower_utf8_len(front);
    text::lemma_lower_utf8_len(p);
    assert(name =~= front + tail);
    text::lemma_utf8_concat(front, tail);
    assert(encode_utf8(name).skip(text::utf8_len(p) as int) =~= encode_utf8(tail));
    encode_utf8_decode_utf8(tail);
    lemma_boundary(front, tail);
}

/// What stands behind a prefix: the middle of the name in the case in which it is
/// written, a dot, and the domain.
proof fn lemma_behind(tail: Seq<char>, middle: Seq<char>, rest: Seq<char>)
    requires
        text::lower(tail) == text::lower(middle.push('.') + rest),
    ensures
        tail.len() == middle.len() + 1 + rest.len(),
        tail == tail.take(middle.len() as int).push('.') + tail.skip(middle.len() as int + 1),
        text::lower(tail.take(middle.len() as int)) == text::lower(middle),
        text::lower(tail.skip(middle.len() as int + 1)) == text::lower(rest),
        (forall|k: int|
            0 <= k < middle.len() ==> text::is_digit(#[trigger] middle[k]) || middle[k] == '-')
            ==> tail.take(middle.len() as int) == middle,
{
    let x = middle.push('.') + rest;
    let n = middle.len() as int;
    assert(text::lower(tail).len() == tail.len());
    assert(text::lower(x).len() == x.len());
    assert forall|i: int| 0 <= i < tail.len() implies text::lower_char(#[trigger] tail[i])
        == text::lower_char(x[i]) by {
        assert(text::lower(tail)[i] == text::lower_char(tail[i]));
        assert(text::lower(x)[i] == text::lower_char(x[i]));
    }
    assert(x[n] == '.');
    assert(tail[n] == '.');
    assert(tail =~= tail.take(n).push('.') + tail.skip(n + 1));
    assert(text::lower(tail.take(n)) =~= text::lower(middle)) by {
        assert forall|i: int| 0 <= i < n implies text::lower_char(tail[i]) == text::lower_char(
            middle[i],
        ) by {
            assert(x[i] == middle[i]);
        }
    }
    assert(text::lower(tail.skip(n + 1)) =~= text::lower(rest)) by {
        assert forall|i: int| 0 <= i < rest.len() implies text::lower_char(tail[n + 1 + i])
            == text::lower_char(rest[i]) by {
            assert(x[n + 1 + i] == rest[i]);
        }
    }
    if forall|k: int|
        0 <= k < middle.len() ==> text::is_digit(#[trigger] middle[k]) || middle[k] == '-' {
        assert(tail.take(n) =~= middle) by {
            assert forall|i: int| 0 <= i < n implies tail[i] == middle[i] by {
                assert(x[i] == middle[i]);
            }
        }
    }
}

proof fn lemma_find_dot(x: Seq<char>, rest: Seq<char>, i: int)
    requires
        0 <= i <= x.len(),
        forall|k: int| 0 <= k < x.len() ==> (#[trigger] x[k]) != '.',
    ensures
        domain::find_char(x.push('.') + rest, '.', i) == Some(x.len() as int),
    decreases x.len() - i,
{
    let s = x.push('.') + rest;
    if i < x.len() {
        assert(s[i] == x[i]);
        lemma_find_dot(x, rest, i + 1);
    } else {
        assert(s[i] == '.');
    }
}

proof fn lemma_encoded_end(x: Seq<char>, rest: Seq<char>, six: bool, i: int)
    requires
        0 <= i <= x.len(),
        forall|k: int| 0 <= k < x.len() ==> domain::encodes(#[trigger] x[k], six),
    ensures
        domain::encoded_end(x.push('.') + rest, six, i) == Some(x.len() as int),
    decreases x.len() - i,
{
    let s = x.push('.') + rest;
    if i < x.len() {
        assert(s[i] == x[i]);
        lemma_encoded_end(x, rest, six, i + 1);
    } else {
        assert(s[i] == '.');
    }
}

proof fn lemma_decimal_parses(n: nat)
    ensures
        text::parse_value(text::decimal(n)) == Some(n),
        is_ascii_chars(text::decimal(n)),
        forall|k: int|
            0 <= k < text::decimal(n).len() ==> text::is_digit(#[trigger] text::decimal(n)[k]),
{
    text::law_decimal_round_trip(n);
    let d = text::decimal(n);
    assert(text::is_digit(d[0]));
    assert forall|k: int| 0 <= k < d.len() implies '\0' <= #[trigger] d[k] <= '\u{7f}' by {
        assert(text::is_digit(d[k]));
    }
}

/// A byte in decimal is a piece of a dotted address.
proof fn lemma_piece(b: u8)
    ensures
        addr_text::dotted_piece(text::decimal(b as nat)) == Some(b),
        forall|k: int|
            0 <= k < text::decimal(b as nat).len() ==> text::is_digit(
                #[trigger] text::decimal(b as nat)[k],
            ),
{
    let n = b as nat;
    text::law_decimal_round_trip(n);
    reveal_with_fuel(text::decimal, 4);
    if n >= 100 {
        assert(n / 10 / 10 < 10);
        assert(text::decimal(n).len() == 3);
        assert(text::decimal(n)[0] == text::digit_char((n / 10 / 10) as int));
    } else if n >= 10 {
        assert(text::decimal(n).len() == 2);
        assert(text::decimal(n)[0] == text::digit_char((n / 10) as int));
    }
}

/// A dotted address is read back as itself.
pub proof fn law_dotted_round_trip(a: Ipv4Addr)
    ensures
        addr_text::parse_dotted(a.dotted()) == Some(a),
        forall|k: int|
            0 <= k < a.dotted().len() ==> (text::is_digit(#[trigger] a.dotted()[k]) || a.dotted()[k]
                == '.'),
{
    let b = a.bytes();
    let d0 = text::decimal(b[0] as nat);
    let d1 = text::decimal(b[1] as nat);
    let d2 = text::decimal(b[2] as nat);
    let d3 = text::decimal(b[3] as nat);
    lemma_piece(b[0]);
    lemma_piece(b[1]);
    lemma_piece(b[2]);
    lemma_piece(b[3]);
    let parts = seq![d0, d1, d2, d3];
    assert forall|i: int| 0 <= i < 4 implies !(#[trigger] parts[i]).contains('.') by {
        if parts[i].contains('.') {
            let k = choose|k: int| 0 <= k < parts[i].len() && parts[i][k] == '.';
            assert(text::is_digit(parts[i][k]));
        }
    }
    text::law_join_split(parts, '.');
    reveal_with_fuel(text::join, 4);
    assert(parts.drop_last() =~= seq![d0, d1, d2]);
    assert(parts.drop_last().drop_last() =~= seq![d0, d1]);
    assert(parts.drop_last().drop_last().drop_last() =~= seq![d0]);
    assert(text::join(parts, '.') =~= a.dotted());
    wire::law_u32_round_trip(a.bits);
    assert(seq![b[0], b[1], b[2], b[3]] =~= b);
    assert forall|k: int| 0 <= k < a.dotted().len() implies (text::is_digit(
        #[trigger] a.dotted()[k],
    ) || a.dotted()[k] == '.') by {
        let l0 = d0.len() as int;
        let l1 = d1.len() as int;
        let l2 = d2.len() as int;
        if k < l0 {
            assert(a.dotted()[k] == d0[k]);
        } else if k == l0 {
        } else if k < l0 + 1 + l1 {
            assert(a.dotted()[k] == d1[k - l0 - 1]);
        } else if k == l0 + 1 + l1 {
        } else if k < l0 + l1 + 2 + l2 {
            assert(a.dotted()[k] == d2[k - l0 - l1 - 2]);
        } else if k == l0 + l1 + 2 + l2 {
        } else {
            assert(a.dotted()[k] == d3[k - l0 - l1 - l2 - 3]);
        }
    }
}

/// The synthetic name of an IPv4 address stands for that address, whatever the
/// case of its letters. A number in the name is counted from the start of the
/// range, which an interface does not have. Where a name is not ASCII and there is
/// a prefix, it has to start with that in the lower case of Unicode.
pub proof fn law_synthetic_name(c: CondDomain, addr: Ipv4Addr, name: Seq<char>)
    requires
        domain::covers(c, addr),
        c.indexed ==> !c.interface,
        text::lower(name) == text::lower(domain::synth_name(c, addr)),
        is_ascii_domain(c) || domain::prefix_of(c).len() == 0 || has_prefix(c, name),
    ensures
        domain::can_cut(name, c),
        domain::synth_one(false, name, c) == Some(IpAddr::V4(addr)),
{
    let p = domain::prefix_of(c);
    let n = (addr.bits - c.start.bits) as nat;
    let middle = if c.indexed {
        text::decimal(n)
    } else {
        domain::dash(addr.dotted())
    };
    let x = middle.push('.') + c.domain@;
    lemma_decimal_parses(n);
    law_dotted_round_trip(addr);
    assert forall|k: int| 0 <= k < middle.len() implies (text::is_digit(#[trigger] middle[k])
        || middle[k] == '-') && '\0' <= middle[k] <= '\u{7f}' && middle[k] != '.' by {
        if !c.indexed {
            assert(text::is_digit(addr.dotted()[k]) || addr.dotted()[k] == '.');
        }
    }
    assert(domain::synth_name(c, addr) =~= p + x);
    if is_ascii_domain(c) {
        assert(is_ascii_chars(x));
        lemma_has_prefix(c, x, name);
    } else if p.len() == 0 {
        assert(is_ascii_chars(p));
        assert(text::lower(p) =~= Seq::empty());
        assert(has_prefix(c, name));
    }
    lemma_tail(c, x, name);
    let tail = name.skip(p.len() as int);
    lemma_behind(tail, middle, c.domain@);
    let rest = tail.skip(middle.len() as int + 1);
    if c.indexed {
        lemma_find_dot(middle, rest, 0);
    } else {
        lemma_encoded_end(middle, rest, false, 0);
        assert(domain::undash(middle, '.') =~= addr.dotted()) by {
            assert forall|k: int| 0 <= k < middle.len() implies #[trigger] domain::undash(
                middle,
                '.',
            )[k] == addr.dotted()[k] by {
                assert(text::is_digit(addr.dotted()[k]) || addr.dotted()[k] == '.');
            }
        }
    }
}

// ---------------------------------------------------------------------------
// IPv6
// ---------------------------------------------------------------------------

/// Whether a character is a lower-case hexadecimal digit.
pub open spec fn is_hex_lower(c: char) -> bool {
    ('0' <= c && c <= '9') || ('a' <= c && c <= 'f')
}

/// A group in hexadecimal is read back as itself.
proof fn lemma_group_text(n: nat)
    requires
        n < 65536,
    ensures
        addr_text::hex_group(addr_text::hex_text(n)) == Some(n as u16),
        addr_text::hex_text(n).len() >= 1,
        forall|k: int|
            0 <= k < addr_text::hex_text(n).len() ==> is_hex_lower(
                #[trigger] addr_text::hex_text(n)[k],
            ),
{
    lemma_hex_text(n);
    reveal_with_fuel(addr_text::hex_text, 5);
    assert(n / 16 / 16 / 16 < 16);
}

proof fn lemma_hex_text(n: nat)
    ensures
        addr_text::hex_number(addr_text::hex_text(n)) == Some(n),
        addr_text::hex_text(n).len() >= 1,
        forall|k: int|
            0 <= k < addr_text::hex_text(n).len() ==> is_hex_lower(
                #[trigger] addr_text::hex_text(n)[k],
            ),
    decreases n,
{
    reveal_with_fuel(addr_text::hex_number, 2);
    let t = addr_text::hex_text(n);
    if n >= 16 {
        lemma_hex_text(n / 16);
        assert(t.drop_last() =~= addr_text::hex_text(n / 16));
    } else {
        assert(t.drop_last() =~= Seq::<char>::empty());
    }
}

/// Whether no two colons stand together in a text, nor one at either end.
pub open spec fn no_gap(t: Seq<char>) -> bool {
    &&& forall|i: int| 0 <= i < t.len() - 1 ==> !(#[trigger] t[i] == ':' && t[i + 1] == ':')
    &&& t.len() > 0 ==> t[0] != ':' && t.last() != ':'
    &&& forall|i: int| 0 <= i < t.len() ==> is_hex_lower(#[trigger] t[i]) || t[i] == ':'
}

proof fn lemma_groups_text(g: Seq<u16>)
    ensures
        no_gap(addr_text::groups_text(g)),
        g.len() > 0 ==> addr_text::groups_text(g).len() > 0,
        addr_text::side_groups(addr_text::groups_text(g)) == Some(g),
{
    let parts = addr_text::group_texts(g);
    if g.len() == 0 {
        assert(addr_text::groups_text(g) =~= Seq::<char>::empty());
        assert(g =~= Seq::<u16>::empty());
    } else {
        lemma_joined(g);
        assert forall|i: int| 0 <= i < parts.len() implies !(#[trigger] parts[i]).contains(':') by {
            lemma_group_text(g[i] as nat);
            if parts[i].contains(':') {
                let k = choose|k: int| 0 <= k < parts[i].len() && parts[i][k] == ':';
                assert(is_hex_lower(parts[i][k]));
            }
        }
        text::law_join_split(parts, ':');
        lemma_hex_groups(g);
    }
}

proof fn lemma_joined(g: Seq<u16>)
    requires
        g.len() > 0,
    ensures
        no_gap(addr_text::groups_text(g)),
        addr_text::groups_text(g).len() > 0,
    decreases g.len(),
{
    let parts = addr_text::group_texts(g);
    let last = parts.last();
    lemma_group_text(g.last() as nat);
    assert(last == addr_text::hex_text(g.last() as nat));
    assert(is_hex_lower(last[0]));
    assert(is_hex_lower(last[last.len() - 1]));
    if g.len() > 1 {
        lemma_joined(g.drop_last());
        assert(parts.drop_last() =~= addr_text::group_texts(g.drop_last()));
        let a = addr_text::groups_text(g.drop_last());
        let t = addr_text::groups_text(g);
        assert(t =~= a.push(':') + last);
        assert forall|i: int| 0 <= i < t.len() implies is_hex_lower(#[trigger] t[i]) || t[i] == ':' by {
            if i < a.len() {
                assert(t[i] == a[i]);
            } else if i > a.len() {
                assert(t[i] == last[i - a.len() - 1]);
            }
        }
        assert forall|i: int| 0 <= i < t.len() - 1 implies !(#[trigger] t[i] == ':' && t[i + 1]
            == ':') by {
            if i < a.len() - 1 {
                assert(t[i] == a[i] && t[i + 1] == a[i + 1]);
            } else if i == a.len() - 1 {
                assert(t[i] == a.last());
            } else if i == a.len() {
                assert(t[i + 1] == last[0]);
            } else {
                assert(t[i] == last[i - a.len() - 1]);
                assert(is_hex_lower(last[i - a.len() - 1]));
            }
        }
        assert(t[0] == a[0]);
        assert(t.last() == last.last());
    } else {
        assert(addr_text::groups_text(g) =~= last);
        assert forall|i: int| 0 <= i < last.len() - 1 implies !(#[trigger] last[i] == ':' && last[i
            + 1] == ':') by {
            assert(is_hex_lower(last[i]));
        }
    }
}

proof fn lemma_hex_groups(g: Seq<u16>)
    ensures
        addr_text::hex_groups(addr_text::group_texts(g)) == Some(g),
    decreases g.len(),
{
    let parts = addr_text::group_texts(g);
    if g.len() > 0 {
        lemma_hex_groups(g.drop_last());
        lemma_group_text(g.last() as nat);
        assert(parts.drop_last() =~= addr_text::group_texts(g.drop_last()));
        assert(g.drop_last().push(g.last()) =~= g);
    } else {
        assert(g =~= Seq::<u16>::empty());
    }
}

proof fn lemma_no_gap_found(t: Seq<char>, i: int)
    requires
        no_gap(t),
        0 <= i,
    ensures
        addr_text::gap_from(t, i) is None,
    decreases t.len() - i,
{
    if i + 1 < t.len() {
        assert(!(t[i] == ':' && t[i + 1] == ':'));
        lemma_no_gap_found(t, i + 1);
    }
}

proof fn lemma_gap_found(a: Seq<char>, b: Seq<char>, i: int)
    requires
        no_gap(a),
        0 <= i <= a.len(),
    ensures
        addr_text::gap_from(a + seq![':', ':'] + b, i) == Some(a.len() as int),
    decreases a.len() - i,
{
    let t = a + seq![':', ':'] + b;
    if i < a.len() {
        assert(t[i] == a[i]);
        if i + 1 < a.len() {
            assert(t[i + 1] == a[i + 1]);
            assert(!(a[i] == ':' && a[i + 1] == ':'));
        } else {
            assert(a[i] == a.last());
        }
        lemma_gap_found(a, b, i + 1);
    } else {
        assert(t[i] == ':' && t[i + 1] == ':');
    }
}

proof fn lemma_zero_run(g: Seq<u16>, n: int)
    requires
        0 <= n <= g.len(),
    ensures
        0 <= addr_text::zeros_before(g, n) <= n,
        forall|k: int| n - addr_text::zeros_before(g, n) <= k < n ==> (#[trigger] g[k]) == 0,
        0 <= addr_text::longest_run(g, n).start,
        0 <= addr_text::longest_run(g, n).len,
        addr_text::longest_run(g, n).start + addr_text::longest_run(g, n).len <= n,
        forall|k: int|
            addr_text::longest_run(g, n).start <= k < addr_text::longest_run(g, n).start
                + addr_text::longest_run(g, n).len ==> (#[trigger] g[k]) == 0,
    decreases n,
{
    if n > 0 {
        lemma_zero_run(g, n - 1);
    }
}

proof fn lemma_groups_of_value(n: nat, len: nat)
    requires
        n < vstd::arithmetic::power::pow(65536, len),
    ensures
        addr_text::groups_of(n, len).len() == len,
        addr_text::groups_value(addr_text::groups_of(n, len)) == n,
    decreases len,
{
    vstd::arithmetic::power::lemma_pow_positive(65536, len);
    if len == 0 {
        vstd::arithmetic::power::lemma_pow0(65536);
    } else {
        let high = (len - 1) as nat;
        assert(vstd::arithmetic::power::pow(65536, len) == 65536 * vstd::arithmetic::power::pow(
            65536,
            high,
        )) by {
            reveal(vstd::arithmetic::power::pow);
        }
        let p = vstd::arithmetic::power::pow(65536, high);
        assert(n / 65536 < p) by (nonlinear_arith)
            requires
                n < 65536 * p,
        ;
        lemma_groups_of_value(n / 65536, high);
        assert(addr_text::groups_of(n, len).drop_last() =~= addr_text::groups_of(n / 65536, high));
    }
}

proof fn lemma_groups_of_addr(a: Ipv6Addr)
    ensures
        a.groups().len() == 8,
        addr_text::groups_value(a.groups()) == a.bits,
{
    assert(vstd::arithmetic::power::pow(65536, 8) == u128::MAX + 1) by {
        reveal(vstd::arithmetic::power::pow);
        reveal_with_fuel(vstd::arithmetic::power::pow, 9);
    }
    lemma_groups_of_value(a.bits as nat, 8);
}

/// What a written address is after a zero was put before a leading colon.
pub open spec fn padded(t: Seq<char>) -> Seq<char> {
    if t.len() > 0 && t[0] == ':' {
        seq!['0'] + t
    } else {
        t
    }
}

/// An IPv6 address in hexadecimal form is read back as itself, also with a
/// zero put before a leading colon.
pub proof fn law_hexadecimal_round_trip(a: Ipv6Addr)
    requires
        !a.is_mapped(),
    ensures
        addr_text::parse_hexadecimal(a.written()) == Some(a),
        addr_text::parse_hexadecimal(padded(a.written())) == Some(a),
        forall|k: int|
            0 <= k < a.written().len() ==> is_hex_lower(#[trigger] a.written()[k]) || a.written()[k]
                == ':',
{
    let g = a.groups();
    let run = addr_text::longest_run(g, 8);
    lemma_groups_of_addr(a);
    lemma_zero_run(g, 8);
    if run.len > 1 {
        let head = g.take(run.start);
        let tail = g.skip(run.start + run.len);
        let ht = addr_text::groups_text(head);
        let tt = addr_text::groups_text(tail);
        lemma_groups_text(head);
        lemma_groups_text(tail);
        lemma_gap_found(ht, tt, 0);
        reveal_strlit("::");
        assert("::"@ =~= seq![':', ':']);
        let t = a.written();
        assert(t =~= ht + seq![':', ':'] + tt);
        assert(t.take(ht.len() as int) =~= ht);
        assert(t.skip(ht.len() as int + 2) =~= tt);
        let zeros = Seq::new((8 - head.len() - tail.len()) as nat, |k: int| 0u16);
        assert(head + zeros + tail =~= g);
        assert forall|k: int| 0 <= k < t.len() implies is_hex_lower(#[trigger] t[k]) || t[k]
            == ':' by {
            if k < ht.len() {
                assert(t[k] == ht[k]);
            } else if k >= ht.len() + 2 {
                assert(t[k] == tt[k - ht.len() - 2]);
            }
        }
        if t[0] == ':' {
            if ht.len() > 0 {
                assert(t[0] == ht[0]);
            }
            assert(head.len() == 0);
            let zero = seq!['0'];
            let z = seq![0u16];
            lemma_groups_text(z);
            assert(addr_text::groups_text(z) =~= zero) by {
                assert(addr_text::group_texts(z)[0] == addr_text::hex_text(0));
            }
            lemma_gap_found(zero, tt, 0);
            let u = padded(t);
            assert(u =~= zero + seq![':', ':'] + tt);
            assert(u.take(1) =~= zero);
            assert(u.skip(3) =~= tt);
            let fewer = Seq::new((8 - 1 - tail.len()) as nat, |k: int| 0u16);
            assert(z + fewer + tail =~= g);
        }
    } else {
        lemma_groups_text(g);
        let t = addr_text::groups_text(g);
        lemma_no_gap_found(t, 0);
        assert(t[0] != ':');
    }
}

/// Whether the encoded form of an address loses nothing: a form that starts
/// with a hyphen needs a prefix before it, and the start of a carried IPv4
/// address is kept for such addresses.
pub open spec fn encodes_fully(c: CondDomain, addr: Ipv6Addr) -> bool {
    let part = domain::dash(addr.written());
    &&& part.len() > 0 && part[0] == '-' ==> c.prefix is Some
    &&& "--ffff-"@.is_prefix_of(part) ==> addr.is_mapped()
}

proof fn lemma_split_lower(t: Seq<char>)
    ensures
        text::split(text::lower(t), ':').len() == text::split(t, ':').len() >= 1,
        forall|i: int|
            0 <= i < text::split(t, ':').len() ==> #[trigger] text::split(text::lower(t), ':')[i]
                == text::lower(text::split(t, ':')[i]),
    decreases t.len(),
{
    let u = text::lower(t);
    if t.len() == 0 {
        assert(text::lower(Seq::<char>::empty()) =~= Seq::<char>::empty());
        assert(u =~= t);
    } else {
        lemma_split_lower(t.drop_last());
        assert(u.drop_last() =~= text::lower(t.drop_last()));
        assert(u.last() == text::lower_char(t.last()));
        let before = text::split(t.drop_last(), ':');
        let last = before.last();
        assert(text::lower(last.push(t.last())) =~= text::lower(last).push(u.last()));
        assert(text::lower(Seq::<char>::empty()) =~= Seq::<char>::empty());
    }
}

proof fn lemma_hex_number_lower(t: Seq<char>)
    ensures
        addr_text::hex_number(text::lower(t)) == addr_text::hex_number(t),
    decreases t.len(),
{
    let u = text::lower(t);
    if t.len() > 0 {
        lemma_hex_number_lower(t.drop_last());
        assert(u.drop_last() =~= text::lower(t.drop_last()));
        assert(u.last() == text::lower_char(t.last()));
    }
}

proof fn lemma_hex_groups_lower(a: Seq<Seq<char>>, b: Seq<Seq<char>>)
    requires
        a.len() == b.len(),
        forall|i: int| 0 <= i < a.len() ==> #[trigger] a[i] == text::lower(b[i]),
    ensures
        addr_text::hex_groups(a) == addr_text::hex_groups(b),
    decreases a.len(),
{
    if a.len() > 0 {
        let last = a.len() - 1;
        assert(a[last] == text::lower(b[last]));
        assert(text::lower(b[last]).len() == b[last].len());
        lemma_hex_number_lower(b[last]);
        lemma_hex_groups_lower(a.drop_last(), b.drop_last());
    }
}

proof fn lemma_side_groups_lower(t: Seq<char>)
    ensures
        addr_text::side_groups(text::lower(t)) == addr_text::side_groups(t),
{
    assert(text::lower(t).len() == t.len());
    lemma_split_lower(t);
    lemma_hex_groups_lower(text::split(text::lower(t), ':'), text::split(t, ':'));
}

proof fn lemma_gap_lower(t: Seq<char>, i: int)
    requires
        0 <= i,
    ensures
        addr_text::gap_from(text::lower(t), i) == addr_text::gap_from(t, i),
        addr_text::gap_from(t, i) matches Some(k) ==> i <= k && k + 1 < t.len(),
    decreases t.len() - i,
{
    if i + 1 < t.len() {
        assert(text::lower(t)[i] == text::lower_char(t[i]));
        assert(text::lower(t)[i + 1] == text::lower_char(t[i + 1]));
        lemma_gap_lower(t, i + 1);
    }
}

/// An address in hexadecimal form is read in upper case as in lower case.
pub proof fn law_hexadecimal_ignores_case(t: Seq<char>)
    ensures
        addr_text::parse_hexadecimal(text::lower(t)) == addr_text::parse_hexadecimal(t),
{
    lemma_gap_lower(t, 0);
    match addr_text::gap_from(t, 0) {
        None => {
            lemma_side_groups_lower(t);
        },
        Some(i) => {
            assert(text::lower(t).take(i) =~= text::lower(t.take(i)));
            assert(text::lower(t).skip(i + 2) =~= text::lower(t.skip(i + 2)));
            lemma_side_groups_lower(t.take(i));
            lemma_side_groups_lower(t.skip(i + 2));
        },
    }
}

/// What the encoded form of an IPv6 address consists of.
proof fn lemma_encoded6(addr: Ipv6Addr)
    ensures
        forall|k: int|
            0 <= k < addr.written().len() ==> is_hex_lower(#[trigger] domain::dash(
                addr.written(),
            )[k]) || domain::dash(addr.written())[k] == '-',
        addr.is_mapped() ==> {
            &&& addr.written().len() >= 7
            &&& forall|k: int|
                7 <= k < addr.written().len() ==> text::is_digit(#[trigger] domain::dash(
                    addr.written(),
                )[k]) || domain::dash(addr.written())[k] == '-'
        },
{
    let w = addr.written();
    let part = domain::dash(w);
    if addr.is_mapped() {
        let v4 = Ipv4Addr { bits: (addr.bits % 0x1_0000_0000) as u32 };
        reveal_strlit("::ffff:");
        law_dotted_round_trip(v4);
        assert(w =~= "::ffff:"@ + v4.dotted());
        assert forall|k: int| 0 <= k < w.len() implies (is_hex_lower(#[trigger] part[k]) || part[k]
            == '-') && (k >= 7 ==> text::is_digit(part[k]) || part[k] == '-') by {
            if k >= 7 {
                assert(w[k] == v4.dotted()[k - 7]);
                assert(text::is_digit(v4.dotted()[k - 7]) || v4.dotted()[k - 7] == '.');
            }
        }
    } else {
        law_hexadecimal_round_trip(addr);
        assert forall|k: int| 0 <= k < w.len() implies is_hex_lower(#[trigger] part[k]) || part[k]
            == '-' by {
            assert(is_hex_lower(w[k]) || w[k] == ':');
        }
    }
}

/// The encoded form of an address that carries no IPv4 address leads back to it, in
/// upper case too.
proof fn lemma_decoded6(addr: Ipv6Addr, part: Seq<char>)
    requires
        !addr.is_mapped(),
        text::lower(part) == domain::dash(addr.written()),
        !"--ffff-"@.is_prefix_of(domain::dash(addr.written())),
    ensures
        domain::decoded(part, true) == Some(IpAddr::V6(addr)),
{
    let w = addr.written();
    let t = domain::undash(part, ':');
    law_hexadecimal_round_trip(addr);
    assert(text::lower(part).len() == part.len());
    assert(text::lower(t) =~= w) by {
        assert forall|k: int| 0 <= k < w.len() implies text::lower_char(#[trigger] t[k]) == w[k] by {
            assert(is_hex_lower(w[k]) || w[k] == ':');
            assert(text::lower(part)[k] == text::lower_char(part[k]));
            assert(domain::dash(w)[k] == text::lower_char(part[k]));
        }
    }
    reveal_strlit("--ffff-");
    if "--ffff-"@.is_prefix_of(part) {
        assert(domain::dash(w).subrange(0, 7) =~= "--ffff-"@) by {
            assert forall|k: int| 0 <= k < 7 implies domain::dash(w)[k] == "--ffff-"@[k] by {
                assert(part.subrange(0, 7)[k] == part[k]);
                assert(text::lower(part)[k] == text::lower_char(part[k]));
            }
        }
    }
    if t.len() > 0 {
        assert(text::lower(t)[0] == text::lower_char(t[0]));
    }
    let u = seq!['0'] + t;
    assert(text::lower(u) =~= seq!['0'] + w) by {
        assert forall|k: int| 0 <= k < u.len() implies #[trigger] text::lower(u)[k] == (seq!['0']
            + w)[k] by {
            if k > 0 {
                assert(u[k] == t[k - 1]);
                assert(text::lower(t)[k - 1] == text::lower_char(t[k - 1]));
            }
        }
    }
    law_hexadecimal_ignores_case(t);
    law_hexadecimal_ignores_case(u);
}

/// The encoded form of an address that carries an IPv4 address leads back to it.
proof fn lemma_decoded_mapped(addr: Ipv6Addr)
    requires
        addr.is_mapped(),
    ensures
        domain::decoded(domain::dash(addr.written()), true) == Some(IpAddr::V6(addr)),
{
    let part = domain::dash(addr.written());
    let v4 = Ipv4Addr { bits: (addr.bits % 0x1_0000_0000) as u32 };
    let w = addr.written();
    reveal_strlit("--ffff-");
    reveal_strlit("::ffff:");
    law_dotted_round_trip(v4);
    assert(w =~= "::ffff:"@ + v4.dotted());
    assert(part.subrange(0, 7) =~= "--ffff-"@);
    assert(domain::undash(part.skip(7), '.') =~= v4.dotted()) by {
        assert forall|k: int| 0 <= k < v4.dotted().len() implies #[trigger] domain::undash(
            part.skip(7),
            '.',
        )[k] == v4.dotted()[k] by {
            assert(w[k + 7] == v4.dotted()[k]);
            assert(text::is_digit(v4.dotted()[k]) || v4.dotted()[k] == '.');
        }
    }
    assert(0xffff_0000_0000 + v4.bits == addr.bits);
}

/// The synthetic name of an IPv6 address stands for that address, where its
/// encoded form loses nothing, whatever the case of its letters; only the start
/// of a carried IPv4 address has to be in lower case. A number in the name is
/// counted within the network of the start of the range. Where a name is not ASCII
/// and there is a prefix, it has to start with that in the lower case of Unicode.
pub proof fn law_synthetic_name6(c: CondDomain, addr: Ipv6Addr, name: Seq<char>)
    requires
        domain::covers6(c, addr),
        c.indexed ==> !c.interface && c.prefixlen >= 64,
        !c.indexed ==> encodes_fully(c, addr),
        text::lower(name) == text::lower(domain::synth_name6(c, addr)),
        is_ascii_domain(c) || domain::prefix_of(c).len() == 0 || has_prefix(c, name),
        !c.indexed && addr.is_mapped() ==> "--ffff-"@.is_prefix_of(
            name.skip(domain::prefix_of(c).len() as int),
        ),
    ensures
        domain::can_cut(name, c),
        domain::synth_one(true, name, c) == Some(IpAddr::V6(addr)),
{
    let p = domain::prefix_of(c);
    let n = (domain::host_part(addr) - domain::host_part(c.start6)) as nat;
    let middle = if c.indexed {
        text::decimal(n)
    } else {
        domain::dash(addr.written())
    };
    let x = middle.push('.') + c.domain@;
    lemma_decimal_parses(n);
    lemma_encoded6(addr);
    assert forall|k: int| 0 <= k < middle.len() implies (is_hex_lower(#[trigger] middle[k])
        || middle[k] == '-') && '\0' <= middle[k] <= '\u{7f}' by {
        if c.indexed {
            assert(text::is_digit(middle[k]));
        }
    }
    assert(domain::synth_name6(c, addr) =~= p + x) by {
        if !c.indexed && addr.written().len() > 0 {
            assert(domain::dash(addr.written())[0] == middle[0]);
        }
    }
    if is_ascii_domain(c) {
        assert(is_ascii_chars(x));
        lemma_has_prefix(c, x, name);
    } else if p.len() == 0 {
        assert(is_ascii_chars(p));
        assert(text::lower(p) =~= Seq::empty());
        assert(has_prefix(c, name));
    }
    lemma_tail(c, x, name);
    let tail = name.skip(p.len() as int);
    lemma_behind(tail, middle, c.domain@);
    let part = tail.take(middle.len() as int);
    let rest = tail.skip(middle.len() as int + 1);
    if c.indexed {
        lemma_find_dot(middle, rest, 0);
        vstd::arithmetic::power2::lemma2_to64();
        assert(vstd::arithmetic::power2::pow2(64) == 0x1_0000_0000_0000_0000);
        assert(domain::with_host_part(c.start6, domain::host_part(addr)) == addr);
    } else {
        assert(text::lower(middle) =~= middle);
        assert(text::lower(part).len() == part.len());
        assert forall|k: int| 0 <= k < part.len() implies domain::encodes(
            #[trigger] part[k],
            true,
        ) by {
            assert(text::lower(part)[k] == text::lower_char(part[k]));
            assert(is_hex_lower(middle[k]) || middle[k] == '-');
        }
        lemma_encoded_end(part, rest, true, 0);
        if addr.is_mapped() {
            reveal_strlit("--ffff-");
            assert(part =~= middle) by {
                assert forall|k: int| 0 <= k < part.len() implies part[k] == middle[k] by {
                    assert(text::lower(part)[k] == text::lower_char(part[k]));
                    if k < 7 {
                        assert(tail.subrange(0, 7)[k] == tail[k]);
                    } else {
                        assert(text::is_digit(middle[k]) || middle[k] == '-');
                    }
                }
            }
            lemma_decoded_mapped(addr);
        } else {
            lemma_decoded6(addr, part);
        }
    }
}

/// Among several domains the name leads back as well, as long as no earlier
/// domain takes it for one of its own.
pub proof fn law_synthetic_name_among(
    domains: Seq<CondDomain>,
    i: int,
    six: bool,
    name: Seq<char>,
    addr: IpAddr,
)
    requires
        0 <= i < domains.len(),
        domain::synth_first(six, name, domains, i) is None,
        domain::synth_one(six, name, domains[i]) == Some(addr),
    ensures
        domain::synth_first(six, name, domains, domains.len() as int) == Some(addr),
{
    lemma_later_domains(domains, i + 1, domains.len() as int, six, name, addr);
}

proof fn lemma_later_domains(
    domains: Seq<CondDomain>,
    m: int,
    n: int,
    six: bool,
    name: Seq<char>,
    addr: IpAddr,
)
    requires
        0 <= m <= n,
        domain::synth_first(six, name, domains, m) == Some(addr),
    ensures
        domain::synth_first(six, name, domains, n) == Some(addr),
    decreases n - m,
{
    if m < n {
        lemma_later_domains(domains, m + 1, n, six, name, addr);
    }
}

// ---------------------------------------------------------------------------
// Which domain an address belongs to
// ---------------------------------------------------------------------------

/// How many addresses of a width share a prefix.
pub open spec fn block_size(width: nat, prefixlen: nat) -> int {
    if prefixlen >= width {
        1
    } else {
        pow2((width - prefixlen) as nat) as int
    }
}

/// Two addresses are in one network exactly where one block of the prefix's size,
/// which begins at a multiple of it, holds both.
pub proof fn law_same_network(a: Ipv4Addr, b: Ipv4Addr, prefixlen: u32)
    ensures
        domain::same_net(a, b, prefixlen) <==> exists|n: int|
            #[trigger] in_block_of(a.bits as int, n, block_size(32, prefixlen as nat)) && in_block_of(b.bits as int, n, block_size(32, prefixlen as nat)),
{
    let size = block_size(32, prefixlen as nat);
    if prefixlen < 32 {
        vstd::arithmetic::power2::lemma_pow2_pos((32 - prefixlen) as nat);
    }
    lemma_one_block(a.bits as int, b.bits as int, size);
}

/// Two addresses of the longer kind are in one network exactly where one such block
/// holds both.
pub proof fn law_same_network6(a: Ipv6Addr, b: Ipv6Addr, prefixlen: u32)
    ensures
        domain::same_net6(a, b, prefixlen) <==> exists|n: int|
            #[trigger] in_block_of(a.bits as int, n, block_size(128, prefixlen as nat)) && in_block_of(b.bits as int, n, block_size(128, prefixlen as nat)),
{
    let size = block_size(128, prefixlen as nat);
    if prefixlen < 128 {
        vstd::arithmetic::power2::lemma_pow2_pos((128 - prefixlen) as nat);
    }
    lemma_one_block(a.bits as int, b.bits as int, size);
}

/// Whether a number lies in the block with a number, of a size.
pub open spec fn in_block_of(x: int, n: int, size: int) -> bool {
    n * size <= x < (n + 1) * size
}

proof fn lemma_one_block(a: int, b: int, size: int)
    requires
        a >= 0,
        b >= 0,
        size > 0,
    ensures
        (a / size == b / size) <==> exists|n: int| #[trigger]
            in_block_of(a, n, size) && in_block_of(b, n, size),
        size == 1 ==> (a / size == b / size <==> a == b),
{
    lemma_block_of(a, a / size, size);
    lemma_block_of(b, b / size, size);
    if size == 1 {
        assert(a / 1 == a && b / 1 == b);
    }
    if a / size == b / size {
        assert(in_block_of(a, a / size, size) && in_block_of(b, a / size, size));
    }
    assert forall|n: int| #[trigger] in_block_of(a, n, size) && in_block_of(b, n, size) implies a
        / size == b / size by {
        lemma_block_of(a, n, size);
        lemma_block_of(b, n, size);
    }
}

proof fn lemma_block_of(x: int, n: int, size: int)
    requires
        x >= 0,
        size > 0,
    ensures
        in_block_of(x, n, size) <==> x / size == n,
{
    vstd::arithmetic::div_mod::lemma_fundamental_div_mod(x, size);
    let q = x / size;
    let r = x % size;
    assert(q * size <= x < (q + 1) * size) by (nonlinear_arith)
        requires
            x == size * q + r,
            0 <= r < size,
    ;
    if in_block_of(x, n, size) && q != n {
        assert(false) by (nonlinear_arith)
            requires
                n * size <= x < (n + 1) * size,
                q * size <= x < (q + 1) * size,
                q != n,
                size > 0,
        ;
    }
}

/// A range covers the addresses from its first to its last, both of them too; the
/// addresses of an interface cover those in one network with one of them.
pub proof fn law_domain_covers(c: CondDomain, a: Ipv4Addr)
    ensures
        !c.interface ==> (domain::covers(c, a) <==> !c.is6 && c.start.bits <= a.bits && a.bits
            <= c.end.bits),
        c.interface ==> (domain::covers(c, a) <==> exists|i: int|
            0 <= i < c.al@.len() && (#[trigger] c.al@[i]).flags is IPv4 && (
            c.al@[i].addr matches IpAddr::V4(own) && domain::same_net(a, own, c.al@[i].prefixlen))),
{
    if c.interface {
        if exists|i: int|
            0 <= i < c.al@.len() && (#[trigger] c.al@[i]).flags is IPv4 && (
            c.al@[i].addr matches IpAddr::V4(own) && domain::same_net(a, own, c.al@[i].prefixlen)) {
            let i = choose|i: int|
                0 <= i < c.al@.len() && (#[trigger] c.al@[i]).flags is IPv4 && (
                c.al@[i].addr matches IpAddr::V4(own) && domain::same_net(
                    a,
                    own,
                    c.al@[i].prefixlen,
                ));
            assert(domain::on_interface(a, c.al@[i]));
        }
        if domain::covers(c, a) {
            let i = choose|i: int|
                0 <= i < c.al@.len() && domain::on_interface(a, #[trigger] c.al@[i]);
            assert(c.al@[i].flags is IPv4);
        }
    }
}

/// A range of longer addresses covers those from its first to its last in one network
/// of 64 bits, or all of its network where that is larger; the addresses of an interface
/// cover those in one network with one of them.
pub proof fn law_domain_covers6(c: CondDomain, a: Ipv6Addr)
    ensures
        !c.interface && c.is6 && c.prefixlen >= 64 ==> (domain::covers6(c, a)
            <==> domain::same_net6(a, c.start6, 64) && c.start6.bits % 0x1_0000_0000_0000_0000
            <= a.bits % 0x1_0000_0000_0000_0000 && a.bits % 0x1_0000_0000_0000_0000 <= c.end6.bits
            % 0x1_0000_0000_0000_0000),
        !c.interface && c.is6 && c.prefixlen < 64 ==> (domain::covers6(c, a) <==> domain::same_net6(
            a,
            c.start6,
            c.prefixlen,
        )),
        !c.interface && !c.is6 ==> !domain::covers6(c, a),
        c.interface ==> (domain::covers6(c, a) <==> exists|i: int|
            0 <= i < c.al@.len() && (#[trigger] c.al@[i]).flags is IPv6 && (
            c.al@[i].addr matches IpAddr::V6(own) && domain::same_net6(
                a,
                own,
                c.al@[i].prefixlen,
            ))),
{
    if c.interface {
        if exists|i: int|
            0 <= i < c.al@.len() && (#[trigger] c.al@[i]).flags is IPv6 && (
            c.al@[i].addr matches IpAddr::V6(own) && domain::same_net6(
                a,
                own,
                c.al@[i].prefixlen,
            )) {
            let i = choose|i: int|
                0 <= i < c.al@.len() && (#[trigger] c.al@[i]).flags is IPv6 && (
                c.al@[i].addr matches IpAddr::V6(own) && domain::same_net6(
                    a,
                    own,
                    c.al@[i].prefixlen,
                ));
            assert(domain::on_interface6(a, c.al@[i]));
        }
        if domain::covers6(c, a) {
            let i = choose|i: int|
                0 <= i < c.al@.len() && domain::on_interface6(a, #[trigger] c.al@[i]);
            assert(c.al@[i].flags is IPv6);
        }
    }
}

/// An address belongs to the first domain that covers it, and to none where no domain
/// does.
pub proof fn law_first_domain_of_an_address(domains: Seq<CondDomain>, a: Ipv4Addr)
    ensures
        match domain::first_cover(domains, a, 0) {
            Some(k) => 0 <= k < domains.len() && domain::covers(domains[k], a) && forall|j: int|
                0 <= j < k ==> !domain::covers(#[trigger] domains[j], a),
            None => forall|j: int| 0 <= j < domains.len() ==> !domain::covers(
                #[trigger] domains[j],
                a,
            ),
        },
{
    lemma_first_cover(domains, a, 0);
}

proof fn lemma_first_cover(domains: Seq<CondDomain>, a: Ipv4Addr, i: int)
    requires
        0 <= i,
    ensures
        match domain::first_cover(domains, a, i) {
            Some(k) => i <= k < domains.len() && domain::covers(domains[k], a) && forall|j: int|
                i <= j < k ==> !domain::covers(#[trigger] domains[j], a),
            None => forall|j: int| i <= j < domains.len() ==> !domain::covers(
                #[trigger] domains[j],
                a,
            ),
        },
    decreases domains.len() - i,
{
    if i < domains.len() && !domain::covers(domains[i], a) {
        lemma_first_cover(domains, a, i + 1);
    }
}

/// So does a longer address.
pub proof fn law_first_domain_of_an_address6(domains: Seq<CondDomain>, a: Ipv6Addr)
    ensures
        match domain::first_cover6(domains, a, 0) {
            Some(k) => 0 <= k < domains.len() && domain::covers6(domains[k], a) && forall|j: int|
                0 <= j < k ==> !domain::covers6(#[trigger] domains[j], a),
            None => forall|j: int| 0 <= j < domains.len() ==> !domain::covers6(
                #[trigger] domains[j],
                a,
            ),
        },
{
    lemma_first_cover6(domains, a, 0);
}

proof fn lemma_first_cover6(domains: Seq<CondDomain>, a: Ipv6Addr, i: int)
    requires
        0 <= i,
    ensures
        match domain::first_cover6(domains, a, i) {
            Some(k) => i <= k < domains.len() && domain::covers6(domains[k], a) && forall|j: int|
                i <= j < k ==> !domain::covers6(#[trigger] domains[j], a),
            None => forall|j: int| i <= j < domains.len() ==> !domain::covers6(
                #[trigger] domains[j],
                a,
            ),
        },
    decreases domains.len() - i,
{
    if i < domains.len() && !domain::covers6(domains[i], a) {
        lemma_first_cover6(domains, a, i + 1);
    }
}

/// The address of a name is the one that the first domain finds in it which finds any.
pub proof fn law_first_domain_of_a_name(six: bool, name: Seq<char>, domains: Seq<CondDomain>)
    ensures
        match domain::synth_first(six, name, domains, domains.len() as int) {
            Some(a) => exists|k: int|
                0 <= k < domains.len() && domain::synth_one(six, name, #[trigger] domains[k])
                    == Some(a) && forall|j: int|
                    0 <= j < k ==> domain::synth_one(six, name, #[trigger] domains[j]) is None,
            None => forall|j: int|
                0 <= j < domains.len() ==> domain::synth_one(six, name, #[trigger] domains[j])
                    is None,
        },
{
    lemma_synth_first(six, name, domains, domains.len() as int);
}

proof fn lemma_synth_first(six: bool, name: Seq<char>, domains: Seq<CondDomain>, n: int)
    requires
        0 <= n <= domains.len(),
    ensures
        match domain::synth_first(six, name, domains, n) {
            Some(a) => exists|k: int|
                0 <= k < n && domain::synth_one(six, name, #[trigger] domains[k]) == Some(a)
                    && forall|j: int|
                    0 <= j < k ==> domain::synth_one(six, name, #[trigger] domains[j]) is None,
            None => forall|j: int|
                0 <= j < n ==> domain::synth_one(six, name, #[trigger] domains[j]) is None,
        },
    decreases n,
{
    if n > 0 {
        lemma_synth_first(six, name, domains, n - 1);
        if domain::synth_first(six, name, domains, n - 1) is None {
            if domain::synth_one(six, name, domains[n - 1]) is Some {
                assert(domain::synth_one(six, name, domains[n - 1]) == domain::synth_first(
                    six,
                    name,
                    domains,
                    n,
                ));
            }
        }
    }
}

/// Only what lies in its domain is made of a name: an address that is found in one is
/// covered, or counted from the first address of the domain up to the last.
pub proof fn law_found_address_is_in_the_domain(six: bool, name: Seq<char>, c: CondDomain)
    requires
        c.start.bits <= c.end.bits,
        domain::host_part(c.start6) <= domain::host_part(c.end6),
    ensures
        match domain::synth_one(six, name, c) {
            Some(IpAddr::V4(a)) => if c.indexed {
                !six && !c.is6 && c.start.bits <= a.bits <= c.end.bits
            } else {
                domain::covers(c, a)
            },
            Some(IpAddr::V6(a)) => if c.indexed {
                six && c.is6 && a.bits / 0x1_0000_0000_0000_0000 == c.start6.bits
                    / 0x1_0000_0000_0000_0000 && domain::host_part(c.start6) <= domain::host_part(a)
                    <= domain::host_part(c.end6)
            } else {
                domain::covers6(c, a)
            },
            None => true,
        },
{
    if let Some(tail) = domain::synth_tail(name, c) {
        if c.indexed {
            if let Some(k) = domain::find_char(tail, '.', 0) {
                if let Some(n) = text::parse_value(tail.take(k)) {
                    let first = domain::host_part(c.start6);
                    if first + n <= domain::host_part(c.end6) {
                        lemma_with_host_part(c.start6, (first + n) as u64);
                    }
                }
            }
        }
    }
}

proof fn lemma_with_host_part(a: Ipv6Addr, host: u64)
    ensures
        domain::host_part(domain::with_host_part(a, host)) == host,
        domain::with_host_part(a, host).bits / 0x1_0000_0000_0000_0000 == a.bits
            / 0x1_0000_0000_0000_0000,
{
    let x = a.bits;
    let size: int = 0x1_0000_0000_0000_0000;
    let q = x as int / size;
    assert(x as int == q * size + x as int % size);
    assert(x - x % 0x1_0000_0000_0000_0000 == q * size);
    assert(q * size + host <= u128::MAX);
    assert((q * size + host) / size == q);
    assert((q * size + host) % size == host as int);
}

/// The number that a name holds is counted from the first address of its domain.
pub proof fn law_counted_address(c: CondDomain, n: nat)
    ensures
        !c.is6 && c.start.bits + n <= c.end.bits ==> domain::indexed_addr(
            c,
            text::decimal(n),
            false,
        ) == Some(IpAddr::V4(Ipv4Addr { bits: (c.start.bits + n) as u32 })),
        !c.is6 && n > 0 && c.start.bits + n > c.end.bits ==> domain::indexed_addr(
            c,
            text::decimal(n),
            false,
        ) is None,
        domain::indexed_addr(c, text::decimal(n), true) is Some ==> c.is6,
        domain::indexed_addr(c, text::decimal(n), false) is Some ==> !c.is6,
{
    lemma_parse_decimal(n);
}

proof fn lemma_parse_decimal(n: nat)
    ensures
        text::parse_value(text::decimal(n)) == Some(n),
{
    text::law_decimal_round_trip(n);
}

// ---------------------------------------------------------------------------
// Canonical names
// ---------------------------------------------------------------------------

/// Whether a label can stand in a name: it has one to 63 letters, digits and hyphens, and
/// neither begins nor ends with a hyphen.
pub open spec fn is_host_label(label: Seq<char>) -> bool {
    &&& 1 <= label.len() <= 63
    &&& label[0] != '-'
    &&& label.last() != '-'
    &&& forall|i: int|
        0 <= i < label.len() ==> {
            let c = #[trigger] label[i];
            'a' <= c <= 'z' || 'A' <= c <= 'Z' || '0' <= c <= '9' || c == '-'
        }
}

/// A name has a canonical form exactly where all its labels can stand in a name and it
/// is not too long, and the form is the name in lower case.
pub proof fn law_names_with_a_form(parts: Seq<Seq<char>>)
    requires
        parts.len() >= 1,
        forall|i: int| 0 <= i < parts.len() ==> !(#[trigger] parts[i]).contains('.'),
        parts.last().len() > 0,
        is_ascii_chars(text::join(parts, '.')),
    ensures
        domain::canonical(text::join(parts, '.')) is Some <==> text::join(parts, '.').len() <= 253
            && forall|i: int| 0 <= i < parts.len() ==> is_host_label(#[trigger] parts[i]),
        domain::canonical(text::join(parts, '.')) matches Some(form) ==> form == text::lower(
            text::join(parts, '.'),
        ),
{
    let name = text::join(parts, '.');
    let form = text::lower(name);
    let low = parts.map_values(|part: Seq<char>| text::lower(part));
    assert(name.len() > 0 && name.last() == parts.last().last());
    assert(parts.last().contains(parts.last()[parts.last().len() - 1]));
    assert(!parts[parts.len() - 1].contains('.'));
    assert(name.last() != '.');
    is_ascii_chars_encode_utf8(name);
    text::lemma_lower_utf8_len(name);
    assert(text::utf8_len(name) == name.len());
    denial_laws::lemma_lower_join(parts);
    assert forall|i: int| 0 <= i < low.len() implies !(#[trigger] low[i]).contains('.') by {
        if low[i].contains('.') {
            let k = choose|k: int| 0 <= k < low[i].len() && low[i][k] == '.';
            rrsets_laws::lemma_lower_dot(parts[i][k]);
            assert(parts[i][k] == '.');
        }
    }
    text::law_join_split(low, '.');
    assert(text::split(form, '.') == low);
    lemma_parts_ascii(parts);
    assert forall|i: int| 0 <= i < parts.len() implies domain::label_ok(low[i], false)
        == is_host_label(#[trigger] parts[i]) by {
        assert(low[i] == text::lower(parts[i]));
        lemma_host_label(parts[i]);
    }
    if domain::labels_ok(form, false) {
        assert forall|i: int| 0 <= i < parts.len() implies is_host_label(#[trigger] parts[i]) by {
            assert(domain::label_ok(text::split(form, '.')[i], false));
        }
    }
    if forall|i: int| 0 <= i < parts.len() ==> is_host_label(#[trigger] parts[i]) {
        assert forall|i: int| 0 <= i < text::split(form, '.').len() implies domain::label_ok(
            #[trigger] text::split(form, '.')[i],
            false,
        ) by {
            assert(is_host_label(parts[i]));
        }
    }
}

proof fn lemma_parts_ascii(parts: Seq<Seq<char>>)
    requires
        is_ascii_chars(text::join(parts, '.')),
    ensures
        forall|i: int| 0 <= i < parts.len() ==> is_ascii_chars(#[trigger] parts[i]),
    decreases parts.len(),
{
    let name = text::join(parts, '.');
    if parts.len() > 1 {
        let init = parts.drop_last();
        let front = text::join(init, '.');
        let last = parts.last();
        assert(is_ascii_chars(front)) by {
            assert(front =~= name.take(front.len() as int));
        }
        assert(is_ascii_chars(last)) by {
            assert(last =~= name.skip(front.len() as int + 1));
        }
        lemma_parts_ascii(init);
        assert forall|i: int| 0 <= i < parts.len() implies is_ascii_chars(#[trigger] parts[i]) by {
            if i < init.len() {
                assert(init[i] == parts[i]);
            }
        }
    }
}

proof fn lemma_host_label(label: Seq<char>)
    requires
        is_ascii_chars(label),
    ensures
        domain::label_ok(text::lower(label), false) == is_host_label(label),
{
    let low = text::lower(label);
    let n = label.len() as int;
    is_ascii_chars_encode_utf8(label);
    text::lemma_lower_utf8_len(label);
    assert(text::utf8_len(low) == n);
    if is_host_label(label) {
        assert forall|i: int| 0 <= i < n implies domain::label_char_ok(
            #[trigger] low[i],
            i,
            n,
            false,
        ) by {
            let c = label[i];
            assert(low[i] == text::lower_char(c));
            assert(c != '-' || (0 < i < n - 1));
        }
    }
    if domain::label_ok(low, false) {
        assert forall|i: int| 0 <= i < n implies ({
            let c = #[trigger] label[i];
            'a' <= c <= 'z' || 'A' <= c <= 'Z' || '0' <= c <= '9' || c == '-'
        }) by {
            assert(domain::label_char_ok(low[i], i, n, false));
        }
        assert(domain::label_char_ok(low[0], 0, n, false));
        assert(domain::label_char_ok(low[n - 1], n - 1, n, false));
    }
}

/// An address is found only in a name that begins with the prefix of the domain and
/// ends in a dot and the domain, whatever the case; what stands between is a number
/// where addresses are counted, and an address otherwise.
pub proof fn law_found_name(six: bool, name: Seq<char>, c: CondDomain)
    requires
        is_ascii_chars(name),
        is_ascii_chars(domain::prefix_of(c)),
        domain::synth_one(six, name, c) is Some,
    ensures
        exists|k: int|
            #![trigger name.skip(k + 1)]
            {
                let p = domain::prefix_of(c).len() as int;
                &&& p <= k < name.len()
                &&& text::lower(name.take(p)) == text::lower(domain::prefix_of(c))
                &&& name[k] == '.'
                &&& text::lower(name.skip(k + 1)) == text::lower(c.domain@)
                &&& c.indexed ==> text::parse_value(name.subrange(p, k)) is Some
                &&& !c.indexed ==> forall|i: int|
                    p <= i < k ==> {
                        let x = #[trigger] name[i];
                        '0' <= x <= '9' || x == '-' || six && ('a' <= x <= 'f' || 'A' <= x <= 'F')
                    }
            },
{
    let prefix = domain::prefix_of(c);
    let p = prefix.len() as int;
    let low = text::lowercase(name);
    assert(text::lowercase(prefix).is_prefix_of(low));
    assert(text::lower(prefix) =~= low.subrange(0, p));
    assert(text::lower(name.take(p)) =~= low.subrange(0, p));
    let rest = name.skip(p);
    assert(name =~= name.take(p) + rest);
    assert(is_ascii_chars(name.take(p)));
    is_ascii_chars_encode_utf8(name.take(p));
    is_ascii_chars_encode_utf8(prefix);
    text::lemma_utf8_concat(name.take(p), rest);
    assert(encode_utf8(name).skip(p) =~= encode_utf8(rest));
    encode_utf8_decode_utf8(rest);
    let tail = domain::synth_tail(name, c)->0;
    assert(tail == rest);
    if c.indexed {
        lemma_find_char(tail, '.', 0);
        let k = domain::find_char(tail, '.', 0)->0;
        assert(name.skip(p + k + 1) =~= tail.skip(k + 1));
        assert(name.subrange(p, p + k) =~= tail.take(k));
    } else {
        lemma_encoded_up_to(tail, six, 0);
        let k = domain::encoded_end(tail, six, 0)->0;
        assert(name.skip(p + k + 1) =~= tail.skip(k + 1));
        assert forall|i: int| p <= i < p + k implies ({
            let x = #[trigger] name[i];
            '0' <= x <= '9' || x == '-' || six && ('a' <= x <= 'f' || 'A' <= x <= 'F')
        }) by {
            assert(tail[i - p] == name[i]);
        }
    }
}

proof fn lemma_find_char(s: Seq<char>, c: char, i: int)
    requires
        0 <= i,
    ensures
        domain::find_char(s, c, i) matches Some(k) ==> i <= k < s.len() && s[k] == c,
    decreases s.len() - i,
{
    if i < s.len() && s[i] != c {
        lemma_find_char(s, c, i + 1);
    }
}

proof fn lemma_encoded_up_to(s: Seq<char>, six: bool, i: int)
    requires
        0 <= i,
    ensures
        domain::encoded_end(s, six, i) matches Some(k) ==> i <= k < s.len() && s[k] == '.'
            && forall|j: int|
            i <= j < k ==> {
                let x = #[trigger] s[j];
                '0' <= x <= '9' || x == '-' || six && ('a' <= x <= 'f' || 'A' <= x <= 'F')
            },
    decreases s.len() - i,
{
    if i < s.len() && s[i] != '.' && domain::encodes(s[i], six) {
        lemma_encoded_up_to(s, six, i + 1);
    }
}

/// The label of a pattern has one to 63 letters, digits, hyphens that are neither first
/// nor last, and an asterisk at its beginning at most.
pub proof fn law_label_of_a_pattern(label: Seq<char>)
    requires
        is_ascii_chars(label),
    ensures
        domain::label_ok(label, true) <==> 1 <= label.len() <= 63 && forall|i: int|
            0 <= i < label.len() ==> {
                let c = #[trigger] label[i];
                ||| 'a' <= c <= 'z' || 'A' <= c <= 'Z' || '0' <= c <= '9'
                ||| c == '-' && i != 0 && i != label.len() - 1
                ||| c == '*' && i == 0
            },
{
    is_ascii_chars_encode_utf8(label);
    assert(text::utf8_len(label) == label.len());
    if domain::label_ok(label, true) {
        assert forall|i: int| 0 <= i < label.len() implies ({
            let c = #[trigger] label[i];
            ||| 'a' <= c <= 'z' || 'A' <= c <= 'Z' || '0' <= c <= '9'
            ||| c == '-' && i != 0 && i != label.len() - 1
            ||| c == '*' && i == 0
        }) by {
            assert(domain::label_char_ok(label[i], i, label.len() as int, true));
        }
    }
}

} // verus!
