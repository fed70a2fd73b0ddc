//! Big-endian integers as they stand in DNS messages.

use vstd::prelude::*;

verus! {

/// The 16-bit number whose two bytes stand at `i`, most significant first.
pub open spec fn be16(s: Seq<u8>, i: int) -> u16 {
    (s[i] * 256 + s[i + 1]) as u16
}

/// The 32-bit number whose four bytes stand at `i`, most significant first.
pub open spec fn be32(s: Seq<u8>, i: int) -> u32 {
    (s[i] * 0x1000000 + s[i + 1] * 0x10000 + s[i + 2] * 0x100 + s[i + 3]) as u32
}

/// The two bytes of a 16-bit number, most significant first.
pub open spec fn be16_bytes(x: u16) -> Seq<u8> {
    seq![(x / 256) as u8, (x % 256) as u8]
}

/// The four bytes of a 32-bit number, most significant first.
pub open spec fn be32_bytes(x: u32) -> Seq<u8> {
    seq![
        (x / 0x1000000) as u8,
        (x / 0x10000 % 256) as u8,
        (x / 0x100 % 256) as u8,
        (x % 256) as u8,
    ]
}

/// The number that a row of bytes stands for, most significant first.
pub open spec fn be_value(s: Seq<u8>) -> nat
    decreases s.len(),
{
    if s.len() == 0 {
        0
    } else {
        be_value(s.drop_last()) * 256 + s.last() as nat
    }
}

/// The last `len` bytes of a number, most significant first.
pub open spec fn be_digits(n: nat, len: nat) -> Seq<u8>
    decreases len,
{
    if len == 0 {
        Seq::<u8>::empty()
    } else {
        be_digits(n / 256, (len - 1) as nat).push((n % 256) as u8)
    }
}

/// Reads the 16-bit number at `i`.
pub fn read_u16(s: &[u8], i: usize) -> (r: u16)
    requires
        i + 2 <= s@.len(),
    ensures
        r == be16(s@, i as int),
{
    (s[i] as u16) * 256 + (s[i + 1] as u16)
}

/// Reads the 32-bit number at `i`.
pub fn read_u32(s: &[u8], i: usize) -> (r: u32)
    requires
        i + 4 <= s@.len(),
    ensures
        r == be32(s@, i as int),
{
    (s[i] as u32) * 0x1000000 + (s[i + 1] as u32) * 0x10000 + (s[i + 2] as u32) * 0x100
        + (s[i + 3] as u32)
}

/// Appends the two bytes of `x`.
pub fn push_u16(v: &mut Vec<u8>, x: u16)
    ensures
        final(v)@ == old(v)@ + be16_bytes(x),
{
    v.push((x / 256) as u8);
    v.push((x % 256) as u8);
    assert(v@ =~= old(v)@ + be16_bytes(x));
}

/// Appends the four bytes of `x`.
pub fn push_u32(v: &mut Vec<u8>, x: u32)
    ensures
        final(v)@ == old(v)@ + be32_bytes(x),
{
    v.push((x / 0x1000000) as u8);
    v.push((x / 0x10000 % 256) as u8);
    v.push((x / 0x100 % 256) as u8);
    v.push((x % 256) as u8);
    assert(v@ =~= old(v)@ + be32_bytes(x));
}

/// Appends `data`.
pub fn push_bytes(v: &mut Vec<u8>, data: &[u8])
    ensures
        final(v)@ == old(v)@ + data@,
{
    let mut i: usize = 0;
    let ghost start = v@;
    while i < data.len()
        invariant
            i <= data@.len(),
            v@ == start + data@.take(i as int),
        decreases data@.len() - i,
    {
        v.push(data[i]);
        i = i + 1;
        assert(v@ =~= start + data@.take(i as int));
    }
    assert(data@.take(data@.len() as int) =~= data@);
}

/// A copy of the bytes from `from` up to `to`.
pub fn copy_range(data: &[u8], from: usize, to: usize) -> (r: Vec<u8>)
    requires
        from <= to <= data@.len(),
    ensures
        r@ == data@.subrange(from as int, to as int),
{
    let mut r: Vec<u8> = Vec::new();
    let mut i: usize = from;
    while i < to
        invariant
            from <= i <= to <= data@.len(),
            r@ == data@.subrange(from as int, i as int),
        decreases to - i,
    {
        r.push(data[i]);
        i = i + 1;
        assert(r@ =~= data@.subrange(from as int, i as int));
    }
    r
}

/// The bytes of the number that a row of bytes stands for are that row.
pub proof fn law_be_digits_of_value(s: Seq<u8>)
    ensures
        be_digits(be_value(s), s.len()) == s,
    decreases s.len(),
{
    if s.len() > 0 {
        law_be_digits_of_value(s.drop_last());
        let high = be_value(s.drop_last());
        let n = be_value(s);
        assert(n / 256 == high && n % 256 == s.last() as nat) by (nonlinear_arith)
            requires
                n == high * 256 + s.last() as nat,
        ;
        assert(s.drop_last().push(s.last()) =~= s);
    } else {
        assert(be_digits(be_value(s), s.len()) =~= s);
    }
}

/// A number that fits into its bytes is the number that they stand for.
pub proof fn law_be_value_of_digits(n: nat, len: nat)
    requires
        n < vstd::arithmetic::power::pow(256, len),
    ensures
        be_digits(n, len).len() == len,
        be_value(be_digits(n, len)) == n,
    decreases len,
{
    vstd::arithmetic::power::lemma_pow_positive(256, len);
    if len == 0 {
        vstd::arithmetic::power::lemma_pow0(256);
    } else {
        let high = (len - 1) as nat;
        assert(vstd::arithmetic::power::pow(256, len) == 256 * vstd::arithmetic::power::pow(
            256,
            high,
        )) by {
            reveal(vstd::arithmetic::power::pow);
        }
        let p = vstd::arithmetic::power::pow(256, high);
        assert(n / 256 < p) by (nonlinear_arith)
            requires
                n < 256 * p,
        ;
        law_be_value_of_digits(n / 256, high);
        assert(be_digits(n, len).drop_last() =~= be_digits(n / 256, high));
    }
}

/// A row of bytes stands for a number below the power that its length allows.
pub proof fn lemma_be_value_bound(s: Seq<u8>)
    ensures
        be_value(s) < vstd::arithmetic::power::pow(256, s.len()),
    decreases s.len(),
{
    if s.len() == 0 {
        vstd::arithmetic::power::lemma_pow0(256);
    } else {
        lemma_be_value_bound(s.drop_last());
        let high = (s.len() - 1) as nat;
        assert(vstd::arithmetic::power::pow(256, s.len()) == 256 * vstd::arithmetic::power::pow(
            256,
            high,
        )) by {
            reveal(vstd::arithmetic::power::pow);
        }
    }
}

/// What is written by `push_u16` reads back as the same number.
pub proof fn law_u16_round_trip(x: u16)
    ensures
        be16(be16_bytes(x), 0) == x,
        be16_bytes(x).len() == 2,
{
}

/// What is written by `push_u32` reads back as the same number.
pub proof fn law_u32_round_trip(x: u32)
    ensures
        be32(be32_bytes(x), 0) == x,
        be32_bytes(x).len() == 4,
{
    let a = x / 0x1000000;
    let b = x / 0x10000 % 256;
    let c = x / 0x100 % 256;
    let d = x % 256;
    assert(x / 0x10000 == a * 256 + b);
    assert(x / 0x100 == (x / 0x10000) * 256 + c);
    assert(x == (x / 0x100) * 256 + d);
}

/// Numbers on the wire have their most significant byte first.
pub proof fn law_most_significant_first(s: Seq<u8>, i: int, x: u16, y: u32, b: u8)
    requires
        0 <= i,
        i + 4 <= s.len(),
    ensures
        be16(s, i) == s[i] * 256 + s[i + 1],
        be32(s, i) == s[i] * 16777216 + s[i + 1] * 65536 + s[i + 2] * 256 + s[i + 3],
        be16_bytes(x).len() == 2,
        be16_bytes(x)[0] * 256 + be16_bytes(x)[1] == x,
        be32_bytes(y).len() == 4,
        be32_bytes(y)[0] * 16777216 + be32_bytes(y)[1] * 65536 + be32_bytes(y)[2] * 256
            + be32_bytes(y)[3] == y,
        be_value(seq![b]) == b,
        be_value(s.push(b)) == be_value(s) * 256 + b,
{
    law_u16_round_trip(x);
    law_u32_round_trip(y);
    reveal_with_fuel(be_value, 2);
    assert(seq![b].drop_last() =~= Seq::<u8>::empty());
    assert(s.push(b).drop_last() =~= s);
}

} // verus!
