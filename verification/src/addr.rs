//! Internet addresses.

use crate::text::push_decimal;
use crate::wire;
use vstd::prelude::*;

verus! {

/// An IPv4 address, as the number that its four bytes stand for.
#[derive(Debug, Clone, Copy, PartialEq, Eq, Hash, Structural)]
pub struct Ipv4Addr {
    pub bits: u32,
}

/// An IPv6 address, as the number that its sixteen bytes stand for.
#[derive(Debug, Clone, Copy, PartialEq, Eq, Hash, Structural)]
pub struct Ipv6Addr {
    pub bits: u128,
}

/// An address of either family.
#[derive(Debug, Clone, Copy, PartialEq, Eq, Hash, Structural)]
pub enum IpAddr {
    V4(Ipv4Addr),
    V6(Ipv6Addr),
}

/// An address with a port. An IPv6 one may belong to a flow and to a scope; else
/// both are zero.
#[derive(Debug, Clone, Copy, PartialEq, Eq, Hash, Structural)]
pub struct SocketAddr {
    pub ip: IpAddr,
    pub port: u16,
    pub flowinfo: u32,
    pub scope_id: u32,
}

impl SocketAddr {
    /// An address with a port, without a flow and a scope.
    pub fn new(ip: IpAddr, port: u16) -> (r: Self)
        ensures
            r == (SocketAddr { ip, port, flowinfo: 0, scope_id: 0 }),
    {
        SocketAddr { ip, port, flowinfo: 0, scope_id: 0 }
    }
}

impl Ipv4Addr {
    /// The four bytes of the address.
    pub open spec fn bytes(self) -> Seq<u8> {
        wire::be32_bytes(self.bits)
    }

    /// The dotted form of the address.
    pub open spec fn dotted(self) -> Seq<char> {
        crate::text::decimal(self.bytes()[0] as nat).push('.') + crate::text::decimal(
            self.bytes()[1] as nat,
        ).push('.') + crate::text::decimal(self.bytes()[2] as nat).push('.')
            + crate::text::decimal(self.bytes()[3] as nat)
    }

    /// The address `a.b.c.d`.
    pub fn new(a: u8, b: u8, c: u8, d: u8) -> (r: Self)
        ensures
            r.bytes() == seq![a, b, c, d],
            r.bits == wire::be32(seq![a, b, c, d], 0),
    {
        let bits: u32 = (a as u32) * 0x1000000 + (b as u32) * 0x10000 + (c as u32) * 0x100 + (
        d as u32);
        let r = Ipv4Addr { bits };
        proof {
            let high = a as int * 256 + b as int;
            let middle = high * 256 + c as int;
            assert(bits == middle * 256 + d);
            assert(bits as int / 0x100 == middle && bits as int % 256 == d);
            assert(bits as int / 0x10000 == high && middle % 256 == c);
            assert(bits as int / 0x1000000 == a && high % 256 == b);
        }
        assert(r.bytes() =~= seq![a, b, c, d]);
        r
    }

    /// The address whose bytes stand at `i`.
    pub fn read(s: &[u8], i: usize) -> (r: Self)
        requires
            i + 4 <= s@.len(),
        ensures
            r.bytes() == s@.subrange(i as int, i + 4),
            r.bits == wire::be32(s@, i as int),
    {
        let r = Ipv4Addr::new(s[i], s[i + 1], s[i + 2], s[i + 3]);
        assert(r.bytes() =~= s@.subrange(i as int, i + 4));
        r
    }

    /// The four bytes of the address.
    pub fn octets(&self) -> (r: [u8; 4])
        ensures
            r@ == self.bytes(),
    {
        let x = self.bits;
        let r = [
            (x / 0x1000000) as u8,
            (x / 0x10000 % 256) as u8,
            (x / 0x100 % 256) as u8,
            (x % 256) as u8,
        ];
        assert(r@ =~= self.bytes());
        r
    }

    /// The dotted form of the address.
    pub fn to_string(&self) -> (r: String)
        ensures
            r@ == self.dotted(),
    {
        let o = self.octets();
        let mut s: String = String::new();
        push_decimal(&mut s, o[0] as u64);
        s.push('.');
        push_decimal(&mut s, o[1] as u64);
        s.push('.');
        push_decimal(&mut s, o[2] as u64);
        s.push('.');
        push_decimal(&mut s, o[3] as u64);
        assert(s@ =~= self.dotted());
        s
    }
}

impl Ipv6Addr {
    /// The sixteen bytes of the address.
    pub open spec fn bytes(self) -> Seq<u8> {
        wire::be_digits(self.bits as nat, 16)
    }

    /// The address whose bytes stand at `i`.
    pub fn read(s: &[u8], i: usize) -> (r: Self)
        requires
            i + 16 <= s@.len(),
        ensures
            r.bytes() == s@.subrange(i as int, i + 16),
            r.bits == wire::be_value(s@.subrange(i as int, i + 16)),
    {
        let ghost row = s@.subrange(i as int, i + 16);
        let n: usize = s.len();
        let mut bits: u128 = 0;
        let mut k: usize = 0;
        while k < 16
            invariant
                k <= 16,
                i + 16 <= s@.len() == n,
                row == s@.subrange(i as int, i + 16),
                bits == wire::be_value(row.take(k as int)),
            decreases 16 - k,
        {
            let ghost next = row.take(k + 1);
            proof {
                assert(next.drop_last() =~= row.take(k as int));
                assert(next.last() == s@[i + k]);
                wire::lemma_be_value_bound(next);
                lemma_pow_within_u128((k + 1) as nat);
            }
            bits = bits * 256 + (s[i + k] as u128);
            k = k + 1;
        }
        proof {
            assert(row.take(16) =~= row);
            wire::law_be_digits_of_value(row);
        }
        Ipv6Addr { bits }
    }

    /// The sixteen bytes of the address.
    pub fn octets(&self) -> (r: [u8; 16])
        ensures
            r@ == self.bytes(),
    {
        let mut r: [u8; 16] = [0u8; 16];
        let mut left: u128 = self.bits;
        let mut k: usize = 16;
        while k > 0
            invariant
                k <= 16,
                r@.len() == 16,
                self.bytes() == wire::be_digits(left as nat, k as nat) + r@.skip(k as int),
            decreases k,
        {
            let byte: u8 = (left % 256) as u8;
            let ghost tail = r@.skip(k as int);
            k = k - 1;
            r[k] = byte;
            assert(r@.skip(k as int) =~= seq![byte] + tail);
            assert(wire::be_digits(left as nat, (k + 1) as nat) + tail =~= wire::be_digits(
                (left / 256) as nat,
                k as nat,
            ) + (seq![byte] + tail));
            left = left / 256;
        }
        assert(r@ =~= self.bytes());
        r
    }
}

/// Sixteen bytes hold every number below the limit of a `u128`, and fewer
/// bytes hold smaller numbers.
proof fn lemma_pow_within_u128(len: nat)
    requires
        len <= 16,
    ensures
        vstd::arithmetic::power::pow(256, len) <= u128::MAX + 1,
{
    vstd::arithmetic::power::lemma_pow_increases(256, len, 16);
    assert(vstd::arithmetic::power::pow(256, 16) == u128::MAX + 1) by {
        reveal(vstd::arithmetic::power::pow);
        reveal_with_fuel(vstd::arithmetic::power::pow, 17);
    }
}

} // verus!
