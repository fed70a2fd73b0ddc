//! Domain suffixes chosen by address, and synthetic host names that carry the
//! address they stand for.

use crate::addr::{IpAddr, Ipv4Addr, Ipv6Addr};
use crate::addr_text;
use crate::protocol::MAXDNAME;
use crate::text::{
    self, eq_ignore_case, from_chars, parse_number, push_decimal, split_text, to_chars,
    to_lowercase_text,
};
use vstd::arithmetic::power2::pow2;
use vstd::prelude::*;
use vstd::utf8::*;

verus! {

/// The family of an interface address.
#[derive(Debug, Clone, Copy, PartialEq, Eq, Structural)]
pub enum AddrlistFlags {
    IPv4,
    IPv6,
}

/// An address of an interface with the length of its network prefix.
#[derive(Debug, Clone, Copy)]
pub struct Addrlist {
    pub addr: IpAddr,
    pub prefixlen: u32,
    pub flags: AddrlistFlags,
}

/// A domain that belongs to a range of addresses or to an interface.
#[derive(Debug, Clone)]
pub struct CondDomain {
    /// The domain suffix.
    pub domain: String,
    /// What a synthetic name starts with.
    pub prefix: Option<String>,
    /// Whether a synthetic name holds a number in place of an address.
    pub indexed: bool,
    /// Whether the addresses of an interface decide in place of the range.
    pub interface: bool,
    /// Whether the range is one of IPv6.
    pub is6: bool,
    pub start: Ipv4Addr,
    pub end: Ipv4Addr,
    pub start6: Ipv6Addr,
    pub end6: Ipv6Addr,
    pub prefixlen: u32,
    pub al: Vec<Addrlist>,
}

/// The family that a query asks about.
#[derive(Debug, Clone, Copy, PartialEq, Eq, Structural)]
pub enum QueryFlags {
    IPv4,
    IPv6,
}

/// What a name is, as a synthetic one.
#[derive(Debug, Clone, Copy, PartialEq, Eq, Structural)]
pub enum SynthDomainResult {
    /// It stands for this address.
    Match(IpAddr),
    /// It is none.
    NoMatch,
}

/// Whether two host names are the same; the case of ASCII letters does not
/// matter.
pub fn hostname_isequal(a: &str, b: &str) -> (r: bool)
    ensures
        r == (text::lower(a@) == text::lower(b@)),
{
    eq_ignore_case(a, b)
}

// ---------------------------------------------------------------------------
// Networks
// ---------------------------------------------------------------------------

/// Whether two IPv4 addresses agree in their first `prefixlen` bits.
pub open spec fn same_net(a: Ipv4Addr, b: Ipv4Addr, prefixlen: u32) -> bool {
    if prefixlen >= 32 {
        a.bits == b.bits
    } else {
        a.bits as nat / pow2((32 - prefixlen) as nat) == b.bits as nat / pow2(
            (32 - prefixlen) as nat,
        )
    }
}

/// Whether two IPv6 addresses agree in their first `prefixlen` bits.
pub open spec fn same_net6(a: Ipv6Addr, b: Ipv6Addr, prefixlen: u32) -> bool {
    if prefixlen >= 128 {
        a.bits == b.bits
    } else {
        a.bits as nat / pow2((128 - prefixlen) as nat) == b.bits as nat / pow2(
            (128 - prefixlen) as nat,
        )
    }
}

/// The last sixty-four bits of an address.
pub open spec fn host_part(a: Ipv6Addr) -> u64 {
    (a.bits % 0x1_0000_0000_0000_0000) as u64
}

/// The address with its last sixty-four bits replaced.
pub open spec fn with_host_part(a: Ipv6Addr, host: u64) -> Ipv6Addr {
    Ipv6Addr {
        bits: (a.bits - a.bits % 0x1_0000_0000_0000_0000 + host) as u128,
    }
}

/// A power of two.
fn power_of_two(k: u32) -> (r: u128)
    requires
        k < 128,
    ensures
        r == pow2(k as nat),
{
    let mut r: u128 = 1;
    let mut i: u32 = 0;
    proof {
        vstd::arithmetic::power2::lemma2_to64();
    }
    while i < k
        invariant
            i <= k < 128,
            r == pow2(i as nat),
        decreases k - i,
    {
        proof {
            vstd::arithmetic::power2::lemma_pow2_unfold((i + 1) as nat);
            if i + 1 < 127 {
                vstd::arithmetic::power2::lemma_pow2_strictly_increases((i + 1) as nat, 127);
            }
            lemma_pow2_127();
        }
        r = r * 2;
        i = i + 1;
    }
    r
}

proof fn lemma_pow2_127()
    ensures
        pow2(127) == 0x8000_0000_0000_0000_0000_0000_0000_0000,
{
    vstd::arithmetic::power2::lemma2_to64_rest();
    vstd::arithmetic::power2::lemma_pow2_adds(63, 64);
    vstd::arithmetic::power2::lemma2_to64();
    assert(0x8000_0000_0000_0000int * 0x1_0000_0000_0000_0000int
        == 0x8000_0000_0000_0000_0000_0000_0000_0000int) by (nonlinear_arith);
}

/// Whether two IPv4 addresses agree in their first `prefixlen` bits.
pub fn is_same_net_prefix(a: Ipv4Addr, b: Ipv4Addr, prefixlen: u32) -> (r: bool)
    ensures
        r == same_net(a, b, prefixlen),
{
    if prefixlen >= 32 {
        return a.bits == b.bits;
    }
    proof {
        vstd::arithmetic::power2::lemma_pow2_pos((32 - prefixlen) as nat);
    }
    let d: u128 = power_of_two(32 - prefixlen);
    (a.bits as u128) / d == (b.bits as u128) / d
}

/// Whether two IPv6 addresses agree in their first `prefixlen` bits.
pub fn is_same_net6(a: &Ipv6Addr, b: &Ipv6Addr, prefixlen: u32) -> (r: bool)
    ensures
        r == same_net6(*a, *b, prefixlen),
{
    if prefixlen >= 128 {
        return a.bits == b.bits;
    }
    if prefixlen == 0 {
        proof {
            lemma_pow2_127();
            vstd::arithmetic::power2::lemma_pow2_unfold(128);
            assert(pow2(128) == u128::MAX + 1);
            vstd::arithmetic::div_mod::lemma_basic_div(a.bits as int, pow2(128) as int);
            vstd::arithmetic::div_mod::lemma_basic_div(b.bits as int, pow2(128) as int);
        }
        return true;
    }
    proof {
        vstd::arithmetic::power2::lemma_pow2_pos((128 - prefixlen) as nat);
    }
    let d: u128 = power_of_two(128 - prefixlen);
    a.bits / d == b.bits / d
}

/// The last sixty-four bits of an address.
pub fn addr6part(a: &Ipv6Addr) -> (r: u64)
    ensures
        r == host_part(*a),
{
    (a.bits % 0x1_0000_0000_0000_0000) as u64
}

/// Replaces the last sixty-four bits of an address.
pub fn setaddr6part(a: &mut Ipv6Addr, host: u64)
    ensures
        *final(a) == with_host_part(*old(a), host),
        host_part(*final(a)) == host,
{
    let high: u128 = a.bits - a.bits % 0x1_0000_0000_0000_0000;
    a.bits = high + (host as u128);
}

// ---------------------------------------------------------------------------
// Valid names
// ---------------------------------------------------------------------------

/// Whether a character may stand at place `i` of a label of `len` characters:
/// a letter or digit anywhere, a hyphen inside. Capitals and a star in the
/// first place are for patterns only.
pub open spec fn label_char_ok(c: char, i: int, len: int, pattern: bool) -> bool {
    ||| 'a' <= c && c <= 'z'
    ||| '0' <= c && c <= '9'
    ||| pattern && 'A' <= c && c <= 'Z'
    ||| c == '-' && 0 < i && i < len - 1
    ||| pattern && c == '*' && i == 0
}

/// Whether a label is of proper length and made of proper characters.
pub open spec fn label_ok(label: Seq<char>, pattern: bool) -> bool {
    &&& 1 <= text::utf8_len(label) <= 63
    &&& forall|i: int|
        0 <= i < label.len() ==> label_char_ok(#[trigger] label[i], i, label.len() as int, pattern)
}

/// Whether all labels of a name are proper.
pub open spec fn labels_ok(name: Seq<char>, pattern: bool) -> bool {
    forall|i: int|
        0 <= i < text::split(name, '.').len() ==> label_ok(
            #[trigger] text::split(name, '.')[i],
            pattern,
        )
}

/// Whether a label is proper.
fn check_label(label: &str, pattern: bool) -> (r: bool)
    ensures
        r == label_ok(label@, pattern),
{
    let bytes: usize = label.as_bytes().len();
    if bytes < 1 || bytes > 63 {
        return false;
    }
    let chars = to_chars(label);
    let n: usize = chars.len();
    let mut i: usize = 0;
    while i < n
        invariant
            i <= n == chars@.len(),
            chars@ == label@,
            forall|k: int|
                0 <= k < i ==> label_char_ok(#[trigger] label@[k], k, n as int, pattern),
        decreases n - i,
    {
        let c: char = chars[i];
        let ok: bool = ('a' <= c && c <= 'z') || ('0' <= c && c <= '9') || (pattern && 'A' <= c && c
            <= 'Z') || (c == '-' && i > 0 && i < n - 1) || (pattern && c == '*' && i == 0);
        assert(ok == label_char_ok(label@[i as int], i as int, n as int, pattern));
        if !ok {
            return false;
        }
        i = i + 1;
    }
    true
}

/// Whether all labels of a name are proper.
fn check_labels(name: &str, pattern: bool) -> (r: bool)
    ensures
        r == labels_ok(name@, pattern),
{
    let labels = split_text(name, '.');
    let ghost all = text::texts(labels@);
    let mut i: usize = 0;
    while i < labels.len()
        invariant
            i <= labels@.len(),
            all == text::texts(labels@),
            all == text::split(name@, '.'),
            forall|k: int| 0 <= k < i ==> label_ok(#[trigger] all[k], pattern),
        decreases labels@.len() - i,
    {
        assert(all[i as int] == labels@[i as int]@);
        if !check_label(labels[i].as_str(), pattern) {
            return false;
        }
        i = i + 1;
    }
    true
}

/// Whether a text is a host name, in which a label may start with a star.
pub fn is_valid_dns_name_pattern(name: &str) -> (r: bool)
    ensures
        r == (name@.len() > 0 && text::utf8_len(name@) <= MAXDNAME && labels_ok(name@, true)),
{
    if name.is_empty() || name.as_bytes().len() > MAXDNAME {
        return false;
    }
    check_labels(name, true)
}

/// The canonical form of a name: lower case, without a final dot. Only proper
/// host names of at most 253 bytes, in their own case and in lower case, have one.
pub open spec fn canonical(name: Seq<char>) -> Option<Seq<char>> {
    let bare = crate::compression::without_final_dot(name);
    let form = text::lowercase(bare);
    if bare.len() == 0 || text::utf8_len(bare) > 253 || text::utf8_len(form) > 253 || !labels_ok(
        form,
        false,
    ) {
        None
    } else {
        Some(form)
    }
}

/// The canonical form of a name.
pub fn canonicalise(name: &str) -> (r: Option<String>)
    ensures
        match r {
            Some(s) => canonical(name@) == Some(s@),
            None => canonical(name@) is None,
        },
{
    let bare = crate::compression::drop_final_dot(name.to_owned());
    if bare.as_str().is_empty() || bare.as_str().as_bytes().len() > 253 {
        return None;
    }
    let lowered = to_lowercase_text(bare.as_str());
    if lowered.as_str().as_bytes().len() <= 253 && check_labels(lowered.as_str(), false) {
        Some(lowered)
    } else {
        None
    }
}

/// Whether a character may stand in a canonical form.
pub open spec fn is_canonical_char(c: char) -> bool {
    ('a' <= c && c <= 'z') || ('0' <= c && c <= '9') || c == '-' || c == '.'
}

proof fn lemma_pieces_make_all(s: Seq<char>)
    requires
        forall|j: int, k: int|
            0 <= j < text::split(s, '.').len() && 0 <= k < text::split(s, '.')[j].len()
                ==> is_canonical_char(#[trigger] text::split(s, '.')[j][k]),
    ensures
        forall|i: int| 0 <= i < s.len() ==> is_canonical_char(#[trigger] s[i]),
        text::split(s, '.').len() >= 1,
    decreases s.len(),
{
    if s.len() > 0 {
        let front = s.drop_last();
        let all = text::split(s, '.');
        let init = text::split(front, '.');
        text::law_split_join(front, '.');
        assert forall|j: int, k: int| 0 <= j < init.len() && 0 <= k < init[j].len() implies
            is_canonical_char(#[trigger] init[j][k]) by {
            assert(all[j][k] == init[j][k]);
        }
        lemma_pieces_make_all(front);
        if s.last() != '.' {
            let last = init.len() - 1;
            assert(all[last][init[last].len() as int] == s.last());
        }
        assert forall|i: int| 0 <= i < s.len() implies is_canonical_char(#[trigger] s[i]) by {
            if i < s.len() - 1 {
                assert(front[i] == s[i]);
            }
        }
    }
}

/// A canonical form is not empty, holds nothing but small letters, digits,
/// hyphens and dots, does not end with a dot and has at most 253 bytes. It is a
/// valid pattern and its own canonical form.
pub proof fn law_canonical_form(name: Seq<char>)
    ensures
        canonical(name) matches Some(form) ==> {
            &&& form.len() > 0
            &&& form.last() != '.'
            &&& is_ascii_chars(form)
            &&& forall|i: int| 0 <= i < form.len() ==> is_canonical_char(#[trigger] form[i])
            &&& text::utf8_len(form) <= 253
            &&& labels_ok(form, true)
            &&& canonical(form) == Some(form)
        },
{
    if let Some(form) = canonical(name) {
        let parts = text::split(form, '.');
        assert forall|j: int, k: int| 0 <= j < parts.len() && 0 <= k < parts[j].len() implies
            is_canonical_char(#[trigger] parts[j][k]) by {
            assert(label_ok(parts[j], false));
            assert(label_char_ok(parts[j][k], k, parts[j].len() as int, false));
        }
        lemma_pieces_make_all(form);
        let last = parts.len() - 1;
        assert(label_ok(parts[last], false));
        assert(encode_utf8(Seq::<char>::empty()).len() == 0);
        assert(form.len() > 0) by {
            if form.len() == 0 {
                assert(parts[0] == Seq::<char>::empty());
            }
        }
        assert(form.last() != '.') by {
            if form.last() == '.' {
                assert(parts[last] == Seq::<char>::empty());
            }
        }
        assert(is_ascii_chars(form)) by {
            assert forall|i: int| 0 <= i < form.len() implies '\0' <= #[trigger] form[i] <= '\u{7f}' by {
                assert(is_canonical_char(form[i]));
            }
        }
        assert(text::lower(form) =~= form) by {
            assert forall|i: int| 0 <= i < form.len() implies text::lower_char(form[i])
                == form[i] by {
                assert(is_canonical_char(form[i]));
            }
        }
        assert forall|j: int| 0 <= j < parts.len() implies label_ok(#[trigger] parts[j], true) by {
            assert(label_ok(parts[j], false));
            assert forall|k: int| 0 <= k < parts[j].len() implies label_char_ok(
                #[trigger] parts[j][k],
                k,
                parts[j].len() as int,
                true,
            ) by {
                assert(label_char_ok(parts[j][k], k, parts[j].len() as int, false));
            }
        }
    }
}

/// A final dot makes no difference to the canonical form.
pub proof fn law_canonical_form_ignores_final_dot(name: Seq<char>)
    requires
        name.len() > 0 ==> name.last() != '.',
    ensures
        canonical(name.push('.')) == canonical(name),
{
    assert(name.push('.').drop_last() =~= name);
}

/// ASCII names that differ only in the case of letters have the same canonical
/// form.
pub proof fn law_canonical_form_ignores_case(a: Seq<char>, b: Seq<char>)
    requires
        is_ascii_chars(a),
        is_ascii_chars(b),
        text::lower(a) == text::lower(b),
    ensures
        canonical(a) == canonical(b),
{
    let bare_a = crate::compression::without_final_dot(a);
    let bare_b = crate::compression::without_final_dot(b);
    assert(text::lower(a).len() == a.len() && text::lower(b).len() == b.len());
    if a.len() > 0 {
        let last = a.len() - 1;
        assert(text::lower(a)[last] == text::lower_char(a[last]));
        assert(text::lower(b)[last] == text::lower_char(b[last]));
        assert((a.last() == '.') == (b.last() == '.'));
    }
    assert(text::lower(bare_a) =~= text::lower(bare_b)) by {
        assert forall|i: int| 0 <= i < bare_a.len() implies text::lower_char(bare_a[i])
            == text::lower_char(bare_b[i]) by {
            assert(bare_a[i] == a[i] && bare_b[i] == b[i]);
            assert(text::lower(a)[i] == text::lower_char(a[i]));
            assert(text::lower(b)[i] == text::lower_char(b[i]));
        }
    }
    text::lemma_lower_utf8_len(bare_a);
    text::lemma_lower_utf8_len(bare_b);
    assert forall|i: int| 0 <= i < bare_a.len() implies '\0' <= #[trigger] bare_a[i] <= '\u{7f}' by {
        assert(bare_a[i] == a[i]);
    }
    assert forall|i: int| 0 <= i < bare_b.len() implies '\0' <= #[trigger] bare_b[i] <= '\u{7f}' by {
        assert(bare_b[i] == b[i]);
    }
    assert(is_ascii_chars(bare_a) && is_ascii_chars(bare_b));
}

// ---------------------------------------------------------------------------
// Addresses and domains
// ---------------------------------------------------------------------------

/// Whether an IPv4 address is in the network of an interface address.
pub open spec fn on_interface(addr: Ipv4Addr, al: Addrlist) -> bool {
    al.flags is IPv4 && (al.addr matches IpAddr::V4(own) && same_net(addr, own, al.prefixlen))
}

/// Whether an IPv6 address is in the network of an interface address.
pub open spec fn on_interface6(addr: Ipv6Addr, al: Addrlist) -> bool {
    al.flags is IPv6 && (al.addr matches IpAddr::V6(own) && same_net6(addr, own, al.prefixlen))
}

/// Whether a domain covers an IPv4 address.
pub open spec fn covers(c: CondDomain, addr: Ipv4Addr) -> bool {
    if c.interface {
        exists|i: int| 0 <= i < c.al@.len() && on_interface(addr, #[trigger] c.al@[i])
    } else {
        !c.is6 && c.start.bits <= addr.bits <= c.end.bits
    }
}

/// Whether a domain covers an IPv6 address.
pub open spec fn covers6(c: CondDomain, addr: Ipv6Addr) -> bool {
    if c.interface {
        exists|i: int| 0 <= i < c.al@.len() && on_interface6(addr, #[trigger] c.al@[i])
    } else if !c.is6 {
        false
    } else if c.prefixlen >= 64 {
        same_net6(addr, c.start6, 64) && host_part(c.start6) <= host_part(addr) <= host_part(c.end6)
    } else {
        same_net6(addr, c.start6, c.prefixlen)
    }
}

/// The first domain from `i` on that covers an IPv4 address.
pub open spec fn first_cover(domains: Seq<CondDomain>, addr: Ipv4Addr, i: int) -> Option<int>
    decreases domains.len() - i,
{
    if i >= domains.len() {
        None
    } else if covers(domains[i], addr) {
        Some(i)
    } else {
        first_cover(domains, addr, i + 1)
    }
}

/// The first domain from `i` on that covers an IPv6 address.
pub open spec fn first_cover6(domains: Seq<CondDomain>, addr: Ipv6Addr, i: int) -> Option<int>
    decreases domains.len() - i,
{
    if i >= domains.len() {
        None
    } else if covers6(domains[i], addr) {
        Some(i)
    } else {
        first_cover6(domains, addr, i + 1)
    }
}

/// Whether a domain covers an IPv4 address.
pub fn match_domain(addr: Ipv4Addr, c: &CondDomain) -> (r: bool)
    ensures
        r == covers(*c, addr),
{
    if c.interface {
        let mut i: usize = 0;
        while i < c.al.len()
            invariant
                i <= c.al@.len(),
                c.interface,
                forall|k: int| 0 <= k < i ==> !on_interface(addr, #[trigger] c.al@[k]),
            decreases c.al@.len() - i,
        {
            let al = &c.al[i];
            match (al.flags, al.addr) {
                (AddrlistFlags::IPv4, IpAddr::V4(own)) => {
                    if is_same_net_prefix(addr, own, al.prefixlen) {
                        assert(on_interface(addr, c.al@[i as int]));
                        return true;
                    }
                },
                _ => {},
            }
            i = i + 1;
        }
        false
    } else {
        !c.is6 && addr.bits >= c.start.bits && addr.bits <= c.end.bits
    }
}

/// The first domain that covers an IPv4 address.
pub fn search_domain<'a>(addr: Ipv4Addr, domains: &'a [CondDomain]) -> (r: Option<&'a CondDomain>)
    ensures
        match first_cover(domains@, addr, 0) {
            Some(i) => 0 <= i < domains@.len() && r == Some(&domains@[i]),
            None => r is None,
        },
{
    let mut i: usize = 0;
    while i < domains.len()
        invariant
            i <= domains@.len(),
            first_cover(domains@, addr, 0) == first_cover(domains@, addr, i as int),
        decreases domains@.len() - i,
    {
        if match_domain(addr, &domains[i]) {
            return Some(&domains[i]);
        }
        i = i + 1;
    }
    None
}

/// Whether a domain covers an IPv6 address.
pub fn match_domain6(addr: &Ipv6Addr, c: &CondDomain) -> (r: bool)
    ensures
        r == covers6(*c, *addr),
{
    if c.interface {
        let mut i: usize = 0;
        while i < c.al.len()
            invariant
                i <= c.al@.len(),
                c.interface,
                forall|k: int| 0 <= k < i ==> !on_interface6(*addr, #[trigger] c.al@[k]),
            decreases c.al@.len() - i,
        {
            let al = &c.al[i];
            match (al.flags, al.addr) {
                (AddrlistFlags::IPv6, IpAddr::V6(own)) => {
                    if is_same_net6(addr, &own, al.prefixlen) {
                        assert(on_interface6(*addr, c.al@[i as int]));
                        return true;
                    }
                },
                _ => {},
            }
            i = i + 1;
        }
        false
    } else if !c.is6 {
        false
    } else if c.prefixlen >= 64 {
        let part: u64 = addr6part(addr);
        is_same_net6(addr, &c.start6, 64) && part >= addr6part(&c.start6) && part <= addr6part(
            &c.end6,
        )
    } else {
        is_same_net6(addr, &c.start6, c.prefixlen)
    }
}

/// The first domain that covers an IPv6 address.
pub fn search_domain6<'a>(addr: &Ipv6Addr, domains: &'a [CondDomain]) -> (r: Option<
    &'a CondDomain,
>)
    ensures
        match first_cover6(domains@, *addr, 0) {
            Some(i) => 0 <= i < domains@.len() && r == Some(&domains@[i]),
            None => r is None,
        },
{
    let mut i: usize = 0;
    while i < domains.len()
        invariant
            i <= domains@.len(),
            first_cover6(domains@, *addr, 0) == first_cover6(domains@, *addr, i as int),
        decreases domains@.len() - i,
    {
        if match_domain6(addr, &domains[i]) {
            return Some(&domains[i]);
        }
        i = i + 1;
    }
    None
}

/// The domain suffix for an IPv4 address: that of the first domain that covers
/// it, else the default.
pub fn get_domain<'a>(
    addr: Ipv4Addr,
    cond_domains: &'a [CondDomain],
    default_domain: &'a str,
) -> (r: &'a str)
    ensures
        r@ == (match first_cover(cond_domains@, addr, 0) {
            Some(i) => cond_domains@[i].domain@,
            None => default_domain@,
        }),
{
    match search_domain(addr, cond_domains) {
        Some(c) => c.domain.as_str(),
        None => default_domain,
    }
}

/// The domain suffix for an IPv6 address, or the default where there is no
/// address.
pub fn get_domain6<'a>(
    addr: Option<&Ipv6Addr>,
    cond_domains: &'a [CondDomain],
    default_domain: &'a str,
) -> (r: &'a str)
    ensures
        r@ == (match addr {
            Some(a) => match first_cover6(cond_domains@, *a, 0) {
                Some(i) => cond_domains@[i].domain@,
                None => default_domain@,
            },
            None => default_domain@,
        }),
{
    match addr {
        Some(a) => match search_domain6(a, cond_domains) {
            Some(c) => c.domain.as_str(),
            None => default_domain,
        },
        None => default_domain,
    }
}

// ---------------------------------------------------------------------------
// Synthetic names
// ---------------------------------------------------------------------------

/// The text that a synthetic name of a domain starts with.
pub open spec fn prefix_of(c: CondDomain) -> Seq<char> {
    match c.prefix {
        Some(p) => p@,
        None => Seq::empty(),
    }
}

/// A text with every hyphen replaced.
pub open spec fn undash(s: Seq<char>, to: char) -> Seq<char> {
    Seq::new(
        s.len(),
        |i: int|
            if s[i] == '-' {
                to
            } else {
                s[i]
            },
    )
}

/// A text with every dot and colon replaced by a hyphen.
pub open spec fn dash(s: Seq<char>) -> Seq<char> {
    Seq::new(
        s.len(),
        |i: int|
            if s[i] == '.' || s[i] == ':' {
                '-'
            } else {
                s[i]
            },
    )
}

/// Where a character first stands, from `i` on.
pub open spec fn find_char(s: Seq<char>, c: char, i: int) -> Option<int>
    decreases s.len() - i,
{
    if i >= s.len() {
        None
    } else if s[i] == c {
        Some(i)
    } else {
        find_char(s, c, i + 1)
    }
}

/// Whether a character may stand in an encoded address.
pub open spec fn encodes(c: char, six: bool) -> bool {
    ||| '0' <= c && c <= '9'
    ||| c == '-'
    ||| six && 'A' <= c && c <= 'F'
    ||| six && 'a' <= c && c <= 'f'
}

/// Where the encoded address that a text starts with ends: at the first dot,
/// if only characters of such an address stand before it.
pub open spec fn encoded_end(s: Seq<char>, six: bool, i: int) -> Option<int>
    decreases s.len() - i,
{
    if i >= s.len() {
        None
    } else if s[i] == '.' {
        Some(i)
    } else if encodes(s[i], six) {
        encoded_end(s, six, i + 1)
    } else {
        None
    }
}

/// The address that an encoded address stands for.
pub open spec fn decoded(part: Seq<char>, six: bool) -> Option<IpAddr> {
    if !six {
        match addr_text::parse_dotted(undash(part, '.')) {
            Some(a) => Some(IpAddr::V4(a)),
            None => None,
        }
    } else if "--ffff-"@.is_prefix_of(part) {
        match addr_text::parse_dotted(undash(part.skip(7), '.')) {
            Some(a) => Some(
                IpAddr::V6(Ipv6Addr { bits: (0xffff_0000_0000 + a.bits) as u128 }),
            ),
            None => None,
        }
    } else {
        let t = undash(part, ':');
        match addr_text::parse_hexadecimal(
            if t.len() > 0 && t[0] == ':' {
                seq!['0'] + t
            } else {
                t
            },
        ) {
            Some(a) => Some(IpAddr::V6(a)),
            None => None,
        }
    }
}

/// The address that a number stands for in the range of a domain.
pub open spec fn indexed_addr(c: CondDomain, number: Seq<char>, six: bool) -> Option<IpAddr> {
    match text::parse_value(number) {
        None => None,
        Some(n) => if six && c.is6 && n <= u64::MAX && host_part(c.start6) + n <= host_part(
            c.end6,
        ) {
            Some(IpAddr::V6(with_host_part(c.start6, (host_part(c.start6) + n) as u64)))
        } else if !six && !c.is6 && n <= u32::MAX && c.start.bits + n <= c.end.bits {
            Some(IpAddr::V4(Ipv4Addr { bits: (c.start.bits + n) as u32 }))
        } else if six && c.is6 && n == 0 {
            Some(IpAddr::V6(c.start6))
        } else if !six && !c.is6 && n == 0 {
            Some(IpAddr::V4(c.start))
        } else {
            None
        },
    }
}

/// The rest of a name after the prefix of a domain, where the name starts with
/// that prefix in either case.
pub open spec fn synth_tail(name: Seq<char>, c: CondDomain) -> Option<Seq<char>> {
    if text::lowercase(prefix_of(c)).is_prefix_of(text::lowercase(name)) {
        Some(decode_utf8(encode_utf8(name).skip(text::utf8_len(prefix_of(c)) as int)))
    } else {
        None
    }
}

/// The address that a name stands for under one domain.
pub open spec fn synth_one(six: bool, name: Seq<char>, c: CondDomain) -> Option<IpAddr> {
    match synth_tail(name, c) {
        None => None,
        Some(tail) => {
            let end = if c.indexed {
                find_char(tail, '.', 0)
            } else {
                encoded_end(tail, six, 0)
            };
            match end {
                None => None,
                Some(k) => if text::lower(tail.skip(k + 1)) != text::lower(c.domain@) {
                    None
                } else if c.indexed {
                    indexed_addr(c, tail.take(k), six)
                } else {
                    match decoded(tail.take(k), six) {
                        Some(IpAddr::V4(a)) => if covers(c, a) {
                            Some(IpAddr::V4(a))
                        } else {
                            None
                        },
                        Some(IpAddr::V6(a)) => if covers6(c, a) {
                            Some(IpAddr::V6(a))
                        } else {
                            None
                        },
                        None => None,
                    }
                },
            }
        },
    }
}

/// The address that a name stands for under the first of the first `n` domains
/// that makes it one.
pub open spec fn synth_first(
    six: bool,
    name: Seq<char>,
    domains: Seq<CondDomain>,
    n: int,
) -> Option<IpAddr>
    decreases n,
{
    if n <= 0 {
        None
    } else {
        match synth_first(six, name, domains, n - 1) {
            Some(a) => Some(a),
            None => synth_one(six, name, domains[n - 1]),
        }
    }
}

/// Whether a name can be cut behind the prefix of a domain: the prefix, as
/// long as it is in bytes, ends at a character of the name.
pub open spec fn can_cut(name: Seq<char>, c: CondDomain) -> bool {
    text::lowercase(prefix_of(c)).is_prefix_of(text::lowercase(name)) ==> is_char_boundary(
        encode_utf8(name),
        text::utf8_len(prefix_of(c)) as int,
    )
}

/// The synthetic name of an IPv4 address under a domain.
pub open spec fn synth_name(c: CondDomain, addr: Ipv4Addr) -> Seq<char> {
    let middle = if c.indexed {
        text::decimal(
            if addr.bits >= c.start.bits {
                (addr.bits - c.start.bits) as nat
            } else {
                0
            },
        )
    } else {
        dash(addr.dotted())
    };
    (prefix_of(c) + middle).push('.') + c.domain@
}

/// The synthetic name of an IPv6 address under a domain.
pub open spec fn synth_name6(c: CondDomain, addr: Ipv6Addr) -> Seq<char> {
    let written = addr.written();
    let middle = if c.indexed {
        text::decimal(
            if host_part(addr) >= host_part(c.start6) {
                (host_part(addr) - host_part(c.start6)) as nat
            } else {
                0
            },
        )
    } else if c.prefix is None && written.len() > 0 && written[0] == ':' {
        seq!['0'] + dash(written.skip(1))
    } else {
        dash(written)
    };
    (prefix_of(c) + middle).push('.') + c.domain@
}

/// The text with every hyphen replaced.
fn undash_text(chars: &Vec<char>, from: usize, to: usize, with: char) -> (r: String)
    requires
        from <= to <= chars@.len(),
    ensures
        r@ == undash(chars@.subrange(from as int, to as int), with),
{
    let ghost part = chars@.subrange(from as int, to as int);
    let mut r: String = String::new();
    let mut i: usize = from;
    while i < to
        invariant
            from <= i <= to <= chars@.len(),
            part == chars@.subrange(from as int, to as int),
            r@ == undash(part, with).take(i - from),
        decreases to - i,
    {
        if chars[i] == '-' {
            r.push(with);
        } else {
            r.push(chars[i]);
        }
        i = i + 1;
        assert(r@ =~= undash(part, with).take(i - from));
    }
    assert(r@ =~= undash(part, with));
    r
}

/// Appends the characters from `from` on, with a hyphen for every dot and
/// colon.
fn push_dashed(s: &mut String, chars: &Vec<char>, from: usize)
    requires
        from <= chars@.len(),
    ensures
        final(s)@ == old(s)@ + dash(chars@.skip(from as int)),
{
    let ghost part = dash(chars@.skip(from as int));
    let ghost start = s@;
    let mut i: usize = from;
    while i < chars.len()
        invariant
            from <= i <= chars@.len(),
            part == dash(chars@.skip(from as int)),
            s@ == start + part.take(i - from),
        decreases chars@.len() - i,
    {
        if chars[i] == '.' || chars[i] == ':' {
            s.push('-');
        } else {
            s.push(chars[i]);
        }
        i = i + 1;
        assert(s@ =~= start + part.take(i - from));
    }
    assert(part.take(part.len() as int) =~= part);
}

/// Whether the first text starts with the second.
fn starts_with(s: &Vec<char>, p: &Vec<char>) -> (r: bool)
    ensures
        r == p@.is_prefix_of(s@),
{
    if p.len() > s.len() {
        return false;
    }
    let mut i: usize = 0;
    while i < p.len()
        invariant
            i <= p@.len() <= s@.len(),
            forall|k: int| 0 <= k < i ==> p@[k] == s@[k],
        decreases p@.len() - i,
    {
        if p[i] != s[i] {
            assert(s@.subrange(0, p@.len() as int)[i as int] == s@[i as int]);
            return false;
        }
        i = i + 1;
    }
    assert(p@ =~= s@.subrange(0, p@.len() as int));
    true
}

/// The rest of a name after the prefix of a domain.
fn cut_prefix(name: &str, c: &CondDomain) -> (r: Option<Vec<char>>)
    requires
        can_cut(name@, *c),
    ensures
        match r {
            Some(tail) => synth_tail(name@, *c) == Some(tail@),
            None => synth_tail(name@, *c) is None,
        },
{
    let prefix: &str = match &c.prefix {
        Some(p) => p.as_str(),
        None => "",
    };
    proof {
        reveal_strlit("");
        assert(prefix@ =~= prefix_of(*c));
    }
    let lower_name = to_chars(to_lowercase_text(name).as_str());
    let lower_prefix = to_chars(to_lowercase_text(prefix).as_str());
    if !starts_with(&lower_name, &lower_prefix) {
        return None;
    }
    let (_, tail) = name.split_at(prefix.as_bytes().len());
    proof {
        let n = text::utf8_len(prefix_of(*c)) as int;
        assert(encode_utf8(tail@) =~= encode_utf8(name@).skip(n));
        encode_utf8_decode_utf8(tail@);
    }
    Some(to_chars(tail))
}

/// Where a character first stands.
fn position(chars: &Vec<char>, c: char) -> (r: Option<usize>)
    ensures
        match r {
            Some(k) => find_char(chars@, c, 0) == Some(k as int) && k < chars@.len(),
            None => find_char(chars@, c, 0) is None,
        },
{
    let mut i: usize = 0;
    while i < chars.len()
        invariant
            i <= chars@.len(),
            find_char(chars@, c, 0) == find_char(chars@, c, i as int),
        decreases chars@.len() - i,
    {
        if chars[i] == c {
            return Some(i);
        }
        i = i + 1;
    }
    None
}

/// Where the encoded address that a text starts with ends.
fn encoded_position(chars: &Vec<char>, six: bool) -> (r: Option<usize>)
    ensures
        match r {
            Some(k) => encoded_end(chars@, six, 0) == Some(k as int) && k < chars@.len(),
            None => encoded_end(chars@, six, 0) is None,
        },
{
    let mut i: usize = 0;
    while i < chars.len()
        invariant
            i <= chars@.len(),
            encoded_end(chars@, six, 0) == encoded_end(chars@, six, i as int),
        decreases chars@.len() - i,
    {
        let ch: char = chars[i];
        if ch == '.' {
            return Some(i);
        }
        let ok: bool = ('0' <= ch && ch <= '9') || ch == '-' || (six && 'A' <= ch && ch <= 'F') || (
        six && 'a' <= ch && ch <= 'f');
        if !ok {
            return None;
        }
        i = i + 1;
    }
    None
}

/// The address that the first `k` characters encode.
fn decode_part(chars: &Vec<char>, k: usize, six: bool) -> (r: Option<IpAddr>)
    requires
        k <= chars@.len(),
    ensures
        r == decoded(chars@.take(k as int), six),
{
    let ghost part = chars@.take(k as int);
    assert(chars@.subrange(0, k as int) =~= part);
    if !six {
        return match Ipv4Addr::from_text(undash_text(chars, 0, k, '.').as_str()) {
            Some(a) => Some(IpAddr::V4(a)),
            None => None,
        };
    }
    let mapped = to_chars("--ffff-");
    proof {
        reveal_strlit("--ffff-");
    }
    let head = to_chars(from_chars(chars, 0, k).as_str());
    if starts_with(&head, &mapped) {
        assert(chars@.subrange(7, k as int) =~= part.skip(7));
        return match Ipv4Addr::from_text(undash_text(chars, 7, k, '.').as_str()) {
            Some(a) => Some(IpAddr::V6(a.to_ipv6_mapped())),
            None => None,
        };
    }
    let plain = undash_text(chars, 0, k, ':');
    let plain_chars = to_chars(plain.as_str());
    if plain_chars.len() > 0 && plain_chars[0] == ':' {
        let mut padded: String = String::new();
        padded.push('0');
        padded.append(plain.as_str());
        assert(padded@ =~= seq!['0'] + plain@);
        return match Ipv6Addr::from_text(padded.as_str()) {
            Some(a) => Some(IpAddr::V6(a)),
            None => None,
        };
    }
    match Ipv6Addr::from_text(plain.as_str()) {
        Some(a) => Some(IpAddr::V6(a)),
        None => None,
    }
}

/// The address that a number stands for in the range of a domain.
fn index_to_addr(c: &CondDomain, number: &str, six: bool) -> (r: Option<IpAddr>)
    ensures
        r == indexed_addr(*c, number@, six),
{
    if six {
        if !c.is6 {
            return None;
        }
        let index: u64 = match parse_number(number, u64::MAX) {
            Some(n) => n,
            None => {
                return None;
            },
        };
        let start: u64 = addr6part(&c.start6);
        let end: u64 = addr6part(&c.end6);
        if index <= end.saturating_sub(start) {
            let mut addr = c.start6;
            setaddr6part(&mut addr, start.saturating_add(index));
            assert(index == 0 ==> addr == c.start6);
            return Some(IpAddr::V6(addr));
        }
        None
    } else {
        if c.is6 {
            return None;
        }
        let index: u32 = match parse_number(number, u32::MAX as u64) {
            Some(n) => n as u32,
            None => {
                return None;
            },
        };
        let start: u32 = c.start.bits;
        let end: u32 = c.end.bits;
        if index <= end.saturating_sub(start) {
            return Some(IpAddr::V4(Ipv4Addr { bits: start.saturating_add(index) }));
        }
        None
    }
}

/// The address that a name stands for under one domain.
fn synth_under(six: bool, name: &str, c: &CondDomain) -> (r: Option<IpAddr>)
    requires
        can_cut(name@, *c),
    ensures
        r == synth_one(six, name@, *c),
{
    let tail = match cut_prefix(name, c) {
        Some(t) => t,
        None => {
            return None;
        },
    };
    let end = if c.indexed {
        position(&tail, '.')
    } else {
        encoded_position(&tail, six)
    };
    let k: usize = match end {
        Some(k) => k,
        None => {
            return None;
        },
    };
    let suffix = from_chars(&tail, k + 1, tail.len());
    assert(suffix@ =~= tail@.skip(k + 1));
    if !hostname_isequal(suffix.as_str(), c.domain.as_str()) {
        return None;
    }
    if c.indexed {
        let number = from_chars(&tail, 0, k);
        assert(number@ =~= tail@.take(k as int));
        return index_to_addr(c, number.as_str(), six);
    }
    match decode_part(&tail, k, six) {
        Some(IpAddr::V4(a)) => if match_domain(a, c) {
            Some(IpAddr::V4(a))
        } else {
            None
        },
        Some(IpAddr::V6(a)) => if match_domain6(&a, c) {
            Some(IpAddr::V6(a))
        } else {
            None
        },
        None => None,
    }
}

/// Whether a name is a synthetic one, and of which address. The first domain
/// that makes it one decides.
pub fn is_name_synthetic(flags: QueryFlags, name: &str, synth_domains: &[CondDomain]) -> (r:
    SynthDomainResult)
    requires
        forall|i: int|
            0 <= i < synth_domains@.len() && synth_first(
                flags is IPv6,
                name@,
                synth_domains@,
                i,
            ) is None ==> can_cut(name@, #[trigger] synth_domains@[i]),
    ensures
        r == (match synth_first(
            flags is IPv6,
            name@,
            synth_domains@,
            synth_domains@.len() as int,
        ) {
            Some(a) => SynthDomainResult::Match(a),
            None => SynthDomainResult::NoMatch,
        }),
{
    let six: bool = match flags {
        QueryFlags::IPv6 => true,
        QueryFlags::IPv4 => false,
    };
    let mut i: usize = 0;
    while i < synth_domains.len()
        invariant
            i <= synth_domains@.len(),
            six == (flags is IPv6),
            forall|k: int|
                0 <= k < synth_domains@.len() && synth_first(six, name@, synth_domains@, k) is None
                    ==> can_cut(name@, #[trigger] synth_domains@[k]),
            synth_first(six, name@, synth_domains@, i as int) is None,
        decreases synth_domains@.len() - i,
    {
        match synth_under(six, name, &synth_domains[i]) {
            Some(a) => {
                proof {
                    lemma_synth_first_stays(
                        six,
                        name@,
                        synth_domains@,
                        i + 1,
                        synth_domains@.len() as int,
                    );
                }
                return SynthDomainResult::Match(a);
            },
            None => {},
        }
        i = i + 1;
    }
    SynthDomainResult::NoMatch
}

/// What an earlier domain decides, later ones do not change.
proof fn lemma_synth_first_stays(
    six: bool,
    name: Seq<char>,
    domains: Seq<CondDomain>,
    m: int,
    n: int,
)
    requires
        0 <= m <= n,
    ensures
        synth_first(six, name, domains, m) matches Some(a) ==> synth_first(six, name, domains, n)
            == Some(a),
    decreases n - m,
{
    if m < n {
        lemma_synth_first_stays(six, name, domains, m + 1, n);
    }
}

/// The synthetic name of an address, if a domain covers it.
pub fn is_rev_synth(flag: QueryFlags, addr: IpAddr, synth_domains: &[CondDomain]) -> (r: Option<
    String,
>)
    ensures
        match (flag, addr) {
            (QueryFlags::IPv4, IpAddr::V4(a)) => match first_cover(synth_domains@, a, 0) {
                Some(i) => r matches Some(name) && name@ == synth_name(synth_domains@[i], a),
                None => r is None,
            },
            (QueryFlags::IPv6, IpAddr::V6(a)) => match first_cover6(synth_domains@, a, 0) {
                Some(i) => r matches Some(name) && name@ == synth_name6(synth_domains@[i], a),
                None => r is None,
            },
            _ => r is None,
        },
{
    match (flag, addr) {
        (QueryFlags::IPv4, IpAddr::V4(a)) => {
            let c = match search_domain(a, synth_domains) {
                Some(c) => c,
                None => {
                    return None;
                },
            };
            let mut name = prefix_text(c);
            if c.indexed {
                push_decimal(&mut name, a.bits.saturating_sub(c.start.bits) as u64);
            } else {
                let dotted = to_chars(a.to_string().as_str());
                push_dashed(&mut name, &dotted, 0);
                assert(dotted@.skip(0) =~= dotted@);
            }
            name.push('.');
            name.append(c.domain.as_str());
            assert(name@ =~= synth_name(*c, a));
            Some(name)
        },
        (QueryFlags::IPv6, IpAddr::V6(a)) => {
            let c = match search_domain6(&a, synth_domains) {
                Some(c) => c,
                None => {
                    return None;
                },
            };
            let mut name = prefix_text(c);
            if c.indexed {
                push_decimal(&mut name, addr6part(&a).saturating_sub(addr6part(&c.start6)));
            } else {
                let written = to_chars(a.to_string().as_str());
                if c.prefix.is_none() && written.len() > 0 && written[0] == ':' {
                    name.push('0');
                    push_dashed(&mut name, &written, 1);
                } else {
                    push_dashed(&mut name, &written, 0);
                    assert(written@.skip(0) =~= written@);
                }
            }
            name.push('.');
            name.append(c.domain.as_str());
            assert(name@ =~= synth_name6(*c, a));
            Some(name)
        },
        _ => None,
    }
}

/// The text that a synthetic name of a domain starts with.
fn prefix_text(c: &CondDomain) -> (r: String)
    ensures
        r@ == prefix_of(*c),
{
    match &c.prefix {
        Some(p) => p.as_str().to_owned(),
        None => String::new(),
    }
}

} // verus!
