//! What holds of the data of DNSSEC records, of keys and of trust anchors.

use crate::dnssec::base64;
use crate::dnssec::canonical;
use crate::dnssec::crypto::{self, CryptoFault};
use crate::dnssec::digests;
use crate::dnssec::trust_anchor::{self, SetupEvent, SetupStep, TimestampState};
use crate::dnssec::types::{
    self, DigestType, DnssecAlgorithm, DsModel, KeyModel, Nsec3Model, SigModel,
};
use crate::parser::{self, ParseFault};
use crate::spaces;
use crate::text;
use crate::{hash, wire};
use vstd::prelude::*;
use vstd::utf8::*;

verus! {

// ---------------------------------------------------------------------------
// Canonical form
// ---------------------------------------------------------------------------

/// The data of a name server, an alias, a pointer or a renamed domain is covered as
/// its name in canonical form.
pub proof fn law_data_of_a_name(
    packet: Seq<u8>,
    start: int,
    end: int,
    rtype: u16,
    name: Seq<char>,
)
    requires
        start < end,
        rtype == 2 || rtype == 3 || rtype == 4 || rtype == 5 || rtype == 7 || rtype == 8 || rtype
            == 9 || rtype == 12 || rtype == 30 || rtype == 39,
        parser::name_at(packet, start) == Ok::<(int, Seq<char>), ParseFault>((end, name)),
    ensures
        canonical::canonical_data(packet, start, end, rtype) == canonical::wire_name(
            encode_utf8(name),
        ),
{
    canonical::law_name_data_is_canonical(packet, start, end, rtype, name);
}

/// The data of a mail exchanger, a service and the like is covered as its numbers,
/// which are two bytes or six, and its name in canonical form.
pub proof fn law_data_of_numbers_and_a_name(
    packet: Seq<u8>,
    start: int,
    end: int,
    rtype: u16,
    name: Seq<char>,
)
    requires
        rtype == 15 || rtype == 18 || rtype == 21 || rtype == 36 || rtype == 33,
        ({
            let k = if rtype == 33 {
                6int
            } else {
                2int
            };
            &&& 0 <= start
            &&& start + k < end <= packet.len()
            &&& parser::name_at(packet, start + k) == Ok::<(int, Seq<char>), ParseFault>(
                (end, name),
            )
        }),
    ensures
        ({
            let k = if rtype == 33 {
                6int
            } else {
                2int
            };
            canonical::canonical_data(packet, start, end, rtype) == packet.subrange(
                start,
                start + k,
            ) + canonical::wire_name(encode_utf8(name))
        }),
{
    let desc = canonical::descriptor(rtype);
    let k = if rtype == 33 {
        6int
    } else {
        2int
    };
    reveal_with_fuel(canonical::canonical_bytes, 4);
    assert(desc[0] == k && desc[1] == 0);
    assert(desc.drop_first()[0] == 0);
    assert(canonical::canonical_bytes(packet, end, end, desc.drop_first().drop_first())
        =~= Seq::<u8>::empty());
    assert(canonical::canonical_bytes(packet, start + k, end, desc.drop_first())
        =~= canonical::wire_name(encode_utf8(name)));
}

/// The data of a start of authority, and of the other types with two names, is covered
/// as both names in canonical form and the rest as it is.
pub proof fn law_data_of_two_names(
    packet: Seq<u8>,
    start: int,
    middle: int,
    rest: int,
    end: int,
    rtype: u16,
    first: Seq<char>,
    second: Seq<char>,
)
    requires
        rtype == 6 || rtype == 14 || rtype == 17,
        0 <= start < middle < rest < end <= packet.len(),
        parser::name_at(packet, start) == Ok::<(int, Seq<char>), ParseFault>((middle, first)),
        parser::name_at(packet, middle) == Ok::<(int, Seq<char>), ParseFault>((rest, second)),
    ensures
        canonical::canonical_data(packet, start, end, rtype) == canonical::wire_name(
            encode_utf8(first),
        ) + canonical::wire_name(encode_utf8(second)) + packet.subrange(rest, end),
{
    let desc = canonical::descriptor(rtype);
    let (d1, d2) = (desc.drop_first(), desc.drop_first().drop_first());
    reveal_with_fuel(canonical::canonical_bytes, 4);
    assert(desc[0] == 0 && d1[0] == 0 && d2[0] == canonical::ALL_BYTES);
    assert(canonical::canonical_bytes(packet, end, end, d2.drop_first()) =~= Seq::<u8>::empty());
    assert(canonical::canonical_bytes(packet, rest, end, d2) =~= packet.subrange(rest, end));
    assert(canonical::canonical_data(packet, start, end, rtype) =~= canonical::wire_name(
        encode_utf8(first),
    ) + canonical::wire_name(encode_utf8(second)) + packet.subrange(rest, end));
}

/// The data of all types without names in canonical form is covered as it is.
pub proof fn law_data_without_names(packet: Seq<u8>, start: int, end: int, rtype: u16)
    requires
        0 <= start <= end <= packet.len(),
        rtype == 1 || rtype == 13 || rtype == 16 || rtype == 28 || rtype == 35 || rtype >= 40,
    ensures
        canonical::canonical_data(packet, start, end, rtype) == packet.subrange(start, end),
{
    canonical::law_plain_data_is_canonical(packet, start, end, rtype);
}

// ---------------------------------------------------------------------------
// Fields
// ---------------------------------------------------------------------------

/// A key stands in record data as its flags, its protocol, the number of its algorithm
/// and the key itself.
pub proof fn law_fields_of_a_key(key: KeyModel)
    ensures
        key.wire().len() == 4 + key.public_key.len(),
        wire::be16(key.wire(), 0) == key.flags,
        key.wire()[2] == key.protocol,
        key.wire()[3] == key.algorithm.number(),
        key.wire().skip(4) == key.public_key,
{
    wire::law_u16_round_trip(key.flags);
    let w = key.wire();
    assert(w[0] == wire::be16_bytes(key.flags)[0] && w[1] == wire::be16_bytes(key.flags)[1]);
    assert(w.skip(4) =~= key.public_key);
}

/// A digest of a key stands in record data as the tag of the key, the numbers of its
/// algorithm and of the digest's type, and the digest itself.
pub proof fn law_fields_of_a_digest(ds: DsModel)
    ensures
        ds.wire().len() == 4 + ds.digest.len(),
        wire::be16(ds.wire(), 0) == ds.key_tag,
        ds.wire()[2] == ds.algorithm.number(),
        ds.wire()[3] == ds.digest_type.number(),
        ds.wire().skip(4) == ds.digest,
{
    wire::law_u16_round_trip(ds.key_tag);
    let w = ds.wire();
    assert(w[0] == wire::be16_bytes(ds.key_tag)[0] && w[1] == wire::be16_bytes(ds.key_tag)[1]);
    assert(w.skip(4) =~= ds.digest);
}

/// What is read of a signature stands in its data: the type, the algorithm, the labels,
/// the Original TTL, the end and the beginning of its time and the tag of its key in
/// their places, the signer's name behind them and the signature at the end.
pub proof fn law_fields_of_a_signature(data: Seq<u8>)
    ensures
        SigModel::parsed(data) matches Ok(sig) ==> {
            &&& data.len() > 18
            &&& sig.type_covered == data[0] * 256 + data[1]
            &&& sig.algorithm.number() == data[2]
            &&& sig.labels == data[3]
            &&& sig.original_ttl == wire::be32(data, 4)
            &&& sig.signature_expiration == wire::be32(data, 8)
            &&& sig.signature_inception == wire::be32(data, 12)
            &&& sig.key_tag == data[16] * 256 + data[17]
            &&& 0 < sig.signature.len() <= data.len() - 18
            &&& sig.signature == data.skip(data.len() - sig.signature.len())
        },
{
    if let Ok(sig) = SigModel::parsed(data) {
        types::law_algorithm_number(data[2]);
        if let Some((labels, end)) = types::read_labels(data, 18, Seq::empty()) {
            lemma_labels_end(data, 18, Seq::empty());
            assert(data.skip(end) =~= data.skip(data.len() - sig.signature.len()));
        }
    }
}

proof fn lemma_labels_end(data: Seq<u8>, pos: int, found: Seq<Seq<char>>)
    requires
        0 <= pos,
    ensures
        types::read_labels(data, pos, found) matches Some((_, end)) ==> end >= pos,
    decreases data.len() - pos,
{
    if pos < data.len() && data[pos] != 0 && pos + 1 + data[pos] <= data.len() {
        lemma_labels_end(
            data,
            pos + 1 + data[pos],
            found.push(text::decoded(data.subrange(pos + 1, pos + 1 + data[pos]))),
        );
    }
}

/// A hashed proof stands in record data as the hash algorithm, the flags, the
/// iterations, the salt and the next hash, each with its length before it, and
/// the bitmap.
pub proof fn law_fields_of_a_hashed_proof(nsec: Nsec3Model)
    requires
        nsec.salt.len() <= 255,
        nsec.next_hashed_owner.len() <= 255,
    ensures
        ({
            let w = nsec.wire();
            let s = nsec.salt.len() as int;
            let h = nsec.next_hashed_owner.len() as int;
            &&& w.len() == 6 + s + h + nsec.type_bitmap.len()
            &&& w[0] == nsec.hash_algorithm
            &&& w[1] == nsec.flags
            &&& wire::be16(w, 2) == nsec.iterations
            &&& w[4] == s
            &&& w.subrange(5, 5 + s) == nsec.salt
            &&& w[5 + s] == h
            &&& w.subrange(6 + s, 6 + s + h) == nsec.next_hashed_owner
            &&& w.skip(6 + s + h) == nsec.type_bitmap
        }),
{
    wire::law_u16_round_trip(nsec.iterations);
    let w = nsec.wire();
    let s = nsec.salt.len() as int;
    let h = nsec.next_hashed_owner.len() as int;
    assert(w[2] == wire::be16_bytes(nsec.iterations)[0] && w[3] == wire::be16_bytes(
        nsec.iterations,
    )[1]);
    assert(w.subrange(5, 5 + s) =~= nsec.salt);
    assert(w.subrange(6 + s, 6 + s + h) =~= nsec.next_hashed_owner);
    assert(w.skip(6 + s + h) =~= nsec.type_bitmap);
}

/// The sum of a key grows by every two bytes as by a number that they spell, and by a
/// last single one as by the upper half of such a number.
pub proof fn law_sum_of_a_key(data: Seq<u8>, a: u8, b: u8)
    requires
        data.len() % 2 == 0,
    ensures
        types::key_sum(Seq::empty()) == 0,
        types::key_sum(data.push(a)) == types::key_sum(data) + a * 256,
        types::key_sum(data.push(a).push(b)) == types::key_sum(data) + a * 256 + b,
{
    assert(data.push(a).drop_last() =~= data);
    assert(data.push(a).push(b).drop_last() =~= data.push(a));
    assert(data.push(a).len() % 2 == 1);
    assert(types::key_sum(data.push(a)) == types::key_sum(data) + a as nat * 256);
    let all = data.push(a).push(b);
    assert(all.len() % 2 == 0 && all.last() == b);
    assert(types::key_sum(all) == types::key_sum(all.drop_last()) + b as nat);
}

/// The tag of a key is its sum with what does not fit in 16 bits added at the lower
/// end.
pub proof fn law_tag_of_a_key(data: Seq<u8>, upper: int, lower: int)
    requires
        0 <= lower < 65536,
        0 <= upper < 65536,
        types::key_sum(data) == upper * 65536 + lower,
    ensures
        types::key_tag_of(data) == (upper + lower) % 65536,
{
    let s = types::key_sum(data) as int;
    assert(s / 65536 == upper);
    assert((s + upper) % 65536 == (upper + lower) % 65536) by {
        vstd::arithmetic::div_mod::lemma_mod_multiples_vanish(upper, upper + lower, 65536);
    }
}

/// A key is digested as a whole, by the hash function of the digest's type.
pub proof fn law_digest_of_a_key(key: KeyModel)
    ensures
        digests::key_digest(key, DigestType::SHA1) == Some(digests::sha1(key.wire())),
        digests::key_digest(key, DigestType::SHA256) == Some(hash::sha256(key.wire())),
        digests::key_digest(key, DigestType::SHA384) == Some(digests::sha384(key.wire())),
        digests::key_digest(key, DigestType::GOST) is None,
{
}

// ---------------------------------------------------------------------------
// Signatures
// ---------------------------------------------------------------------------

/// A key of RSA is the length of its exponent, in one byte or in two behind a zero, the
/// exponent, and the modulus, which has at least 64 bytes.
pub proof fn law_parts_of_an_rsa_key(exponent: Seq<u8>, modulus: Seq<u8>)
    requires
        modulus.len() >= 64,
    ensures
        1 <= exponent.len() <= 255 ==> crypto::rsa_parts(
            seq![exponent.len() as u8] + exponent + modulus,
        ) == Ok::<(Seq<u8>, Seq<u8>), CryptoFault>((exponent, modulus)),
        exponent.len() <= 65535 ==> crypto::rsa_parts(
            seq![0u8] + wire::be16_bytes(exponent.len() as u16) + exponent + modulus,
        ) == Ok::<(Seq<u8>, Seq<u8>), CryptoFault>((exponent, modulus)),
{
    let n = exponent.len() as int;
    if 1 <= n <= 255 {
        let key = seq![n as u8] + exponent + modulus;
        assert(key.subrange(1, 1 + n) =~= exponent);
        assert(key.skip(1 + n) =~= modulus);
    }
    if n <= 65535 {
        let key = seq![0u8] + wire::be16_bytes(n as u16) + exponent + modulus;
        wire::law_u16_round_trip(n as u16);
        assert(key[1] == wire::be16_bytes(n as u16)[0] && key[2] == wire::be16_bytes(n as u16)[1]);
        assert(key.subrange(3, 3 + n) =~= exponent);
        assert(key.skip(3 + n) =~= modulus);
    }
}

/// A signature is good exactly where the verdict for its algorithm is: on the two parts
/// of an RSA key, on the full point of an elliptic curve, or on an Edwards key as it is,
/// where key and signature have the lengths of the algorithm.
pub proof fn law_good_signature(key: Seq<u8>, sig: Seq<u8>, message: Seq<u8>, algo: DnssecAlgorithm)
    ensures
        crypto::verify_result(key, sig, message, algo) is Ok <==> match algo {
            DnssecAlgorithm::RsaSha1 | DnssecAlgorithm::RsaSha1Nsec3 => crypto::rsa_parts(
                key,
            ) matches Ok((e, n)) && crypto::rsa_sha1_fits(n, e, message, sig),
            DnssecAlgorithm::RsaSha256 => crypto::rsa_parts(key) matches Ok((e, n))
                && crypto::rsa_sha256_fits(n, e, message, sig),
            DnssecAlgorithm::RsaSha512 => crypto::rsa_parts(key) matches Ok((e, n))
                && crypto::rsa_sha512_fits(n, e, message, sig),
            DnssecAlgorithm::EcdsaP256Sha256 => key.len() == 64 && sig.len() == 64
                && crypto::ecdsa_p256_fits(seq![4u8] + key, message, sig),
            DnssecAlgorithm::EcdsaP384Sha384 => key.len() == 96 && sig.len() == 96
                && crypto::ecdsa_p384_fits(seq![4u8] + key, message, sig),
            DnssecAlgorithm::Ed25519 => key.len() == 32 && sig.len() == 64 && crypto::ed25519_fits(
                key,
                message,
                sig,
            ),
            DnssecAlgorithm::Ed448 | DnssecAlgorithm::Gost => false,
        },
{
}

// ---------------------------------------------------------------------------
// Trust anchors
// ---------------------------------------------------------------------------

/// A key can be a trust anchor exactly where its protocol is that of DNSSEC, it is a
/// zone key, it is not empty, and its domain is short enough for a name.
pub proof fn law_valid_anchor(domain: Seq<char>, key: KeyModel)
    ensures
        trust_anchor::anchor_fault(domain, key) is None <==> key.protocol == 3 && key.flags
            & 0x0100 != 0 && key.public_key.len() > 0 && text::utf8_len(domain) <= 1025,
{
}

/// The keys of a domain that are there stay when one is added behind them, and the
/// domain is found whatever its case.
pub proof fn law_added_key_is_last(
    anchors: Map<Seq<char>, Seq<KeyModel>>,
    domain: Seq<char>,
    key: KeyModel,
)
    ensures
        ({
            let after = trust_anchor::with_anchor(anchors, domain, key);
            let name = text::lowercase(domain);
            &&& anchors.contains_key(name) ==> after[name] == anchors[name].push(key)
            &&& !anchors.contains_key(name) ==> after[name] == seq![key]
            &&& forall|d: Seq<char>|
                d != name ==> (#[trigger] after.contains_key(d) <==> anchors.contains_key(d)) && (
                anchors.contains_key(d) ==> after[d] == anchors[d])
        }),
{
}

/// A time that the file has is kept; a file that is not there is made, with the time
/// that a new one has, and the clock is read then. Every failure ends the set-up.
pub proof fn law_steps_of_a_set_up(state: TimestampState, event: SetupEvent)
    requires
        state.file is Some,
    ensures
        ({
            let (after, step) = state.after(event);
            &&& after.file == state.file
            &&& match event {
                SetupEvent::Modified { time } => after.time == Some(time) && step is ReadClock,
                SetupEvent::Missing => after == state && step is CreateFile,
                SetupEvent::Created => after == state && step is SetModified,
                SetupEvent::ModifiedSet => step is ReadClock && (state.after(
                    SetupEvent::Created,
                ).1 matches SetupStep::SetModified { time } && after.time == Some(time)),
                SetupEvent::Clock { now } => (after.trusted <==> state.trusted || (
                state.time matches Some(time) && now >= time)) && (step matches SetupStep::Finish {
                    result,
                } && result is Ok) && ((state.time matches Some(time) && now >= time)
                    ==> after.touch == Some(now)),
                _ => after == state && (step matches SetupStep::Finish { result } && result is Err),
            }
        }),
{
}

/// Dates are checked without a file unless that is switched off, and with one only once
/// the clock has reached the time of the file, which is then touched.
pub proof fn law_dates_are_checked(state: TimestampState, now: u32)
    ensures
        ({
            let (after, r) = state.checked(now);
            &&& state.file is None ==> r == !state.no_time_check && after == state
            &&& state.file is Some ==> (r <==> state.trusted || (state.time matches Some(time)
                && now * 1_000_000_000 >= time))
            &&& state.file is Some && r && !state.trusted ==> after.trusted && after.touch == Some(
                (now * 1_000_000_000) as i128,
            )
            &&& !r ==> after == state
        }),
{
}

/// A line of a file of trust anchors names a domain, the class and the type of a key, its
/// flags, its protocol and its algorithm, and the key in base 64, in one word or in
/// several.
pub proof fn law_key_in_a_line(line: Seq<char>, number: usize, words: Seq<Seq<char>>, key: KeyModel)
    requires
        spaces::words(line) == words,
        words.len() >= 7,
        text::uppercase(words[1]) == "IN"@,
        text::uppercase(words[2]) == "DNSKEY"@,
        words[3] == text::decimal(key.flags as nat),
        words[4] == text::decimal(key.protocol as nat),
        words[5] == text::decimal(key.algorithm.number() as nat),
        trust_anchor::joined_words(words.skip(6)) == base64::encoded(key.public_key),
    ensures
        trust_anchor::key_in_line(line, number) == Ok::<
            (Seq<char>, KeyModel),
            trust_anchor::TrustAnchorFault,
        >((text::lowercase(words[0]), key)),
{
    text::law_number_is_read(key.flags as nat, Seq::empty());
    text::law_number_is_read(key.protocol as nat, Seq::empty());
    text::law_number_is_read(key.algorithm.number() as nat, Seq::empty());
    types::law_algorithm_round_trip(key.algorithm);
    base64::law_base64_round_trip(key.public_key);
}

/// A line of a file that is empty or a remark changes nothing; lines are read one after
/// the other, counted from one, up to the first that cannot be used.
pub proof fn law_lines_are_read(
    anchors: Map<Seq<char>, Seq<KeyModel>>,
    path: Seq<char>,
    lines: Seq<Seq<char>>,
    i: int,
)
    requires
        0 <= i < lines.len() < usize::MAX,
    ensures
        trust_anchor::is_idle_line(lines[i]) ==> trust_anchor::after_lines(
            anchors,
            path,
            lines,
            i,
        ) == trust_anchor::after_lines(anchors, path, lines, i + 1),
        trust_anchor::after_lines(anchors, path, lines, lines.len() as int).1 is Ok,
        !trust_anchor::is_idle_line(lines[i]) ==> match trust_anchor::key_in_line(
            spaces::trimmed(lines[i]),
            (i + 1) as usize,
        ) {
            Ok((domain, key)) => if trust_anchor::anchor_fault(domain, key) is None {
                trust_anchor::after_lines(anchors, path, lines, i) == trust_anchor::after_lines(
                    trust_anchor::with_anchor(anchors, domain, key),
                    path,
                    lines,
                    i + 1,
                )
            } else {
                trust_anchor::after_lines(anchors, path, lines, i).0 == anchors
                    && trust_anchor::after_lines(anchors, path, lines, i).1 is Err
            },
            Err(_) => trust_anchor::after_lines(anchors, path, lines, i).0 == anchors
                && trust_anchor::after_lines(anchors, path, lines, i).1 is Err,
        },
{
}

/// A line says nothing where it is blank or its first sign is that of a remark.
pub proof fn law_idle_line(front: Seq<char>, middle: Seq<char>, back: Seq<char>)
    requires
        forall|i: int| 0 <= i < front.len() ==> spaces::is_space(#[trigger] front[i]),
        forall|i: int| 0 <= i < back.len() ==> spaces::is_space(#[trigger] back[i]),
        middle.len() > 0,
        !spaces::is_space(middle[0]),
        !spaces::is_space(middle.last()),
    ensures
        trust_anchor::is_idle_line(front + middle + back) <==> middle[0] == '#' || middle[0] == ';',
{
    spaces::law_trimmed(front, middle, back);
}

/// The letters of base 64 are A to Z, a to z, the digits, the plus sign and the slash, in
/// this order.
pub proof fn law_letters_of_base64(value: int)
    requires
        0 <= value < 64,
    ensures
        value < 26 ==> base64::letter(value) as char as int == 'A' as int + value,
        26 <= value < 52 ==> base64::letter(value) as char as int == 'a' as int + value - 26,
        52 <= value < 62 ==> base64::letter(value) as char as int == '0' as int + value - 52,
        value == 62 ==> base64::letter(value) as char == '+',
        value == 63 ==> base64::letter(value) as char == '/',
        base64::sextet(base64::letter(value)) == Some(value as u32),
{
}

/// Three bytes are four letters of base 64, which hold six bits each, the upper ones
/// first; two bytes are three letters and one byte is two, and equals signs fill up.
pub proof fn law_bytes_in_base64(a: u8, b: u8, c: u8, rest: Seq<u8>)
    ensures
        ({
            let all = base64::letters_of(seq![a, b, c] + rest);
            let n = a * 65536 + b * 256 + c;
            &&& all.len() == 4 + base64::letters_of(rest).len()
            &&& all[0] == base64::letter(n / 262144)
            &&& all[1] == base64::letter(n / 4096 % 64)
            &&& all[2] == base64::letter(n / 64 % 64)
            &&& all[3] == base64::letter(n % 64)
            &&& all.skip(4) == base64::letters_of(rest)
        }),
        base64::encoded(seq![a, b]).len() == 4,
        base64::encoded(seq![a, b])[3] == '=',
        base64::encoded(seq![a]).len() == 4,
        base64::encoded(seq![a])[2] == '=',
        base64::encoded(seq![a])[3] == '=',
{
    let bytes = seq![a, b, c] + rest;
    assert(bytes.skip(3) =~= rest);
    let all = base64::letters_of(bytes);
    lemma_sextets(a, b, c);
    assert(all.skip(4) =~= base64::letters_of(rest));
}

proof fn lemma_sextets(a: u8, b: u8, c: u8)
    ensures
        ({
            let n = a * 65536 + b * 256 + c;
            &&& n / 262144 == a as int / 4
            &&& n / 4096 % 64 == a as int % 4 * 16 + b as int / 16
            &&& n / 64 % 64 == b as int % 16 * 4 + c as int / 64
            &&& n % 64 == c as int % 64
        }),
{
    let n: u32 = (a * 65536 + b * 256 + c) as u32;
    assert(n / 262144 == a as u32 / 4 && n / 4096 % 64 == a as u32 % 4 * 16 + b as u32 / 16 && n / 64
        % 64 == b as u32 % 16 * 4 + c as u32 / 64 && n % 64 == c as u32 % 64) by (bit_vector)
        requires
            n == a * 65536 + b * 256 + c,
    ;
}

/// The time that the validity of a signature is held against is the one of the clock, as
/// far as 32 bits hold it.
pub proof fn law_time_of_a_signature(now: u64)
    ensures
        now <= 4294967295 ==> types::sig_time(now) == now,
        now > 4294967295 ==> types::sig_time(now) == 4294967295,
{
}

} // verus!
