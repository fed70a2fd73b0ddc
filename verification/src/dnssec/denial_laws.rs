//! What holds of proofs that a name or a type does not exist.

use crate::dnssec::canonical::{self, RecordModel};
use crate::dnssec::denial::{self, ProofModel};
use crate::dnssec::digests;
use crate::dnssec::rrsets_laws;
use crate::dnssec::types::{self, Nsec3Model, NsecModel};
use crate::dnssec::validator;
use crate::text;
use vstd::prelude::*;
use vstd::utf8::*;

verus! {

// ---------------------------------------------------------------------------
// The order of names
// ---------------------------------------------------------------------------

/// Names are ordered from the last label on. A domain comes before all that lies under
/// it, and what lies under one domain stays together: two names that first differ
/// in a label come in the order of that label, whatever stands before it.
pub proof fn law_order_of_names(
    domain: Seq<Seq<u8>>,
    x: Seq<u8>,
    y: Seq<u8>,
    before_x: Seq<Seq<u8>>,
    before_y: Seq<Seq<u8>>,
)
    ensures
        denial::comes_before(domain, before_x.push(x) + domain),
        !denial::comes_before(before_x.push(x) + domain, domain),
        x != y ==> denial::comes_before(before_x.push(x) + domain, before_y.push(y) + domain)
            == canonical::bytes_le(x, y),
    decreases domain.len(),
{
    let a = before_x.push(x) + domain;
    let b = before_y.push(y) + domain;
    if domain.len() > 0 {
        law_order_of_names(domain.drop_last(), x, y, before_x, before_y);
        assert(a.drop_last() =~= before_x.push(x) + domain.drop_last());
        assert(b.drop_last() =~= before_y.push(y) + domain.drop_last());
        assert(a.last() == domain.last() && b.last() == domain.last());
    } else {
        assert(a =~= before_x.push(x));
        assert(b =~= before_y.push(y));
    }
}

/// A name between two others is neither of them, and is not between the second and
/// what follows it.
pub proof fn law_between_names(
    owner: Seq<Seq<u8>>,
    next: Seq<Seq<u8>>,
    third: Seq<Seq<u8>>,
    name: Seq<Seq<u8>>,
)
    ensures
        denial::comes_before(owner, next) ==> (denial::is_between(owner, next, name)
            <==> denial::comes_before(owner, name) && denial::comes_before(name, next)),
        denial::is_between(owner, next, name) ==> name != owner,
        denial::comes_before(owner, next) && denial::is_between(owner, next, name) ==> name != next
            && !denial::is_between(next, third, name),
        !denial::comes_before(owner, next) ==> (denial::is_between(owner, next, name)
            <==> denial::comes_before(owner, name) && exists|front: Seq<Seq<u8>>|
            #[trigger] (front + next) == name),
{
    denial::law_names_are_in_order(owner, name);
    denial::law_names_are_in_order(next, name);
    if denial::ends_in(name, next) {
        let front = name.take(name.len() - next.len());
        assert(front + next =~= name);
    }
    if exists|front: Seq<Seq<u8>>| #[trigger] (front + next) == name {
        let front = choose|front: Seq<Seq<u8>>| #[trigger] (front + next) == name;
        assert(name.skip(name.len() - next.len()) =~= next);
    }
}

/// Two hashes part the circle of all hashes in two arcs: another hash lies on exactly
/// one of them, and neither end lies on an arc.
pub proof fn law_arcs_of_hashes(from: Seq<u8>, to: Seq<u8>, hash: Seq<u8>)
    ensures
        !denial::is_hash_between(from, to, from),
        !denial::is_hash_between(from, to, to),
        from != to && hash != from && hash != to ==> denial::is_hash_between(from, to, hash)
            != denial::is_hash_between(to, from, hash),
        from == to ==> (denial::is_hash_between(from, to, hash) <==> hash != from),
        canonical::bytes_le(from, to) && from != to ==> (denial::is_hash_between(from, to, hash)
            <==> canonical::bytes_le(from, hash) && hash != from && canonical::bytes_le(hash, to)
            && hash != to),
{
    canonical::lemma_bytes_total(from, to);
    canonical::lemma_bytes_total(from, hash);
    canonical::lemma_bytes_total(to, hash);
    canonical::lemma_bytes_total(from, from);
    canonical::lemma_bytes_total(to, to);
    if canonical::bytes_le(from, hash) && canonical::bytes_le(hash, to) {
        canonical::lemma_bytes_transitive(from, hash, to);
    }
    if canonical::bytes_le(to, hash) && canonical::bytes_le(hash, from) {
        canonical::lemma_bytes_transitive(to, hash, from);
    }
}

// ---------------------------------------------------------------------------
// Bitmaps of types
// ---------------------------------------------------------------------------

/// A window of a bitmap speaks of 256 types and says for each of them, from the first
/// bit of the first byte on, whether it exists. What a window does not reach is told by
/// those behind it, and nothing is told by none.
pub proof fn law_bitmap_tells(window: u8, bits: Seq<u8>, rest: Seq<u8>, rrtype: u16)
    requires
        bits.len() <= 255,
    ensures
        !types::bitmap_tells(Seq::empty(), rrtype, 0),
        ({
            let k = (rrtype % 256) as int;
            let told = types::bitmap_tells(
                seq![window, bits.len() as u8] + bits + rest,
                rrtype,
                0,
            );
            if window == rrtype / 256 && k / 8 < bits.len() {
                told <==> bits[k / 8] as nat / vstd::arithmetic::power2::pow2(
                    (7 - k % 8) as nat,
                ) % 2 == 1
            } else {
                told == types::bitmap_tells(rest, rrtype, 0)
            }
        }),
{
    let front = seq![window, bits.len() as u8] + bits;
    let all = front + rest;
    lemma_bitmap_from(front, rest, rrtype, 0);
    let k = (rrtype % 256) as int;
    if window == rrtype / 256 && k / 8 < bits.len() {
        assert(all[2 + k / 8] == bits[k / 8]);
        lemma_bit(bits[k / 8], (rrtype % 8) as u8);
        assert(k % 8 == rrtype % 8);
    }
}

proof fn lemma_bit(b: u8, i: u8)
    requires
        i < 8,
    ensures
        (b & (0x80u8 >> i) != 0) <==> b as nat / vstd::arithmetic::power2::pow2((7 - i) as nat) % 2
            == 1,
{
    vstd::arithmetic::power2::lemma2_to64();
    assert((b & (0x80u8 >> 0u8) != 0) == (b / 128 % 2 == 1) && (b & (0x80u8 >> 1u8) != 0) == (b / 64
        % 2 == 1) && (b & (0x80u8 >> 2u8) != 0) == (b / 32 % 2 == 1) && (b & (0x80u8 >> 3u8) != 0)
        == (b / 16 % 2 == 1) && (b & (0x80u8 >> 4u8) != 0) == (b / 8 % 2 == 1) && (b & (0x80u8
        >> 5u8) != 0) == (b / 4 % 2 == 1) && (b & (0x80u8 >> 6u8) != 0) == (b / 2 % 2 == 1) && (b & (
    0x80u8 >> 7u8) != 0) == (b % 2 == 1)) by (bit_vector);
    if i == 7 {
        assert(b as nat / 1 == b);
    } else if i == 0 {
    } else if i == 1 {
    } else if i == 2 {
    } else if i == 3 {
    } else if i == 4 {
    } else if i == 5 {
    }
}

proof fn lemma_bitmap_from(front: Seq<u8>, rest: Seq<u8>, rrtype: u16, pos: int)
    requires
        0 <= pos,
    ensures
        types::bitmap_tells(front + rest, rrtype, front.len() + pos) == types::bitmap_tells(
            rest,
            rrtype,
            pos,
        ),
    decreases rest.len() - pos,
{
    let all = front + rest;
    if pos + 1 < rest.len() {
        let len = rest[pos + 1] as nat;
        assert(all[front.len() + pos] == rest[pos] && all[front.len() + pos + 1] == rest[pos + 1]);
        if pos + 2 + len <= rest.len() {
            let offset = (rrtype % 256) / 8;
            if offset < len {
                assert(all[front.len() + pos + 2 + offset] == rest[pos + 2 + offset]);
            }
            lemma_bitmap_from(front, rest, rrtype, pos + 2 + len);
        }
    }
}

/// A type is left out where its bitmap tells neither it nor an alias, and the bitmap is
/// that of the zone which has to know: for a DS record the one above, which has no SOA
/// record, and for others one that is no mere delegation.
pub proof fn law_type_is_left_out(bitmap: Seq<u8>, qtype: u16)
    ensures
        denial::leaves_out(bitmap, qtype) ==> !types::bitmap_tells(bitmap, qtype, 0)
            && !types::bitmap_tells(bitmap, 5, 0),
        qtype == 43 && types::bitmap_tells(bitmap, 6, 0) ==> !denial::leaves_out(bitmap, qtype),
        qtype != 43 && types::bitmap_tells(bitmap, 2, 0) && !types::bitmap_tells(bitmap, 6, 0)
            ==> !denial::leaves_out(bitmap, qtype),
        !types::bitmap_tells(bitmap, qtype, 0) && !types::bitmap_tells(bitmap, 5, 0)
            && !types::bitmap_tells(bitmap, 6, 0) && (qtype == 43 || !types::bitmap_tells(
            bitmap,
            2,
            0,
        )) ==> denial::leaves_out(bitmap, qtype),
        qtype != 43 && !types::bitmap_tells(bitmap, qtype, 0) && !types::bitmap_tells(bitmap, 5, 0)
            && types::bitmap_tells(bitmap, 6, 0) ==> denial::leaves_out(bitmap, qtype),
{
}

// ---------------------------------------------------------------------------
// What a proof covers
// ---------------------------------------------------------------------------

/// A proof in clear covers the names between its owner and the next, but nothing under
/// an owner that is a delegation or is renamed as a whole. A hashed one covers the names
/// under its zone whose hash lies between its two; where it passes over delegations,
/// it covers them only loosely.
pub proof fn law_proof_covers(p: ProofModel, name: Seq<Seq<u8>>)
    ensures
        denial::covers(p, name, false) ==> denial::covers(p, name, true),
        match p {
            ProofModel::Plain { owner, next, types: bitmap } => {
                let cut = types::bitmap_tells(bitmap, 39, 0) || (types::bitmap_tells(bitmap, 2, 0)
                    && !types::bitmap_tells(bitmap, 6, 0));
                &&& denial::covers(p, name, true) == denial::covers(p, name, false)
                &&& denial::covers(p, name, false) <==> denial::is_between(owner, next, name) && (
                cut ==> forall|front: Seq<Seq<u8>>| #[trigger] (front + owner) != name)
            },
            ProofModel::Hashed { zone, from, to, salt, iterations, opt_out, .. } => {
                &&& denial::covers(p, name, true) <==> denial::is_hash_between(
                    from,
                    to,
                    digests::nsec3_hash(canonical::wire_of_labels(name), salt, iterations as nat),
                ) && exists|front: Seq<Seq<u8>>|
                    #[trigger] (front + zone) == name && front.len() > 0
                &&& denial::covers(p, name, false) <==> denial::covers(p, name, true) && !opt_out
            },
        },
{
    match p {
        ProofModel::Plain { owner, .. } => {
            lemma_ends_in(name, owner);
        },
        ProofModel::Hashed { zone, .. } => {
            lemma_ends_in(name, zone);
            if denial::ends_in(name, zone) {
                let front = name.take(name.len() - zone.len());
                assert(front + zone =~= name);
            }
        },
    }
}

proof fn lemma_ends_in(name: Seq<Seq<u8>>, domain: Seq<Seq<u8>>)
    ensures
        denial::ends_in(name, domain) <==> exists|front: Seq<Seq<u8>>|
            #[trigger] (front + domain) == name,
{
    if denial::ends_in(name, domain) {
        let front = name.take(name.len() - domain.len());
        assert(front + domain =~= name);
    }
    if exists|front: Seq<Seq<u8>>| #[trigger] (front + domain) == name {
        let front = choose|front: Seq<Seq<u8>>| #[trigger] (front + domain) == name;
        assert(name.skip(name.len() - domain.len()) =~= domain);
    }
}

/// The hash of a name is taken once over the name and the salt, and once more over
/// what came out and the salt for every iteration.
pub proof fn law_hash_of_a_name(name: Seq<Seq<u8>>, salt: Seq<u8>, iterations: u16)
    ensures
        denial::hash_of(name, salt, 0) == digests::sha1(canonical::wire_of_labels(name) + salt),
        iterations < u16::MAX ==> denial::hash_of(name, salt, (iterations + 1) as u16)
            == digests::sha1(denial::hash_of(name, salt, iterations) + salt),
{
}

/// The letters of a hashed owner are those of base 32 with the extended alphabet: each
/// is read as the letter of the usual one with the same value.
pub proof fn law_letters_of_a_hash(value: int)
    requires
        0 <= value < 32,
    ensures
        ({
            let extended = if value < 10 {
                ('0' as int + value) as char
            } else {
                ('a' as int + value - 10) as char
            };
            let usual = if value < 26 {
                ('A' as int + value) as char
            } else {
                ('2' as int + value - 26) as char
            };
            denial::usual_letter(extended) == usual
        }),
{
}

// ---------------------------------------------------------------------------
// Denial
// ---------------------------------------------------------------------------

/// Whether the proof at a place is one that covers a name.
pub open spec fn covers_at(
    proofs: Seq<ProofModel>,
    i: int,
    name: Seq<Seq<u8>>,
    loosely: bool,
) -> bool {
    0 <= i < proofs.len() && denial::covers(proofs[i], name, loosely)
}

/// Whether the proof at a place shows that a name exists: in clear, its owner or the
/// next name is that or lies under it; hashed, it is the proof of the name, and no
/// delegation.
pub open spec fn shows_at(proofs: Seq<ProofModel>, i: int, name: Seq<Seq<u8>>) -> bool {
    0 <= i < proofs.len() && match proofs[i] {
        ProofModel::Plain { owner, next, .. } => exists|front: Seq<Seq<u8>>|
            {
                let whole = #[trigger] (front + name);
                whole == owner || whole == next
            },
        ProofModel::Hashed { zone, from, salt, iterations, types: bitmap, .. } => {
            &&& exists|front: Seq<Seq<u8>>| #[trigger] (front + zone) == name
            &&& from == digests::nsec3_hash(
                canonical::wire_of_labels(name),
                salt,
                iterations as nat,
            )
            &&& !types::bitmap_tells(bitmap, 39, 0)
            &&& types::bitmap_tells(bitmap, 2, 0) ==> types::bitmap_tells(bitmap, 6, 0)
        },
    }
}

/// A name is shown to be absent exactly where some proof shows a name above it, some
/// proof covers the next name below that on the way to it, and some proof covers
/// the wildcard that could stand for it.
pub proof fn law_absent_name(proofs: Seq<ProofModel>, name: Seq<char>, qtype: u16, loosely: bool)
    ensures
        denial::disproves(proofs, name, qtype, true, loosely) <==> exists|
            front: Seq<Seq<u8>>,
            label: Seq<u8>,
            above: Seq<Seq<u8>>,
            i: int,
            j: int,
            k: int,
        |
            #![trigger shows_at(proofs, i, above), covers_at(proofs, j, seq![label] + above, loosely), covers_at(proofs, k, seq![seq![42u8]] + above, loosely), front.push(label)]
            denial::labels_of(name) == front.push(label) + above && shows_at(proofs, i, above)
                && covers_at(proofs, j, seq![label] + above, loosely) && covers_at(
                proofs,
                k,
                seq![seq![42u8]] + above,
                loosely,
            ),
{
    let row = denial::labels_of(name);
    if denial::is_absent(proofs, row, loosely) {
        let n = choose|n: int|
            0 <= n < row.len() && #[trigger] denial::is_absent_at(proofs, row, n, loosely);
        let above = row.skip(n + 1);
        let label = row[n];
        let front = row.take(n);
        assert(front.push(label) + above =~= row);
        assert(row.skip(n) =~= seq![label] + above);
        let i = choose|i: int| 0 <= i < proofs.len() && denial::shows_name(#[trigger] proofs[i], above);
        let j = choose|j: int|
            0 <= j < proofs.len() && denial::covers(#[trigger] proofs[j], row.skip(n), loosely);
        let k = choose|k: int|
            0 <= k < proofs.len() && denial::covers(
                #[trigger] proofs[k],
                denial::wildcard_at(row, n),
                loosely,
            );
        lemma_shows(proofs, i, above);
        assert(shows_at(proofs, i, above));
        assert(covers_at(proofs, j, seq![label] + above, loosely));
        assert(denial::wildcard_at(row, n) =~= seq![seq![42u8]] + above);
        assert(covers_at(proofs, k, seq![seq![42u8]] + above, loosely));
    }
    assert forall|
        front: Seq<Seq<u8>>,
        label: Seq<u8>,
        above: Seq<Seq<u8>>,
        i: int,
        j: int,
        k: int,
    |
        #![trigger shows_at(proofs, i, above), covers_at(proofs, j, seq![label] + above, loosely), covers_at(proofs, k, seq![seq![42u8]] + above, loosely), front.push(label)]
        row == front.push(label) + above && shows_at(proofs, i, above) && covers_at(
            proofs,
            j,
            seq![label] + above,
            loosely,
        ) && covers_at(proofs, k, seq![seq![42u8]] + above, loosely) implies denial::is_absent(
        proofs,
        row,
        loosely,
    ) by {
        let n = front.len() as int;
        assert(row.skip(n + 1) =~= above);
        assert(row.skip(n) =~= seq![label] + above);
        assert(denial::wildcard_at(row, n) =~= seq![seq![42u8]] + above);
        lemma_shows(proofs, i, above);
        assert(denial::shows_name(proofs[i], above));
        assert(denial::covers(proofs[j], row.skip(n), loosely));
        assert(denial::covers(proofs[k], denial::wildcard_at(row, n), loosely));
        assert(denial::is_absent_at(proofs, row, n, loosely));
    }
}

proof fn lemma_shows(proofs: Seq<ProofModel>, i: int, name: Seq<Seq<u8>>)
    requires
        0 <= i < proofs.len(),
    ensures
        shows_at(proofs, i, name) == denial::shows_name(proofs[i], name),
{
    match proofs[i] {
        ProofModel::Plain { owner, next, .. } => {
            lemma_ends_in(owner, name);
            lemma_ends_in(next, name);
        },
        ProofModel::Hashed { zone, .. } => {
            lemma_ends_in(name, zone);
        },
    }
}

/// Whether the proof at a place is that of a name, and its bitmap leaves out a type.
pub open spec fn lacks_at(
    proofs: Seq<ProofModel>,
    i: int,
    name: Seq<Seq<u8>>,
    qtype: u16,
) -> bool {
    0 <= i < proofs.len() && match proofs[i] {
        ProofModel::Plain { owner, types: bitmap, .. } => owner == name && denial::leaves_out(
            bitmap,
            qtype,
        ),
        ProofModel::Hashed { zone, from, salt, iterations, types: bitmap, .. } => {
            &&& exists|front: Seq<Seq<u8>>| #[trigger] (front + zone) == name
            &&& from == digests::nsec3_hash(
                canonical::wire_of_labels(name),
                salt,
                iterations as nat,
            )
            &&& denial::leaves_out(bitmap, qtype)
        },
    }
}

/// A proof of a name whose bitmap leaves out a type shows that it has none of the type.
pub proof fn law_type_is_denied(
    proofs: Seq<ProofModel>,
    i: int,
    name: Seq<char>,
    qtype: u16,
    loosely: bool,
)
    requires
        lacks_at(proofs, i, denial::labels_of(name), qtype),
    ensures
        denial::disproves(proofs, name, qtype, false, loosely),
{
    lemma_lacks(proofs, i, denial::labels_of(name), qtype);
    assert(denial::shows_no_type(proofs[i], denial::labels_of(name), qtype));
}

proof fn lemma_lacks(proofs: Seq<ProofModel>, i: int, name: Seq<Seq<u8>>, qtype: u16)
    requires
        0 <= i < proofs.len(),
    ensures
        lacks_at(proofs, i, name, qtype) == denial::shows_no_type(proofs[i], name, qtype),
{
    if let ProofModel::Hashed { zone, .. } = proofs[i] {
        lemma_ends_in(name, zone);
    }
}

/// That a name has no record of a type is shown strictly in three ways only: by the
/// proof of the name itself; by a proof in clear that covers it and whose next name lies
/// under it; or by the proof of a wildcard that stands for it, where the name itself
/// is covered.
pub proof fn law_type_is_denied_only_so(proofs: Seq<ProofModel>, name: Seq<char>, qtype: u16)
    requires
        denial::disproves(proofs, name, qtype, false, false),
    ensures
        ({
            let row = denial::labels_of(name);
            ||| exists|i: int| #[trigger] lacks_at(proofs, i, row, qtype)
            ||| exists|i: int, front: Seq<Seq<u8>>|
                #![trigger covers_at(proofs, i, row, false), front + row]
                covers_at(proofs, i, row, false) && (proofs[i] matches ProofModel::Plain {
                    next,
                    ..
                } && next == front + row)
            ||| exists|n: int, i: int, j: int|
                #![trigger lacks_at(proofs, i, seq![seq![42u8]] + row.skip(n), qtype), covers_at(proofs, j, row.skip(n), false)]
                #![trigger lacks_at(proofs, i, seq![seq![42u8]] + row.skip(n), qtype), shows_at(proofs, j, row.skip(n))]
                0 < n <= row.len() && lacks_at(
                    proofs,
                    i,
                    seq![seq![42u8]] + row.skip(n),
                    qtype,
                ) && shows_at(proofs, j, row.skip(n)) && denial::some_covers(
                    proofs,
                    row.skip(n - 1),
                    false,
                )
        }),
{
    let row = denial::labels_of(name);
    if denial::some_shows_no_type(proofs, row, qtype) {
        let i = choose|i: int|
            0 <= i < proofs.len() && denial::shows_no_type(#[trigger] proofs[i], row, qtype);
        lemma_lacks(proofs, i, row, qtype);
    } else if denial::some_shows_empty(proofs, row) {
        let i = choose|i: int| 0 <= i < proofs.len() && denial::shows_empty(#[trigger] proofs[i], row);
        assert(covers_at(proofs, i, row, false));
        if let ProofModel::Plain { next, .. } = proofs[i] {
            let front = next.take(next.len() - row.len());
            assert(front + row =~= next);
        }
    } else {
        let k = choose|k: int|
            0 <= k < row.len() && #[trigger] denial::is_left_out_at(proofs, row, k, qtype, false);
        let n = k + 1;
        let star = denial::wildcard_at(row, k);
        assert(star =~= seq![seq![42u8]] + row.skip(n));
        let i = choose|i: int|
            0 <= i < proofs.len() && denial::shows_no_type(#[trigger] proofs[i], star, qtype);
        let j = choose|j: int|
            0 <= j < proofs.len() && denial::shows_name(#[trigger] proofs[j], row.skip(n));
        lemma_lacks(proofs, i, star, qtype);
        lemma_shows(proofs, j, row.skip(n));
        assert(lacks_at(proofs, i, seq![seq![42u8]] + row.skip(n), qtype));
        assert(shows_at(proofs, j, row.skip(n)));
        assert(row.skip(n - 1) =~= row.skip(k));
    }
}

// ---------------------------------------------------------------------------
// Proofs in a section
// ---------------------------------------------------------------------------

/// Whether a record holds a proof: one of type NSEC in clear, and one of type NSEC3
/// with the known hash algorithm under the hash that its first label spells.
pub open spec fn holds_proof(record: RecordModel, p: ProofModel) -> bool {
    match p {
        ProofModel::Plain { owner, next, types: bitmap } => {
            &&& record.rtype == 47
            &&& owner == denial::labels_of(record.name)
            &&& NsecModel::parsed(record.rdata) matches Ok(n) && next == denial::labels_of(
                n.next_domain,
            ) && bitmap == n.type_bitmap
        },
        ProofModel::Hashed { zone, from, to, salt, iterations, opt_out, types: bitmap } => {
            &&& record.rtype == 50
            &&& exists|label: Seq<u8>| #[trigger] (seq![label] + zone) == denial::labels_of(
                record.name,
            )
            &&& denial::owner_hash(record.name) == Some(from)
            &&& Nsec3Model::parsed(record.rdata) matches Ok(n) && n.hash_algorithm == 1 && to
                == n.next_hashed_owner && salt == n.salt && iterations == n.iterations && bitmap
                == n.type_bitmap && opt_out == (n.flags & 1 != 0)
        },
    }
}

/// The proofs of a section are those that its records hold.
pub proof fn law_proofs_of_a_section(records: Seq<RecordModel>, p: ProofModel)
    ensures
        denial::proofs_in(records, records.len()).contains(p) <==> exists|i: int|
            0 <= i < records.len() && holds_proof(#[trigger] records[i], p),
{
    lemma_proofs(records, records.len(), p);
}

proof fn lemma_proof_in(record: RecordModel, p: ProofModel)
    ensures
        denial::proof_in(record) == Some(p) <==> holds_proof(record, p),
{
    let row = denial::labels_of(record.name);
    if record.rtype == 50 {
        if let Ok(n) = Nsec3Model::parsed(record.rdata) {
            let f = n.flags;
            assert((f & 1 != 0) == (f % 2 == 1)) by (bit_vector);
            if row.len() > 0 {
                assert(seq![row[0]] + row.skip(1) =~= row);
            }
            if let ProofModel::Hashed { zone, .. } = p {
                if exists|label: Seq<u8>| #[trigger] (seq![label] + zone) == row {
                    let label = choose|label: Seq<u8>| #[trigger] (seq![label] + zone) == row;
                    assert(row.skip(1) =~= zone);
                }
            }
        }
    }
}

proof fn lemma_proofs(records: Seq<RecordModel>, n: nat, p: ProofModel)
    requires
        n <= records.len(),
    ensures
        denial::proofs_in(records, n).contains(p) <==> exists|i: int|
            0 <= i < n && holds_proof(#[trigger] records[i], p),
    decreases n,
{
    if n > 0 {
        let before = denial::proofs_in(records, (n - 1) as nat);
        lemma_proofs(records, (n - 1) as nat, p);
        lemma_proof_in(records[n - 1], p);
        if let Some(q) = denial::proof_in(records[n - 1]) {
            rrsets_laws::lemma_push_contains(before, q, p);
        }
        if holds_proof(records[n - 1], p) {
            assert(denial::proofs_in(records, n).contains(p));
        }
    } else {
        assert(denial::proofs_in(records, 0) =~= Seq::<ProofModel>::empty());
    }
}

/// The labels of a name that is made of them are its parts in lower case, in their
/// order.
pub proof fn law_labels_of_a_name(parts: Seq<Seq<char>>)
    requires
        parts.len() >= 1,
        forall|i: int| 0 <= i < parts.len() ==> !(#[trigger] parts[i]).contains('.'),
        forall|i: int| 0 <= i < parts.len() ==> (#[trigger] parts[i]).len() > 0,
    ensures
        denial::labels_of(text::join(parts, '.')).len() == parts.len(),
        forall|i: int|
            0 <= i < parts.len() ==> #[trigger] denial::labels_of(text::join(parts, '.'))[i]
                == encode_utf8(text::lower(parts[i])),
{
    let low = parts.map_values(|part: Seq<char>| text::lower(part));
    assert forall|i: int| 0 <= i < low.len() implies !(#[trigger] low[i]).contains('.') by {
        if low[i].contains('.') {
            let k = choose|k: int| 0 <= k < low[i].len() && low[i][k] == '.';
            rrsets_laws::lemma_lower_dot(parts[i][k]);
            assert(parts[i][k] == '.');
        }
    }
    assert forall|i: int| 0 <= i < low.len() implies (#[trigger] low[i]).len() > 0 by {
        assert(parts[i].len() > 0);
    }
    lemma_lower_join(parts);
    text::law_join_split(low, '.');
    lemma_full_parts(low, low.len());
}

pub proof fn lemma_lower_join(parts: Seq<Seq<char>>)
    ensures
        text::lower(text::join(parts, '.')) == text::join(
            parts.map_values(|part: Seq<char>| text::lower(part)),
            '.',
        ),
    decreases parts.len(),
{
    let low = parts.map_values(|part: Seq<char>| text::lower(part));
    if parts.len() == 1 {
        assert(text::lower(text::join(parts, '.')) =~= text::join(low, '.'));
    } else if parts.len() > 1 {
        lemma_lower_join(parts.drop_last());
        assert(low.drop_last() =~= parts.drop_last().map_values(
            |part: Seq<char>| text::lower(part),
        ));
        assert(text::lower(text::join(parts, '.')) =~= text::join(low, '.'));
    } else {
        assert(text::lower(text::join(parts, '.')) =~= text::join(low, '.'));
    }
}

proof fn lemma_full_parts(parts: Seq<Seq<char>>, n: nat)
    requires
        n <= parts.len(),
        forall|i: int| 0 <= i < parts.len() ==> (#[trigger] parts[i]).len() > 0,
    ensures
        denial::full_parts(parts, n).len() == n,
        forall|i: int|
            0 <= i < n ==> #[trigger] denial::full_parts(parts, n)[i] == encode_utf8(parts[i]),
    decreases n,
{
    if n > 0 {
        lemma_full_parts(parts, (n - 1) as nat);
    }
}

/// What is denied loosely but not strictly is passed over: some hashed proof that leaves
/// out delegations covers the name or one above it.
pub proof fn law_name_is_passed_over(
    proofs: Seq<ProofModel>,
    name: Seq<char>,
    qtype: u16,
    nxdomain: bool,
)
    requires
        denial::disproves(proofs, name, qtype, nxdomain, true),
        !denial::disproves(proofs, name, qtype, nxdomain, false),
    ensures
        exists|i: int| #[trigger] opts_out_at(proofs, i),
        !nxdomain ==> qtype == 43 || exists|i: int, k: int|
            #[trigger] lacks_at(
                proofs,
                i,
                seq![seq![42u8]] + #[trigger] denial::labels_of(name).skip(k),
                qtype,
            ),
{
    let row = denial::labels_of(name);
    if nxdomain {
        let k = choose|k: int|
            0 <= k < row.len() && #[trigger] denial::is_absent_at(proofs, row, k, true);
        assert(!denial::is_absent_at(proofs, row, k, false));
        lemma_loose_cover(proofs, row.skip(k));
        lemma_loose_cover(proofs, denial::wildcard_at(row, k));
    } else {
        let k = choose|k: int|
            0 <= k < row.len() && #[trigger] denial::is_left_out_at(proofs, row, k, qtype, true);
        assert(!denial::is_left_out_at(proofs, row, k, qtype, false));
        let star = denial::wildcard_at(row, k);
        if denial::some_shows_no_type(proofs, star, qtype) {
            lemma_loose_cover(proofs, row.skip(k));
            let i = choose|i: int|
                0 <= i < proofs.len() && denial::shows_no_type(#[trigger] proofs[i], star, qtype);
            lemma_lacks(proofs, i, star, qtype);
            assert(star =~= seq![seq![42u8]] + row.skip(k + 1));
            assert(lacks_at(proofs, i, seq![seq![42u8]] + row.skip(k + 1), qtype));
        } else {
            let i = choose|i: int|
                0 <= i < proofs.len() && denial::covers(#[trigger] proofs[i], row.skip(k), true)
                    && !denial::covers(proofs[i], row.skip(k), false);
            law_proof_covers(proofs[i], row.skip(k));
            assert(opts_out_at(proofs, i));
        }
    }
}

/// Whether the proof at a place is hashed and leaves out delegations.
pub open spec fn opts_out_at(proofs: Seq<ProofModel>, i: int) -> bool {
    0 <= i < proofs.len() && (proofs[i] matches ProofModel::Hashed { opt_out, .. } && opt_out)
}

proof fn lemma_loose_cover(proofs: Seq<ProofModel>, name: Seq<Seq<u8>>)
    requires
        denial::some_covers(proofs, name, true),
    ensures
        denial::some_covers(proofs, name, false) || exists|i: int| #[trigger]
            opts_out_at(proofs, i),
{
    let i = choose|i: int| 0 <= i < proofs.len() && denial::covers(#[trigger] proofs[i], name, true);
    law_proof_covers(proofs[i], name);
    if !denial::covers(proofs[i], name, false) {
        assert(opts_out_at(proofs, i));
    }
}

/// The hash in the name of a hashed proof is its first label, in either case, with each
/// letter of the extended alphabet as that of the usual one.
pub proof fn law_hash_in_a_name(parts: Seq<Seq<char>>)
    requires
        parts.len() >= 1,
        forall|i: int| 0 <= i < parts.len() ==> !(#[trigger] parts[i]).contains('.'),
    ensures
        denial::owner_hash(text::join(parts, '.')) == match validator::base32_outcome(
            encode_utf8(
                text::lower(parts[0]).map_values(|c: char| denial::usual_letter(c)),
            ),
        ) {
            Ok(hash) => Some(hash),
            Err(_) => None,
        },
{
    let low = parts.map_values(|part: Seq<char>| text::lower(part));
    assert forall|i: int| 0 <= i < low.len() implies !(#[trigger] low[i]).contains('.') by {
        if low[i].contains('.') {
            let k = choose|k: int| 0 <= k < low[i].len() && low[i][k] == '.';
            rrsets_laws::lemma_lower_dot(parts[i][k]);
            assert(parts[i][k] == '.');
        }
    }
    lemma_lower_join(parts);
    text::law_join_split(low, '.');
    assert(low[0] == text::lower(parts[0]));
    assert(denial::usual_letters(low[0]) =~= low[0].map_values(
        |c: char| denial::usual_letter(c),
    ));
}

} // verus!
