//! The records by which a zone proves that a name, or a type of a name, does not
//! exist.

use crate::dnssec::canonical::{self, bytes_before, push_label, RecordModel, ResourceRecord};
use crate::dnssec::digests::{self, hash_name};
use crate::dnssec::types::{self, bitmap_has, Nsec3Model, Nsec3Record, NsecModel, NsecRecord};
use crate::dnssec::validator::{self, base32_decode};
use crate::protocol::{T_CNAME, T_DS, T_NS, T_NSEC, T_NSEC3, T_SOA};
use crate::text::{self, split_text, to_ascii_lower, to_chars};
use crate::wire::copy_range;
use vstd::array::array_as_slice;
use vstd::prelude::*;
use vstd::utf8::*;

verus! {

/// The type of a record that sends what is under a name elsewhere.
pub const T_DNAME: u16 = 39;

// ---------------------------------------------------------------------------
// Names as rows of labels
// ---------------------------------------------------------------------------

/// The bytes of those of the first `n` parts that are not empty.
pub open spec fn full_parts(parts: Seq<Seq<char>>, n: nat) -> Seq<Seq<u8>>
    decreases n,
{
    if n == 0 {
        Seq::empty()
    } else if parts[n - 1].len() == 0 {
        full_parts(parts, (n - 1) as nat)
    } else {
        full_parts(parts, (n - 1) as nat).push(encode_utf8(parts[n - 1]))
    }
}

/// The labels of a name, in lower case. The root has none.
pub open spec fn labels_of(name: Seq<char>) -> Seq<Seq<u8>> {
    let parts = text::split(text::lower(name), '.');
    full_parts(parts, parts.len())
}

/// The bytes of a row of vectors.
pub open spec fn rows(v: Seq<Vec<u8>>) -> Seq<Seq<u8>> {
    v.map_values(|row: Vec<u8>| row@)
}

/// The labels of a name, in lower case.
pub fn name_labels(name: &str) -> (r: Vec<Vec<u8>>)
    ensures
        rows(r@) == labels_of(name@),
{
    let parts = split_text(to_ascii_lower(name).as_str(), '.');
    let ghost all = text::texts(parts@);
    let mut labels: Vec<Vec<u8>> = Vec::new();
    let mut i: usize = 0;
    assert(rows(labels@) =~= Seq::empty());
    while i < parts.len()
        invariant
            i <= parts@.len(),
            all == text::texts(parts@),
            rows(labels@) == full_parts(all, i as nat),
        decreases parts@.len() - i,
    {
        assert(all[i as int] == parts@[i as int]@);
        let part = parts[i].as_str();
        if !part.is_empty() {
            let ghost before = rows(labels@);
            let bytes = part.as_bytes();
            let label = copy_range(bytes, 0, bytes.len());
            assert(label@ =~= encode_utf8(part@));
            labels.push(label);
            assert(rows(labels@) =~= before.push(encode_utf8(part@)));
        }
        i = i + 1;
    }
    labels
}

/// Whether a name comes before another in canonical order: their labels are
/// compared from the last on, and a name comes before what lies under it.
pub open spec fn comes_before(a: Seq<Seq<u8>>, b: Seq<Seq<u8>>) -> bool
    decreases a.len(),
{
    if b.len() == 0 {
        false
    } else if a.len() == 0 {
        true
    } else if a.last() == b.last() {
        comes_before(a.drop_last(), b.drop_last())
    } else {
        canonical::bytes_le(a.last(), b.last())
    }
}

/// Whether two rows of bytes are the same.
fn same_row(a: &Vec<u8>, b: &Vec<u8>) -> (r: bool)
    ensures
        r == (a@ == b@),
{
    proof {
        canonical::lemma_bytes_total(a@, b@);
    }
    bytes_before(a, b) && bytes_before(b, a)
}

/// Whether a name comes before another.
fn is_before(a: &Vec<Vec<u8>>, b: &Vec<Vec<u8>>) -> (r: bool)
    ensures
        r == comes_before(rows(a@), rows(b@)),
{
    let ghost x = rows(a@);
    let ghost y = rows(b@);
    let mut i: usize = a.len();
    let mut j: usize = b.len();
    assert(x.take(i as int) =~= x);
    assert(y.take(j as int) =~= y);
    while i > 0 && j > 0
        invariant
            i <= a@.len(),
            j <= b@.len(),
            x == rows(a@),
            y == rows(b@),
            comes_before(x, y) == comes_before(x.take(i as int), y.take(j as int)),
        decreases i,
    {
        assert(x.take(i as int).last() == a@[i - 1]@);
        assert(y.take(j as int).last() == b@[j - 1]@);
        assert(x.take(i as int).drop_last() =~= x.take(i - 1));
        assert(y.take(j as int).drop_last() =~= y.take(j - 1));
        if !same_row(&a[i - 1], &b[j - 1]) {
            return bytes_before(&a[i - 1], &b[j - 1]);
        }
        i = i - 1;
        j = j - 1;
    }
    j > 0
}

/// Of two names exactly one comes before the other, or they are the same.
pub proof fn law_names_are_in_order(a: Seq<Seq<u8>>, b: Seq<Seq<u8>>)
    ensures
        comes_before(a, b) || comes_before(b, a) || a == b,
        !(comes_before(a, b) && comes_before(b, a)),
        !comes_before(a, a),
    decreases a.len(),
{
    if a.len() > 0 {
        law_names_are_in_order(a.drop_last(), a.drop_last());
        if b.len() > 0 {
            canonical::lemma_bytes_total(a.last(), b.last());
            law_names_are_in_order(a.drop_last(), b.drop_last());
            if a.last() == b.last() && a.drop_last() == b.drop_last() {
                assert(a =~= a.drop_last().push(a.last()));
                assert(b =~= b.drop_last().push(b.last()));
            }
        }
    } else if b.len() == 0 {
        assert(a =~= b);
    }
}

/// Whether a name is another or lies under it.
pub open spec fn ends_in(name: Seq<Seq<u8>>, domain: Seq<Seq<u8>>) -> bool {
    domain.len() <= name.len() && name.skip(name.len() - domain.len()) == domain
}

/// Whether a name is another or lies under it.
fn has_end(name: &Vec<Vec<u8>>, domain: &Vec<Vec<u8>>) -> (r: bool)
    ensures
        r == ends_in(rows(name@), rows(domain@)),
{
    if domain.len() > name.len() {
        return false;
    }
    let n: usize = name.len();
    let skipped: usize = n - domain.len();
    let ghost x = rows(name@).skip(skipped as int);
    let ghost y = rows(domain@);
    let mut i: usize = 0;
    while i < domain.len()
        invariant
            i <= domain@.len(),
            n == name@.len(),
            skipped + domain@.len() == n,
            x == rows(name@).skip(skipped as int),
            y == rows(domain@),
            forall|k: int| 0 <= k < i ==> #[trigger] x[k] == y[k],
        decreases domain@.len() - i,
    {
        assert(x[i as int] == name@[skipped + i]@);
        assert(y[i as int] == domain@[i as int]@);
        if !same_row(&name[skipped + i], &domain[i]) {
            return false;
        }
        i = i + 1;
    }
    assert(x =~= y);
    true
}

/// The labels of a name without the first `k`.
pub fn tail(name: &Vec<Vec<u8>>, k: usize) -> (r: Vec<Vec<u8>>)
    requires
        k <= name@.len(),
    ensures
        rows(r@) == rows(name@).skip(k as int),
{
    let mut labels: Vec<Vec<u8>> = Vec::new();
    let mut i: usize = k;
    while i < name.len()
        invariant
            k <= i <= name@.len(),
            labels@.len() == i - k,
            forall|j: int| 0 <= j < i - k ==> (#[trigger] labels@[j])@ == name@[k + j]@,
        decreases name@.len() - i,
    {
        let label = copy_range(name[i].as_slice(), 0, name[i].len());
        assert(label@ =~= name@[i as int]@);
        labels.push(label);
        i = i + 1;
    }
    assert(rows(labels@) =~= rows(name@).skip(k as int));
    labels
}

/// The wildcard beside the label `k` of a name.
pub open spec fn wildcard_at(name: Seq<Seq<u8>>, k: int) -> Seq<Seq<u8>> {
    seq![seq![0x2Au8]] + name.skip(k + 1)
}

/// The wildcard beside the label `k` of a name.
fn wildcard(name: &Vec<Vec<u8>>, k: usize) -> (r: Vec<Vec<u8>>)
    requires
        k < name@.len(),
    ensures
        rows(r@) == wildcard_at(rows(name@), k as int),
{
    let mut labels = tail(name, k);
    assert(rows(labels@).len() == labels@.len());
    let mut star: Vec<u8> = Vec::new();
    star.push(0x2A);
    assert(star@ =~= seq![0x2Au8]);
    let ghost before = rows(labels@);
    labels.set(0, star);
    assert(rows(labels@) =~= before.update(0, seq![0x2Au8]));
    assert(rows(labels@) =~= wildcard_at(rows(name@), k as int));
    labels
}

/// Puts labels into wire form.
fn labels_wire(name: &Vec<Vec<u8>>) -> (r: Vec<u8>)
    ensures
        r@ == canonical::wire_of_labels(rows(name@)),
{
    let ghost all = rows(name@);
    let mut wire: Vec<u8> = Vec::new();
    let mut i: usize = 0;
    assert(all.skip(0) =~= all);
    assert(wire@ + canonical::wire_of_labels(all.skip(0)) =~= canonical::wire_of_labels(all));
    while i < name.len()
        invariant
            i <= name@.len(),
            all == rows(name@),
            wire@ + canonical::wire_of_labels(all.skip(i as int)) == canonical::wire_of_labels(all),
        decreases name@.len() - i,
    {
        let ghost before = wire@;
        assert(all.skip(i as int)[0] == name@[i as int]@);
        assert(all.skip(i as int).drop_first() =~= all.skip(i + 1));
        push_label(&mut wire, &name[i]);
        let ghost label = canonical::counted_label(name@[i as int]@);
        let ghost rest = canonical::wire_of_labels(all.skip(i + 1));
        assert(wire@ + rest =~= before + (label + rest));
        i = i + 1;
    }
    wire.push(0);
    assert(wire@ =~= canonical::wire_of_labels(all));
    wire
}

// ---------------------------------------------------------------------------
// Hashes
// ---------------------------------------------------------------------------

/// The letter of the usual base32 alphabet for one of the extended hex alphabet,
/// in which the hashes of names are written. A zero, which the usual alphabet has
/// not, stands for what neither has.
pub open spec fn usual_letter(c: char) -> char {
    if '0' <= c <= '9' {
        ('A' as int + (c as int - '0' as int)) as char
    } else if 'a' <= c <= 'p' {
        ('K' as int + (c as int - 'a' as int)) as char
    } else if 'q' <= c <= 'v' {
        ('2' as int + (c as int - 'q' as int)) as char
    } else {
        '0'
    }
}

/// A hash in the usual base32 alphabet.
pub open spec fn usual_letters(label: Seq<char>) -> Seq<char> {
    label.map_values(|c: char| usual_letter(c))
}

/// A hash in the usual base32 alphabet.
fn to_usual_letters(label: &str) -> (r: String)
    ensures
        r@ == usual_letters(label@),
{
    let chars = to_chars(label);
    let mut letters: String = String::new();
    let mut i: usize = 0;
    assert(letters@ =~= usual_letters(label@.take(0)));
    while i < chars.len()
        invariant
            i <= chars@.len(),
            chars@ == label@,
            letters@ == usual_letters(label@.take(i as int)),
        decreases chars@.len() - i,
    {
        let c: char = chars[i];
        let letter: char = if '0' <= c && c <= '9' {
            (0x41 + (c as u8 - 0x30)) as char
        } else if 'a' <= c && c <= 'p' {
            (0x4B + (c as u8 - 0x61)) as char
        } else if 'q' <= c && c <= 'v' {
            (0x32 + (c as u8 - 0x71)) as char
        } else {
            '0'
        };
        assert(letter == usual_letter(c));
        let ghost before = letters@;
        letters.push(letter);
        assert(letters@ =~= usual_letters(label@.take(i + 1)));
        i = i + 1;
    }
    assert(label@.take(i as int) =~= label@);
    letters
}

/// The hash that the first label of a name tells, if it tells one.
pub open spec fn owner_hash(name: Seq<char>) -> Option<Seq<u8>> {
    match validator::base32_outcome(
        encode_utf8(usual_letters(text::split(text::lower(name), '.')[0])),
    ) {
        Ok(hash) => Some(hash),
        Err(_) => None,
    }
}

/// Reads the hash that the first label of a name tells.
fn read_owner_hash(name: &str) -> (r: Option<Vec<u8>>)
    ensures
        match r {
            Some(hash) => owner_hash(name@) == Some(hash@),
            None => owner_hash(name@) is None,
        },
{
    let parts = split_text(to_ascii_lower(name).as_str(), '.');
    assert(text::texts(parts@)[0] == parts@[0]@);
    match base32_decode(to_usual_letters(parts[0].as_str()).as_str()) {
        Ok(hash) => Some(hash),
        Err(_) => None,
    }
}

/// The hash of a name.
pub open spec fn hash_of(name: Seq<Seq<u8>>, salt: Seq<u8>, iterations: u16) -> Seq<u8> {
    digests::nsec3_hash(canonical::wire_of_labels(name), salt, iterations as nat)
}

/// The hash of a name.
fn hash_labels(name: &Vec<Vec<u8>>, salt: &Vec<u8>, iterations: u16) -> (r: Vec<u8>)
    ensures
        r@ == hash_of(rows(name@), salt@, iterations),
{
    let wire = labels_wire(name);
    let hash = hash_name(wire.as_slice(), salt.as_slice(), iterations);
    let r = copy_range(array_as_slice(&hash), 0, 20);
    assert(r@ =~= hash@);
    r
}

// ---------------------------------------------------------------------------
// Proofs
// ---------------------------------------------------------------------------

/// What a zone says of the names between two names.
pub enum Proof {
    /// The names themselves; the types are those of the first.
    Plain { owner: Vec<Vec<u8>>, next: Vec<Vec<u8>>, types: Vec<u8> },
    /// Their hashes. `opt_out` tells that a delegation may stand between them all
    /// the same.
    Hashed {
        zone: Vec<Vec<u8>>,
        from: Vec<u8>,
        to: Vec<u8>,
        salt: Vec<u8>,
        iterations: u16,
        opt_out: bool,
        types: Vec<u8>,
    },
}

/// What a `Proof` holds.
pub enum ProofModel {
    Plain { owner: Seq<Seq<u8>>, next: Seq<Seq<u8>>, types: Seq<u8> },
    Hashed {
        zone: Seq<Seq<u8>>,
        from: Seq<u8>,
        to: Seq<u8>,
        salt: Seq<u8>,
        iterations: u16,
        opt_out: bool,
        types: Seq<u8>,
    },
}

impl View for Proof {
    type V = ProofModel;

    open spec fn view(&self) -> ProofModel {
        match *self {
            Proof::Plain { owner, next, types } => ProofModel::Plain {
                owner: rows(owner@),
                next: rows(next@),
                types: types@,
            },
            Proof::Hashed { zone, from, to, salt, iterations, opt_out, types } => {
                ProofModel::Hashed {
                    zone: rows(zone@),
                    from: from@,
                    to: to@,
                    salt: salt@,
                    iterations,
                    opt_out,
                    types: types@,
                }
            },
        }
    }
}

/// What proofs hold.
pub open spec fn proof_models(proofs: Seq<Proof>) -> Seq<ProofModel> {
    proofs.map_values(|p: Proof| p@)
}

/// The proof in a record, if it is one. Hashes are made with SHA-1, which is the only
/// way there is, and stand before the name of their zone.
pub open spec fn proof_in(record: RecordModel) -> Option<ProofModel> {
    if record.rtype == T_NSEC {
        match NsecModel::parsed(record.rdata) {
            Ok(n) => Some(
                ProofModel::Plain {
                    owner: labels_of(record.name),
                    next: labels_of(n.next_domain),
                    types: n.type_bitmap,
                },
            ),
            Err(_) => None,
        }
    } else if record.rtype == T_NSEC3 {
        match (Nsec3Model::parsed(record.rdata), owner_hash(record.name)) {
            (Ok(n), Some(from)) => if n.hash_algorithm == 1 && labels_of(record.name).len() > 0 {
                Some(
                    ProofModel::Hashed {
                        zone: labels_of(record.name).skip(1),
                        from,
                        to: n.next_hashed_owner,
                        salt: n.salt,
                        iterations: n.iterations,
                        opt_out: n.flags % 2 == 1,
                        types: n.type_bitmap,
                    },
                )
            } else {
                None
            },
            _ => None,
        }
    } else {
        None
    }
}

/// The proofs among the first `n` records.
pub open spec fn proofs_in(records: Seq<RecordModel>, n: nat) -> Seq<ProofModel>
    decreases n,
{
    if n == 0 {
        Seq::empty()
    } else {
        match proof_in(records[n - 1]) {
            Some(p) => proofs_in(records, (n - 1) as nat).push(p),
            None => proofs_in(records, (n - 1) as nat),
        }
    }
}

/// Reads the proof in a record.
fn take_proof(record: &ResourceRecord) -> (r: Option<Proof>)
    ensures
        match r {
            Some(p) => proof_in(record@) == Some(p@),
            None => proof_in(record@) is None,
        },
{
    if record.rtype == T_NSEC {
        match NsecRecord::from_wire(record.rdata.as_slice()) {
            Ok(n) => {
                let owner = name_labels(record.name.as_str());
                let next = name_labels(n.next_domain.as_str());
                Some(Proof::Plain { owner, next, types: n.type_bitmap })
            },
            Err(_) => None,
        }
    } else if record.rtype == T_NSEC3 {
        match Nsec3Record::from_wire(record.rdata.as_slice()) {
            Ok(n) => {
                let labels = name_labels(record.name.as_str());
                assert(rows(labels@).len() == labels@.len());
                if n.hash_algorithm != 1 || labels.len() == 0 {
                    return None;
                }
                match read_owner_hash(record.name.as_str()) {
                    Some(from) => Some(
                        Proof::Hashed {
                            zone: tail(&labels, 1),
                            from,
                            to: n.next_hashed_owner,
                            salt: n.salt,
                            iterations: n.iterations,
                            opt_out: n.flags % 2 == 1,
                            types: n.type_bitmap,
                        },
                    ),
                    None => None,
                }
            },
            Err(_) => None,
        }
    } else {
        None
    }
}

/// Reads the proofs among records.
pub fn collect_proofs(records: &Vec<ResourceRecord>) -> (r: Vec<Proof>)
    ensures
        proof_models(r@) == proofs_in(canonical::record_models(records@), records@.len()),
{
    let ghost all = canonical::record_models(records@);
    let mut found: Vec<Proof> = Vec::new();
    let mut i: usize = 0;
    assert(proof_models(found@) =~= Seq::empty());
    while i < records.len()
        invariant
            i <= records@.len(),
            all == canonical::record_models(records@),
            proof_models(found@) == proofs_in(all, i as nat),
        decreases records@.len() - i,
    {
        assert(all[i as int] == records@[i as int]@);
        match take_proof(&records[i]) {
            Some(p) => {
                let ghost before = proof_models(found@);
                found.push(p);
                assert(proof_models(found@) =~= before.push(p@));
            },
            None => {},
        }
        i = i + 1;
    }
    found
}

// ---------------------------------------------------------------------------
// What proofs show
// ---------------------------------------------------------------------------

/// Whether types are those of a name where another zone begins, or from which
/// what is under it is sent elsewhere.
pub open spec fn is_cut(types: Seq<u8>) -> bool {
    ||| types::bitmap_tells(types, T_NS, 0) && !types::bitmap_tells(types, T_SOA, 0)
    ||| types::bitmap_tells(types, T_DNAME, 0)
}

/// Whether types leave out a type. The types on the upper side of a cut tell only
/// of its delegation, and those of a zone's own name all but that.
pub open spec fn leaves_out(types: Seq<u8>, qtype: u16) -> bool {
    &&& !types::bitmap_tells(types, qtype, 0)
    &&& !types::bitmap_tells(types, T_CNAME, 0)
    &&& if qtype == T_DS {
        !types::bitmap_tells(types, T_SOA, 0)
    } else {
        types::bitmap_tells(types, T_NS, 0) ==> types::bitmap_tells(types, T_SOA, 0)
    }
}

/// Whether a name stands between two names of a zone. The name after the last is
/// that of the zone.
pub open spec fn is_between(
    owner: Seq<Seq<u8>>,
    next: Seq<Seq<u8>>,
    name: Seq<Seq<u8>>,
) -> bool {
    comes_before(owner, name) && (if comes_before(owner, next) {
        comes_before(name, next)
    } else {
        ends_in(name, next)
    })
}

/// Whether a hash stands between two hashes of a zone. The hash after the last is
/// the first.
pub open spec fn is_hash_between(from: Seq<u8>, to: Seq<u8>, hash: Seq<u8>) -> bool {
    if !canonical::bytes_le(to, from) {
        !canonical::bytes_le(hash, from) && !canonical::bytes_le(to, hash)
    } else {
        !canonical::bytes_le(hash, from) || !canonical::bytes_le(to, hash)
    }
}

/// Whether a proof shows that a name does not exist. What is under a cut it does
/// not tell. `loosely` takes proofs for which an unsigned delegation may exist.
pub open spec fn covers(p: ProofModel, name: Seq<Seq<u8>>, loosely: bool) -> bool {
    match p {
        ProofModel::Plain { owner, next, types } => {
            is_between(owner, next, name) && !(ends_in(name, owner) && is_cut(types))
        },
        ProofModel::Hashed { zone, from, to, salt, iterations, opt_out, .. } => {
            &&& ends_in(name, zone)
            &&& name.len() > zone.len()
            &&& is_hash_between(from, to, hash_of(name, salt, iterations))
            &&& opt_out ==> loosely
        },
    }
}

/// Whether a proof stands at a name.
pub open spec fn is_at(p: ProofModel, name: Seq<Seq<u8>>) -> bool {
    match p {
        ProofModel::Plain { owner, .. } => owner == name,
        ProofModel::Hashed { zone, from, salt, iterations, .. } => {
            ends_in(name, zone) && from == hash_of(name, salt, iterations)
        },
    }
}

/// Whether a proof shows that a name exists, and that no cut stands there if the
/// proof itself cannot tell one.
pub open spec fn shows_name(p: ProofModel, name: Seq<Seq<u8>>) -> bool {
    match p {
        ProofModel::Plain { owner, next, .. } => ends_in(owner, name) || ends_in(next, name),
        ProofModel::Hashed { types, .. } => {
            is_at(p, name) && !is_cut(types)
        },
    }
}

/// Whether a proof stands at a name and leaves out a type.
pub open spec fn shows_no_type(p: ProofModel, name: Seq<Seq<u8>>, qtype: u16) -> bool {
    is_at(p, name) && leaves_out(
        match p {
            ProofModel::Plain { types, .. } => types,
            ProofModel::Hashed { types, .. } => types,
        },
        qtype,
    )
}

/// Whether a proof shows that a name has no records but names under it.
pub open spec fn shows_empty(p: ProofModel, name: Seq<Seq<u8>>) -> bool {
    match p {
        ProofModel::Plain { next, .. } => covers(p, name, false) && ends_in(next, name),
        ProofModel::Hashed { .. } => false,
    }
}

/// Whether types are those of a cut.
fn has_cut(types: &Vec<u8>) -> (r: bool)
    ensures
        r == is_cut(types@),
{
    let types = types.as_slice();
    (bitmap_has(types, T_NS) && !bitmap_has(types, T_SOA)) || bitmap_has(types, T_DNAME)
}

/// Whether types leave out a type.
fn has_not(types: &Vec<u8>, qtype: u16) -> (r: bool)
    ensures
        r == leaves_out(types@, qtype),
{
    let types = types.as_slice();
    if bitmap_has(types, qtype) || bitmap_has(types, T_CNAME) {
        false
    } else if qtype == T_DS {
        !bitmap_has(types, T_SOA)
    } else {
        !bitmap_has(types, T_NS) || bitmap_has(types, T_SOA)
    }
}

/// Whether a hash stands between two hashes.
fn hash_between(from: &Vec<u8>, to: &Vec<u8>, hash: &Vec<u8>) -> (r: bool)
    ensures
        r == is_hash_between(from@, to@, hash@),
{
    if !bytes_before(to, from) {
        !bytes_before(hash, from) && !bytes_before(to, hash)
    } else {
        !bytes_before(hash, from) || !bytes_before(to, hash)
    }
}

impl Proof {
    /// Whether it shows that a name does not exist.
    fn covers(&self, name: &Vec<Vec<u8>>, loosely: bool) -> (r: bool)
        ensures
            r == covers(self@, rows(name@), loosely),
    {
        match self {
            Proof::Plain { owner, next, types } => {
                if !is_before(owner, name) {
                    return false;
                }
                let inside = if is_before(owner, next) {
                    is_before(name, next)
                } else {
                    has_end(name, next)
                };
                inside && !(has_end(name, owner) && has_cut(types))
            },
            Proof::Hashed { zone, from, to, salt, iterations, opt_out, .. } => {
                assert(rows(name@).len() == name@.len());
                assert(rows(zone@).len() == zone@.len());
                has_end(name, zone) && name.len() > zone.len() && (!*opt_out || loosely)
                    && hash_between(from, to, &hash_labels(name, salt, *iterations))
            },
        }
    }

    /// Whether it stands at a name.
    fn stands_at(&self, name: &Vec<Vec<u8>>) -> (r: bool)
        ensures
            r == is_at(self@, rows(name@)),
    {
        match self {
            Proof::Plain { owner, .. } => {
                proof {
                    lemma_same_name(rows(owner@), rows(name@));
                }
                has_end(name, owner) && has_end(owner, name)
            },
            Proof::Hashed { zone, from, salt, iterations, .. } => {
                has_end(name, zone) && same_row(from, &hash_labels(name, salt, *iterations))
            },
        }
    }

    /// Whether it shows that a name exists.
    fn shows_name(&self, name: &Vec<Vec<u8>>) -> (r: bool)
        ensures
            r == shows_name(self@, rows(name@)),
    {
        match self {
            Proof::Plain { owner, next, .. } => has_end(owner, name) || has_end(next, name),
            Proof::Hashed { types, .. } => {
                self.stands_at(name) && !has_cut(types)
            },
        }
    }

    /// Whether it stands at a name and leaves out a type.
    fn shows_no_type(&self, name: &Vec<Vec<u8>>, qtype: u16) -> (r: bool)
        ensures
            r == shows_no_type(self@, rows(name@), qtype),
    {
        let types = match self {
            Proof::Plain { types, .. } => types,
            Proof::Hashed { types, .. } => types,
        };
        self.stands_at(name) && has_not(types, qtype)
    }

    /// Whether it shows that a name has no records but names under it.
    fn shows_empty(&self, name: &Vec<Vec<u8>>) -> (r: bool)
        ensures
            r == shows_empty(self@, rows(name@)),
    {
        match self {
            Proof::Plain { next, .. } => self.covers(name, false) && has_end(
                next,
                name,
            ),
            Proof::Hashed { .. } => false,
        }
    }
}

/// Two names that lie under each other are the same.
proof fn lemma_same_name(a: Seq<Seq<u8>>, b: Seq<Seq<u8>>)
    ensures
        ends_in(a, b) && ends_in(b, a) <==> a == b,
{
    assert(a.skip(0) =~= a);
    assert(b.skip(0) =~= b);
}

/// Whether one of the proofs shows that a name does not exist.
pub open spec fn some_covers(proofs: Seq<ProofModel>, name: Seq<Seq<u8>>, loosely: bool) -> bool {
    exists|i: int| 0 <= i < proofs.len() && covers(#[trigger] proofs[i], name, loosely)
}

/// Whether one of the proofs shows of a name only that no signed delegation stands
/// there.
pub open spec fn some_opts_out(proofs: Seq<ProofModel>, name: Seq<Seq<u8>>) -> bool {
    exists|i: int|
        0 <= i < proofs.len() && covers(#[trigger] proofs[i], name, true) && !covers(
            proofs[i],
            name,
            false,
        )
}

/// Whether one of the proofs shows that a name exists.
pub open spec fn some_shows_name(proofs: Seq<ProofModel>, name: Seq<Seq<u8>>) -> bool {
    exists|i: int| 0 <= i < proofs.len() && shows_name(#[trigger] proofs[i], name)
}

/// Whether one of the proofs shows that a name lacks a type.
pub open spec fn some_shows_no_type(
    proofs: Seq<ProofModel>,
    name: Seq<Seq<u8>>,
    qtype: u16,
) -> bool {
    exists|i: int| 0 <= i < proofs.len() && shows_no_type(#[trigger] proofs[i], name, qtype)
}

/// Whether one of the proofs shows that a name has no records.
pub open spec fn some_shows_empty(proofs: Seq<ProofModel>, name: Seq<Seq<u8>>) -> bool {
    exists|i: int| 0 <= i < proofs.len() && shows_empty(#[trigger] proofs[i], name)
}

/// Whether the label `k` of a name is the last that does not exist: the name
/// behind it does.
pub open spec fn breaks_off_at(
    proofs: Seq<ProofModel>,
    name: Seq<Seq<u8>>,
    k: int,
    loosely: bool,
) -> bool {
    some_shows_name(proofs, name.skip(k + 1)) && some_covers(proofs, name.skip(k), loosely)
}

/// Whether the label `k` of a name is the last that does not exist, and no
/// wildcard stands for it.
pub open spec fn is_absent_at(
    proofs: Seq<ProofModel>,
    name: Seq<Seq<u8>>,
    k: int,
    loosely: bool,
) -> bool {
    breaks_off_at(proofs, name, k, loosely) && some_covers(proofs, wildcard_at(name, k), loosely)
}

/// Whether the label `k` of a name is the last that does not exist, and the
/// wildcard that stands for it lacks a type. Where an unsigned delegation may
/// exist, it lacks a digest anyway.
pub open spec fn is_left_out_at(
    proofs: Seq<ProofModel>,
    name: Seq<Seq<u8>>,
    k: int,
    qtype: u16,
    loosely: bool,
) -> bool {
    breaks_off_at(proofs, name, k, loosely) && (loosely && qtype == T_DS && some_opts_out(
        proofs,
        name.skip(k),
    ) || some_shows_no_type(proofs, wildcard_at(name, k), qtype))
}

/// Whether proofs show that a name does not exist, nor a wildcard for it.
pub open spec fn is_absent(proofs: Seq<ProofModel>, name: Seq<Seq<u8>>, loosely: bool) -> bool {
    exists|k: int| 0 <= k < name.len() && #[trigger] is_absent_at(proofs, name, k, loosely)
}

/// Whether proofs show that a name has no records of a type: it lacks the type, it
/// has no records at all, or what lacks the type is the wildcard that stands for
/// it.
pub open spec fn is_left_out(
    proofs: Seq<ProofModel>,
    name: Seq<Seq<u8>>,
    qtype: u16,
    loosely: bool,
) -> bool {
    ||| some_shows_no_type(proofs, name, qtype)
    ||| some_shows_empty(proofs, name)
    ||| exists|k: int|
        0 <= k < name.len() && #[trigger] is_left_out_at(proofs, name, k, qtype, loosely)
}

/// Whether proofs show that a name does not exist, or that it has no records of a
/// type.
pub open spec fn disproves(
    proofs: Seq<ProofModel>,
    name: Seq<char>,
    qtype: u16,
    nxdomain: bool,
    loosely: bool,
) -> bool {
    if nxdomain {
        is_absent(proofs, labels_of(name), loosely)
    } else {
        is_left_out(proofs, labels_of(name), qtype, loosely)
    }
}

/// Whether records prove that a name does not exist, or that it has no records of
/// a type.
pub open spec fn denies(
    records: Seq<RecordModel>,
    name: Seq<char>,
    qtype: u16,
    nxdomain: bool,
) -> bool {
    disproves(proofs_in(records, records.len()), name, qtype, nxdomain, false)
}

/// Whether one of the proofs shows that a name does not exist.
pub fn any_covers(proofs: &Vec<Proof>, name: &Vec<Vec<u8>>, loosely: bool) -> (r: bool)
    ensures
        r == some_covers(proof_models(proofs@), rows(name@), loosely),
{
    let ghost all = proof_models(proofs@);
    let mut i: usize = 0;
    while i < proofs.len()
        invariant
            i <= proofs@.len(),
            all == proof_models(proofs@),
            forall|k: int| 0 <= k < i ==> !covers(#[trigger] all[k], rows(name@), loosely),
        decreases proofs@.len() - i,
    {
        assert(all[i as int] == proofs@[i as int]@);
        if proofs[i].covers(name, loosely) {
            return true;
        }
        i = i + 1;
    }
    false
}

/// Whether one of the proofs shows of a name only that no signed delegation stands
/// there.
fn any_opts_out(proofs: &Vec<Proof>, name: &Vec<Vec<u8>>) -> (r: bool)
    ensures
        r == some_opts_out(proof_models(proofs@), rows(name@)),
{
    let ghost all = proof_models(proofs@);
    let mut i: usize = 0;
    while i < proofs.len()
        invariant
            i <= proofs@.len(),
            all == proof_models(proofs@),
            forall|k: int|
                0 <= k < i ==> !(covers(#[trigger] all[k], rows(name@), true) && !covers(
                    all[k],
                    rows(name@),
                    false,
                )),
        decreases proofs@.len() - i,
    {
        assert(all[i as int] == proofs@[i as int]@);
        if proofs[i].covers(name, true) && !proofs[i].covers(name, false) {
            return true;
        }
        i = i + 1;
    }
    false
}

/// Whether one of the proofs shows that a name exists.
fn any_shows_name(proofs: &Vec<Proof>, name: &Vec<Vec<u8>>) -> (r: bool)
    ensures
        r == some_shows_name(proof_models(proofs@), rows(name@)),
{
    let ghost all = proof_models(proofs@);
    let mut i: usize = 0;
    while i < proofs.len()
        invariant
            i <= proofs@.len(),
            all == proof_models(proofs@),
            forall|k: int| 0 <= k < i ==> !shows_name(#[trigger] all[k], rows(name@)),
        decreases proofs@.len() - i,
    {
        assert(all[i as int] == proofs@[i as int]@);
        if proofs[i].shows_name(name) {
            return true;
        }
        i = i + 1;
    }
    false
}

/// Whether one of the proofs shows that a name lacks a type.
fn any_shows_no_type(proofs: &Vec<Proof>, name: &Vec<Vec<u8>>, qtype: u16) -> (r: bool)
    ensures
        r == some_shows_no_type(proof_models(proofs@), rows(name@), qtype),
{
    let ghost all = proof_models(proofs@);
    let mut i: usize = 0;
    while i < proofs.len()
        invariant
            i <= proofs@.len(),
            all == proof_models(proofs@),
            forall|k: int| 0 <= k < i ==> !shows_no_type(#[trigger] all[k], rows(name@), qtype),
        decreases proofs@.len() - i,
    {
        assert(all[i as int] == proofs@[i as int]@);
        if proofs[i].shows_no_type(name, qtype) {
            return true;
        }
        i = i + 1;
    }
    false
}

/// Whether one of the proofs shows that a name has no records.
fn any_shows_empty(proofs: &Vec<Proof>, name: &Vec<Vec<u8>>) -> (r: bool)
    ensures
        r == some_shows_empty(proof_models(proofs@), rows(name@)),
{
    let ghost all = proof_models(proofs@);
    let mut i: usize = 0;
    while i < proofs.len()
        invariant
            i <= proofs@.len(),
            all == proof_models(proofs@),
            forall|k: int| 0 <= k < i ==> !shows_empty(#[trigger] all[k], rows(name@)),
        decreases proofs@.len() - i,
    {
        assert(all[i as int] == proofs@[i as int]@);
        if proofs[i].shows_empty(name) {
            return true;
        }
        i = i + 1;
    }
    false
}

/// Whether the label `k` of a name is the last that does not exist.
fn breaks_off(proofs: &Vec<Proof>, name: &Vec<Vec<u8>>, k: usize, loosely: bool) -> (r: bool)
    requires
        k < name@.len(),
    ensures
        r == breaks_off_at(proof_models(proofs@), rows(name@), k as int, loosely),
{
    let n: usize = name.len();
    assert(k < n);
    any_shows_name(proofs, &tail(name, k + 1)) && any_covers(proofs, &tail(name, k), loosely)
}

/// Whether proofs show that a name does not exist, or that it has no records of a
/// type.
pub fn disprove(
    proofs: &Vec<Proof>,
    name: &str,
    qtype: u16,
    nxdomain: bool,
    loosely: bool,
) -> (r: bool)
    ensures
        r == disproves(proof_models(proofs@), name@, qtype, nxdomain, loosely),
{
    let labels = name_labels(name);
    let ghost all = proof_models(proofs@);
    let ghost row = labels_of(name@);
    assert(row.len() == labels@.len());
    if !nxdomain && (any_shows_no_type(proofs, &labels, qtype) || any_shows_empty(
        proofs,
        &labels,
    )) {
        return true;
    }
    let mut k: usize = 0;
    while k < labels.len()
        invariant
            k <= labels@.len(),
            all == proof_models(proofs@),
            row == rows(labels@),
            row == labels_of(name@),
            row.len() == labels@.len(),
            nxdomain ==> forall|j: int|
                0 <= j < k ==> !#[trigger] is_absent_at(all, row, j, loosely),
            !nxdomain ==> forall|j: int|
                0 <= j < k ==> !#[trigger] is_left_out_at(all, row, j, qtype, loosely),
        decreases labels@.len() - k,
    {
        if breaks_off(proofs, &labels, k, loosely) {
            let star = wildcard(&labels, k);
            let shown = if nxdomain {
                any_covers(proofs, &star, loosely)
            } else {
                loosely && qtype == T_DS && any_opts_out(proofs, &tail(&labels, k))
                    || any_shows_no_type(proofs, &star, qtype)
            };
            if shown {
                assert(nxdomain ==> is_absent_at(all, row, k as int, loosely));
                assert(!nxdomain ==> is_left_out_at(all, row, k as int, qtype, loosely));
                return true;
            }
        }
        k = k + 1;
    }
    false
}

/// A name that is shown not to exist has a proof that covers it, or one that
/// covers a name above it.
pub proof fn law_absent_name_is_covered(records: Seq<RecordModel>, name: Seq<char>, qtype: u16)
    requires
        denies(records, name, qtype, true),
    ensures
        exists|k: int|
            0 <= k < labels_of(name).len() && some_covers(
                proofs_in(records, records.len()),
                #[trigger] labels_of(name).skip(k),
                false,
            ),
{
    let proofs = proofs_in(records, records.len());
    let row = labels_of(name);
    let k = choose|k: int| 0 <= k < row.len() && #[trigger] is_absent_at(proofs, row, k, false);
    assert(some_covers(proofs, row.skip(k), false));
}

/// No proof denies a name or a type that it tells itself: at its own name, it
/// covers nothing and leaves out none of its types.
pub proof fn law_no_proof_denies_itself(p: ProofModel, name: Seq<Seq<u8>>, loosely: bool)
    requires
        is_at(p, name),
    ensures
        !covers(p, name, loosely),
        p matches ProofModel::Plain { types, .. } ==> forall|qtype: u16|
            types::bitmap_tells(types, qtype, 0) ==> !#[trigger] shows_no_type(p, name, qtype),
{
    law_names_are_in_order(name, name);
    match p {
        ProofModel::Plain { .. } => {},
        ProofModel::Hashed { from, to, salt, iterations, .. } => {
            let hash = hash_of(name, salt, iterations);
            canonical::lemma_bytes_total(from, hash);
            canonical::lemma_bytes_total(to, hash);
        },
    }
}

} // verus!
