//! A digest of the question section, by which a reply is matched to its query.

use crate::parser::{self, extract_name};
use crate::text::{self, to_ascii_lower};
use crate::wire::{self, push_bytes, read_u16};
use sha2::{Digest, Sha256};
use vstd::prelude::*;
use vstd::slice::slice_subrange;
use vstd::utf8::*;

verus! {

/// Length of a SHA-256 digest, in bytes.
pub const SHA256_DIGEST_SIZE: usize = 32;

const DNS_HEADER_SIZE: usize = 12;

const QDCOUNT_OFFSET: usize = 4;

/// The SHA-256 digest of a row of bytes.
pub uninterp spec fn sha256(data: Seq<u8>) -> Seq<u8>;

/// `sha2::Sha256::digest` of all of `data`; the same bytes always give the
/// same thirty-two bytes.
#[verifier::external_body]
pub(crate) fn sha256_digest(data: &[u8]) -> (r: [u8; 32])
    ensures
        r@ == sha256(data@),
{
    Sha256::digest(data).into()
}

/// Nothing has to be set up.
pub fn hash_questions_init() {
}

/// What is digested of `count` questions at `pos`, after `done`: of each the
/// name with its letters in lower case, then the bytes of its type and class.
pub open spec fn material(packet: Seq<u8>, pos: int, count: nat, done: Seq<u8>) -> Option<Seq<u8>>
    decreases count,
{
    if count == 0 {
        Some(done)
    } else {
        match parser::name_at(packet, pos) {
            Err(_) => None,
            Ok((p, name)) => if p + 4 > packet.len() {
                None
            } else {
                material(
                    packet,
                    p + 4,
                    (count - 1) as nat,
                    done + encode_utf8(text::lower(name)) + packet.subrange(p, p + 4),
                )
            },
        }
    }
}

/// What is digested of the question section of a message.
pub open spec fn questions_material(packet: Seq<u8>) -> Option<Seq<u8>> {
    if packet.len() < 12 {
        None
    } else {
        material(packet, 12, wire::be16(packet, 4) as nat, Seq::empty())
    }
}

/// Collects what is digested of the question section; nothing if the section
/// is cut short or cannot be read.
pub fn collect_questions(packet: &[u8]) -> (r: Option<Vec<u8>>)
    ensures
        match r {
            Some(bytes) => questions_material(packet@) == Some(bytes@),
            None => questions_material(packet@) is None,
        },
{
    if packet.len() < DNS_HEADER_SIZE {
        return None;
    }
    let packet_len: usize = packet.len();
    let qdcount: u16 = read_u16(packet, QDCOUNT_OFFSET);
    let mut out: Vec<u8> = Vec::new();
    let mut position: usize = DNS_HEADER_SIZE;
    let mut left: u16 = qdcount;
    while left > 0
        invariant
            packet_len == packet@.len(),
            position <= packet_len,
            questions_material(packet@) == material(
                packet@,
                position as int,
                left as nat,
                out@,
            ),
        decreases left,
    {
        let input = slice_subrange(packet, position, packet_len);
        assert(input@ =~= packet@.skip(position as int));
        let (rest, name) = match extract_name(packet, input) {
            Ok(found) => found,
            Err(_) => {
                return None;
            },
        };
        position = packet_len - rest.len();
        if packet_len - position < 4 {
            return None;
        }
        let lowered = to_ascii_lower(name.as_str());
        push_bytes(&mut out, lowered.as_str().as_bytes());
        push_bytes(&mut out, slice_subrange(packet, position, position + 4));
        position = position + 4;
        left = left - 1;
    }
    Some(out)
}

/// The digest of the question section. Letters of names count as lower case.
pub fn hash_questions(packet: &[u8]) -> (r: Option<[u8; SHA256_DIGEST_SIZE]>)
    ensures
        match questions_material(packet@) {
            Some(bytes) => r matches Some(digest) && digest@ == sha256(bytes),
            None => r is None,
        },
{
    match collect_questions(packet) {
        Some(bytes) => Some(sha256_digest(bytes.as_slice())),
        None => None,
    }
}

/// Whether the names at `pos` in two messages differ at most in the case of
/// letters.
pub open spec fn names_match(p1: Seq<u8>, p2: Seq<u8>, pos: int, hops: nat) -> bool
    decreases 256 - hops, p1.len() - pos,
{
    if pos >= p1.len() {
        true
    } else {
        let byte = p1[pos];
        &&& byte == p2[pos]
        &&& match crate::compression::label_type_of(byte) {
            crate::compression::LabelType::Normal => {
                let end = pos + 1 + byte;
                byte == 0 || end > p1.len() || (text::lower(
                    parser::latin1(p1.subrange(pos + 1, end)),
                ) == text::lower(parser::latin1(p2.subrange(pos + 1, end))) && names_match(
                    p1,
                    p2,
                    end,
                    hops,
                ))
            },
            crate::compression::LabelType::Pointer => {
                let target = crate::compression::pointer_offset(byte, p1[pos + 1]);
                hops + 1 > 255 || pos + 1 >= p1.len() || (p1[pos + 1] == p2[pos + 1] && (target
                    >= p1.len() || names_match(p1, p2, target as int, hops + 1)))
            },
            _ => true,
        }
    }
}

/// Whether `count` questions at `pos` in two messages differ at most in the
/// case of letters of their names.
pub open spec fn questions_match(p1: Seq<u8>, p2: Seq<u8>, pos: int, count: nat) -> bool
    decreases count,
{
    count == 0 || {
        &&& names_match(p1, p2, pos, 0)
        &&& parser::name_at(p1, pos) matches Ok(r) ==> (r.0 + 4 <= p1.len() ==> p1.subrange(
            r.0,
            r.0 + 4,
        ) == p2.subrange(r.0, r.0 + 4) && questions_match(
            p1,
            p2,
            r.0 + 4,
            (count - 1) as nat,
        ))
    }
}

/// Messages whose questions differ only in the case of letters have the same
/// digest.
pub proof fn law_case_does_not_matter(p1: Seq<u8>, p2: Seq<u8>)
    requires
        p1.len() == p2.len(),
        p1.len() >= 12 ==> wire::be16(p1, 4) == wire::be16(p2, 4),
        p1.len() >= 12 ==> questions_match(p1, p2, 12, wire::be16(p1, 4) as nat),
    ensures
        questions_material(p1) == questions_material(p2),
{
    if p1.len() >= 12 {
        lemma_same_material(p1, p2, 12, wire::be16(p1, 4) as nat, Seq::empty());
    }
}

proof fn lemma_same_material(p1: Seq<u8>, p2: Seq<u8>, pos: int, count: nat, done: Seq<u8>)
    requires
        p1.len() == p2.len(),
        0 <= pos,
        questions_match(p1, p2, pos, count),
    ensures
        material(p1, pos, count, done) == material(p2, pos, count, done),
    decreases count,
{
    if count > 0 {
        lemma_same_name(p1, p2, pos, Seq::empty(), Seq::empty(), 0, None);
        if let Ok((p, name)) = parser::name_at(p1, pos) {
            if p + 4 <= p1.len() {
                lemma_name_end_not_before(p1, pos, Seq::empty(), 0, None);
                lemma_same_material(
                    p1,
                    p2,
                    p + 4,
                    (count - 1) as nat,
                    done + encode_utf8(text::lower(name)) + p1.subrange(p, p + 4),
                );
            }
        }
    }
}

proof fn lemma_name_end_not_before(
    packet: Seq<u8>,
    pos: int,
    name: Seq<char>,
    hops: nat,
    back: Option<int>,
)
    requires
        0 <= pos,
        back matches Some(b) ==> 0 <= b,
    ensures
        parser::read_name(packet, pos, name, hops, back) matches Ok(r) ==> 0 <= r.0,
    decreases 256 - hops, packet.len() - pos,
{
    if pos < packet.len() {
        let byte = packet[pos];
        match crate::compression::label_type_of(byte) {
            crate::compression::LabelType::Normal => {
                let end = pos + 1 + byte;
                if byte > 0 && end <= packet.len() {
                    let label = packet.subrange(pos + 1, end);
                    lemma_name_end_not_before(
                        packet,
                        end,
                        (name + parser::latin1(label)).push('.'),
                        hops,
                        back,
                    );
                }
            },
            crate::compression::LabelType::Pointer => {
                if hops + 1 <= 255 && pos + 1 < packet.len() {
                    let target = crate::compression::pointer_offset(byte, packet[pos + 1]) as int;
                    lemma_name_end_not_before(
                        packet,
                        target,
                        name,
                        hops + 1,
                        match back {
                            Some(b) => Some(b),
                            None => Some(pos + 2),
                        },
                    );
                }
            },
            _ => {},
        }
    }
}

/// Names that match are read alike, but for the case of letters.
proof fn lemma_same_name(
    p1: Seq<u8>,
    p2: Seq<u8>,
    pos: int,
    n1: Seq<char>,
    n2: Seq<char>,
    hops: nat,
    back: Option<int>,
)
    requires
        p1.len() == p2.len(),
        0 <= pos,
        names_match(p1, p2, pos, hops),
        text::lower(n1) == text::lower(n2),
    ensures
        match (
            parser::read_name(p1, pos, n1, hops, back),
            parser::read_name(p2, pos, n2, hops, back),
        ) {
            (Ok(r1), Ok(r2)) => r1.0 == r2.0 && text::lower(r1.1) == text::lower(r2.1),
            (Err(_), Err(_)) => true,
            _ => false,
        },
    decreases 256 - hops, p1.len() - pos,
{
    text::lemma_lower_utf8_len(n1);
    text::lemma_lower_utf8_len(n2);
    if pos < p1.len() {
        let byte = p1[pos];
        match crate::compression::label_type_of(byte) {
            crate::compression::LabelType::Normal => {
                let end = pos + 1 + byte;
                if byte == 0 {
                    lemma_lower_without_dot(n1, n2);
                } else if end <= p1.len() {
                    let l1 = p1.subrange(pos + 1, end);
                    let l2 = p2.subrange(pos + 1, end);
                    lemma_same_forbidden(l1, l2);
                    let m1 = (n1 + parser::latin1(l1)).push('.');
                    let m2 = (n2 + parser::latin1(l2)).push('.');
                    assert(text::lower(m1) =~= (text::lower(n1) + text::lower(
                        parser::latin1(l1),
                    )).push('.'));
                    assert(text::lower(m2) =~= (text::lower(n2) + text::lower(
                        parser::latin1(l2),
                    )).push('.'));
                    lemma_same_name(p1, p2, end, m1, m2, hops, back);
                }
            },
            crate::compression::LabelType::Pointer => {
                if hops + 1 <= 255 && pos + 1 < p1.len() {
                    let target = crate::compression::pointer_offset(byte, p1[pos + 1]) as int;
                    if target < p1.len() {
                        lemma_same_name(
                            p1,
                            p2,
                            target,
                            n1,
                            n2,
                            hops + 1,
                            match back {
                                Some(b) => Some(b),
                                None => Some(pos + 2),
                            },
                        );
                    }
                }
            },
            _ => {},
        }
    }
}

proof fn lemma_lower_without_dot(n1: Seq<char>, n2: Seq<char>)
    requires
        text::lower(n1) == text::lower(n2),
    ensures
        text::lower(crate::compression::without_final_dot(n1)) == text::lower(
            crate::compression::without_final_dot(n2),
        ),
{
    assert(text::lower(n1).len() == n1.len());
    assert(text::lower(n2).len() == n2.len());
    if n1.len() > 0 {
        assert(text::lower(n1)[n1.len() - 1] == text::lower_char(n1.last()));
        assert(text::lower(n2)[n1.len() - 1] == text::lower_char(n2.last()));
        assert(text::lower(n1.drop_last()) =~= text::lower(n1).drop_last());
        assert(text::lower(n2.drop_last()) =~= text::lower(n2).drop_last());
    }
}

proof fn lemma_same_forbidden(l1: Seq<u8>, l2: Seq<u8>)
    requires
        l1.len() == l2.len(),
        text::lower(parser::latin1(l1)) == text::lower(parser::latin1(l2)),
    ensures
        parser::forbidden_byte(l1) is Some <==> parser::forbidden_byte(l2) is Some,
    decreases l1.len(),
{
    if l1.len() > 0 {
        let t1 = text::lower(parser::latin1(l1));
        let t2 = text::lower(parser::latin1(l2));
        assert(t1[0] == text::lower_char(l1[0] as char));
        assert(t2[0] == text::lower_char(l2[0] as char));
        assert(text::lower(parser::latin1(l1.drop_first())) =~= t1.drop_first());
        assert(text::lower(parser::latin1(l2.drop_first())) =~= t2.drop_first());
        lemma_same_forbidden(l1.drop_first(), l2.drop_first());
    }
}

/// Whether `questions` stand one behind the other in a message from a place on.
pub open spec fn stand_at(
    packet: Seq<u8>,
    pos: int,
    questions: Seq<(Seq<char>, u16, u16)>,
) -> bool
    decreases questions.len(),
{
    questions.len() > 0 ==> {
        &&& parser::name_at(packet, pos) matches Ok((p, name))
        &&& p + 4 <= packet.len()
        &&& questions[0] == (name, wire::be16(packet, p), wire::be16(packet, p + 2))
        &&& stand_at(packet, p + 4, questions.drop_first())
    }
}

/// What is hashed of a question: its name in lower case, its type and its class.
pub open spec fn question_material(question: (Seq<char>, u16, u16)) -> Seq<u8> {
    encode_utf8(text::lower(question.0)) + seq![
        (question.1 / 256) as u8,
        (question.1 % 256) as u8,
        (question.2 / 256) as u8,
        (question.2 % 256) as u8,
    ]
}

/// What is hashed of questions, one behind the other.
pub open spec fn all_material(questions: Seq<(Seq<char>, u16, u16)>) -> Seq<u8>
    decreases questions.len(),
{
    if questions.len() == 0 {
        Seq::empty()
    } else {
        question_material(questions[0]) + all_material(questions.drop_first())
    }
}

/// All questions of a message are hashed, each with its name, its type and its class,
/// and nothing else of the message is.
pub proof fn law_all_questions_are_hashed(packet: Seq<u8>, questions: Seq<(Seq<char>, u16, u16)>)
    requires
        packet.len() >= 12,
        questions.len() == wire::be16(packet, 4),
        stand_at(packet, 12, questions),
    ensures
        questions_material(packet) == Some(all_material(questions)),
{
    lemma_material_of(packet, 12, questions, Seq::empty());
    assert(Seq::<u8>::empty() + all_material(questions) =~= all_material(questions));
}

proof fn lemma_material_of(
    packet: Seq<u8>,
    pos: int,
    questions: Seq<(Seq<char>, u16, u16)>,
    done: Seq<u8>,
)
    requires
        0 <= pos,
        stand_at(packet, pos, questions),
    ensures
        material(packet, pos, questions.len(), done) == Some(done + all_material(questions)),
    decreases questions.len(),
{
    if questions.len() == 0 {
        assert(done + all_material(questions) =~= done);
    } else {
        let (p, name) = parser::name_at(packet, pos)->Ok_0;
        lemma_name_end_not_before(packet, pos, Seq::empty(), 0, None);
        let piece = encode_utf8(text::lower(name)) + packet.subrange(p, p + 4);
        assert(packet.subrange(p, p + 4) =~= seq![
            (questions[0].1 / 256) as u8,
            (questions[0].1 % 256) as u8,
            (questions[0].2 / 256) as u8,
            (questions[0].2 % 256) as u8,
        ]);
        assert(piece =~= question_material(questions[0]));
        let rest = questions.drop_first();
        let longer = done + encode_utf8(text::lower(name)) + packet.subrange(p, p + 4);
        lemma_material_of(packet, p + 4, rest, longer);
        assert(longer + all_material(rest) =~= done + all_material(questions));
    }
}

/// Two questions have the same material exactly where they ask for the same type of
/// the same name, whatever its case, in the same class.
pub proof fn law_material_tells_the_question(
    a: (Seq<char>, u16, u16),
    b: (Seq<char>, u16, u16),
)
    ensures
        question_material(a) == question_material(b) <==> text::lower(a.0) == text::lower(b.0)
            && a.1 == b.1 && a.2 == b.2,
{
    let x = question_material(a);
    let y = question_material(b);
    if x == y {
        let n = x.len() as int;
        assert(x[n - 4] == y[n - 4] && x[n - 3] == y[n - 3] && x[n - 2] == y[n - 2] && x[n - 1]
            == y[n - 1]);
        assert(encode_utf8(text::lower(a.0)) =~= x.take(n - 4));
        assert(encode_utf8(text::lower(b.0)) =~= y.take(n - 4));
        encode_utf8_decode_utf8(text::lower(a.0));
        encode_utf8_decode_utf8(text::lower(b.0));
        let (t, u) = (a.1, b.1);
        assert(t == t / 256 * 256 + t % 256 && u == u / 256 * 256 + u % 256);
        let (v, w) = (a.2, b.2);
        assert(v == v / 256 * 256 + v % 256 && w == w / 256 * 256 + w % 256);
    }
}

} // verus!
