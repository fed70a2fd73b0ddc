//! Base64 with the standard alphabet.

use crate::spaces::{self, is_space_char};
use vstd::prelude::*;

verus! {

/// Why a text is no base64.
#[derive(Debug)]
pub struct DecodeError {
    pub message: String,
}

impl DecodeError {
    /// The text of the error.
    pub open spec fn written(self) -> Seq<char> {
        "Base64 decode error: "@ + self.message@
    }

    /// The text of the error.
    pub fn to_string(&self) -> (r: String)
        ensures
            r@ == self.written(),
    {
        let mut s: String = "Base64 decode error: ".to_owned();
        s.append(self.message.as_str());
        s
    }
}

/// The value of a letter of the alphabet.
pub open spec fn sextet(c: u8) -> Option<u32> {
    if 0x41 <= c <= 0x5A {
        Some((c - 0x41) as u32)
    } else if 0x61 <= c <= 0x7A {
        Some((c - 0x61 + 26) as u32)
    } else if 0x30 <= c <= 0x39 {
        Some((c - 0x30 + 52) as u32)
    } else if c == 0x2B {
        Some(62)
    } else if c == 0x2F {
        Some(63)
    } else {
        None
    }
}

fn sextet_of(c: u8) -> (r: Option<u32>)
    ensures
        r == sextet(c),
{
    if 0x41 <= c && c <= 0x5A {
        Some((c - 0x41) as u32)
    } else if 0x61 <= c && c <= 0x7A {
        Some((c - 0x61 + 26) as u32)
    } else if 0x30 <= c && c <= 0x39 {
        Some((c - 0x30 + 52) as u32)
    } else if c == 0x2B {
        Some(62)
    } else if c == 0x2F {
        Some(63)
    } else {
        None
    }
}

/// The error for a character that is not of the alphabet.
pub open spec fn bad_character(c: char) -> Seq<char> {
    "Invalid character: "@.push(c)
}

/// The characters but for white space, which must all be ASCII, behind those in
/// `kept`.
pub open spec fn cleaned(s: Seq<char>, kept: Seq<u8>) -> Result<Seq<u8>, Seq<char>>
    decreases s.len(),
{
    if s.len() == 0 {
        Ok(kept)
    } else if spaces::is_space(s[0]) {
        cleaned(s.drop_first(), kept)
    } else if s[0] as u32 >= 128 {
        Err(bad_character(s[0]))
    } else {
        cleaned(s.drop_first(), kept.push(s[0] as u8))
    }
}

/// The letters without the padding behind them.
pub open spec fn unpadded(s: Seq<u8>) -> Seq<u8>
    decreases s.len(),
{
    if s.len() > 0 && s.last() == 0x3D {
        unpadded(s.drop_last())
    } else {
        s
    }
}

/// A group of letters from `i` on: where the next group starts, how many letters
/// the group has, and their value. Padding ends a group; what is no letter is an
/// error.
pub open spec fn group_at(s: Seq<u8>, i: int, count: nat, value: nat) -> Result<
    (int, nat, nat),
    u8,
>
    decreases 4 - count,
{
    if count >= 4 || i >= s.len() {
        Ok((i, count, value))
    } else if s[i] == 0x3D {
        Ok((i + 1, count, value))
    } else {
        match sextet(s[i]) {
            None => Err(s[i]),
            Some(v) => group_at(s, i + 1, count + 1, value * 64 + v as nat),
        }
    }
}

/// The bytes that a group of `count` letters holds.
pub open spec fn group_bytes(count: nat, value: nat) -> Seq<u8> {
    if count == 4 {
        seq![(value / 65536) as u8, (value / 256 % 256) as u8, (value % 256) as u8]
    } else if count == 3 {
        seq![(value / 1024) as u8, (value / 4 % 256) as u8]
    } else if count == 2 {
        seq![(value / 16) as u8]
    } else {
        Seq::empty()
    }
}

/// The bytes that letters from `i` on hold, behind those in `out`.
pub open spec fn letters_value(s: Seq<u8>, i: int, out: Seq<u8>) -> Result<Seq<u8>, Seq<char>>
    decreases s.len() - i,
    via letters_decrease
{
    if i >= s.len() {
        Ok(out)
    } else {
        match group_at(s, i, 0, 0) {
            Err(c) => Err(bad_character(c as char)),
            Ok((next, count, value)) => letters_value(s, next, out + group_bytes(count, value)),
        }
    }
}

#[via_fn]
proof fn letters_decrease(s: Seq<u8>, i: int, out: Seq<u8>) {
    if i < s.len() {
        lemma_group_advances(s, i, 0, 0);
    }
}

/// A group ends within the letters, and not before it starts.
proof fn lemma_group_advances(s: Seq<u8>, i: int, count: nat, value: nat)
    requires
        i <= s.len(),
        count <= 4,
    ensures
        group_at(s, i, count, value) matches Ok((next, n, v)) ==> {
            &&& i <= next <= s.len()
            &&& count < 4 && i < s.len() ==> i < next
            &&& count <= n <= 4
        },
    decreases 4 - count,
{
    if count < 4 && i < s.len() && s[i] != 0x3D {
        if let Some(v) = sextet(s[i]) {
            lemma_group_advances(s, i + 1, count + 1, value * 64 + v as nat);
        }
    }
}

/// What a text in base64 stands for. White space does not count; padding may be
/// missing.
pub open spec fn decoded(input: Seq<char>) -> Result<Seq<u8>, Seq<char>> {
    match cleaned(input, Seq::empty()) {
        Err(e) => Err(e),
        Ok(all) => {
            let letters = unpadded(all);
            if all.len() - letters.len() > 2 {
                Err("Invalid padding"@)
            } else if letters.len() % 4 == 1 {
                Err("Invalid length"@)
            } else {
                letters_value(letters, 0, Seq::empty())
            }
        },
    }
}

/// The error for a character.
fn bad_character_error(c: char) -> (r: DecodeError)
    ensures
        r.message@ == bad_character(c),
{
    let mut message: String = "Invalid character: ".to_owned();
    message.push(c);
    DecodeError { message }
}

/// Takes the characters of a text but for white space.
fn clean(input: &str) -> (r: Result<Vec<u8>, DecodeError>)
    ensures
        match r {
            Ok(letters) => cleaned(input@, Seq::empty()) == Ok::<Seq<u8>, Seq<char>>(letters@),
            Err(e) => cleaned(input@, Seq::empty()) == Err::<Seq<u8>, Seq<char>>(e.message@),
        },
{
    let mut kept: Vec<u8> = Vec::new();
    assert(input@.skip(0) =~= input@);
    for c in it: input.chars()
        invariant
            cleaned(input@, Seq::empty()) == cleaned(input@.skip(it.index()), kept@),
            it.seq() == input@,
    {
        let ghost rest = input@.skip(it.index());
        assert(rest[0] == c);
        assert(rest.drop_first() =~= input@.skip(it.index() + 1));
        if !is_space_char(c) {
            if c as u32 >= 128 {
                return Err(bad_character_error(c));
            }
            kept.push(c as u8);
        }
    }
    assert(input@.skip(input@.len() as int) =~= Seq::empty());
    Ok(kept)
}

/// Appends the bytes that a group of letters holds.
fn push_group(out: &mut Vec<u8>, count: u32, value: u32)
    requires
        count <= 4,
        count == 4 ==> value < 0x1000000,
        count == 3 ==> value < 0x40000,
        count == 2 ==> value < 0x1000,
    ensures
        final(out)@ == old(out)@ + group_bytes(count as nat, value as nat),
{
    if count == 4 {
        out.push((value / 65536) as u8);
        out.push((value / 256 % 256) as u8);
        out.push((value % 256) as u8);
    } else if count == 3 {
        out.push((value / 1024) as u8);
        out.push((value / 4 % 256) as u8);
    } else if count == 2 {
        out.push((value / 16) as u8);
    }
    assert(out@ =~= old(out)@ + group_bytes(count as nat, value as nat));
}

/// The largest number that so many letters can hold, and one.
pub open spec fn group_limit(count: nat) -> nat {
    if count == 0 {
        1
    } else if count == 1 {
        64
    } else if count == 2 {
        0x1000
    } else if count == 3 {
        0x40000
    } else {
        0x1000000
    }
}

/// Reads a text in base64.
pub fn decode(input: &str) -> (r: Result<Vec<u8>, DecodeError>)
    ensures
        match r {
            Ok(bytes) => decoded(input@) == Ok::<Seq<u8>, Seq<char>>(bytes@),
            Err(e) => decoded(input@) == Err::<Seq<u8>, Seq<char>>(e.message@),
        },
{
    let mut letters = match clean(input) {
        Ok(letters) => letters,
        Err(e) => {
            return Err(e);
        },
    };
    let ghost all = letters@;
    let total: usize = letters.len();
    while letters.len() > 0 && letters[letters.len() - 1] == 0x3D
        invariant
            unpadded(all) == unpadded(letters@),
            letters@.len() <= total,
        decreases letters@.len(),
    {
        let ghost before = letters@;
        letters.pop();
        assert(letters@ =~= before.drop_last());
    }
    if total - letters.len() > 2 {
        return Err(DecodeError { message: "Invalid padding".to_owned() });
    }
    let len: usize = letters.len();
    if len % 4 == 1 {
        return Err(DecodeError { message: "Invalid length".to_owned() });
    }
    let mut output: Vec<u8> = Vec::new();
    let mut i: usize = 0;
    while i < len
        invariant
            i <= len == letters@.len(),
            letters_value(letters@, 0, Seq::empty()) == letters_value(
                letters@,
                i as int,
                output@,
            ),
            decoded(input@) == letters_value(letters@, 0, Seq::empty()),
        decreases len - i,
    {
        let ghost start = i as int;
        let mut value: u32 = 0;
        let mut count: u32 = 0;
        let mut ended: bool = false;
        while count < 4 && i < len && !ended
            invariant
                start <= i <= len == letters@.len(),
                start < len,
                count <= 4,
                value < group_limit(count as nat),
                !ended && count < 4 && i < len ==> group_at(letters@, start, 0, 0) == group_at(
                    letters@,
                    i as int,
                    count as nat,
                    value as nat,
                ),
                ended || count >= 4 || i >= len ==> group_at(letters@, start, 0, 0) == Ok::<
                    (int, nat, nat),
                    u8,
                >((i as int, count as nat, value as nat)),
                start == i ==> count == 0 && !ended,
                letters_value(letters@, 0, Seq::empty()) == letters_value(
                    letters@,
                    start,
                    output@,
                ),
                decoded(input@) == letters_value(letters@, 0, Seq::empty()),
            decreases len - i,
        {
            let c: u8 = letters[i];
            i = i + 1;
            if c == 0x3D {
                ended = true;
            } else {
                match sextet_of(c) {
                    None => {
                        return Err(bad_character_error(c as char));
                    },
                    Some(v) => {
                        value = value * 64 + v;
                        count = count + 1;
                    },
                }
            }
        }
        push_group(&mut output, count, value);
    }
    Ok(output)
}

// ---------------------------------------------------------------------------
// Writing and reading
// ---------------------------------------------------------------------------

/// The letter with a value.
pub open spec fn letter(v: int) -> u8 {
    if v < 26 {
        (v + 0x41) as u8
    } else if v < 52 {
        (v - 26 + 0x61) as u8
    } else if v < 62 {
        (v - 52 + 0x30) as u8
    } else if v == 62 {
        0x2B
    } else {
        0x2F
    }
}

/// The letters for bytes, four for three.
pub open spec fn letters_of(bytes: Seq<u8>) -> Seq<u8>
    decreases bytes.len(),
{
    if bytes.len() == 0 {
        Seq::empty()
    } else if bytes.len() == 1 {
        seq![letter(bytes[0] as int / 4), letter(bytes[0] as int % 4 * 16)]
    } else if bytes.len() == 2 {
        seq![
            letter(bytes[0] as int / 4),
            letter(bytes[0] as int % 4 * 16 + bytes[1] as int / 16),
            letter(bytes[1] as int % 16 * 4),
        ]
    } else {
        seq![
            letter(bytes[0] as int / 4),
            letter(bytes[0] as int % 4 * 16 + bytes[1] as int / 16),
            letter(bytes[1] as int % 16 * 4 + bytes[2] as int / 64),
            letter(bytes[2] as int % 64),
        ] + letters_of(bytes.skip(3))
    }
}

/// How many padding characters fill the last group.
pub open spec fn padding_of(bytes: Seq<u8>) -> nat {
    if bytes.len() % 3 == 1 {
        2
    } else if bytes.len() % 3 == 2 {
        1
    } else {
        0
    }
}

/// Bytes in base64, with padding.
pub open spec fn encoded(bytes: Seq<u8>) -> Seq<char> {
    let letters = letters_of(bytes);
    Seq::new(
        letters.len() + padding_of(bytes),
        |i: int|
            if i < letters.len() {
                letters[i] as char
            } else {
                '='
            },
    )
}

/// A letter has its value.
proof fn lemma_letter_value(v: int)
    requires
        0 <= v < 64,
    ensures
        sextet(letter(v)) == Some(v as u32),
        0x2B <= letter(v) <= 0x7A,
        letter(v) != 0x3D,
{
}

/// The letters are of the alphabet, and their number leaves no single letter.
proof fn lemma_letters(bytes: Seq<u8>)
    ensures
        forall|i: int|
            0 <= i < letters_of(bytes).len() ==> 0x2B <= #[trigger] letters_of(bytes)[i] <= 0x7A
                && letters_of(bytes)[i] != 0x3D,
        letters_of(bytes).len() % 4 != 1,
        letters_of(bytes).len() == 0 <==> bytes.len() == 0,
    decreases bytes.len(),
{
    if bytes.len() >= 3 {
        lemma_letters(bytes.skip(3));
    }
    if bytes.len() >= 1 {
        lemma_letter_value(bytes[0] as int / 4);
    }
    if bytes.len() == 1 {
        lemma_letter_value(bytes[0] as int % 4 * 16);
    }
    if bytes.len() >= 2 {
        lemma_letter_value(bytes[0] as int % 4 * 16 + bytes[1] as int / 16);
    }
    if bytes.len() == 2 {
        lemma_letter_value(bytes[1] as int % 16 * 4);
    }
    if bytes.len() >= 3 {
        lemma_letter_value(bytes[1] as int % 16 * 4 + bytes[2] as int / 64);
        lemma_letter_value(bytes[2] as int % 64);
        let first = seq![
            letter(bytes[0] as int / 4),
            letter(bytes[0] as int % 4 * 16 + bytes[1] as int / 16),
            letter(bytes[1] as int % 16 * 4 + bytes[2] as int / 64),
            letter(bytes[2] as int % 64),
        ];
        let rest = letters_of(bytes.skip(3));
        assert(letters_of(bytes) == first + rest);
        assert forall|i: int| 0 <= i < letters_of(bytes).len() implies 0x2B
            <= #[trigger] letters_of(bytes)[i] <= 0x7A && letters_of(bytes)[i] != 0x3D by {
            if i >= 4 {
                assert(letters_of(bytes)[i] == rest[i - 4]);
            }
        }
    }
}

/// A letter adds its value to its group.
proof fn lemma_group_letter(s: Seq<u8>, i: int, count: nat, value: nat, v: int)
    requires
        0 <= i < s.len(),
        count < 4,
        0 <= v < 64,
        s[i] == letter(v),
    ensures
        group_at(s, i, count, value) == group_at(s, i + 1, count + 1, (value * 64 + v) as nat),
{
    lemma_letter_value(v);
}

/// Three bytes are four letters.
proof fn lemma_three_bytes(b0: int, b1: int, b2: int)
    requires
        0 <= b0 < 256,
        0 <= b1 < 256,
        0 <= b2 < 256,
    ensures
        ({
            let v0 = b0 / 4;
            let v1 = b0 % 4 * 16 + b1 / 16;
            let v2 = b1 % 16 * 4 + b2 / 64;
            let v3 = b2 % 64;
            let value = ((v0 * 64 + v1) * 64 + v2) * 64 + v3;
            &&& 0 <= v0 < 64
            &&& 0 <= v1 < 64
            &&& 0 <= v2 < 64
            &&& 0 <= v3 < 64
            &&& value / 65536 == b0
            &&& value / 256 % 256 == b1
            &&& value % 256 == b2
        }),
{
    let (q0, r0) = (b0 / 4, b0 % 4);
    let (q1, r1) = (b1 / 16, b1 % 16);
    let (q2, r2) = (b2 / 64, b2 % 64);
    assert(b0 == 4 * q0 + r0 && 0 <= r0 < 4 && 0 <= q0 < 64);
    assert(b1 == 16 * q1 + r1 && 0 <= r1 < 16 && 0 <= q1 < 16);
    assert(b2 == 64 * q2 + r2 && 0 <= r2 < 64 && 0 <= q2 < 4);
    let value = ((q0 * 64 + (r0 * 16 + q1)) * 64 + (r1 * 4 + q2)) * 64 + r2;
    assert(value == b0 * 65536 + b1 * 256 + b2);
    lemma_byte_places(b0, b1, b2);
}

/// The bytes of a number of three bytes.
proof fn lemma_byte_places(b0: int, b1: int, b2: int)
    requires
        0 <= b0 < 256,
        0 <= b1 < 256,
        0 <= b2 < 256,
    ensures
        (b0 * 65536 + b1 * 256 + b2) / 65536 == b0,
        (b0 * 65536 + b1 * 256 + b2) / 256 % 256 == b1,
        (b0 * 65536 + b1 * 256 + b2) % 256 == b2,
{
    let n = b0 * 65536 + b1 * 256 + b2;
    assert(n / 256 == b0 * 256 + b1);
}

/// Two bytes are three letters.
proof fn lemma_two_bytes(b0: int, b1: int)
    requires
        0 <= b0 < 256,
        0 <= b1 < 256,
    ensures
        ({
            let v0 = b0 / 4;
            let v1 = b0 % 4 * 16 + b1 / 16;
            let v2 = b1 % 16 * 4;
            let value = (v0 * 64 + v1) * 64 + v2;
            &&& 0 <= v0 < 64
            &&& 0 <= v1 < 64
            &&& 0 <= v2 < 64
            &&& value == b0 * 1024 + b1 * 4
            &&& value / 1024 == b0
            &&& value / 4 % 256 == b1
        }),
{
}

/// The first group of letters that were made of bytes holds the first bytes.
proof fn lemma_first_group(front: Seq<u8>, bytes: Seq<u8>)
    requires
        bytes.len() > 0,
    ensures
        ({
            let s = front + letters_of(bytes);
            let i = front.len() as int;
            let n = if bytes.len() < 3 {
                bytes.len() as int
            } else {
                3
            };
            group_at(s, i, 0, 0) matches Ok((next, count, value)) && next == i + n + 1 && count
                == n + 1 && group_bytes(count, value) == bytes.take(n)
        }),
{
    let s = front + letters_of(bytes);
    let i = front.len() as int;
    let b0 = bytes[0] as int;
    if bytes.len() == 1 {
        lemma_two_bytes(b0, 0);
        assert(s[i] == letters_of(bytes)[0]);
        assert(s[i + 1] == letters_of(bytes)[1]);
        lemma_group_letter(s, i, 0, 0, b0 / 4);
        lemma_group_letter(s, i + 1, 1, (b0 / 4) as nat, b0 % 4 * 16);
        let value = (b0 / 4 * 64 + b0 % 4 * 16) as nat;
        assert(group_at(s, i + 2, 2, value) == Ok::<(int, nat, nat), u8>((i + 2, 2, value)));
        assert(value / 16 == b0);
        assert(group_bytes(2, value) =~= bytes.take(1));
    } else if bytes.len() == 2 {
        let b1 = bytes[1] as int;
        let v1 = b0 % 4 * 16 + b1 / 16;
        lemma_two_bytes(b0, b1);
        assert(s[i] == letters_of(bytes)[0]);
        assert(s[i + 1] == letters_of(bytes)[1]);
        assert(s[i + 2] == letters_of(bytes)[2]);
        lemma_group_letter(s, i, 0, 0, b0 / 4);
        lemma_group_letter(s, i + 1, 1, (b0 / 4) as nat, v1);
        lemma_group_letter(s, i + 2, 2, (b0 / 4 * 64 + v1) as nat, b1 % 16 * 4);
        let value = ((b0 / 4 * 64 + v1) * 64 + b1 % 16 * 4) as nat;
        assert(group_at(s, i + 3, 3, value) == Ok::<(int, nat, nat), u8>((i + 3, 3, value)));
        assert(group_bytes(3, value) =~= bytes.take(2));
    } else {
        let b1 = bytes[1] as int;
        let b2 = bytes[2] as int;
        let v1 = b0 % 4 * 16 + b1 / 16;
        let v2 = b1 % 16 * 4 + b2 / 64;
        lemma_three_bytes(b0, b1, b2);
        let l = letters_of(bytes);
        assert(l[0] == letter(b0 / 4));
        assert(l[1] == letter(v1));
        assert(l[2] == letter(v2));
        assert(l[3] == letter(b2 % 64));
        assert(s[i] == l[0]);
        assert(s[i + 1] == l[1]);
        assert(s[i + 2] == l[2]);
        assert(s[i + 3] == l[3]);
        lemma_group_letter(s, i, 0, 0, b0 / 4);
        lemma_group_letter(s, i + 1, 1, (b0 / 4) as nat, v1);
        lemma_group_letter(s, i + 2, 2, (b0 / 4 * 64 + v1) as nat, v2);
        lemma_group_letter(s, i + 3, 3, ((b0 / 4 * 64 + v1) * 64 + v2) as nat, b2 % 64);
        let value = (((b0 / 4 * 64 + v1) * 64 + v2) * 64 + b2 % 64) as nat;
        assert(group_at(s, i + 4, 4, value) == Ok::<(int, nat, nat), u8>((i + 4, 4, value)));
        assert(group_bytes(4, value) =~= bytes.take(3));
    }
}

/// Letters that were made of bytes hold those bytes.
proof fn lemma_letters_read_back(front: Seq<u8>, bytes: Seq<u8>, out: Seq<u8>)
    ensures
        letters_value(front + letters_of(bytes), front.len() as int, out) == Ok::<
            Seq<u8>,
            Seq<char>,
        >(out + bytes),
    decreases bytes.len(),
{
    let s = front + letters_of(bytes);
    let i = front.len() as int;
    if bytes.len() == 0 {
        assert(out + bytes =~= out);
    } else {
        lemma_first_group(front, bytes);
        if bytes.len() < 3 {
            assert(bytes.take(bytes.len() as int) =~= bytes);
            assert(s.len() == i + bytes.len() + 1);
            assert(letters_value(s, i + bytes.len() + 1, out + bytes) == Ok::<
                Seq<u8>,
                Seq<char>,
            >(out + bytes));
        } else {
            let first = letters_of(bytes).take(4);
            let rest = bytes.skip(3);
            let three = bytes.take(3);
            assert(s =~= (front + first) + letters_of(rest));
            lemma_letters_read_back(front + first, rest, out + three);
            assert((out + three) + rest =~= out + bytes);
        }
    }
}

/// Clean text is kept as it is.
proof fn lemma_clean_text(s: Seq<char>, kept: Seq<u8>)
    requires
        forall|i: int| 0 <= i < s.len() ==> 0x2B <= #[trigger] s[i] as u32 && s[i] as u32 <= 0x7A,
    ensures
        cleaned(s, kept) == Ok::<Seq<u8>, Seq<char>>(
            kept + Seq::new(s.len(), |i: int| s[i] as u8),
        ),
    decreases s.len(),
{
    let all = kept + Seq::new(s.len(), |i: int| s[i] as u8);
    if s.len() == 0 {
        assert(all =~= kept);
    } else {
        assert(!spaces::is_space(s[0]));
        let rest = s.drop_first();
        assert forall|i: int| 0 <= i < rest.len() implies 0x2B <= #[trigger] rest[i] as u32
            && rest[i] as u32 <= 0x7A by {
            assert(rest[i] == s[i + 1]);
        }
        lemma_clean_text(rest, kept.push(s[0] as u8));
        assert(kept.push(s[0] as u8) + Seq::new(rest.len(), |i: int| rest[i] as u8) =~= all);
    }
}

/// Padding goes.
proof fn lemma_unpadded(letters: Seq<u8>, padding: nat)
    requires
        letters.len() > 0 ==> letters.last() != 0x3D,
    ensures
        unpadded(letters + Seq::new(padding, |i: int| 0x3Du8)) == letters,
    decreases padding,
{
    let all = letters + Seq::new(padding, |i: int| 0x3Du8);
    if padding == 0 {
        assert(all =~= letters);
    } else {
        assert(all.drop_last() =~= letters + Seq::new((padding - 1) as nat, |i: int| 0x3Du8));
        lemma_unpadded(letters, (padding - 1) as nat);
    }
}

/// Bytes that were written in base64 are read back.
pub proof fn law_base64_round_trip(bytes: Seq<u8>)
    ensures
        decoded(encoded(bytes)) == Ok::<Seq<u8>, Seq<char>>(bytes),
{
    let letters = letters_of(bytes);
    let s = encoded(bytes);
    lemma_letters(bytes);
    assert forall|i: int| 0 <= i < s.len() implies 0x2B <= #[trigger] s[i] as u32 && s[i] as u32
        <= 0x7A by {
        if i < letters.len() {
            assert(s[i] == letters[i] as char);
        }
    }
    lemma_clean_text(s, Seq::empty());
    let all = letters + Seq::new(padding_of(bytes), |i: int| 0x3Du8);
    assert(Seq::<u8>::empty() + Seq::new(s.len(), |i: int| s[i] as u8) =~= all);
    if letters.len() > 0 {
        assert(letters.last() == letters[letters.len() - 1]);
    }
    lemma_unpadded(letters, padding_of(bytes));
    lemma_letters_read_back(Seq::empty(), bytes, Seq::empty());
    assert(Seq::<u8>::empty() + letters =~= letters);
    assert(Seq::<u8>::empty() + bytes =~= bytes);
}

} // verus!
