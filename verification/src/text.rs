//! Text helpers: ASCII case folding, splitting, joining and the rendering of
//! numbers.

use vstd::prelude::*;
use vstd::utf8::*;

verus! {

/// What `String::from_utf8_lossy` makes of a row of bytes.
pub uninterp spec fn utf8_lossy(bytes: Seq<u8>) -> Seq<char>;

/// `String::from_utf8_lossy`: bytes that are valid UTF-8 are decoded; what the
/// replacement of other bytes looks like is left to the name `utf8_lossy`.
#[verifier::external_body]
pub(crate) fn text_from_utf8_lossy(bytes: &[u8]) -> (r: String)
    ensures
        r@ == utf8_lossy(bytes@),
        valid_utf8(bytes@) ==> r@ == decode_utf8(bytes@),
{
    String::from_utf8_lossy(bytes).into_owned()
}

/// The text that bytes stand for: decoded where they are valid UTF-8, else with
/// replacements.
pub open spec fn decoded(bytes: Seq<u8>) -> Seq<char> {
    if valid_utf8(bytes) {
        decode_utf8(bytes)
    } else {
        utf8_lossy(bytes)
    }
}

/// `String::push` appends one character at the end.
pub assume_specification[ String::push ](s: &mut String, c: char)
    ensures
        final(s)@ == old(s)@.push(c),
;

/// What `str::to_lowercase` makes of a text that is not all ASCII.
pub uninterp spec fn unicode_lowercase(s: Seq<char>) -> Seq<char>;

/// `str::to_lowercase`: the same text always gives the same result; which one
/// is left to the name `unicode_lowercase`.
#[verifier::external_body]
fn unicode_lowercase_text(s: &str) -> (r: String)
    ensures
        r@ == unicode_lowercase(s@),
{
    s.to_lowercase()
}

/// A text in lower case: letter by letter where it is ASCII, else by the rules
/// of Unicode.
pub open spec fn lowercase(s: Seq<char>) -> Seq<char> {
    if is_ascii_chars(s) {
        lower(s)
    } else {
        unicode_lowercase(s)
    }
}

/// The text in lower case.
pub fn to_lowercase_text(s: &str) -> (r: String)
    ensures
        r@ == lowercase(s@),
{
    if s.is_ascii() {
        to_ascii_lower(s)
    } else {
        unicode_lowercase_text(s)
    }
}

/// What `str::to_uppercase` makes of a text that is not all ASCII.
pub uninterp spec fn unicode_uppercase(s: Seq<char>) -> Seq<char>;

/// `str::to_uppercase`: the same text always gives the same result; which one
/// is left to the name `unicode_uppercase`.
#[verifier::external_body]
fn unicode_uppercase_text(s: &str) -> (r: String)
    ensures
        r@ == unicode_uppercase(s@),
{
    s.to_uppercase()
}

/// The upper-case form of an ASCII letter; any other character is left as it is.
pub open spec fn upper_char(c: char) -> char {
    if 'a' <= c && c <= 'z' {
        (c as u8 - 32) as char
    } else {
        c
    }
}

/// A text in upper case: letter by letter where it is ASCII, else by the rules
/// of Unicode.
pub open spec fn uppercase(s: Seq<char>) -> Seq<char> {
    if is_ascii_chars(s) {
        Seq::new(s.len(), |i: int| upper_char(s[i]))
    } else {
        unicode_uppercase(s)
    }
}

/// The text in upper case.
pub fn to_uppercase_text(s: &str) -> (r: String)
    ensures
        r@ == uppercase(s@),
{
    if s.is_ascii() {
        let mut r: String = String::new();
        for c in it: s.chars()
            invariant
                r@ == Seq::new(it.index() as nat, |i: int| upper_char(s@[i])),
                it.seq() == s@,
        {
            let ghost before = r@;
            if 'a' <= c && c <= 'z' {
                r.push((c as u8 - 32) as char);
            } else {
                r.push(c);
            }
            assert(r@ =~= Seq::new((it.index() + 1) as nat, |i: int| upper_char(s@[i])));
        }
        r
    } else {
        unicode_uppercase_text(s)
    }
}

/// What the error of `str::parse::<u16>` says of a text.
pub uninterp spec fn u16_parse_error(s: Seq<char>) -> Seq<char>;

/// `str::parse::<u16>`: an optional plus sign, then decimal digits of a number
/// that fits. The text of the error is left to the name `u16_parse_error`.
#[verifier::external_body]
pub(crate) fn parse_u16(s: &str) -> (r: Result<u16, String>)
    ensures
        match r {
            Ok(n) => parse_value(s@) == Some(n as nat),
            Err(e) => !fits(parse_value(s@), 65535) && e@ == u16_parse_error(s@),
        },
{
    match s.parse::<u16>() {
        Ok(n) => Ok(n),
        Err(e) => Err(e.to_string()),
    }
}

/// What the error of `str::parse::<u8>` says of a text.
pub uninterp spec fn u8_parse_error(s: Seq<char>) -> Seq<char>;

/// `str::parse::<u8>`: an optional plus sign, then decimal digits of a number
/// that fits. The text of the error is left to the name `u8_parse_error`.
#[verifier::external_body]
pub(crate) fn parse_u8(s: &str) -> (r: Result<u8, String>)
    ensures
        match r {
            Ok(n) => parse_value(s@) == Some(n as nat),
            Err(e) => !fits(parse_value(s@), 255) && e@ == u8_parse_error(s@),
        },
{
    match s.parse::<u8>() {
        Ok(n) => Ok(n),
        Err(e) => Err(e.to_string()),
    }
}

/// There is a number, and it is not above a limit.
pub open spec fn fits(n: Option<nat>, max: nat) -> bool {
    n matches Some(v) && v <= max
}

/// `std::str::from_utf8`: gives the text exactly where the bytes are valid
/// UTF-8.
#[verifier::external_body]
pub(crate) fn text_from_utf8(bytes: &[u8]) -> (r: Option<String>)
    ensures
        match r {
            Some(s) => valid_utf8(bytes@) && s@ == decode_utf8(bytes@),
            None => !valid_utf8(bytes@),
        },
{
    match std::str::from_utf8(bytes) {
        Ok(s) => Some(String::from(s)),
        Err(_) => None,
    }
}

/// The lower-case form of an ASCII capital; any other character is itself.
pub open spec fn lower_char(c: char) -> char {
    if 'A' <= c && c <= 'Z' {
        (c as u8 + 32) as char
    } else {
        c
    }
}

/// A text with every ASCII capital in its lower-case form.
pub open spec fn lower(s: Seq<char>) -> Seq<char> {
    Seq::new(s.len(), |i: int| lower_char(s[i]))
}

/// The length of a text in bytes of UTF-8.
pub open spec fn utf8_len(s: Seq<char>) -> nat {
    encode_utf8(s).len()
}

/// A length as an error reports it.
pub open spec fn as_size(n: int) -> usize {
    if n > usize::MAX {
        usize::MAX
    } else {
        n as usize
    }
}

/// The characters of a vector of strings.
pub open spec fn texts(v: Seq<String>) -> Seq<Seq<char>> {
    Seq::new(v.len(), |i: int| v[i]@)
}

/// The pieces of `s` between the separators: always one more than there are
/// separators, and possibly empty.
pub open spec fn split(s: Seq<char>, sep: char) -> Seq<Seq<char>>
    decreases s.len(),
{
    if s.len() == 0 {
        seq![Seq::<char>::empty()]
    } else {
        let init = split(s.drop_last(), sep);
        if s.last() == sep {
            init.push(Seq::<char>::empty())
        } else {
            init.update(init.len() - 1, init.last().push(s.last()))
        }
    }
}

/// The pieces put together again with `sep` between each two of them.
pub open spec fn join(parts: Seq<Seq<char>>, sep: char) -> Seq<char>
    decreases parts.len(),
{
    if parts.len() == 0 {
        Seq::<char>::empty()
    } else if parts.len() == 1 {
        parts[0]
    } else {
        join(parts.drop_last(), sep).push(sep) + parts.last()
    }
}

/// The decimal digit of a number below ten.
pub open spec fn digit_char(d: int) -> char {
    (d + 48) as char
}

/// A number in decimal, without leading zeros.
pub open spec fn decimal(n: nat) -> Seq<char>
    decreases n,
{
    if n < 10 {
        seq![digit_char(n as int)]
    } else {
        decimal(n / 10).push(digit_char((n % 10) as int))
    }
}

/// The upper-case hexadecimal digit of a number below sixteen.
pub open spec fn hex_upper(d: int) -> char {
    if d < 10 {
        (d + 48) as char
    } else {
        (d + 55) as char
    }
}

/// A byte as two upper-case hexadecimal digits.
pub open spec fn hex_byte(b: u8) -> Seq<char> {
    seq![hex_upper((b / 16) as int), hex_upper((b % 16) as int)]
}

/// The value of a decimal digit.
pub open spec fn digit_value(c: char) -> int {
    c as int - 48
}

pub open spec fn is_digit(c: char) -> bool {
    '0' <= c && c <= '9'
}

pub open spec fn all_digits(s: Seq<char>) -> bool {
    forall|i: int| 0 <= i < s.len() ==> is_digit(#[trigger] s[i])
}

/// The number that a row of decimal digits stands for.
pub open spec fn decimal_value(s: Seq<char>) -> nat
    decreases s.len(),
{
    if s.len() == 0 {
        0
    } else {
        (decimal_value(s.drop_last()) * 10 + digit_value(s.last())) as nat
    }
}

/// A text without the plus sign that it may start with.
pub open spec fn without_plus(s: Seq<char>) -> Seq<char> {
    if s.len() > 0 && s[0] == '+' {
        s.skip(1)
    } else {
        s
    }
}

/// What a text denotes as an unsigned number: an optional plus sign, then
/// decimal digits only, at least one.
pub open spec fn parse_value(s: Seq<char>) -> Option<nat> {
    let digits = without_plus(s);
    if digits.len() > 0 && all_digits(digits) {
        Some(decimal_value(digits))
    } else {
        None
    }
}

/// The value of a hexadecimal digit of either case.
pub open spec fn hex_value(c: char) -> Option<int> {
    if '0' <= c && c <= '9' {
        Some(c as int - 48)
    } else if 'a' <= c && c <= 'f' {
        Some(c as int - 87)
    } else if 'A' <= c && c <= 'F' {
        Some(c as int - 55)
    } else {
        None
    }
}

/// The lower-case form of one character.
pub fn to_lower_char(c: char) -> (r: char)
    ensures
        r == lower_char(c),
{
    if 'A' <= c && c <= 'Z' {
        (c as u8 + 32) as char
    } else {
        c
    }
}

/// The characters of a text.
pub fn to_chars(s: &str) -> (r: Vec<char>)
    ensures
        r@ == s@,
{
    let mut r: Vec<char> = Vec::new();
    for c in it: s.chars()
        invariant
            r@ == it.seq().take(it.index()),
            it.seq() == s@,
    {
        r.push(c);
        assert(r@ =~= it.seq().take(it.index() + 1));
    }
    assert(r@ =~= s@);
    r
}

/// The text made of the characters from `from` up to `to`.
pub fn from_chars(v: &Vec<char>, from: usize, to: usize) -> (r: String)
    requires
        from <= to <= v@.len(),
    ensures
        r@ == v@.subrange(from as int, to as int),
{
    let mut r: String = String::new();
    let mut i: usize = from;
    while i < to
        invariant
            from <= i <= to <= v@.len(),
            r@ == v@.subrange(from as int, i as int),
        decreases to - i,
    {
        r.push(v[i]);
        i = i + 1;
        assert(r@ =~= v@.subrange(from as int, i as int));
    }
    r
}

/// The text with every ASCII capital in its lower-case form.
pub fn to_ascii_lower(s: &str) -> (r: String)
    ensures
        r@ == lower(s@),
{
    let mut r: String = String::new();
    for c in it: s.chars()
        invariant
            r@ == lower(it.seq().take(it.index())),
            it.seq() == s@,
    {
        r.push(to_lower_char(c));
        assert(r@ =~= lower(it.seq().take(it.index() + 1)));
    }
    assert(r@ =~= lower(s@));
    r
}

/// Whether two texts are the same but for the case of ASCII letters.
pub fn eq_ignore_case(a: &str, b: &str) -> (r: bool)
    ensures
        r == (lower(a@) == lower(b@)),
{
    to_ascii_lower(a) == to_ascii_lower(b)
}

/// The pieces of `s` between the separators.
pub fn split_text(s: &str, sep: char) -> (r: Vec<String>)
    ensures
        texts(r@) == split(s@, sep),
        r@.len() >= 1,
{
    let mut r: Vec<String> = Vec::new();
    let mut cur: String = String::new();
    assert(texts(r@).push(cur@) =~= split(Seq::<char>::empty(), sep));
    for c in it: s.chars()
        invariant
            texts(r@).push(cur@) == split(it.seq().take(it.index()), sep),
            it.seq() == s@,
    {
        let ghost done = it.seq().take(it.index());
        assert(it.seq().take(it.index() + 1) =~= done.push(c));
        assert(done.push(c).drop_last() =~= done);
        if c == sep {
            let ghost before = texts(r@).push(cur@);
            r.push(cur);
            cur = String::new();
            assert(texts(r@) =~= before);
        } else {
            let ghost old_cur = cur@;
            cur.push(c);
            assert(texts(r@).push(cur@) =~= texts(r@).push(old_cur).update(
                texts(r@).len() as int,
                cur@,
            ));
        }
    }
    assert(s@.take(s@.len() as int) =~= s@);
    let ghost before = texts(r@).push(cur@);
    r.push(cur);
    assert(texts(r@) =~= before);
    r
}

/// The pieces from `from` on, joined with `sep`.
pub fn join_from(parts: &Vec<String>, from: usize, sep: char) -> (r: String)
    requires
        from <= parts@.len(),
    ensures
        r@ == join(texts(parts@).skip(from as int), sep),
{
    let mut r: String = String::new();
    let mut i: usize = from;
    let ghost all = texts(parts@).skip(from as int);
    while i < parts.len()
        invariant
            from <= i <= parts@.len(),
            all == texts(parts@).skip(from as int),
            r@ == join(all.take(i - from), sep),
        decreases parts@.len() - i,
    {
        assert(all.take(i + 1 - from).drop_last() =~= all.take(i - from));
        assert(all.take(i + 1 - from).last() == parts@[i as int]@);
        if i > from {
            r.push(sep);
        }
        r.append(parts[i].as_str());
        i = i + 1;
        assert(r@ =~= join(all.take(i - from), sep));
    }
    assert(all.take(all.len() as int) =~= all);
    r
}

/// Appends `n` in decimal.
pub fn push_decimal(s: &mut String, n: u64)
    ensures
        final(s)@ == old(s)@ + decimal(n as nat),
    decreases n,
{
    if n >= 10 {
        push_decimal(s, n / 10);
    }
    s.push(((n % 10) as u8 + 48) as char);
    assert(s@ =~= old(s)@ + decimal(n as nat));
}

/// Appends `b` as two upper-case hexadecimal digits.
pub fn push_hex_byte(s: &mut String, b: u8)
    ensures
        final(s)@ == old(s)@ + hex_byte(b),
{
    s.push(hex_digit(b / 16));
    s.push(hex_digit(b % 16));
    assert(s@ =~= old(s)@ + hex_byte(b));
}

fn hex_digit(d: u8) -> (c: char)
    requires
        d < 16,
    ensures
        c == hex_upper(d as int),
{
    if d < 10 {
        (d + 48) as char
    } else {
        (d + 55) as char
    }
}

/// The number that a text denotes, where it denotes one of at most `max`.
pub fn parse_number(s: &str, max: u64) -> (r: Option<u64>)
    ensures
        match parse_value(s@) {
            Some(n) => if n <= max {
                r == Some(n as u64)
            } else {
                r is None
            },
            None => r is None,
        },
{
    let chars = to_chars(s);
    let start: usize = if chars.len() > 0 && chars[0] == '+' {
        1
    } else {
        0
    };
    let ghost digits = without_plus(s@);
    assert(digits =~= s@.skip(start as int));
    if start == chars.len() {
        return None;
    }
    let mut i: usize = start;
    let mut value: u64 = 0;
    let mut over: bool = false;
    while i < chars.len()
        invariant
            start <= i <= chars@.len(),
            chars@ == s@,
            digits == without_plus(s@),
            digits == s@.skip(start as int),
            forall|k: int| 0 <= k < i - start ==> is_digit(#[trigger] digits[k]),
            !over ==> value == decimal_value(digits.take(i - start)) && value <= max,
            over ==> decimal_value(digits.take(i - start)) > max,
        decreases chars@.len() - i,
    {
        let c = chars[i];
        assert(c == digits[i - start]);
        assert(digits.take(i + 1 - start).drop_last() =~= digits.take(i - start));
        if !('0' <= c && c <= '9') {
            assert(!is_digit(digits[i - start]));
            return None;
        }
        let d: u64 = (c as u8 - 48) as u64;
        let wide: u128 = value as u128 * 10 + d as u128;
        if over || wide > max as u128 {
            over = true;
        } else {
            value = wide as u64;
        }
        i = i + 1;
    }
    assert(digits.take(digits.len() as int) =~= digits);
    if over {
        None
    } else {
        Some(value)
    }
}

/// The encoding of two texts one after the other.
pub proof fn lemma_utf8_concat(a: Seq<char>, b: Seq<char>)
    ensures
        encode_utf8(a + b) == encode_utf8(a) + encode_utf8(b),
        utf8_len(a + b) == utf8_len(a) + utf8_len(b),
    decreases a.len(),
{
    if a.len() == 0 {
        assert(a + b =~= b);
        assert(encode_utf8(a) =~= Seq::<u8>::empty());
        assert(encode_utf8(a + b) =~= encode_utf8(a) + encode_utf8(b));
    } else {
        lemma_utf8_concat(a.drop_first(), b);
        assert((a + b).drop_first() =~= a.drop_first() + b);
        assert((a + b)[0] == a[0]);
        assert(encode_utf8(a + b) =~= encode_utf8(a) + encode_utf8(b));
    }
}

/// An ASCII character takes one byte.
pub proof fn lemma_utf8_ascii_char(c: char)
    requires
        c as u32 <= 0x7f,
    ensures
        utf8_len(seq![c]) == 1,
{
    assert(is_ascii_chars(seq![c]));
    is_ascii_chars_encode_utf8(seq![c]);
}

/// Folding the case of letters keeps the length in bytes.
pub proof fn lemma_lower_utf8_len(s: Seq<char>)
    ensures
        utf8_len(lower(s)) == utf8_len(s),
    decreases s.len(),
{
    if s.len() > 0 {
        lemma_lower_utf8_len(s.drop_first());
        assert(lower(s).drop_first() =~= lower(s.drop_first()));
        assert(lower(s)[0] == lower_char(s[0]));
    }
}

/// What is ASCII in lower case is ASCII.
pub proof fn lemma_ascii_too(a: Seq<char>, b: Seq<char>)
    requires
        is_ascii_chars(a),
        lower(a) == lower(b),
    ensures
        is_ascii_chars(b),
{
    assert(lower(a).len() == a.len());
    assert(lower(b).len() == b.len());
    assert forall|i: int| 0 <= i < b.len() implies '\0' <= #[trigger] b[i] <= '\u{7f}' by {
        assert(lower(a)[i] == lower_char(a[i]));
        assert(lower(b)[i] == lower_char(b[i]));
        assert('\0' <= a[i] <= '\u{7f}');
    }
}

/// Joining what was split gives the text back.
pub proof fn law_split_join(s: Seq<char>, sep: char)
    ensures
        join(split(s, sep), sep) == s,
        split(s, sep).len() >= 1,
    decreases s.len(),
{
    if s.len() > 0 {
        let init = split(s.drop_last(), sep);
        law_split_join(s.drop_last(), sep);
        assert(s =~= s.drop_last().push(s.last()));
        if s.last() == sep {
            assert(split(s, sep).drop_last() =~= init);
            assert(join(split(s, sep), sep) =~= s);
        } else {
            let next = init.update(init.len() - 1, init.last().push(s.last()));
            assert(next.drop_last() =~= init.drop_last());
            assert(join(next, sep) =~= s);
        }
    }
}

/// Splitting what was joined gives the pieces back, where none of them holds
/// the separator.
pub proof fn law_join_split(parts: Seq<Seq<char>>, sep: char)
    requires
        parts.len() >= 1,
        forall|i: int| 0 <= i < parts.len() ==> !(#[trigger] parts[i]).contains(sep),
    ensures
        split(join(parts, sep), sep) == parts,
    decreases parts.len(),
{
    if parts.len() == 1 {
        assert(Seq::<char>::empty() + parts[0] =~= parts[0]);
        lemma_split_append(Seq::<char>::empty(), parts[0], sep);
        assert(split(Seq::<char>::empty(), sep) =~= seq![Seq::<char>::empty()]);
        assert(split(parts[0], sep) =~= parts);
    } else {
        let init = parts.drop_last();
        assert forall|i: int| 0 <= i < init.len() implies !(#[trigger] init[i]).contains(sep) by {
            assert(init[i] == parts[i]);
        }
        law_join_split(init, sep);
        let head = join(init, sep).push(sep);
        assert(head.drop_last() =~= join(init, sep));
        assert(split(head, sep) =~= init.push(Seq::<char>::empty()));
        lemma_split_append(head, parts.last(), sep);
        assert(Seq::<char>::empty() + parts.last() =~= parts.last());
        assert(split(join(parts, sep), sep) =~= parts);
    }
}

/// The pieces of two texts with a separator between them are those of the one and
/// of the other.
pub proof fn law_split_in_two(a: Seq<char>, b: Seq<char>, sep: char)
    ensures
        split(a.push(sep) + b, sep) == split(a, sep) + split(b, sep),
    decreases b.len(),
{
    let whole = a.push(sep) + b;
    if b.len() == 0 {
        assert(whole =~= a.push(sep));
        assert(whole.drop_last() =~= a);
        assert(split(whole, sep) =~= split(a, sep) + split(b, sep));
    } else {
        law_split_in_two(a, b.drop_last(), sep);
        law_split_join(b.drop_last(), sep);
        assert(whole.drop_last() =~= a.push(sep) + b.drop_last());
        assert(split(whole, sep) =~= split(a, sep) + split(b, sep));
    }
}

/// A text without separators behind another one only lengthens its last piece.
proof fn lemma_split_append(a: Seq<char>, b: Seq<char>, sep: char)
    requires
        !b.contains(sep),
    ensures
        split(a, sep).len() >= 1,
        split(a + b, sep) == split(a, sep).update(
            split(a, sep).len() - 1,
            split(a, sep).last() + b,
        ),
    decreases b.len(),
{
    law_split_join(a, sep);
    if b.len() == 0 {
        assert(a + b =~= a);
        assert(split(a, sep).last() + b =~= split(a, sep).last());
        assert(split(a, sep) =~= split(a, sep).update(
            split(a, sep).len() - 1,
            split(a, sep).last() + b,
        ));
    } else {
        let c = b.drop_last();
        assert(!c.contains(sep)) by {
            if c.contains(sep) {
                let i = choose|i: int| 0 <= i < c.len() && c[i] == sep;
                assert(b[i] == sep);
            }
        }
        lemma_split_append(a, c, sep);
        assert((a + b).drop_last() =~= a + c);
        assert(b.last() != sep) by {
            assert(b.contains(b.last())) by {
                assert(b[b.len() - 1] == b.last());
            }
        }
        assert(split(a, sep).last() + b =~= (split(a, sep).last() + c).push(b.last()));
        assert(split(a + b, sep) =~= split(a, sep).update(
            split(a, sep).len() - 1,
            split(a, sep).last() + b,
        ));
    }
}

/// A rendered number denotes itself.
pub proof fn law_decimal_round_trip(n: nat)
    ensures
        decimal_value(decimal(n)) == n,
        all_digits(decimal(n)),
        decimal(n).len() >= 1,
    decreases n,
{
    reveal_with_fuel(decimal_value, 2);
    if n >= 10 {
        law_decimal_round_trip(n / 10);
        assert(decimal(n).drop_last() =~= decimal(n / 10));
    } else {
        assert(decimal(n).drop_last() =~= Seq::<char>::empty());
    }
}

/// The capitals A to Z have their lower-case forms 32 places on; every other character
/// is its own.
pub proof fn law_lower_case(s: Seq<char>, i: int)
    requires
        0 <= i < s.len(),
    ensures
        lower(s).len() == s.len(),
        65 <= s[i] as u32 <= 90 ==> lower(s)[i] as u32 == s[i] as u32 + 32,
        !(65 <= s[i] as u32 <= 90) ==> lower(s)[i] == s[i],
        lower(lower(s)) == lower(s),
        is_ascii_chars(s) ==> lowercase(s) == lower(s),
{
    assert(lower(lower(s)) =~= lower(s));
}

/// The letters a to z have their upper-case forms 32 places before; every other ASCII
/// character is its own.
pub proof fn law_upper_case(s: Seq<char>, i: int)
    requires
        is_ascii_chars(s),
        0 <= i < s.len(),
    ensures
        uppercase(s).len() == s.len(),
        97 <= s[i] as u32 <= 122 ==> uppercase(s)[i] as u32 == s[i] as u32 - 32,
        !(97 <= s[i] as u32 <= 122) ==> uppercase(s)[i] == s[i],
{
}

/// A number is what its digits tell, with or without a plus sign; anything else is none.
pub proof fn law_number_is_read(n: nat, s: Seq<char>)
    ensures
        parse_value(decimal(n)) == Some(n),
        parse_value(seq!['+'] + decimal(n)) == Some(n),
        parse_value(s) is Some ==> s.len() > 0 && forall|i: int|
            0 < i < s.len() ==> 48 <= #[trigger] s[i] as u32 <= 57,
        parse_value(s) is Some ==> s[0] == '+' || 48 <= s[0] as u32 <= 57,
{
    law_decimal_round_trip(n);
    assert((seq!['+'] + decimal(n)).skip(1) =~= decimal(n));
    assert(is_digit(decimal(n)[0]));
    if parse_value(s) is Some {
        if s[0] == '+' {
            assert forall|i: int| 0 < i < s.len() implies 48 <= #[trigger] s[i] as u32 <= 57 by {
                assert(is_digit(s.skip(1)[i - 1]));
            }
        } else {
            assert(is_digit(s[0]));
        }
    }
}

/// Pieces that are put together have one separator between each two of them, and none
/// before or behind them.
pub proof fn law_pieces_put_together(parts: Seq<Seq<char>>, a: Seq<char>, b: Seq<char>, sep: char)
    ensures
        join(Seq::empty(), sep) == Seq::<char>::empty(),
        join(seq![a], sep) == a,
        join(seq![a, b], sep) == a + seq![sep] + b,
        parts.len() > 0 ==> join(parts.push(b), sep) == join(parts, sep) + seq![sep] + b,
{
    assert(seq![a, b].drop_last() =~= seq![a]);
    assert(join(seq![a], sep) == a);
    assert(seq![a, b].last() == b);
    assert(join(seq![a, b], sep) =~= a + seq![sep] + b);
    assert(parts.push(b).drop_last() =~= parts);
    if parts.len() > 0 {
        assert(join(parts.push(b), sep) =~= join(parts, sep) + seq![sep] + b);
    }
}

} // verus!
