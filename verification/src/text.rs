//! Names as text: UTF-8, trailing white space, decimal numbers.

use vstd::prelude::*;
use vstd::utf8::{
    decode_utf8, decode_utf8_encode_utf8, encode_scalar, encode_utf8, encode_utf8_decode_utf8,
    encode_utf8_valid_utf8, valid_utf8,
};

verus! {

/// The characters with the Unicode property `White_Space`.
pub open spec fn is_white_space(c: char) -> bool {
    let v = c as u32;
    ||| 0x09 <= v <= 0x0D
    ||| v == 0x20
    ||| v == 0x85
    ||| v == 0xA0
    ||| v == 0x1680
    ||| 0x2000 <= v <= 0x200A
    ||| v == 0x2028
    ||| v == 0x2029
    ||| v == 0x202F
    ||| v == 0x205F
    ||| v == 0x3000
}

/// `s` without the white space at its end.
pub open spec fn trimmed(s: Seq<char>) -> Seq<char>
    decreases s.len(),
{
    if s.len() > 0 && is_white_space(s.last()) {
        trimmed(s.drop_last())
    } else {
        s
    }
}

/// The character of the decimal digit `d`.
pub open spec fn digit(d: int) -> char
    recommends
        0 <= d <= 9,
{
    ((48 + d) as u8) as char
}

/// `n` in decimal, without leading zeros.
pub open spec fn decimal(n: nat) -> Seq<char>
    decreases n,
{
    if n < 10 {
        seq![digit(n as int)]
    } else {
        decimal(n / 10).push(digit((n % 10) as int))
    }
}

/// The line feed, as a character.
pub open spec fn line_feed() -> char {
    '\n'
}

/// A name that the reader gives back as it was written: it holds no line
/// feed and does not end in white space.
pub open spec fn keeps(name: Seq<char>) -> bool {
    !name.contains(line_feed()) && trimmed(name) == name
}

/// No byte of `bytes` is a line feed.
pub open spec fn has_no_line_feed(bytes: Seq<u8>) -> bool {
    forall|k: int| 0 <= k < bytes.len() ==> #[trigger] bytes[k] != 0x0Au8
}

/// No byte of `bytes` but, at most, the last is a line feed.
pub open spec fn is_one_line(bytes: Seq<u8>) -> bool {
    forall|k: int| 0 <= k < bytes.len() - 1 ==> #[trigger] bytes[k] != 0x0Au8
}

/// Text is encoded piece by piece.
pub proof fn lemma_encode_concat(a: Seq<char>, b: Seq<char>)
    ensures
        encode_utf8(a + b) == encode_utf8(a) + encode_utf8(b),
    decreases a.len(),
{
    if a.len() == 0 {
        assert(a + b =~= b);
        assert(encode_utf8(a) + encode_utf8(b) =~= encode_utf8(b));
    } else {
        lemma_encode_concat(a.drop_first(), b);
        assert((a + b).drop_first() =~= a.drop_first() + b);
        assert(encode_utf8(a + b) =~= encode_utf8(a) + encode_utf8(b));
    }
}

/// A character is encoded in at least one byte, and only the line feed is
/// encoded with the byte `0A`.
pub proof fn lemma_encode_scalar_bytes(c: char)
    ensures
        encode_scalar(c as u32).len() >= 1,
        c != line_feed() ==> has_no_line_feed(encode_scalar(c as u32)),
        c == line_feed() ==> encode_scalar(c as u32) == seq![0x0Au8],
{
    let v = c as u32;
    assert(v <= 0x7F ==> (v & 0x7F) as u8 == v) by (bit_vector);
    assert(forall|x: u8| #![auto] (0x80u8 | x) != 0x0Au8 && (0xC0u8 | x) != 0x0Au8) by (bit_vector);
    assert(forall|x: u8| #![auto] (0xE0u8 | x) != 0x0Au8 && (0xF0u8 | x) != 0x0Au8) by (bit_vector);
    if c == line_feed() {
        assert(encode_scalar(v) =~= seq![0x0Au8]);
    }
}

/// Text without a line feed is encoded without the byte `0A`.
pub proof fn lemma_encode_no_line_feed(chars: Seq<char>)
    requires
        !chars.contains(line_feed()),
    ensures
        has_no_line_feed(encode_utf8(chars)),
    decreases chars.len(),
{
    if chars.len() > 0 {
        let rest = chars.drop_first();
        assert(chars[0] != line_feed());
        assert forall|c: char| rest.contains(c) implies chars.contains(c) by {
            let j = choose|j: int| 0 <= j < rest.len() && rest[j] == c;
            assert(chars[j + 1] == c);
        }
        lemma_encode_scalar_bytes(chars[0]);
        lemma_encode_no_line_feed(rest);
    }
}

/// A name that is kept, written as a line, is read back as that name: the
/// line is UTF-8, and trimming what it decodes to leaves the name.
pub proof fn lemma_line_of_name(name: Seq<char>)
    requires
        trimmed(name) == name,
    ensures
        encode_utf8(name.push(line_feed())) == encode_utf8(name).push(0x0Au8),
        valid_utf8(encode_utf8(name).push(0x0Au8)),
        trimmed(decode_utf8(encode_utf8(name).push(0x0Au8))) == name,
{
    let line = name.push(line_feed());
    lemma_encode_concat(name, seq![line_feed()]);
    lemma_encode_scalar_bytes(line_feed());
    assert(seq![line_feed()].drop_first() =~= Seq::<char>::empty());
    assert(encode_utf8(seq![line_feed()]) =~= seq![0x0Au8]) by {
        reveal_with_fuel(encode_utf8, 2);
    }
    assert(name + seq![line_feed()] =~= line);
    assert(encode_utf8(name) + seq![0x0Au8] =~= encode_utf8(name).push(0x0Au8));
    encode_utf8_valid_utf8(line);
    encode_utf8_decode_utf8(line);
    assert(line.drop_last() =~= name);
}

/// What trimming leaves: the beginning of the text, up to its last
/// character that is not white space. Trimming it again changes nothing.
pub proof fn lemma_trimmed(s: Seq<char>)
    ensures
        trimmed(s).len() <= s.len(),
        trimmed(s) == s.subrange(0, trimmed(s).len() as int),
        trimmed(s).len() > 0 ==> !is_white_space(trimmed(s).last()),
        trimmed(trimmed(s)) == trimmed(s),
    decreases s.len(),
{
    if s.len() > 0 && is_white_space(s.last()) {
        let rest = s.drop_last();
        lemma_trimmed(rest);
        assert(rest.subrange(0, trimmed(rest).len() as int) =~= s.subrange(
            0,
            trimmed(rest).len() as int,
        ));
    } else {
        assert(s =~= s.subrange(0, s.len() as int));
    }
}

/// Text that is not empty is encoded in at least one byte.
pub proof fn lemma_encode_not_empty(chars: Seq<char>)
    requires
        chars.len() > 0,
    ensures
        encode_utf8(chars).len() > 0,
{
    lemma_encode_scalar_bytes(chars[0]);
}

/// Text whose bytes hold no line feed before the last of them holds no
/// line feed before its last character.
pub proof fn lemma_line_feed_only_last(chars: Seq<char>, j: int)
    requires
        0 <= j < chars.len() - 1,
        is_one_line(encode_utf8(chars)),
    ensures
        chars[j] != line_feed(),
{
    if chars[j] == line_feed() {
        let before = chars.subrange(0, j);
        let after = chars.subrange(j + 1, chars.len() as int);
        let bytes = encode_utf8(chars);
        assert(chars =~= before + seq![line_feed()] + after);
        lemma_encode_concat(before + seq![line_feed()], after);
        lemma_encode_concat(before, seq![line_feed()]);
        lemma_encode_scalar_bytes(line_feed());
        assert(encode_utf8(seq![line_feed()]) =~= seq![0x0Au8]) by {
            reveal_with_fuel(encode_utf8, 2);
            assert(seq![line_feed()].drop_first() =~= Seq::<char>::empty());
        }
        lemma_encode_not_empty(after);
        let at = encode_utf8(before).len() as int;
        assert(bytes =~= encode_utf8(before) + seq![0x0Au8] + encode_utf8(after));
        assert(bytes[at] == 0x0Au8);
    }
}

/// A line that is read as a name gives a name that is kept: where no byte
/// of the line but the last is a line feed, what is left of the decoded
/// line after trimming holds no line feed and ends in no white space.
pub proof fn lemma_trimmed_line_is_kept(line: Seq<u8>)
    requires
        valid_utf8(line),
        is_one_line(line),
    ensures
        keeps(trimmed(decode_utf8(line))),
{
    let chars = decode_utf8(line);
    let name = trimmed(chars);
    decode_utf8_encode_utf8(line);
    lemma_trimmed(chars);
    assert forall|j: int| 0 <= j < name.len() implies name[j] != line_feed() by {
        assert(name[j] == chars[j]);
        if j == name.len() - 1 {
            assert(is_white_space(line_feed()));
        } else {
            lemma_line_feed_only_last(chars, j);
        }
    }
}

/// The last digit of a number and the digits before it.
pub proof fn lemma_decimal_shape(n: nat)
    ensures
        decimal(n).len() >= 1,
        decimal(n).last() == digit((n % 10) as int),
        n >= 10 ==> decimal(n).len() >= 2 && decimal(n).drop_last() == decimal(n / 10),
        n < 10 ==> decimal(n).len() == 1,
    decreases n,
{
    if n >= 10 {
        lemma_decimal_shape(n / 10);
        assert(decimal(n).drop_last() =~= decimal(n / 10));
    }
}

/// Two numbers with the same digits are the same number.
pub proof fn lemma_decimal_injective(a: nat, b: nat)
    requires
        decimal(a) == decimal(b),
    ensures
        a == b,
    decreases a,
{
    lemma_decimal_shape(a);
    lemma_decimal_shape(b);
    assert(digit((a % 10) as int) == digit((b % 10) as int));
    assert(a % 10 == b % 10) by {
        let x = (a % 10) as int;
        let y = (b % 10) as int;
        assert(((48 + x) as u8) as char == ((48 + y) as u8) as char);
        assert((((48 + x) as u8) as char) as u32 == 48 + x);
        assert((((48 + y) as u8) as char) as u32 == 48 + y);
    }
    if a >= 10 {
        assert(b >= 10);
        lemma_decimal_injective(a / 10, b / 10);
    }
}

/// `std::str::from_utf8`: the text that `bytes` encode, where they are
/// well-formed UTF-8, and nothing where they are not.
#[verifier::external_body]
pub(crate) fn utf8_str<'a>(bytes: &'a [u8]) -> (r: Option<&'a str>)
    ensures
        match r {
            Some(s) => valid_utf8(bytes@) && s@ == decode_utf8(bytes@),
            None => !valid_utf8(bytes@),
        },
{
    match std::str::from_utf8(bytes) {
        Ok(s) => Some(s),
        Err(_) => None,
    }
}

/// `str::trim_end`: `s` up to its last character that is not white space,
/// by the Unicode property `White_Space`.
#[verifier::external_body]
pub(crate) fn trim_end<'a>(s: &'a str) -> (r: &'a str)
    ensures
        r@ == trimmed(s@),
{
    s.trim_end()
}

/// `u128::to_string`: the decimal digits of `n`.
#[verifier::external_body]
pub(crate) fn decimal_string(n: u128) -> (r: String)
    ensures
        r@ == decimal(n as nat),
{
    n.to_string()
}

} // verus!
