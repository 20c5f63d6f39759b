//! Strings as UTF-8: what the standard library's conversions return, and the
//! facts about UTF-8 that the rest of the library rests on.

use vstd::prelude::*;
use vstd::utf8::*;

verus! {

#[verifier::external_type_specification]
#[verifier::external_body]
pub struct ExUtf8Error(core::str::Utf8Error);

/// `core::str::from_utf8`: succeeds exactly on valid UTF-8, and the string it
/// returns is made of the bytes it was given.
pub assume_specification[ core::str::from_utf8 ](v: &[u8]) -> (r: Result<
    &str,
    core::str::Utf8Error,
>)
    ensures
        r is Ok <==> valid_utf8(v@),
        r matches Ok(s) ==> encode_utf8(s@) == v@,
;

/// `String::push`: appends one character.
pub assume_specification[ String::push ](s: &mut String, ch: char)
    ensures
        final(s)@ == old(s)@.push(ch),
;

/// `char::len_utf8`: the number of bytes of the character's UTF-8 encoding.
pub assume_specification[ char::len_utf8 ](c: char) -> (n: usize)
    ensures
        n == utf8_width(c),
;

/// The number of bytes that encode `c` in UTF-8: from 1 to 4.
pub open spec fn utf8_width(c: char) -> int {
    encode_scalar(c as u32).len() as int
}

/// The encoding of a concatenation is the concatenation of the encodings.
pub proof fn lemma_encode_concat(a: Seq<char>, b: Seq<char>)
    ensures
        encode_utf8(a + b) == encode_utf8(a) + encode_utf8(b),
    decreases a.len(),
{
    if a.len() == 0 {
        assert(a + b == b);
    } else {
        assert((a + b).drop_first() == a.drop_first() + b);
        lemma_encode_concat(a.drop_first(), b);
    }
}

/// The encoding of a single character.
pub proof fn lemma_encode_one(c: char)
    ensures
        encode_utf8(seq![c]) == encode_scalar(c as u32),
        1 <= utf8_width(c) <= 4,
{
    reveal_with_fuel(encode_utf8, 2);
    assert(seq![c].drop_first() == Seq::<char>::empty());
}

/// An ASCII character is encoded as the one byte of its number.
pub proof fn lemma_encode_ascii(c: char)
    requires
        (c as u32) < 128,
    ensures
        encode_utf8(seq![c]) == seq![c as u8],
{
    let chars = seq![c];
    assert(is_ascii_chars(chars));
    is_ascii_chars_encode_utf8(chars);
    assert(encode_utf8(chars)[0] == chars[0] as u8);
    assert(encode_utf8(chars) =~= seq![c as u8]);
}

/// The encoding of a character is either one byte below 128, which is the
/// character's number, or two to four bytes from 128 on.
pub proof fn lemma_scalar_bytes(c: char)
    ensures
        ({
            let bytes = encode_scalar(c as u32);
            ||| bytes.len() == 1 && bytes[0] < 128 && bytes[0] == c as u32
            ||| 2 <= bytes.len() <= 4 && forall|j: int|
                0 <= j < bytes.len() ==> #[trigger] bytes[j] >= 128
        }),
{
    let chars = seq![c];
    let bytes = encode_utf8(chars);
    lemma_encode_one(c);
    encode_utf8_first_scalar(chars);
    let first = bytes[0];
    if is_leading_byte_width_1(first) {
        assert(first & 0x7F == first) by (bit_vector)
            requires
                first <= 0x7F,
        ;
    }
}

/// A byte below 128 that is the number of no character of `chars` is no byte
/// of their encoding.
pub proof fn lemma_byte_absent(chars: Seq<char>, b: u8)
    requires
        b < 128,
        forall|i: int| 0 <= i < chars.len() ==> (#[trigger] chars[i]) as u32 != b,
    ensures
        forall|j: int| 0 <= j < encode_utf8(chars).len() ==> #[trigger] encode_utf8(chars)[j] != b,
    decreases chars.len(),
{
    if chars.len() > 0 {
        let rest = chars.drop_first();
        let head = encode_scalar(chars[0] as u32);
        lemma_scalar_bytes(chars[0]);
        assert forall|i: int| 0 <= i < rest.len() implies (#[trigger] rest[i]) as u32 != b by {
            assert(rest[i] == chars[i + 1]);
        }
        lemma_byte_absent(rest, b);
        assert forall|j: int| 0 <= j < encode_utf8(chars).len() implies #[trigger] encode_utf8(
            chars,
        )[j] != b by {
            if j < head.len() {
                assert(encode_utf8(chars)[j] == head[j]);
            } else {
                assert(encode_utf8(chars)[j] == encode_utf8(rest)[j - head.len()]);
            }
        }
    }
}

/// Bytes below 128 are valid UTF-8, one character each.
pub proof fn lemma_ascii_valid(bytes: Seq<u8>)
    requires
        forall|i: int| 0 <= i < bytes.len() ==> #[trigger] bytes[i] < 128,
    ensures
        valid_utf8(bytes),
    decreases bytes.len(),
{
    if bytes.len() > 0 {
        lemma_ascii_valid(pop_first_scalar(bytes));
    }
}

/// In valid UTF-8, the part between two places that each hold a byte below
/// 128, or are an end of the bytes, is valid UTF-8.
pub proof fn lemma_valid_between(bytes: Seq<u8>, from: int, to: int)
    requires
        valid_utf8(bytes),
        0 <= from <= to <= bytes.len(),
        from == 0 || bytes[from - 1] < 128,
        to == bytes.len() || bytes[to] < 128,
    ensures
        valid_utf8(bytes.subrange(from, to)),
{
    if to == bytes.len() {
        is_char_boundary_start_end_of_seq(bytes);
    } else {
        is_char_boundary_iff_is_leading_byte(bytes, to);
    }
    valid_utf8_split(bytes, to);
    let head = bytes.subrange(0, to);
    if from == 0 {
        assert(head.subrange(0, to) == head);
    } else if from == to {
        lemma_ascii_valid(bytes.subrange(from, to));
    } else {
        lemma_after_ascii_is_boundary(head, from);
        valid_utf8_split(head, from);
    }
    assert(head.subrange(from, to) == bytes.subrange(from, to));
}

/// In valid UTF-8, the place after a byte below 128 is a character boundary.
pub proof fn lemma_after_ascii_is_boundary(bytes: Seq<u8>, at: int)
    requires
        valid_utf8(bytes),
        0 < at <= bytes.len(),
        bytes[at - 1] < 128,
    ensures
        is_char_boundary(bytes, at),
    decreases bytes.len(),
{
    let n = length_of_first_scalar(bytes);
    assert(at >= n) by {
        if at < n {
            assert(bytes[at - 1] >= 128);
        }
    }
    if at == n {
        reveal_with_fuel(is_char_boundary, 2);
    } else {
        let rest = pop_first_scalar(bytes);
        assert(rest[at - n - 1] == bytes[at - 1]);
        lemma_after_ascii_is_boundary(rest, at - n);
    }
}

} // verus!
