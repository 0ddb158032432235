//! Hexadecimal text: what it means, and the calls that produce and read it.

use vstd::prelude::*;

verus! {

/// `c` is one of `0`..`9`, `a`..`f`.
pub open spec fn is_lower_hex(c: char) -> bool {
    ('0' <= c <= '9') || ('a' <= c <= 'f')
}

/// `c` is a hexadecimal digit of either case.
pub open spec fn is_hex(c: char) -> bool {
    is_lower_hex(c) || ('A' <= c <= 'F')
}

/// The lowercase form of a hexadecimal digit; any other character is left as
/// it is.
pub open spec fn lower(c: char) -> char {
    if 'A' <= c <= 'F' {
        (c as int + 32) as char
    } else {
        c
    }
}

/// The text with its hexadecimal digits in lowercase.
pub open spec fn lowercase(text: Seq<char>) -> Seq<char> {
    Seq::new(text.len(), |i: int| lower(text[i]))
}

/// The lowercase digit that stands for `n`, for `n` below sixteen.
pub open spec fn hex_digit(n: int) -> char {
    if n < 10 {
        (n + 48) as char
    } else {
        (n + 87) as char
    }
}

/// The number that a hexadecimal digit stands for.
pub open spec fn hex_value(c: char) -> int {
    if '0' <= c <= '9' {
        c as int - 48
    } else if 'a' <= c <= 'f' {
        c as int - 87
    } else {
        c as int - 55
    }
}

/// Two lowercase digits for each byte, the high half first.
pub open spec fn hex_text(bytes: Seq<u8>) -> Seq<char> {
    Seq::new(
        2 * bytes.len(),
        |i: int|
            hex_digit(
                if i % 2 == 0 {
                    bytes[i / 2] as int / 16
                } else {
                    bytes[i / 2] as int % 16
                },
            ),
    )
}

/// An even number of hexadecimal digits.
pub open spec fn is_hex_text(text: Seq<char>) -> bool {
    &&& text.len() % 2 == 0
    &&& forall|i: int| 0 <= i < text.len() ==> is_hex(#[trigger] text[i])
}

/// An even number of lowercase hexadecimal digits.
pub open spec fn is_lower_hex_text(text: Seq<char>) -> bool {
    &&& text.len() % 2 == 0
    &&& forall|i: int| 0 <= i < text.len() ==> is_lower_hex(#[trigger] text[i])
}

/// One byte for each pair of digits.
pub open spec fn hex_bytes(text: Seq<char>) -> Seq<u8> {
    Seq::new(
        text.len() / 2,
        |i: int| (16 * hex_value(text[2 * i]) + hex_value(text[2 * i + 1])) as u8,
    )
}

/// The text of any bytes is lowercase hexadecimal, two digits a byte.
pub proof fn lemma_hex_text_is_lower(bytes: Seq<u8>)
    ensures
        hex_text(bytes).len() == 2 * bytes.len(),
        is_lower_hex_text(hex_text(bytes)),
{
    assert forall|i: int| 0 <= i < hex_text(bytes).len() implies is_lower_hex(
        #[trigger] hex_text(bytes)[i],
    ) by {
        let b = bytes[i / 2] as int;
        assert(0 <= b / 16 < 16 && 0 <= b % 16 < 16);
    }
}

/// Reading the text of some bytes gives the bytes back.
pub proof fn lemma_hex_bytes_of_text(bytes: Seq<u8>)
    ensures
        hex_bytes(hex_text(bytes)) == bytes,
{
    let text = hex_text(bytes);
    assert forall|i: int| 0 <= i < bytes.len() implies hex_bytes(text)[i] == bytes[i] by {
        let b = bytes[i] as int;
        assert((2 * i) / 2 == i && (2 * i) % 2 == 0);
        assert((2 * i + 1) / 2 == i && (2 * i + 1) % 2 == 1);
        assert(0 <= b / 16 < 16 && 0 <= b % 16 < 16);
        assert(hex_value(hex_digit(b / 16)) == b / 16);
        assert(hex_value(hex_digit(b % 16)) == b % 16);
        assert(16 * (b / 16) + b % 16 == b);
    }
    assert(hex_bytes(text) =~= bytes);
}

/// A digit stands for a number below sixteen, whose digit is its lowercase
/// form.
pub proof fn lemma_digit_of_value(c: char)
    requires
        is_hex(c),
    ensures
        0 <= hex_value(c) < 16,
        hex_digit(hex_value(c)) == lower(c),
        is_lower_hex(c) ==> lower(c) == c,
{
}

/// Writing out the bytes of a hexadecimal text gives the text back in
/// lowercase, and so gives a lowercase text back as it is.
pub proof fn lemma_hex_text_of_bytes(text: Seq<char>)
    requires
        is_hex_text(text),
    ensures
        hex_text(hex_bytes(text)) == lowercase(text),
        is_lower_hex_text(text) ==> hex_text(hex_bytes(text)) == text,
{
    let bytes = hex_bytes(text);
    assert(hex_text(bytes).len() == text.len());
    assert forall|i: int| 0 <= i < text.len() implies hex_text(bytes)[i] == lower(text[i]) by {
        let k = i / 2;
        let hi = hex_value(text[2 * k]);
        let lo = hex_value(text[2 * k + 1]);
        lemma_digit_of_value(text[2 * k]);
        lemma_digit_of_value(text[2 * k + 1]);
        let b = 16 * hi + lo;
        assert(bytes[k] as int == b);
        assert(b / 16 == hi && b % 16 == lo);
        if i % 2 == 0 {
            assert(i == 2 * k);
        } else {
            assert(i == 2 * k + 1);
        }
    }
    assert(hex_text(bytes) =~= lowercase(text));
    if is_lower_hex_text(text) {
        assert forall|i: int| 0 <= i < text.len() implies lower(text[i]) == text[i] by {
            lemma_digit_of_value(text[i]);
        }
        assert(lowercase(text) =~= text);
    }
}

/// `hex::FromHexError`, the error of `hex::decode`. Nothing is known of what
/// a value of it holds.
#[verifier::external_type_specification]
#[verifier::external_body]
pub struct ExFromHexError(::hex::FromHexError);

/// `hex::encode`: the lowercase hexadecimal text of `bytes`, two digits for
/// each byte with the high half first. Believed, not proved.
#[verifier::external_body]
pub(crate) fn encode_hex(bytes: &[u8]) -> (text: String)
    ensures
        text@ == hex_text(bytes@),
{
    ::hex::encode(bytes)
}

/// `hex::decode`: succeeds exactly on an even number of hexadecimal digits of
/// either case, and then gives one byte for each pair. Believed, not proved.
#[verifier::external_body]
pub(crate) fn decode_hex(text: &str) -> (res: Result<Vec<u8>, ::hex::FromHexError>)
    ensures
        res is Ok <==> is_hex_text(text@),
        res matches Ok(bytes) ==> bytes@ == hex_bytes(text@),
{
    ::hex::decode(text)
}

} // verus!
