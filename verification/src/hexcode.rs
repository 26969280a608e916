//! Bytes as hexadecimal text, two digits for each byte.

use vstd::prelude::*;

verus! {

/// The lower-case hexadecimal digit for `d`.
pub open spec fn hex_digit(d: int) -> char {
    if d < 10 {
        (0x30 + d) as u8 as char
    } else {
        (0x61 + d - 10) as u8 as char
    }
}

/// `bytes` in lower-case hexadecimal, two digits for each byte.
pub open spec fn hex_text(bytes: Seq<u8>) -> Seq<char> {
    Seq::new(
        2 * bytes.len(),
        |i: int|
            if i % 2 == 0 {
                hex_digit(bytes[i / 2] as int / 16)
            } else {
                hex_digit(bytes[i / 2] as int % 16)
            },
    )
}

/// `bytes` in lower-case hexadecimal.
///
/// Trusted: `hex::encode` writes each byte as two digits out of
/// `0123456789abcdef`, the high four bits first.
#[verifier::external_body]
pub(crate) fn hex_encode(bytes: &[u8]) -> (text: String)
    ensures
        text@ == hex_text(bytes@),
{
    hex::encode(bytes)
}

/// The value of a hexadecimal digit, or -1 for any other byte.
pub open spec fn hex_value(c: u8) -> int {
    if 0x30 <= c <= 0x39 {
        c - 0x30
    } else if 0x61 <= c <= 0x66 {
        c - 0x61 + 10
    } else if 0x41 <= c <= 0x46 {
        c - 0x41 + 10
    } else {
        -1
    }
}

/// `text` is made of pairs of hexadecimal digits.
pub open spec fn is_hex(text: Seq<u8>) -> bool {
    text.len() % 2 == 0 && forall|i: int| 0 <= i < text.len() ==> hex_value(#[trigger] text[i]) >= 0
}

/// The bytes that pairs of hexadecimal digits stand for.
pub open spec fn hex_bytes(text: Seq<u8>) -> Seq<u8> {
    Seq::new(
        text.len() / 2,
        |i: int| (hex_value(text[2 * i]) * 16 + hex_value(text[2 * i + 1])) as u8,
    )
}

/// The bytes that hexadecimal text stands for.
///
/// Trusted: `hex::decode` succeeds exactly on an even number of digits out
/// of `0-9`, `a-f` and `A-F`, and each pair gives one byte, the first digit
/// its high four bits.
#[verifier::external_body]
pub(crate) fn hex_decode(text: &[u8]) -> (bytes: Option<Vec<u8>>)
    ensures
        bytes is Some <==> is_hex(text@),
        bytes matches Some(b) ==> b@ == hex_bytes(text@),
{
    match hex::decode(text) {
        Ok(b) => Some(b),
        Err(_) => None,
    }
}

/// The bytes of text that is made of characters below 128.
pub open spec fn ascii_bytes(text: Seq<char>) -> Seq<u8> {
    Seq::new(text.len(), |i: int| text[i] as u8)
}

/// A hexadecimal digit stands for the value it was written for.
pub proof fn lemma_digit_round_trip(d: int)
    requires
        0 <= d < 16,
    ensures
        hex_value(hex_digit(d) as u8) == d,
        (hex_digit(d) as u32) < 128,
{
    if d < 10 {
        assert(hex_digit(d) == (0x30 + d) as u8 as char);
    } else {
        assert(hex_digit(d) == (0x61 + d - 10) as u8 as char);
    }
}

/// Reading bytes back from their hexadecimal text gives the bytes.
pub proof fn lemma_hex_round_trip(bytes: Seq<u8>)
    ensures
        is_hex(ascii_bytes(hex_text(bytes))),
        hex_bytes(ascii_bytes(hex_text(bytes))) == bytes,
{
    let text = ascii_bytes(hex_text(bytes));
    assert forall|i: int| 0 <= i < text.len() implies hex_value(#[trigger] text[i]) >= 0 by {
        let b = bytes[i / 2] as int;
        if i % 2 == 0 {
            lemma_digit_round_trip(b / 16);
        } else {
            lemma_digit_round_trip(b % 16);
        }
    }
    let back = hex_bytes(text);
    assert(back.len() == bytes.len());
    assert forall|k: int| 0 <= k < bytes.len() implies back[k] == bytes[k] by {
        let b = bytes[k] as int;
        lemma_digit_round_trip(b / 16);
        lemma_digit_round_trip(b % 16);
        assert((2 * k) % 2 == 0 && (2 * k) / 2 == k);
        assert((2 * k + 1) % 2 == 1 && (2 * k + 1) / 2 == k);
        assert(text[2 * k] == hex_digit(b / 16) as u8);
        assert(text[2 * k + 1] == hex_digit(b % 16) as u8);
    }
    assert(back =~= bytes);
}

} // verus!
