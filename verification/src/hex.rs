//! Byte strings as text: `0x` and two hexadecimal digits for each byte.

use vstd::prelude::*;
use crate::address::{
    all_hex_digits, has_hex_prefix, hex_digit, hex_digit_value, is_hex_text,
    starts_with_hex_prefix,
};
use crate::ascii::{DIGIT_0, LOWER_A, LOWER_X};
use crate::literal::digit;

verus! {

/// The digit for a half-byte, in lower case.
pub open spec fn hex_char(n: u8) -> u8 {
    if n < 10 {
        (DIGIT_0 + n) as u8
    } else {
        (LOWER_A + (n - 10)) as u8
    }
}

/// The text of a byte string: `0x`, then the two digits of each byte.
pub open spec fn hex_text(bytes: Seq<u8>) -> Seq<u8> {
    Seq::new(
        2 * bytes.len() + 2,
        |i: int|
            if i == 0 {
                DIGIT_0
            } else if i == 1 {
                LOWER_X
            } else if i % 2 == 0 {
                hex_char(bytes[(i - 2) / 2] / 16)
            } else {
                hex_char(bytes[(i - 2) / 2] % 16)
            },
    )
}

/// Whether the text is that of a byte string: `0x` and an even number of
/// hexadecimal digits, in either case.
pub open spec fn is_bytes_text(text: Seq<u8>) -> bool {
    has_hex_prefix(text) && text.len() % 2 == 0 && is_hex_text(text.skip(2))
}

/// The byte string that a text stands for.
pub open spec fn bytes_of_text(text: Seq<u8>) -> Seq<u8> {
    Seq::new(
        ((text.len() - 2) / 2) as nat,
        |i: int| (16 * digit(text[2 + 2 * i]) + digit(text[3 + 2 * i])) as u8,
    )
}

/// The text of a byte string.
pub fn encode_hex(bytes: &[u8]) -> (res: Vec<u8>)
    ensures
        res@ == hex_text(bytes@),
{
    let mut out: Vec<u8> = Vec::new();
    out.push(DIGIT_0);
    out.push(LOWER_X);
    let mut i: usize = 0;
    while i < bytes.len()
        invariant
            i <= bytes.len(),
            out@.len() == 2 * i + 2,
            forall|k: int| 0 <= k < out@.len() ==> out@[k] == hex_text(bytes@)[k],
        decreases bytes.len() - i,
    {
        let b: u8 = bytes[i];
        out.push(hex_char_of(b / 16));
        out.push(hex_char_of(b % 16));
        i = i + 1;
    }
    assert(out@ =~= hex_text(bytes@));
    out
}

/// The digit for a half-byte.
pub fn hex_char_of(n: u8) -> (res: u8)
    requires
        n < 16,
    ensures
        res == hex_char(n),
{
    if n < 10 {
        DIGIT_0 + n
    } else {
        LOWER_A + (n - 10)
    }
}

/// The byte string that a text stands for, if it stands for one.
pub fn decode_hex(text: &[u8]) -> (res: Option<Vec<u8>>)
    ensures
        res.is_some() == is_bytes_text(text@),
        res matches Some(bytes) ==> bytes@ == bytes_of_text(text@),
{
    if !starts_with_hex_prefix(text) || text.len() % 2 != 0 || !all_hex_digits(text, 2) {
        return None;
    }
    let count: usize = (text.len() - 2) / 2;
    let mut out: Vec<u8> = Vec::new();
    let mut i: usize = 0;
    while i < count
        invariant
            i <= count,
            count == (text.len() - 2) / 2,
            text.len() % 2 == 0,
            text.len() >= 2,
            is_hex_text(text@.skip(2)),
            out@.len() == i,
            forall|k: int| 0 <= k < i ==> out@[k] == bytes_of_text(text@)[k],
        decreases count - i,
    {
        let high_char: u8 = text[2 + 2 * i];
        let low_char: u8 = text[3 + 2 * i];
        assert(text@.skip(2)[2 * i] == high_char);
        assert(text@.skip(2)[2 * i + 1] == low_char);
        let high: u8 = match hex_digit_value(high_char) {
            Some(n) => n,
            None => 0,
        };
        let low: u8 = match hex_digit_value(low_char) {
            Some(n) => n,
            None => 0,
        };
        out.push(high * 16 + low);
        i = i + 1;
    }
    assert(out@ =~= bytes_of_text(text@));
    Some(out)
}

/// The text of a byte string stands for that byte string.
pub proof fn lemma_hex_round_trip(bytes: Seq<u8>)
    ensures
        is_bytes_text(hex_text(bytes)),
        bytes_of_text(hex_text(bytes)) == bytes,
{
    let text = hex_text(bytes);
    assert forall|n: u8| n < 16 implies #[trigger] hex_digit(hex_char(n)) == Some(n) by {}
    assert forall|k: int| 0 <= k < text.skip(2).len() implies (#[trigger] hex_digit(
        text.skip(2)[k],
    )).is_some() by {
        let b = bytes[k / 2];
        assert(text.skip(2)[k] == text[k + 2]);
        if k % 2 == 0 {
            assert(hex_digit(hex_char(b / 16)) == Some((b / 16) as u8));
        } else {
            assert(hex_digit(hex_char(b % 16)) == Some((b % 16) as u8));
        }
    }
    assert forall|i: int| 0 <= i < bytes.len() implies bytes_of_text(text)[i] == bytes[i] by {
        let b = bytes[i];
        assert(text[2 + 2 * i] == hex_char(b / 16));
        assert(text[3 + 2 * i] == hex_char(b % 16));
        assert(hex_digit(hex_char(b / 16)) == Some((b / 16) as u8));
        assert(hex_digit(hex_char(b % 16)) == Some((b % 16) as u8));
    }
    assert(bytes_of_text(text) =~= bytes);
}

} // verus!
