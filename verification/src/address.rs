//! Account addresses and their hexadecimal text.

use vstd::prelude::*;
use crate::ascii::{DIGIT_0, DIGIT_9, LOWER_A, LOWER_F, LOWER_X, UPPER_A, UPPER_F};

verus! {

/// The number of bytes in an account address.
pub const ADDRESS_LENGTH: usize = 32;

/// An account address: 32 bytes, most significant first.
#[derive(Clone, Copy, Debug, PartialEq, Eq)]
pub struct AccountAddress {
    pub bytes: [u8; 32],
}

impl View for AccountAddress {
    type V = Seq<u8>;

    open spec fn view(&self) -> Seq<u8> {
        self.bytes@
    }
}

/// The value of a hexadecimal digit, in either case.
pub open spec fn hex_digit(c: u8) -> Option<u8> {
    if DIGIT_0 <= c <= DIGIT_9 {
        Some((c - DIGIT_0) as u8)
    } else if LOWER_A <= c <= LOWER_F {
        Some((c - LOWER_A + 10) as u8)
    } else if UPPER_A <= c <= UPPER_F {
        Some((c - UPPER_A + 10) as u8)
    } else {
        None
    }
}

/// Whether every byte is a hexadecimal digit.
pub open spec fn is_hex_text(s: Seq<u8>) -> bool {
    forall|i: int| 0 <= i < s.len() ==> (#[trigger] hex_digit(s[i])).is_some()
}

/// Whether the text starts with `0x`.
pub open spec fn has_hex_prefix(s: Seq<u8>) -> bool {
    s.len() >= 2 && s[0] == DIGIT_0 && s[1] == LOWER_X
}

/// The digits of an address text: the text without its `0x`, if it has one.
pub open spec fn address_digits(s: Seq<u8>) -> Seq<u8> {
    if has_hex_prefix(s) {
        s.skip(2)
    } else {
        s
    }
}

/// Whether the text names an address: one to 64 hexadecimal digits, with or
/// without `0x` before them.
pub open spec fn is_address_text(s: Seq<u8>) -> bool {
    let d = address_digits(s);
    1 <= d.len() <= 64 && is_hex_text(d)
}

/// The `k`-th of the 64 half-bytes that the digits `d` stand for, zeros
/// filling up from the left.
pub open spec fn padded_nibble(d: Seq<u8>, k: int) -> u8 {
    let missing = 64 - d.len();
    if k < missing {
        0
    } else {
        match hex_digit(d[k - missing]) {
            Some(n) => n,
            None => 0,
        }
    }
}

/// The 32 bytes that an address text stands for.
pub open spec fn address_of_text(s: Seq<u8>) -> Seq<u8> {
    let d = address_digits(s);
    Seq::new(32, |i: int| (16 * padded_nibble(d, 2 * i) + padded_nibble(d, 2 * i + 1)) as u8)
}

/// The value of a hexadecimal digit.
pub fn hex_digit_value(c: u8) -> (res: Option<u8>)
    ensures
        res == hex_digit(c),
{
    if DIGIT_0 <= c && c <= DIGIT_9 {
        Some(c - DIGIT_0)
    } else if LOWER_A <= c && c <= LOWER_F {
        Some(c - LOWER_A + 10)
    } else if UPPER_A <= c && c <= UPPER_F {
        Some(c - UPPER_A + 10)
    } else {
        None
    }
}

/// Whether `text` starts with `0x`.
pub fn starts_with_hex_prefix(text: &[u8]) -> (res: bool)
    ensures
        res == has_hex_prefix(text@),
{
    text.len() >= 2 && text[0] == DIGIT_0 && text[1] == LOWER_X
}

/// Whether every byte of `text[from..]` is a hexadecimal digit.
pub fn all_hex_digits(text: &[u8], from: usize) -> (res: bool)
    requires
        from <= text.len(),
    ensures
        res == is_hex_text(text@.skip(from as int)),
{
    let mut i: usize = from;
    while i < text.len()
        invariant
            from <= i <= text.len(),
            forall|k: int| from <= k < i ==> (#[trigger] hex_digit(text[k])).is_some(),
        decreases text.len() - i,
    {
        if hex_digit_value(text[i]).is_none() {
            assert(text@.skip(from as int)[i - from] == text[i as int]);
            return false;
        }
        i = i + 1;
    }
    assert forall|k: int| 0 <= k < text@.skip(from as int).len() implies (#[trigger] hex_digit(
        text@.skip(from as int)[k],
    )).is_some() by {
        assert(text@.skip(from as int)[k] == text[from + k]);
    }
    true
}

/// The `k`-th of the 64 half-bytes that the digits `text[from..]` stand for.
fn nibble_at(text: &[u8], from: usize, k: usize) -> (res: u8)
    requires
        from <= text.len(),
        1 <= text.len() - from <= 64,
        is_hex_text(text@.skip(from as int)),
        k < 64,
    ensures
        res == padded_nibble(text@.skip(from as int), k as int),
        res < 16,
{
    let missing: usize = 64 - (text.len() - from);
    if k < missing {
        0
    } else {
        let c: u8 = text[from + (k - missing)];
        assert(text@.skip(from as int)[k - missing] == c);
        match hex_digit_value(c) {
            Some(n) => n,
            None => 0,
        }
    }
}

impl AccountAddress {
    /// The address that `text` names, if it names one.
    pub fn from_hex(text: &[u8]) -> (res: Option<AccountAddress>)
        ensures
            res.is_some() == is_address_text(text@),
            res matches Some(a) ==> a@ == address_of_text(text@),
    {
        let from: usize = if starts_with_hex_prefix(text) { 2 } else { 0 };
        assert(text@.skip(from as int) =~= address_digits(text@));
        let count: usize = text.len() - from;
        if count == 0 || count > 64 {
            return None;
        }
        if !all_hex_digits(text, from) {
            return None;
        }
        let mut bytes: [u8; 32] = [0u8; 32];
        let mut i: usize = 0;
        while i < 32
            invariant
                i <= 32,
                from <= text.len(),
                1 <= text.len() - from <= 64,
                is_hex_text(text@.skip(from as int)),
                forall|k: int| 0 <= k < i ==> bytes[k] == address_of_text(text@)[k],
                text@.skip(from as int) == address_digits(text@),
            decreases 32 - i,
        {
            let high: u8 = nibble_at(text, from, 2 * i);
            let low: u8 = nibble_at(text, from, 2 * i + 1);
            bytes[i] = high * 16 + low;
            i = i + 1;
        }
        assert(bytes@ =~= address_of_text(text@));
        Some(AccountAddress { bytes })
    }
}

} // verus!
