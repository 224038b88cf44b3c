//! The ASCII characters that the text grammars name.

use vstd::prelude::*;

verus! {

/// `0`
pub const DIGIT_0: u8 = 48;

/// `9`
pub const DIGIT_9: u8 = 57;

/// `A`
pub const UPPER_A: u8 = 65;

/// `F`
pub const UPPER_F: u8 = 70;

/// `Z`
pub const UPPER_Z: u8 = 90;

/// `a`
pub const LOWER_A: u8 = 97;

/// `f`
pub const LOWER_F: u8 = 102;

/// `x`
pub const LOWER_X: u8 = 120;

/// `:`
pub const COLON: u8 = 58;

/// `,`
pub const COMMA: u8 = 44;

/// `[`
pub const OPEN_BRACKET: u8 = 91;

/// `]`
pub const CLOSE_BRACKET: u8 = 93;

/// `<`
pub const OPEN_ANGLE: u8 = 60;

/// `>`
pub const CLOSE_ANGLE: u8 = 62;

/// The lower-case form of an ASCII letter; any other byte unchanged.
pub open spec fn lower(c: u8) -> u8 {
    if UPPER_A <= c <= UPPER_Z {
        (c + 32) as u8
    } else {
        c
    }
}

/// The text with every ASCII letter in lower case.
pub open spec fn lowered(s: Seq<u8>) -> Seq<u8> {
    Seq::new(s.len(), |i: int| lower(s[i]))
}

/// The lower-case form of an ASCII letter; any other byte unchanged.
pub fn to_lower(c: u8) -> (res: u8)
    ensures
        res == lower(c),
{
    if UPPER_A <= c && c <= UPPER_Z {
        c + 32
    } else {
        c
    }
}

/// Whether `text`, letters taken in lower case, is `word`.
pub fn equals_ignoring_case(text: &[u8], word: &[u8]) -> (res: bool)
    ensures
        res == (lowered(text@) == word@),
{
    if text.len() != word.len() {
        return false;
    }
    let mut i: usize = 0;
    while i < text.len()
        invariant
            i <= text.len(),
            text.len() == word.len(),
            forall|k: int| 0 <= k < i ==> lower(text[k]) == word[k],
        decreases text.len() - i,
    {
        if to_lower(text[i]) != word[i] {
            assert(lowered(text@)[i as int] != word[i as int]);
            return false;
        }
        i = i + 1;
    }
    assert(lowered(text@) =~= word@);
    true
}

} // verus!
