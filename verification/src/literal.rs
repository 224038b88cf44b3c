//! Value literals: the text of a boolean, an integer, an address or a
//! vector of these, and the bytes it is coerced to.

use vstd::prelude::*;
use vstd::slice::slice_subrange;
use crate::address::{
    address_of_text, all_hex_digits, has_hex_prefix, hex_digit, hex_digit_value, is_address_text,
    is_hex_text, starts_with_hex_prefix, AccountAddress,
};
use crate::ascii::{
    equals_ignoring_case, lowered, CLOSE_BRACKET, DIGIT_0, DIGIT_9, OPEN_BRACKET,
};
use crate::bytes::append_bytes;
use crate::list::{pieces, ranges_within, split_list, split_ranges};
use crate::type_tag::{TypeModel, TypeTag};
use crate::varint::{uleb_encoding, write_uleb};
use crate::wire::{byte_range, le_bytes, write_le};

verus! {

/// Why a literal is no value of the type it was given for.
#[derive(Clone, Copy, Debug, PartialEq, Eq)]
pub enum ValueFault {
    /// Neither `true` nor `false`.
    InvalidBool,
    /// Neither decimal digits nor `0x` and hexadecimal digits.
    InvalidNumber,
    /// A number that the type cannot hold.
    OutOfRange,
    /// No address.
    InvalidAddress,
    /// Not enclosed in `[` and `]`.
    InvalidVector,
    /// A signer or a struct, which no literal stands for.
    UnsupportedType,
}

/// The word `true`.
pub open spec fn true_word() -> Seq<u8> {
    seq![116u8, 114u8, 117u8, 101u8]
}

/// The word `false`.
pub open spec fn false_word() -> Seq<u8> {
    seq![102u8, 97u8, 108u8, 115u8, 101u8]
}

/// The boolean that a text names, in any mix of cases.
pub open spec fn bool_of_text(s: Seq<u8>) -> Option<bool> {
    if lowered(s) == true_word() {
        Some(true)
    } else if lowered(s) == false_word() {
        Some(false)
    } else {
        None
    }
}

/// The value of a digit; 0 for any other byte.
pub open spec fn digit(c: u8) -> nat {
    match hex_digit(c) {
        Some(d) => d as nat,
        None => 0,
    }
}

/// The number that digits spell in a base, most significant first.
pub open spec fn radix_value(digits: Seq<u8>, base: nat) -> nat
    decreases digits.len(),
{
    if digits.len() == 0 {
        0
    } else {
        radix_value(digits.drop_last(), base) * base + digit(digits.last())
    }
}

/// Whether every byte is a decimal digit.
pub open spec fn is_decimal_text(s: Seq<u8>) -> bool {
    forall|i: int| 0 <= i < s.len() ==> DIGIT_0 <= #[trigger] s[i] <= DIGIT_9
}

/// The number that a text names: hexadecimal digits behind `0x`, or
/// decimal digits; at least one digit either way.
pub open spec fn number_of_text(s: Seq<u8>) -> Option<nat> {
    if has_hex_prefix(s) {
        if s.len() > 2 && is_hex_text(s.skip(2)) {
            Some(radix_value(s.skip(2), 16))
        } else {
            None
        }
    } else if s.len() > 0 && is_decimal_text(s) {
        Some(radix_value(s, 10))
    } else {
        None
    }
}

/// The bytes of an integer literal for a type of `width` bytes.
pub open spec fn integer_encoding(s: Seq<u8>, width: nat) -> Result<Seq<u8>, ValueFault> {
    match number_of_text(s) {
        Some(v) => if v < byte_range(width) {
            Ok(le_bytes(v, width))
        } else {
            Err(ValueFault::OutOfRange)
        },
        None => Err(ValueFault::InvalidNumber),
    }
}

/// The bytes of a boolean literal.
pub open spec fn bool_encoding(s: Seq<u8>) -> Result<Seq<u8>, ValueFault> {
    match bool_of_text(s) {
        Some(b) => Ok(seq![if b { 1u8 } else { 0u8 }]),
        None => Err(ValueFault::InvalidBool),
    }
}

/// The bytes of an address literal.
pub open spec fn address_encoding(s: Seq<u8>) -> Result<Seq<u8>, ValueFault> {
    if is_address_text(s) {
        Ok(address_of_text(s))
    } else {
        Err(ValueFault::InvalidAddress)
    }
}

/// More digits never spell a smaller number.
pub proof fn lemma_radix_value_grows(digits: Seq<u8>, base: nat, k: int)
    requires
        base >= 1,
        0 <= k <= digits.len(),
    ensures
        radix_value(digits.take(k), base) <= radix_value(digits, base),
    decreases digits.len() - k,
{
    if k == digits.len() {
        assert(digits.take(k) =~= digits);
    } else {
        assert(digits.drop_last().take(k) =~= digits.take(k));
        lemma_radix_value_grows(digits.drop_last(), base, k);
        assert(radix_value(digits.drop_last(), base) * base >= radix_value(
            digits.drop_last(),
            base,
        )) by (nonlinear_arith)
            requires
                base >= 1,
        ;
    }
}

/// One, eight and sixteen bytes hold what `u8`, `u64` and `u128` hold.
pub proof fn lemma_byte_ranges()
    ensures
        byte_range(1) == u8::MAX + 1,
        byte_range(8) == u64::MAX + 1,
        byte_range(16) == u128::MAX + 1,
{
    reveal_with_fuel(byte_range, 17);
}

/// Whether every byte of `text` is a decimal digit.
pub fn all_decimal_digits(text: &[u8]) -> (res: bool)
    ensures
        res == is_decimal_text(text@),
{
    let mut i: usize = 0;
    while i < text.len()
        invariant
            i <= text.len(),
            forall|k: int| 0 <= k < i ==> DIGIT_0 <= #[trigger] text[k] <= DIGIT_9,
        decreases text.len() - i,
    {
        if text[i] < DIGIT_0 || text[i] > DIGIT_9 {
            return false;
        }
        i = i + 1;
    }
    true
}

/// The number that `text` names, where it is at most `max`.
pub fn parse_number(text: &[u8], max: u128) -> (res: Result<u128, ValueFault>)
    ensures
        match number_of_text(text@) {
            Some(v) => if v <= max {
                res == Ok::<u128, ValueFault>(v as u128)
            } else {
                res == Err::<u128, ValueFault>(ValueFault::OutOfRange)
            },
            None => res == Err::<u128, ValueFault>(ValueFault::InvalidNumber),
        },
{
    let hex: bool = starts_with_hex_prefix(text);
    let from: usize = if hex { 2 } else { 0 };
    let base: u128 = if hex { 16 } else { 10 };
    if text.len() == from {
        return Err(ValueFault::InvalidNumber);
    }
    if hex {
        if !all_hex_digits(text, from) {
            return Err(ValueFault::InvalidNumber);
        }
    } else {
        if !all_decimal_digits(text) {
            return Err(ValueFault::InvalidNumber);
        }
    }
    let ghost digits = text@.skip(from as int);
    assert(!hex ==> digits =~= text@);
    assert(number_of_text(text@) == Some(radix_value(digits, base as nat)));
    let mut acc: u128 = 0;
    let mut i: usize = from;
    assert(digits.take(0) =~= Seq::<u8>::empty());
    while i < text.len()
        invariant
            from <= i <= text.len(),
            digits == text@.skip(from as int),
            base == 10 || base == 16,
            number_of_text(text@) == Some(radix_value(digits, base as nat)),
            acc == radix_value(digits.take(i - from), base as nat),
            acc <= max,
            forall|k: int| 0 <= k < digits.len() ==> (#[trigger] hex_digit(digits[k])).is_some(),
        decreases text.len() - i,
    {
        let c: u8 = text[i];
        assert(digits[i - from] == c);
        let d: u128 = match hex_digit_value(c) {
            Some(d) => d as u128,
            None => 0,
        };
        proof {
            let upto = digits.take(i - from + 1);
            assert(upto.drop_last() =~= digits.take(i - from));
            assert(upto.last() == c);
            assert(radix_value(upto, base as nat) == acc * base + d);
            lemma_radix_value_grows(digits, base as nat, i - from + 1);
        }
        if d > max {
            return Err(ValueFault::OutOfRange);
        }
        if acc > (max - d) / base {
            assert(acc * base > max - d) by (nonlinear_arith)
                requires
                    acc > (max - d) / (base as int),
                    base > 0,
                    max - d >= 0,
            ;
            return Err(ValueFault::OutOfRange);
        }
        assert(acc * base <= max - d) by (nonlinear_arith)
            requires
                acc <= (max - d) / (base as int),
                base > 0,
                max - d >= 0,
        ;
        acc = acc * base + d;
        i = i + 1;
    }
    assert(digits.take(digits.len() as int) =~= digits);
    Ok(acc)
}

/// The bytes of an integer literal for a type of `width` bytes that holds
/// numbers up to `max`.
fn encode_integer(text: &[u8], max: u128, width: usize) -> (res: Result<Vec<u8>, ValueFault>)
    requires
        max + 1 == byte_range(width as nat),
    ensures
        match integer_encoding(text@, width as nat) {
            Ok(bytes) => res matches Ok(v) && v@ == bytes,
            Err(e) => res matches Err(found) && found == e,
        },
{
    match parse_number(text, max) {
        Ok(v) => {
            let mut out: Vec<u8> = Vec::new();
            write_le(&mut out, v, width);
            assert(out@ =~= le_bytes(v as nat, width as nat));
            Ok(out)
        },
        Err(e) => Err(e),
    }
}

/// The bytes of a boolean literal.
pub fn encode_bool(text: &[u8]) -> (res: Result<Vec<u8>, ValueFault>)
    ensures
        match bool_encoding(text@) {
            Ok(bytes) => res matches Ok(v) && v@ == bytes,
            Err(e) => res matches Err(found) && found == e,
        },
{
    let yes: [u8; 4] = [116, 114, 117, 101];
    let no: [u8; 5] = [102, 97, 108, 115, 101];
    assert(yes@ =~= true_word());
    assert(no@ =~= false_word());
    let mut out: Vec<u8> = Vec::new();
    if equals_ignoring_case(text, yes.as_slice()) {
        out.push(1);
        Ok(out)
    } else if equals_ignoring_case(text, no.as_slice()) {
        out.push(0);
        Ok(out)
    } else {
        Err(ValueFault::InvalidBool)
    }
}

/// The bytes of an address literal.
pub fn encode_address(text: &[u8]) -> (res: Result<Vec<u8>, ValueFault>)
    ensures
        match address_encoding(text@) {
            Ok(bytes) => res matches Ok(v) && v@ == bytes,
            Err(e) => res matches Err(found) && found == e,
        },
{
    match AccountAddress::from_hex(text) {
        Some(address) => {
            let mut out: Vec<u8> = Vec::new();
            append_bytes(&mut out, address.bytes.as_slice());
            assert(out@ =~= address@);
            Ok(out)
        },
        None => Err(ValueFault::InvalidAddress),
    }
}

/// Whether literals can stand for values of the type: neither a signer nor
/// a struct, nor a vector of such.
pub open spec fn is_encodable(t: TypeModel) -> bool
    decreases t,
{
    match t {
        TypeModel::Signer => false,
        TypeModel::Struct { .. } => false,
        TypeModel::Vector(inner) => is_encodable(*inner),
        _ => true,
    }
}

/// Whether the text is enclosed in `[` and `]`.
pub open spec fn is_vector_text(s: Seq<u8>) -> bool {
    s.len() >= 2 && s[0] == OPEN_BRACKET && s[s.len() - 1] == CLOSE_BRACKET
}

/// The items of a vector literal: none where nothing stands between the
/// brackets, else what the commas outside inner brackets separate.
pub open spec fn vector_items(s: Seq<u8>) -> Seq<Seq<u8>> {
    let body = s.subrange(1, s.len() - 1);
    if body.len() == 0 {
        Seq::empty()
    } else {
        split_list(body, OPEN_BRACKET, CLOSE_BRACKET)
    }
}

/// The bytes that a literal is coerced to for a type, or why it cannot be.
pub open spec fn value_encoding(t: TypeModel, s: Seq<u8>) -> Result<Seq<u8>, ValueFault>
    decreases t, 0nat,
{
    match t {
        TypeModel::Bool => bool_encoding(s),
        TypeModel::U8 => integer_encoding(s, 1),
        TypeModel::U64 => integer_encoding(s, 8),
        TypeModel::U128 => integer_encoding(s, 16),
        TypeModel::Address => address_encoding(s),
        TypeModel::Signer => Err(ValueFault::UnsupportedType),
        TypeModel::Struct { .. } => Err(ValueFault::UnsupportedType),
        TypeModel::Vector(inner) => if !is_encodable(*inner) {
            Err(ValueFault::UnsupportedType)
        } else if !is_vector_text(s) {
            Err(ValueFault::InvalidVector)
        } else {
            match items_encoding(*inner, vector_items(s)) {
                Ok(bytes) => Ok(uleb_encoding(vector_items(s).len()) + bytes),
                Err(e) => Err(e),
            }
        },
    }
}

/// The bytes of the items of a vector, one after the other, or the fault of
/// the first item that has one.
pub open spec fn items_encoding(t: TypeModel, items: Seq<Seq<u8>>) -> Result<Seq<u8>, ValueFault>
    decreases t, items.len() + 1,
{
    if items.len() == 0 {
        Ok(Seq::empty())
    } else {
        match items_encoding(t, items.drop_last()) {
            Ok(head) => match value_encoding(t, items.last()) {
                Ok(bytes) => Ok(head + bytes),
                Err(e) => Err(e),
            },
            Err(e) => Err(e),
        }
    }
}

/// A fault among the first items is the fault of the whole.
pub proof fn lemma_items_fault_stays(t: TypeModel, items: Seq<Seq<u8>>, k: int)
    requires
        0 <= k <= items.len(),
        items_encoding(t, items.take(k)) is Err,
    ensures
        items_encoding(t, items) == items_encoding(t, items.take(k)),
    decreases items.len() - k,
{
    if k == items.len() {
        assert(items.take(k) =~= items);
    } else {
        assert(items.drop_last().take(k) =~= items.take(k));
        lemma_items_fault_stays(t, items.drop_last(), k);
    }
}

/// Whether literals can stand for values of the type.
pub fn supports_literals(tag: &TypeTag) -> (res: bool)
    ensures
        res == is_encodable(tag@),
    decreases tag,
{
    match tag {
        TypeTag::Signer => false,
        TypeTag::Struct { .. } => false,
        TypeTag::Vector(inner) => supports_literals(inner),
        _ => true,
    }
}

/// Coerces a literal to the bytes of a value of the type.
pub fn encode_value(tag: &TypeTag, text: &[u8]) -> (res: Result<Vec<u8>, ValueFault>)
    ensures
        match value_encoding(tag@, text@) {
            Ok(bytes) => res matches Ok(v) && v@ == bytes,
            Err(e) => res matches Err(found) && found == e,
        },
    decreases tag,
{
    proof {
        lemma_byte_ranges();
    }
    match tag {
        TypeTag::Bool => encode_bool(text),
        TypeTag::U8 => encode_integer(text, 0xff, 1),
        TypeTag::U64 => encode_integer(text, 0xffff_ffff_ffff_ffff, 8),
        TypeTag::U128 => encode_integer(text, 0xffff_ffff_ffff_ffff_ffff_ffff_ffff_ffff, 16),
        TypeTag::Address => encode_address(text),
        TypeTag::Signer => Err(ValueFault::UnsupportedType),
        TypeTag::Struct { .. } => Err(ValueFault::UnsupportedType),
        TypeTag::Vector(inner) => {
            if !supports_literals(inner) {
                return Err(ValueFault::UnsupportedType);
            }
            let len: usize = text.len();
            if len < 2 || text[0] != OPEN_BRACKET || text[len - 1] != CLOSE_BRACKET {
                return Err(ValueFault::InvalidVector);
            }
            let body: &[u8] = slice_subrange(text, 1, len - 1);
            let mut out: Vec<u8> = Vec::new();
            if body.len() == 0 {
                write_uleb(&mut out, 0);
                assert(out@ =~= uleb_encoding(0) + Seq::<u8>::empty());
                return Ok(out);
            }
            let ranges: Vec<(usize, usize)> = split_ranges(body, OPEN_BRACKET, CLOSE_BRACKET);
            let ghost items = vector_items(text@);
            let ghost element = inner@;
            write_uleb(&mut out, ranges.len() as u64);
            let ghost head = out@;
            assert(head =~= uleb_encoding(items.len()));
            let mut k: usize = 0;
            assert(items.take(0) =~= Seq::<Seq<u8>>::empty());
            while k < ranges.len()
                invariant
                    k <= ranges.len(),
                    element == inner@,
                    tag is Vector,
                    tag->Vector_0 == *inner,
                    items_encoding(element, items) is Err ==> value_encoding(tag@, text@)
                        == items_encoding(element, items),
                    items == pieces(body@, ranges@),
                    ranges_within(ranges@, body@.len() as int),
                    items_encoding(element, items.take(k as int)) is Ok,
                    out@ == head + items_encoding(element, items.take(k as int))->Ok_0,
                decreases ranges.len() - k,
            {
                let (from, to) = ranges[k];
                let item: &[u8] = slice_subrange(body, from, to);
                proof {
                    let upto = items.take(k + 1);
                    assert(upto.drop_last() =~= items.take(k as int));
                    assert(upto.last() == item@);
                }
                match encode_value(inner, item) {
                    Ok(bytes) => {
                        let ghost prev = out@;
                        append_bytes(&mut out, bytes.as_slice());
                        assert(out@ =~= head + items_encoding(element, items.take(k + 1))->Ok_0);
                    },
                    Err(e) => {
                        proof {
                            lemma_items_fault_stays(element, items, k + 1);
                        }
                        return Err(e);
                    },
                }
                k = k + 1;
            }
            assert(items.take(ranges.len() as int) =~= items);
            Ok(out)
        },
    }
}

} // verus!
