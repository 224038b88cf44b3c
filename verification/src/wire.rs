//! The binary forms that every part of the format is built from: fixed-width
//! little-endian integers and length-prefixed byte strings.

use vstd::prelude::*;
use crate::bytes::{append_bytes, copy_range};
use crate::varint::{
    lemma_uleb_decoding_bounds, read_uleb, uleb_encoding, uleb_read, write_uleb,
};

verus! {

/// The `width` low bytes of `v`, least significant first.
pub open spec fn le_bytes(v: nat, width: nat) -> Seq<u8>
    decreases width,
{
    if width == 0 {
        Seq::empty()
    } else {
        seq![(v % 256) as u8] + le_bytes(v / 256, (width - 1) as nat)
    }
}

/// The integer that the bytes spell, least significant first.
pub open spec fn le_value(s: Seq<u8>) -> nat
    decreases s.len(),
{
    if s.len() == 0 {
        0
    } else {
        s[0] as nat + 256 * le_value(s.drop_first())
    }
}

/// 256 to the power `width`.
pub open spec fn byte_range(width: nat) -> nat
    decreases width,
{
    if width == 0 {
        1
    } else {
        256 * byte_range((width - 1) as nat)
    }
}

/// A byte string behind its length.
pub open spec fn length_prefixed(s: Seq<u8>) -> Seq<u8> {
    uleb_encoding(s.len()) + s
}

/// The length-prefixed byte string that starts at `pos`, with the index
/// after its last byte.
pub open spec fn bytes_decoding(s: Seq<u8>, pos: int) -> Option<(Seq<u8>, int)> {
    match uleb_read(s, pos) {
        Some((n, start)) => if start + n <= s.len() {
            Some((s.subrange(start as int, start + n), start + n))
        } else {
            None
        },
        None => None,
    }
}

/// The little-endian form has as many bytes as asked for.
pub proof fn lemma_le_bytes_len(v: nat, width: nat)
    ensures
        le_bytes(v, width).len() == width,
    decreases width,
{
    if width > 0 {
        lemma_le_bytes_len(v / 256, (width - 1) as nat);
    }
}

/// An integer that fits in `width` bytes is read back from its
/// little-endian form.
pub proof fn lemma_le_round_trip(v: nat, width: nat)
    requires
        v < byte_range(width),
    ensures
        le_value(le_bytes(v, width)) == v,
    decreases width,
{
    if width > 0 {
        let rest = le_bytes(v / 256, (width - 1) as nat);
        let all = le_bytes(v, width);
        assert(all.drop_first() =~= rest);
        assert(v / 256 < byte_range((width - 1) as nat)) by (nonlinear_arith)
            requires
                v < 256 * byte_range((width - 1) as nat),
        ;
        lemma_le_round_trip(v / 256, (width - 1) as nat);
        assert(v == v % 256 + 256 * (v / 256)) by (nonlinear_arith);
    }
}

/// Appends the `width` low bytes of `value`, least significant first.
pub fn write_le(out: &mut Vec<u8>, value: u128, width: usize)
    ensures
        final(out)@ == old(out)@ + le_bytes(value as nat, width as nat),
{
    let ghost before = out@;
    let mut v: u128 = value;
    let mut i: usize = 0;
    while i < width
        invariant
            i <= width,
            out@ + le_bytes(v as nat, (width - i) as nat) == before + le_bytes(
                value as nat,
                width as nat,
            ),
        decreases width - i,
    {
        let ghost prev = out@;
        let low: u8 = (v % 256) as u8;
        out.push(low);
        proof {
            assert(le_bytes(v as nat, (width - i) as nat) == seq![low] + le_bytes(
                (v / 256) as nat,
                (width - i - 1) as nat,
            ));
            assert(out@ + le_bytes((v / 256) as nat, (width - i - 1) as nat) =~= prev + le_bytes(
                v as nat,
                (width - i) as nat,
            ));
        }
        v = v / 256;
        i = i + 1;
    }
    assert(out@ + le_bytes(v as nat, 0) =~= out@);
}

/// The integer that up to sixteen bytes spell, least significant first.
pub fn read_le(bytes: &[u8]) -> (res: Option<u128>)
    ensures
        res.is_some() == (bytes@.len() <= 16),
        res matches Some(v) ==> v == le_value(bytes@),
{
    if bytes.len() > 16 {
        return None;
    }
    let mut v: u128 = 0;
    let mut i: usize = bytes.len();
    while i > 0
        invariant
            i <= bytes.len() <= 16,
            v == le_value(bytes@.skip(i as int)),
            v < byte_range((bytes.len() - i) as nat),
        decreases i,
    {
        i = i - 1;
        proof {
            let tail = bytes@.skip(i as int);
            assert(tail.drop_first() =~= bytes@.skip(i + 1));
            lemma_byte_range_bound((bytes.len() - i - 1) as nat);
        }
        v = v * 256 + bytes[i] as u128;
    }
    assert(bytes@.skip(0) =~= bytes@);
    Some(v)
}

/// Fifteen bytes or fewer spell an integer below 2 to the 120.
proof fn lemma_byte_range_bound(width: nat)
    requires
        width <= 15,
    ensures
        byte_range(width) <= 0x1_00_0000_0000_0000_0000_0000_0000_0000,
    decreases width,
{
    reveal_with_fuel(byte_range, 16);
}

/// Appends `s` behind its length.
pub fn write_length_prefixed(out: &mut Vec<u8>, s: &[u8])
    ensures
        final(out)@ == old(out)@ + length_prefixed(s@),
{
    let ghost before = out@;
    write_uleb(out, s.len() as u64);
    append_bytes(out, s);
    assert(out@ =~= before + length_prefixed(s@));
}

/// Reads the length-prefixed byte string that starts at `pos`.
pub fn read_length_prefixed(bytes: &[u8], pos: usize) -> (res: Option<(Vec<u8>, usize)>)
    ensures
        match bytes_decoding(bytes@, pos as int) {
            Some((s, next)) => res matches Some((v, n)) && v@ == s && n == next && pos < n
                <= bytes@.len(),
            None => res.is_none(),
        },
{
    match read_uleb(bytes, pos) {
        Some((n, start)) => {
            proof {
                lemma_uleb_decoding_bounds(bytes@, pos as int);
            }
            if n > (bytes.len() - start) as u64 {
                return None;
            }
            let end: usize = start + n as usize;
            Some((copy_range(bytes, start, end), end))
        },
        None => None,
    }
}

} // verus!
