//! The variable-length unsigned integer that prefixes every length and count.

use vstd::prelude::*;

verus! {

/// The encoding of `v`: seven bits to a byte, lowest group first, the top bit
/// set on every byte but the last.
pub open spec fn uleb_encoding(v: nat) -> Seq<u8>
    decreases v,
{
    if v < 128 {
        seq![v as u8]
    } else {
        seq![(v % 128 + 128) as u8] + uleb_encoding(v / 128)
    }
}

/// The integer that starts at `pos`, with the index after its last byte.
/// There is none where the bytes end before a byte without the top bit, or
/// where the highest group is zero in an encoding of more than one byte.
pub open spec fn uleb_decoding(s: Seq<u8>, pos: int) -> Option<(nat, int)>
    decreases s.len() - pos,
{
    if pos < 0 || pos >= s.len() {
        None
    } else if s[pos] < 128 {
        Some((s[pos] as nat, pos + 1))
    } else {
        match uleb_decoding(s, pos + 1) {
            Some((high, next)) => if high > 0 {
                Some(((s[pos] - 128 + 128 * high) as nat, next))
            } else {
                None
            },
            None => None,
        }
    }
}

/// What `read_uleb` returns: the decoding at `pos` where its value fits 64 bits.
pub open spec fn uleb_read(s: Seq<u8>, pos: int) -> Option<(u64, int)> {
    match uleb_decoding(s, pos) {
        Some((v, next)) => if v <= u64::MAX {
            Some((v as u64, next))
        } else {
            None
        },
        None => None,
    }
}

/// The decoding at `pos` seen from a later index `at`, when every byte in
/// between carries the top bit and contributes `acc` in all.
spec fn lifted(acc: nat, scale: nat, started: bool, tail: Option<(nat, int)>) -> Option<
    (nat, int),
> {
    match tail {
        Some((v, next)) => if started && v == 0 {
            None
        } else {
            Some((acc + scale * v, next))
        },
        None => None,
    }
}

/// A decoding ends inside the bytes and past its start.
pub proof fn lemma_uleb_decoding_bounds(s: Seq<u8>, pos: int)
    ensures
        match uleb_decoding(s, pos) {
            Some((v, next)) => 0 <= pos < next <= s.len(),
            None => true,
        },
    decreases s.len() - pos,
{
    if 0 <= pos < s.len() && s[pos] >= 128 {
        lemma_uleb_decoding_bounds(s, pos + 1);
    }
}

/// Appends the encoding of `value` to `out`.
pub fn write_uleb(out: &mut Vec<u8>, value: u64)
    ensures
        final(out)@ == old(out)@ + uleb_encoding(value as nat),
{
    let ghost before = out@;
    let mut v: u64 = value;
    while v >= 128
        invariant
            out@ + uleb_encoding(v as nat) == before + uleb_encoding(value as nat),
        decreases v,
    {
        let ghost prev = out@;
        let low: u8 = (v % 128 + 128) as u8;
        out.push(low);
        proof {
            assert(uleb_encoding(v as nat) == seq![low] + uleb_encoding((v / 128) as nat));
            assert(out@ + uleb_encoding((v / 128) as nat) =~= prev + uleb_encoding(v as nat));
        }
        v = v / 128;
    }
    let ghost prev = out@;
    out.push(v as u8);
    proof {
        assert(out@ =~= prev + uleb_encoding(v as nat));
    }
}

/// Reads the integer that starts at `pos`.
pub fn read_uleb(bytes: &[u8], pos: usize) -> (res: Option<(u64, usize)>)
    ensures
        match uleb_read(bytes@, pos as int) {
            Some((v, next)) => res == Some((v, next as usize)) && pos < next <= bytes@.len(),
            None => res.is_none(),
        },
{
    proof {
        lemma_uleb_decoding_bounds(bytes@, pos as int);
    }
    if pos >= bytes.len() {
        return None;
    }
    let mut i: usize = pos;
    let mut acc: u128 = 0;
    let mut scale: u128 = 1;
    while i < bytes.len() && scale < 0x1_0000_0000_0000_0000
        invariant
            pos <= i <= bytes.len(),
            1 <= scale < 0x80_0000_0000_0000_0000,
            acc < scale,
            i == pos ==> scale == 1,
            uleb_decoding(bytes@, pos as int) == lifted(
                acc as nat,
                scale as nat,
                i > pos,
                uleb_decoding(bytes@, i as int),
            ),
        decreases bytes.len() - i,
    {
        let b: u8 = bytes[i];
        if b < 128 {
            proof {
                lemma_uleb_decoding_bounds(bytes@, pos as int);
            }
            if i > pos && b == 0 {
                return None;
            }
            assert(scale * b <= scale * 127) by (nonlinear_arith)
                requires
                    b <= 127,
                    scale >= 0,
            ;
            let v: u128 = acc + scale * (b as u128);
            if v > u64::MAX as u128 {
                return None;
            }
            return Some((v as u64, i + 1));
        }
        proof {
            let group = (b - 128) as nat;
            let s = scale as nat;
            assert(s * group <= s * 127) by (nonlinear_arith)
                requires
                    group <= 127,
            ;
            match uleb_decoding(bytes@, i + 1) {
                Some((high, next)) => {
                    assert(s * (group + 128 * high) == s * group + s * 128 * high)
                        by (nonlinear_arith);
                },
                None => {},
            }
        }
        acc = acc + scale * ((b - 128) as u128);
        scale = scale * 128;
        i = i + 1;
    }
    proof {
        match uleb_decoding(bytes@, i as int) {
            Some((high, next)) => {
                if high >= 1 {
                    assert(scale * high >= scale) by (nonlinear_arith)
                        requires
                            high >= 1,
                            scale >= 0,
                    ;
                }
            },
            None => {},
        }
    }
    None
}

/// Reading back what was written gives the value, and ends where the
/// encoding ends, whatever follows it.
pub proof fn lemma_uleb_round_trip(s: Seq<u8>, pos: int, v: nat)
    requires
        0 <= pos,
        pos + uleb_encoding(v).len() <= s.len(),
        s.subrange(pos, pos + uleb_encoding(v).len()) == uleb_encoding(v),
    ensures
        uleb_decoding(s, pos) == Some((v, pos + uleb_encoding(v).len())),
    decreases v,
{
    let enc = uleb_encoding(v);
    assert(s[pos] == enc[0]);
    if v >= 128 {
        let rest = uleb_encoding(v / 128);
        assert(enc =~= seq![(v % 128 + 128) as u8] + rest);
        assert(s.subrange(pos + 1, pos + 1 + rest.len()) =~= rest) by {
            assert forall|k: int| 0 <= k < rest.len() implies s[pos + 1 + k] == rest[k] by {
                assert(s[pos + 1 + k] == enc[1 + k]);
            }
        }
        lemma_uleb_round_trip(s, pos + 1, v / 128);
    }
}

} // verus!
