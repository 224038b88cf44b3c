//! The text of a type: `bool`, `u8`, `u64`, `u128`, `address`, `signer`,
//! `vector<T>`, or a struct `<address>::<module>::<name>` with or without
//! type arguments in angle brackets.

use vstd::prelude::*;
use vstd::slice::slice_subrange;
use crate::address::{address_of_text, is_address_text, AccountAddress};
use crate::ascii::{CLOSE_ANGLE, OPEN_ANGLE};
use crate::bytes::{bytes_equal, copy_range};
use crate::list::{pieces, ranges_within, split_list, split_ranges};
use crate::reference::{split_path, three_parts};
use crate::type_tag::{tag_models, TypeModel, TypeTag};

verus! {

/// The word `bool`.
pub open spec fn bool_word() -> Seq<u8> {
    seq![98u8, 111u8, 111u8, 108u8]
}

/// The word `u8`.
pub open spec fn u8_word() -> Seq<u8> {
    seq![117u8, 56u8]
}

/// The word `u64`.
pub open spec fn u64_word() -> Seq<u8> {
    seq![117u8, 54u8, 52u8]
}

/// The word `u128`.
pub open spec fn u128_word() -> Seq<u8> {
    seq![117u8, 49u8, 50u8, 56u8]
}

/// The word `address`.
pub open spec fn address_word() -> Seq<u8> {
    seq![97u8, 100u8, 100u8, 114u8, 101u8, 115u8, 115u8]
}

/// The word `signer`.
pub open spec fn signer_word() -> Seq<u8> {
    seq![115u8, 105u8, 103u8, 110u8, 101u8, 114u8]
}

/// What a vector type starts with: `vector<`.
pub open spec fn vector_word() -> Seq<u8> {
    seq![118u8, 101u8, 99u8, 116u8, 111u8, 114u8, 60u8]
}

/// Whether the text is `vector<`, something, and `>`.
pub open spec fn is_vector_type_text(s: Seq<u8>) -> bool {
    s.len() >= 8 && s.subrange(0, 7) == vector_word() && s[s.len() - 1] == CLOSE_ANGLE
}

/// Where the byte first stands at or after `from`; the length of the text
/// where it does not.
pub open spec fn first_index_of(s: Seq<u8>, b: u8, from: int) -> int
    decreases s.len() - from,
{
    if from < 0 || from >= s.len() {
        s.len() as int
    } else if s[from] == b {
        from
    } else {
        first_index_of(s, b, from + 1)
    }
}

/// The type that a text names, where it nests no deeper than `depth`.
pub open spec fn type_of_text(s: Seq<u8>, depth: nat) -> Option<TypeModel>
    decreases depth, 0nat, 0nat,
{
    if depth == 0 {
        None
    } else if s == bool_word() {
        Some(TypeModel::Bool)
    } else if s == u8_word() {
        Some(TypeModel::U8)
    } else if s == u64_word() {
        Some(TypeModel::U64)
    } else if s == u128_word() {
        Some(TypeModel::U128)
    } else if s == address_word() {
        Some(TypeModel::Address)
    } else if s == signer_word() {
        Some(TypeModel::Signer)
    } else if is_vector_type_text(s) {
        match type_of_text(s.subrange(7, s.len() - 1), (depth - 1) as nat) {
            Some(inner) => Some(TypeModel::Vector(Box::new(inner))),
            None => None,
        }
    } else {
        struct_of_text(s, (depth - 1) as nat)
    }
}

/// The struct type that a text names, where its type arguments nest no
/// deeper than `depth`.
pub open spec fn struct_of_text(s: Seq<u8>, depth: nat) -> Option<TypeModel>
    decreases depth, 2nat, 0nat,
{
    let angle = first_index_of(s, OPEN_ANGLE, 0);
    let parts = split_path(s.subrange(0, angle));
    if parts.len() != 3 || parts[1].len() == 0 || parts[2].len() == 0 || !is_address_text(
        parts[0],
    ) {
        None
    } else if angle >= s.len() {
        Some(
            TypeModel::Struct {
                address: address_of_text(parts[0]),
                module: parts[1],
                name: parts[2],
                type_args: Seq::empty(),
            },
        )
    } else if s[s.len() - 1] != CLOSE_ANGLE {
        None
    } else {
        match types_of_texts(
            split_list(s.subrange(angle + 1, s.len() - 1), OPEN_ANGLE, CLOSE_ANGLE),
            depth,
        ) {
            Some(type_args) => Some(
                TypeModel::Struct {
                    address: address_of_text(parts[0]),
                    module: parts[1],
                    name: parts[2],
                    type_args,
                },
            ),
            None => None,
        }
    }
}

/// The types that the texts name, if every one names a type.
pub open spec fn types_of_texts(items: Seq<Seq<u8>>, depth: nat) -> Option<Seq<TypeModel>>
    decreases depth, 1nat, items.len(),
{
    if items.len() == 0 {
        Some(Seq::empty())
    } else {
        match types_of_texts(items.drop_last(), depth) {
            Some(head) => match type_of_text(items.last(), depth) {
                Some(t) => Some(head.push(t)),
                None => None,
            },
            None => None,
        }
    }
}

/// Where one of the first texts names no type, the texts name no types.
pub proof fn lemma_types_missing_stays(items: Seq<Seq<u8>>, depth: nat, k: int)
    requires
        0 <= k <= items.len(),
        types_of_texts(items.take(k), depth) is None,
    ensures
        types_of_texts(items, depth) is None,
    decreases items.len() - k,
{
    if k == items.len() {
        assert(items.take(k) =~= items);
    } else {
        assert(items.drop_last().take(k) =~= items.take(k));
        lemma_types_missing_stays(items.drop_last(), depth, k);
    }
}

/// Finds where the byte first stands.
pub fn find_byte(text: &[u8], b: u8) -> (res: usize)
    ensures
        res == first_index_of(text@, b, 0),
        res <= text.len(),
        res < text.len() ==> text[res as int] == b,
{
    let mut i: usize = 0;
    while i < text.len()
        invariant
            i <= text.len(),
            first_index_of(text@, b, 0) == first_index_of(text@, b, i as int),
        decreases text.len() - i,
    {
        if text[i] == b {
            return i;
        }
        i = i + 1;
    }
    text.len()
}

/// Parses the text of a type that nests no deeper than `depth`.
pub fn parse_type_tag(text: &[u8], depth: usize) -> (res: Option<TypeTag>)
    ensures
        match type_of_text(text@, depth as nat) {
            Some(model) => res matches Some(tag) && tag@ == model,
            None => res.is_none(),
        },
    decreases depth, 0nat,
{
    if depth == 0 {
        return None;
    }
    let word_bool: [u8; 4] = [98, 111, 111, 108];
    let word_u8: [u8; 2] = [117, 56];
    let word_u64: [u8; 3] = [117, 54, 52];
    let word_u128: [u8; 4] = [117, 49, 50, 56];
    let word_address: [u8; 7] = [97, 100, 100, 114, 101, 115, 115];
    let word_signer: [u8; 6] = [115, 105, 103, 110, 101, 114];
    let word_vector: [u8; 7] = [118, 101, 99, 116, 111, 114, 60];
    proof {
        assert(word_bool@ =~= bool_word());
        assert(word_u8@ =~= u8_word());
        assert(word_u64@ =~= u64_word());
        assert(word_u128@ =~= u128_word());
        assert(word_address@ =~= address_word());
        assert(word_signer@ =~= signer_word());
        assert(word_vector@ =~= vector_word());
    }
    let len: usize = text.len();
    if bytes_equal(text, word_bool.as_slice()) {
        Some(TypeTag::Bool)
    } else if bytes_equal(text, word_u8.as_slice()) {
        Some(TypeTag::U8)
    } else if bytes_equal(text, word_u64.as_slice()) {
        Some(TypeTag::U64)
    } else if bytes_equal(text, word_u128.as_slice()) {
        Some(TypeTag::U128)
    } else if bytes_equal(text, word_address.as_slice()) {
        Some(TypeTag::Address)
    } else if bytes_equal(text, word_signer.as_slice()) {
        Some(TypeTag::Signer)
    } else if len >= 8 && text[len - 1] == CLOSE_ANGLE && bytes_equal(
        slice_subrange(text, 0, 7),
        word_vector.as_slice(),
    ) {
        match parse_type_tag(slice_subrange(text, 7, len - 1), depth - 1) {
            Some(inner) => Some(TypeTag::Vector(Box::new(inner))),
            None => None,
        }
    } else {
        parse_struct_tag(text, depth - 1)
    }
}

/// Parses the text of a struct type whose type arguments nest no deeper
/// than `depth`.
pub fn parse_struct_tag(text: &[u8], depth: usize) -> (res: Option<TypeTag>)
    ensures
        match struct_of_text(text@, depth as nat) {
            Some(model) => res matches Some(tag) && tag@ == model,
            None => res.is_none(),
        },
    decreases depth, 1nat,
{
    let len: usize = text.len();
    let angle: usize = find_byte(text, OPEN_ANGLE);
    let head: &[u8] = slice_subrange(text, 0, angle);
    let (first, second) = match three_parts(head) {
        Some(found) => found,
        None => {
            return None;
        },
    };
    if second == first + 2 || second + 2 == angle {
        return None;
    }
    let address = match AccountAddress::from_hex(slice_subrange(head, 0, first)) {
        Some(address) => address,
        None => {
            return None;
        },
    };
    let module: Vec<u8> = copy_range(head, first + 2, second);
    let name: Vec<u8> = copy_range(head, second + 2, angle);
    let mut type_args: Vec<TypeTag> = Vec::new();
    if angle >= len {
        let tag = TypeTag::Struct { address, module, name, type_args };
        assert(tag@->Struct_type_args =~= Seq::<TypeModel>::empty());
        return Some(tag);
    }
    if text[len - 1] != CLOSE_ANGLE {
        return None;
    }
    let body: &[u8] = slice_subrange(text, angle + 1, len - 1);
    let ranges: Vec<(usize, usize)> = split_ranges(body, OPEN_ANGLE, CLOSE_ANGLE);
    let ghost items = split_list(body@, OPEN_ANGLE, CLOSE_ANGLE);
    let mut k: usize = 0;
    assert(items.take(0) =~= Seq::<Seq<u8>>::empty());
    assert(tag_models(type_args@) =~= Seq::<TypeModel>::empty());
    while k < ranges.len()
        invariant
            k <= ranges.len(),
            items == pieces(body@, ranges@),
            ranges_within(ranges@, body@.len() as int),
            types_of_texts(items.take(k as int), depth as nat) == Some(tag_models(type_args@)),
            types_of_texts(items, depth as nat) is None ==> struct_of_text(text@, depth as nat)
                is None,
        decreases ranges.len() - k,
    {
        let (from, to) = ranges[k];
        let item: &[u8] = slice_subrange(body, from, to);
        proof {
            let upto = items.take(k + 1);
            assert(upto.drop_last() =~= items.take(k as int));
            assert(upto.last() == item@);
        }
        match parse_type_tag(item, depth) {
            Some(tag) => {
                let ghost done = tag_models(type_args@);
                type_args.push(tag);
                assert(tag_models(type_args@) =~= done.push(tag@));
            },
            None => {
                proof {
                    lemma_types_missing_stays(items, depth as nat, k + 1);
                }
                return None;
            },
        }
        k = k + 1;
    }
    assert(items.take(ranges.len() as int) =~= items);
    let tag = TypeTag::Struct { address, module, name, type_args };
    assert(tag@->Struct_type_args =~= tag_models(type_args@));
    Some(tag)
}

} // verus!
