//! Type tags: what they are, and their binary form.

use vstd::prelude::*;
use crate::address::AccountAddress;
use crate::bytes::{append_bytes, copy_range};
use crate::varint::{
    lemma_uleb_decoding_bounds, read_uleb, uleb_encoding, uleb_read, write_uleb,
};
use crate::wire::{bytes_decoding, length_prefixed, read_length_prefixed, write_length_prefixed};

verus! {

/// How deep a type tag may nest: a vector of vectors of booleans has depth 3.
pub const MAX_TYPE_DEPTH: usize = 32;

/// The discriminant of `bool`.
pub const TAG_BOOL: u8 = 0;

/// The discriminant of `u8`.
pub const TAG_U8: u8 = 1;

/// The discriminant of `u64`.
pub const TAG_U64: u8 = 2;

/// The discriminant of `u128`.
pub const TAG_U128: u8 = 3;

/// The discriminant of `address`.
pub const TAG_ADDRESS: u8 = 4;

/// The discriminant of `signer`.
pub const TAG_SIGNER: u8 = 5;

/// The discriminant of a vector; the element's tag follows it.
pub const TAG_VECTOR: u8 = 6;

/// The discriminant of a struct; its address, module, name and type
/// arguments follow it.
pub const TAG_STRUCT: u8 = 7;

/// The type of a value.
#[derive(Debug, PartialEq, Eq)]
pub enum TypeTag {
    Bool,
    U8,
    U64,
    U128,
    Address,
    Signer,
    Vector(Box<TypeTag>),
    Struct { address: AccountAddress, module: Vec<u8>, name: Vec<u8>, type_args: Vec<TypeTag> },
}

/// A type tag as a mathematical value.
pub enum TypeModel {
    Bool,
    U8,
    U64,
    U128,
    Address,
    Signer,
    Vector(Box<TypeModel>),
    Struct { address: Seq<u8>, module: Seq<u8>, name: Seq<u8>, type_args: Seq<TypeModel> },
}

/// The mathematical value of a tag.
pub open spec fn model_of(tag: TypeTag) -> TypeModel
    decreases tag,
{
    match tag {
        TypeTag::Bool => TypeModel::Bool,
        TypeTag::U8 => TypeModel::U8,
        TypeTag::U64 => TypeModel::U64,
        TypeTag::U128 => TypeModel::U128,
        TypeTag::Address => TypeModel::Address,
        TypeTag::Signer => TypeModel::Signer,
        TypeTag::Vector(inner) => TypeModel::Vector(Box::new(model_of(*inner))),
        TypeTag::Struct { address, module, name, type_args } => TypeModel::Struct {
            address: address@,
            module: module@,
            name: name@,
            type_args: Seq::new(
                type_args@.len(),
                |i: int|
                    if 0 <= i < type_args@.len() {
                        model_of(type_args@[i])
                    } else {
                        TypeModel::Bool
                    },
            ),
        },
    }
}

impl View for TypeTag {
    type V = TypeModel;

    open spec fn view(&self) -> TypeModel {
        model_of(*self)
    }
}

/// A copy of a tag.
pub fn copy_tag(tag: &TypeTag) -> (res: TypeTag)
    ensures
        res@ == tag@,
    decreases tag,
{
    match tag {
        TypeTag::Bool => TypeTag::Bool,
        TypeTag::U8 => TypeTag::U8,
        TypeTag::U64 => TypeTag::U64,
        TypeTag::U128 => TypeTag::U128,
        TypeTag::Address => TypeTag::Address,
        TypeTag::Signer => TypeTag::Signer,
        TypeTag::Vector(inner) => TypeTag::Vector(Box::new(copy_tag(inner))),
        TypeTag::Struct { address, module, name, type_args } => {
            let mut args: Vec<TypeTag> = Vec::new();
            let mut i: usize = 0;
            while i < type_args.len()
                invariant
                    i <= type_args.len(),
                    tag is Struct,
                    tag->Struct_type_args == *type_args,
                    args@.len() == i,
                    forall|k: int| 0 <= k < i ==> (#[trigger] args@[k])@ == type_args@[k]@,
                decreases type_args.len() - i,
            {
                assert(decreases_to!(tag => type_args[i as int]));
                args.push(copy_tag(&type_args[i]));
                i = i + 1;
            }
            let module_copy: Vec<u8> = copy_range(module.as_slice(), 0, module.len());
            let name_copy: Vec<u8> = copy_range(name.as_slice(), 0, name.len());
            assert(module_copy@ =~= module@);
            assert(name_copy@ =~= name@);
            let res = TypeTag::Struct {
                address: *address,
                module: module_copy,
                name: name_copy,
                type_args: args,
            };
            assert(res@->Struct_type_args =~= tag@->Struct_type_args);
            res
        },
    }
}

impl Clone for TypeTag {
    fn clone(&self) -> (res: Self)
        ensures
            res@ == self@,
    {
        copy_tag(self)
    }
}

/// The models of a sequence of tags.
pub open spec fn tag_models(tags: Seq<TypeTag>) -> Seq<TypeModel> {
    Seq::new(tags.len(), |i: int| tags[i]@)
}

/// Whether a tag can be written and read back: it nests no deeper than
/// `depth`, its addresses are 32 bytes long, and its lengths and counts fit
/// 64 bits.
pub open spec fn tag_fits(t: TypeModel, depth: nat) -> bool
    decreases t,
{
    match t {
        TypeModel::Vector(inner) => depth >= 1 && tag_fits(*inner, (depth - 1) as nat),
        TypeModel::Struct { address, module, name, type_args } => {
            &&& depth >= 1
            &&& address.len() == 32
            &&& module.len() <= u64::MAX
            &&& name.len() <= u64::MAX
            &&& type_args.len() <= u64::MAX
            &&& forall|i: int|
                0 <= i < type_args.len() ==> tag_fits(#[trigger] type_args[i], (depth - 1) as nat)
        },
        _ => depth >= 1,
    }
}

/// Whether every one of the tags can be written and read back.
pub open spec fn tags_fit(ts: Seq<TypeModel>, depth: nat) -> bool {
    forall|i: int| 0 <= i < ts.len() ==> tag_fits(#[trigger] ts[i], depth)
}

/// The binary form of a tag: its discriminant, then what it is made of.
pub open spec fn tag_encoding(t: TypeModel) -> Seq<u8>
    decreases t,
{
    match t {
        TypeModel::Bool => seq![TAG_BOOL],
        TypeModel::U8 => seq![TAG_U8],
        TypeModel::U64 => seq![TAG_U64],
        TypeModel::U128 => seq![TAG_U128],
        TypeModel::Address => seq![TAG_ADDRESS],
        TypeModel::Signer => seq![TAG_SIGNER],
        TypeModel::Vector(inner) => seq![TAG_VECTOR] + tag_encoding(*inner),
        TypeModel::Struct { address, module, name, type_args } => seq![TAG_STRUCT] + address
            + length_prefixed(module) + length_prefixed(name) + uleb_encoding(type_args.len())
            + tags_encoding(type_args),
    }
}

/// The binary forms of the tags, one after the other.
pub open spec fn tags_encoding(ts: Seq<TypeModel>) -> Seq<u8>
    decreases ts,
{
    if ts.len() == 0 {
        Seq::empty()
    } else {
        tags_encoding(ts.drop_last()) + tag_encoding(ts.last())
    }
}

/// Appends the binary form of `tag`.
pub fn write_type_tag(out: &mut Vec<u8>, tag: &TypeTag)
    ensures
        final(out)@ == old(out)@ + tag_encoding(tag@),
    decreases tag,
{
    let ghost before = out@;
    match tag {
        TypeTag::Bool => out.push(TAG_BOOL),
        TypeTag::U8 => out.push(TAG_U8),
        TypeTag::U64 => out.push(TAG_U64),
        TypeTag::U128 => out.push(TAG_U128),
        TypeTag::Address => out.push(TAG_ADDRESS),
        TypeTag::Signer => out.push(TAG_SIGNER),
        TypeTag::Vector(inner) => {
            out.push(TAG_VECTOR);
            write_type_tag(out, inner);
        },
        TypeTag::Struct { address, module, name, type_args } => {
            out.push(TAG_STRUCT);
            append_bytes(out, address.bytes.as_slice());
            write_length_prefixed(out, module.as_slice());
            write_length_prefixed(out, name.as_slice());
            write_uleb(out, type_args.len() as u64);
            let ghost head = out@;
            let ghost models = tag_models(type_args@);
            assert(tag@->Struct_type_args =~= models);
            let mut i: usize = 0;
            while i < type_args.len()
                invariant
                    i <= type_args.len(),
                    models == tag_models(type_args@),
                    out@ == head + tags_encoding(models.take(i as int)),
                    tag is Struct,
                    tag->Struct_type_args == *type_args,
                decreases type_args.len() - i,
            {
                assert(decreases_to!(tag => type_args[i as int]));
                write_type_tag(out, &type_args[i]);
                proof {
                    let upto = models.take(i + 1);
                    assert(upto.drop_last() =~= models.take(i as int));
                    assert(upto.last() == type_args@[i as int]@);
                    assert(out@ =~= head + tags_encoding(upto));
                }
                i = i + 1;
            }
            assert(models.take(type_args.len() as int) =~= models);
        },
    }
    assert(out@ =~= before + tag_encoding(tag@));
}

/// The tag that starts at `pos`, with the index after its last byte, where
/// it nests no deeper than `depth`.
pub open spec fn tag_decoding(s: Seq<u8>, pos: int, depth: nat) -> Option<(TypeModel, int)>
    decreases depth, 0nat,
{
    if depth == 0 || pos < 0 || pos >= s.len() {
        None
    } else if s[pos] == TAG_BOOL {
        Some((TypeModel::Bool, pos + 1))
    } else if s[pos] == TAG_U8 {
        Some((TypeModel::U8, pos + 1))
    } else if s[pos] == TAG_U64 {
        Some((TypeModel::U64, pos + 1))
    } else if s[pos] == TAG_U128 {
        Some((TypeModel::U128, pos + 1))
    } else if s[pos] == TAG_ADDRESS {
        Some((TypeModel::Address, pos + 1))
    } else if s[pos] == TAG_SIGNER {
        Some((TypeModel::Signer, pos + 1))
    } else if s[pos] == TAG_VECTOR {
        match tag_decoding(s, pos + 1, (depth - 1) as nat) {
            Some((inner, next)) => Some((TypeModel::Vector(Box::new(inner)), next)),
            None => None,
        }
    } else if s[pos] == TAG_STRUCT {
        if pos + 33 > s.len() {
            None
        } else {
            match bytes_decoding(s, pos + 33) {
                Some((module, after_module)) => match bytes_decoding(s, after_module) {
                    Some((name, after_name)) => match uleb_read(s, after_name) {
                        Some((count, after_count)) => match tags_decoding(
                            s,
                            after_count as int,
                            count as nat,
                            (depth - 1) as nat,
                        ) {
                            Some((type_args, next)) => Some(
                                (
                                    TypeModel::Struct {
                                        address: s.subrange(pos + 1, pos + 33),
                                        module,
                                        name,
                                        type_args,
                                    },
                                    next,
                                ),
                            ),
                            None => None,
                        },
                        None => None,
                    },
                    None => None,
                },
                None => None,
            }
        }
    } else {
        None
    }
}

/// The `count` tags that start at `pos`, with the index after the last.
pub open spec fn tags_decoding(s: Seq<u8>, pos: int, count: nat, depth: nat) -> Option<
    (Seq<TypeModel>, int),
>
    decreases depth, count,
{
    if count == 0 {
        Some((Seq::empty(), pos))
    } else {
        match tag_decoding(s, pos, depth) {
            Some((first, next)) => match tags_decoding(s, next, (count - 1) as nat, depth) {
                Some((rest, end)) => Some((seq![first] + rest, end)),
                None => None,
            },
            None => None,
        }
    }
}

/// What was read so far, joined to what is read from here on.
pub open spec fn joined<T>(done: Seq<T>, tail: Option<(Seq<T>, int)>) -> Option<(Seq<T>, int)> {
    match tail {
        Some((rest, end)) => Some((done + rest, end)),
        None => None,
    }
}

/// A decoded tag ends inside the bytes and past its start.
pub proof fn lemma_tag_decoding_bounds(s: Seq<u8>, pos: int, depth: nat)
    ensures
        tag_decoding(s, pos, depth) matches Some((_, next)) ==> 0 <= pos < next <= s.len(),
    decreases depth, 0nat,
{
    if depth > 0 && 0 <= pos < s.len() {
        if s[pos] == TAG_VECTOR {
            lemma_tag_decoding_bounds(s, pos + 1, (depth - 1) as nat);
        } else if s[pos] == TAG_STRUCT && pos + 33 <= s.len() {
            lemma_uleb_decoding_bounds(s, pos + 33);
            if let Some((module, after_module)) = bytes_decoding(s, pos + 33) {
                lemma_uleb_decoding_bounds(s, after_module);
                if let Some((name, after_name)) = bytes_decoding(s, after_module) {
                    lemma_uleb_decoding_bounds(s, after_name);
                    if let Some((count, after_count)) = uleb_read(s, after_name) {
                        lemma_tags_decoding_bounds(
                            s,
                            after_count as int,
                            count as nat,
                            (depth - 1) as nat,
                        );
                    }
                }
            }
        }
    }
}

/// Decoded tags end inside the bytes, not before their start, and are as
/// many as were asked for.
pub proof fn lemma_tags_decoding_bounds(s: Seq<u8>, pos: int, count: nat, depth: nat)
    requires
        0 <= pos <= s.len(),
    ensures
        tags_decoding(s, pos, count, depth) matches Some((tags, next)) ==> pos <= next <= s.len()
            && tags.len() == count,
    decreases depth, count,
{
    if count > 0 {
        lemma_tag_decoding_bounds(s, pos, depth);
        if let Some((first, next)) = tag_decoding(s, pos, depth) {
            lemma_tags_decoding_bounds(s, next, (count - 1) as nat, depth);
        }
    }
}

/// Reads the tag that starts at `pos`, if it nests no deeper than `depth`.
pub fn read_type_tag(bytes: &[u8], pos: usize, depth: usize) -> (res: Option<(TypeTag, usize)>)
    ensures
        match tag_decoding(bytes@, pos as int, depth as nat) {
            Some((model, next)) => res matches Some((tag, n)) && tag@ == model && n == next && pos
                < n <= bytes@.len(),
            None => res.is_none(),
        },
    decreases depth, 0nat,
{
    proof {
        lemma_tag_decoding_bounds(bytes@, pos as int, depth as nat);
    }
    if depth == 0 || pos >= bytes.len() {
        return None;
    }
    let kind: u8 = bytes[pos];
    if kind == TAG_BOOL {
        Some((TypeTag::Bool, pos + 1))
    } else if kind == TAG_U8 {
        Some((TypeTag::U8, pos + 1))
    } else if kind == TAG_U64 {
        Some((TypeTag::U64, pos + 1))
    } else if kind == TAG_U128 {
        Some((TypeTag::U128, pos + 1))
    } else if kind == TAG_ADDRESS {
        Some((TypeTag::Address, pos + 1))
    } else if kind == TAG_SIGNER {
        Some((TypeTag::Signer, pos + 1))
    } else if kind == TAG_VECTOR {
        match read_type_tag(bytes, pos + 1, depth - 1) {
            Some((inner, next)) => Some((TypeTag::Vector(Box::new(inner)), next)),
            None => None,
        }
    } else if kind == TAG_STRUCT {
        if bytes.len() - pos < 33 {
            return None;
        }
        let address = read_address(bytes, pos + 1);
        let (module, after_module) = match read_length_prefixed(bytes, pos + 33) {
            Some(found) => found,
            None => { return None; },
        };
        let (name, after_name) = match read_length_prefixed(bytes, after_module) {
            Some(found) => found,
            None => { return None; },
        };
        let (count, after_count) = match read_uleb(bytes, after_name) {
            Some(found) => found,
            None => { return None; },
        };
        proof {
            lemma_uleb_decoding_bounds(bytes@, pos + 33);
            lemma_uleb_decoding_bounds(bytes@, after_module as int);
            lemma_uleb_decoding_bounds(bytes@, after_name as int);
        }
        match read_type_tags(bytes, after_count, count, depth - 1) {
            Some((type_args, next)) => {
                let tag = TypeTag::Struct { address, module, name, type_args };
                assert(tag@->Struct_type_args =~= tag_models(type_args@));
                Some((tag, next))
            },
            None => None,
        }
    } else {
        None
    }
}

/// Reads the `count` tags that start at `pos`.
pub fn read_type_tags(bytes: &[u8], pos: usize, count: u64, depth: usize) -> (res: Option<
    (Vec<TypeTag>, usize),
>)
    requires
        pos <= bytes.len(),
    ensures
        match tags_decoding(bytes@, pos as int, count as nat, depth as nat) {
            Some((models, next)) => res matches Some((tags, n)) && tag_models(tags@) == models && n
                == next && pos <= n <= bytes@.len(),
            None => res.is_none(),
        },
    decreases depth, 1nat,
{
    proof {
        lemma_tags_decoding_bounds(bytes@, pos as int, count as nat, depth as nat);
    }
    let mut tags: Vec<TypeTag> = Vec::new();
    let mut cur: usize = pos;
    let mut i: u64 = 0;
    assert(tag_models(tags@) + Seq::<TypeModel>::empty() =~= Seq::<TypeModel>::empty());
    assert(joined(tag_models(tags@), tags_decoding(bytes@, pos as int, count as nat, depth as nat))
        == tags_decoding(bytes@, pos as int, count as nat, depth as nat)) by {
        if let Some((rest, end)) = tags_decoding(bytes@, pos as int, count as nat, depth as nat) {
            assert(tag_models(tags@) + rest =~= rest);
        }
    }
    while i < count
        invariant
            i <= count,
            cur <= bytes.len(),
            tags_decoding(bytes@, pos as int, count as nat, depth as nat) == joined(
                tag_models(tags@),
                tags_decoding(bytes@, cur as int, (count - i) as nat, depth as nat),
            ),
        decreases count - i,
    {
        proof {
            lemma_tag_decoding_bounds(bytes@, cur as int, depth as nat);
        }
        match read_type_tag(bytes, cur, depth) {
            Some((tag, next)) => {
                let ghost done = tag_models(tags@);
                tags.push(tag);
                proof {
                    assert(tag_models(tags@) =~= done.push(tag@));
                    if let Some((rest, end)) = tags_decoding(
                        bytes@,
                        next as int,
                        (count - i - 1) as nat,
                        depth as nat,
                    ) {
                        assert(done.push(tag@) + rest =~= done + (seq![tag@] + rest));
                    }
                }
                cur = next;
                i = i + 1;
            },
            None => {
                return None;
            },
        }
    }
    proof {
        assert(tag_models(tags@) + Seq::<TypeModel>::empty() =~= tag_models(tags@));
    }
    Some((tags, cur))
}

/// The address in `bytes[pos..pos + 32]`.
pub fn read_address(bytes: &[u8], pos: usize) -> (res: AccountAddress)
    requires
        pos + 32 <= bytes.len(),
    ensures
        res@ == bytes@.subrange(pos as int, pos + 32),
{
    let mut address = AccountAddress { bytes: [0u8; 32] };
    let mut i: usize = 0;
    while i < 32
        invariant
            i <= 32,
            pos + 32 <= bytes.len(),
            forall|k: int| 0 <= k < i ==> address.bytes[k] == bytes[pos + k],
        decreases 32 - i,
    {
        address.bytes[i] = bytes[pos + i];
        i = i + 1;
    }
    assert(address@ =~= bytes@.subrange(pos as int, pos + 32));
    address
}

} // verus!
