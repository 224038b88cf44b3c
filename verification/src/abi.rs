//! The interface of a module, read from the module's bytes.
//!
//! A module is laid out as a header (four magic bytes and a version), the
//! module's address and name, a table of struct definitions and a table of
//! function definitions. Every length and count is a variable-length
//! integer; every type is a type tag in its binary form.

use vstd::prelude::*;
use vstd::slice::slice_subrange;
use crate::address::AccountAddress;
use crate::bytes::{append_bytes, bytes_equal};
use crate::round_trip::{law_decoded_module_is_well_formed, law_module_round_trip};
use crate::type_tag::{
    joined, read_address, read_type_tags, tag_models, tags_decoding, tags_encoding, tags_fit,
    write_type_tag, TypeModel, TypeTag, MAX_TYPE_DEPTH,
};
use crate::varint::{read_uleb, uleb_encoding, uleb_read, write_uleb};
use crate::wire::{
    bytes_decoding, le_bytes, le_value, length_prefixed, read_le, read_length_prefixed, write_le,
    write_length_prefixed,
};

verus! {

/// The first magic byte.
pub const MAGIC_0: u8 = 0xA1;

/// The second magic byte.
pub const MAGIC_1: u8 = 0x1C;

/// The third magic byte.
pub const MAGIC_2: u8 = 0xEB;

/// The fourth magic byte.
pub const MAGIC_3: u8 = 0x0B;

/// The oldest version of the layout that is read.
pub const VERSION_MIN: u32 = 1;

/// The newest version of the layout that is read.
pub const VERSION_MAX: u32 = 6;

/// The length of the header: magic and version.
pub const HEADER_LENGTH: usize = 8;

/// The flag byte of a function that can be called from outside.
pub const FLAG_ENTRY: u8 = 1;

/// The flag byte of a function that cannot.
pub const FLAG_INTERNAL: u8 = 0;

/// The abilities `copy`, `drop`, `store` and `key`, one bit each.
pub const ABILITY_ALL: u8 = 15;

/// The abilities that a type parameter must have: `copy` is 1, `drop` 2,
/// `store` 4 and `key` 8.
#[derive(Clone, Copy, Debug, PartialEq, Eq)]
pub struct AbilitySet {
    pub bits: u8,
}

/// The sections of a module's bytes, in their order.
#[derive(Clone, Copy, Debug, PartialEq, Eq)]
pub enum Section {
    /// Magic and version.
    Header,
    /// The module's address and name.
    ModuleId,
    /// The table of struct definitions.
    Structs,
    /// The table of function definitions.
    Functions,
    /// The names of the functions, of which no two may be the same.
    Names,
    /// The end of the bytes, which must follow the last table.
    End,
}

/// Why a module's bytes give no interface.
#[derive(Clone, Copy, Debug, PartialEq, Eq)]
pub enum AbiError {
    /// The bytes end too early, start with another magic or version, hold
    /// an unknown discriminant, flag or ability, declare a function name
    /// twice, or go on after the last table. `section` is the first
    /// section that is not as it must be.
    Malformed { section: Section },
}

/// The signature of one function.
#[derive(Clone, Debug, PartialEq, Eq)]
pub struct FunctionAbi {
    pub name: Vec<u8>,
    pub is_entry: bool,
    pub generic_constraints: Vec<AbilitySet>,
    pub parameters: Vec<TypeTag>,
    pub returns: Vec<TypeTag>,
}

/// A function signature as a mathematical value.
pub struct FunctionModel {
    pub name: Seq<u8>,
    pub is_entry: bool,
    pub generic_constraints: Seq<u8>,
    pub parameters: Seq<TypeModel>,
    pub returns: Seq<TypeModel>,
}

/// The name of a module: the account that holds it, and its name there.
#[derive(Clone, Debug, PartialEq, Eq)]
pub struct ModuleId {
    pub address: AccountAddress,
    pub name: Vec<u8>,
}

/// The interface of a module: its functions, no two under one name.
#[derive(Clone, Debug, PartialEq, Eq)]
pub struct ModuleAbi {
    pub module_id: ModuleId,
    pub functions: Vec<FunctionAbi>,
}

/// A module interface as a mathematical value.
pub struct ModuleModel {
    pub address: Seq<u8>,
    pub name: Seq<u8>,
    pub functions: Seq<FunctionModel>,
}

/// The ability bits of a sequence of ability sets.
pub open spec fn ability_bits(sets: Seq<AbilitySet>) -> Seq<u8> {
    Seq::new(sets.len(), |i: int| sets[i].bits)
}

impl View for FunctionAbi {
    type V = FunctionModel;

    open spec fn view(&self) -> FunctionModel {
        FunctionModel {
            name: self.name@,
            is_entry: self.is_entry,
            generic_constraints: ability_bits(self.generic_constraints@),
            parameters: tag_models(self.parameters@),
            returns: tag_models(self.returns@),
        }
    }
}

/// The models of a sequence of function signatures.
pub open spec fn function_models(functions: Seq<FunctionAbi>) -> Seq<FunctionModel> {
    Seq::new(functions.len(), |i: int| functions[i]@)
}

impl View for ModuleAbi {
    type V = ModuleModel;

    open spec fn view(&self) -> ModuleModel {
        ModuleModel {
            address: self.module_id.address@,
            name: self.module_id.name@,
            functions: function_models(self.functions@),
        }
    }
}

impl FunctionModel {
    /// The number of type parameters.
    pub open spec fn generic_arity(self) -> nat {
        self.generic_constraints.len()
    }
}

/// Whether no two of the functions have one name.
pub open spec fn names_unique(functions: Seq<FunctionModel>) -> bool {
    forall|i: int, j: int|
        0 <= i < j < functions.len() ==> (#[trigger] functions[i]).name != (
        #[trigger] functions[j]).name
}

/// The magic bytes that every module starts with.
pub open spec fn magic() -> Seq<u8> {
    seq![MAGIC_0, MAGIC_1, MAGIC_2, MAGIC_3]
}

/// Whether the bytes start with a header of a version that is read.
pub open spec fn header_valid(s: Seq<u8>) -> bool {
    &&& s.len() >= HEADER_LENGTH
    &&& s.subrange(0, 4) == magic()
    &&& VERSION_MIN <= le_value(s.subrange(4, 8)) <= VERSION_MAX
}

/// The `count` ability sets that start at `pos`, one byte each, with the
/// index after the last.
pub open spec fn abilities_decoding(s: Seq<u8>, pos: int, count: nat) -> Option<(Seq<u8>, int)> {
    if 0 <= pos && pos + count <= s.len() && (forall|i: int|
        pos <= i < pos + count ==> #[trigger] s[i] <= ABILITY_ALL) {
        Some((s.subrange(pos, pos + count), pos + count))
    } else {
        None
    }
}

/// The function definition that starts at `pos`: name, flag, constraints
/// of the type parameters, parameter types, return types.
pub open spec fn function_decoding(s: Seq<u8>, pos: int) -> Option<(FunctionModel, int)> {
    match bytes_decoding(s, pos) {
        Some((name, at_flag)) => if at_flag >= s.len() || s[at_flag] > FLAG_ENTRY {
            None
        } else {
            match uleb_read(s, at_flag + 1) {
                Some((generics, at_abilities)) => match abilities_decoding(
                    s,
                    at_abilities,
                    generics as nat,
                ) {
                    Some((generic_constraints, at_params)) => match uleb_read(s, at_params) {
                        Some((param_count, at_param_tags)) => match tags_decoding(
                            s,
                            at_param_tags,
                            param_count as nat,
                            MAX_TYPE_DEPTH as nat,
                        ) {
                            Some((parameters, at_returns)) => match uleb_read(s, at_returns) {
                                Some((return_count, at_return_tags)) => match tags_decoding(
                                    s,
                                    at_return_tags,
                                    return_count as nat,
                                    MAX_TYPE_DEPTH as nat,
                                ) {
                                    Some((results, next)) => Some(
                                        (
                                            FunctionModel {
                                                name,
                                                is_entry: s[at_flag] == FLAG_ENTRY,
                                                generic_constraints,
                                                parameters,
                                                returns: results,
                                            },
                                            next,
                                        ),
                                    ),
                                    None => None,
                                },
                                None => None,
                            },
                            None => None,
                        },
                        None => None,
                    },
                    None => None,
                },
                None => None,
            }
        },
        None => None,
    }
}

/// The `count` function definitions that start at `pos`.
pub open spec fn functions_decoding(s: Seq<u8>, pos: int, count: nat) -> Option<
    (Seq<FunctionModel>, int),
>
    decreases count,
{
    if count == 0 {
        Some((Seq::empty(), pos))
    } else {
        match function_decoding(s, pos) {
            Some((first, next)) => match functions_decoding(s, next, (count - 1) as nat) {
                Some((rest, end)) => Some((seq![first] + rest, end)),
                None => None,
            },
            None => None,
        }
    }
}

/// Where the struct definition that starts at `pos` ends: name, abilities,
/// field types.
pub open spec fn struct_end(s: Seq<u8>, pos: int) -> Option<int> {
    match bytes_decoding(s, pos) {
        Some((name, at_abilities)) => if at_abilities >= s.len() || s[at_abilities]
            > ABILITY_ALL {
            None
        } else {
            match uleb_read(s, at_abilities + 1) {
                Some((field_count, at_fields)) => match tags_decoding(
                    s,
                    at_fields,
                    field_count as nat,
                    MAX_TYPE_DEPTH as nat,
                ) {
                    Some((fields, next)) => Some(next),
                    None => None,
                },
                None => None,
            }
        },
        None => None,
    }
}

/// Where the `count` struct definitions that start at `pos` end.
pub open spec fn structs_end(s: Seq<u8>, pos: int, count: nat) -> Option<int>
    decreases count,
{
    if count == 0 {
        Some(pos)
    } else {
        match struct_end(s, pos) {
            Some(next) => structs_end(s, next, (count - 1) as nat),
            None => None,
        }
    }
}

/// The interface that a module's bytes describe, if they are well formed.
pub open spec fn module_decoding(s: Seq<u8>) -> Option<ModuleModel> {
    if !header_valid(s) || s.len() < HEADER_LENGTH + 32 {
        None
    } else {
        match bytes_decoding(s, HEADER_LENGTH + 32) {
            Some((name, at_structs)) => match uleb_read(s, at_structs) {
                Some((struct_count, first_struct)) => match structs_end(
                    s,
                    first_struct,
                    struct_count as nat,
                ) {
                    Some(at_functions) => match uleb_read(s, at_functions) {
                        Some((function_count, first_function)) => match functions_decoding(
                            s,
                            first_function,
                            function_count as nat,
                        ) {
                            Some((functions, end)) => if end == s.len() && names_unique(
                                functions,
                            ) {
                                Some(
                                    ModuleModel {
                                        address: s.subrange(
                                            HEADER_LENGTH as int,
                                            HEADER_LENGTH + 32,
                                        ),
                                        name,
                                        functions,
                                    },
                                )
                            } else {
                                None
                            },
                            None => None,
                        },
                        None => None,
                    },
                    None => None,
                },
                None => None,
            },
            None => None,
        }
    }
}

/// The first section of the bytes that is not as it must be, where they
/// describe no interface.
pub open spec fn malformed_section(s: Seq<u8>) -> Section {
    if !header_valid(s) {
        Section::Header
    } else if s.len() < HEADER_LENGTH + 32 {
        Section::ModuleId
    } else {
        match bytes_decoding(s, HEADER_LENGTH + 32) {
            Some((name, at_structs)) => match uleb_read(s, at_structs) {
                Some((struct_count, first_struct)) => match structs_end(
                    s,
                    first_struct,
                    struct_count as nat,
                ) {
                    Some(at_functions) => match uleb_read(s, at_functions) {
                        Some((function_count, first_function)) => match functions_decoding(
                            s,
                            first_function,
                            function_count as nat,
                        ) {
                            Some((functions, end)) => if end != s.len() {
                                Section::End
                            } else {
                                Section::Names
                            },
                            None => Section::Functions,
                        },
                        None => Section::Functions,
                    },
                    None => Section::Structs,
                },
                None => Section::Structs,
            },
            None => Section::ModuleId,
        }
    }
}

impl FunctionAbi {
    /// The number of type parameters.
    pub fn generic_arity(&self) -> (res: usize)
        ensures
            res == self@.generic_arity(),
    {
        self.generic_constraints.len()
    }
}

/// Reads the `count` ability sets that start at `pos`.
pub fn read_abilities(bytes: &[u8], pos: usize, count: u64) -> (res: Option<
    (Vec<AbilitySet>, usize),
>)
    requires
        pos <= bytes.len(),
    ensures
        match abilities_decoding(bytes@, pos as int, count as nat) {
            Some((bits, next)) => res matches Some((sets, n)) && ability_bits(sets@) == bits && n
                == next && pos <= n <= bytes@.len(),
            None => res.is_none(),
        },
{
    if count > (bytes.len() - pos) as u64 {
        return None;
    }
    let end: usize = pos + count as usize;
    let mut sets: Vec<AbilitySet> = Vec::new();
    let mut i: usize = pos;
    while i < end
        invariant
            pos <= i <= end <= bytes.len(),
            end == pos + count,
            sets@.len() == i - pos,
            forall|k: int| pos <= k < i ==> #[trigger] bytes[k] <= ABILITY_ALL,
            forall|k: int| 0 <= k < sets@.len() ==> (#[trigger] sets@[k]).bits == bytes[pos + k],
        decreases end - i,
    {
        let bits: u8 = bytes[i];
        if bits > ABILITY_ALL {
            assert(bytes@[i as int] > ABILITY_ALL);
            return None;
        }
        sets.push(AbilitySet { bits });
        i = i + 1;
    }
    assert(ability_bits(sets@) =~= bytes@.subrange(pos as int, end as int));
    Some((sets, end))
}

/// Reads the function definition that starts at `pos`.
pub fn read_function(bytes: &[u8], pos: usize) -> (res: Option<(FunctionAbi, usize)>)
    ensures
        match function_decoding(bytes@, pos as int) {
            Some((model, next)) => res matches Some((function, n)) && function@ == model && n
                == next && pos < n <= bytes@.len(),
            None => res.is_none(),
        },
{
    let (name, at_flag) = match read_length_prefixed(bytes, pos) {
        Some(found) => found,
        None => { return None; },
    };
    if at_flag >= bytes.len() {
        return None;
    }
    let flag: u8 = bytes[at_flag];
    if flag > FLAG_ENTRY {
        return None;
    }
    let (generics, at_abilities) = match read_uleb(bytes, at_flag + 1) {
        Some(found) => found,
        None => { return None; },
    };
    let (generic_constraints, at_params) = match read_abilities(bytes, at_abilities, generics) {
        Some(found) => found,
        None => { return None; },
    };
    let (param_count, at_param_tags) = match read_uleb(bytes, at_params) {
        Some(found) => found,
        None => { return None; },
    };
    let (parameters, at_returns) = match read_type_tags(
        bytes,
        at_param_tags,
        param_count,
        MAX_TYPE_DEPTH,
    ) {
        Some(found) => found,
        None => { return None; },
    };
    let (return_count, at_return_tags) = match read_uleb(bytes, at_returns) {
        Some(found) => found,
        None => { return None; },
    };
    let (results, next) = match read_type_tags(
        bytes,
        at_return_tags,
        return_count,
        MAX_TYPE_DEPTH,
    ) {
        Some(found) => found,
        None => { return None; },
    };
    Some(
        (
            FunctionAbi {
                name,
                is_entry: flag == FLAG_ENTRY,
                generic_constraints,
                parameters,
                returns: results,
            },
            next,
        ),
    )
}

/// Reads the `count` function definitions that start at `pos`.
pub fn read_functions(bytes: &[u8], pos: usize, count: u64) -> (res: Option<
    (Vec<FunctionAbi>, usize),
>)
    requires
        pos <= bytes.len(),
    ensures
        match functions_decoding(bytes@, pos as int, count as nat) {
            Some((models, next)) => res matches Some((functions, n)) && function_models(
                functions@,
            ) == models && n == next && pos <= n <= bytes@.len(),
            None => res.is_none(),
        },
{
    let mut functions: Vec<FunctionAbi> = Vec::new();
    let mut cur: usize = pos;
    let mut i: u64 = 0;
    proof {
        if let Some((rest, end)) = functions_decoding(bytes@, pos as int, count as nat) {
            assert(function_models(functions@) + rest =~= rest);
        }
    }
    while i < count
        invariant
            i <= count,
            pos <= cur <= bytes.len(),
            functions_decoding(bytes@, pos as int, count as nat) == joined(
                function_models(functions@),
                functions_decoding(bytes@, cur as int, (count - i) as nat),
            ),
        decreases count - i,
    {
        match read_function(bytes, cur) {
            Some((function, next)) => {
                let ghost done = function_models(functions@);
                let ghost model = function@;
                functions.push(function);
                proof {
                    assert(function_models(functions@) =~= done.push(model));
                    if let Some((rest, end)) = functions_decoding(
                        bytes@,
                        next as int,
                        (count - i - 1) as nat,
                    ) {
                        assert(done.push(model) + rest =~= done + (seq![model] + rest));
                    }
                }
                cur = next;
                i = i + 1;
            },
            None => {
                return None;
            },
        }
    }
    proof {
        assert(function_models(functions@) + Seq::<FunctionModel>::empty() =~= function_models(
            functions@,
        ));
    }
    Some((functions, cur))
}

/// Finds where the struct definition that starts at `pos` ends.
pub fn skip_struct(bytes: &[u8], pos: usize) -> (res: Option<usize>)
    ensures
        match struct_end(bytes@, pos as int) {
            Some(next) => res == Some(next as usize) && pos < next <= bytes@.len(),
            None => res.is_none(),
        },
{
    let (name, at_abilities) = match read_length_prefixed(bytes, pos) {
        Some(found) => found,
        None => { return None; },
    };
    if at_abilities >= bytes.len() || bytes[at_abilities] > ABILITY_ALL {
        return None;
    }
    let (field_count, at_fields) = match read_uleb(bytes, at_abilities + 1) {
        Some(found) => found,
        None => { return None; },
    };
    match read_type_tags(bytes, at_fields, field_count, MAX_TYPE_DEPTH) {
        Some((fields, next)) => Some(next),
        None => None,
    }
}

/// Finds where the `count` struct definitions that start at `pos` end.
pub fn skip_structs(bytes: &[u8], pos: usize, count: u64) -> (res: Option<usize>)
    requires
        pos <= bytes.len(),
    ensures
        match structs_end(bytes@, pos as int, count as nat) {
            Some(next) => res == Some(next as usize) && pos <= next <= bytes@.len(),
            None => res.is_none(),
        },
{
    let mut cur: usize = pos;
    let mut i: u64 = 0;
    while i < count
        invariant
            i <= count,
            pos <= cur <= bytes.len(),
            structs_end(bytes@, pos as int, count as nat) == structs_end(
                bytes@,
                cur as int,
                (count - i) as nat,
            ),
        decreases count - i,
    {
        match skip_struct(bytes, cur) {
            Some(next) => {
                cur = next;
                i = i + 1;
            },
            None => {
                return None;
            },
        }
    }
    Some(cur)
}

/// Whether no two of the functions have one name.
pub fn names_are_unique(functions: &Vec<FunctionAbi>) -> (res: bool)
    ensures
        res == names_unique(function_models(functions@)),
{
    let ghost models = function_models(functions@);
    let mut j: usize = 0;
    while j < functions.len()
        invariant
            j <= functions.len(),
            models == function_models(functions@),
            forall|a: int, b: int|
                0 <= a < b < j ==> (#[trigger] models[a]).name != (#[trigger] models[b]).name,
        decreases functions.len() - j,
    {
        let mut i: usize = 0;
        while i < j
            invariant
                i <= j < functions.len(),
                models == function_models(functions@),
                forall|a: int| 0 <= a < i ==> (#[trigger] models[a]).name != models[j as int].name,
            decreases j - i,
        {
            if bytes_equal(functions[i].name.as_slice(), functions[j].name.as_slice()) {
                assert(models[i as int].name == models[j as int].name);
                return false;
            }
            i = i + 1;
        }
        j = j + 1;
    }
    true
}

/// Reads the interface of a module from the module's bytes.
pub fn make_abi(bytes: &[u8]) -> (res: Result<ModuleAbi, AbiError>)
    ensures
        match module_decoding(bytes@) {
            Some(model) => res matches Ok(abi) && abi@ == model,
            None => res == Err::<ModuleAbi, AbiError>(
                AbiError::Malformed { section: malformed_section(bytes@) },
            ),
        },
        res matches Ok(abi) ==> abi@.well_formed(),
{
    proof {
        law_decoded_module_is_well_formed(bytes@);
    }
    if bytes.len() < HEADER_LENGTH {
        return Err(AbiError::Malformed { section: Section::Header });
    }
    if bytes[0] != MAGIC_0 || bytes[1] != MAGIC_1 || bytes[2] != MAGIC_2 || bytes[3] != MAGIC_3 {
        assert(bytes@.subrange(0, 4)[0] == bytes[0]);
        assert(bytes@.subrange(0, 4)[1] == bytes[1]);
        assert(bytes@.subrange(0, 4)[2] == bytes[2]);
        assert(bytes@.subrange(0, 4)[3] == bytes[3]);
        return Err(AbiError::Malformed { section: Section::Header });
    }
    assert(bytes@.subrange(0, 4) =~= magic());
    let version: u128 = match read_le(slice_subrange(bytes, 4, 8)) {
        Some(v) => v,
        None => { return Err(AbiError::Malformed { section: Section::Header }); },
    };
    if version < VERSION_MIN as u128 || version > VERSION_MAX as u128 {
        return Err(AbiError::Malformed { section: Section::Header });
    }
    if bytes.len() < HEADER_LENGTH + 32 {
        return Err(AbiError::Malformed { section: Section::ModuleId });
    }
    let address = read_address(bytes, HEADER_LENGTH);
    let (name, at_structs) = match read_length_prefixed(bytes, HEADER_LENGTH + 32) {
        Some(found) => found,
        None => { return Err(AbiError::Malformed { section: Section::ModuleId }); },
    };
    let (struct_count, first_struct) = match read_uleb(bytes, at_structs) {
        Some(found) => found,
        None => { return Err(AbiError::Malformed { section: Section::Structs }); },
    };
    let at_functions = match skip_structs(bytes, first_struct, struct_count) {
        Some(found) => found,
        None => { return Err(AbiError::Malformed { section: Section::Structs }); },
    };
    let (function_count, first_function) = match read_uleb(bytes, at_functions) {
        Some(found) => found,
        None => { return Err(AbiError::Malformed { section: Section::Functions }); },
    };
    let (functions, end) = match read_functions(bytes, first_function, function_count) {
        Some(found) => found,
        None => { return Err(AbiError::Malformed { section: Section::Functions }); },
    };
    if end != bytes.len() {
        return Err(AbiError::Malformed { section: Section::End });
    }
    if !names_are_unique(&functions) {
        return Err(AbiError::Malformed { section: Section::Names });
    }
    Ok(ModuleAbi { module_id: ModuleId { address, name }, functions })
}

/// The first of the functions that has the name.
pub open spec fn function_named(functions: Seq<FunctionModel>, name: Seq<u8>) -> Option<
    FunctionModel,
>
    decreases functions.len(),
{
    if functions.len() == 0 {
        None
    } else if functions[0].name == name {
        Some(functions[0])
    } else {
        function_named(functions.drop_first(), name)
    }
}

impl ModuleAbi {
    /// The function of the module that has the name.
    pub fn find_function(&self, name: &[u8]) -> (res: Option<&FunctionAbi>)
        ensures
            match function_named(self@.functions, name@) {
                Some(model) => res matches Some(function) && function@ == model,
                None => res.is_none(),
            },
    {
        let ghost all = self@.functions;
        let mut i: usize = 0;
        assert(all.skip(0) =~= all);
        while i < self.functions.len()
            invariant
                i <= self.functions.len(),
                all == function_models(self.functions@),
                function_named(all, name@) == function_named(all.skip(i as int), name@),
            decreases self.functions.len() - i,
        {
            assert(all.skip(i as int)[0] == self.functions@[i as int]@);
            if bytes_equal(self.functions[i].name.as_slice(), name) {
                return Some(&self.functions[i]);
            }
            assert(all.skip(i as int).drop_first() =~= all.skip(i + 1));
            i = i + 1;
        }
        None
    }
}

/// The flag byte of a function.
pub open spec fn flag_of(is_entry: bool) -> u8 {
    if is_entry {
        FLAG_ENTRY
    } else {
        FLAG_INTERNAL
    }
}

/// The definition of a function in a module's bytes.
pub open spec fn function_encoding(f: FunctionModel) -> Seq<u8> {
    length_prefixed(f.name) + seq![flag_of(f.is_entry)] + uleb_encoding(
        f.generic_constraints.len(),
    ) + f.generic_constraints + uleb_encoding(f.parameters.len()) + tags_encoding(f.parameters)
        + uleb_encoding(f.returns.len()) + tags_encoding(f.returns)
}

/// The definitions of the functions, one after the other.
pub open spec fn functions_encoding(fs: Seq<FunctionModel>) -> Seq<u8>
    decreases fs.len(),
{
    if fs.len() == 0 {
        Seq::empty()
    } else {
        functions_encoding(fs.drop_last()) + function_encoding(fs.last())
    }
}

/// The bytes of a module that has the interface and no struct definitions:
/// header, address, name, an empty struct table, and the function table.
pub open spec fn module_encoding(m: ModuleModel, version: u32) -> Seq<u8> {
    magic() + le_bytes(version as nat, 4) + m.address + length_prefixed(m.name) + uleb_encoding(0)
        + uleb_encoding(m.functions.len()) + functions_encoding(m.functions)
}

impl FunctionModel {
    /// Whether the signature can be written and read back: its types
    /// can, its ability sets hold no unknown ability, and its lengths and
    /// counts fit 64 bits.
    pub open spec fn well_formed(self) -> bool {
        &&& self.name.len() <= u64::MAX
        &&& self.generic_constraints.len() <= u64::MAX
        &&& forall|i: int|
            0 <= i < self.generic_constraints.len() ==> #[trigger] self.generic_constraints[i]
                <= ABILITY_ALL
        &&& self.parameters.len() <= u64::MAX
        &&& tags_fit(self.parameters, MAX_TYPE_DEPTH as nat)
        &&& self.returns.len() <= u64::MAX
        &&& tags_fit(self.returns, MAX_TYPE_DEPTH as nat)
    }
}

impl ModuleModel {
    /// Whether the interface can be written and read back: no two
    /// functions have one name, every signature is well formed, the address
    /// is 32 bytes long, and the lengths and counts fit 64 bits.
    pub open spec fn well_formed(self) -> bool {
        &&& self.address.len() == 32
        &&& self.name.len() <= u64::MAX
        &&& self.functions.len() <= u64::MAX
        &&& names_unique(self.functions)
        &&& forall|i: int|
            0 <= i < self.functions.len() ==> (#[trigger] self.functions[i]).well_formed()
    }
}

/// Appends the definition of a function.
pub fn write_function(out: &mut Vec<u8>, function: &FunctionAbi)
    ensures
        final(out)@ == old(out)@ + function_encoding(function@),
{
    let ghost before = out@;
    write_length_prefixed(out, function.name.as_slice());
    out.push(if function.is_entry { FLAG_ENTRY } else { FLAG_INTERNAL });
    write_uleb(out, function.generic_constraints.len() as u64);
    let ghost head = out@;
    let ghost bits = ability_bits(function.generic_constraints@);
    let mut i: usize = 0;
    while i < function.generic_constraints.len()
        invariant
            i <= function.generic_constraints.len(),
            bits == ability_bits(function.generic_constraints@),
            out@ == head + bits.take(i as int),
        decreases function.generic_constraints.len() - i,
    {
        let ghost prev = out@;
        out.push(function.generic_constraints[i].bits);
        assert(out@ =~= head + bits.take(i + 1));
        i = i + 1;
    }
    assert(bits.take(function.generic_constraints.len() as int) =~= bits);
    write_tags(out, &function.parameters);
    write_tags(out, &function.returns);
    assert(out@ =~= before + function_encoding(function@));
}

/// Appends the number of the tags and then their binary forms.
pub fn write_tags(out: &mut Vec<u8>, tags: &Vec<TypeTag>)
    ensures
        final(out)@ == old(out)@ + uleb_encoding(tags@.len()) + tags_encoding(tag_models(tags@)),
{
    let ghost before = out@;
    write_uleb(out, tags.len() as u64);
    let ghost head = out@;
    let ghost models = tag_models(tags@);
    let mut i: usize = 0;
    assert(models.take(0) =~= Seq::<TypeModel>::empty());
    assert(head + tags_encoding(models.take(0)) =~= head);
    while i < tags.len()
        invariant
            i <= tags.len(),
            models == tag_models(tags@),
            out@ == head + tags_encoding(models.take(i as int)),
        decreases tags.len() - i,
    {
        write_type_tag(out, &tags[i]);
        proof {
            let upto = models.take(i + 1);
            assert(upto.drop_last() =~= models.take(i as int));
            assert(upto.last() == tags@[i as int]@);
            assert(out@ =~= head + tags_encoding(upto));
        }
        i = i + 1;
    }
    assert(models.take(tags.len() as int) =~= models);
    assert(out@ =~= before + uleb_encoding(tags@.len()) + tags_encoding(models));
}

/// The bytes of a module that has the interface `abi` and no struct
/// definitions, in the newest version of the layout.
pub fn encode_abi(abi: &ModuleAbi) -> (res: Vec<u8>)
    ensures
        res@ == module_encoding(abi@, VERSION_MAX),
        abi@.well_formed() ==> module_decoding(res@) == Some(abi@),
{
    proof {
        if abi@.well_formed() {
            law_module_round_trip(abi@, VERSION_MAX);
        }
    }
    let mut out: Vec<u8> = Vec::new();
    out.push(MAGIC_0);
    out.push(MAGIC_1);
    out.push(MAGIC_2);
    out.push(MAGIC_3);
    assert(out@ =~= magic());
    write_le(&mut out, VERSION_MAX as u128, 4);
    append_bytes(&mut out, abi.module_id.address.bytes.as_slice());
    write_length_prefixed(&mut out, abi.module_id.name.as_slice());
    write_uleb(&mut out, 0);
    write_uleb(&mut out, abi.functions.len() as u64);
    let ghost head = out@;
    let ghost models = function_models(abi.functions@);
    let mut i: usize = 0;
    assert(models.take(0) =~= Seq::<FunctionModel>::empty());
    assert(head + functions_encoding(models.take(0)) =~= head);
    while i < abi.functions.len()
        invariant
            i <= abi.functions.len(),
            models == function_models(abi.functions@),
            out@ == head + functions_encoding(models.take(i as int)),
        decreases abi.functions.len() - i,
    {
        write_function(&mut out, &abi.functions[i]);
        proof {
            let upto = models.take(i + 1);
            assert(upto.drop_last() =~= models.take(i as int));
            assert(upto.last() == abi.functions@[i as int]@);
            assert(out@ =~= head + functions_encoding(upto));
        }
        i = i + 1;
    }
    assert(models.take(abi.functions.len() as int) =~= models);
    assert(out@ =~= module_encoding(abi@, VERSION_MAX));
    out
}

} // verus!
