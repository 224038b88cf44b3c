//! What holds of the library as a whole, proved from the definitions that
//! the contracts of its functions are stated in.

use vstd::prelude::*;
use crate::abi::{
    function_named, malformed_section, module_decoding, AbiError, FunctionModel, ModuleAbi,
};
use crate::address::{
    address_digits, address_of_text, has_hex_prefix, hex_digit, is_address_text, padded_nibble,
};
use crate::ascii::{CLOSE_BRACKET, COLON, DIGIT_0, LOWER_X, OPEN_BRACKET};
use crate::call::{payload_of, EncodingError};
use crate::codec::{call_arguments, types_encoding, values_encoding, CodecError, EncodedModel};
use crate::fn_call::{call_payload, CallError};
use crate::hex::{bytes_of_text, hex_text, is_bytes_text, lemma_hex_round_trip};
use crate::literal::{
    address_encoding, digit, is_encodable, is_vector_text, number_of_text, value_encoding,
    vector_items, ValueFault,
};
use crate::reference::{
    first_separator, lemma_first_separator_bounds, reference_of_text, reference_text, separator,
    separator_at, split_path, ParseError, ReferenceModel,
};
use crate::type_tag::TypeModel;
use crate::varint::uleb_encoding;
use crate::wire::{byte_range, le_value, lemma_le_bytes_len, lemma_le_round_trip};

verus! {

/// Whether the text can be the last part of a path: not empty, and
/// without a separator.
pub open spec fn is_last_part(s: Seq<u8>) -> bool {
    s.len() > 0 && forall|i: int| !separator_at(s, i)
}

/// Whether the text can be a part of a path before a separator: not empty,
/// without a separator, and not ending in a colon, which would open the
/// separator one byte early.
pub open spec fn is_inner_part(s: Seq<u8>) -> bool {
    is_last_part(s) && s[s.len() - 1] != COLON
}

/// The descriptor of a function: address, module and function with `::`
/// between them.
pub open spec fn descriptor_of(address: Seq<u8>, module: Seq<u8>, function: Seq<u8>) -> Seq<u8> {
    address + separator() + module + separator() + function
}

/// An address text holds no colon.
proof fn lemma_address_text_has_no_colon(address: Seq<u8>)
    requires
        is_address_text(address),
    ensures
        forall|i: int| 0 <= i < address.len() ==> #[trigger] address[i] != COLON,
        is_inner_part(address),
{
    let d = address_digits(address);
    assert forall|i: int| 0 <= i < address.len() implies #[trigger] address[i] != COLON by {
        if has_hex_prefix(address) {
            if i >= 2 {
                assert(d[i - 2] == address[i]);
                assert(hex_digit(d[i - 2]).is_some());
            }
        } else {
            assert(hex_digit(d[i]).is_some());
        }
    }
    assert(address.len() > 0) by {
        if !has_hex_prefix(address) {
            assert(d == address);
        }
    }
}

/// An inner part before a separator is the first part of the path.
proof fn lemma_split_first_part(part: Seq<u8>, rest: Seq<u8>)
    requires
        is_inner_part(part),
    ensures
        split_path(part + separator() + rest) == seq![part] + split_path(rest),
{
    let s = part + separator() + rest;
    let n = part.len() as int;
    assert(s[n] == COLON && s[n + 1] == COLON);
    lemma_first_separator_bounds(s, 0);
    let at = first_separator(s, 0);
    assert(at == n) by {
        if at < n {
            if at + 1 < n {
                assert(separator_at(part, at));
            }
        } else if at > n {
            assert(separator_at(s, n));
        }
    }
    assert(s.subrange(0, n) =~= part);
    assert(s.skip(n + 2) =~= rest);
}

/// A text without a separator is a path of one part.
proof fn lemma_split_single_part(part: Seq<u8>)
    requires
        is_last_part(part),
    ensures
        split_path(part) == seq![part],
{
    lemma_first_separator_bounds(part, 0);
}

/// Parsing reproduces the triple: the descriptor made of an address text,
/// a module name and a function name, given with that module name beside
/// it, names the function of that name in that module at the address that
/// the text stands for. The names are any texts that the separators leave
/// whole.
pub proof fn law_reference_round_trip(address: Seq<u8>, module: Seq<u8>, function: Seq<u8>)
    requires
        is_address_text(address),
        is_inner_part(module),
        is_last_part(function),
    ensures
        reference_of_text(descriptor_of(address, module, function), module) == Ok::<
            ReferenceModel,
            ParseError,
        >(
            ReferenceModel {
                module_address: address_of_text(address),
                module_name: module,
                function_name: function,
            },
        ),
{
    lemma_address_text_has_no_colon(address);
    let tail = module + separator() + function;
    let whole = descriptor_of(address, module, function);
    assert(whole =~= address + separator() + tail);
    lemma_split_first_part(address, tail);
    lemma_split_first_part(module, function);
    lemma_split_single_part(function);
    assert(split_path(whole) =~= seq![address, module, function]);
}

/// An address text of full length stands for the bytes that its digits
/// spell two by two.
proof fn lemma_full_length_address(text: Seq<u8>)
    requires
        is_bytes_text(text),
        text.len() == 66,
    ensures
        is_address_text(text),
        address_of_text(text) == bytes_of_text(text),
{
    let d = address_digits(text);
    assert(d == text.skip(2));
    assert forall|i: int| 0 <= i < 32 implies address_of_text(text)[i] == bytes_of_text(
        text,
    )[i] by {
        assert(d[2 * i] == text[2 + 2 * i]);
        assert(d[2 * i + 1] == text[3 + 2 * i]);
        assert(hex_digit(d[2 * i]).is_some());
        assert(hex_digit(d[2 * i + 1]).is_some());
        assert(padded_nibble(d, 2 * i) == digit(text[2 + 2 * i]));
        assert(padded_nibble(d, 2 * i + 1) == digit(text[3 + 2 * i]));
    }
    assert(address_of_text(text) =~= bytes_of_text(text));
}

/// The text of 32 bytes is an address text that stands for those bytes.
pub proof fn lemma_full_address_text(address: Seq<u8>)
    requires
        address.len() == 32,
    ensures
        is_address_text(hex_text(address)),
        address_of_text(hex_text(address)) == address,
{
    lemma_hex_round_trip(address);
    lemma_full_length_address(hex_text(address));
}

/// A reference is read back from its text: the descriptor that a
/// reference is written as, given with the reference's module name beside
/// it, names that reference.
pub proof fn law_reference_text_round_trip(reference: ReferenceModel)
    requires
        reference.module_address.len() == 32,
        is_inner_part(reference.module_name),
        is_last_part(reference.function_name),
    ensures
        reference_of_text(reference_text(reference), reference.module_name) == Ok::<
            ReferenceModel,
            ParseError,
        >(reference),
{
    lemma_full_address_text(reference.module_address);
    law_reference_round_trip(
        hex_text(reference.module_address),
        reference.module_name,
        reference.function_name,
    );
}

/// Reading an interface is a function of the bytes: two results that both
/// meet the contract of `make_abi` for the same bytes are the same error
/// or hold the same interface.
pub proof fn law_abi_is_determined(
    bytes: Seq<u8>,
    first: Result<ModuleAbi, AbiError>,
    second: Result<ModuleAbi, AbiError>,
)
    requires
        match module_decoding(bytes) {
            Some(model) => first matches Ok(abi) && abi@ == model,
            None => first == Err::<ModuleAbi, AbiError>(
                AbiError::Malformed { section: malformed_section(bytes) },
            ),
        },
        match module_decoding(bytes) {
            Some(model) => second matches Ok(abi) && abi@ == model,
            None => second == Err::<ModuleAbi, AbiError>(
                AbiError::Malformed { section: malformed_section(bytes) },
            ),
        },
    ensures
        first is Ok <==> second is Ok,
        first is Ok ==> first->Ok_0@ == second->Ok_0@,
        first is Err ==> first->Err_0 == second->Err_0,
{
}

/// A call with more or fewer value literals than the function has
/// parameters is refused for its arity, whatever the literals are.
pub proof fn law_arity_mismatch(
    function: FunctionModel,
    arguments: Seq<Seq<u8>>,
    type_parameters: Seq<Seq<u8>>,
)
    requires
        arguments.len() != function.parameters.len(),
    ensures
        call_arguments(function, arguments, type_parameters) == Err::<EncodedModel, CodecError>(
            CodecError::ArityMismatch {
                expected: function.parameters.len() as usize,
                found: arguments.len() as usize,
            },
        ),
{
}

/// A call with the wrong number of value literals gives no payload.
pub proof fn law_arity_mismatch_gives_no_payload(
    module: Seq<u8>,
    reference: ReferenceModel,
    type_parameters: Seq<Seq<u8>>,
    arguments: Seq<Seq<u8>>,
)
    requires
        module_decoding(module) is Some,
        function_named(module_decoding(module)->Some_0.functions, reference.function_name) is Some,
        arguments.len() != function_named(
            module_decoding(module)->Some_0.functions,
            reference.function_name,
        )->Some_0.parameters.len(),
    ensures
        call_payload(module, reference, type_parameters, arguments) matches Err(
            CallError::Codec(CodecError::ArityMismatch { .. }),
        ),
{
}

/// A function that is no entry function is never the target of a payload.
pub proof fn law_internal_function_gives_no_payload(
    module: Seq<u8>,
    reference: ReferenceModel,
    type_parameters: Seq<Seq<u8>>,
    arguments: Seq<Seq<u8>>,
)
    requires
        module_decoding(module) is Some,
        function_named(module_decoding(module)->Some_0.functions, reference.function_name) is Some,
        !function_named(
            module_decoding(module)->Some_0.functions,
            reference.function_name,
        )->Some_0.is_entry,
    ensures
        call_payload(module, reference, type_parameters, arguments) is Err,
        call_arguments(
            function_named(
                module_decoding(module)->Some_0.functions,
                reference.function_name,
            )->Some_0,
            arguments,
            type_parameters,
        ) is Ok ==> call_payload(module, reference, type_parameters, arguments) == Err::<
            Seq<u8>,
            CallError,
        >(CallError::Encoding(EncodingError::NotCallable)),
{
}

/// The arguments that the codec encodes are as many as the function's
/// parameters, and the type arguments as many as its type parameters: the
/// payload made of them fits the function.
pub proof fn law_payload_fits(
    reference: ReferenceModel,
    function: FunctionModel,
    arguments: Seq<Seq<u8>>,
    type_parameters: Seq<Seq<u8>>,
)
    requires
        call_arguments(function, arguments, type_parameters) is Ok,
    ensures
        payload_of(
            reference,
            call_arguments(function, arguments, type_parameters)->Ok_0,
        ).fits(function),
{
    let values = values_encoding(function.parameters, arguments);
    let types = types_encoding(type_parameters);
    assert(values->Ok_0.len() == arguments.len());
    assert(types->Ok_0.len() == type_parameters.len());
}

/// An integer literal that a `u64` can hold is read back from its eight
/// bytes.
pub proof fn law_u64_round_trip(literal: Seq<u8>)
    requires
        number_of_text(literal) is Some,
        number_of_text(literal)->Some_0 <= u64::MAX,
    ensures
        value_encoding(TypeModel::U64, literal) is Ok,
        value_encoding(TypeModel::U64, literal)->Ok_0.len() == 8,
        le_value(value_encoding(TypeModel::U64, literal)->Ok_0) == number_of_text(literal)->Some_0,
{
    let v = number_of_text(literal)->Some_0;
    assert(byte_range(8) == u64::MAX + 1) by {
        reveal_with_fuel(byte_range, 9);
    }
    lemma_le_bytes_len(v, 8);
    lemma_le_round_trip(v, 8);
}

/// No literal stands for a signer, a struct, or a vector of such: whatever
/// the text, the type is reported as unsupported.
pub proof fn law_unsupported_types(t: TypeModel, literal: Seq<u8>)
    requires
        !is_encodable(t),
    ensures
        value_encoding(t, literal) == Err::<Seq<u8>, ValueFault>(ValueFault::UnsupportedType),
{
}

/// Where literals stand for the elements, the empty vector literal is the
/// vector of length zero: one byte, the count 0.
pub proof fn law_empty_vector(element: TypeModel)
    requires
        is_encodable(element),
    ensures
        value_encoding(
            TypeModel::Vector(Box::new(element)),
            seq![OPEN_BRACKET, CLOSE_BRACKET],
        ) == Ok::<Seq<u8>, ValueFault>(seq![0u8]),
{
    let text = seq![OPEN_BRACKET, CLOSE_BRACKET];
    assert(is_vector_text(text));
    assert(text.subrange(1, 1) =~= Seq::<u8>::empty());
    assert(vector_items(text) =~= Seq::<Seq<u8>>::empty());
    assert(uleb_encoding(0) + Seq::<u8>::empty() =~= seq![0u8]);
}

/// The digits of an address, filled up to 64 with zeros from the left.
pub open spec fn zero_padded(digits: Seq<u8>) -> Seq<u8> {
    Seq::new((64 - digits.len()) as nat, |i: int| DIGIT_0) + digits
}

/// The text with `0x` before it.
pub open spec fn with_hex_prefix(s: Seq<u8>) -> Seq<u8> {
    seq![DIGIT_0, LOWER_X] + s
}

/// Short and padded address literals are one address: the digits of an
/// address text, filled up with zeros to the full 64, with or without
/// `0x`, stand for the same 32 bytes as the text.
pub proof fn law_address_padding(literal: Seq<u8>)
    requires
        is_address_text(literal),
    ensures
        is_address_text(zero_padded(address_digits(literal))),
        is_address_text(with_hex_prefix(zero_padded(address_digits(literal)))),
        address_of_text(zero_padded(address_digits(literal))) == address_of_text(literal),
        address_of_text(with_hex_prefix(zero_padded(address_digits(literal)))) == address_of_text(
            literal,
        ),
        address_encoding(zero_padded(address_digits(literal))) == address_encoding(literal),
        address_encoding(with_hex_prefix(zero_padded(address_digits(literal))))
            == address_encoding(literal),
{
    let d = address_digits(literal);
    let padded = zero_padded(d);
    let prefixed = with_hex_prefix(padded);
    let missing = 64 - d.len();
    assert(padded.len() == 64);
    assert(hex_digit(DIGIT_0) == Some(0u8));
    assert forall|i: int| 0 <= i < padded.len() implies (#[trigger] hex_digit(
        padded[i],
    )).is_some() by {
        if i >= missing {
            assert(padded[i] == d[i - missing]);
            assert(hex_digit(d[i - missing]).is_some());
        }
    }
    assert(!has_hex_prefix(padded)) by {
        if has_hex_prefix(padded) {
            assert(hex_digit(padded[1]).is_some());
        }
    }
    assert(address_digits(padded) == padded);
    assert(has_hex_prefix(prefixed));
    assert(address_digits(prefixed) =~= padded);
    assert forall|k: int| 0 <= k < 64 implies padded_nibble(padded, k) == padded_nibble(d, k) by {
        if k >= missing {
            assert(padded[k] == d[k - missing]);
        }
    }
    assert(address_of_text(padded) =~= address_of_text(literal));
    assert(address_of_text(prefixed) =~= address_of_text(literal));
}

} // verus!
