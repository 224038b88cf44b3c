//! From a request to a call payload: the target is resolved, the module
//! that was fetched for it is read, and the call is encoded.

use vstd::prelude::*;
pub use crate::abi::make_abi;
use crate::abi::{function_named, malformed_section, module_decoding, AbiError};
use crate::bytes::{append_bytes, bytes_equal};
use crate::call::{call_encoding, encode_call, EncodingError};
use crate::codec::{byte_strings, call_arguments, encode_arguments, CodecError};
pub use crate::reference::parse_function_string;
use crate::reference::{reference_of_text, FunctionReference, ParseError, ReferenceModel};
use crate::wire::{length_prefixed, write_length_prefixed};

verus! {

/// Why a request gives no call payload.
#[derive(Clone, Copy, Debug, PartialEq, Eq)]
pub enum CallError {
    /// No module is deployed under the name.
    ModuleNotFound,
    /// The module's bytes give no interface.
    Abi(AbiError),
    /// The module has no function of the name.
    FunctionNotFound,
    /// The literals do not fit the function.
    Codec(CodecError),
    /// The function cannot be called from outside.
    Encoding(EncodingError),
}

/// The function that a request names. A request holds three texts: the
/// descriptor, the module name and the function name; the descriptor
/// decides, and the other two must agree with it.
pub open spec fn submission_target(function: Seq<Seq<u8>>) -> Result<ReferenceModel, ParseError> {
    if function.len() != 3 {
        Err(ParseError::Malformed)
    } else {
        match reference_of_text(function[0], function[1]) {
            Ok(reference) => if function[2] == reference.function_name {
                Ok(reference)
            } else {
                Err(ParseError::InconsistentFunctionName)
            },
            Err(e) => Err(e),
        }
    }
}

/// The key under which the module of a function is stored: the address,
/// then the module name behind its length.
pub open spec fn module_key(reference: ReferenceModel) -> Seq<u8> {
    reference.module_address + length_prefixed(reference.module_name)
}

/// The payload of a call, from the bytes of the module: the interface is
/// read, the function is looked up in it, the literals are encoded against
/// its signature, and the call is encoded if the function is an entry
/// function.
pub open spec fn call_payload(
    module: Seq<u8>,
    reference: ReferenceModel,
    type_parameters: Seq<Seq<u8>>,
    arguments: Seq<Seq<u8>>,
) -> Result<Seq<u8>, CallError> {
    match module_decoding(module) {
        Some(abi) => match function_named(abi.functions, reference.function_name) {
            Some(function) => match call_arguments(function, arguments, type_parameters) {
                Ok(encoded) => match call_encoding(reference, function, encoded) {
                    Ok(bytes) => Ok(bytes),
                    Err(e) => Err(CallError::Encoding(e)),
                },
                Err(e) => Err(CallError::Codec(e)),
            },
            None => Err(CallError::FunctionNotFound),
        },
        None => Err(CallError::Abi(AbiError::Malformed { section: malformed_section(module) })),
    }
}

/// The payload of a call, from what was found under the module's key.
pub open spec fn submission_payload(
    module: Option<Seq<u8>>,
    reference: ReferenceModel,
    arguments: Seq<Seq<u8>>,
    type_parameters: Seq<Seq<u8>>,
) -> Result<Seq<u8>, CallError> {
    match module {
        Some(bytes) => call_payload(bytes, reference, type_parameters, arguments),
        None => Err(CallError::ModuleNotFound),
    }
}

/// Resolves the target of a request from its three texts.
pub fn resolve_submission(function: &Vec<Vec<u8>>) -> (res: Result<FunctionReference, ParseError>)
    ensures
        match submission_target(byte_strings(function@)) {
            Ok(model) => res matches Ok(found) && found@ == model,
            Err(e) => res matches Err(found) && found == e,
        },
{
    if function.len() != 3 {
        return Err(ParseError::Malformed);
    }
    match parse_function_string(function[0].as_slice(), function[1].as_slice()) {
        Ok(reference) => {
            if bytes_equal(function[2].as_slice(), reference.function_name.as_slice()) {
                Ok(reference)
            } else {
                Err(ParseError::InconsistentFunctionName)
            }
        },
        Err(e) => Err(e),
    }
}

/// The key under which the module of the function is stored.
pub fn module_id_bytes(reference: &FunctionReference) -> (res: Vec<u8>)
    ensures
        res@ == module_key(reference@),
{
    let mut out: Vec<u8> = Vec::new();
    append_bytes(&mut out, reference.module_address.bytes.as_slice());
    write_length_prefixed(&mut out, reference.module_name.as_slice());
    assert(out@ =~= module_key(reference@));
    out
}

/// Encodes a call to the function that `reference` names, against the
/// bytes of its module.
pub fn make_function_call(
    module: &[u8],
    reference: &FunctionReference,
    type_parameters: &Vec<Vec<u8>>,
    arguments: &Vec<Vec<u8>>,
) -> (res: Result<Vec<u8>, CallError>)
    ensures
        match call_payload(
            module@,
            reference@,
            byte_strings(type_parameters@),
            byte_strings(arguments@),
        ) {
            Ok(bytes) => res matches Ok(v) && v@ == bytes,
            Err(e) => res matches Err(found) && found == e,
        },
{
    let abi = match make_abi(module) {
        Ok(abi) => abi,
        Err(e) => {
            return Err(CallError::Abi(e));
        },
    };
    let function = match abi.find_function(reference.function_name.as_slice()) {
        Some(function) => function,
        None => {
            return Err(CallError::FunctionNotFound);
        },
    };
    let encoded = match encode_arguments(function, arguments, type_parameters) {
        Ok(encoded) => encoded,
        Err(e) => {
            return Err(CallError::Codec(e));
        },
    };
    match encode_call(reference, function, &encoded) {
        Ok(bytes) => Ok(bytes),
        Err(e) => Err(CallError::Encoding(e)),
    }
}

/// Encodes the call of a request, from what was found under the key of
/// the target's module.
pub fn encode_submission(
    module: &Option<Vec<u8>>,
    reference: &FunctionReference,
    arguments: &Vec<Vec<u8>>,
    type_parameters: &Vec<Vec<u8>>,
) -> (res: Result<Vec<u8>, CallError>)
    ensures
        match submission_payload(
            match module {
                Some(bytes) => Some(bytes@),
                None => None,
            },
            reference@,
            byte_strings(arguments@),
            byte_strings(type_parameters@),
        ) {
            Ok(bytes) => res matches Ok(v) && v@ == bytes,
            Err(e) => res matches Err(found) && found == e,
        },
{
    match module {
        Some(bytes) => make_function_call(bytes.as_slice(), reference, type_parameters, arguments),
        None => Err(CallError::ModuleNotFound),
    }
}

} // verus!
