use sp_mvm_rpc::abi::{AbiError, AbilitySet, FunctionAbi, Section};
use sp_mvm_rpc::address::AccountAddress;
use sp_mvm_rpc::call::{build_call, encode_call, CallPayload, EncodingError};
use sp_mvm_rpc::codec::{encode_arguments, CodecError, EncodedArguments};
use sp_mvm_rpc::fn_call::{
    encode_submission, make_function_call, module_id_bytes, resolve_submission, CallError,
};
use sp_mvm_rpc::reference::{parse_function_string, FunctionReference, ParseError};
use sp_mvm_rpc::type_tag::TypeTag;

fn address_of(last: u8) -> AccountAddress {
    let mut bytes = [0u8; 32];
    bytes[31] = last;
    AccountAddress { bytes }
}

fn texts(items: &[&str]) -> Vec<Vec<u8>> {
    items.iter().map(|s| s.as_bytes().to_vec()).collect()
}

fn transfer_abi(is_entry: bool) -> FunctionAbi {
    FunctionAbi {
        name: b"transfer".to_vec(),
        is_entry,
        generic_constraints: vec![],
        parameters: vec![TypeTag::Address, TypeTag::U64],
        returns: vec![],
    }
}

fn transfer_reference() -> FunctionReference {
    parse_function_string(b"0x1::Coin::transfer", b"Coin").unwrap()
}

/// The payload of `0x1::Coin::transfer(0x2, 100)`.
fn transfer_payload() -> Vec<u8> {
    let mut expected = address_of(1).bytes.to_vec();
    expected.extend_from_slice(&[4, b'C', b'o', b'i', b'n']);
    expected.push(8);
    expected.extend_from_slice(b"transfer");
    expected.push(0);
    expected.push(2);
    expected.extend_from_slice(&address_of(2).bytes);
    expected.extend_from_slice(&[100, 0, 0, 0, 0, 0, 0, 0]);
    expected
}

/// A module `0x1::Coin` with `transfer(address, u64)`, entry or not, and an
/// entry function `swap<T, U>(vector<u8>)`.
fn coin_module(transfer_is_entry: bool) -> Vec<u8> {
    let mut bytes = vec![0xa1, 0x1c, 0xeb, 0x0b, 5, 0, 0, 0];
    bytes.extend_from_slice(&address_of(1).bytes);
    bytes.extend_from_slice(&[4, b'C', b'o', b'i', b'n']);
    bytes.push(0);
    bytes.push(2);
    bytes.push(8);
    bytes.extend_from_slice(b"transfer");
    bytes.extend_from_slice(&[transfer_is_entry as u8, 0, 2, 4, 2, 0]);
    bytes.push(4);
    bytes.extend_from_slice(b"swap");
    bytes.extend_from_slice(&[1, 2, 0, 4, 1, 6, 1, 0]);
    bytes
}

#[test]
fn encodes_a_transfer() {
    let reference = transfer_reference();
    let function = transfer_abi(true);
    let encoded = encode_arguments(&function, &texts(&["0x2", "100"]), &vec![]).unwrap();
    assert_eq!(encode_call(&reference, &function, &encoded), Ok(transfer_payload()));
}

#[test]
fn one_literal_only_gives_no_payload() {
    let function = transfer_abi(true);
    assert_eq!(
        encode_arguments(&function, &texts(&["0x2"]), &vec![]),
        Err(CodecError::ArityMismatch { expected: 2, found: 1 })
    );
    assert_eq!(
        make_function_call(&coin_module(true), &transfer_reference(), &vec![], &texts(&["0x2"])),
        Err(CallError::Codec(CodecError::ArityMismatch { expected: 2, found: 1 }))
    );
}

#[test]
fn internal_function_is_not_callable() {
    let reference = transfer_reference();
    let function = transfer_abi(false);
    let encoded = encode_arguments(&function, &texts(&["0x2", "100"]), &vec![]).unwrap();
    assert_eq!(encode_call(&reference, &function, &encoded), Err(EncodingError::NotCallable));
    assert_eq!(build_call(&reference, &function, &encoded), Err(EncodingError::NotCallable));
    assert_eq!(
        make_function_call(
            &coin_module(false),
            &reference,
            &vec![],
            &texts(&["0x2", "100"])
        ),
        Err(CallError::Encoding(EncodingError::NotCallable))
    );
}

#[test]
fn builds_the_payload_of_a_call() {
    let reference = transfer_reference();
    let function = transfer_abi(true);
    let encoded = encode_arguments(&function, &texts(&["0x2", "100"]), &vec![]).unwrap();
    let payload = build_call(&reference, &function, &encoded).unwrap();
    assert_eq!(
        payload,
        CallPayload {
            module_address: address_of(1),
            module_name: b"Coin".to_vec(),
            function_name: b"transfer".to_vec(),
            type_args: vec![],
            args: vec![address_of(2).bytes.to_vec(), vec![100, 0, 0, 0, 0, 0, 0, 0]],
        }
    );
    assert_eq!(payload.to_bytes(), transfer_payload());
}

#[test]
fn payload_holds_type_arguments_before_arguments() {
    let payload = CallPayload {
        module_address: address_of(0xaa),
        module_name: b"M".to_vec(),
        function_name: b"f".to_vec(),
        type_args: vec![vec![6, 1], vec![2]],
        args: vec![vec![9, 9], vec![], vec![7]],
    };
    let mut expected = address_of(0xaa).bytes.to_vec();
    expected.extend_from_slice(&[1, b'M', 1, b'f', 2, 6, 1, 2, 3, 9, 9, 7]);
    assert_eq!(payload.to_bytes(), expected);
}

#[test]
fn encodes_a_call_from_the_bytes_of_the_module() {
    assert_eq!(
        make_function_call(
            &coin_module(true),
            &transfer_reference(),
            &vec![],
            &texts(&["0x2", "100"])
        ),
        Ok(transfer_payload())
    );
}

#[test]
fn encodes_a_generic_call_from_the_bytes_of_the_module() {
    let reference = parse_function_string(b"0x1::Coin::swap", b"Coin").unwrap();
    let mut expected = address_of(1).bytes.to_vec();
    expected.extend_from_slice(&[4, b'C', b'o', b'i', b'n', 4, b's', b'w', b'a', b'p']);
    expected.extend_from_slice(&[2, 2, 6, 4]);
    expected.extend_from_slice(&[1, 3, 1, 2, 3]);
    assert_eq!(
        make_function_call(
            &coin_module(true),
            &reference,
            &texts(&["u64", "vector<address>"]),
            &texts(&["[1,2,3]"])
        ),
        Ok(expected)
    );
    assert_eq!(
        make_function_call(&coin_module(true), &reference, &texts(&["u64"]), &texts(&["[]"])),
        Err(CallError::Codec(CodecError::GenericArityMismatch { expected: 2, found: 1 }))
    );
}

#[test]
fn malformed_module_gives_no_payload() {
    let bytes = coin_module(true);
    assert_eq!(
        make_function_call(
            &bytes[..8],
            &transfer_reference(),
            &vec![],
            &texts(&["0x2", "100"])
        ),
        Err(CallError::Abi(AbiError::Malformed { section: Section::ModuleId }))
    );
}

#[test]
fn missing_function_gives_no_payload() {
    let reference = parse_function_string(b"0x1::Coin::mint", b"Coin").unwrap();
    assert_eq!(
        make_function_call(&coin_module(true), &reference, &vec![], &vec![]),
        Err(CallError::FunctionNotFound)
    );
}

#[test]
fn faulty_literals_come_before_callability() {
    assert_eq!(
        make_function_call(
            &coin_module(false),
            &transfer_reference(),
            &vec![],
            &texts(&["0x2", "many"])
        ),
        Err(CallError::Codec(CodecError::InvalidNumber { index: 1 }))
    );
}

#[test]
fn missing_module_gives_no_payload() {
    assert_eq!(
        encode_submission(&None, &transfer_reference(), &texts(&["0x2", "100"]), &vec![]),
        Err(CallError::ModuleNotFound)
    );
}

#[test]
fn encodes_a_submission() {
    let function = texts(&["0x1::Coin::transfer", "Coin", "transfer"]);
    let reference = resolve_submission(&function).unwrap();
    assert_eq!(reference, transfer_reference());
    let mut key = address_of(1).bytes.to_vec();
    key.extend_from_slice(&[4, b'C', b'o', b'i', b'n']);
    assert_eq!(module_id_bytes(&reference), key);
    assert_eq!(
        encode_submission(
            &Some(coin_module(true)),
            &reference,
            &texts(&["0x2", "100"]),
            &vec![]
        ),
        Ok(transfer_payload())
    );
}

#[test]
fn submissions_must_agree_with_their_descriptor() {
    assert_eq!(
        resolve_submission(&texts(&["0x1::Coin::transfer", "Coin", "mint"])),
        Err(ParseError::InconsistentFunctionName)
    );
    assert_eq!(
        resolve_submission(&texts(&["0x1::Coin::transfer", "Token", "transfer"])),
        Err(ParseError::InconsistentModuleName)
    );
    assert_eq!(
        resolve_submission(&texts(&["0x1::Coin::transfer", "Coin"])),
        Err(ParseError::Malformed)
    );
    assert_eq!(
        resolve_submission(&texts(&["0x1::Coin::transfer", "Coin", "transfer", "more"])),
        Err(ParseError::Malformed)
    );
    assert_eq!(resolve_submission(&vec![]), Err(ParseError::Malformed));
    assert_eq!(
        resolve_submission(&texts(&["Coin::transfer", "Coin", "transfer"])),
        Err(ParseError::Malformed)
    );
    assert_eq!(
        resolve_submission(&texts(&["1x::Coin::transfer", "Coin", "transfer"])),
        Err(ParseError::InvalidAddress)
    );
}

#[test]
fn encoded_arguments_fit_the_function() {
    let function = FunctionAbi {
        name: b"f".to_vec(),
        is_entry: true,
        generic_constraints: vec![AbilitySet { bits: 1 }, AbilitySet { bits: 2 }],
        parameters: vec![TypeTag::Bool, TypeTag::U8, TypeTag::U8],
        returns: vec![],
    };
    let encoded: EncodedArguments =
        encode_arguments(&function, &texts(&["true", "1", "2"]), &texts(&["u8", "bool"]))
            .unwrap();
    assert_eq!(encoded.args.len(), function.parameters.len());
    assert_eq!(encoded.type_args.len(), function.generic_arity());
}
