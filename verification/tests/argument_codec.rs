use sp_mvm_rpc::abi::{AbilitySet, FunctionAbi};
use sp_mvm_rpc::address::AccountAddress;
use sp_mvm_rpc::codec::{encode_arguments, CodecError, EncodedArguments};
use sp_mvm_rpc::literal::{encode_value, parse_number, ValueFault};
use sp_mvm_rpc::type_tag::TypeTag;
use sp_mvm_rpc::wire::read_le;

fn address_bytes(last: u8) -> Vec<u8> {
    let mut bytes = vec![0u8; 32];
    bytes[31] = last;
    bytes
}

fn vector_of(inner: TypeTag) -> TypeTag {
    TypeTag::Vector(Box::new(inner))
}

fn struct_tag() -> TypeTag {
    TypeTag::Struct {
        address: AccountAddress { bytes: [0u8; 32] },
        module: b"M".to_vec(),
        name: b"S".to_vec(),
        type_args: vec![],
    }
}

fn function(parameters: Vec<TypeTag>, generics: usize) -> FunctionAbi {
    FunctionAbi {
        name: b"f".to_vec(),
        is_entry: true,
        generic_constraints: vec![AbilitySet { bits: 0 }; generics],
        parameters,
        returns: vec![],
    }
}

fn texts(items: &[&str]) -> Vec<Vec<u8>> {
    items.iter().map(|s| s.as_bytes().to_vec()).collect()
}

#[test]
fn bool_literals() {
    assert_eq!(encode_value(&TypeTag::Bool, b"true"), Ok(vec![1]));
    assert_eq!(encode_value(&TypeTag::Bool, b"false"), Ok(vec![0]));
    assert_eq!(encode_value(&TypeTag::Bool, b"TRUE"), Ok(vec![1]));
    assert_eq!(encode_value(&TypeTag::Bool, b"False"), Ok(vec![0]));
    assert_eq!(encode_value(&TypeTag::Bool, b"tRuE"), Ok(vec![1]));
}

#[test]
fn texts_that_are_no_bool() {
    for text in [&b""[..], b"1", b"0", b"yes", b"tru", b"truee", b" true", b"fals"] {
        assert_eq!(encode_value(&TypeTag::Bool, text), Err(ValueFault::InvalidBool));
    }
}

#[test]
fn integer_literals() {
    assert_eq!(encode_value(&TypeTag::U8, b"0"), Ok(vec![0]));
    assert_eq!(encode_value(&TypeTag::U8, b"255"), Ok(vec![255]));
    assert_eq!(encode_value(&TypeTag::U8, b"0xff"), Ok(vec![255]));
    assert_eq!(encode_value(&TypeTag::U8, b"007"), Ok(vec![7]));
    assert_eq!(encode_value(&TypeTag::U64, b"100"), Ok(vec![100, 0, 0, 0, 0, 0, 0, 0]));
    assert_eq!(
        encode_value(&TypeTag::U64, b"0x0102030405060708"),
        Ok(vec![8, 7, 6, 5, 4, 3, 2, 1])
    );
    assert_eq!(encode_value(&TypeTag::U64, b"0xAbCd"), Ok(vec![0xcd, 0xab, 0, 0, 0, 0, 0, 0]));
    assert_eq!(encode_value(&TypeTag::U64, b"18446744073709551615"), Ok(vec![0xff; 8]));
    assert_eq!(
        encode_value(&TypeTag::U128, b"340282366920938463463374607431768211455"),
        Ok(vec![0xff; 16])
    );
    let mut one = vec![0u8; 16];
    one[0] = 1;
    assert_eq!(encode_value(&TypeTag::U128, b"1"), Ok(one));
}

#[test]
fn integers_out_of_range() {
    assert_eq!(encode_value(&TypeTag::U8, b"256"), Err(ValueFault::OutOfRange));
    assert_eq!(encode_value(&TypeTag::U8, b"0x100"), Err(ValueFault::OutOfRange));
    assert_eq!(
        encode_value(&TypeTag::U64, b"18446744073709551616"),
        Err(ValueFault::OutOfRange)
    );
    assert_eq!(
        encode_value(&TypeTag::U128, b"340282366920938463463374607431768211456"),
        Err(ValueFault::OutOfRange)
    );
    assert_eq!(
        encode_value(&TypeTag::U128, b"0x100000000000000000000000000000000"),
        Err(ValueFault::OutOfRange)
    );
    let huge = vec![b'9'; 100];
    assert_eq!(encode_value(&TypeTag::U128, &huge), Err(ValueFault::OutOfRange));
}

#[test]
fn texts_that_are_no_number() {
    for text in [&b""[..], b"0x", b"-1", b"+1", b"1 ", b"12a", b"0xg", b"1_000", b"0X10", b"abc"] {
        assert_eq!(encode_value(&TypeTag::U64, text), Err(ValueFault::InvalidNumber));
    }
    let mut long_bad = vec![b'9'; 100];
    long_bad.push(b'x');
    assert_eq!(encode_value(&TypeTag::U8, &long_bad), Err(ValueFault::InvalidNumber));
}

#[test]
fn numbers_are_parsed_up_to_a_maximum() {
    assert_eq!(parse_number(b"42", 42), Ok(42));
    assert_eq!(parse_number(b"43", 42), Err(ValueFault::OutOfRange));
    assert_eq!(parse_number(b"0x2a", 42), Ok(42));
    assert_eq!(parse_number(b"0", 0), Ok(0));
    assert_eq!(parse_number(b"1", 0), Err(ValueFault::OutOfRange));
    assert_eq!(parse_number(b"", 42), Err(ValueFault::InvalidNumber));
}

#[test]
fn u64_literal_round_trip() {
    let bytes = encode_value(&TypeTag::U64, b"42").unwrap();
    assert_eq!(bytes, vec![42, 0, 0, 0, 0, 0, 0, 0]);
    assert_eq!(read_le(&bytes), Some(42));
}

#[test]
fn address_literals() {
    assert_eq!(encode_value(&TypeTag::Address, b"0x2"), Ok(address_bytes(2)));
    assert_eq!(encode_value(&TypeTag::Address, b"2"), Ok(address_bytes(2)));
    let mut expected = vec![0u8; 32];
    expected[30] = 0xab;
    expected[31] = 0xcd;
    assert_eq!(encode_value(&TypeTag::Address, b"0xABcd"), Ok(expected.clone()));
    assert_eq!(encode_value(&TypeTag::Address, b"0xbcd"), {
        let mut e = vec![0u8; 32];
        e[30] = 0x0b;
        e[31] = 0xcd;
        Ok(e)
    });
    let full = "0x".to_string() + &"ff".repeat(32);
    assert_eq!(encode_value(&TypeTag::Address, full.as_bytes()), Ok(vec![0xff; 32]));
}

#[test]
fn short_and_padded_addresses_are_the_same() {
    let padded = "0x".to_string() + &"0".repeat(63) + "1";
    let short = encode_value(&TypeTag::Address, b"0x1").unwrap();
    assert_eq!(encode_value(&TypeTag::Address, padded.as_bytes()).unwrap(), short);
    assert_eq!(encode_value(&TypeTag::Address, padded[2..].as_bytes()).unwrap(), short);
    assert_eq!(short, address_bytes(1));
    assert_eq!(AccountAddress::from_hex(b"0x1"), AccountAddress::from_hex(padded.as_bytes()));
}

#[test]
fn texts_that_are_no_address() {
    let too_long = "0x".to_string() + &"0".repeat(65);
    for text in [&b""[..], b"0x", b"0xg1", b"x1", b"0x 1", b"1::2", too_long.as_bytes()] {
        assert_eq!(encode_value(&TypeTag::Address, text), Err(ValueFault::InvalidAddress));
    }
}

#[test]
fn vector_literals() {
    assert_eq!(encode_value(&vector_of(TypeTag::U8), b"[]"), Ok(vec![0]));
    assert_eq!(encode_value(&vector_of(TypeTag::U8), b"[1,2,0xff]"), Ok(vec![3, 1, 2, 255]));
    assert_eq!(
        encode_value(&vector_of(TypeTag::U64), b"[7]"),
        Ok(vec![1, 7, 0, 0, 0, 0, 0, 0, 0])
    );
    assert_eq!(encode_value(&vector_of(TypeTag::Bool), b"[true,FALSE]"), Ok(vec![2, 1, 0]));
    let mut two = vec![2u8];
    two.extend_from_slice(&address_bytes(1));
    two.extend_from_slice(&address_bytes(2));
    assert_eq!(encode_value(&vector_of(TypeTag::Address), b"[0x1,0x2]"), Ok(two));
}

#[test]
fn nested_vector_literals() {
    let tag = vector_of(vector_of(TypeTag::U8));
    assert_eq!(encode_value(&tag, b"[]"), Ok(vec![0]));
    assert_eq!(encode_value(&tag, b"[[]]"), Ok(vec![1, 0]));
    assert_eq!(encode_value(&tag, b"[[1,2],[],[3]]"), Ok(vec![3, 2, 1, 2, 0, 1, 3]));
    let deep = vector_of(vector_of(vector_of(TypeTag::Bool)));
    assert_eq!(
        encode_value(&deep, b"[[[true],[false,true]],[]]"),
        Ok(vec![2, 2, 1, 1, 2, 0, 1, 0])
    );
}

#[test]
fn long_vectors_have_a_long_count() {
    let mut text = b"[".to_vec();
    for i in 0..200 {
        if i > 0 {
            text.push(b',');
        }
        text.push(b'1');
    }
    text.push(b']');
    let bytes = encode_value(&vector_of(TypeTag::U8), &text).unwrap();
    assert_eq!(&bytes[..2], &[0xc8, 0x01]);
    assert_eq!(bytes.len(), 202);
}

#[test]
fn texts_that_are_no_vector() {
    let tag = vector_of(TypeTag::U8);
    for text in [&b""[..], b"[", b"]", b"1,2", b"[1,2", b"1,2]", b" [1]", b"(1)"] {
        assert_eq!(encode_value(&tag, text), Err(ValueFault::InvalidVector));
    }
    let nested = vector_of(vector_of(TypeTag::U8));
    assert_eq!(encode_value(&nested, b"[1]"), Err(ValueFault::InvalidVector));
    assert_eq!(encode_value(&nested, b"[[1]"), Err(ValueFault::InvalidVector));
}

#[test]
fn faults_of_vector_items() {
    let tag = vector_of(TypeTag::U8);
    assert_eq!(encode_value(&tag, b"[1,,2]"), Err(ValueFault::InvalidNumber));
    assert_eq!(encode_value(&tag, b"[1,2,]"), Err(ValueFault::InvalidNumber));
    assert_eq!(encode_value(&tag, b"[1, 2]"), Err(ValueFault::InvalidNumber));
    assert_eq!(encode_value(&tag, b"[1,256]"), Err(ValueFault::OutOfRange));
    assert_eq!(encode_value(&tag, b"[256,x]"), Err(ValueFault::OutOfRange));
    assert_eq!(encode_value(&tag, b"[x,256]"), Err(ValueFault::InvalidNumber));
    assert_eq!(encode_value(&tag, b"[[1]]"), Err(ValueFault::InvalidNumber));
    assert_eq!(encode_value(&vector_of(TypeTag::Bool), b"[1]"), Err(ValueFault::InvalidBool));
    assert_eq!(
        encode_value(&vector_of(TypeTag::Address), b"[0x1,zz]"),
        Err(ValueFault::InvalidAddress)
    );
}

#[test]
fn signers_and_structs_have_no_literals() {
    assert_eq!(encode_value(&TypeTag::Signer, b"0x1"), Err(ValueFault::UnsupportedType));
    assert_eq!(encode_value(&struct_tag(), b"1"), Err(ValueFault::UnsupportedType));
    assert_eq!(encode_value(&vector_of(TypeTag::Signer), b"[]"), Err(ValueFault::UnsupportedType));
    assert_eq!(
        encode_value(&vector_of(vector_of(struct_tag())), b"not a vector"),
        Err(ValueFault::UnsupportedType)
    );
}

#[test]
fn encodes_the_arguments_of_a_call() {
    let transfer = function(vec![TypeTag::Address, TypeTag::U64], 0);
    assert_eq!(
        encode_arguments(&transfer, &texts(&["0x2", "100"]), &vec![]),
        Ok(EncodedArguments {
            type_args: vec![],
            args: vec![address_bytes(2), vec![100, 0, 0, 0, 0, 0, 0, 0]],
        })
    );
}

#[test]
fn encodes_the_type_arguments_of_a_call() {
    let generic = function(vec![TypeTag::Bool], 2);
    let mut coin = vec![7u8];
    coin.extend_from_slice(&address_bytes(1));
    coin.extend_from_slice(&[4, b'C', b'o', b'i', b'n', 1, b'T', 0]);
    assert_eq!(
        encode_arguments(&generic, &texts(&["true"]), &texts(&["vector<u8>", "0x1::Coin::T"])),
        Ok(EncodedArguments { type_args: vec![vec![6, 1], coin], args: vec![vec![1]] })
    );
}

#[test]
fn one_literal_less_or_more_is_an_arity_mismatch() {
    let transfer = function(vec![TypeTag::Address, TypeTag::U64], 0);
    assert_eq!(
        encode_arguments(&transfer, &texts(&["0x2"]), &vec![]),
        Err(CodecError::ArityMismatch { expected: 2, found: 1 })
    );
    assert_eq!(
        encode_arguments(&transfer, &texts(&["0x2", "100", "1"]), &vec![]),
        Err(CodecError::ArityMismatch { expected: 2, found: 3 })
    );
    assert_eq!(
        encode_arguments(&transfer, &vec![], &vec![]),
        Err(CodecError::ArityMismatch { expected: 2, found: 0 })
    );
    let nothing = function(vec![], 0);
    assert_eq!(
        encode_arguments(&nothing, &texts(&["1"]), &vec![]),
        Err(CodecError::ArityMismatch { expected: 0, found: 1 })
    );
}

#[test]
fn arity_is_checked_before_any_literal() {
    let transfer = function(vec![TypeTag::Address, TypeTag::U64], 1);
    assert_eq!(
        encode_arguments(&transfer, &texts(&["not an address"]), &texts(&["u8", "u8"])),
        Err(CodecError::ArityMismatch { expected: 2, found: 1 })
    );
    assert_eq!(
        encode_arguments(&transfer, &texts(&["not an address", "x"]), &texts(&["u8", "u8"])),
        Err(CodecError::GenericArityMismatch { expected: 1, found: 2 })
    );
    assert_eq!(
        encode_arguments(&transfer, &texts(&["0x1", "1"]), &vec![]),
        Err(CodecError::GenericArityMismatch { expected: 1, found: 0 })
    );
}

#[test]
fn the_first_faulty_literal_is_reported() {
    let f = function(
        vec![
            TypeTag::Bool,
            TypeTag::U8,
            TypeTag::U8,
            TypeTag::Address,
            vector_of(TypeTag::U8),
            TypeTag::Signer,
        ],
        1,
    );
    let good = ["true", "1", "2", "0x3", "[4]", "0x5"];
    let with = |at: usize, text: &'static str| {
        let mut items = good.to_vec();
        items[at] = text;
        encode_arguments(&f, &texts(&items), &texts(&["u8"]))
    };
    assert_eq!(with(0, "maybe"), Err(CodecError::InvalidBool { index: 0 }));
    assert_eq!(with(1, "one"), Err(CodecError::InvalidNumber { index: 1 }));
    assert_eq!(with(2, "256"), Err(CodecError::OutOfRange { index: 2 }));
    assert_eq!(with(3, "0xzz"), Err(CodecError::InvalidAddress { index: 3 }));
    assert_eq!(with(4, "4"), Err(CodecError::InvalidVector { index: 4 }));
    assert_eq!(with(5, "0x5"), Err(CodecError::UnsupportedType { index: 5 }));
    let two_faults = encode_arguments(
        &f,
        &texts(&["true", "1", "999", "nowhere", "[4]", "0x5"]),
        &texts(&["u8"]),
    );
    assert_eq!(two_faults, Err(CodecError::OutOfRange { index: 2 }));
}

#[test]
fn type_literals_that_name_no_type_are_reported() {
    let f = function(vec![TypeTag::U8], 2);
    assert_eq!(
        encode_arguments(&f, &texts(&["1"]), &texts(&["u8", "u9"])),
        Err(CodecError::InvalidTypeTag { index: 1 })
    );
    assert_eq!(
        encode_arguments(&f, &texts(&["1"]), &texts(&["", "u9"])),
        Err(CodecError::InvalidTypeTag { index: 0 })
    );
    assert_eq!(
        encode_arguments(&f, &texts(&["x"]), &texts(&["", "u9"])),
        Err(CodecError::InvalidNumber { index: 0 })
    );
}
