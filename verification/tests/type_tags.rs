use sp_mvm_rpc::address::AccountAddress;
use sp_mvm_rpc::type_tag::{read_type_tag, read_type_tags, write_type_tag, TypeTag, MAX_TYPE_DEPTH};
use sp_mvm_rpc::type_text::parse_type_tag;

fn address_of(last: u8) -> AccountAddress {
    let mut bytes = [0u8; 32];
    bytes[31] = last;
    AccountAddress { bytes }
}

fn bytes_of(tag: &TypeTag) -> Vec<u8> {
    let mut out = Vec::new();
    write_type_tag(&mut out, tag);
    out
}

fn vector_of(inner: TypeTag) -> TypeTag {
    TypeTag::Vector(Box::new(inner))
}

fn coin_struct(type_args: Vec<TypeTag>) -> TypeTag {
    TypeTag::Struct {
        address: address_of(1),
        module: b"Coin".to_vec(),
        name: b"T".to_vec(),
        type_args,
    }
}

fn coin_struct_bytes() -> Vec<u8> {
    let mut expected = vec![7u8];
    expected.extend_from_slice(&address_of(1).bytes);
    expected.extend_from_slice(&[4, b'C', b'o', b'i', b'n', 1, b'T']);
    expected
}

#[test]
fn primitive_tags_are_one_byte() {
    assert_eq!(bytes_of(&TypeTag::Bool), vec![0]);
    assert_eq!(bytes_of(&TypeTag::U8), vec![1]);
    assert_eq!(bytes_of(&TypeTag::U64), vec![2]);
    assert_eq!(bytes_of(&TypeTag::U128), vec![3]);
    assert_eq!(bytes_of(&TypeTag::Address), vec![4]);
    assert_eq!(bytes_of(&TypeTag::Signer), vec![5]);
}

#[test]
fn vector_tags_hold_their_element() {
    assert_eq!(bytes_of(&vector_of(TypeTag::U8)), vec![6, 1]);
    assert_eq!(bytes_of(&vector_of(vector_of(TypeTag::Address))), vec![6, 6, 4]);
}

#[test]
fn struct_tags_hold_address_names_and_arguments() {
    let mut expected = coin_struct_bytes();
    expected.push(0);
    assert_eq!(bytes_of(&coin_struct(vec![])), expected);

    let mut expected = coin_struct_bytes();
    expected.extend_from_slice(&[2, 2, 6, 0]);
    assert_eq!(
        bytes_of(&coin_struct(vec![TypeTag::U64, vector_of(TypeTag::Bool)])),
        expected
    );
}

#[test]
fn tags_are_read_back() {
    let tags = vec![
        TypeTag::Bool,
        TypeTag::U8,
        TypeTag::U64,
        TypeTag::U128,
        TypeTag::Address,
        TypeTag::Signer,
        vector_of(vector_of(TypeTag::U128)),
        coin_struct(vec![]),
        coin_struct(vec![coin_struct(vec![TypeTag::U8]), vector_of(TypeTag::Signer)]),
    ];
    for tag in tags {
        let mut bytes = vec![0xee];
        write_type_tag(&mut bytes, &tag);
        let end = bytes.len();
        bytes.push(0xdd);
        assert_eq!(read_type_tag(&bytes, 1, MAX_TYPE_DEPTH), Some((tag, end)));
    }
}

#[test]
fn several_tags_are_read_in_order() {
    let bytes = [2, 6, 1, 4, 9];
    assert_eq!(
        read_type_tags(&bytes, 0, 3, MAX_TYPE_DEPTH),
        Some((vec![TypeTag::U64, vector_of(TypeTag::U8), TypeTag::Address], 4))
    );
    assert_eq!(read_type_tags(&bytes, 2, 0, MAX_TYPE_DEPTH), Some((vec![], 2)));
    assert_eq!(read_type_tags(&bytes, 0, 5, MAX_TYPE_DEPTH), None);
}

#[test]
fn unknown_discriminants_are_not_read() {
    assert_eq!(read_type_tag(&[8], 0, MAX_TYPE_DEPTH), None);
    assert_eq!(read_type_tag(&[255], 0, MAX_TYPE_DEPTH), None);
    assert_eq!(read_type_tag(&[6, 9], 0, MAX_TYPE_DEPTH), None);
}

#[test]
fn truncated_tags_are_not_read() {
    assert_eq!(read_type_tag(&[], 0, MAX_TYPE_DEPTH), None);
    assert_eq!(read_type_tag(&[6], 0, MAX_TYPE_DEPTH), None);
    assert_eq!(read_type_tag(&[2], 1, MAX_TYPE_DEPTH), None);
    let mut bytes = coin_struct_bytes();
    assert_eq!(read_type_tag(&bytes, 0, MAX_TYPE_DEPTH), None);
    bytes.push(1);
    assert_eq!(read_type_tag(&bytes, 0, MAX_TYPE_DEPTH), None);
    assert_eq!(read_type_tag(&bytes[..20], 0, MAX_TYPE_DEPTH), None);
}

#[test]
fn tags_nest_no_deeper_than_allowed() {
    assert_eq!(read_type_tag(&[0], 0, 0), None);
    assert_eq!(read_type_tag(&[0], 0, 1), Some((TypeTag::Bool, 1)));
    assert_eq!(read_type_tag(&[6, 0], 0, 1), None);
    assert_eq!(read_type_tag(&[6, 0], 0, 2), Some((vector_of(TypeTag::Bool), 2)));
    let mut deepest = vec![6u8; MAX_TYPE_DEPTH - 1];
    deepest.push(1);
    assert!(read_type_tag(&deepest, 0, MAX_TYPE_DEPTH).is_some());
    let mut too_deep = vec![6u8; MAX_TYPE_DEPTH];
    too_deep.push(1);
    assert_eq!(read_type_tag(&too_deep, 0, MAX_TYPE_DEPTH), None);
}

#[test]
fn primitive_type_texts() {
    assert_eq!(parse_type_tag(b"bool", MAX_TYPE_DEPTH), Some(TypeTag::Bool));
    assert_eq!(parse_type_tag(b"u8", MAX_TYPE_DEPTH), Some(TypeTag::U8));
    assert_eq!(parse_type_tag(b"u64", MAX_TYPE_DEPTH), Some(TypeTag::U64));
    assert_eq!(parse_type_tag(b"u128", MAX_TYPE_DEPTH), Some(TypeTag::U128));
    assert_eq!(parse_type_tag(b"address", MAX_TYPE_DEPTH), Some(TypeTag::Address));
    assert_eq!(parse_type_tag(b"signer", MAX_TYPE_DEPTH), Some(TypeTag::Signer));
}

#[test]
fn vector_type_texts() {
    assert_eq!(parse_type_tag(b"vector<u8>", MAX_TYPE_DEPTH), Some(vector_of(TypeTag::U8)));
    assert_eq!(
        parse_type_tag(b"vector<vector<address>>", MAX_TYPE_DEPTH),
        Some(vector_of(vector_of(TypeTag::Address)))
    );
    assert_eq!(parse_type_tag(b"vector<>", MAX_TYPE_DEPTH), None);
    assert_eq!(parse_type_tag(b"vector<u8", MAX_TYPE_DEPTH), None);
    assert_eq!(parse_type_tag(b"vector<u8>>", MAX_TYPE_DEPTH), None);
    assert_eq!(parse_type_tag(b"vector<u8,u8>", MAX_TYPE_DEPTH), None);
}

#[test]
fn struct_type_texts() {
    assert_eq!(parse_type_tag(b"0x1::Coin::T", MAX_TYPE_DEPTH), Some(coin_struct(vec![])));
    assert_eq!(
        parse_type_tag(b"0x1::Coin::T<u64,vector<bool>>", MAX_TYPE_DEPTH),
        Some(coin_struct(vec![TypeTag::U64, vector_of(TypeTag::Bool)]))
    );
    assert_eq!(
        parse_type_tag(b"0x1::Coin::T<0x1::Coin::T<u8>,0x01::Coin::T>", MAX_TYPE_DEPTH),
        Some(coin_struct(vec![coin_struct(vec![TypeTag::U8]), coin_struct(vec![])]))
    );
}

#[test]
fn texts_that_name_no_type() {
    for text in [
        &b""[..],
        b"Bool",
        b"u16",
        b"u256",
        b" u8",
        b"Coin::T",
        b"0x1::Coin",
        b"0x1::Coin::T::more",
        b"0x1::::T",
        b"0x1::Coin::",
        b"::Coin::T",
        b"0xg::Coin::T",
        b"0x1::Coin::T<>",
        b"0x1::Coin::T<u8",
        b"0x1::Coin::T<u8>x",
        b"0x1::Coin::T<u8,>",
        b"0x1::Coin::T<u9>",
    ] {
        assert_eq!(parse_type_tag(text, MAX_TYPE_DEPTH), None);
    }
}

#[test]
fn type_texts_nest_no_deeper_than_allowed() {
    assert_eq!(parse_type_tag(b"u8", 0), None);
    assert_eq!(parse_type_tag(b"vector<u8>", 1), None);
    assert_eq!(parse_type_tag(b"vector<u8>", 2), Some(vector_of(TypeTag::U8)));
    assert_eq!(parse_type_tag(b"0x1::Coin::T", 1), Some(coin_struct(vec![])));
    assert_eq!(parse_type_tag(b"0x1::Coin::T<u8>", 1), None);
    assert_eq!(parse_type_tag(b"0x1::Coin::T<u8>", 2), Some(coin_struct(vec![TypeTag::U8])));
}
