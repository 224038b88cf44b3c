use sp_mvm_rpc::abi::{
    encode_abi, make_abi, AbiError, AbilitySet, FunctionAbi, ModuleAbi, ModuleId, Section,
};
use sp_mvm_rpc::address::AccountAddress;
use sp_mvm_rpc::type_tag::TypeTag;

fn address_of(last: u8) -> AccountAddress {
    let mut bytes = [0u8; 32];
    bytes[31] = last;
    AccountAddress { bytes }
}

fn malformed(section: Section) -> Result<ModuleAbi, AbiError> {
    Err(AbiError::Malformed { section })
}

fn header() -> Vec<u8> {
    vec![0xa1, 0x1c, 0xeb, 0x0b, 1, 0, 0, 0]
}

/// Header, address 0x1 and the name `Coin`.
fn module_start() -> Vec<u8> {
    let mut bytes = header();
    bytes.extend_from_slice(&address_of(1).bytes);
    bytes.extend_from_slice(&[4, b'C', b'o', b'i', b'n']);
    bytes
}

/// `transfer(address, u64)`, entry, no type parameters, no results.
fn transfer_definition() -> Vec<u8> {
    let mut bytes = vec![8u8];
    bytes.extend_from_slice(b"transfer");
    bytes.extend_from_slice(&[1, 0, 2, 4, 2, 0]);
    bytes
}

/// `balance<T: store>(address): u64`, not entry.
fn balance_definition() -> Vec<u8> {
    let mut bytes = vec![7u8];
    bytes.extend_from_slice(b"balance");
    bytes.extend_from_slice(&[0, 1, 4, 1, 4, 1, 2]);
    bytes
}

fn coin_module() -> Vec<u8> {
    let mut bytes = module_start();
    // one struct: `T`, abilities store, one field of type u64
    bytes.extend_from_slice(&[1, 1, b'T', 4, 1, 2]);
    bytes.push(2);
    bytes.extend_from_slice(&transfer_definition());
    bytes.extend_from_slice(&balance_definition());
    bytes
}

fn coin_abi() -> ModuleAbi {
    ModuleAbi {
        module_id: ModuleId { address: address_of(1), name: b"Coin".to_vec() },
        functions: vec![
            FunctionAbi {
                name: b"transfer".to_vec(),
                is_entry: true,
                generic_constraints: vec![],
                parameters: vec![TypeTag::Address, TypeTag::U64],
                returns: vec![],
            },
            FunctionAbi {
                name: b"balance".to_vec(),
                is_entry: false,
                generic_constraints: vec![AbilitySet { bits: 4 }],
                parameters: vec![TypeTag::Address],
                returns: vec![TypeTag::U64],
            },
        ],
    }
}

#[test]
fn reads_functions_of_a_module() {
    assert_eq!(make_abi(&coin_module()), Ok(coin_abi()));
}

#[test]
fn reads_a_module_without_definitions() {
    let mut bytes = module_start();
    bytes.extend_from_slice(&[0, 0]);
    assert_eq!(
        make_abi(&bytes),
        Ok(ModuleAbi {
            module_id: ModuleId { address: address_of(1), name: b"Coin".to_vec() },
            functions: vec![],
        })
    );
}

#[test]
fn reading_twice_gives_the_same_interface() {
    let bytes = coin_module();
    let first = make_abi(&bytes);
    let second = make_abi(&bytes);
    assert!(first.is_ok());
    assert_eq!(first, second);
}

#[test]
fn keeps_functions_that_are_no_entry_functions() {
    let abi = make_abi(&coin_module()).unwrap();
    let balance = abi.find_function(b"balance").unwrap();
    assert!(!balance.is_entry);
    assert_eq!(balance.generic_arity(), 1);
    assert_eq!(balance.returns, vec![TypeTag::U64]);
}

#[test]
fn finds_functions_by_name() {
    let abi = coin_abi();
    assert_eq!(abi.find_function(b"transfer"), Some(&abi.functions[0]));
    assert_eq!(abi.find_function(b"balance"), Some(&abi.functions[1]));
    assert_eq!(abi.find_function(b"mint"), None);
    assert_eq!(abi.find_function(b""), None);
}

#[test]
fn truncated_after_header_is_malformed() {
    assert_eq!(make_abi(&header()), malformed(Section::ModuleId));
}

#[test]
fn every_truncation_is_malformed() {
    let bytes = coin_module();
    let functions_from = bytes.len() - transfer_definition().len() - balance_definition().len();
    for end in 0..bytes.len() {
        let section = if end < 8 {
            Section::Header
        } else if end < 45 {
            Section::ModuleId
        } else if end < functions_from - 1 {
            Section::Structs
        } else {
            Section::Functions
        };
        assert_eq!(make_abi(&bytes[..end]), malformed(section));
    }
}

#[test]
fn trailing_bytes_are_malformed() {
    let mut bytes = coin_module();
    bytes.push(0);
    assert_eq!(make_abi(&bytes), malformed(Section::End));
}

#[test]
fn other_magic_is_malformed() {
    for at in 0..4 {
        let mut bytes = coin_module();
        bytes[at] ^= 0x10;
        assert_eq!(make_abi(&bytes), malformed(Section::Header));
    }
}

#[test]
fn versions_outside_the_range_are_malformed() {
    for version in [0u32, 7, 256, u32::MAX] {
        let mut bytes = coin_module();
        bytes[4..8].copy_from_slice(&version.to_le_bytes());
        assert_eq!(make_abi(&bytes), malformed(Section::Header));
    }
    for version in 1u32..=6 {
        let mut bytes = coin_module();
        bytes[4..8].copy_from_slice(&version.to_le_bytes());
        assert_eq!(make_abi(&bytes), Ok(coin_abi()));
    }
}

#[test]
fn unknown_type_tag_is_malformed() {
    let mut bytes = module_start();
    bytes.extend_from_slice(&[0, 1, 1, b'f', 1, 0, 1, 9, 0]);
    assert_eq!(make_abi(&bytes), malformed(Section::Functions));
    let mut bytes = module_start();
    bytes.extend_from_slice(&[1, 1, b'T', 0, 1, 8, 0]);
    assert_eq!(make_abi(&bytes), malformed(Section::Structs));
}

#[test]
fn unknown_flag_is_malformed() {
    let mut bytes = module_start();
    bytes.extend_from_slice(&[0, 1, 1, b'f', 2, 0, 0, 0]);
    assert_eq!(make_abi(&bytes), malformed(Section::Functions));
}

#[test]
fn unknown_ability_is_malformed() {
    let mut bytes = module_start();
    bytes.extend_from_slice(&[0, 1, 1, b'f', 1, 1, 16, 0, 0]);
    assert_eq!(make_abi(&bytes), malformed(Section::Functions));
    let mut bytes = module_start();
    bytes.extend_from_slice(&[1, 1, b'T', 16, 0, 0]);
    assert_eq!(make_abi(&bytes), malformed(Section::Structs));
}

#[test]
fn repeated_function_name_is_malformed() {
    let mut bytes = module_start();
    bytes.extend_from_slice(&[0, 2]);
    bytes.extend_from_slice(&transfer_definition());
    bytes.extend_from_slice(&transfer_definition());
    assert_eq!(make_abi(&bytes), malformed(Section::Names));
}

#[test]
fn reads_struct_typed_parameters() {
    let mut bytes = module_start();
    bytes.extend_from_slice(&[0, 1, 1, b'f', 0, 0, 1, 6, 7]);
    bytes.extend_from_slice(&address_of(2).bytes);
    bytes.extend_from_slice(&[1, b'M', 1, b'S', 1, 5, 0]);
    let abi = make_abi(&bytes).unwrap();
    assert_eq!(
        abi.functions[0].parameters,
        vec![TypeTag::Vector(Box::new(TypeTag::Struct {
            address: address_of(2),
            module: b"M".to_vec(),
            name: b"S".to_vec(),
            type_args: vec![TypeTag::Signer],
        }))]
    );
}

fn generic_abi() -> ModuleAbi {
    let coin = TypeTag::Struct {
        address: address_of(1),
        module: b"Coin".to_vec(),
        name: b"T".to_vec(),
        type_args: vec![TypeTag::Vector(Box::new(TypeTag::U8)), TypeTag::Signer],
    };
    ModuleAbi {
        module_id: ModuleId { address: address_of(0xa0), name: b"Market".to_vec() },
        functions: vec![
            FunctionAbi {
                name: b"swap".to_vec(),
                is_entry: true,
                generic_constraints: vec![AbilitySet { bits: 0 }, AbilitySet { bits: 15 }],
                parameters: vec![TypeTag::Signer, coin, TypeTag::U128, TypeTag::Bool],
                returns: vec![TypeTag::Vector(Box::new(TypeTag::Vector(Box::new(
                    TypeTag::Address,
                ))))],
            },
            FunctionAbi {
                name: b"nothing".to_vec(),
                is_entry: false,
                generic_constraints: vec![],
                parameters: vec![],
                returns: vec![],
            },
        ],
    }
}

#[test]
fn writes_the_bytes_of_a_module() {
    let mut expected = vec![0xa1, 0x1c, 0xeb, 0x0b, 6, 0, 0, 0];
    expected.extend_from_slice(&address_of(1).bytes);
    expected.extend_from_slice(&[4, b'C', b'o', b'i', b'n']);
    expected.push(0);
    expected.push(2);
    expected.extend_from_slice(&transfer_definition());
    expected.extend_from_slice(&balance_definition());
    assert_eq!(encode_abi(&coin_abi()), expected);
}

#[test]
fn what_was_written_is_read_back() {
    for abi in [coin_abi(), generic_abi()] {
        assert_eq!(make_abi(&encode_abi(&abi)), Ok(abi));
    }
}

#[test]
fn a_written_interface_with_a_repeated_name_is_not_read() {
    let mut abi = coin_abi();
    abi.functions[1].name = b"transfer".to_vec();
    assert_eq!(make_abi(&encode_abi(&abi)), malformed(Section::Names));
}

#[test]
fn a_written_interface_with_an_unknown_ability_is_not_read() {
    let mut abi = coin_abi();
    abi.functions[1].generic_constraints[0].bits = 16;
    assert_eq!(make_abi(&encode_abi(&abi)), malformed(Section::Functions));
}

#[test]
fn the_call_module_reads_interfaces_too() {
    assert_eq!(sp_mvm_rpc::fn_call::make_abi(&coin_module()), Ok(coin_abi()));
}
