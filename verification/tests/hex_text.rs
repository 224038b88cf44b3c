use sp_mvm_rpc::api::block_or_best;
use sp_mvm_rpc::hex::{decode_hex, encode_hex};

#[test]
fn bytes_as_text() {
    assert_eq!(encode_hex(&[]), b"0x".to_vec());
    assert_eq!(encode_hex(&[0x00, 0x0f, 0xa1, 0xff]), b"0x000fa1ff".to_vec());
}

#[test]
fn text_as_bytes() {
    assert_eq!(decode_hex(b"0x"), Some(vec![]));
    assert_eq!(decode_hex(b"0x000fa1ff"), Some(vec![0x00, 0x0f, 0xa1, 0xff]));
    assert_eq!(decode_hex(b"0xABcd"), Some(vec![0xab, 0xcd]));
}

#[test]
fn texts_that_are_no_bytes() {
    for text in [&b""[..], b"0", b"00", b"0x1", b"0x123", b"0xzz", b"0X00", b"x000", b"0x 0"] {
        assert_eq!(decode_hex(text), None);
    }
}

#[test]
fn text_of_bytes_is_read_back() {
    let all: Vec<u8> = (0..=255).collect();
    assert_eq!(decode_hex(&encode_hex(&all)), Some(all));
}

#[test]
fn named_block_or_else_best() {
    assert_eq!(block_or_best(Some(7u64), 9), 7);
    assert_eq!(block_or_best(None, 9u64), 9);
}
