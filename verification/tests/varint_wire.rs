use sp_mvm_rpc::varint::{read_uleb, write_uleb};
use sp_mvm_rpc::wire::{read_le, read_length_prefixed, write_le, write_length_prefixed};

fn uleb(value: u64) -> Vec<u8> {
    let mut out = Vec::new();
    write_uleb(&mut out, value);
    out
}

#[test]
fn uleb_of_small_values_is_one_byte() {
    assert_eq!(uleb(0), vec![0x00]);
    assert_eq!(uleb(1), vec![0x01]);
    assert_eq!(uleb(127), vec![0x7f]);
}

#[test]
fn uleb_of_larger_values_continues() {
    assert_eq!(uleb(128), vec![0x80, 0x01]);
    assert_eq!(uleb(300), vec![0xac, 0x02]);
    assert_eq!(uleb(16384), vec![0x80, 0x80, 0x01]);
    assert_eq!(
        uleb(u64::MAX),
        vec![0xff, 0xff, 0xff, 0xff, 0xff, 0xff, 0xff, 0xff, 0xff, 0x01]
    );
}

#[test]
fn uleb_appends_to_what_is_there() {
    let mut out = vec![9u8, 9];
    write_uleb(&mut out, 300);
    assert_eq!(out, vec![9, 9, 0xac, 0x02]);
}

#[test]
fn uleb_reads_back_what_was_written() {
    for value in [0u64, 1, 127, 128, 255, 300, 16383, 16384, 1 << 32, u64::MAX - 1, u64::MAX] {
        let mut bytes = uleb(value);
        let end = bytes.len();
        bytes.push(0xee);
        assert_eq!(read_uleb(&bytes, 0), Some((value, end)));
    }
}

#[test]
fn uleb_reads_from_a_position() {
    let bytes = [0xff, 0xac, 0x02, 0x05];
    assert_eq!(read_uleb(&bytes, 1), Some((300, 3)));
    assert_eq!(read_uleb(&bytes, 3), Some((5, 4)));
    assert_eq!(read_uleb(&bytes, 4), None);
    assert_eq!(read_uleb(&bytes, 9), None);
}

#[test]
fn uleb_rejects_truncated_input() {
    assert_eq!(read_uleb(&[], 0), None);
    assert_eq!(read_uleb(&[0x80], 0), None);
    assert_eq!(read_uleb(&[0xff, 0xff], 0), None);
}

#[test]
fn uleb_rejects_a_zero_high_group() {
    assert_eq!(read_uleb(&[0x80, 0x00], 0), None);
    assert_eq!(read_uleb(&[0x81, 0x80, 0x00], 0), None);
    assert_eq!(read_uleb(&[0x00], 0), Some((0, 1)));
}

#[test]
fn uleb_rejects_more_than_64_bits() {
    let too_large = [0xff, 0xff, 0xff, 0xff, 0xff, 0xff, 0xff, 0xff, 0xff, 0x02];
    assert_eq!(read_uleb(&too_large, 0), None);
    let eleven = [0x80, 0x80, 0x80, 0x80, 0x80, 0x80, 0x80, 0x80, 0x80, 0x80, 0x01];
    assert_eq!(read_uleb(&eleven, 0), None);
}

#[test]
fn little_endian_bytes_of_integers() {
    let mut out = Vec::new();
    write_le(&mut out, 0x0102, 2);
    assert_eq!(out, vec![0x02, 0x01]);
    let mut out = Vec::new();
    write_le(&mut out, 100, 8);
    assert_eq!(out, vec![100, 0, 0, 0, 0, 0, 0, 0]);
    let mut out = Vec::new();
    write_le(&mut out, u128::MAX, 16);
    assert_eq!(out, vec![0xff; 16]);
    let mut out = Vec::new();
    write_le(&mut out, 0x1ff, 1);
    assert_eq!(out, vec![0xff]);
}

#[test]
fn little_endian_bytes_are_read_back() {
    assert_eq!(read_le(&[]), Some(0));
    assert_eq!(read_le(&[0x02, 0x01]), Some(0x0102));
    assert_eq!(read_le(&[42, 0, 0, 0, 0, 0, 0, 0]), Some(42));
    assert_eq!(read_le(&[0xff; 16]), Some(u128::MAX));
    assert_eq!(read_le(&[0; 17]), None);
}

#[test]
fn byte_strings_stand_behind_their_length() {
    let mut out = Vec::new();
    write_length_prefixed(&mut out, b"Coin");
    assert_eq!(out, vec![4, b'C', b'o', b'i', b'n']);
    let mut out = Vec::new();
    write_length_prefixed(&mut out, b"");
    assert_eq!(out, vec![0]);
    let long = vec![7u8; 200];
    let mut out = Vec::new();
    write_length_prefixed(&mut out, &long);
    assert_eq!(out.len(), 202);
    assert_eq!(&out[..2], &[0xc8, 0x01]);
    assert_eq!(read_length_prefixed(&out, 0), Some((long, 202)));
}

#[test]
fn byte_strings_are_read_from_a_position() {
    let bytes = [0xaa, 3, b'a', b'b', b'c', 0xbb];
    assert_eq!(read_length_prefixed(&bytes, 1), Some((b"abc".to_vec(), 5)));
    assert_eq!(read_length_prefixed(&[0], 0), Some((Vec::new(), 1)));
}

#[test]
fn byte_strings_that_end_early_are_not_read() {
    assert_eq!(read_length_prefixed(&[3, b'a', b'b'], 0), None);
    assert_eq!(read_length_prefixed(&[], 0), None);
    assert_eq!(read_length_prefixed(&[0x80], 0), None);
}
