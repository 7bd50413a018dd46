//! Tests of the little-endian byte helpers used across the host boundary.

use bpmn_interpreter::codec::{copy_bytes, u128_from_le_bytes, u128_to_le_bytes};

#[test]
fn u128_round_trips_through_bytes() {
    for v in [0u128, 1, 255, 256, 0xDEAD_BEEF, u128::MAX, 1u128 << 127] {
        let bytes = u128_to_le_bytes(v);
        assert_eq!(bytes.len(), 16);
        assert_eq!(u128_from_le_bytes(&bytes), Some(v));
    }
}

#[test]
fn u128_encoding_is_little_endian() {
    let bytes = u128_to_le_bytes(0x0201);
    assert_eq!(bytes[0], 1);
    assert_eq!(bytes[1], 2);
    assert_eq!(bytes[2], 0);
}

#[test]
fn short_byte_strings_do_not_decode() {
    assert_eq!(u128_from_le_bytes(&vec![]), None);
    assert_eq!(u128_from_le_bytes(&vec![1, 2, 3]), None);
    assert_eq!(u128_from_le_bytes(&vec![0; 15]), None);
}

#[test]
fn extra_bytes_are_ignored() {
    let mut bytes = u128_to_le_bytes(7);
    bytes.push(0xFF);
    assert_eq!(u128_from_le_bytes(&bytes), Some(7));
}

#[test]
fn copy_bytes_copies() {
    let v = vec![1u8, 2, 3];
    assert_eq!(copy_bytes(&v), v);
}
