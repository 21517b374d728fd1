use xorcrib::{decrypt, xor_bytes, BoundsError};

#[test]
fn xor_combines_byte_by_byte() {
    assert_eq!(xor_bytes(&[0x0f, 0xf0], &[0xff, 0xff]), vec![0xf0, 0x0f]);
}

#[test]
fn xor_truncates_to_the_shorter_input() {
    assert_eq!(xor_bytes(&[1, 2, 3], &[1, 2]), vec![0, 0]);
    assert_eq!(xor_bytes(&[1, 2], &[1, 2, 3]), vec![0, 0]);
    assert_eq!(xor_bytes(&[], &[1, 2, 3]), Vec::<u8>::new());
}

#[test]
fn xor_twice_restores_the_shared_prefix() {
    let a = [0xde, 0xad, 0xbe];
    let b = [0x12, 0x34];
    let once = xor_bytes(&a, &b);
    let twice = xor_bytes(&once, &b);
    assert_eq!(twice, vec![0xde, 0xad]);
}

#[test]
fn decrypt_xors_with_the_truncated_key() {
    assert_eq!(decrypt(&[0x41], &[0x05, 0xff]).unwrap(), vec![0x44]);
    assert_eq!(decrypt(&[0x41, 0x25], &[0x05, 0x05]).unwrap(), vec![0x44, 0x20]);
}

#[test]
fn decrypt_rejects_a_short_key() {
    assert_eq!(decrypt(&[1, 2, 3], &[0]), Err(BoundsError));
    assert_eq!(decrypt(&[1], &[]), Err(BoundsError));
}

#[test]
fn decrypt_passes_bytes_through_where_the_key_is_zero() {
    assert_eq!(decrypt(&[0x7b, 0x10], &[0x00, 0x00]).unwrap(), vec![0x7b, 0x10]);
}
