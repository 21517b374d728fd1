use xorcrib::{bytes_to_hex, hex_to_bytes, FormatError};

#[test]
fn encode_renders_two_lowercase_digits_per_byte() {
    assert_eq!(bytes_to_hex(&[0x2f, 0x0f]), "2f0f");
    assert_eq!(bytes_to_hex(&[0x00, 0xff, 0x5a]), "00ff5a");
    assert_eq!(bytes_to_hex(&[]), "");
}

#[test]
fn decode_parses_pairs_of_digits() {
    assert_eq!(hex_to_bytes("2f0f").unwrap(), vec![0x2f, 0x0f]);
    assert_eq!(hex_to_bytes("00").unwrap(), vec![0x00]);
    assert_eq!(hex_to_bytes("").unwrap(), Vec::<u8>::new());
}

#[test]
fn decode_accepts_uppercase_digits() {
    assert_eq!(hex_to_bytes("2F").unwrap(), vec![0x2f]);
    assert_eq!(hex_to_bytes("AbCd").unwrap(), vec![0xab, 0xcd]);
}

#[test]
fn decode_rejects_odd_length() {
    assert_eq!(hex_to_bytes("abc"), Err(FormatError));
    assert_eq!(hex_to_bytes("0"), Err(FormatError));
}

#[test]
fn decode_rejects_non_hex_characters() {
    assert_eq!(hex_to_bytes("zz"), Err(FormatError));
    assert_eq!(hex_to_bytes("0g"), Err(FormatError));
    assert_eq!(hex_to_bytes("4 "), Err(FormatError));
}

#[test]
fn decode_of_encode_returns_the_bytes() {
    let mut all: Vec<u8> = Vec::new();
    let mut b: u16 = 0;
    while b < 256 {
        all.push(b as u8);
        b += 1;
    }
    assert_eq!(hex_to_bytes(&bytes_to_hex(&all)).unwrap(), all);
    assert_eq!(hex_to_bytes(&bytes_to_hex(&[])).unwrap(), Vec::<u8>::new());
}

#[test]
fn encode_of_decode_lowercases() {
    let bytes = hex_to_bytes("2F0FaB").unwrap();
    assert_eq!(bytes_to_hex(&bytes), "2f0fab");
}
