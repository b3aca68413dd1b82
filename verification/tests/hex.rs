use hyphae::hex::{decode_hex, decode_hex_digits, encode_hex, HexError};

#[test]
fn fixed_hex_round_trips_and_rejects_bad_input() {
    assert_eq!(decode_hex::<4>("000f10FF"), Ok([0, 15, 16, 255]));
    assert_eq!(decode_hex::<2>(" 00ff\r\n"), Ok([0, 255]));
    assert_eq!(
        decode_hex::<4>("00"),
        Err(HexError::Length {
            expected: 8,
            actual: 2
        })
    );
    assert_eq!(decode_hex::<1>("xz"), Err(HexError::Character));
}

#[test]
fn hex_encoding_is_lowercase_and_decodes_back() {
    assert_eq!(encode_hex(&[0, 15, 16, 255]), "000f10ff");
    assert_eq!(encode_hex(&[]), "");
    let bytes = [0xde, 0xad, 0xbe, 0xef, 0x01];
    assert_eq!(decode_hex::<5>(&encode_hex(&bytes)), Ok(bytes));
}

#[test]
fn hex_length_counts_bytes_after_trimming() {
    assert_eq!(
        decode_hex::<1>("\u{3000}a\u{e9}\u{3000}"),
        Err(HexError::Length {
            expected: 2,
            actual: 3
        })
    );
    assert_eq!(
        decode_hex_digits::<1>(" ab"),
        Err(HexError::Length {
            expected: 2,
            actual: 3
        })
    );
    assert_eq!(decode_hex_digits::<1>("aG"), Err(HexError::Character));
    assert_eq!(decode_hex_digits::<1>("Ab"), Ok([0xab]));
}
