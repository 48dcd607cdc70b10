use dummycrypt::hex::{key_from_parts, parse_key, HexError, KeyError};

#[test]
fn key_is_read_from_hex_strings() {
    let key = parse_key("deadBEEF", "0102", "9d7f").ok().unwrap();
    assert_eq!(key.x, vec![0xde, 0xad, 0xbe, 0xef]);
    assert_eq!(key.a, vec![0x01, 0x02, 0x00, 0x00]);
    assert_eq!(key.m, vec![0x9d, 0x7f, 0, 0, 0, 0, 0, 0]);
    assert_eq!(key.len(), 4);
}

#[test]
fn hex_digits_are_case_insensitive() {
    let lower = parse_key("0a1b2c", "ff", "").ok().unwrap();
    let upper = parse_key("0A1B2C", "FF", "").ok().unwrap();
    assert_eq!(lower.x, vec![0x0a, 0x1b, 0x2c]);
    assert_eq!(lower.x, upper.x);
    assert_eq!(lower.a, upper.a);
    assert_eq!(lower.a, vec![0xff, 0, 0]);
}

#[test]
fn empty_strings_give_the_empty_key() {
    let key = parse_key("", "", "").ok().unwrap();
    assert_eq!(key.len(), 0);
    assert!(key.x.is_empty() && key.a.is_empty() && key.m.is_empty());
}

#[test]
fn xor_alone_pads_add_and_mix_with_zeros() {
    let key = parse_key("1234", "", "").ok().unwrap();
    assert_eq!(key.x, vec![0x12, 0x34]);
    assert_eq!(key.a, vec![0, 0]);
    assert_eq!(key.m, vec![0, 0, 0, 0]);
}

#[test]
fn malformed_hex_names_the_stream() {
    assert_eq!(
        parse_key("0g", "", "").err(),
        Some(KeyError::Xor(HexError::InvalidCharacter('g', 1)))
    );
    assert_eq!(
        parse_key("00", "zz", "").err(),
        Some(KeyError::Add(HexError::InvalidCharacter('z', 0)))
    );
    assert_eq!(parse_key("00", "11", "123").err(), Some(KeyError::Mix(HexError::InvalidLength)));
    assert_eq!(parse_key("f", "zz", "123").err(), Some(KeyError::Xor(HexError::InvalidLength)));
}

#[test]
fn first_error_wins_in_the_order_xor_add_mix() {
    let bad = HexError::InvalidLength;
    let other = HexError::InvalidCharacter('q', 3);
    assert_eq!(
        key_from_parts(Err(bad), Err(other), Err(other)).err(),
        Some(KeyError::Xor(bad))
    );
    assert_eq!(
        key_from_parts(Ok(vec![1]), Err(other), Err(bad)).err(),
        Some(KeyError::Add(other))
    );
    assert_eq!(
        key_from_parts(Ok(vec![1]), Ok(vec![]), Err(bad)).err(),
        Some(KeyError::Mix(bad))
    );
}

#[test]
fn decoded_parts_are_padded() {
    let key = key_from_parts(Ok(vec![1]), Ok(vec![2, 3]), Ok(vec![0, 4, 0, 5, 0, 6]))
        .ok()
        .unwrap();
    assert_eq!(key.x, vec![1, 0, 0]);
    assert_eq!(key.a, vec![2, 3, 0]);
    assert_eq!(key.m, vec![0, 4, 0, 5, 0, 6]);
}
