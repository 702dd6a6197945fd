use std::collections::BTreeSet;

use stegano::binary::Byte;
use stegano::binary::convert_bool_to_u8;
use stegano::binary::convert_byte_vec_to_bit_array;
use stegano::binary::convert_u8_vec_to_byte_array;
use stegano::binary::is_one_byte_char;
use stegano::binary::is_one_byte_chars_message;
use stegano::errors::StegError;

#[test]
fn test_constructor_accessor() {
    let byte = Byte::new(31);
    assert_eq!(byte.get_value(), 31);
}

#[test]
fn test_from_bool_vec() {
    let tab = [false, false, false, true, true, true, true, true];

    let vec = &tab.to_vec();

    assert_eq!(
        Byte::from_bool_array(&vec).expect("Unable to convert bitvec to Byte!"),
        Byte::new(31)
    );
}

#[test]
fn test_empty_least_significant_bit() {
    let mut byte = Byte::new(31);

    byte.empty_least_significant_bit();
    assert_eq!(byte, Byte::new(30));
    byte.empty_least_significant_bit();
    assert_eq!(byte, Byte::new(30));
}

#[test]
fn test_store_bit() {
    let mut byte = Byte::new(31);

    byte.store_bit(true);
    assert_eq!(byte, Byte::new(31));
    byte.store_bit(false);
    assert_eq!(byte, Byte::new(30));
}

#[test]
fn test_store_random_bit() {
    let mut cases = Vec::<u8>::new();

    for _ in 0..100 {
        let mut byte = Byte::new(31);
        byte.store_random_bit();
        cases.push(byte.get_value());
    }

    let set: BTreeSet<_> = cases.drain(..).collect();
    let mut set2 = BTreeSet::new();

    let value30 = 30;
    let value31 = 31;

    set2.insert(value30);
    set2.insert(value31);

    assert_eq!(set, set2);
}

#[test]
fn test_to_bit_vec() {
    let bit_vec = vec![false, false, false, true, true, true, true, true];

    assert_eq!(Byte::new(31).to_bit_vec(), bit_vec);
}

#[test]
fn test_from_str() {
    assert_eq!(
        Byte::from_str("00011111").expect("Unable to convert bitstring to Byte!"),
        Byte::new(31)
    );
}

#[test]
fn test_to_string() {
    assert_eq!(
        Byte::from_str("00011111")
            .expect("Unable to convert bitstring to Byte!")
            .to_string(),
        "00011111".to_owned()
    );
}

#[test]
fn test_convert_byte_vec_to_bit_vec() {
    let byte_vec = vec![Byte::new(31), Byte::new(31), Byte::new(31)];

    let bit_vec = vec![
        false, false, false, true, true, true, true, true, false, false, false, true, true, true,
        true, true, false, false, false, true, true, true, true, true,
    ];

    assert_eq!(convert_byte_vec_to_bit_array(&byte_vec), bit_vec);
}

#[test]
fn test_convert_u8_vec_to_byte_vec() {
    let u8_vec = vec![128, 11, 135];
    let byte_vec = vec![Byte::new(128), Byte::new(11), Byte::new(135)];

    assert_eq!(convert_u8_vec_to_byte_array(&u8_vec), byte_vec);
}

#[test]
fn test_is_one_byte_char() {
    assert_eq!(is_one_byte_char('A'), true);
    assert_eq!(is_one_byte_char('€'), false);
}

#[test]
fn test_is_one_byte_chars_message() {
    assert_eq!(is_one_byte_chars_message("Very nice message"), true);
    assert_eq!(is_one_byte_chars_message("Véry ugly méssàge !!!"), false);
}

#[test]
fn test_convert_bool_to_u8() {
    assert_eq!(convert_bool_to_u8(true), 1);
}

#[test]
fn test_byte_bit_sequence_round_trip_all_values() {
    for v in 0..=255u8 {
        let bits = Byte::new(v).to_bit_vec();
        assert_eq!(bits.len(), 8);
        let back = Byte::from_bool_array(&bits).expect("eight bits always form a byte");
        assert_eq!(back.get_value(), v);
    }
}

#[test]
fn test_from_bool_array_rejects_long_input() {
    let bits = vec![true; 9];
    assert_eq!(
        Byte::from_bool_array(&bits),
        Err(StegError::BitSequenceTooLong)
    );
}

#[test]
fn test_from_bool_array_short_input_left_padded() {
    let bits = vec![true, true];
    assert_eq!(Byte::from_bool_array(&bits), Ok(Byte::new(3)));
}

#[test]
fn test_from_str_rejects_wrong_length() {
    assert_eq!(Byte::from_str("0001111"), Err(StegError::BadBitStringLength));
    assert_eq!(
        Byte::from_str("000111110"),
        Err(StegError::BadBitStringLength)
    );
}

#[test]
fn test_to_string_exact_rendering() {
    assert_eq!(Byte::new(0).to_string(), "00000000".to_owned());
    assert_eq!(Byte::new(255).to_string(), "11111111".to_owned());
    assert_eq!(Byte::new(126).to_string(), "01111110".to_owned());
}
