use beeenn::de::{
    decode_bool, decode_i16, decode_i32, decode_i64, decode_i8, decode_string,
    decode_string_list, decode_u16, decode_u16_list, decode_u32, decode_u32_list, decode_u64,
    decode_u8,
};
use beeenn::error::SerbeError;
use beeenn::ser::{
    encode_bool, encode_i16, encode_i32, encode_i64, encode_i8, encode_str, encode_str_list,
    encode_u16, encode_u16_list, encode_u32, encode_u32_list, encode_u64, encode_u8,
};

#[test]
fn lib_test_bool() {
    let val: bool = decode_bool(b"i0e").unwrap();
    assert_eq!(false, val);

    let val: bool = decode_bool(b"i1e").unwrap();
    assert_eq!(true, val);

    let val: bool = decode_bool(b"i32e").unwrap();
    assert_eq!(true, val);

    assert_eq!(false, decode_bool(&encode_bool(false)).unwrap());
    assert_eq!(true, decode_bool(&encode_bool(true)).unwrap());
}

#[test]
fn lib_test_unsigned() {
    let val: u8 = decode_u8(b"i5e").unwrap();
    assert_eq!(5, val);
    let val: u16 = decode_u16(b"i55e").unwrap();
    assert_eq!(55, val);
    let val: u64 = decode_u64(b"i1234567890e").unwrap();
    assert_eq!(1234567890, val);

    assert_eq!(54u8, decode_u8(&encode_u8(54)).unwrap());
    assert_eq!(700u16, decode_u16(&encode_u16(700)).unwrap());
    assert_eq!(123457u32, decode_u32(&encode_u32(123457)).unwrap());
    assert_eq!(12345678999u64, decode_u64(&encode_u64(12345678999)).unwrap());
}

#[test]
fn lib_test_signed() {
    let val: i8 = decode_i8(b"i5e").unwrap();
    assert_eq!(5, val);
    let val: i16 = decode_i16(b"i55e").unwrap();
    assert_eq!(55, val);
    let val: i16 = decode_i16(b"i-55e").unwrap();
    assert_eq!(-55, val);
    let val: i64 = decode_i64(b"i-1234567890e").unwrap();
    assert_eq!(-1234567890, val);

    assert_eq!(54i8, decode_i8(&encode_i8(54)).unwrap());
    assert_eq!(-54i8, decode_i8(&encode_i8(-54)).unwrap());
    assert_eq!(700i16, decode_i16(&encode_i16(700)).unwrap());
    assert_eq!(-700i16, decode_i16(&encode_i16(-700)).unwrap());
    assert_eq!(123457i32, decode_i32(&encode_i32(123457)).unwrap());
    assert_eq!(-123457i32, decode_i32(&encode_i32(-123457)).unwrap());
    assert_eq!(12345678999i64, decode_i64(&encode_i64(12345678999)).unwrap());
    assert_eq!(-12345678999i64, decode_i64(&encode_i64(-12345678999)).unwrap());
}

#[test]
fn test_missing_e() {
    assert_eq!(SerbeError::Eof, decode_u32(b"i56").unwrap_err(),);
    assert_eq!(SerbeError::Eof, decode_i32(b"i-65").unwrap_err(),);
}

#[test]
fn test_empty_digits() {
    assert_eq!(
        SerbeError::NoDigitsInNumber,
        decode_u32(b"ie").unwrap_err(),
    );
    assert_eq!(
        SerbeError::NoDigitsInNumber,
        decode_i32(b"ie").unwrap_err(),
    );
}

#[test]
fn lib_test_sign_mismatch() {
    // u16 can't be negative.
    assert!(decode_u16(b"i-7e").is_err());
}

#[test]
fn test_leading_zero() {
    assert_eq!(
        SerbeError::UnexpectedZeroPrefix,
        decode_u16(b"i05e").unwrap_err()
    );
    assert_eq!(
        SerbeError::UnexpectedZeroPrefix,
        decode_i16(b"i-05e").unwrap_err()
    );

    // Multiple zeros are not allowed.
    assert_eq!(
        SerbeError::UnexpectedZeroPrefix,
        decode_i16(b"i00e").unwrap_err()
    );
}

#[test]
fn test_leading_negative_in_unsigned() {
    assert_eq!(
        SerbeError::Message("invalid value: integer `-5`, expected u16".to_string()),
        decode_u16(b"i-5e").unwrap_err()
    );
}

#[test]
fn lib_test_string() {
    let val: String = decode_string(b"4:yarn").unwrap();
    assert_eq!(val, "yarn");

    let val: String = decode_string(b"0:").unwrap();
    assert_eq!(val, "");

    assert_eq!("".to_string(), decode_string(&encode_str("")).unwrap());
    assert_eq!(
        "hellion".to_string(),
        decode_string(&encode_str("hellion")).unwrap()
    );
}

#[test]
fn test_missing_colon() {
    assert_eq!(
        SerbeError::MissingColon(b'l'),
        decode_string(b"5lucky").unwrap_err()
    );
}

#[test]
fn lib_test_str() {
    let val: String = decode_string(b"4:yarn").unwrap();
    assert_eq!(val, "yarn");

    let val: String = decode_string(b"0:").unwrap();
    assert_eq!(val, "");

    assert_eq!("", decode_string(&encode_str("")).unwrap());
    assert_eq!("whoopie", decode_string(&encode_str("whoopie")).unwrap());
}

#[test]
fn lib_test_arr() {
    let val: Vec<u32> = decode_u32_list(b"li1ei0ei32ei45ei0ei4ee").unwrap();
    assert_eq!(vec![1u32, 0, 32, 45, 0, 4], val);

    let val: Vec<u32> = decode_u32_list(b"le").unwrap();
    assert!(val.is_empty());

    let val: Vec<String> = decode_string_list(b"l3:foo6:foobar4:quuxe").unwrap();
    assert_eq!(vec!["foo", "foobar", "quux"], val);

    let empty: Vec<u32> = vec![];
    assert_eq!(empty, decode_u32_list(&encode_u32_list(&empty)).unwrap());
    let sixteens: Vec<u16> = vec![5u16, 700u16, 999u16, 0xfdbau16];
    assert_eq!(
        sixteens,
        decode_u16_list(&encode_u16_list(&sixteens)).unwrap()
    );
    let words: Vec<String> = vec!["one".to_string(), "two".to_string(), "three".to_string()];
    assert_eq!(words, decode_string_list(&encode_str_list(&words)).unwrap());
}

#[test]
fn test_missing_l() {
    assert_eq!(
        SerbeError::ExpectedList,
        decode_u16_list(b"i0ei0ei0ee").unwrap_err()
    );
}

#[test]
fn test_missing_list_e() {
    // Missing 'e' manifests as EOF because the list is never terminated.
    assert_eq!(
        SerbeError::Eof,
        decode_u16_list(b"li0ei0ei0e").unwrap_err()
    );
}

#[test]
fn mod_test_bool() {
    let val: bool = decode_bool(b"i0e").unwrap();
    assert_eq!(false, val);

    let val: bool = decode_bool(b"i1e").unwrap();
    assert_eq!(true, val);

    let val: bool = decode_bool(b"i32e").unwrap();
    assert_eq!(true, val);
}

#[test]
fn mod_test_unsigned() {
    let val: u8 = decode_u8(b"i5e").unwrap();
    assert_eq!(5, val);
    let val: u16 = decode_u16(b"i55e").unwrap();
    assert_eq!(55, val);
    let val: u64 = decode_u64(b"i1234567890e").unwrap();
    assert_eq!(1234567890, val);
}

#[test]
fn mod_test_signed() {
    let val: i8 = decode_i8(b"i5e").unwrap();
    assert_eq!(5, val);
    let val: i16 = decode_i16(b"i55e").unwrap();
    assert_eq!(55, val);
    let val: i16 = decode_i16(b"i-55e").unwrap();
    assert_eq!(-55, val);
    let val: i64 = decode_i64(b"i-1234567890e").unwrap();
    assert_eq!(-1234567890, val);
}

#[test]
fn mod_test_sign_mismatch() {
    // u16 can't be negative.
    assert!(decode_u16(b"i-7e").is_err());
}

#[test]
fn mod_test_string() {
    let val: String = decode_string(b"4:yarn").unwrap();
    assert_eq!(val, "yarn");

    let val: String = decode_string(b"0:").unwrap();
    assert_eq!(val, "");
}

#[test]
fn mod_test_str() {
    let val: String = decode_string(b"4:yarn").unwrap();
    assert_eq!(val, "yarn");

    let val: String = decode_string(b"0:").unwrap();
    assert_eq!(val, "");
}

#[test]
fn mod_test_arr() {
    let val: Vec<u32> = decode_u32_list(b"li1ei0ei32ei45ei0ei4ee").unwrap();
    assert_eq!(vec![1u32, 0, 32, 45, 0, 4], val);

    let val: Vec<u32> = decode_u32_list(b"le").unwrap();
    assert!(val.is_empty());

    let val: Vec<String> = decode_string_list(b"l3:foo6:foobar4:quuxe").unwrap();
    assert_eq!(vec!["foo", "foobar", "quux"], val);
}

#[test]
fn test_overflow_reports_custom_error() {
    assert_eq!(
        SerbeError::Message("integer overflow".to_string()),
        decode_u64(b"i99999999999999999999999e").unwrap_err()
    );
}

#[test]
fn test_trailing_input() {
    assert_eq!(SerbeError::TrailingInput, decode_bool(b"i1ei2e").unwrap_err());
    assert_eq!(SerbeError::TrailingInput, decode_string(b"2:okx").unwrap_err());
}

#[test]
fn test_width_mismatch_messages() {
    assert_eq!(
        SerbeError::Message("invalid value: integer `300`, expected u8".to_string()),
        decode_u8(b"i300e").unwrap_err()
    );
    assert_eq!(
        SerbeError::Message("invalid value: integer `70000`, expected u16".to_string()),
        decode_u16(b"i70000e").unwrap_err()
    );
    assert_eq!(
        SerbeError::Message("invalid value: integer `-129`, expected i8".to_string()),
        decode_i8(b"i-129e").unwrap_err()
    );
}

#[test]
fn test_unsigned_rejects_bare_minus() {
    assert_eq!(SerbeError::UnexpectedSigned, decode_bool(b"-i1e").unwrap_err());
}

#[test]
fn test_unrecognized_prefix() {
    assert_eq!(SerbeError::UnrecognizedPrefix(b'x'), decode_u16(b"x").unwrap_err());
}

#[test]
fn test_string_rejects_invalid_utf8() {
    assert_eq!(SerbeError::Utf8Error, decode_string(b"2:\xff\xfe").unwrap_err());
}

#[test]
fn test_string_decodes_multibyte_utf8() {
    // Two bytes of input, one character out: the text really is decoded.
    let val: String = decode_string(b"2:\xc3\xa9").unwrap();
    assert_eq!(val, "\u{e9}");
    assert_eq!(1, val.chars().count());
}

#[test]
fn test_i64_extremes_round_trip() {
    assert_eq!(i64::MIN, decode_i64(&encode_i64(i64::MIN)).unwrap());
    assert_eq!(i64::MAX, decode_i64(&encode_i64(i64::MAX)).unwrap());
    assert_eq!(u64::MAX, decode_u64(&encode_u64(u64::MAX)).unwrap());
}
