use beeenn::encoder::encode;
use beeenn::value::maybe_string;
use beeenn::error::BEError;
use beeenn::reader::BEReader;
use beeenn::value::BEValue;

fn parse_one(input: &[u8]) -> Result<Option<BEValue>, BEError> {
    let mut reader = BEReader::new(input.to_vec());
    reader.next_value()
}

fn parse_value(input: &[u8]) -> BEValue {
    parse_one(input).unwrap().unwrap()
}

#[test]
fn test_empty_input_is_clean_end() {
    assert!(matches!(parse_one(b""), Ok(None)));
}

#[test]
fn test_integers_parse() {
    assert_eq!(0, parse_value(b"i0e").integer());
    assert_eq!(-45, parse_value(b"i-45e").integer());
    assert_eq!(45, parse_value(b"i45e").integer());
    assert_eq!(9223372036854775807, parse_value(b"i9223372036854775807e").integer());
}

#[test]
fn test_canonical_rejection() {
    assert!(matches!(parse_one(b"i032e"), Err(BEError::LeadZeroError)));
    assert!(matches!(parse_one(b"i-0e"), Err(BEError::NegativeZeroError)));
    assert!(matches!(parse_one(b"i00e"), Err(BEError::LeadZeroError)));
}

#[test]
fn test_integer_suffix_errors() {
    assert!(matches!(parse_one(b"i5x"), Err(BEError::MissingSuffixError(b'x', b'e'))));
    assert!(matches!(parse_one(b"i56"), Err(BEError::EOFError)));
}

#[test]
fn test_integer_overflow_is_parse_error() {
    match parse_one(b"i99999999999999999999e") {
        Err(BEError::ParseIntError(digits)) => {
            assert_eq!(digits, b"99999999999999999999".to_vec());
        }
        other => panic!("unexpected outcome: {:?}", other),
    }
}

#[test]
fn test_string_boundaries() {
    let v = parse_value(b"0:");
    assert!(v.is_string());
    assert_eq!("", v.string());
    assert_eq!(0, v.len());
    assert!(v.is_empty());

    let v = parse_value(b"4:quux");
    assert_eq!("quux", v.string());
    assert_eq!(4, v.len());

    assert!(matches!(parse_one(b"3:ab"), Err(BEError::EOFError)));
}

#[test]
fn test_string_separator_error() {
    assert!(matches!(parse_one(b"5xucky"), Err(BEError::MissingSeparatorError(b'x', b':'))));
}

#[test]
fn test_unexpected_lead_byte() {
    assert!(matches!(parse_one(b"x"), Err(BEError::UnexpectedCharError('x'))));
}

#[test]
fn test_negative_string_length() {
    let mut reader = BEReader::new(b"-3:abc".to_vec());
    assert!(matches!(reader.read_string(), Err(BEError::NegativeStringLength(-3))));
}

#[test]
fn test_nested_lists() {
    let v = parse_value(b"ll5:mooreel3:bar4:quuxee");
    assert!(v.is_list());
    assert_eq!(2, v.len());

    let first = v.item(0);
    assert!(first.is_list());
    assert_eq!(1, first.len());
    assert_eq!("moore", first.item(0).string());

    let second = v.item(1);
    assert_eq!(2, second.len());
    assert_eq!("bar", second.item(0).string());
    assert_eq!("quux", second.item(1).string());
}

#[test]
fn test_dict_parses_with_accessors() {
    let v = parse_value(b"d3:agei7e4:name5:moiree");
    assert!(v.is_dict());
    assert_eq!(2, v.len());
    assert_eq!(7, v.get(b"age").unwrap().integer());
    assert_eq!("moire", v.get(b"name").unwrap().string());
    assert!(v.get(b"missing").is_none());
    let keys = v.keys();
    assert_eq!(2, keys.len());
    assert_eq!(b"age".to_vec(), keys[0]);
    assert_eq!(b"name".to_vec(), keys[1]);
}

#[test]
fn test_keys_out_of_order() {
    match parse_one(b"d3:zzz5:words3:aaai7ee") {
        Err(BEError::KeysOutOfOrder(key)) => assert_eq!("aaa", key),
        other => panic!("unexpected outcome: {:?}", other),
    }
    // Equal keys are rejected too.
    match parse_one(b"d3:aaa5:words3:aaai7ee") {
        Err(BEError::KeysOutOfOrder(key)) => assert_eq!("aaa", key),
        other => panic!("unexpected outcome: {:?}", other),
    }
}

#[test]
fn test_dict_value_missing() {
    match parse_one(b"d3:two5:words7:missinge") {
        Err(BEError::MissingValueError(key)) => assert_eq!("missing", key),
        other => panic!("unexpected outcome: {:?}", other),
    }
}

#[test]
fn test_key_not_a_string() {
    match parse_one(b"di666e5:words7:secondei42ee") {
        Err(BEError::KeyNotString(v)) => {
            assert!(v.is_integer());
            assert_eq!(666, v.integer());
        }
        other => panic!("unexpected outcome: {:?}", other),
    }
}

#[test]
fn test_successive_values_from_one_source() {
    let mut reader = BEReader::new(b"i1e3:twoi3e".to_vec());
    assert_eq!(1, reader.next_value().unwrap().unwrap().integer());
    assert_eq!("two", reader.next_value().unwrap().unwrap().string());
    assert_eq!(3, reader.next_value().unwrap().unwrap().integer());
    assert!(matches!(reader.next_value(), Ok(None)));
}

#[test]
fn test_round_trip_through_encoder() {
    let inputs: [&[u8]; 6] = [
        b"i-45e",
        b"4:quux",
        b"le",
        b"ll5:mooreel3:bar4:quuxee",
        b"d3:agei7e4:name5:moiree",
        b"d1:ad2:xyli1ei-2eee1:z0:e",
    ];
    for input in inputs {
        let v = parse_value(input);
        let encoded = encode(&v);
        assert_eq!(input.to_vec(), encoded);
        let w = parse_value(&encoded);
        assert_eq!(encode(&w), encoded);
    }
}

#[test]
fn test_integer_length_quirk() {
    // An integer reports length 1, not its digit count.
    let v = parse_value(b"i1234567890e");
    assert_eq!(1, v.len());
    assert!(!v.is_empty());
}

#[test]
fn test_lossy_rendering_of_binary_strings() {
    // Valid UTF-8 reads as itself; invalid bytes are replaced, so the
    // rendering differs from the raw input.
    let v = parse_value(b"2:\xc3\xa9");
    assert_eq!("\u{e9}", v.string());
    let w = parse_value(b"2:\xff\xfe");
    assert_eq!("\u{fffd}\u{fffd}", w.string());
}

#[test]
fn test_value_equality_is_structural() {
    let a = parse_value(b"d3:agei7e4:name5:moiree");
    let b = parse_value(b"d3:agei7e4:name5:moiree");
    let c = parse_value(b"d3:agei8e4:name5:moiree");
    assert_eq!(a, b);
    assert_ne!(a, c);
    assert_ne!(parse_value(b"i1e"), parse_value(b"1:a"));
    assert_eq!(parse_value(b"ll5:mooreee"), parse_value(b"ll5:mooreee"));
}

#[test]
fn test_round_trip_value_equality() {
    let v = parse_value(b"d1:ad2:xyli1ei-2eee1:z0:e");
    let w = parse_value(&encode(&v));
    assert_eq!(v, w);
}

#[test]
fn test_maybe_string_rendering() {
    assert_eq!("moire", maybe_string(&b"moire".to_vec(), false));
    assert_eq!("\"moire\"", maybe_string(&b"moire".to_vec(), true));
    assert_eq!("[2 bytes]", maybe_string(&b"\xff\xfe".to_vec(), true));
    assert_eq!("[12 bytes]", maybe_string(&vec![0xffu8; 12], false));
}

#[test]
fn test_minus_with_no_digits() {
    match parse_one(b"i-e") {
        Err(BEError::ParseIntError(digits)) => assert!(digits.is_empty()),
        other => panic!("unexpected outcome: {:?}", other),
    }
}

#[test]
fn test_truncated_structures() {
    assert!(matches!(parse_one(b"l"), Err(BEError::EOFError)));
    assert!(matches!(parse_one(b"d"), Err(BEError::EOFError)));
    assert!(matches!(parse_one(b"li1e"), Err(BEError::EOFError)));
    assert!(matches!(parse_one(b"d3:key"), Err(BEError::EOFError)));
}
