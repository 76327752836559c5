use beeenn::de::Deserializer;
use beeenn::ser::{encode_i8, encode_str, SerializeStruct, Serializer};

#[test]
fn test_record_fields_sort_by_key() {
    // Fields arrive in declaration order; the wire form lists them in
    // byte-lexicographic key order: "inteight" before "s".
    let mut record = SerializeStruct::new();
    record.serialize_field("s", encode_str("word"));
    record.serialize_field("inteight", encode_i8(33));
    let mut out = Serializer::new();
    record.end(&mut out);
    assert_eq!(b"d8:inteighti33e1:s4:worde".to_vec(), out.into_bytes());
}

#[test]
fn test_record_field_order_is_declaration_independent() {
    let mut first = SerializeStruct::new();
    first.serialize_field("s", encode_str("word"));
    first.serialize_field("inteight", encode_i8(33));
    let mut out_first = Serializer::new();
    first.end(&mut out_first);

    let mut second = SerializeStruct::new();
    second.serialize_field("inteight", encode_i8(33));
    second.serialize_field("s", encode_str("word"));
    let mut out_second = Serializer::new();
    second.end(&mut out_second);

    assert_eq!(out_first.into_bytes(), out_second.into_bytes());
}

#[test]
fn test_record_replaces_repeated_key() {
    let mut record = SerializeStruct::new();
    record.serialize_field("k", encode_i8(1));
    record.serialize_field("k", encode_i8(2));
    let mut out = Serializer::new();
    record.end(&mut out);
    assert_eq!(b"d1:ki2ee".to_vec(), out.into_bytes());
}

#[test]
fn test_all_absent_fields_encode_empty_dict() {
    // An absent optional field serializes to no bytes at all; a record
    // of only absent fields is the empty dict.
    let mut record = SerializeStruct::new();
    record.serialize_field("i", Vec::new());
    record.serialize_field("s", Vec::new());
    let mut out = Serializer::new();
    record.end(&mut out);
    assert_eq!(b"de".to_vec(), out.into_bytes());
}

#[test]
fn test_some_absent_fields_are_omitted() {
    let mut record = SerializeStruct::new();
    record.serialize_field("i", Vec::new());
    record.serialize_field("s", encode_str("floppy"));
    let mut out = Serializer::new();
    record.end(&mut out);
    assert_eq!(b"d1:s6:floppye".to_vec(), out.into_bytes());
}

#[test]
fn test_empty_dict_decodes_to_no_fields() {
    // Decoding "de": the record opens, and the key cursor sees the end
    // marker at once, so every field reads back absent.
    let mut de = Deserializer::from_bytes(b"de");
    assert_eq!(b'd', de.next_byte().unwrap());
    assert_eq!(b'e', de.peek_byte().unwrap());
    assert_eq!(b'e', de.next_byte().unwrap());
    assert!(de.at_end());
}

#[test]
fn test_record_fields_decode_by_key() {
    // The pair stream of "d8:inteighti33e1:s4:worde" read field by
    // field with the decode primitives.
    let mut de = Deserializer::from_bytes(b"d8:inteighti33e1:s4:worde");
    assert_eq!(b'd', de.next_byte().unwrap());
    assert_eq!("inteight", de.parse_str().unwrap());
    assert_eq!(33, de.parse_signed().unwrap());
    assert_eq!("s", de.parse_str().unwrap());
    assert_eq!("word", de.parse_str().unwrap());
    assert_eq!(b'e', de.next_byte().unwrap());
    assert!(de.at_end());
}

#[test]
fn test_sequence_markers() {
    let mut out = Serializer::new();
    out.begin_seq();
    out.serialize_u64(1);
    out.serialize_u64(2);
    out.end_seq();
    assert_eq!(b"li1ei2ee".to_vec(), out.into_bytes());
}

#[test]
fn test_serialize_bytes_counts_bytes_not_chars() {
    let mut out = Serializer::new();
    out.serialize_str("\u{e9}");
    // One character, two UTF-8 bytes: the length prefix counts bytes.
    assert_eq!(b"2:\xc3\xa9".to_vec(), out.into_bytes());
}
