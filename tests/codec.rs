use savefile::error::SavefileError;
use savefile::schema::{usize_text, Schema, SchemaEnum, SchemaPrimitive, Variant};
use savefile::value::{decode_value, encode_value, Value};
use savefile::traits::WithSchema;
use savefile::wire::{Deserializer, Serializer};

#[test]
fn integers_are_little_endian() {
    let mut s = Serializer::new(0);
    s.write_u32(300).unwrap();
    s.write_u16(0x0102).unwrap();
    s.write_i16(-2).unwrap();
    s.write_u8(7).unwrap();
    s.write_i8(-1).unwrap();
    s.write_bool(true).unwrap();
    s.write_bool(false).unwrap();
    assert_eq!(s.bytes, vec![44, 1, 0, 0, 2, 1, 0xfe, 0xff, 7, 0xff, 1, 0]);
}

#[test]
fn wide_integers_are_little_endian() {
    let mut s = Serializer::new(0);
    s.write_u64(0x0102030405060708).unwrap();
    s.write_i64(-2).unwrap();
    s.write_i32(-3).unwrap();
    s.write_usize(5).unwrap();
    s.write_isize(-1).unwrap();
    assert_eq!(
        s.bytes,
        vec![
            8, 7, 6, 5, 4, 3, 2, 1, 0xfe, 0xff, 0xff, 0xff, 0xff, 0xff, 0xff, 0xff, 0xfd, 0xff, 0xff, 0xff, 5, 0, 0, 0,
            0, 0, 0, 0, 0xff, 0xff, 0xff, 0xff, 0xff, 0xff, 0xff, 0xff
        ]
    );
    let mut d = Deserializer::new(s.bytes, 0, 0);
    assert_eq!(d.read_u64().unwrap(), 0x0102030405060708);
    assert_eq!(d.read_i64().unwrap(), -2);
    assert_eq!(d.read_i32().unwrap(), -3);
    assert_eq!(d.read_usize().unwrap(), 5);
    assert_eq!(d.read_isize().unwrap(), -1);
}

#[test]
fn strings_are_length_prefixed() {
    let mut s = Serializer::new(0);
    s.write_string("hé").unwrap();
    assert_eq!(s.bytes, vec![3, 0, 0, 0, 0, 0, 0, 0, b'h', 0xc3, 0xa9]);
    let mut d = Deserializer::new(s.bytes, 0, 0);
    assert_eq!(d.read_string().unwrap(), "hé".to_string());
    assert_eq!(d.pos, 11);
}

#[test]
fn read_bool_only_one_is_true() {
    let mut d = Deserializer::new(vec![1, 0, 2], 0, 0);
    assert!(d.read_bool().unwrap());
    assert!(!d.read_bool().unwrap());
    assert!(!d.read_bool().unwrap());
}

#[test]
fn exhausted_source_is_io_error() {
    let mut d = Deserializer::new(vec![1, 2, 3], 0, 0);
    assert!(matches!(d.read_u32(), Err(SavefileError::IOError { .. })));
    assert_eq!(d.pos, 0);
    assert_eq!(d.read_u16().unwrap(), 0x0201);
    assert!(matches!(d.read_bytes(2), Err(SavefileError::IOError { .. })));
    assert_eq!(d.read_bytes(1).unwrap(), vec![3]);
}

#[test]
fn invalid_utf8_is_reported() {
    let mut d = Deserializer::new(vec![2, 0, 0, 0, 0, 0, 0, 0, 0xff, 0xfe], 0, 0);
    assert!(matches!(d.read_string(), Err(SavefileError::InvalidUtf8 { .. })));
}

#[test]
fn truncated_string_is_io_error() {
    let mut d = Deserializer::new(vec![5, 0, 0, 0, 0, 0, 0, 0, b'a'], 0, 0);
    assert!(matches!(d.read_string(), Err(SavefileError::IOError { .. })));
}

#[test]
fn unknown_discriminator_is_corrupt_data() {
    let schema = Schema::Enum(SchemaEnum {
        dbg_name: "E".to_string(),
        variants: vec![Variant { name: "A".to_string(), discriminator: 0, fields: vec![] }],
    });
    let mut d = Deserializer::new(vec![9], 0, 0);
    assert!(matches!(decode_value(&schema, &mut d), Err(SavefileError::CorruptData { .. })));
}

#[test]
fn undefined_schema_decodes_nothing() {
    let mut d = Deserializer::new(vec![1, 2, 3], 0, 0);
    assert!(matches!(decode_value(&Schema::Undefined, &mut d), Err(SavefileError::CorruptData { .. })));
}

#[test]
fn value_encoding_bytes() {
    let v = Value::Sequence(vec![Value::Optional(Some(Box::new(Value::U16(258)))), Value::Optional(None)]);
    let mut s = Serializer::new(3);
    encode_value(&v, &mut s).unwrap();
    assert_eq!(s.bytes, vec![2, 0, 0, 0, 0, 0, 0, 0, 1, 2, 1, 0]);
    assert_eq!(s.version, 3);
    let schema = Schema::Vector(Box::new(Schema::SchemaOption(Box::new(Schema::Primitive(SchemaPrimitive::schema_u16)))));
    let mut d = Deserializer::new(s.bytes, 3, 3);
    assert_eq!(decode_value(&schema, &mut d).unwrap(), v);
}

#[test]
fn decimal_text() {
    assert_eq!(usize_text(0), "0");
    assert_eq!(usize_text(7), "7");
    assert_eq!(usize_text(10), "10");
    assert_eq!(usize_text(90210), "90210");
}

#[test]
fn bit_vectors_round_trip() {
    let mut bits = bit_vec::BitVec::from_elem(11, false);
    bits.set(0, true);
    bits.set(2, true);
    bits.set(10, true);
    let mut s = Serializer::new(0);
    savefile::bitvec::serialize_bitvec(&bits, &mut s).unwrap();
    assert_eq!(
        s.bytes,
        vec![11, 0, 0, 0, 0, 0, 0, 0, 2, 0, 0, 0, 0, 0, 0, 0, 0b1010_0000, 0b0010_0000]
    );
    let mut d = Deserializer::new(s.bytes, 0, 0);
    let back = savefile::bitvec::deserialize_bitvec(&mut d).unwrap();
    assert_eq!(back, bits);
    assert_eq!(d.pos, 18);
}

#[test]
fn bit_vector_truncated_is_error() {
    let mut d = Deserializer::new(vec![3, 0, 0, 0, 0, 0, 0, 0, 1, 0, 0, 0, 0, 0, 0, 0], 0, 0);
    assert!(matches!(savefile::bitvec::deserialize_bitvec(&mut d), Err(SavefileError::IOError { .. })));
}

#[test]
fn bit_vector_schema() {
    use_schema_of_bitvec();
}

fn use_schema_of_bitvec() {
    let schema = bit_vec::BitVec::<u32>::schema(0);
    match schema {
        Schema::Struct(s) => {
            assert_eq!(s.dbg_name, "BitVec");
            assert_eq!(s.fields.len(), 3);
            assert_eq!(*s.fields[2].value, Schema::Vector(Box::new(Schema::Primitive(SchemaPrimitive::schema_u8))));
        }
        _ => panic!("an aggregate"),
    }
}
