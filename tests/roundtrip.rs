use savefile::schema::{Field, Schema, SchemaEnum, SchemaPrimitive, SchemaStruct, Variant};
use savefile::value::{decode_value, encode_value, Value};
use savefile::wire::{Deserializer, Serializer};

fn prim(p: SchemaPrimitive) -> Schema {
    Schema::Primitive(p)
}

fn field(name: &str, value: Schema) -> Field {
    Field { name: name.to_string(), value: Box::new(value) }
}

fn aggregate(name: &str, fields: Vec<Field>) -> Schema {
    Schema::Struct(SchemaStruct { dbg_name: name.to_string(), fields })
}

fn assert_roundtrip(schema: &Schema, sample: Value) {
    let mut serializer = Serializer::new(0);
    encode_value(&sample, &mut serializer).unwrap();
    let mut deserializer = Deserializer::new(serializer.bytes, 0, 0);
    let roundtrip_result = decode_value(schema, &mut deserializer).unwrap();
    assert_eq!(sample, roundtrip_result);
    assert_eq!(deserializer.pos, deserializer.data.len());
}

#[test]
fn test_struct_enum() {
    let schema = Schema::Enum(SchemaEnum {
        dbg_name: "TestStructEnum".to_string(),
        variants: vec![
            Variant {
                name: "Variant1".to_string(),
                discriminator: 0,
                fields: vec![field("a", prim(SchemaPrimitive::schema_u8)), field("b", prim(SchemaPrimitive::schema_u8))],
            },
            Variant {
                name: "Variant2".to_string(),
                discriminator: 1,
                fields: vec![field("a", prim(SchemaPrimitive::schema_u8))],
            },
        ],
    });
    assert_roundtrip(&schema, Value::Enum(0, vec![Value::U8(42), Value::U8(45)]));
    assert_roundtrip(&schema, Value::Enum(1, vec![Value::U8(47)]));
}

#[test]
fn test_tuple_enum() {
    let schema = Schema::Enum(SchemaEnum {
        dbg_name: "TestTupleEnum".to_string(),
        variants: vec![Variant {
            name: "Variant1".to_string(),
            discriminator: 0,
            fields: vec![field("0", prim(SchemaPrimitive::schema_u8))],
        }],
    });
    assert_roundtrip(&schema, Value::Enum(0, vec![Value::U8(37)]));
}

#[test]
fn test_unit_enum() {
    let schema = Schema::Enum(SchemaEnum {
        dbg_name: "TestUnitEnum".to_string(),
        variants: vec![
            Variant { name: "Variant1".to_string(), discriminator: 0, fields: vec![] },
            Variant { name: "Variant2".to_string(), discriminator: 1, fields: vec![] },
        ],
    });
    assert_roundtrip(&schema, Value::Enum(0, vec![]));
    assert_roundtrip(&schema, Value::Enum(1, vec![]));
}

#[test]
fn test_struct() {
    let schema = aggregate(
        "TestStruct",
        vec![
            field("x1", prim(SchemaPrimitive::schema_u8)),
            field("x2", prim(SchemaPrimitive::schema_u16)),
            field("x3", prim(SchemaPrimitive::schema_u32)),
            field("x4", prim(SchemaPrimitive::schema_u64)),
            field("x5", prim(SchemaPrimitive::schema_u64)),
            field("x6", prim(SchemaPrimitive::schema_i8)),
            field("x7", prim(SchemaPrimitive::schema_i16)),
            field("x8", prim(SchemaPrimitive::schema_i32)),
            field("x9", prim(SchemaPrimitive::schema_i64)),
            field("x10", prim(SchemaPrimitive::schema_i64)),
        ],
    );
    assert_roundtrip(
        &schema,
        Value::Struct(vec![
            Value::U8(1),
            Value::U16(2),
            Value::U32(3),
            Value::U64(4),
            Value::U64(5),
            Value::I8(6),
            Value::I16(7),
            Value::I32(8),
            Value::I64(9),
            Value::I64(10),
        ]),
    );
}

#[test]
fn test_vec() {
    let schema = Schema::Vector(Box::new(prim(SchemaPrimitive::schema_u8)));
    assert_roundtrip(&schema, Value::Sequence(vec![Value::U8(43)]));
}

#[test]
fn test_hashmap() {
    let pair = aggregate(
        "KeyValuePair",
        vec![field("key", prim(SchemaPrimitive::schema_i32)), field("value", prim(SchemaPrimitive::schema_i32))],
    );
    let schema = Schema::Vector(Box::new(pair));
    assert_roundtrip(
        &schema,
        Value::Sequence(vec![
            Value::Struct(vec![Value::I32(43), Value::I32(45)]),
            Value::Struct(vec![Value::I32(47), Value::I32(49)]),
        ]),
    );
}

#[test]
fn test_string() {
    let schema = prim(SchemaPrimitive::schema_string);
    assert_roundtrip(&schema, Value::Str("".to_string()));
    assert_roundtrip(&schema, Value::Str("test string".to_string()));
}

#[test]
fn round_trip_negative_and_extreme_integers() {
    let schema = aggregate(
        "Extremes",
        vec![
            field("a", prim(SchemaPrimitive::schema_i8)),
            field("b", prim(SchemaPrimitive::schema_i16)),
            field("c", prim(SchemaPrimitive::schema_i32)),
            field("d", prim(SchemaPrimitive::schema_i64)),
            field("e", prim(SchemaPrimitive::schema_u64)),
            field("f", prim(SchemaPrimitive::schema_bool)),
            field("g", prim(SchemaPrimitive::schema_f64)),
        ],
    );
    assert_roundtrip(
        &schema,
        Value::Struct(vec![
            Value::I8(-128),
            Value::I16(-1),
            Value::I32(i32::MIN),
            Value::I64(i64::MIN),
            Value::U64(u64::MAX),
            Value::Bool(true),
            Value::F64(1.5f64.to_bits()),
        ]),
    );
}

#[test]
fn round_trip_optional_and_zero_size() {
    let schema = aggregate(
        "Holder",
        vec![
            field("maybe", Schema::SchemaOption(Box::new(prim(SchemaPrimitive::schema_string)))),
            field("none", Schema::SchemaOption(Box::new(prim(SchemaPrimitive::schema_u32)))),
            field("unit", Schema::ZeroSize),
        ],
    );
    assert_roundtrip(
        &schema,
        Value::Struct(vec![
            Value::Optional(Some(Box::new(Value::Str("héllo".to_string())))),
            Value::Optional(None),
            Value::Unit,
        ]),
    );
}

#[test]
fn round_trip_empty_sequence() {
    let schema = Schema::Vector(Box::new(prim(SchemaPrimitive::schema_u32)));
    assert_roundtrip(&schema, Value::Sequence(vec![]));
}
