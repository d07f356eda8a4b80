use savefile::abi::{
    compatibility_mask, decode_call, dispatch, encode_outcome, must_request_drop, AbiMethod, AbiProtocol,
    AbiTraitDefinition, Connection, Dispatch, Ownership,
};
use savefile::error::SavefileError;
use savefile::layout::{get_enum_size, EnumLayout, EnumSize, FieldLayout, ReprAttr, StructLayout, VariantLayout, WriteStep};
use savefile::persist::{
    file_version, load, load_noschema, load_versioned, load_versioned_noschema, save, save_noschema, save_versioned,
    save_versioned_noschema,
};
use savefile::schema::{diff_schema, Field, Schema, SchemaEnum, SchemaPrimitive, SchemaStruct, Variant};
use savefile::traits::{map_schema, ReprC, Removed, WithSchema};
use std::collections::HashMap;
use savefile::value::Value;
use savefile::versions::{VersionedField, VersionedStruct, MAX_VERSION};
use savefile::wire::{Deserializer, Serializer};

fn prim(p: SchemaPrimitive) -> Schema {
    Schema::Primitive(p)
}

fn field(name: &str, value: Schema) -> Field {
    Field { name: name.to_string(), value: Box::new(value) }
}

fn aggregate(name: &str, fields: Vec<Field>) -> Schema {
    Schema::Struct(SchemaStruct { dbg_name: name.to_string(), fields })
}

fn u8_u32() -> Schema {
    aggregate("S", vec![field("a", prim(SchemaPrimitive::schema_u8)), field("b", prim(SchemaPrimitive::schema_u32))])
}

// Diff

#[test]
fn diff_detects_in_both_directions() {
    let a = u8_u32();
    let b = aggregate("S", vec![field("a", prim(SchemaPrimitive::schema_u8))]);
    let c = aggregate("T", vec![field("x", prim(SchemaPrimitive::schema_u8)), field("y", prim(SchemaPrimitive::schema_u32))]);
    assert!(diff_schema(&a, &b, ".".to_string()).is_some());
    assert!(diff_schema(&b, &a, ".".to_string()).is_some());
    assert!(diff_schema(&a, &c, ".".to_string()).is_none());
    assert!(diff_schema(&c, &a, ".".to_string()).is_none());
    let p = prim(SchemaPrimitive::schema_u8);
    let v = Schema::Vector(Box::new(prim(SchemaPrimitive::schema_u8)));
    assert!(diff_schema(&p, &v, ".".to_string()).is_some());
    assert!(diff_schema(&v, &p, ".".to_string()).is_some());
}

#[test]
fn diff_messages_name_the_path() {
    let a = u8_u32();
    let b = aggregate("S", vec![field("a", prim(SchemaPrimitive::schema_u8)), field("b", prim(SchemaPrimitive::schema_u16))]);
    assert_eq!(
        diff_schema(&a, &b, ".".to_string()).unwrap(),
        "At location [./S/b]: Application protocol has datatype u32, but disk format has u16"
    );
    let short = aggregate("S", vec![field("a", prim(SchemaPrimitive::schema_u8))]);
    assert_eq!(
        diff_schema(&a, &short, ".".to_string()).unwrap(),
        "At location [./S]: In memory struct (struct S) has 2 fields, disk format (struct S) has 1 fields."
    );
    assert_eq!(
        diff_schema(&Schema::ZeroSize, &a, ".".to_string()).unwrap(),
        "At location [.]: In memory schema: zerosize, file schema: struct"
    );
    assert_eq!(
        diff_schema(&Schema::Undefined, &Schema::Undefined, "p".to_string()).unwrap(),
        "At location [p]: Undefined schema encountered."
    );
    let seq_a = Schema::Vector(Box::new(prim(SchemaPrimitive::schema_u8)));
    let seq_b = Schema::Vector(Box::new(prim(SchemaPrimitive::schema_bool)));
    assert_eq!(
        diff_schema(&seq_a, &seq_b, ".".to_string()).unwrap(),
        "At location [./*]: Application protocol has datatype u8, but disk format has bool"
    );
}

#[test]
fn diff_of_enums_checks_names_and_discriminators() {
    let e = |name: &str, d: u8| {
        Schema::Enum(SchemaEnum {
            dbg_name: "E".to_string(),
            variants: vec![Variant { name: name.to_string(), discriminator: d, fields: vec![] }],
        })
    };
    assert!(diff_schema(&e("A", 0), &e("A", 0), ".".to_string()).is_none());
    assert_eq!(
        diff_schema(&e("A", 0), &e("B", 0), ".".to_string()).unwrap(),
        "At location [.E]: Enum variant #0 in memory is called A, but in disk format it is called B"
    );
    assert_eq!(
        diff_schema(&e("A", 0), &e("A", 3), ".".to_string()).unwrap(),
        "At location [.E]: Enum variant #0 in memory has discriminator 0, but in disk format it has 3"
    );
    assert!(diff_schema(&Schema::Undefined, &Schema::Undefined, ".".to_string()).is_some());
}

// Sizes and tuples

#[test]
fn serialized_sizes() {
    assert_eq!(u8_u32().serialized_size(), Some(5));
    assert_eq!(prim(SchemaPrimitive::schema_string).serialized_size(), None);
    assert_eq!(Schema::ZeroSize.serialized_size(), Some(0));
    assert_eq!(Schema::Vector(Box::new(prim(SchemaPrimitive::schema_u8))).serialized_size(), None);
    let e = Schema::Enum(SchemaEnum {
        dbg_name: "E".to_string(),
        variants: vec![
            Variant { name: "A".to_string(), discriminator: 0, fields: vec![field("x", prim(SchemaPrimitive::schema_u16))] },
            Variant { name: "B".to_string(), discriminator: 1, fields: vec![field("y", prim(SchemaPrimitive::schema_f64))] },
        ],
    });
    assert_eq!(e.serialized_size(), Some(8));
    assert_eq!(SchemaPrimitive::schema_f32.name(), "f32");
}

#[test]
fn tuple_schemas() {
    let t = Schema::new_tuple2::<u8, String>(0);
    match &t {
        Schema::Struct(s) => {
            assert_eq!(s.dbg_name, "2-Tuple");
            assert_eq!(s.fields.len(), 2);
            assert_eq!(s.fields[0].name, "0");
            assert_eq!(*s.fields[1].value, prim(SchemaPrimitive::schema_string));
        }
        _ => panic!("a tuple is an aggregate"),
    }
    assert_eq!(Schema::new_tuple1::<u16>(0).serialized_size(), Some(2));
    assert_eq!(Schema::new_tuple3::<u8, i32, u64>(0).serialized_size(), Some(13));
    assert_eq!(<(u8, u8)>::schema(0), Schema::new_tuple2::<u8, u8>(0));
    assert_eq!(Vec::<u8>::schema(1), Schema::Vector(Box::new(prim(SchemaPrimitive::schema_u8))));
    assert_eq!(Removed::<u32>::schema(4), prim(SchemaPrimitive::schema_u32));
    let _placeholder: Removed<u32> = Removed::new();
    assert!(!bool::repr_c_optimization_safe(0));
    assert!(u32::repr_c_optimization_safe(0));
}

#[test]
fn schema_block_round_trip() {
    let schema = aggregate(
        "Outer",
        vec![
            field("v", Schema::Vector(Box::new(u8_u32()))),
            field("o", Schema::SchemaOption(Box::new(Schema::ZeroSize))),
            field(
                "e",
                Schema::Enum(SchemaEnum {
                    dbg_name: "E".to_string(),
                    variants: vec![Variant { name: "A".to_string(), discriminator: 2, fields: vec![field("s", prim(SchemaPrimitive::schema_string))] }],
                }),
            ),
        ],
    );
    let mut s = Serializer::new_raw();
    schema.serialize(&mut s).unwrap();
    let mut d = Deserializer::new_raw(s.bytes);
    let back = Schema::deserialize(&mut d).unwrap();
    assert_eq!(back, schema);
    assert_eq!(schema.duplicate(), schema);
}

#[test]
fn schema_tags() {
    let mut s = Serializer::new_raw();
    prim(SchemaPrimitive::schema_bool).serialize(&mut s).unwrap();
    Schema::ZeroSize.serialize(&mut s).unwrap();
    assert_eq!(s.bytes, vec![3, 12, 6]);
    let mut d = Deserializer::new_raw(vec![3, 13]);
    assert!(matches!(Schema::deserialize(&mut d), Err(SavefileError::CorruptData { .. })));
    let mut d = Deserializer::new_raw(vec![8]);
    assert!(matches!(Schema::deserialize(&mut d), Err(SavefileError::CorruptData { .. })));
}

// Version gating and removed fields

fn gated() -> VersionedStruct {
    VersionedStruct {
        dbg_name: "G".to_string(),
        fields: vec![
            VersionedField::always("a".to_string(), prim(SchemaPrimitive::schema_u8)),
            VersionedField::new("b".to_string(), prim(SchemaPrimitive::schema_u16), 2, 4, false).unwrap(),
        ],
    }
}

#[test]
fn version_gating_of_range_two_to_four() {
    let g = gated();
    for v in 0..7u32 {
        let present = (2..=4).contains(&v);
        match g.schema(v) {
            Schema::Struct(s) => assert_eq!(s.fields.len(), if present { 2 } else { 1 }),
            _ => panic!("an aggregate"),
        }
        let mut s = Serializer::new(v);
        g.serialize(&vec![Value::U8(1), Value::U16(0x0302)], &mut s).unwrap();
        assert_eq!(s.bytes, if present { vec![1, 2, 3] } else { vec![1] });
        let mut d = Deserializer::new(s.bytes, v, 6);
        let back = g.deserialize(&mut d).unwrap();
        assert_eq!(back[0], Some(Value::U8(1)));
        assert_eq!(back[1], if present { Some(Value::U16(0x0302)) } else { None });
        assert_eq!(g.fields[1].is_present(v), present);
    }
}

#[test]
fn removed_field_without_end_is_rejected() {
    let r = VersionedField::new("gone".to_string(), prim(SchemaPrimitive::schema_u32), 0, MAX_VERSION, true);
    assert!(matches!(r, Err(SavefileError::InvalidVersionRange { .. })));
    assert!(VersionedField::new("gone".to_string(), prim(SchemaPrimitive::schema_u32), 0, 3, true).is_ok());
    assert!(VersionedField::new("live".to_string(), prim(SchemaPrimitive::schema_u32), 0, MAX_VERSION, false).is_ok());
}

#[test]
fn removed_field_is_read_and_dropped() {
    let g = VersionedStruct {
        dbg_name: "R".to_string(),
        fields: vec![
            VersionedField::new("old".to_string(), prim(SchemaPrimitive::schema_u32), 0, 1, true).unwrap(),
            VersionedField::always("x".to_string(), prim(SchemaPrimitive::schema_u8)),
        ],
    };
    let mut d = Deserializer::new(vec![9, 9, 9, 9, 5], 1, 2);
    let back = g.deserialize(&mut d).unwrap();
    assert_eq!(back, vec![None, Some(Value::U8(5))]);
    assert_eq!(d.pos, 5);
    let mut s = Serializer::new(2);
    g.serialize(&vec![Value::Unit, Value::U8(5)], &mut s).unwrap();
    assert_eq!(s.bytes, vec![5]);
}

// Stream-level scenario

fn two_fields() -> VersionedStruct {
    VersionedStruct {
        dbg_name: "S".to_string(),
        fields: vec![
            VersionedField::always("a".to_string(), prim(SchemaPrimitive::schema_u8)),
            VersionedField::always("b".to_string(), prim(SchemaPrimitive::schema_u32)),
        ],
    }
}

fn three_fields() -> VersionedStruct {
    let mut s = two_fields();
    s.fields.push(VersionedField::new("c".to_string(), prim(SchemaPrimitive::schema_u16), 1, MAX_VERSION, false).unwrap());
    s
}

#[test]
fn added_field_scenario() {
    let v0 = two_fields();
    let bytes = save_versioned(0, &v0, &vec![Value::U8(5), Value::U32(300)]);
    assert_eq!(&bytes[0..4], &[0, 0, 0, 0]);
    assert_eq!(&bytes[bytes.len() - 5..], &[5, 44, 1, 0, 0]);
    assert_eq!(file_version(&bytes).unwrap(), 0);
    let back = load_versioned(bytes, 0, &v0).unwrap();
    assert_eq!(back, vec![Some(Value::U8(5)), Some(Value::U32(300))]);

    let layout = StructLayout {
        size: 5,
        fields: vec![
            FieldLayout { offset: 0, size: 1, type_reprc: true, version_from: 0, version_to: MAX_VERSION, removed: false, ignored: false },
            FieldLayout { offset: 1, size: 4, type_reprc: true, version_from: 0, version_to: MAX_VERSION, removed: false, ignored: false },
        ],
    };
    assert!(layout.repr_c_optimization_safe(0));

    let v1 = three_fields();
    let bytes = save_versioned(1, &v1, &vec![Value::U8(5), Value::U32(300), Value::U16(7)]);
    assert_eq!(&bytes[bytes.len() - 7..], &[5, 44, 1, 0, 0, 7, 0]);
    let back = load_versioned(bytes.clone(), 1, &v1).unwrap();
    assert_eq!(back, vec![Some(Value::U8(5)), Some(Value::U32(300)), Some(Value::U16(7))]);
    assert!(matches!(load_versioned(bytes, 1, &v0), Err(SavefileError::IncompatibleSchema { .. })));

    let bytes = save_versioned(0, &v1, &vec![Value::U8(5), Value::U32(300), Value::U16(7)]);
    let back = load_versioned(bytes, 0, &v0).unwrap();
    assert_eq!(back, vec![Some(Value::U8(5)), Some(Value::U32(300))]);
}

#[test]
fn save_and_load_plain_values() {
    let schema = u8_u32();
    let value = Value::Struct(vec![Value::U8(5), Value::U32(300)]);
    let bytes = save(3, &schema, &value);
    assert_eq!(load(bytes, 3, &schema).unwrap(), value);
    let other = aggregate("S", vec![field("a", prim(SchemaPrimitive::schema_u8)), field("b", prim(SchemaPrimitive::schema_u16))]);
    let bytes = save(3, &schema, &value);
    match load(bytes, 3, &other) {
        Err(SavefileError::IncompatibleSchema { message }) => assert_eq!(
            message,
            "Saved schema differs from in-memory schema for version 3. Error: At location [./S/b]: Application protocol has datatype u32, but disk format has u16"
        ),
        _ => panic!("the schemas differ"),
    }
    let bytes = save_noschema(2, &value);
    assert_eq!(bytes, vec![2, 0, 0, 0, 5, 44, 1, 0, 0]);
    assert_eq!(load_noschema(bytes, 2, &schema).unwrap(), value);
    assert!(matches!(load(vec![1, 0], 3, &schema), Err(SavefileError::IOError { .. })));
    assert!(matches!(file_version(&vec![1]), Err(SavefileError::IOError { .. })));
}

// Layout optimizer

fn fl(offset: usize, size: usize, reprc: bool) -> FieldLayout {
    FieldLayout { offset, size, type_reprc: reprc, version_from: 0, version_to: MAX_VERSION, removed: false, ignored: false }
}

#[test]
fn bulk_copy_needs_packing() {
    let packed = StructLayout { size: 5, fields: vec![fl(0, 1, true), fl(1, 4, true)] };
    assert!(packed.repr_c_optimization_safe(0));
    let padded = StructLayout { size: 8, fields: vec![fl(0, 1, true), fl(4, 4, true)] };
    assert!(!padded.repr_c_optimization_safe(0));
    let tail = StructLayout { size: 6, fields: vec![fl(0, 1, true), fl(1, 4, true)] };
    assert!(!tail.repr_c_optimization_safe(0));
    let unsafe_type = StructLayout { size: 5, fields: vec![fl(0, 1, false), fl(1, 4, true)] };
    assert!(!unsafe_type.repr_c_optimization_safe(0));
    let mut versioned = StructLayout { size: 5, fields: vec![fl(0, 1, true), fl(1, 4, true)] };
    versioned.fields[1].version_from = 2;
    assert!(!versioned.repr_c_optimization_safe(1));
    assert!(versioned.repr_c_optimization_safe(2));
    let empty = StructLayout { size: 0, fields: vec![] };
    assert!(empty.repr_c_optimization_safe(0));
}

#[test]
fn plan_merges_adjacent_runs() {
    let l = StructLayout {
        size: 24,
        fields: vec![fl(0, 4, true), fl(4, 4, true), fl(8, 4, false), fl(12, 4, true), fl(16, 8, true)],
    };
    let plan = l.plan_serialization(0);
    assert_eq!(plan.len(), 3);
    assert!(matches!(plan[0], WriteStep::BulkRegion { first: 0, last: 1 }));
    assert!(matches!(plan[1], WriteStep::SingleField { index: 2 }));
    assert!(matches!(plan[2], WriteStep::BulkRegion { first: 3, last: 4 }));

    let mut gapped = StructLayout { size: 12, fields: vec![fl(0, 2, true), fl(4, 2, true), fl(6, 2, true)] };
    let plan = gapped.plan_serialization(0);
    assert_eq!(plan.len(), 2);
    assert!(matches!(plan[0], WriteStep::SingleField { index: 0 }));
    assert!(matches!(plan[1], WriteStep::BulkRegion { first: 1, last: 2 }));
    gapped.fields[2].version_from = 3;
    let plan = gapped.plan_serialization(1);
    assert_eq!(plan.len(), 2);
    assert!(matches!(plan[1], WriteStep::SingleField { index: 1 }));
}

#[test]
fn bulk_and_field_paths_give_the_same_bytes() {
    let l = StructLayout { size: 5, fields: vec![fl(0, 1, true), fl(1, 4, true)] };
    let memory: Vec<u8> = vec![5, 44, 1, 0, 0];
    let mut by_field = Serializer::new(0);
    by_field.write_u8(5).unwrap();
    by_field.write_u32(300).unwrap();
    assert!(l.repr_c_optimization_safe(0));
    let plan = l.plan_serialization(0);
    assert!(matches!(plan[0], WriteStep::BulkRegion { first: 0, last: 1 }));
    assert_eq!(by_field.bytes, memory);
}

#[test]
fn enum_discriminant_sizes() {
    let s = get_enum_size(&vec![], 3);
    assert_eq!((s.discriminant_size, s.explicit_size, s.repr_c), (1, false, false));
    assert_eq!(get_enum_size(&vec![], 256).discriminant_size, 1);
    assert_eq!(get_enum_size(&vec![], 257).discriminant_size, 2);
    assert_eq!(get_enum_size(&vec![], 65537).discriminant_size, 4);
    let s = get_enum_size(&vec![ReprAttr::C, ReprAttr::U16], 3);
    assert_eq!((s.discriminant_size, s.explicit_size, s.repr_c), (2, true, true));
    assert_eq!(get_enum_size(&vec![ReprAttr::I32], 2).discriminant_size, 4);
}

// Cross-binary calls

fn method(name: &str, args: Vec<Schema>, ret: Schema) -> AbiMethod {
    AbiMethod { name: name.to_string(), arguments: args, return_value: ret, mutable_receiver: false }
}

fn definition(n: usize) -> AbiTraitDefinition {
    let mut methods = Vec::new();
    for i in 0..n {
        methods.push(method(&format!("m{}", i), vec![prim(SchemaPrimitive::schema_u32)], prim(SchemaPrimitive::schema_u8)));
    }
    AbiTraitDefinition { name: "Api".to_string(), methods }
}

#[test]
fn unknown_method_number_is_protocol_error() {
    let conn = Connection::new(definition(8), definition(5), 1);
    assert!(matches!(conn.prepare_call(7, &vec![Value::U32(1)]), Err(SavefileError::Protocol { .. })));
    assert!(matches!(dispatch(&definition(5), AbiProtocol::CallMethod { method_number: 7 }), Err(SavefileError::Protocol { .. })));
    assert_eq!(dispatch(&definition(5), AbiProtocol::CallMethod { method_number: 4 }).unwrap(), Dispatch::Invoke { method: 4 });
    let conn = Connection::new(definition(5), definition(5), 1);
    assert!(matches!(conn.prepare_call(7, &vec![Value::U32(1)]), Err(SavefileError::Protocol { .. })));
}

#[test]
fn incompatible_method_is_disabled_alone() {
    let caller = definition(3);
    let mut callee = definition(3);
    callee.methods[1].arguments[0] = prim(SchemaPrimitive::schema_u16);
    assert_eq!(compatibility_mask(&caller, &callee), vec![true, false, true]);
    let conn = Connection::new(caller, callee, 1);
    assert!(matches!(conn.prepare_call(1, &vec![Value::U32(1)]), Err(SavefileError::Protocol { .. })));
    assert!(conn.prepare_call(2, &vec![Value::U32(1)]).is_ok());
    assert!(matches!(conn.prepare_call(2, &vec![]), Err(SavefileError::Protocol { .. })));
}

#[test]
fn call_marshaling_round_trip() {
    let conn = Connection::new(definition(2), definition(2), 9);
    let bytes = conn.prepare_call(1, &vec![Value::U32(300)]).unwrap();
    assert_eq!(bytes, vec![9, 0, 0, 0, 44, 1, 0, 0]);
    let (version, args) = decode_call(&definition(2), 1, bytes).unwrap();
    assert_eq!(version, 9);
    assert_eq!(args, vec![Value::U32(300)]);
    assert!(matches!(decode_call(&definition(2), 1, vec![9, 0, 0, 0, 1]), Err(SavefileError::Protocol { .. })));

    let ok = encode_outcome(&Ok(Value::U8(4)));
    assert_eq!(ok, vec![0, 4]);
    assert_eq!(conn.read_outcome(1, ok).unwrap(), Value::U8(4));
    let err = encode_outcome(&Err("boom".to_string()));
    match conn.read_outcome(1, err) {
        Err(SavefileError::Protocol { message }) => assert_eq!(message, "boom"),
        _ => panic!("an error result"),
    }
    assert!(matches!(conn.read_outcome(1, vec![]), Err(SavefileError::Protocol { .. })));
}

#[test]
fn entry_point_requests_and_ownership() {
    let d = definition(1);
    assert_eq!(dispatch(&d, AbiProtocol::QueryDefinition { version: 3 }).unwrap(), Dispatch::SendDefinition { version: 3 });
    assert_eq!(dispatch(&d, AbiProtocol::CreateInstance).unwrap(), Dispatch::Create);
    assert_eq!(dispatch(&d, AbiProtocol::DropInstance).unwrap(), Dispatch::Destroy);
    assert!(must_request_drop(Ownership::Owning));
    assert!(!must_request_drop(Ownership::Borrowed));
}

#[test]
fn enum_bulk_copy_needs_one_byte_explicit_discriminant() {
    let explicit = EnumSize { discriminant_size: 1, repr_c: true, explicit_size: true };
    let e = EnumLayout {
        size: 3,
        discriminant: explicit,
        variants: vec![
            VariantLayout { fields: vec![fl(1, 2, true)] },
            VariantLayout { fields: vec![fl(1, 1, true), fl(2, 1, true)] },
        ],
    };
    assert!(e.repr_c_optimization_safe(0));
    let implicit = EnumLayout {
        size: 3,
        discriminant: EnumSize { discriminant_size: 1, repr_c: false, explicit_size: false },
        variants: vec![VariantLayout { fields: vec![fl(1, 2, true)] }],
    };
    assert!(!implicit.repr_c_optimization_safe(0));
    let short_variant = EnumLayout {
        size: 3,
        discriminant: explicit,
        variants: vec![VariantLayout { fields: vec![fl(1, 2, true)] }, VariantLayout { fields: vec![] }],
    };
    assert!(!short_variant.repr_c_optimization_safe(0));
}

#[test]
fn map_schemas() {
    let m = map_schema(prim(SchemaPrimitive::schema_i32), prim(SchemaPrimitive::schema_string));
    assert_eq!(
        m,
        Schema::Vector(Box::new(aggregate(
            "KeyValuePair",
            vec![field("key", prim(SchemaPrimitive::schema_i32)), field("value", prim(SchemaPrimitive::schema_string))]
        )))
    );
    assert_eq!(HashMap::<i32, String>::schema(0), m);
}

#[test]
fn versioned_stream_without_schema() {
    let v1 = three_fields();
    let values = vec![Value::U8(5), Value::U32(300), Value::U16(7)];
    let bytes = save_versioned_noschema(1, &v1, &values);
    assert_eq!(bytes, vec![1, 0, 0, 0, 5, 44, 1, 0, 0, 7, 0]);
    let back = load_versioned_noschema(bytes, 1, &v1).unwrap();
    assert_eq!(back, vec![Some(Value::U8(5)), Some(Value::U32(300)), Some(Value::U16(7))]);
    let bytes = save_versioned_noschema(0, &v1, &values);
    assert_eq!(bytes, vec![0, 0, 0, 0, 5, 44, 1, 0, 0]);
    let back = load_versioned_noschema(bytes, 1, &v1).unwrap();
    assert_eq!(back, vec![Some(Value::U8(5)), Some(Value::U32(300)), None]);
    assert!(matches!(load_versioned_noschema(vec![0, 0, 0, 0, 5], 1, &v1), Err(SavefileError::IOError { .. })));
}

#[test]
fn older_versioned_stream_loads_at_newer_version() {
    let v1 = three_fields();
    let bytes = save_versioned(0, &v1, &vec![Value::U8(5), Value::U32(300), Value::U16(7)]);
    let back = load_versioned(bytes, 1, &v1).unwrap();
    assert_eq!(back, vec![Some(Value::U8(5)), Some(Value::U32(300)), None]);
}

#[test]
fn incompatible_stored_schema_is_reported() {
    let schema = u8_u32();
    let value = Value::Struct(vec![Value::U8(5), Value::U32(300)]);
    let bytes = save(1, &schema, &value);
    let other = aggregate("S", vec![field("a", prim(SchemaPrimitive::schema_u8))]);
    assert!(matches!(load(bytes, 1, &other), Err(SavefileError::IncompatibleSchema { .. })));
    let mut d = Deserializer::new_raw(vec![]);
    assert!(matches!(Schema::deserialize(&mut d), Err(SavefileError::IOError { .. })));
}
