//! The schema and layout-safety capabilities of types, implemented for the
//! primitives and the standard containers, and the placeholder for removed
//! fields.
use vstd::prelude::*;
use crate::schema::{Field, Schema, SchemaPrimitive, SchemaStruct};
use crate::schema_codec::{enc_schema, enc_field, enc_fields, primitive_tag};
use crate::wire::{enc_str, le_bytes};

verus! {

/// A type whose wire format can be described for each protocol version.
pub trait WithSchema {
    /// The wire form of the type's schema in protocol version `version`.
    spec fn schema_bytes(version: u32) -> Seq<u8>;

    /// The schema of the type in protocol version `version`.
    fn schema(version: u32) -> (r: Schema)
        ensures
            enc_schema(r) == Self::schema_bytes(version),
    ;
}

/// A type whose memory may, in some protocol versions, be written as it is:
/// its bytes in memory are its bytes on the wire.
pub trait ReprC {
    /// The type's memory is its wire form in protocol version `version`.
    spec fn reprc_at(version: u32) -> bool;

    /// Whether the type's memory is its wire form in `version`.
    fn repr_c_optimization_safe(version: u32) -> (r: bool)
        ensures
            r == Self::reprc_at(version),
    ;
}

/// The wire form of the schema of a primitive of kind `p`.
pub open spec fn primitive_schema_bytes(p: SchemaPrimitive) -> Seq<u8> {
    seq![3u8, primitive_tag(p)]
}

/// The wire form of a tuple's schema: an aggregate named `name` whose
/// fields are named by position and have the given schema forms.
pub open spec fn tuple_schema_bytes(name: Seq<char>, parts: Seq<Seq<u8>>) -> Seq<u8> {
    seq![1u8] + enc_str(name) + le_bytes(parts.len(), 8) + tuple_fields_bytes(parts, parts.len() as int)
}

/// The wire forms of the first `n` positional fields of a tuple.
pub open spec fn tuple_fields_bytes(parts: Seq<Seq<u8>>, n: int) -> Seq<u8>
    decreases n,
{
    if n <= 0 || n > parts.len() {
        Seq::empty()
    } else {
        tuple_fields_bytes(parts, n - 1) + enc_str(position_name(n - 1)) + parts[n - 1]
    }
}

/// The name of the field at position `i` of a tuple of at most three.
pub open spec fn position_name(i: int) -> Seq<char> {
    if i == 0 {
        "0"@
    } else if i == 1 {
        "1"@
    } else {
        "2"@
    }
}

proof fn lemma_tuple_fields(fs: Seq<Field>, parts: Seq<Seq<u8>>, k: int)
    requires
        0 <= k <= fs.len() == parts.len(),
        forall|i: int|
            0 <= i < fs.len() ==> (#[trigger] fs[i]).name@ == position_name(i) && enc_schema(
                *fs[i].value,
            ) == parts[i],
    ensures
        enc_fields(fs, k) == tuple_fields_bytes(parts, k),
    decreases k,
{
    if k > 0 {
        lemma_tuple_fields(fs, parts, k - 1);
        assert(fs[k - 1].name@ == position_name(k - 1));
        assert(enc_schema(*fs[k - 1].value) == parts[k - 1]);
        assert(enc_fields(fs, k) == enc_fields(fs, k - 1) + enc_field(fs[k - 1]));
        assert(enc_field(fs[k - 1]) == enc_str(fs[k - 1].name@) + enc_schema(*fs[k - 1].value));
        assert(tuple_fields_bytes(parts, k) == tuple_fields_bytes(parts, k - 1) + enc_str(
            position_name(k - 1),
        ) + parts[k - 1]);
        assert(enc_fields(fs, k) =~= tuple_fields_bytes(parts, k));
    }
}

impl Schema {
    /// The schema of a 1-tuple: an aggregate named "1-Tuple" with one field.
    pub fn new_tuple1<T1: WithSchema>(version: u32) -> (r: Schema)
        ensures
            r is Struct,
            r->Struct_0.fields@.len() == 1,
            enc_schema(r) == tuple_schema_bytes("1-Tuple"@, seq![T1::schema_bytes(version)]),
    {
        let f0 = Field { name: String::from_str("0"), value: Box::new(T1::schema(version)) };
        let mut fields: Vec<Field> = Vec::new();
        fields.push(f0);
        let r = Schema::Struct(SchemaStruct { dbg_name: String::from_str("1-Tuple"), fields });
        proof {
            reveal_strlit("0");
            let parts = seq![T1::schema_bytes(version)];
            let fs = r->Struct_0.fields@;
            assert(fs[0].name@ == position_name(0));
            lemma_tuple_fields(fs, parts, 1);
        }
        assert(enc_schema(r) =~= tuple_schema_bytes("1-Tuple"@, seq![T1::schema_bytes(version)]));
        r
    }

    /// The schema of a 2-tuple: an aggregate named "2-Tuple" with two fields.
    pub fn new_tuple2<T1: WithSchema, T2: WithSchema>(version: u32) -> (r: Schema)
        ensures
            r is Struct,
            r->Struct_0.fields@.len() == 2,
            enc_schema(r) == tuple_schema_bytes(
                "2-Tuple"@,
                seq![T1::schema_bytes(version), T2::schema_bytes(version)],
            ),
    {
        let mut fields: Vec<Field> = Vec::new();
        fields.push(Field { name: String::from_str("0"), value: Box::new(T1::schema(version)) });
        fields.push(Field { name: String::from_str("1"), value: Box::new(T2::schema(version)) });
        let r = Schema::Struct(SchemaStruct { dbg_name: String::from_str("2-Tuple"), fields });
        proof {
            reveal_strlit("0");
            reveal_strlit("1");
            let parts = seq![T1::schema_bytes(version), T2::schema_bytes(version)];
            let fs = r->Struct_0.fields@;
            assert(fs[0].name@ == position_name(0));
            assert(fs[1].name@ == position_name(1));
            lemma_tuple_fields(fs, parts, 2);
        }
        assert(enc_schema(r) =~= tuple_schema_bytes(
            "2-Tuple"@,
            seq![T1::schema_bytes(version), T2::schema_bytes(version)],
        ));
        r
    }

    /// The schema of a 3-tuple: an aggregate named "3-Tuple" with three
    /// fields.
    pub fn new_tuple3<T1: WithSchema, T2: WithSchema, T3: WithSchema>(version: u32) -> (r: Schema)
        ensures
            r is Struct,
            r->Struct_0.fields@.len() == 3,
            enc_schema(r) == tuple_schema_bytes(
                "3-Tuple"@,
                seq![T1::schema_bytes(version), T2::schema_bytes(version), T3::schema_bytes(version)],
            ),
    {
        let mut fields: Vec<Field> = Vec::new();
        fields.push(Field { name: String::from_str("0"), value: Box::new(T1::schema(version)) });
        fields.push(Field { name: String::from_str("1"), value: Box::new(T2::schema(version)) });
        fields.push(Field { name: String::from_str("2"), value: Box::new(T3::schema(version)) });
        let r = Schema::Struct(SchemaStruct { dbg_name: String::from_str("3-Tuple"), fields });
        proof {
            reveal_strlit("0");
            reveal_strlit("1");
            reveal_strlit("2");
            let parts = seq![T1::schema_bytes(version), T2::schema_bytes(version), T3::schema_bytes(version)];
            let fs = r->Struct_0.fields@;
            assert(fs[0].name@ == position_name(0));
            assert(fs[1].name@ == position_name(1));
            assert(fs[2].name@ == position_name(2));
            lemma_tuple_fields(fs, parts, 3);
        }
        assert(enc_schema(r) =~= tuple_schema_bytes(
            "3-Tuple"@,
            seq![T1::schema_bytes(version), T2::schema_bytes(version), T3::schema_bytes(version)],
        ));
        r
    }
}

/// The placeholder type of a field that no longer exists. It keeps the
/// field's schema for the versions in which the field existed, and is never
/// written.
pub struct Removed<T> {
    phantom: core::marker::PhantomData<T>,
}

impl<T> Removed<T> {
    /// The placeholder; it carries no value.
    pub fn new() -> (r: Removed<T>) {
        Removed { phantom: core::marker::PhantomData }
    }
}

impl<T: WithSchema> WithSchema for Removed<T> {
    open spec fn schema_bytes(version: u32) -> Seq<u8> {
        T::schema_bytes(version)
    }

    fn schema(version: u32) -> (r: Schema) {
        T::schema(version)
    }
}

impl WithSchema for bool {
    open spec fn schema_bytes(version: u32) -> Seq<u8> {
        primitive_schema_bytes(SchemaPrimitive::schema_bool)
    }

    fn schema(version: u32) -> (r: Schema) {
        Schema::Primitive(SchemaPrimitive::schema_bool)
    }
}

impl WithSchema for u8 {
    open spec fn schema_bytes(version: u32) -> Seq<u8> {
        primitive_schema_bytes(SchemaPrimitive::schema_u8)
    }

    fn schema(version: u32) -> (r: Schema) {
        Schema::Primitive(SchemaPrimitive::schema_u8)
    }
}

impl WithSchema for i8 {
    open spec fn schema_bytes(version: u32) -> Seq<u8> {
        primitive_schema_bytes(SchemaPrimitive::schema_i8)
    }

    fn schema(version: u32) -> (r: Schema) {
        Schema::Primitive(SchemaPrimitive::schema_i8)
    }
}

impl WithSchema for u16 {
    open spec fn schema_bytes(version: u32) -> Seq<u8> {
        primitive_schema_bytes(SchemaPrimitive::schema_u16)
    }

    fn schema(version: u32) -> (r: Schema) {
        Schema::Primitive(SchemaPrimitive::schema_u16)
    }
}

impl WithSchema for i16 {
    open spec fn schema_bytes(version: u32) -> Seq<u8> {
        primitive_schema_bytes(SchemaPrimitive::schema_i16)
    }

    fn schema(version: u32) -> (r: Schema) {
        Schema::Primitive(SchemaPrimitive::schema_i16)
    }
}

impl WithSchema for u32 {
    open spec fn schema_bytes(version: u32) -> Seq<u8> {
        primitive_schema_bytes(SchemaPrimitive::schema_u32)
    }

    fn schema(version: u32) -> (r: Schema) {
        Schema::Primitive(SchemaPrimitive::schema_u32)
    }
}

impl WithSchema for i32 {
    open spec fn schema_bytes(version: u32) -> Seq<u8> {
        primitive_schema_bytes(SchemaPrimitive::schema_i32)
    }

    fn schema(version: u32) -> (r: Schema) {
        Schema::Primitive(SchemaPrimitive::schema_i32)
    }
}

impl WithSchema for u64 {
    open spec fn schema_bytes(version: u32) -> Seq<u8> {
        primitive_schema_bytes(SchemaPrimitive::schema_u64)
    }

    fn schema(version: u32) -> (r: Schema) {
        Schema::Primitive(SchemaPrimitive::schema_u64)
    }
}

impl WithSchema for i64 {
    open spec fn schema_bytes(version: u32) -> Seq<u8> {
        primitive_schema_bytes(SchemaPrimitive::schema_i64)
    }

    fn schema(version: u32) -> (r: Schema) {
        Schema::Primitive(SchemaPrimitive::schema_i64)
    }
}

impl WithSchema for usize {
    /// A `usize` is written on 8 bytes.
    open spec fn schema_bytes(version: u32) -> Seq<u8> {
        primitive_schema_bytes(SchemaPrimitive::schema_u64)
    }

    fn schema(version: u32) -> (r: Schema) {
        Schema::Primitive(SchemaPrimitive::schema_u64)
    }
}

impl WithSchema for isize {
    /// An `isize` is written on 8 bytes.
    open spec fn schema_bytes(version: u32) -> Seq<u8> {
        primitive_schema_bytes(SchemaPrimitive::schema_i64)
    }

    fn schema(version: u32) -> (r: Schema) {
        Schema::Primitive(SchemaPrimitive::schema_i64)
    }
}

impl WithSchema for String {
    open spec fn schema_bytes(version: u32) -> Seq<u8> {
        primitive_schema_bytes(SchemaPrimitive::schema_string)
    }

    fn schema(version: u32) -> (r: Schema) {
        Schema::Primitive(SchemaPrimitive::schema_string)
    }
}

impl WithSchema for () {
    open spec fn schema_bytes(version: u32) -> Seq<u8> {
        seq![6u8]
    }

    fn schema(version: u32) -> (r: Schema) {
        Schema::ZeroSize
    }
}

impl<T: WithSchema> WithSchema for Vec<T> {
    open spec fn schema_bytes(version: u32) -> Seq<u8> {
        seq![4u8] + T::schema_bytes(version)
    }

    fn schema(version: u32) -> (r: Schema) {
        Schema::Vector(Box::new(T::schema(version)))
    }
}

impl<T: WithSchema> WithSchema for Option<T> {
    open spec fn schema_bytes(version: u32) -> Seq<u8> {
        seq![7u8] + T::schema_bytes(version)
    }

    fn schema(version: u32) -> (r: Schema) {
        Schema::SchemaOption(Box::new(T::schema(version)))
    }
}

impl<T: WithSchema> WithSchema for Box<T> {
    open spec fn schema_bytes(version: u32) -> Seq<u8> {
        T::schema_bytes(version)
    }

    fn schema(version: u32) -> (r: Schema) {
        T::schema(version)
    }
}

impl<T1: WithSchema> WithSchema for (T1,) {
    open spec fn schema_bytes(version: u32) -> Seq<u8> {
        tuple_schema_bytes("1-Tuple"@, seq![T1::schema_bytes(version)])
    }

    fn schema(version: u32) -> (r: Schema) {
        Schema::new_tuple1::<T1>(version)
    }
}

impl<T1: WithSchema, T2: WithSchema> WithSchema for (T1, T2) {
    open spec fn schema_bytes(version: u32) -> Seq<u8> {
        tuple_schema_bytes("2-Tuple"@, seq![T1::schema_bytes(version), T2::schema_bytes(version)])
    }

    fn schema(version: u32) -> (r: Schema) {
        Schema::new_tuple2::<T1, T2>(version)
    }
}

impl<T1: WithSchema, T2: WithSchema, T3: WithSchema> WithSchema for (T1, T2, T3) {
    open spec fn schema_bytes(version: u32) -> Seq<u8> {
        tuple_schema_bytes(
            "3-Tuple"@,
            seq![T1::schema_bytes(version), T2::schema_bytes(version), T3::schema_bytes(version)],
        )
    }

    fn schema(version: u32) -> (r: Schema) {
        Schema::new_tuple3::<T1, T2, T3>(version)
    }
}

impl ReprC for bool {
    /// Whether a `bool` is always one byte is left open, so it is never
    /// copied as memory.
    open spec fn reprc_at(version: u32) -> bool {
        false
    }

    fn repr_c_optimization_safe(version: u32) -> (r: bool) {
        false
    }
}

impl ReprC for u8 {
    open spec fn reprc_at(version: u32) -> bool {
        true
    }

    fn repr_c_optimization_safe(version: u32) -> (r: bool) {
        true
    }
}

impl ReprC for i8 {
    open spec fn reprc_at(version: u32) -> bool {
        true
    }

    fn repr_c_optimization_safe(version: u32) -> (r: bool) {
        true
    }
}

impl ReprC for u16 {
    open spec fn reprc_at(version: u32) -> bool {
        true
    }

    fn repr_c_optimization_safe(version: u32) -> (r: bool) {
        true
    }
}

impl ReprC for i16 {
    open spec fn reprc_at(version: u32) -> bool {
        true
    }

    fn repr_c_optimization_safe(version: u32) -> (r: bool) {
        true
    }
}

impl ReprC for u32 {
    open spec fn reprc_at(version: u32) -> bool {
        true
    }

    fn repr_c_optimization_safe(version: u32) -> (r: bool) {
        true
    }
}

impl ReprC for i32 {
    open spec fn reprc_at(version: u32) -> bool {
        true
    }

    fn repr_c_optimization_safe(version: u32) -> (r: bool) {
        true
    }
}

impl ReprC for u64 {
    open spec fn reprc_at(version: u32) -> bool {
        true
    }

    fn repr_c_optimization_safe(version: u32) -> (r: bool) {
        true
    }
}

impl ReprC for i64 {
    open spec fn reprc_at(version: u32) -> bool {
        true
    }

    fn repr_c_optimization_safe(version: u32) -> (r: bool) {
        true
    }
}

impl ReprC for usize {
    open spec fn reprc_at(version: u32) -> bool {
        true
    }

    fn repr_c_optimization_safe(version: u32) -> (r: bool) {
        true
    }
}

impl ReprC for isize {
    open spec fn reprc_at(version: u32) -> bool {
        true
    }

    fn repr_c_optimization_safe(version: u32) -> (r: bool) {
        true
    }
}


/// The wire form of a map's schema: a sequence of aggregates "KeyValuePair"
/// of a key and a value.
pub open spec fn map_schema_bytes(key: Seq<u8>, value: Seq<u8>) -> Seq<u8> {
    seq![4u8, 1u8] + enc_str("KeyValuePair"@) + le_bytes(2, 8) + enc_str("key"@) + key + enc_str("value"@)
        + value
}

/// The schema of a map with keys of schema `key` and values of schema
/// `value`: a sequence of key/value aggregates.
pub fn map_schema(key: Schema, value: Schema) -> (r: Schema)
    ensures
        enc_schema(r) == map_schema_bytes(enc_schema(key), enc_schema(value)),
{
    let ghost kb = enc_schema(key);
    let ghost vb = enc_schema(value);
    let mut fields: Vec<Field> = Vec::new();
    fields.push(Field { name: String::from_str("key"), value: Box::new(key) });
    fields.push(Field { name: String::from_str("value"), value: Box::new(value) });
    let pair = Schema::Struct(SchemaStruct { dbg_name: String::from_str("KeyValuePair"), fields });
    proof {
        let fs = pair->Struct_0.fields@;
        assert(enc_fields(fs, 0) == Seq::<u8>::empty());
        assert(enc_fields(fs, 1) == enc_fields(fs, 0) + enc_field(fs[0]));
        assert(enc_fields(fs, 2) == enc_fields(fs, 1) + enc_field(fs[1]));
        assert(enc_schema(pair) == seq![1u8] + enc_str("KeyValuePair"@) + le_bytes(2, 8) + enc_fields(fs, 2));
    }
    let ghost pb = enc_schema(pair);
    let r = Schema::Vector(Box::new(pair));
    assert(enc_schema(r) == seq![4u8] + pb);
    assert(enc_schema(r) =~= map_schema_bytes(kb, vb));
    r
}

impl<K: WithSchema, V: WithSchema> WithSchema for std::collections::HashMap<K, V> {
    open spec fn schema_bytes(version: u32) -> Seq<u8> {
        map_schema_bytes(K::schema_bytes(version), V::schema_bytes(version))
    }

    fn schema(version: u32) -> (r: Schema) {
        map_schema(K::schema(version), V::schema(version))
    }
}

} // verus!
