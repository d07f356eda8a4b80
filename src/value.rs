//! Values read and written under a schema: their wire encoding, a decoder
//! driven by the schema, and the proof that decoding undoes encoding.
use vstd::prelude::*;
use vstd::utf8::{encode_utf8, decode_utf8, encode_utf8_valid_utf8, encode_utf8_decode_utf8};
use crate::error::SavefileError;
use crate::schema::{
    Schema,
    SchemaPrimitive,
    Field,
    Variant,
    compatible,
    fields_compatible,
    variants_compatible,
    lemma_fields_prefix,
    lemma_variants_prefix,
};
use crate::wire::{
    Serializer,
    Deserializer,
    le_bytes,
    le_value,
    twos,
    from_twos,
    enc_str,
    string_payload,
    string_ahead,
    string_len,
    lemma_le_round_trip,
    lemma_twos_round_trip,
    lemma_pow256_facts,
};

verus! {

broadcast use vstd::std_specs::vec::group_vec_axioms;

/// A value of any type the engine can store: primitives (floats as their
/// bit patterns), aggregates, enum values, sequences and optional values.
#[derive(Debug, PartialEq)]
pub enum Value {
    Bool(bool),
    U8(u8),
    I8(i8),
    U16(u16),
    I16(i16),
    U32(u32),
    I32(i32),
    U64(u64),
    I64(i64),
    F32(u32),
    F64(u64),
    Str(String),
    Struct(Vec<Value>),
    Enum(u8, Vec<Value>),
    Sequence(Vec<Value>),
    Optional(Option<Box<Value>>),
    Unit,
}

/// The mathematical form of a `Value`.
pub enum ValueView {
    Bool(bool),
    U8(u8),
    I8(i8),
    U16(u16),
    I16(i16),
    U32(u32),
    I32(i32),
    U64(u64),
    I64(i64),
    F32(u32),
    F64(u64),
    Str(Seq<char>),
    Struct(Seq<ValueView>),
    Enum(u8, Seq<ValueView>),
    Sequence(Seq<ValueView>),
    Optional(Option<Box<ValueView>>),
    Unit,
}

/// The mathematical form of `v`.
pub open spec fn view_of(v: Value) -> ValueView
    decreases v, 1int,
{
    match v {
        Value::Bool(x) => ValueView::Bool(x),
        Value::U8(x) => ValueView::U8(x),
        Value::I8(x) => ValueView::I8(x),
        Value::U16(x) => ValueView::U16(x),
        Value::I16(x) => ValueView::I16(x),
        Value::U32(x) => ValueView::U32(x),
        Value::I32(x) => ValueView::I32(x),
        Value::U64(x) => ValueView::U64(x),
        Value::I64(x) => ValueView::I64(x),
        Value::F32(x) => ValueView::F32(x),
        Value::F64(x) => ValueView::F64(x),
        Value::Str(s) => ValueView::Str(s@),
        Value::Struct(vs) => ValueView::Struct(views(vs@)),
        Value::Enum(d, vs) => ValueView::Enum(d, views(vs@)),
        Value::Sequence(vs) => ValueView::Sequence(views(vs@)),
        Value::Optional(o) => match o {
            Some(b) => ValueView::Optional(Some(Box::new(view_of(*b)))),
            None => ValueView::Optional(None),
        },
        Value::Unit => ValueView::Unit,
    }
}

/// The mathematical forms of the values of `vs`, in order.
pub open spec fn views(vs: Seq<Value>) -> Seq<ValueView>
    decreases vs, 0int,
{
    Seq::new(
        vs.len(),
        |i: int|
            if 0 <= i < vs.len() {
                view_of(vs[i])
            } else {
                ValueView::Unit
            },
    )
}

/// The wire encoding of a value. Aggregates are their fields in order; an
/// enum value is its discriminator byte and then its fields; a sequence is
/// its length on 8 bytes and then its elements; an optional value is a
/// presence byte and then, if present, the value.
pub open spec fn enc(v: ValueView) -> Seq<u8>
    decreases v, 1int,
{
    match v {
        ValueView::Bool(x) => seq![if x { 1u8 } else { 0u8 }],
        ValueView::U8(x) => le_bytes(x as nat, 1),
        ValueView::I8(x) => le_bytes(twos(x as int, 1), 1),
        ValueView::U16(x) => le_bytes(x as nat, 2),
        ValueView::I16(x) => le_bytes(twos(x as int, 2), 2),
        ValueView::U32(x) => le_bytes(x as nat, 4),
        ValueView::I32(x) => le_bytes(twos(x as int, 4), 4),
        ValueView::U64(x) => le_bytes(x as nat, 8),
        ValueView::I64(x) => le_bytes(twos(x as int, 8), 8),
        ValueView::F32(x) => le_bytes(x as nat, 4),
        ValueView::F64(x) => le_bytes(x as nat, 8),
        ValueView::Str(s) => enc_str(s),
        ValueView::Struct(vs) => enc_all(vs, vs.len() as int),
        ValueView::Enum(d, vs) => seq![d] + enc_all(vs, vs.len() as int),
        ValueView::Sequence(vs) => le_bytes(vs.len(), 8) + enc_all(vs, vs.len() as int),
        ValueView::Optional(o) => match o {
            Some(b) => seq![1u8] + enc(*b),
            None => seq![0u8],
        },
        ValueView::Unit => Seq::empty(),
    }
}

/// The encodings of the first `n` values of `vs`, one after the other.
pub open spec fn enc_all(vs: Seq<ValueView>, n: int) -> Seq<u8>
    decreases vs, n,
{
    if n <= 0 || n > vs.len() {
        Seq::empty()
    } else {
        enc_all(vs, n - 1) + enc(vs[n - 1])
    }
}

/// Index of the first variant of `vs`, from `i` on, whose discriminator is
/// `d`; -1 when there is none.
pub open spec fn first_variant(vs: Seq<Variant>, d: u8, i: int) -> int
    decreases vs.len() - i,
{
    if i < 0 || i >= vs.len() {
        -1
    } else if vs[i].discriminator == d {
        i
    } else {
        first_variant(vs, d, i + 1)
    }
}

/// `v` is a value of schema `s`, small enough to be written.
pub open spec fn conforms(v: ValueView, s: Schema) -> bool
    decreases s, 1int,
{
    match s {
        Schema::Primitive(p) => match p {
            SchemaPrimitive::schema_i8 => v is I8,
            SchemaPrimitive::schema_u8 => v is U8,
            SchemaPrimitive::schema_i16 => v is I16,
            SchemaPrimitive::schema_u16 => v is U16,
            SchemaPrimitive::schema_i32 => v is I32,
            SchemaPrimitive::schema_u32 => v is U32,
            SchemaPrimitive::schema_i64 => v is I64,
            SchemaPrimitive::schema_u64 => v is U64,
            SchemaPrimitive::schema_string => v is Str && encode_utf8(v->Str_0).len() <= usize::MAX,
            SchemaPrimitive::schema_f32 => v is F32,
            SchemaPrimitive::schema_f64 => v is F64,
            SchemaPrimitive::schema_bool => v is Bool,
        },
        Schema::Struct(x) => v is Struct && v->Struct_0.len() == x.fields@.len() && conforms_all(
            v->Struct_0,
            x.fields@,
            x.fields@.len() as int,
        ),
        Schema::Enum(x) => v is Enum && {
            let k = first_variant(x.variants@, v->Enum_0, 0);
            &&& 0 <= k < x.variants@.len()
            &&& v->Enum_1.len() == x.variants@[k].fields@.len()
            &&& conforms_all(v->Enum_1, x.variants@[k].fields@, v->Enum_1.len() as int)
        },
        Schema::Vector(e) => v is Sequence && v->Sequence_0.len() <= usize::MAX && forall|i: int|
            0 <= i < v->Sequence_0.len() ==> conforms(#[trigger] v->Sequence_0[i], *e),
        Schema::SchemaOption(e) => v is Optional && match v->Optional_0 {
            Some(b) => conforms(*b, *e),
            None => true,
        },
        Schema::Undefined => false,
        Schema::ZeroSize => v is Unit,
    }
}

/// The first `n` values of `vs` are values of the matching fields of `fs`.
pub open spec fn conforms_all(vs: Seq<ValueView>, fs: Seq<Field>, n: int) -> bool
    decreases fs, n,
{
    if n <= 0 || n > fs.len() || n > vs.len() {
        true
    } else {
        conforms_all(vs, fs, n - 1) && conforms(vs[n - 1], *fs[n - 1].value)
    }
}

/// Decodes a primitive of kind `p` from the start of `b`: the value and
/// the number of bytes it took, or `None` when the bytes do not hold one.
pub open spec fn dec_primitive(p: SchemaPrimitive, b: Seq<u8>) -> Option<(ValueView, nat)> {
    match p {
        SchemaPrimitive::schema_bool => if b.len() >= 1 {
            Some((ValueView::Bool(b[0] == 1), 1))
        } else {
            None
        },
        SchemaPrimitive::schema_u8 => if b.len() >= 1 {
            Some((ValueView::U8(b[0]), 1))
        } else {
            None
        },
        SchemaPrimitive::schema_i8 => if b.len() >= 1 {
            Some((ValueView::I8(from_twos(le_value(b.subrange(0, 1)), 1) as i8), 1))
        } else {
            None
        },
        SchemaPrimitive::schema_u16 => if b.len() >= 2 {
            Some((ValueView::U16(le_value(b.subrange(0, 2)) as u16), 2))
        } else {
            None
        },
        SchemaPrimitive::schema_i16 => if b.len() >= 2 {
            Some((ValueView::I16(from_twos(le_value(b.subrange(0, 2)), 2) as i16), 2))
        } else {
            None
        },
        SchemaPrimitive::schema_u32 => if b.len() >= 4 {
            Some((ValueView::U32(le_value(b.subrange(0, 4)) as u32), 4))
        } else {
            None
        },
        SchemaPrimitive::schema_i32 => if b.len() >= 4 {
            Some((ValueView::I32(from_twos(le_value(b.subrange(0, 4)), 4) as i32), 4))
        } else {
            None
        },
        SchemaPrimitive::schema_u64 => if b.len() >= 8 {
            Some((ValueView::U64(le_value(b.subrange(0, 8)) as u64), 8))
        } else {
            None
        },
        SchemaPrimitive::schema_i64 => if b.len() >= 8 {
            Some((ValueView::I64(from_twos(le_value(b.subrange(0, 8)), 8) as i64), 8))
        } else {
            None
        },
        SchemaPrimitive::schema_f32 => if b.len() >= 4 {
            Some((ValueView::F32(le_value(b.subrange(0, 4)) as u32), 4))
        } else {
            None
        },
        SchemaPrimitive::schema_f64 => if b.len() >= 8 {
            Some((ValueView::F64(le_value(b.subrange(0, 8)) as u64), 8))
        } else {
            None
        },
        SchemaPrimitive::schema_string => if string_ahead(b) {
            Some((ValueView::Str(decode_utf8(string_payload(b))), 8 + string_len(b)))
        } else {
            None
        },
    }
}

/// Decodes a value of schema `s` from the start of `b`: the value and the
/// number of bytes it took, or `None` when the bytes do not hold one.
pub open spec fn dec(s: Schema, b: Seq<u8>) -> Option<(ValueView, nat)>
    decreases s, 0int,
{
    match s {
        Schema::Primitive(p) => dec_primitive(p, b),
        Schema::Struct(x) => match dec_all(x.fields@, x.fields@.len() as int, b) {
            Some((vs, k)) => Some((ValueView::Struct(vs), k)),
            None => None,
        },
        Schema::Enum(x) => if b.len() >= 1 {
            let k = first_variant(x.variants@, b[0], 0);
            if 0 <= k < x.variants@.len() {
                let fs = x.variants@[k].fields@;
                match dec_all(fs, fs.len() as int, b.subrange(1, b.len() as int)) {
                    Some((vs, n)) => Some((ValueView::Enum(b[0], vs), n + 1)),
                    None => None,
                }
            } else {
                None
            }
        } else {
            None
        },
        Schema::Vector(e) => if b.len() >= 8 && le_value(b.subrange(0, 8)) <= usize::MAX {
            let c = le_value(b.subrange(0, 8));
            match dec_each(*e, c as int, b.subrange(8, b.len() as int)) {
                Some((vs, n)) => Some((ValueView::Sequence(vs), n + 8)),
                None => None,
            }
        } else {
            None
        },
        Schema::SchemaOption(e) => if b.len() >= 1 {
            if b[0] == 1 {
                match dec(*e, b.subrange(1, b.len() as int)) {
                    Some((v, n)) => Some((ValueView::Optional(Some(Box::new(v))), n + 1)),
                    None => None,
                }
            } else {
                Some((ValueView::Optional(None), 1))
            }
        } else {
            None
        },
        Schema::Undefined => None,
        Schema::ZeroSize => Some((ValueView::Unit, 0)),
    }
}

/// Decodes the first `n` fields of `fs` one after the other.
pub open spec fn dec_all(fs: Seq<Field>, n: int, b: Seq<u8>) -> Option<(Seq<ValueView>, nat)>
    decreases fs, n,
{
    if n <= 0 || n > fs.len() {
        Some((Seq::empty(), 0))
    } else {
        match dec_all(fs, n - 1, b) {
            Some((vs, k)) => if k <= b.len() {
                match dec(*fs[n - 1].value, b.subrange(k as int, b.len() as int)) {
                    Some((v, k2)) => Some((vs.push(v), k + k2)),
                    None => None,
                }
            } else {
                None
            },
            None => None,
        }
    }
}

/// Decodes `c` values of schema `e` one after the other.
pub open spec fn dec_each(e: Schema, c: int, b: Seq<u8>) -> Option<(Seq<ValueView>, nat)>
    decreases e, c + 1,
{
    if c <= 0 {
        Some((Seq::empty(), 0))
    } else {
        match dec_each(e, c - 1, b) {
            Some((vs, k)) => if k <= b.len() {
                match dec(e, b.subrange(k as int, b.len() as int)) {
                    Some((v, k2)) => Some((vs.push(v), k + k2)),
                    None => None,
                }
            } else {
                None
            },
            None => None,
        }
    }
}

/// Decoding a value's encoding under its schema gives the value back and
/// consumes exactly its bytes, whatever follows them.
pub proof fn lemma_round_trip(s: Schema, v: ValueView, tail: Seq<u8>)
    requires
        conforms(v, s),
    ensures
        dec(s, enc(v) + tail) == Some((v, enc(v).len())),
    decreases s, 0int,
{
    let b = enc(v) + tail;
    lemma_pow256_facts();
    match s {
        Schema::Primitive(p) => {
            match v {
                ValueView::Bool(x) => {},
                ValueView::U8(x) => {
                    lemma_le_round_trip(x as nat, 1);
                    assert(b.subrange(0, 1) =~= enc(v));
                    assert(le_bytes(x as nat, 1) == seq![(x as nat % 256) as u8] + le_bytes(x as nat / 256, 0));
                },
                ValueView::I8(x) => {
                    lemma_twos_round_trip(x as int, 1);
                    lemma_le_round_trip(twos(x as int, 1), 1);
                    assert(b.subrange(0, 1) =~= enc(v));
                },
                ValueView::U16(x) => {
                    lemma_le_round_trip(x as nat, 2);
                    assert(b.subrange(0, 2) =~= enc(v));
                },
                ValueView::I16(x) => {
                    lemma_twos_round_trip(x as int, 2);
                    lemma_le_round_trip(twos(x as int, 2), 2);
                    assert(b.subrange(0, 2) =~= enc(v));
                },
                ValueView::U32(x) => {
                    lemma_le_round_trip(x as nat, 4);
                    assert(b.subrange(0, 4) =~= enc(v));
                },
                ValueView::I32(x) => {
                    lemma_twos_round_trip(x as int, 4);
                    lemma_le_round_trip(twos(x as int, 4), 4);
                    assert(b.subrange(0, 4) =~= enc(v));
                },
                ValueView::U64(x) => {
                    lemma_le_round_trip(x as nat, 8);
                    assert(b.subrange(0, 8) =~= enc(v));
                },
                ValueView::I64(x) => {
                    lemma_twos_round_trip(x as int, 8);
                    lemma_le_round_trip(twos(x as int, 8), 8);
                    assert(b.subrange(0, 8) =~= enc(v));
                },
                ValueView::F32(x) => {
                    lemma_le_round_trip(x as nat, 4);
                    assert(b.subrange(0, 4) =~= enc(v));
                },
                ValueView::F64(x) => {
                    lemma_le_round_trip(x as nat, 8);
                    assert(b.subrange(0, 8) =~= enc(v));
                },
                ValueView::Str(t) => {
                    let u = encode_utf8(t);
                    lemma_le_round_trip(u.len(), 8);
                    assert(b.subrange(0, 8) =~= le_bytes(u.len(), 8));
                    assert(string_payload(b) =~= u);
                    encode_utf8_valid_utf8(t);
                    encode_utf8_decode_utf8(t);
                },
                _ => {},
            }
        },
        Schema::Struct(x) => {
            let vs = v->Struct_0;
            lemma_all_round_trip(x.fields@, vs, vs.len() as int, tail);
            assert(vs.take(vs.len() as int) =~= vs);
        },
        Schema::Enum(x) => {
            let d = v->Enum_0;
            let vs = v->Enum_1;
            let k = first_variant(x.variants@, d, 0);
            assert(b[0] == d);
            assert(b.subrange(1, b.len() as int) =~= enc_all(vs, vs.len() as int) + tail);
            lemma_all_round_trip(x.variants@[k].fields@, vs, vs.len() as int, tail);
            assert(vs.take(vs.len() as int) =~= vs);
        },
        Schema::Vector(e) => {
            let vs = v->Sequence_0;
            lemma_le_round_trip(vs.len(), 8);
            assert(b.subrange(0, 8) =~= le_bytes(vs.len(), 8));
            assert(b.subrange(8, b.len() as int) =~= enc_all(vs, vs.len() as int) + tail);
            lemma_each_round_trip(*e, vs, vs.len() as int, tail);
            assert(vs.take(vs.len() as int) =~= vs);
        },
        Schema::SchemaOption(e) => {
            match v->Optional_0 {
                Some(inner) => {
                    assert(b.subrange(1, b.len() as int) =~= enc(*inner) + tail);
                    lemma_round_trip(*e, *inner, tail);
                },
                None => {},
            }
        },
        Schema::Undefined => {},
        Schema::ZeroSize => {
            assert(b =~= tail);
        },
    }
}

proof fn lemma_all_round_trip(fs: Seq<Field>, vs: Seq<ValueView>, n: int, tail: Seq<u8>)
    requires
        0 <= n <= fs.len(),
        n <= vs.len(),
        conforms_all(vs, fs, n),
    ensures
        dec_all(fs, n, enc_all(vs, n) + tail) == Some((vs.take(n), enc_all(vs, n).len())),
    decreases fs, n,
{
    if n == 0 {
        assert(vs.take(0) =~= Seq::<ValueView>::empty());
    } else {
        let head = enc_all(vs, n - 1);
        let last = enc(vs[n - 1]);
        let b = enc_all(vs, n) + tail;
        assert(b =~= head + (last + tail));
        lemma_all_round_trip(fs, vs, n - 1, last + tail);
        assert(b.subrange(head.len() as int, b.len() as int) =~= last + tail);
        lemma_round_trip(*fs[n - 1].value, vs[n - 1], tail);
        assert(vs.take(n - 1).push(vs[n - 1]) =~= vs.take(n));
    }
}

proof fn lemma_each_round_trip(e: Schema, vs: Seq<ValueView>, c: int, tail: Seq<u8>)
    requires
        0 <= c <= vs.len(),
        forall|i: int| 0 <= i < vs.len() ==> conforms(#[trigger] vs[i], e),
    ensures
        dec_each(e, c, enc_all(vs, c) + tail) == Some((vs.take(c), enc_all(vs, c).len())),
    decreases e, c + 1,
{
    if c == 0 {
        assert(vs.take(0) =~= Seq::<ValueView>::empty());
    } else {
        let head = enc_all(vs, c - 1);
        let last = enc(vs[c - 1]);
        let b = enc_all(vs, c) + tail;
        assert(b =~= head + (last + tail));
        lemma_each_round_trip(e, vs, c - 1, last + tail);
        assert(b.subrange(head.len() as int, b.len() as int) =~= last + tail);
        lemma_round_trip(e, vs[c - 1], tail);
        assert(vs.take(c - 1).push(vs[c - 1]) =~= vs.take(c));
    }
}


proof fn lemma_dec_all_none(fs: Seq<Field>, n: int, m: int, b: Seq<u8>)
    requires
        0 <= n <= m <= fs.len(),
        dec_all(fs, n, b) is None,
    ensures
        dec_all(fs, m, b) is None,
    decreases m - n,
{
    if n < m {
        lemma_dec_all_none(fs, n, m - 1, b);
    }
}

proof fn lemma_dec_each_none(e: Schema, n: int, m: int, b: Seq<u8>)
    requires
        0 <= n <= m,
        dec_each(e, n, b) is None,
    ensures
        dec_each(e, m, b) is None,
    decreases m - n,
{
    if n < m {
        lemma_dec_each_none(e, n, m - 1, b);
    }
}

/// Writes `v` to `serializer` in its wire encoding.
pub fn encode_value(v: &Value, serializer: &mut Serializer) -> (r: Result<(), SavefileError>)
    ensures
        r is Ok,
        final(serializer).bytes@ == old(serializer).bytes@ + enc(view_of(*v)),
        final(serializer).version == old(serializer).version,
    decreases *v, 1int,
{
    match v {
        Value::Bool(x) => serializer.write_bool(*x),
        Value::U8(x) => serializer.write_u8(*x),
        Value::I8(x) => serializer.write_i8(*x),
        Value::U16(x) => serializer.write_u16(*x),
        Value::I16(x) => serializer.write_i16(*x),
        Value::U32(x) => serializer.write_u32(*x),
        Value::I32(x) => serializer.write_i32(*x),
        Value::U64(x) => serializer.write_u64(*x),
        Value::I64(x) => serializer.write_i64(*x),
        Value::F32(x) => serializer.write_u32(*x),
        Value::F64(x) => serializer.write_u64(*x),
        Value::Str(x) => serializer.write_string(x.as_str()),
        Value::Struct(vs) => encode_all(vs, serializer),
        Value::Enum(d, vs) => {
            let _ = serializer.write_u8(*d);
            proof {
                lemma_pow256_facts();
                assert(le_bytes(*d as nat / 256, 0) =~= Seq::<u8>::empty());
                assert((*d as nat % 256) as u8 == *d);
                assert(le_bytes(*d as nat, 1) =~= seq![*d]);
            }
            let ghost mid = serializer.bytes@;
            let _ = encode_all(vs, serializer);
            assert(serializer.bytes@ =~= old(serializer).bytes@ + enc(view_of(*v)));
            Ok(())
        },
        Value::Sequence(vs) => {
            let _ = serializer.write_usize(vs.len());
            let _ = encode_all(vs, serializer);
            assert(serializer.bytes@ =~= old(serializer).bytes@ + enc(view_of(*v)));
            Ok(())
        },
        Value::Optional(o) => match o {
            Some(b) => {
                let _ = serializer.write_bool(true);
                let _ = encode_value(b, serializer);
                assert(serializer.bytes@ =~= old(serializer).bytes@ + enc(view_of(*v)));
                Ok(())
            },
            None => serializer.write_bool(false),
        },
        Value::Unit => {
            assert(serializer.bytes@ =~= old(serializer).bytes@ + enc(view_of(*v)));
            Ok(())
        },
    }
}

/// Writes the values of `vs` one after the other.
fn encode_all(vs: &Vec<Value>, serializer: &mut Serializer) -> (r: Result<(), SavefileError>)
    ensures
        r is Ok,
        final(serializer).bytes@ == old(serializer).bytes@ + enc_all(views(vs@), vs@.len() as int),
        final(serializer).version == old(serializer).version,
    decreases vs@, 0int,
{
    let ghost w = views(vs@);
    let mut i: usize = 0;
    while i < vs.len()
        invariant
            i <= vs@.len(),
            w == views(vs@),
            w.len() == vs@.len(),
            serializer.version == old(serializer).version,
            serializer.bytes@ == old(serializer).bytes@ + enc_all(w, i as int),
        decreases vs@.len() - i,
    {
        let ghost before = serializer.bytes@;
        let _ = encode_value(&vs[i], serializer);
        assert(w[i as int] == view_of(vs@[i as int]));
        assert(serializer.bytes@ =~= old(serializer).bytes@ + enc_all(w, i + 1));
        i = i + 1;
    }
    Ok(())
}

/// Reads a value of schema `s` from `deserializer`. It succeeds exactly
/// when the bytes ahead hold such a value, and then yields the value that
/// `dec` describes and moves past its bytes.
pub fn decode_value(s: &Schema, deserializer: &mut Deserializer) -> (r: Result<Value, SavefileError>)
    requires
        old(deserializer).wf(),
    ensures
        final(deserializer).wf(),
        final(deserializer).data@ == old(deserializer).data@,
        final(deserializer).file_version == old(deserializer).file_version,
        final(deserializer).memory_version == old(deserializer).memory_version,
        match dec(*s, old(deserializer).rest()) {
            Some((v, k)) => r is Ok && view_of(r->Ok_0) == v && final(deserializer).pos == old(
                deserializer,
            ).pos + k,
            None => r is Err,
        },
        r is Err ==> !(r->Err_0 is IncompatibleSchema),
    decreases *s, 2int,
{
    proof {
        lemma_pow256_facts();
    }
    let ghost b = deserializer.rest();
    match s {
        Schema::Primitive(p) => match p {
            SchemaPrimitive::schema_bool => Ok(Value::Bool(deserializer.read_bool()?)),
            SchemaPrimitive::schema_u8 => Ok(Value::U8(deserializer.read_u8()?)),
            SchemaPrimitive::schema_i8 => Ok(Value::I8(deserializer.read_i8()?)),
            SchemaPrimitive::schema_u16 => Ok(Value::U16(deserializer.read_u16()?)),
            SchemaPrimitive::schema_i16 => Ok(Value::I16(deserializer.read_i16()?)),
            SchemaPrimitive::schema_u32 => Ok(Value::U32(deserializer.read_u32()?)),
            SchemaPrimitive::schema_i32 => Ok(Value::I32(deserializer.read_i32()?)),
            SchemaPrimitive::schema_u64 => Ok(Value::U64(deserializer.read_u64()?)),
            SchemaPrimitive::schema_i64 => Ok(Value::I64(deserializer.read_i64()?)),
            SchemaPrimitive::schema_f32 => Ok(Value::F32(deserializer.read_u32()?)),
            SchemaPrimitive::schema_f64 => Ok(Value::F64(deserializer.read_u64()?)),
            SchemaPrimitive::schema_string => Ok(Value::Str(deserializer.read_string()?)),
        },
        Schema::Struct(x) => {
            let vs = decode_all(&x.fields, deserializer)?;
            Ok(Value::Struct(vs))
        },
        Schema::Enum(x) => {
            let d = deserializer.read_u8()?;
            let mut i: usize = 0;
            while i < x.variants.len() && x.variants[i].discriminator != d
                invariant
                    i <= x.variants@.len(),
                    first_variant(x.variants@, d, 0) == first_variant(x.variants@, d, i as int),
                decreases x.variants@.len() - i,
            {
                i = i + 1;
            }
            if i == x.variants.len() {
                return Err(
                    SavefileError::CorruptData { message: String::from_str("unknown enum discriminator") },
                );
            }
            assert(deserializer.rest() =~= b.subrange(1, b.len() as int));
            let vs = decode_all(&x.variants[i].fields, deserializer)?;
            Ok(Value::Enum(d, vs))
        },
        Schema::Vector(e) => {
            let c = deserializer.read_usize()?;
            assert(deserializer.rest() =~= b.subrange(8, b.len() as int));
            let vs = decode_each(e, c, deserializer)?;
            Ok(Value::Sequence(vs))
        },
        Schema::SchemaOption(e) => {
            let present = deserializer.read_bool()?;
            if present {
                assert(deserializer.rest() =~= b.subrange(1, b.len() as int));
                let inner = decode_value(e, deserializer)?;
                Ok(Value::Optional(Some(Box::new(inner))))
            } else {
                Ok(Value::Optional(None))
            }
        },
        Schema::Undefined => Err(
            SavefileError::CorruptData { message: String::from_str("undefined schema") },
        ),
        Schema::ZeroSize => Ok(Value::Unit),
    }
}

/// Reads one value for each field of `fs`, in order.
fn decode_all(fs: &Vec<Field>, deserializer: &mut Deserializer) -> (r: Result<Vec<Value>, SavefileError>)
    requires
        old(deserializer).wf(),
    ensures
        final(deserializer).wf(),
        final(deserializer).data@ == old(deserializer).data@,
        final(deserializer).file_version == old(deserializer).file_version,
        final(deserializer).memory_version == old(deserializer).memory_version,
        match dec_all(fs@, fs@.len() as int, old(deserializer).rest()) {
            Some((vs, k)) => r is Ok && views(r->Ok_0@) == vs && final(deserializer).pos == old(
                deserializer,
            ).pos + k,
            None => r is Err,
        },
        r is Err ==> !(r->Err_0 is IncompatibleSchema),
    decreases fs@, 1int,
{
    let ghost b = deserializer.rest();
    let ghost start_pos = deserializer.pos;
    let mut out: Vec<Value> = Vec::new();
    let mut i: usize = 0;
    while i < fs.len()
        invariant
            i <= fs@.len(),
            deserializer.wf(),
            start_pos <= deserializer.pos,
            b == old(deserializer).rest(),
            start_pos == old(deserializer).pos,
            deserializer.data@ == old(deserializer).data@,
            deserializer.file_version == old(deserializer).file_version,
            deserializer.memory_version == old(deserializer).memory_version,
            dec_all(fs@, i as int, b) == Some((views(out@), (deserializer.pos - start_pos) as nat)),
        decreases fs@.len() - i,
    {
        assert(deserializer.rest() =~= b.subrange(deserializer.pos - start_pos, b.len() as int));
        let x = decode_value(&fs[i].value, deserializer);
        match x {
            Ok(x) => {
                let ghost prev = out@;
                out.push(x);
                assert(views(out@) =~= views(prev).push(view_of(x)));
            },
            Err(e) => {
                proof {
                    lemma_dec_all_none(fs@, i + 1, fs@.len() as int, b);
                }
                return Err(e);
            },
        }
        i = i + 1;
    }
    Ok(out)
}

/// Reads `c` values of schema `e`, in order.
fn decode_each(e: &Schema, c: usize, deserializer: &mut Deserializer) -> (r: Result<Vec<Value>, SavefileError>)
    requires
        old(deserializer).wf(),
    ensures
        final(deserializer).wf(),
        final(deserializer).data@ == old(deserializer).data@,
        final(deserializer).file_version == old(deserializer).file_version,
        final(deserializer).memory_version == old(deserializer).memory_version,
        match dec_each(*e, c as int, old(deserializer).rest()) {
            Some((vs, k)) => r is Ok && views(r->Ok_0@) == vs && final(deserializer).pos == old(
                deserializer,
            ).pos + k,
            None => r is Err,
        },
        r is Err ==> !(r->Err_0 is IncompatibleSchema),
    decreases *e, 3int,
{
    let ghost b = deserializer.rest();
    let ghost start_pos = deserializer.pos;
    let mut out: Vec<Value> = Vec::new();
    let mut i: usize = 0;
    while i < c
        invariant
            i <= c,
            deserializer.wf(),
            start_pos <= deserializer.pos,
            b == old(deserializer).rest(),
            start_pos == old(deserializer).pos,
            deserializer.data@ == old(deserializer).data@,
            deserializer.file_version == old(deserializer).file_version,
            deserializer.memory_version == old(deserializer).memory_version,
            dec_each(*e, i as int, b) == Some((views(out@), (deserializer.pos - start_pos) as nat)),
        decreases c - i,
    {
        assert(deserializer.rest() =~= b.subrange(deserializer.pos - start_pos, b.len() as int));
        let x = decode_value(e, deserializer);
        match x {
            Ok(x) => {
                let ghost prev = out@;
                out.push(x);
                assert(views(out@) =~= views(prev).push(view_of(x)));
            },
            Err(err) => {
                proof {
                    lemma_dec_each_none(*e, i + 1, c as int, b);
                }
                return Err(err);
            },
        }
        i = i + 1;
    }
    Ok(out)
}


/// Schemas that the diff finds compatible read every byte string the same
/// way: checking compatibility before a load is enough for the data to
/// decode as the stored schema describes it.
pub proof fn lemma_compatible_decode(a: Schema, b: Schema, bytes: Seq<u8>)
    requires
        compatible(a, b),
    ensures
        dec(a, bytes) == dec(b, bytes),
    decreases a, 0int,
{
    match a {
        Schema::Struct(x) => {
            let y = b->Struct_0;
            lemma_dec_all_compatible(x.fields@, y.fields@, x.fields@.len() as int, bytes);
        },
        Schema::Enum(x) => {
            let y = b->Enum_0;
            if bytes.len() >= 1 {
                let d = bytes[0];
                lemma_first_variant_compatible(x.variants@, y.variants@, d, 0);
                let k = first_variant(x.variants@, d, 0);
                if 0 <= k < x.variants@.len() {
                    lemma_variants_prefix(x.variants@, y.variants@, k + 1, x.variants@.len() as int);
                    let fa = x.variants@[k].fields@;
                    let fb = y.variants@[k].fields@;
                    lemma_dec_all_compatible(fa, fb, fa.len() as int, bytes.subrange(1, bytes.len() as int));
                }
            }
        },
        Schema::Vector(e) => {
            let f = b->Vector_0;
            if bytes.len() >= 8 {
                let c = le_value(bytes.subrange(0, 8));
                lemma_dec_each_compatible(*e, *f, c as int, bytes.subrange(8, bytes.len() as int));
            }
        },
        Schema::SchemaOption(e) => {
            let f = b->SchemaOption_0;
            if bytes.len() >= 1 {
                lemma_compatible_decode(*e, *f, bytes.subrange(1, bytes.len() as int));
            }
        },
        _ => {},
    }
}

proof fn lemma_dec_all_compatible(fa: Seq<Field>, fb: Seq<Field>, n: int, bytes: Seq<u8>)
    requires
        fa.len() == fb.len(),
        0 <= n <= fa.len(),
        fields_compatible(fa, fb, fa.len() as int),
    ensures
        dec_all(fa, n, bytes) == dec_all(fb, n, bytes),
    decreases fa, n,
{
    if n > 0 {
        lemma_dec_all_compatible(fa, fb, n - 1, bytes);
        lemma_fields_prefix(fa, fb, n, fa.len() as int);
        match dec_all(fa, n - 1, bytes) {
            Some((vs, k)) => {
                if k <= bytes.len() {
                    lemma_compatible_decode(
                        *fa[n - 1].value,
                        *fb[n - 1].value,
                        bytes.subrange(k as int, bytes.len() as int),
                    );
                }
            },
            None => {},
        }
    }
}

proof fn lemma_dec_each_compatible(ea: Schema, eb: Schema, c: int, bytes: Seq<u8>)
    requires
        compatible(ea, eb),
    ensures
        dec_each(ea, c, bytes) == dec_each(eb, c, bytes),
    decreases ea, c + 1,
{
    if c > 0 {
        lemma_dec_each_compatible(ea, eb, c - 1, bytes);
        match dec_each(ea, c - 1, bytes) {
            Some((vs, k)) => {
                if k <= bytes.len() {
                    lemma_compatible_decode(ea, eb, bytes.subrange(k as int, bytes.len() as int));
                }
            },
            None => {},
        }
    }
}

proof fn lemma_first_variant_compatible(va: Seq<Variant>, vb: Seq<Variant>, d: u8, i: int)
    requires
        va.len() == vb.len(),
        variants_compatible(va, vb, va.len() as int),
    ensures
        first_variant(va, d, i) == first_variant(vb, d, i),
    decreases va.len() - i,
{
    if 0 <= i < va.len() {
        lemma_variants_prefix(va, vb, i + 1, va.len() as int);
        lemma_first_variant_compatible(va, vb, d, i + 1);
    }
}

} // verus!
