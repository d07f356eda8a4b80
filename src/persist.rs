//! Whole streams: a 4-byte protocol version, an optional schema block, and
//! the data. A load checks the stored schema against the one in memory
//! before it interprets any data byte.
use vstd::prelude::*;
use crate::error::SavefileError;
use crate::schema::{Schema, compatible, diff_schema, usize_text};
use crate::schema_codec::{enc_schema, schema_fits, lemma_read_back_compatible};
use crate::schema::{lemma_compatible_symmetric, lemma_compatible_reflexive, defined};
use crate::value::{
    Value,
    ValueView,
    conforms,
    dec,
    enc,
    view_of,
    decode_value,
    encode_value,
    lemma_round_trip,
    lemma_compatible_decode,
};
use crate::versions::{VersionedStruct, enc_gated, dec_gated, versioned_schema_bytes};
use crate::value::views;
use crate::wire::{Serializer, Deserializer, le_bytes, le_value, lemma_pow256_facts, lemma_le_round_trip};

verus! {

/// The protocol version stated in the header of a stream.
pub open spec fn header_version(b: Seq<u8>) -> nat {
    le_value(b.subrange(0, 4))
}

/// The stream after its 4-byte header.
pub open spec fn body(b: Seq<u8>) -> Seq<u8> {
    b.subrange(4, b.len() as int)
}

/// `b` begins with `p`.
pub open spec fn starts_with(b: Seq<u8>, p: Seq<u8>) -> bool {
    p.len() <= b.len() && b.subrange(0, p.len() as int) == p
}

/// What follows the schema block `s` at the start of the body of `b`.
pub open spec fn after_schema(b: Seq<u8>, s: Schema) -> Seq<u8> {
    body(b).subrange(enc_schema(s).len() as int, body(b).len() as int)
}

/// The header of a stream may be read by a program at `version`: it is
/// missing, or it states a version no later than `version`.
pub open spec fn readable_at(b: Seq<u8>, version: u32) -> bool {
    b.len() >= 4 ==> header_version(b) <= version
}

fn write_header(serializer: &mut Serializer, version: u32)
    ensures
        final(serializer).bytes@ == old(serializer).bytes@ + le_bytes(version as nat, 4),
        final(serializer).version == old(serializer).version,
{
    let _ = serializer.write_u32(version);
}

/// Writes `data` at protocol `version`, preceded by the header and by
/// `schema`, the schema of the data in that version.
pub fn save(version: u32, schema: &Schema, data: &Value) -> (r: Vec<u8>)
    ensures
        r@ == le_bytes(version as nat, 4) + enc_schema(*schema) + enc(view_of(*data)),
{
    let mut raw = Serializer::new_raw();
    write_header(&mut raw, version);
    let _ = schema.serialize(&mut raw);
    let mut serializer = Serializer { bytes: raw.bytes, version };
    let _ = encode_value(data, &mut serializer);
    serializer.bytes
}

/// Writes `data` at protocol `version` with the header and no schema.
/// Such a stream is smaller, but a mismatch between writer and reader then
/// goes unnoticed.
pub fn save_noschema(version: u32, data: &Value) -> (r: Vec<u8>)
    ensures
        r@ == le_bytes(version as nat, 4) + enc(view_of(*data)),
{
    let mut serializer = Serializer::new(version);
    write_header(&mut serializer, version);
    let _ = encode_value(data, &mut serializer);
    serializer.bytes
}

/// Writes the fields of `description` that exist in `version`, preceded by
/// the header and the aggregate's schema for that version. `values` holds
/// one value per declared field; a removed field must not exist in
/// `version`.
pub fn save_versioned(version: u32, description: &VersionedStruct, values: &Vec<Value>) -> (r: Vec<u8>)
    requires
        description.wf(),
        values@.len() == description.fields@.len(),
        forall|i: int|
            0 <= i < description.fields@.len() && (#[trigger] description.fields@[i]).removed
                ==> !description.fields@[i].present_at(version),
    ensures
        r@ == le_bytes(version as nat, 4) + versioned_schema_bytes(*description, version) + enc_gated(
            description.fields@,
            views(values@),
            version,
            description.fields@.len() as int,
        ),
{
    let schema = description.schema(version);
    let mut raw = Serializer::new_raw();
    write_header(&mut raw, version);
    let _ = schema.serialize(&mut raw);
    let mut serializer = Serializer { bytes: raw.bytes, version };
    let _ = description.serialize(values, &mut serializer);
    serializer.bytes
}

/// Writes the fields of `description` that exist in `version`, preceded
/// by the header and no schema. `values` holds one value per declared
/// field; a removed field must not exist in `version`.
pub fn save_versioned_noschema(version: u32, description: &VersionedStruct, values: &Vec<Value>) -> (r: Vec<
    u8,
>)
    requires
        description.wf(),
        values@.len() == description.fields@.len(),
        forall|i: int|
            0 <= i < description.fields@.len() && (#[trigger] description.fields@[i]).removed
                ==> !description.fields@[i].present_at(version),
    ensures
        r@ == le_bytes(version as nat, 4) + enc_gated(
            description.fields@,
            views(values@),
            version,
            description.fields@.len() as int,
        ),
{
    let mut serializer = Serializer::new(version);
    write_header(&mut serializer, version);
    let _ = description.serialize(values, &mut serializer);
    serializer.bytes
}

/// Reads an aggregate written by `save_versioned_noschema`, as
/// `description` describes it in the version the stream states. Nothing is
/// checked ahead of the data. The result holds one entry per declared
/// field, `None` where the field does not exist in the stream's version or
/// has been removed. A stream from a later version than `version` cannot
/// be represented and may not be passed.
pub fn load_versioned_noschema(bytes: Vec<u8>, version: u32, description: &VersionedStruct) -> (r: Result<
    Vec<Option<Value>>,
    SavefileError,
>)
    requires
        readable_at(bytes@, version),
    ensures
        bytes@.len() < 4 ==> r is Err && r->Err_0 is IOError,
        bytes@.len() >= 4 ==> match dec_gated(
            description.fields@,
            header_version(bytes@) as u32,
            description.fields@.len() as int,
            body(bytes@),
        ) {
            Some((vs, _)) => r is Ok && r->Ok_0@.len() == vs.len() && (forall|i: int|
                0 <= i < vs.len() ==> (#[trigger] vs[i] is Some <==> r->Ok_0@[i] is Some) && (vs[i] is Some
                    ==> view_of(r->Ok_0@[i]->Some_0) == vs[i]->Some_0)),
            None => r is Err,
        },
{
    let ghost all = bytes@;
    let mut d = Deserializer::new_raw(bytes);
    proof {
        lemma_pow256_facts();
    }
    let file_ver = d.read_u32()?;
    proof {
        crate::wire::lemma_le_value_bound(all.subrange(0, 4));
    }
    assert(d.rest() =~= body(all));
    let mut d = Deserializer { data: d.data, pos: d.pos, file_version: file_ver, memory_version: version };
    description.deserialize(&mut d)
}

/// Reads the protocol version stated in the header of a stream.
pub fn file_version(bytes: &Vec<u8>) -> (r: Result<u32, SavefileError>)
    ensures
        bytes@.len() >= 4 ==> r is Ok && r->Ok_0 as nat == header_version(bytes@),
        bytes@.len() < 4 ==> r is Err && r->Err_0 is IOError,
{
    let mut d = Deserializer::new_raw(bytes.clone());
    proof {
        lemma_pow256_facts();
        crate::wire::lemma_le_value_bound(bytes@.subrange(0, 4));
    }
    d.read_u32()
}

/// Reads the header and the schema block of a stream, and checks the
/// stored schema against `memory_schema`. On success the reader stands at
/// the first data byte, with the file's version as its file version.
fn open_checked(bytes: Vec<u8>, version: u32, memory_schema: &Schema) -> (r: Result<
    Deserializer,
    SavefileError,
>)
    requires
        readable_at(bytes@, version),
    ensures
        bytes@.len() < 4 ==> r is Err && r->Err_0 is IOError,
        r is Ok ==> {
            let d = r->Ok_0;
            &&& d.wf()
            &&& d.file_version as nat == header_version(bytes@)
            &&& d.memory_version == version
            &&& exists|s: Schema|
                schema_fits(s) && starts_with(body(bytes@), enc_schema(s)) && d.rest() == after_schema(
                    bytes@,
                    s,
                ) && #[trigger] compatible(s, *memory_schema)
        },
        r is Err && r->Err_0 is IncompatibleSchema ==> exists|s: Schema|
            starts_with(body(bytes@), enc_schema(s)) && !#[trigger] compatible(s, *memory_schema),
        forall|s: Schema|
            bytes@.len() >= 4 && schema_fits(s) && starts_with(body(bytes@), enc_schema(s))
                && #[trigger] compatible(s, *memory_schema) ==> r is Ok && r->Ok_0.rest() == after_schema(
                bytes@,
                s,
            ),
        forall|s: Schema|
            bytes@.len() >= 4 && schema_fits(s) && starts_with(body(bytes@), enc_schema(s))
                && !#[trigger] compatible(s, *memory_schema) ==> (r matches Err(
                SavefileError::IncompatibleSchema { .. },
            )),
{
    let ghost all = bytes@;
    let mut d = Deserializer::new_raw(bytes);
    proof {
        lemma_pow256_facts();
    }
    let file_ver = d.read_u32()?;
    proof {
        crate::wire::lemma_le_value_bound(all.subrange(0, 4));
        assert(d.rest() =~= body(all));
    }
    let file_schema = Schema::deserialize(&mut d)?;
    let ghost tail = d.rest();
    proof {
        assert forall|s: Schema|
            all.len() >= 4 && schema_fits(s) && #[trigger] starts_with(body(all), enc_schema(s)) implies compatible(
                file_schema,
                *memory_schema,
            ) == compatible(s, *memory_schema) && tail == after_schema(all, s) by {
            let a = after_schema(all, s);
            assert(body(all) =~= enc_schema(s) + a);
            lemma_read_back_compatible(file_schema, s, tail, a, *memory_schema);
        }
    }
    if let Some(err) = diff_schema(&file_schema, memory_schema, String::from_str(".")) {
        let v = usize_text(file_ver as usize);
        let message = String::from_str("Saved schema differs from in-memory schema for version ")
            .concat(v.as_str())
            .concat(". Error: ")
            .concat(err.as_str());
        assert(body(all) == enc_schema(file_schema) + tail);
        assert(body(all).subrange(0, enc_schema(file_schema).len() as int) =~= enc_schema(file_schema));
        return Err(SavefileError::IncompatibleSchema { message });
    }
    assert(body(all) == enc_schema(file_schema) + tail);
    assert(body(all).subrange(0, enc_schema(file_schema).len() as int) =~= enc_schema(file_schema));
    assert(tail =~= after_schema(all, file_schema));
    Ok(Deserializer { data: d.data, pos: d.pos, file_version: file_ver, memory_version: version })
}

/// Reads a value written by `save`. `memory_schema` is the in-memory
/// schema for the version the stream states. The stored schema is checked
/// first; a mismatch is `IncompatibleSchema`, before any data byte is
/// interpreted. A stream from a later version than `version` cannot be
/// represented and may not be passed.
pub fn load(bytes: Vec<u8>, version: u32, memory_schema: &Schema) -> (r: Result<Value, SavefileError>)
    requires
        readable_at(bytes@, version),
    ensures
        bytes@.len() < 4 ==> r is Err && r->Err_0 is IOError,
        r is Ok ==> exists|s: Schema|
            {
                &&& starts_with(body(bytes@), enc_schema(s))
                &&& #[trigger] compatible(s, *memory_schema)
                &&& dec(*memory_schema, after_schema(bytes@, s)) matches Some((v, _)) && v == view_of(
                    r->Ok_0,
                )
                &&& dec(s, after_schema(bytes@, s)) == dec(*memory_schema, after_schema(bytes@, s))
            },
        r is Err && r->Err_0 is IncompatibleSchema ==> exists|s: Schema|
            starts_with(body(bytes@), enc_schema(s)) && !#[trigger] compatible(s, *memory_schema),
        forall|s: Schema|
            bytes@.len() >= 4 && schema_fits(s) && starts_with(body(bytes@), enc_schema(s))
                && #[trigger] compatible(s, *memory_schema) ==> (r is Ok <==> dec(
                *memory_schema,
                after_schema(bytes@, s),
            ) is Some),
        forall|s: Schema|
            bytes@.len() >= 4 && schema_fits(s) && starts_with(body(bytes@), enc_schema(s))
                && !#[trigger] compatible(s, *memory_schema) ==> (r matches Err(
                SavefileError::IncompatibleSchema { .. },
            )),
        r is Ok ==> forall|s: Schema|
            schema_fits(s) && #[trigger] starts_with(body(bytes@), enc_schema(s)) ==> compatible(
                s,
                *memory_schema,
            ) && (dec(*memory_schema, after_schema(bytes@, s)) matches Some((v, _)) && v == view_of(
                r->Ok_0,
            )),
{
    let ghost all = bytes@;
    let mut d = match open_checked(bytes, version, memory_schema) {
        Ok(d) => d,
        Err(e) => {
            return Err(e);
        },
    };
    let ghost s = choose|s: Schema|
        schema_fits(s) && starts_with(body(all), enc_schema(s)) && d.rest() == after_schema(all, s)
            && #[trigger] compatible(s, *memory_schema);
    proof {
        lemma_compatible_decode(s, *memory_schema, after_schema(all, s));
    }
    let ghost rest = d.rest();
    let r = decode_value(memory_schema, &mut d);
    proof {
        assert forall|s2: Schema| schema_fits(s2) && #[trigger] starts_with(body(all), enc_schema(s2)) implies compatible(
            s2,
            *memory_schema,
        ) && after_schema(all, s2) == rest by {
            let a = after_schema(all, s);
            let a2 = after_schema(all, s2);
            assert(body(all) =~= enc_schema(s) + a);
            assert(body(all) =~= enc_schema(s2) + a2);
            lemma_read_back_compatible(s2, s, a2, a, *memory_schema);
        }
    }
    assert forall|s2: Schema|
        all.len() >= 4 && schema_fits(s2) && starts_with(body(all), enc_schema(s2))
            && #[trigger] compatible(s2, *memory_schema) implies (r is Ok <==> dec(
            *memory_schema,
            after_schema(all, s2),
        ) is Some) by {
        assert(rest == after_schema(all, s2));
    }
    r
}

/// Reads a value written by `save_noschema`, as `memory_schema` describes
/// it. Nothing is checked ahead of the data. A stream from a later version
/// than `version` cannot be represented and may not be passed.
pub fn load_noschema(bytes: Vec<u8>, version: u32, memory_schema: &Schema) -> (r: Result<Value, SavefileError>)
    requires
        readable_at(bytes@, version),
    ensures
        bytes@.len() < 4 ==> r is Err && r->Err_0 is IOError,
        bytes@.len() >= 4 ==> match dec(*memory_schema, body(bytes@)) {
            Some((v, _)) => r is Ok && view_of(r->Ok_0) == v,
            None => r is Err,
        },
{
    let ghost all = bytes@;
    let mut d = Deserializer::new_raw(bytes);
    proof {
        lemma_pow256_facts();
    }
    let file_ver = d.read_u32()?;
    assert(d.rest() =~= body(all));
    let mut d = Deserializer { data: d.data, pos: d.pos, file_version: file_ver, memory_version: version };
    decode_value(memory_schema, &mut d)
}

/// Reads an aggregate written by `save_versioned`, as `description`
/// describes it in the version the stream states. The stored schema is
/// checked first against the description's schema for that version. The
/// result holds one entry per declared field, `None` where the field does
/// not exist in the stream's version or has been removed.
pub fn load_versioned(bytes: Vec<u8>, version: u32, description: &VersionedStruct) -> (r: Result<
    Vec<Option<Value>>,
    SavefileError,
>)
    requires
        readable_at(bytes@, version),
        description.wf(),
    ensures
        bytes@.len() < 4 ==> r is Err && r->Err_0 is IOError,
        forall|s: Schema, m: Schema|
            #![trigger starts_with(body(bytes@), enc_schema(s)), enc_schema(m)]
            bytes@.len() >= 4 && schema_fits(s) && schema_fits(m) && starts_with(
                body(bytes@),
                enc_schema(s),
            ) && enc_schema(m) == versioned_schema_bytes(*description, header_version(bytes@) as u32)
                ==> {
                &&& compatible(s, m) ==> (r is Ok <==> dec_gated(
                    description.fields@,
                    header_version(bytes@) as u32,
                    description.fields@.len() as int,
                    after_schema(bytes@, s),
                ) is Some)
                &&& !compatible(s, m) ==> (r matches Err(SavefileError::IncompatibleSchema { .. }))
            },
        r is Ok ==> exists|s: Schema|
            {
                &&& #[trigger] starts_with(body(bytes@), enc_schema(s))
                &&& dec_gated(
                    description.fields@,
                    header_version(bytes@) as u32,
                    description.fields@.len() as int,
                    after_schema(bytes@, s),
                ) matches Some((vs, _)) && vs.len() == r->Ok_0@.len() && (forall|i: int|
                    0 <= i < vs.len() ==> (#[trigger] vs[i] is Some <==> r->Ok_0@[i] is Some) && (
                    vs[i] is Some ==> view_of(r->Ok_0@[i]->Some_0) == vs[i]->Some_0))
            },
        r is Err && r->Err_0 is IncompatibleSchema ==> exists|s: Schema, m: Schema|
            {
                &&& starts_with(body(bytes@), enc_schema(s))
                &&& enc_schema(m) == versioned_schema_bytes(*description, header_version(bytes@) as u32)
                &&& !#[trigger] compatible(s, m)
            },
{
    let ghost all = bytes@;
    let file_ver = file_version(&bytes)?;
    let memory_schema = description.schema(file_ver);
    proof {
        assert forall|s: Schema, m: Schema|
            #![trigger starts_with(body(all), enc_schema(s)), enc_schema(m)]
            all.len() >= 4 && schema_fits(s) && schema_fits(m) && starts_with(body(all), enc_schema(s))
                && enc_schema(m) == versioned_schema_bytes(*description, header_version(all) as u32) implies compatible(
            s,
            m,
        ) == compatible(s, memory_schema) by {
            assert(enc_schema(m) + Seq::<u8>::empty() == enc_schema(memory_schema) + Seq::<u8>::empty());
            lemma_read_back_compatible(m, memory_schema, Seq::<u8>::empty(), Seq::<u8>::empty(), s);
            lemma_compatible_symmetric(s, m);
            lemma_compatible_symmetric(s, memory_schema);
        }
    }
    let mut d = open_checked(bytes, version, &memory_schema)?;
    let ghost s = choose|s: Schema|
        starts_with(body(all), enc_schema(s)) && d.rest() == after_schema(all, s)
            && #[trigger] compatible(s, memory_schema);
    let r = description.deserialize(&mut d);
    assert(starts_with(body(all), enc_schema(s)));
    r
}

/// A stream written by `save_noschema` at `version` states that version
/// in its header, and reading its body under the value's schema gives the
/// value back.
pub proof fn lemma_stream_round_trip(version: u32, s: Schema, v: ValueView)
    requires
        conforms(v, s),
    ensures
        header_version(le_bytes(version as nat, 4) + enc(v)) == version,
        dec(s, body(le_bytes(version as nat, 4) + enc(v))) == Some((v, enc(v).len())),
{
    lemma_pow256_facts();
    lemma_le_round_trip(version as nat, 4);
    let b = le_bytes(version as nat, 4) + enc(v);
    assert(b.subrange(0, 4) =~= le_bytes(version as nat, 4));
    assert(body(b) =~= enc(v) + Seq::<u8>::empty());
    lemma_round_trip(s, v, Seq::<u8>::empty());
}

/// The stream that `save` writes at `version` from schema `s` and value `v`.
pub open spec fn saved_bytes(version: u32, s: Schema, v: ValueView) -> Seq<u8> {
    le_bytes(version as nat, 4) + enc_schema(s) + enc(v)
}

/// Save then load: a stream that `save` wrote from a schema with no
/// `Undefined` part and a value of that schema reads back, under that same
/// schema, as the value; `load`'s contract then gives success and the value.
pub proof fn lemma_save_load_round_trip(version: u32, s: Schema, v: ValueView)
    requires
        schema_fits(s),
        defined(s),
        conforms(v, s),
    ensures
        compatible(s, s),
        header_version(saved_bytes(version, s, v)) == version,
        starts_with(body(saved_bytes(version, s, v)), enc_schema(s)),
        dec(s, after_schema(saved_bytes(version, s, v), s)) == Some((v, enc(v).len())),
{
    lemma_compatible_reflexive(s);
    lemma_saved_stream(version, s, s, v);
}

/// A stream that `save` wrote from a schema and a value of that schema
/// states its version, begins its body with the schema block, and its data
/// reads back as the value under any schema compatible with the stored one.
/// With the contract of `load`, loading it at a version no earlier than the
/// stored one under such a schema succeeds and gives the value back.
pub proof fn lemma_saved_stream(version: u32, s: Schema, m: Schema, v: ValueView)
    requires
        schema_fits(s),
        compatible(s, m),
        conforms(v, s),
    ensures
        saved_bytes(version, s, v).len() >= 4,
        header_version(saved_bytes(version, s, v)) == version,
        starts_with(body(saved_bytes(version, s, v)), enc_schema(s)),
        dec(m, after_schema(saved_bytes(version, s, v), s)) == Some((v, enc(v).len())),
{
    let b = saved_bytes(version, s, v);
    lemma_pow256_facts();
    lemma_le_round_trip(version as nat, 4);
    assert(b.subrange(0, 4) =~= le_bytes(version as nat, 4));
    assert(body(b) =~= enc_schema(s) + enc(v));
    assert(body(b).subrange(0, enc_schema(s).len() as int) =~= enc_schema(s));
    assert(after_schema(b, s) =~= enc(v) + Seq::<u8>::empty());
    lemma_round_trip(s, v, Seq::<u8>::empty());
    lemma_compatible_decode(s, m, after_schema(b, s));
}

} // verus!
