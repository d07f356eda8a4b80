//! The wire form of a schema, written ahead of the data so that a load can
//! check compatibility before it interprets any data byte.
use vstd::prelude::*;
use crate::error::SavefileError;
use crate::schema::{
    Field,
    Schema,
    SchemaEnum,
    SchemaPrimitive,
    SchemaStruct,
    Variant,
    compatible,
    fields_compatible,
    variants_compatible,
};
use crate::wire::{
    Serializer,
    Deserializer,
    le_bytes,
    enc_str,
    lemma_pow256_facts,
    lemma_le_bytes_of_value,
    lemma_string_prefix,
    string_len,
    string_ahead,
    le_value,
    string_payload,
    lemma_string_complete,
    lemma_le_round_trip,
};
use vstd::utf8::{encode_utf8, decode_utf8};

verus! {

broadcast use vstd::std_specs::vec::group_vec_axioms;

/// The tag byte of a primitive kind.
pub open spec fn primitive_tag(p: SchemaPrimitive) -> u8 {
    match p {
        SchemaPrimitive::schema_i8 => 1,
        SchemaPrimitive::schema_u8 => 2,
        SchemaPrimitive::schema_i16 => 3,
        SchemaPrimitive::schema_u16 => 4,
        SchemaPrimitive::schema_i32 => 5,
        SchemaPrimitive::schema_u32 => 6,
        SchemaPrimitive::schema_i64 => 7,
        SchemaPrimitive::schema_u64 => 8,
        SchemaPrimitive::schema_string => 9,
        SchemaPrimitive::schema_f32 => 10,
        SchemaPrimitive::schema_f64 => 11,
        SchemaPrimitive::schema_bool => 12,
    }
}

/// The wire form of a schema: a tag byte (1 aggregate, 2 enum, 3 primitive,
/// 4 sequence, 5 undefined, 6 zero-size, 7 optional) and then its parts.
pub open spec fn enc_schema(s: Schema) -> Seq<u8>
    decreases s, 1int,
{
    match s {
        Schema::Struct(x) => seq![1u8] + enc_str(x.dbg_name@) + le_bytes(x.fields@.len(), 8)
            + enc_fields(x.fields@, x.fields@.len() as int),
        Schema::Enum(x) => seq![2u8] + enc_str(x.dbg_name@) + le_bytes(x.variants@.len(), 8)
            + enc_variants(x.variants@, x.variants@.len() as int),
        Schema::Primitive(p) => seq![3u8, primitive_tag(p)],
        Schema::Vector(e) => seq![4u8] + enc_schema(*e),
        Schema::Undefined => seq![5u8],
        Schema::ZeroSize => seq![6u8],
        Schema::SchemaOption(e) => seq![7u8] + enc_schema(*e),
    }
}

/// The wire form of a field: its name, then its schema.
pub open spec fn enc_field(f: Field) -> Seq<u8>
    decreases f, 0int,
{
    enc_str(f.name@) + enc_schema(*f.value)
}

/// The wire forms of the first `n` fields of `fs`, one after the other.
pub open spec fn enc_fields(fs: Seq<Field>, n: int) -> Seq<u8>
    decreases fs, n,
{
    if n <= 0 || n > fs.len() {
        Seq::empty()
    } else {
        enc_fields(fs, n - 1) + enc_field(fs[n - 1])
    }
}

/// The wire form of a variant: name, discriminator, field count, fields.
pub open spec fn enc_variant(v: Variant) -> Seq<u8>
    decreases v, 0int,
{
    enc_str(v.name@) + seq![v.discriminator] + le_bytes(v.fields@.len(), 8) + enc_fields(
        v.fields@,
        v.fields@.len() as int,
    )
}

/// The wire forms of the first `n` variants of `vs`, one after the other.
pub open spec fn enc_variants(vs: Seq<Variant>, n: int) -> Seq<u8>
    decreases vs, n,
{
    if n <= 0 || n > vs.len() {
        Seq::empty()
    } else {
        enc_variants(vs, n - 1) + enc_variant(vs[n - 1])
    }
}

pub(crate) proof fn lemma_enc_fields_prefix(a: Seq<Field>, b: Seq<Field>, n: int)
    requires
        0 <= n <= a.len(),
        n <= b.len(),
        a.take(n) == b.take(n),
    ensures
        enc_fields(a, n) == enc_fields(b, n),
    decreases n,
{
    if n > 0 {
        assert(a.take(n - 1) =~= b.take(n - 1)) by {
            assert(a.take(n - 1) =~= a.take(n).take(n - 1));
            assert(b.take(n - 1) =~= b.take(n).take(n - 1));
        }
        assert(a[n - 1] == a.take(n)[n - 1]);
        assert(b[n - 1] == b.take(n)[n - 1]);
        lemma_enc_fields_prefix(a, b, n - 1);
    }
}

proof fn lemma_enc_variants_prefix(a: Seq<Variant>, b: Seq<Variant>, n: int)
    requires
        0 <= n <= a.len(),
        n <= b.len(),
        a.take(n) == b.take(n),
    ensures
        enc_variants(a, n) == enc_variants(b, n),
    decreases n,
{
    if n > 0 {
        assert(a.take(n - 1) =~= b.take(n - 1)) by {
            assert(a.take(n - 1) =~= a.take(n).take(n - 1));
            assert(b.take(n - 1) =~= b.take(n).take(n - 1));
        }
        assert(a[n - 1] == a.take(n)[n - 1]);
        assert(b[n - 1] == b.take(n)[n - 1]);
        lemma_enc_variants_prefix(a, b, n - 1);
    }
}

/// `b` begins with `p`.
pub open spec fn prefixed(b: Seq<u8>, p: Seq<u8>) -> bool {
    p.len() <= b.len() && b.subrange(0, p.len() as int) == p
}

/// The UTF-8 bytes of a name fit in memory.
pub open spec fn name_fits(t: Seq<char>) -> bool {
    encode_utf8(t).len() <= usize::MAX
}

/// Every name in the schema fits in memory.
pub open spec fn schema_fits(s: Schema) -> bool
    decreases s, 1int,
{
    match s {
        Schema::Struct(x) => name_fits(x.dbg_name@) && fields_fit(x.fields@, x.fields@.len() as int),
        Schema::Enum(x) => name_fits(x.dbg_name@) && variants_fit(x.variants@, x.variants@.len() as int),
        Schema::Vector(e) => schema_fits(*e),
        Schema::SchemaOption(e) => schema_fits(*e),
        _ => true,
    }
}

/// Every name in the field fits in memory.
pub open spec fn field_fits(f: Field) -> bool
    decreases f, 0int,
{
    name_fits(f.name@) && schema_fits(*f.value)
}

/// Every name in the first `n` fields fits in memory.
pub open spec fn fields_fit(fs: Seq<Field>, n: int) -> bool
    decreases fs, n,
{
    if n <= 0 || n > fs.len() {
        true
    } else {
        fields_fit(fs, n - 1) && field_fits(fs[n - 1])
    }
}

/// Every name in the variant fits in memory.
pub open spec fn variant_fits(v: Variant) -> bool
    decreases v, 0int,
{
    name_fits(v.name@) && fields_fit(v.fields@, v.fields@.len() as int)
}

/// Every name in the first `n` variants fits in memory.
pub open spec fn variants_fit(vs: Seq<Variant>, n: int) -> bool
    decreases vs, n,
{
    if n <= 0 || n > vs.len() {
        true
    } else {
        variants_fit(vs, n - 1) && variant_fits(vs[n - 1])
    }
}

/// The wire form of an aggregate after its tag: name, field count, fields.
pub open spec fn struct_body(x: SchemaStruct) -> Seq<u8> {
    enc_str(x.dbg_name@) + le_bytes(x.fields@.len(), 8) + enc_fields(x.fields@, x.fields@.len() as int)
}

/// The wire form of an enum after its tag: name, variant count, variants.
pub open spec fn enum_body(x: SchemaEnum) -> Seq<u8> {
    enc_str(x.dbg_name@) + le_bytes(x.variants@.len(), 8) + enc_variants(
        x.variants@,
        x.variants@.len() as int,
    )
}

/// The wire form of a field count and of the fields.
pub open spec fn counted_fields(fs: Seq<Field>) -> Seq<u8> {
    le_bytes(fs.len(), 8) + enc_fields(fs, fs.len() as int)
}

/// The first `i` fields' wire forms begin the first `n` fields' wire forms.
proof fn lemma_enc_fields_grows(fs: Seq<Field>, i: int, n: int)
    requires
        0 <= i <= n <= fs.len(),
    ensures
        enc_fields(fs, i).len() <= enc_fields(fs, n).len(),
        enc_fields(fs, n).subrange(0, enc_fields(fs, i).len() as int) == enc_fields(fs, i),
    decreases n - i,
{
    if i < n {
        lemma_enc_fields_grows(fs, i, n - 1);
        let a = enc_fields(fs, n - 1);
        assert(enc_fields(fs, n) == a + enc_field(fs[n - 1]));
        assert(enc_fields(fs, n).subrange(0, enc_fields(fs, i).len() as int) =~= a.subrange(
            0,
            enc_fields(fs, i).len() as int,
        ));
    } else {
        assert(enc_fields(fs, n).subrange(0, enc_fields(fs, n).len() as int) =~= enc_fields(fs, n));
    }
}

/// The first `i` variants' wire forms begin the first `n` variants' wire
/// forms.
proof fn lemma_enc_variants_grows(vs: Seq<Variant>, i: int, n: int)
    requires
        0 <= i <= n <= vs.len(),
    ensures
        enc_variants(vs, i).len() <= enc_variants(vs, n).len(),
        enc_variants(vs, n).subrange(0, enc_variants(vs, i).len() as int) == enc_variants(vs, i),
    decreases n - i,
{
    if i < n {
        lemma_enc_variants_grows(vs, i, n - 1);
        let a = enc_variants(vs, n - 1);
        assert(enc_variants(vs, n) == a + enc_variant(vs[n - 1]));
        assert(enc_variants(vs, n).subrange(0, enc_variants(vs, i).len() as int) =~= a.subrange(
            0,
            enc_variants(vs, i).len() as int,
        ));
    } else {
        assert(enc_variants(vs, n).subrange(0, enc_variants(vs, n).len() as int) =~= enc_variants(vs, n));
    }
}

proof fn lemma_fields_fit_at(fs: Seq<Field>, i: int, n: int)
    requires
        0 <= i < n <= fs.len(),
        fields_fit(fs, n),
    ensures
        field_fits(fs[i]),
    decreases n,
{
    if i < n - 1 {
        lemma_fields_fit_at(fs, i, n - 1);
    }
}

proof fn lemma_variants_fit_at(vs: Seq<Variant>, i: int, n: int)
    requires
        0 <= i < n <= vs.len(),
        variants_fit(vs, n),
    ensures
        variant_fits(vs[i]),
    decreases n,
{
    if i < n - 1 {
        lemma_variants_fit_at(vs, i, n - 1);
    }
}

/// The tag byte that begins a schema's wire form.
pub open spec fn schema_tag(s: Schema) -> u8 {
    match s {
        Schema::Struct(_) => 1,
        Schema::Enum(_) => 2,
        Schema::Primitive(_) => 3,
        Schema::Vector(_) => 4,
        Schema::Undefined => 5,
        Schema::ZeroSize => 6,
        Schema::SchemaOption(_) => 7,
    }
}

/// A schema's wire form after its tag byte.
pub open spec fn schema_rest(s: Schema) -> Seq<u8> {
    match s {
        Schema::Struct(x) => struct_body(x),
        Schema::Enum(x) => enum_body(x),
        Schema::Primitive(p) => seq![primitive_tag(p)],
        Schema::Vector(e) => enc_schema(*e),
        Schema::SchemaOption(e) => enc_schema(*e),
        _ => Seq::empty(),
    }
}

proof fn lemma_schema_split(s: Schema)
    ensures
        enc_schema(s) == seq![schema_tag(s)] + schema_rest(s),
{
    assert(enc_schema(s) =~= seq![schema_tag(s)] + schema_rest(s));
}

/// `p + q` begins `b`: then `p` does, and `q` begins what follows it.
proof fn lemma_prefixed_split(b: Seq<u8>, p: Seq<u8>, q: Seq<u8>)
    requires
        prefixed(b, p + q),
    ensures
        prefixed(b, p),
        prefixed(b.subrange(p.len() as int, b.len() as int), q),
{
    let pq = p + q;
    let head = b.subrange(0, pq.len() as int);
    assert(head == pq);
    assert(b.subrange(0, p.len() as int) =~= head.subrange(0, p.len() as int));
    assert(pq.subrange(0, p.len() as int) =~= p);
    assert(b.subrange(p.len() as int, b.len() as int).subrange(0, q.len() as int) =~= head.subrange(
        p.len() as int,
        pq.len() as int,
    ));
    assert(pq.subrange(p.len() as int, pq.len() as int) =~= q);
}

/// A string whose bytes fit in memory, followed by `q`, begins `b`: the
/// string is read back from `b`, and `q` begins what follows it.
proof fn lemma_string_step(b: Seq<u8>, t: Seq<char>, q: Seq<u8>)
    requires
        name_fits(t),
        prefixed(b, enc_str(t) + q),
    ensures
        string_ahead(b),
        8 + string_len(b) == enc_str(t).len(),
        decode_utf8(string_payload(b)) == t,
        prefixed(b.subrange(enc_str(t).len() as int, b.len() as int), q),
{
    lemma_prefixed_split(b, enc_str(t), q);
    lemma_string_complete(b, t);
}

/// A name read from a valid string fits in memory.
proof fn lemma_read_name_fits(b: Seq<u8>)
    requires
        string_ahead(b),
    ensures
        name_fits(decode_utf8(string_payload(b))),
{
    vstd::utf8::decode_utf8_encode_utf8(string_payload(b));
}

pub(crate) proof fn lemma_fields_fit_prefix(a: Seq<Field>, b: Seq<Field>, n: int)
    requires
        0 <= n <= a.len(),
        n <= b.len(),
        a.take(n) == b.take(n),
    ensures
        fields_fit(a, n) == fields_fit(b, n),
    decreases n,
{
    if n > 0 {
        assert(a.take(n - 1) =~= b.take(n - 1)) by {
            assert(a.take(n - 1) =~= a.take(n).take(n - 1));
            assert(b.take(n - 1) =~= b.take(n).take(n - 1));
        }
        assert(a[n - 1] == a.take(n)[n - 1]);
        assert(b[n - 1] == b.take(n)[n - 1]);
        lemma_fields_fit_prefix(a, b, n - 1);
    }
}

proof fn lemma_variants_fit_prefix(a: Seq<Variant>, b: Seq<Variant>, n: int)
    requires
        0 <= n <= a.len(),
        n <= b.len(),
        a.take(n) == b.take(n),
    ensures
        variants_fit(a, n) == variants_fit(b, n),
    decreases n,
{
    if n > 0 {
        assert(a.take(n - 1) =~= b.take(n - 1)) by {
            assert(a.take(n - 1) =~= a.take(n).take(n - 1));
            assert(b.take(n - 1) =~= b.take(n).take(n - 1));
        }
        assert(a[n - 1] == a.take(n)[n - 1]);
        assert(b[n - 1] == b.take(n)[n - 1]);
        lemma_variants_fit_prefix(a, b, n - 1);
    }
}

/// The reader moved on over exactly `consumed` and changed nothing else.
pub open spec fn read_over(after: &Deserializer, before: &Deserializer, consumed: Seq<u8>) -> bool {
    &&& after.wf()
    &&& after.data@ == before.data@
    &&& after.file_version == before.file_version
    &&& after.memory_version == before.memory_version
    &&& before.rest() == consumed + after.rest()
}

fn write_fields(fs: &Vec<Field>, serializer: &mut Serializer)
    ensures
        final(serializer).bytes@ == old(serializer).bytes@ + le_bytes(fs@.len(), 8) + enc_fields(
            fs@,
            fs@.len() as int,
        ),
        final(serializer).version == old(serializer).version,
    decreases fs@, 1int,
{
    let _ = serializer.write_usize(fs.len());
    let ghost start = serializer.bytes@;
    let mut i: usize = 0;
    while i < fs.len()
        invariant
            i <= fs@.len(),
            serializer.version == old(serializer).version,
            serializer.bytes@ == start + enc_fields(fs@, i as int),
        decreases fs@.len() - i,
    {
        let _ = fs[i].serialize(serializer);
        assert(serializer.bytes@ =~= start + enc_fields(fs@, i + 1));
        i = i + 1;
    }
    assert(serializer.bytes@ =~= old(serializer).bytes@ + le_bytes(fs@.len(), 8) + enc_fields(
        fs@,
        fs@.len() as int,
    ));
}

fn read_fields(deserializer: &mut Deserializer) -> (r: Result<Vec<Field>, SavefileError>)
    requires
        old(deserializer).wf(),
    ensures
        final(deserializer).wf(),
        final(deserializer).data@ == old(deserializer).data@,
        r is Err ==> !(r->Err_0 is IncompatibleSchema),
        r is Ok ==> read_over(
            final(deserializer),
            old(deserializer),
            le_bytes(r->Ok_0@.len(), 8) + enc_fields(r->Ok_0@, r->Ok_0@.len() as int),
        ),
        r is Ok ==> fields_fit(r->Ok_0@, r->Ok_0@.len() as int),
        forall|fs: Seq<Field>|
            fs.len() <= usize::MAX && fields_fit(fs, fs.len() as int) && prefixed(
                old(deserializer).rest(),
                #[trigger] counted_fields(fs),
            ) ==> r is Ok && counted_fields(r->Ok_0@) == counted_fields(fs),
    decreases old(deserializer).rest().len(), 1int,
{
    let ghost b = deserializer.rest();
    proof {
        lemma_pow256_facts();
    }
    let l = match deserializer.read_usize() {
        Ok(l) => l,
        Err(e) => {
            assert forall|fs: Seq<Field>|
                fs.len() <= usize::MAX && fields_fit(fs, fs.len() as int) && prefixed(
                    b,
                    #[trigger] counted_fields(fs),
                ) implies false by {
                lemma_prefixed_split(b, le_bytes(fs.len(), 8), enc_fields(fs, fs.len() as int));
                lemma_le_round_trip(fs.len(), 8);
            }
            return Err(e);
        },
    };
    proof {
        lemma_le_bytes_of_value(b.subrange(0, 8));
        assert(b =~= le_bytes(l as nat, 8) + deserializer.rest());
    }
    let ghost mid = deserializer.rest();
    proof {
        assert forall|fs: Seq<Field>|
            fs.len() <= usize::MAX && fields_fit(fs, fs.len() as int) && prefixed(
                b,
                #[trigger] counted_fields(fs),
            ) implies fs.len() == l && prefixed(mid, enc_fields(fs, fs.len() as int)) by {
            lemma_prefixed_split(b, le_bytes(fs.len(), 8), enc_fields(fs, fs.len() as int));
            lemma_le_round_trip(fs.len(), 8);
            assert(b.subrange(0, 8) =~= le_bytes(fs.len(), 8));
            assert(mid =~= b.subrange(8, b.len() as int));
        }
    }
    let mut out: Vec<Field> = Vec::new();
    let mut i: usize = 0;
    while i < l
        invariant
            i <= l,
            out@.len() == i,
            deserializer.wf(),
            deserializer.data@ == old(deserializer).data@,
            deserializer.file_version == old(deserializer).file_version,
            deserializer.memory_version == old(deserializer).memory_version,
            b == old(deserializer).rest(),
            b == le_bytes(l as nat, 8) + mid,
            mid == enc_fields(out@, i as int) + deserializer.rest(),
            mid.len() < b.len(),
            fields_fit(out@, i as int),
            forall|fs: Seq<Field>|
                fs.len() <= usize::MAX && fields_fit(fs, fs.len() as int) && prefixed(
                    b,
                    #[trigger] counted_fields(fs),
                ) ==> fs.len() == l && prefixed(mid, enc_fields(fs, fs.len() as int)) && enc_fields(
                    out@,
                    i as int,
                ) == enc_fields(fs, i as int),
        decreases l - i,
    {
        let ghost cur = deserializer.rest();
        proof {
            assert forall|fs: Seq<Field>|
                fs.len() <= usize::MAX && fields_fit(fs, fs.len() as int) && prefixed(
                    b,
                    #[trigger] counted_fields(fs),
                ) implies field_fits(fs[i as int]) && prefixed(cur, enc_field(fs[i as int])) by {
                lemma_fields_fit_at(fs, i as int, fs.len() as int);
                lemma_enc_fields_grows(fs, i + 1, fs.len() as int);
                let ei = enc_fields(fs, i as int);
                let f1 = enc_field(fs[i as int]);
                assert(enc_fields(fs, i + 1) == ei + f1);
                let all = enc_fields(fs, fs.len() as int);
                assert(mid.subrange(0, all.len() as int) == all);
                assert(cur =~= mid.subrange(ei.len() as int, mid.len() as int));
                assert(cur.subrange(0, f1.len() as int) =~= mid.subrange(
                    ei.len() as int,
                    ((ei.len() + f1.len()) as int) as int,
                ));
                assert(mid.subrange(ei.len() as int, (ei.len() + f1.len()) as int) =~= all.subrange(
                    ei.len() as int,
                    ((ei.len() + f1.len()) as int) as int,
                ));
                assert(all.subrange(ei.len() as int, (ei.len() + f1.len()) as int) =~= enc_fields(fs, i + 1).subrange(
                    ei.len() as int,
                    ((ei.len() + f1.len()) as int) as int,
                ));
                assert(enc_fields(fs, i + 1).subrange(ei.len() as int, (ei.len() + f1.len()) as int) =~= f1);
            }
        }
        let f = match Field::deserialize(deserializer) {
            Ok(f) => f,
            Err(e) => {
                assert forall|fs: Seq<Field>|
                    fs.len() <= usize::MAX && fields_fit(fs, fs.len() as int) && prefixed(
                        b,
                        #[trigger] counted_fields(fs),
                    ) implies false by {
                    assert(prefixed(cur, enc_field(fs[i as int])));
                }
                return Err(e);
            },
        };
        let ghost prev = out@;
        out.push(f);
        proof {
            assert(prev.push(f).take(i as int) =~= prev.take(i as int));
            lemma_enc_fields_prefix(prev.push(f), prev, i as int);
            lemma_fields_fit_prefix(prev.push(f), prev, i as int);
            assert(out@[i as int] == f);
            assert forall|fs: Seq<Field>|
                fs.len() <= usize::MAX && fields_fit(fs, fs.len() as int) && prefixed(
                    b,
                    #[trigger] counted_fields(fs),
                ) implies enc_fields(out@, i + 1) == enc_fields(fs, i + 1) by {
                assert(prefixed(cur, enc_field(fs[i as int])));
            }
        }
        assert(mid =~= enc_fields(out@, i + 1) + deserializer.rest());
        i = i + 1;
    }
    assert(b =~= le_bytes(out@.len(), 8) + enc_fields(out@, out@.len() as int) + deserializer.rest());
    Ok(out)
}

impl Field {
    /// Writes the field's name, then its schema.
    pub fn serialize(&self, serializer: &mut Serializer) -> (r: Result<(), SavefileError>)
        ensures
            r is Ok,
            final(serializer).bytes@ == old(serializer).bytes@ + enc_field(*self),
            final(serializer).version == old(serializer).version,
        decreases *self, 2int,
    {
        let _ = serializer.write_string(self.name.as_str());
        let _ = self.value.serialize(serializer);
        assert(serializer.bytes@ =~= old(serializer).bytes@ + enc_field(*self));
        Ok(())
    }

    /// Reads a field written by `serialize`.
    pub fn deserialize(deserializer: &mut Deserializer) -> (r: Result<Field, SavefileError>)
        requires
            old(deserializer).wf(),
        ensures
            final(deserializer).wf(),
            final(deserializer).data@ == old(deserializer).data@,
            r is Err ==> !(r->Err_0 is IncompatibleSchema),
            r is Ok ==> read_over(final(deserializer), old(deserializer), enc_field(r->Ok_0)),
            r is Ok ==> field_fits(r->Ok_0),
            forall|x: Field|
                field_fits(x) && prefixed(old(deserializer).rest(), #[trigger] enc_field(x)) ==> r is Ok
                    && enc_field(r->Ok_0) == enc_field(x),
        decreases old(deserializer).rest().len(), 3int,
    {
        let ghost b = deserializer.rest();
        let name = match deserializer.read_string() {
            Ok(name) => name,
            Err(e) => {
                assert forall|x: Field| field_fits(x) && prefixed(b, #[trigger] enc_field(x)) implies false by {
                    let es = enc_str(x.name@);
                    assert(enc_field(x) =~= es + enc_schema(*x.value));
                    assert(b.subrange(0, es.len() as int) =~= enc_field(x).subrange(0, es.len() as int));
                    assert(enc_field(x).subrange(0, es.len() as int) =~= es);
                    lemma_string_complete(b, x.name@);
                }
                return Err(e);
            },
        };
        proof {
            lemma_string_prefix(b);
            assert(b =~= b.subrange(0, 8 + string_len(b) as int) + deserializer.rest());
        }
        let ghost b1 = deserializer.rest();
        proof {
            assert forall|x: Field| field_fits(x) && prefixed(b, #[trigger] enc_field(x)) implies name@
                == x.name@ && prefixed(b1, enc_schema(*x.value)) by {
                let e = enc_field(x);
                let es = enc_str(x.name@);
                let sch = enc_schema(*x.value);
                assert(e =~= es + sch);
                assert(b.subrange(0, es.len() as int) =~= e.subrange(0, es.len() as int));
                assert(e.subrange(0, es.len() as int) =~= es);
                lemma_string_complete(b, x.name@);
                let k = es.len();
                assert(b1 =~= b.subrange(k as int, b.len() as int));
                assert(b1.subrange(0, sch.len() as int) =~= e.subrange(k as int, e.len() as int));
                assert(e.subrange(k as int, e.len() as int) =~= sch);
            }
        }
        let value = match Schema::deserialize(deserializer) {
            Ok(v) => v,
            Err(e) => {
                assert forall|x: Field| field_fits(x) && prefixed(b, #[trigger] enc_field(x)) implies false by {
                    assert(prefixed(b1, enc_schema(*x.value)));
                }
                return Err(e);
            },
        };
        let f = Field { name, value: Box::new(value) };
        proof {
            lemma_read_name_fits(b);
        }
        assert(b =~= enc_field(f) + deserializer.rest());
        assert forall|x: Field| field_fits(x) && prefixed(b, #[trigger] enc_field(x)) implies enc_field(f)
            == enc_field(x) by {
            assert(prefixed(b1, enc_schema(*x.value)));
        }
        Ok(f)
    }
}

impl Variant {
    /// Writes the variant's name, discriminator, field count and fields.
    pub fn serialize(&self, serializer: &mut Serializer) -> (r: Result<(), SavefileError>)
        ensures
            r is Ok,
            final(serializer).bytes@ == old(serializer).bytes@ + enc_variant(*self),
            final(serializer).version == old(serializer).version,
        decreases *self, 2int,
    {
        let _ = serializer.write_string(self.name.as_str());
        let _ = serializer.write_u8(self.discriminator);
        proof {
            lemma_pow256_facts();
            assert(le_bytes(self.discriminator as nat / 256, 0) =~= Seq::<u8>::empty());
            assert(le_bytes(self.discriminator as nat, 1) =~= seq![self.discriminator]);
        }
        write_fields(&self.fields, serializer);
        assert(serializer.bytes@ =~= old(serializer).bytes@ + enc_variant(*self));
        Ok(())
    }

    /// Reads a variant written by `serialize`.
    pub fn deserialize(deserializer: &mut Deserializer) -> (r: Result<Variant, SavefileError>)
        requires
            old(deserializer).wf(),
        ensures
            final(deserializer).wf(),
            final(deserializer).data@ == old(deserializer).data@,
            r is Err ==> !(r->Err_0 is IncompatibleSchema),
            r is Ok ==> read_over(final(deserializer), old(deserializer), enc_variant(r->Ok_0)),
            r is Ok ==> variant_fits(r->Ok_0),
            forall|v: Variant|
                variant_fits(v) && prefixed(old(deserializer).rest(), #[trigger] enc_variant(v)) ==> r is Ok
                    && enc_variant(r->Ok_0) == enc_variant(v),
        decreases old(deserializer).rest().len(), 3int,
    {
        let ghost b = deserializer.rest();
        proof {
            assert forall|v: Variant| #[trigger] enc_variant(v) =~= enc_str(v.name@) + (seq![v.discriminator]
                + counted_fields(v.fields@)) by {}
        }
        let name = match deserializer.read_string() {
            Ok(n) => n,
            Err(e) => {
                assert forall|v: Variant| variant_fits(v) && prefixed(b, #[trigger] enc_variant(v)) implies false by {
                    lemma_string_step(b, v.name@, seq![v.discriminator] + counted_fields(v.fields@));
                }
                return Err(e);
            },
        };
        proof {
            lemma_string_prefix(b);
        }
        let ghost b1 = deserializer.rest();
        assert(b =~= b.subrange(0, 8 + string_len(b) as int) + b1);
        assert(b1 =~= b.subrange(8 + string_len(b) as int, b.len() as int));
        proof {
            assert forall|v: Variant| variant_fits(v) && prefixed(b, #[trigger] enc_variant(v)) implies name@
                == v.name@ && prefixed(b1, seq![v.discriminator] + counted_fields(v.fields@)) by {
                lemma_string_step(b, v.name@, seq![v.discriminator] + counted_fields(v.fields@));
            }
        }
        let discriminator = match deserializer.read_u8() {
            Ok(d) => d,
            Err(e) => {
                assert forall|v: Variant| variant_fits(v) && prefixed(b, #[trigger] enc_variant(v)) implies false by {
                    assert(prefixed(b1, seq![v.discriminator] + counted_fields(v.fields@)));
                }
                return Err(e);
            },
        };
        assert(b1 =~= seq![discriminator] + deserializer.rest());
        let ghost b2 = deserializer.rest();
        proof {
            assert forall|v: Variant| variant_fits(v) && prefixed(b, #[trigger] enc_variant(v)) implies discriminator
                == v.discriminator && prefixed(b2, counted_fields(v.fields@)) && v.fields@.len()
                <= usize::MAX by {
                assert(prefixed(b1, seq![v.discriminator] + counted_fields(v.fields@)));
                lemma_prefixed_split(b1, seq![v.discriminator], counted_fields(v.fields@));
                assert(b1.subrange(0, 1)[0] == b1[0]);
                assert(b2 =~= b1.subrange(1, b1.len() as int));
                assert(v.fields.len() == v.fields@.len());
            }
        }
        let fields = match read_fields(deserializer) {
            Ok(f) => f,
            Err(e) => {
                assert forall|v: Variant| variant_fits(v) && prefixed(b, #[trigger] enc_variant(v)) implies false by {
                    assert(prefixed(b2, counted_fields(v.fields@)));
                }
                return Err(e);
            },
        };
        let v = Variant { name, discriminator, fields };
        proof {
            lemma_read_name_fits(b);
        }
        assert(b =~= enc_variant(v) + deserializer.rest());
        assert forall|w: Variant| variant_fits(w) && prefixed(b, #[trigger] enc_variant(w)) implies enc_variant(v)
            == enc_variant(w) by {
            assert(prefixed(b2, counted_fields(w.fields@)));
        }
        Ok(v)
    }
}

impl SchemaStruct {
    /// Writes the aggregate's name, field count and fields.
    pub fn serialize(&self, serializer: &mut Serializer) -> (r: Result<(), SavefileError>)
        ensures
            r is Ok,
            final(serializer).bytes@ == old(serializer).bytes@ + enc_str(self.dbg_name@) + le_bytes(
                self.fields@.len(),
                8,
            ) + enc_fields(self.fields@, self.fields@.len() as int),
            final(serializer).version == old(serializer).version,
        decreases self.fields@, 2int,
    {
        let _ = serializer.write_string(self.dbg_name.as_str());
        write_fields(&self.fields, serializer);
        assert(serializer.bytes@ =~= old(serializer).bytes@ + enc_str(self.dbg_name@) + le_bytes(
            self.fields@.len(),
            8,
        ) + enc_fields(self.fields@, self.fields@.len() as int));
        Ok(())
    }

    /// Reads an aggregate written by `serialize`.
    pub fn deserialize(deserializer: &mut Deserializer) -> (r: Result<SchemaStruct, SavefileError>)
        requires
            old(deserializer).wf(),
        ensures
            final(deserializer).wf(),
            final(deserializer).data@ == old(deserializer).data@,
            r is Err ==> !(r->Err_0 is IncompatibleSchema),
            r is Ok ==> read_over(
                final(deserializer),
                old(deserializer),
                enc_str(r->Ok_0.dbg_name@) + le_bytes(r->Ok_0.fields@.len(), 8) + enc_fields(
                    r->Ok_0.fields@,
                    r->Ok_0.fields@.len() as int,
                ),
            ),
            r is Ok ==> name_fits(r->Ok_0.dbg_name@) && fields_fit(
                r->Ok_0.fields@,
                r->Ok_0.fields@.len() as int,
            ),
            forall|x: SchemaStruct|
                name_fits(x.dbg_name@) && fields_fit(x.fields@, x.fields@.len() as int) && prefixed(
                    old(deserializer).rest(),
                    #[trigger] struct_body(x),
                ) ==> r is Ok && struct_body(r->Ok_0) == struct_body(x),
        decreases old(deserializer).rest().len(), 2int,
    {
        let ghost b = deserializer.rest();
        proof {
            assert forall|x: SchemaStruct| #[trigger] struct_body(x) =~= enc_str(x.dbg_name@)
                + counted_fields(x.fields@) by {}
        }
        let dbg_name = match deserializer.read_string() {
            Ok(n) => n,
            Err(e) => {
                assert forall|x: SchemaStruct|
                    name_fits(x.dbg_name@) && fields_fit(x.fields@, x.fields@.len() as int) && prefixed(
                        b,
                        #[trigger] struct_body(x),
                    ) implies false by {
                    lemma_string_step(b, x.dbg_name@, counted_fields(x.fields@));
                }
                return Err(e);
            },
        };
        proof {
            lemma_string_prefix(b);
        }
        assert(b =~= b.subrange(0, 8 + string_len(b) as int) + deserializer.rest());
        let ghost b1 = deserializer.rest();
        assert(b1 =~= b.subrange(8 + string_len(b) as int, b.len() as int));
        proof {
            assert forall|x: SchemaStruct|
                name_fits(x.dbg_name@) && fields_fit(x.fields@, x.fields@.len() as int) && prefixed(
                    b,
                    #[trigger] struct_body(x),
                ) implies dbg_name@ == x.dbg_name@ && prefixed(b1, counted_fields(x.fields@))
                && x.fields@.len() <= usize::MAX by {
                lemma_string_step(b, x.dbg_name@, counted_fields(x.fields@));
                assert(x.fields.len() == x.fields@.len());
            }
        }
        let fields = match read_fields(deserializer) {
            Ok(f) => f,
            Err(e) => {
                assert forall|x: SchemaStruct|
                    name_fits(x.dbg_name@) && fields_fit(x.fields@, x.fields@.len() as int) && prefixed(
                        b,
                        #[trigger] struct_body(x),
                    ) implies false by {
                    assert(prefixed(b1, counted_fields(x.fields@)));
                }
                return Err(e);
            },
        };
        let x = SchemaStruct { dbg_name, fields };
        proof {
            lemma_read_name_fits(b);
        }
        assert forall|y: SchemaStruct|
            name_fits(y.dbg_name@) && fields_fit(y.fields@, y.fields@.len() as int) && prefixed(
                b,
                #[trigger] struct_body(y),
            ) implies struct_body(x) == struct_body(y) by {
            assert(prefixed(b1, counted_fields(y.fields@)));
        }
        assert(b =~= enc_str(x.dbg_name@) + le_bytes(x.fields@.len(), 8) + enc_fields(
            x.fields@,
            x.fields@.len() as int,
        ) + deserializer.rest());
        Ok(x)
    }
}

impl SchemaEnum {
    /// Writes the enum's name, variant count and variants.
    pub fn serialize(&self, serializer: &mut Serializer) -> (r: Result<(), SavefileError>)
        ensures
            r is Ok,
            final(serializer).bytes@ == old(serializer).bytes@ + enc_str(self.dbg_name@) + le_bytes(
                self.variants@.len(),
                8,
            ) + enc_variants(self.variants@, self.variants@.len() as int),
            final(serializer).version == old(serializer).version,
        decreases self.variants@, 2int,
    {
        let _ = serializer.write_string(self.dbg_name.as_str());
        let _ = serializer.write_usize(self.variants.len());
        let ghost start = serializer.bytes@;
        let mut i: usize = 0;
        while i < self.variants.len()
            invariant
                i <= self.variants@.len(),
                serializer.version == old(serializer).version,
                serializer.bytes@ == start + enc_variants(self.variants@, i as int),
            decreases self.variants@.len() - i,
        {
            let _ = self.variants[i].serialize(serializer);
            assert(serializer.bytes@ =~= start + enc_variants(self.variants@, i + 1));
            i = i + 1;
        }
        assert(serializer.bytes@ =~= old(serializer).bytes@ + enc_str(self.dbg_name@) + le_bytes(
            self.variants@.len(),
            8,
        ) + enc_variants(self.variants@, self.variants@.len() as int));
        Ok(())
    }

    /// Reads an enum written by `serialize`.
    pub fn deserialize(deserializer: &mut Deserializer) -> (r: Result<SchemaEnum, SavefileError>)
        requires
            old(deserializer).wf(),
        ensures
            final(deserializer).wf(),
            final(deserializer).data@ == old(deserializer).data@,
            r is Err ==> !(r->Err_0 is IncompatibleSchema),
            r is Ok ==> read_over(final(deserializer), old(deserializer), enum_body(r->Ok_0)),
            r is Ok ==> name_fits(r->Ok_0.dbg_name@) && variants_fit(
                r->Ok_0.variants@,
                r->Ok_0.variants@.len() as int,
            ),
            forall|x: SchemaEnum|
                name_fits(x.dbg_name@) && variants_fit(x.variants@, x.variants@.len() as int) && prefixed(
                    old(deserializer).rest(),
                    #[trigger] enum_body(x),
                ) ==> r is Ok && enum_body(r->Ok_0) == enum_body(x),
        decreases old(deserializer).rest().len(), 2int,
    {
        let ghost b = deserializer.rest();
        proof {
            lemma_pow256_facts();
            assert forall|x: SchemaEnum| #[trigger] enum_body(x) =~= enc_str(x.dbg_name@) + (le_bytes(
                x.variants@.len(),
                8,
            ) + enc_variants(x.variants@, x.variants@.len() as int)) by {}
        }
        let dbg_name = match deserializer.read_string() {
            Ok(n) => n,
            Err(e) => {
                assert forall|x: SchemaEnum|
                    name_fits(x.dbg_name@) && variants_fit(x.variants@, x.variants@.len() as int) && prefixed(
                        b,
                        #[trigger] enum_body(x),
                    ) implies false by {
                    lemma_string_step(
                        b,
                        x.dbg_name@,
                        le_bytes(x.variants@.len(), 8) + enc_variants(x.variants@, x.variants@.len() as int),
                    );
                }
                return Err(e);
            },
        };
        proof {
            lemma_string_prefix(b);
        }
        assert(b =~= b.subrange(0, 8 + string_len(b) as int) + deserializer.rest());
        let ghost b1 = deserializer.rest();
        assert(b1 =~= b.subrange(8 + string_len(b) as int, b.len() as int));
        proof {
            assert forall|x: SchemaEnum|
                name_fits(x.dbg_name@) && variants_fit(x.variants@, x.variants@.len() as int) && prefixed(
                    b,
                    #[trigger] enum_body(x),
                ) implies dbg_name@ == x.dbg_name@ && prefixed(
                b1,
                le_bytes(x.variants@.len(), 8) + enc_variants(x.variants@, x.variants@.len() as int),
            ) && x.variants@.len() <= usize::MAX by {
                lemma_string_step(
                    b,
                    x.dbg_name@,
                    le_bytes(x.variants@.len(), 8) + enc_variants(x.variants@, x.variants@.len() as int),
                );
                assert(x.variants.len() == x.variants@.len());
            }
        }
        let l = match deserializer.read_usize() {
            Ok(l) => l,
            Err(e) => {
                assert forall|x: SchemaEnum|
                    name_fits(x.dbg_name@) && variants_fit(x.variants@, x.variants@.len() as int) && prefixed(
                        b,
                        #[trigger] enum_body(x),
                    ) implies false by {
                    lemma_prefixed_split(
                        b1,
                        le_bytes(x.variants@.len(), 8),
                        enc_variants(x.variants@, x.variants@.len() as int),
                    );
                    lemma_le_round_trip(x.variants@.len(), 8);
                }
                return Err(e);
            },
        };
        proof {
            lemma_le_bytes_of_value(b1.subrange(0, 8));
            assert(b1 =~= le_bytes(l as nat, 8) + deserializer.rest());
            lemma_read_name_fits(b);
        }
        let ghost mid = deserializer.rest();
        proof {
            assert forall|x: SchemaEnum|
                name_fits(x.dbg_name@) && variants_fit(x.variants@, x.variants@.len() as int) && prefixed(
                    b,
                    #[trigger] enum_body(x),
                ) implies x.variants@.len() == l && prefixed(
                mid,
                enc_variants(x.variants@, x.variants@.len() as int),
            ) by {
                lemma_prefixed_split(
                    b1,
                    le_bytes(x.variants@.len(), 8),
                    enc_variants(x.variants@, x.variants@.len() as int),
                );
                lemma_le_round_trip(x.variants@.len(), 8);
                assert(b1.subrange(0, 8) =~= le_bytes(x.variants@.len(), 8));
                assert(mid =~= b1.subrange(8, b1.len() as int));
            }
        }
        let mut out: Vec<Variant> = Vec::new();
        let mut i: usize = 0;
        while i < l
            invariant
                i <= l,
                out@.len() == i,
                deserializer.wf(),
                deserializer.data@ == old(deserializer).data@,
                deserializer.file_version == old(deserializer).file_version,
                deserializer.memory_version == old(deserializer).memory_version,
                b == old(deserializer).rest(),
                mid.len() < b.len(),
                mid == enc_variants(out@, i as int) + deserializer.rest(),
                variants_fit(out@, i as int),
                name_fits(dbg_name@),
                forall|x: SchemaEnum|
                    name_fits(x.dbg_name@) && variants_fit(x.variants@, x.variants@.len() as int) && prefixed(
                        b,
                        #[trigger] enum_body(x),
                    ) ==> dbg_name@ == x.dbg_name@ && x.variants@.len() == l && prefixed(
                        mid,
                        enc_variants(x.variants@, x.variants@.len() as int),
                    ) && enc_variants(out@, i as int) == enc_variants(x.variants@, i as int),
            decreases l - i,
        {
            let ghost cur = deserializer.rest();
            proof {
                assert forall|x: SchemaEnum|
                    name_fits(x.dbg_name@) && variants_fit(x.variants@, x.variants@.len() as int) && prefixed(
                        b,
                        #[trigger] enum_body(x),
                    ) implies variant_fits(x.variants@[i as int]) && prefixed(
                    cur,
                    enc_variant(x.variants@[i as int]),
                ) by {
                    let vs = x.variants@;
                    lemma_variants_fit_at(vs, i as int, vs.len() as int);
                    lemma_enc_variants_grows(vs, i + 1, vs.len() as int);
                    let ei = enc_variants(vs, i as int);
                    let v1 = enc_variant(vs[i as int]);
                    assert(enc_variants(vs, i + 1) == ei + v1);
                    let all = enc_variants(vs, vs.len() as int);
                    assert(mid.subrange(0, all.len() as int) == all);
                    assert(cur =~= mid.subrange(ei.len() as int, mid.len() as int));
                    assert(cur.subrange(0, v1.len() as int) =~= mid.subrange(
                        ei.len() as int,
                        (ei.len() + v1.len()) as int,
                    ));
                    assert(mid.subrange(ei.len() as int, (ei.len() + v1.len()) as int) =~= all.subrange(
                        ei.len() as int,
                        (ei.len() + v1.len()) as int,
                    ));
                    assert(all.subrange(ei.len() as int, (ei.len() + v1.len()) as int) =~= enc_variants(
                        vs,
                        i + 1,
                    ).subrange(ei.len() as int, (ei.len() + v1.len()) as int));
                    assert(enc_variants(vs, i + 1).subrange(ei.len() as int, (ei.len() + v1.len()) as int)
                        =~= v1);
                }
            }
            let v = match Variant::deserialize(deserializer) {
                Ok(v) => v,
                Err(e) => {
                    assert forall|x: SchemaEnum|
                        name_fits(x.dbg_name@) && variants_fit(x.variants@, x.variants@.len() as int)
                            && prefixed(b, #[trigger] enum_body(x)) implies false by {
                        assert(prefixed(cur, enc_variant(x.variants@[i as int])));
                    }
                    return Err(e);
                },
            };
            let ghost prev = out@;
            out.push(v);
            proof {
                assert(prev.push(v).take(i as int) =~= prev.take(i as int));
                lemma_enc_variants_prefix(prev.push(v), prev, i as int);
                lemma_variants_fit_prefix(prev.push(v), prev, i as int);
                assert(out@[i as int] == v);
                assert forall|x: SchemaEnum|
                    name_fits(x.dbg_name@) && variants_fit(x.variants@, x.variants@.len() as int) && prefixed(
                        b,
                        #[trigger] enum_body(x),
                    ) implies enc_variants(out@, i + 1) == enc_variants(x.variants@, i + 1) by {
                    assert(prefixed(cur, enc_variant(x.variants@[i as int])));
                }
            }
            assert(mid =~= enc_variants(out@, i + 1) + deserializer.rest());
            i = i + 1;
        }
        let x = SchemaEnum { dbg_name, variants: out };
        assert(b =~= enum_body(x) + deserializer.rest());
        assert forall|y: SchemaEnum|
            name_fits(y.dbg_name@) && variants_fit(y.variants@, y.variants@.len() as int) && prefixed(
                b,
                #[trigger] enum_body(y),
            ) implies enum_body(x) == enum_body(y) by {}
        Ok(x)
    }
}

impl SchemaPrimitive {
    /// Writes the primitive's tag byte.
    pub fn serialize(&self, serializer: &mut Serializer) -> (r: Result<(), SavefileError>)
        ensures
            r is Ok,
            final(serializer).bytes@ == old(serializer).bytes@ + seq![primitive_tag(*self)],
            final(serializer).version == old(serializer).version,
    {
        let discr: u8 = match *self {
            SchemaPrimitive::schema_i8 => 1,
            SchemaPrimitive::schema_u8 => 2,
            SchemaPrimitive::schema_i16 => 3,
            SchemaPrimitive::schema_u16 => 4,
            SchemaPrimitive::schema_i32 => 5,
            SchemaPrimitive::schema_u32 => 6,
            SchemaPrimitive::schema_i64 => 7,
            SchemaPrimitive::schema_u64 => 8,
            SchemaPrimitive::schema_string => 9,
            SchemaPrimitive::schema_f32 => 10,
            SchemaPrimitive::schema_f64 => 11,
            SchemaPrimitive::schema_bool => 12,
        };
        serializer.bytes.push(discr);
        Ok(())
    }

    /// Reads a primitive tag byte; an unknown tag is corrupt data.
    pub fn deserialize(deserializer: &mut Deserializer) -> (r: Result<SchemaPrimitive, SavefileError>)
        requires
            old(deserializer).wf(),
        ensures
            final(deserializer).wf(),
            final(deserializer).data@ == old(deserializer).data@,
            r is Err ==> !(r->Err_0 is IncompatibleSchema),
            r is Ok ==> read_over(final(deserializer), old(deserializer), seq![primitive_tag(r->Ok_0)]),
            old(deserializer).rest().len() >= 1 && 1 <= old(deserializer).rest()[0] <= 12 ==> r is Ok,
            old(deserializer).rest().len() == 0 ==> (r matches Err(SavefileError::IOError { .. })),
            old(deserializer).rest().len() >= 1 && !(1 <= old(deserializer).rest()[0] <= 12) ==> (r matches Err(
                SavefileError::CorruptData { .. },
            )),
            forall|p: SchemaPrimitive|
                prefixed(old(deserializer).rest(), seq![#[trigger] primitive_tag(p)]) ==> r == Ok::<
                    SchemaPrimitive,
                    SavefileError,
                >(p),
    {
        let ghost b = deserializer.rest();
        let c = match deserializer.read_u8() {
            Ok(c) => c,
            Err(e) => {
                assert forall|p: SchemaPrimitive| prefixed(b, seq![#[trigger] primitive_tag(p)]) implies false by {
                }
                return Err(e);
            },
        };
        let var = match c {
            1 => SchemaPrimitive::schema_i8,
            2 => SchemaPrimitive::schema_u8,
            3 => SchemaPrimitive::schema_i16,
            4 => SchemaPrimitive::schema_u16,
            5 => SchemaPrimitive::schema_i32,
            6 => SchemaPrimitive::schema_u32,
            7 => SchemaPrimitive::schema_i64,
            8 => SchemaPrimitive::schema_u64,
            9 => SchemaPrimitive::schema_string,
            10 => SchemaPrimitive::schema_f32,
            11 => SchemaPrimitive::schema_f64,
            12 => SchemaPrimitive::schema_bool,
            _ => {
                assert forall|p: SchemaPrimitive| prefixed(b, seq![#[trigger] primitive_tag(p)]) implies false by {
                    assert(b.subrange(0, 1)[0] == b[0]);
                }
                return Err(
                    SavefileError::CorruptData { message: String::from_str("corrupt schema: unknown primitive type") },
                );
            },
        };
        assert(b =~= seq![primitive_tag(var)] + deserializer.rest());
        assert forall|p: SchemaPrimitive| prefixed(b, seq![#[trigger] primitive_tag(p)]) implies var == p by {
            assert(b.subrange(0, 1)[0] == b[0]);
        }
        Ok(var)
    }
}

impl Schema {
    /// Writes the schema in its wire form.
    pub fn serialize(&self, serializer: &mut Serializer) -> (r: Result<(), SavefileError>)
        ensures
            r is Ok,
            final(serializer).bytes@ == old(serializer).bytes@ + enc_schema(*self),
            final(serializer).version == old(serializer).version,
        decreases *self, 3int,
    {
        match self {
            Schema::Struct(x) => {
                serializer.bytes.push(1u8);
                let _ = x.serialize(serializer);
            },
            Schema::Enum(x) => {
                serializer.bytes.push(2u8);
                let _ = x.serialize(serializer);
            },
            Schema::Primitive(p) => {
                serializer.bytes.push(3u8);
                let _ = p.serialize(serializer);
            },
            Schema::Vector(e) => {
                serializer.bytes.push(4u8);
                let _ = e.serialize(serializer);
            },
            Schema::Undefined => {
                serializer.bytes.push(5u8);
            },
            Schema::ZeroSize => {
                serializer.bytes.push(6u8);
            },
            Schema::SchemaOption(e) => {
                serializer.bytes.push(7u8);
                let _ = e.serialize(serializer);
            },
        }
        assert(serializer.bytes@ =~= old(serializer).bytes@ + enc_schema(*self));
        Ok(())
    }

    /// Reads a schema written by `serialize`. An unknown tag is corrupt data.
    /// The wire form of any schema whose names fit in memory is read back.
    pub fn deserialize(deserializer: &mut Deserializer) -> (r: Result<Schema, SavefileError>)
        requires
            old(deserializer).wf(),
        ensures
            final(deserializer).wf(),
            final(deserializer).data@ == old(deserializer).data@,
            r is Err ==> !(r->Err_0 is IncompatibleSchema),
            r is Ok ==> read_over(final(deserializer), old(deserializer), enc_schema(r->Ok_0)),
            r is Ok ==> schema_fits(r->Ok_0),
            old(deserializer).rest().len() == 0 ==> (r matches Err(SavefileError::IOError { .. })),
            old(deserializer).rest().len() >= 1 && !(1 <= old(deserializer).rest()[0] <= 7) ==> (r matches Err(
                SavefileError::CorruptData { .. },
            )),
            forall|s: Schema|
                schema_fits(s) && prefixed(old(deserializer).rest(), #[trigger] enc_schema(s)) ==> r is Ok
                    && enc_schema(r->Ok_0) == enc_schema(s),
        decreases old(deserializer).rest().len(), 4int,
    {
        let ghost b = deserializer.rest();
        let tag = match deserializer.read_u8() {
            Ok(t) => t,
            Err(e) => {
                assert forall|s: Schema| schema_fits(s) && prefixed(b, #[trigger] enc_schema(s)) implies false by {
                    lemma_schema_split(s);
                }
                return Err(e);
            },
        };
        let ghost b1 = deserializer.rest();
        assert(b =~= seq![tag] + b1);
        assert(b1 =~= b.subrange(1, b.len() as int));
        proof {
            assert forall|s: Schema| schema_fits(s) && prefixed(b, #[trigger] enc_schema(s)) implies schema_tag(s)
                == tag && prefixed(b1, schema_rest(s)) by {
                lemma_schema_split(s);
                lemma_prefixed_split(b, seq![schema_tag(s)], schema_rest(s));
                assert(b.subrange(0, 1)[0] == b[0]);
            }
        }
        if tag == 1 {
            let x = match SchemaStruct::deserialize(deserializer) {
                Ok(x) => x,
                Err(e) => {
                    assert forall|s: Schema| schema_fits(s) && prefixed(b, #[trigger] enc_schema(s)) implies false by {
                        assert(prefixed(b1, struct_body(s->Struct_0)));
                    }
                    return Err(e);
                },
            };
            let schema = Schema::Struct(x);
            proof {
                lemma_schema_split(schema);
                assert forall|s: Schema| schema_fits(s) && prefixed(b, #[trigger] enc_schema(s)) implies enc_schema(
                    schema,
                ) == enc_schema(s) by {
                    lemma_schema_split(s);
                    assert(prefixed(b1, struct_body(s->Struct_0)));
                }
            }
            assert(b =~= enc_schema(schema) + deserializer.rest());
            return Ok(schema);
        }
        if tag == 2 {
            let x = match SchemaEnum::deserialize(deserializer) {
                Ok(x) => x,
                Err(e) => {
                    assert forall|s: Schema| schema_fits(s) && prefixed(b, #[trigger] enc_schema(s)) implies false by {
                        assert(prefixed(b1, enum_body(s->Enum_0)));
                    }
                    return Err(e);
                },
            };
            let schema = Schema::Enum(x);
            proof {
                lemma_schema_split(schema);
                assert forall|s: Schema| schema_fits(s) && prefixed(b, #[trigger] enc_schema(s)) implies enc_schema(
                    schema,
                ) == enc_schema(s) by {
                    lemma_schema_split(s);
                    assert(prefixed(b1, enum_body(s->Enum_0)));
                }
            }
            assert(b =~= enc_schema(schema) + deserializer.rest());
            return Ok(schema);
        }
        if tag == 3 {
            let p = match SchemaPrimitive::deserialize(deserializer) {
                Ok(p) => p,
                Err(e) => {
                    assert forall|s: Schema| schema_fits(s) && prefixed(b, #[trigger] enc_schema(s)) implies false by {
                        assert(prefixed(b1, seq![primitive_tag(s->Primitive_0)]));
                    }
                    return Err(e);
                },
            };
            let schema = Schema::Primitive(p);
            proof {
                lemma_schema_split(schema);
                assert forall|s: Schema| schema_fits(s) && prefixed(b, #[trigger] enc_schema(s)) implies enc_schema(
                    schema,
                ) == enc_schema(s) by {
                    lemma_schema_split(s);
                    assert(prefixed(b1, seq![primitive_tag(s->Primitive_0)]));
                }
            }
            assert(b =~= enc_schema(schema) + deserializer.rest());
            return Ok(schema);
        }
        if tag == 4 || tag == 7 {
            let inner = match Schema::deserialize(deserializer) {
                Ok(v) => v,
                Err(e) => {
                    assert forall|s: Schema| schema_fits(s) && prefixed(b, #[trigger] enc_schema(s)) implies false by {
                        if s is Vector {
                            assert(prefixed(b1, enc_schema(*s->Vector_0)));
                        } else {
                            assert(prefixed(b1, enc_schema(*s->SchemaOption_0)));
                        }
                    }
                    return Err(e);
                },
            };
            let schema = if tag == 4 {
                Schema::Vector(Box::new(inner))
            } else {
                Schema::SchemaOption(Box::new(inner))
            };
            proof {
                lemma_schema_split(schema);
                assert forall|s: Schema| schema_fits(s) && prefixed(b, #[trigger] enc_schema(s)) implies enc_schema(
                    schema,
                ) == enc_schema(s) by {
                    lemma_schema_split(s);
                    if s is Vector {
                        assert(prefixed(b1, enc_schema(*s->Vector_0)));
                    } else {
                        assert(prefixed(b1, enc_schema(*s->SchemaOption_0)));
                    }
                }
            }
            assert(b =~= enc_schema(schema) + deserializer.rest());
            return Ok(schema);
        }
        if tag == 5 || tag == 6 {
            let schema = if tag == 5 {
                Schema::Undefined
            } else {
                Schema::ZeroSize
            };
            proof {
                lemma_schema_split(schema);
                assert forall|s: Schema| schema_fits(s) && prefixed(b, #[trigger] enc_schema(s)) implies enc_schema(
                    schema,
                ) == enc_schema(s) by {
                    lemma_schema_split(s);
                }
            }
            assert(b =~= enc_schema(schema) + deserializer.rest());
            return Ok(schema);
        }
        assert forall|s: Schema| schema_fits(s) && prefixed(b, #[trigger] enc_schema(s)) implies false by {}
        Err(SavefileError::CorruptData { message: String::from_str("corrupt schema: unknown schema variant") })
    }
}

fn duplicate_fields(fs: &Vec<Field>) -> (r: Vec<Field>)
    ensures
        r@.len() == fs@.len(),
        enc_fields(r@, r@.len() as int) == enc_fields(fs@, fs@.len() as int),
        fields_fit(r@, r@.len() as int) == fields_fit(fs@, fs@.len() as int),
    decreases fs@, 0int,
{
    let mut out: Vec<Field> = Vec::new();
    let mut i: usize = 0;
    while i < fs.len()
        invariant
            i <= fs@.len(),
            out@.len() == i,
            enc_fields(out@, i as int) == enc_fields(fs@, i as int),
            fields_fit(out@, i as int) == fields_fit(fs@, i as int),
        decreases fs@.len() - i,
    {
        let f = Field { name: fs[i].name.clone(), value: Box::new(fs[i].value.duplicate()) };
        assert(enc_field(f) == enc_field(fs@[i as int]));
        assert(field_fits(f) == field_fits(fs@[i as int]));
        let ghost prev = out@;
        out.push(f);
        proof {
            assert(prev.push(f).take(i as int) =~= prev.take(i as int));
            lemma_enc_fields_prefix(prev.push(f), prev, i as int);
            lemma_fields_fit_prefix(prev.push(f), prev, i as int);
            assert(out@[i as int] == f);
        }
        i = i + 1;
    }
    out
}

fn duplicate_variants(vs: &Vec<Variant>) -> (r: Vec<Variant>)
    ensures
        r@.len() == vs@.len(),
        enc_variants(r@, r@.len() as int) == enc_variants(vs@, vs@.len() as int),
        variants_fit(r@, r@.len() as int) == variants_fit(vs@, vs@.len() as int),
    decreases vs@, 0int,
{
    let mut out: Vec<Variant> = Vec::new();
    let mut i: usize = 0;
    while i < vs.len()
        invariant
            i <= vs@.len(),
            out@.len() == i,
            enc_variants(out@, i as int) == enc_variants(vs@, i as int),
            variants_fit(out@, i as int) == variants_fit(vs@, i as int),
        decreases vs@.len() - i,
    {
        let nv = Variant {
            name: vs[i].name.clone(),
            discriminator: vs[i].discriminator,
            fields: duplicate_fields(&vs[i].fields),
        };
        assert(enc_variant(nv) == enc_variant(vs@[i as int]));
        assert(variant_fits(nv) == variant_fits(vs@[i as int]));
        let ghost prev = out@;
        out.push(nv);
        proof {
            assert(prev.push(nv).take(i as int) =~= prev.take(i as int));
            lemma_enc_variants_prefix(prev.push(nv), prev, i as int);
            lemma_variants_fit_prefix(prev.push(nv), prev, i as int);
            assert(out@[i as int] == nv);
        }
        i = i + 1;
    }
    out
}

impl Schema {
    /// A copy of the schema with the same wire form.
    pub fn duplicate(&self) -> (r: Schema)
        ensures
            enc_schema(r) == enc_schema(*self),
            schema_fits(r) == schema_fits(*self),
        decreases *self, 1int,
    {
        match self {
            Schema::Struct(x) => {
                let fields = duplicate_fields(&x.fields);
                Schema::Struct(SchemaStruct { dbg_name: x.dbg_name.clone(), fields })
            },
            Schema::Enum(x) => {
                let variants = duplicate_variants(&x.variants);
                Schema::Enum(SchemaEnum { dbg_name: x.dbg_name.clone(), variants })
            },
            Schema::Primitive(p) => Schema::Primitive(*p),
            Schema::Vector(e) => Schema::Vector(Box::new(e.duplicate())),
            Schema::SchemaOption(e) => Schema::SchemaOption(Box::new(e.duplicate())),
            Schema::Undefined => Schema::Undefined,
            Schema::ZeroSize => Schema::ZeroSize,
        }
    }
}


/// Two schemas say the same thing: same shape, names, discriminators and
/// primitive kinds.
pub open spec fn schema_eqv(a: Schema, b: Schema) -> bool
    decreases a, 1int,
{
    match a {
        Schema::Struct(x) => b is Struct && x.dbg_name@ == b->Struct_0.dbg_name@ && x.fields@.len()
            == b->Struct_0.fields@.len() && fields_eqv(
            x.fields@,
            b->Struct_0.fields@,
            x.fields@.len() as int,
        ),
        Schema::Enum(x) => b is Enum && x.dbg_name@ == b->Enum_0.dbg_name@ && x.variants@.len()
            == b->Enum_0.variants@.len() && variants_eqv(
            x.variants@,
            b->Enum_0.variants@,
            x.variants@.len() as int,
        ),
        Schema::Primitive(p) => b is Primitive && p == b->Primitive_0,
        Schema::Vector(e) => b is Vector && schema_eqv(*e, *b->Vector_0),
        Schema::SchemaOption(e) => b is SchemaOption && schema_eqv(*e, *b->SchemaOption_0),
        Schema::Undefined => b is Undefined,
        Schema::ZeroSize => b is ZeroSize,
    }
}

/// The first `n` fields of `a` and `b` say the same thing.
pub open spec fn fields_eqv(a: Seq<Field>, b: Seq<Field>, n: int) -> bool
    decreases a, n,
{
    if n <= 0 || n > a.len() || n > b.len() {
        true
    } else {
        fields_eqv(a, b, n - 1) && a[n - 1].name@ == b[n - 1].name@ && schema_eqv(
            *a[n - 1].value,
            *b[n - 1].value,
        )
    }
}

/// The first `n` variants of `a` and `b` say the same thing.
pub open spec fn variants_eqv(a: Seq<Variant>, b: Seq<Variant>, n: int) -> bool
    decreases a, n,
{
    if n <= 0 || n > a.len() || n > b.len() {
        true
    } else {
        &&& variants_eqv(a, b, n - 1)
        &&& a[n - 1].name@ == b[n - 1].name@
        &&& a[n - 1].discriminator == b[n - 1].discriminator
        &&& a[n - 1].fields@.len() == b[n - 1].fields@.len()
        &&& fields_eqv(a[n - 1].fields@, b[n - 1].fields@, a[n - 1].fields@.len() as int)
    }
}

proof fn lemma_cancel(p: Seq<u8>, q: Seq<u8>, x: Seq<u8>, y: Seq<u8>)
    requires
        p + x == q + y,
        p.len() == q.len(),
    ensures
        p == q,
        x == y,
{
    assert(p =~= (p + x).subrange(0, p.len() as int));
    assert(q =~= (q + y).subrange(0, q.len() as int));
    assert(x =~= (p + x).subrange(p.len() as int, (p + x).len() as int));
    assert(y =~= (q + y).subrange(q.len() as int, (q + y).len() as int));
}

proof fn lemma_le_cancel(n1: nat, n2: nat, x: Seq<u8>, y: Seq<u8>)
    requires
        n1 <= usize::MAX,
        n2 <= usize::MAX,
        le_bytes(n1, 8) + x == le_bytes(n2, 8) + y,
    ensures
        n1 == n2,
        x == y,
{
    lemma_pow256_facts();
    lemma_le_round_trip(n1, 8);
    lemma_le_round_trip(n2, 8);
    lemma_cancel(le_bytes(n1, 8), le_bytes(n2, 8), x, y);
}

proof fn lemma_str_pf(t1: Seq<char>, t2: Seq<char>, x: Seq<u8>, y: Seq<u8>)
    requires
        name_fits(t1),
        name_fits(t2),
        enc_str(t1) + x == enc_str(t2) + y,
    ensures
        t1 == t2,
        x == y,
{
    let u1 = encode_utf8(t1);
    let u2 = encode_utf8(t2);
    assert(enc_str(t1) + x =~= le_bytes(u1.len(), 8) + (u1 + x));
    assert(enc_str(t2) + y =~= le_bytes(u2.len(), 8) + (u2 + y));
    lemma_le_cancel(u1.len(), u2.len(), u1 + x, u2 + y);
    lemma_cancel(u1, u2, x, y);
    vstd::utf8::encode_utf8_decode_utf8(t1);
    vstd::utf8::encode_utf8_decode_utf8(t2);
}

/// Wire forms of schemas whose names fit in memory are prefix-free: one
/// that begins where another does is that other, and says the same.
proof fn lemma_schema_pf(a: Schema, b: Schema, x: Seq<u8>, y: Seq<u8>)
    requires
        schema_fits(a),
        schema_fits(b),
        enc_schema(a) + x == enc_schema(b) + y,
    ensures
        schema_eqv(a, b),
        x == y,
    decreases a, 2int,
{
    lemma_schema_split(a);
    lemma_schema_split(b);
    let ra = schema_rest(a);
    let rb = schema_rest(b);
    assert(enc_schema(a) + x =~= seq![schema_tag(a)] + (ra + x));
    assert(enc_schema(b) + y =~= seq![schema_tag(b)] + (rb + y));
    lemma_cancel(seq![schema_tag(a)], seq![schema_tag(b)], ra + x, rb + y);
    assert(schema_tag(a) == seq![schema_tag(a)][0]);
    match a {
        Schema::Struct(xa) => {
            let xb = b->Struct_0;
            assert(xa.fields.len() == xa.fields@.len());
            assert(xb.fields.len() == xb.fields@.len());
            let fa = enc_fields(xa.fields@, xa.fields@.len() as int);
            let fb = enc_fields(xb.fields@, xb.fields@.len() as int);
            assert(ra + x =~= enc_str(xa.dbg_name@) + (le_bytes(xa.fields@.len(), 8) + (fa + x)));
            assert(rb + y =~= enc_str(xb.dbg_name@) + (le_bytes(xb.fields@.len(), 8) + (fb + y)));
            lemma_str_pf(xa.dbg_name@, xb.dbg_name@, le_bytes(xa.fields@.len(), 8) + (fa + x), le_bytes(
                xb.fields@.len(),
                8,
            ) + (fb + y));
            lemma_le_cancel(xa.fields@.len(), xb.fields@.len(), fa + x, fb + y);
            lemma_fields_pf(xa.fields@, xb.fields@, xa.fields@.len() as int, x, y);
        },
        Schema::Enum(xa) => {
            let xb = b->Enum_0;
            assert(xa.variants.len() == xa.variants@.len());
            assert(xb.variants.len() == xb.variants@.len());
            let va = enc_variants(xa.variants@, xa.variants@.len() as int);
            let vb = enc_variants(xb.variants@, xb.variants@.len() as int);
            assert(ra + x =~= enc_str(xa.dbg_name@) + (le_bytes(xa.variants@.len(), 8) + (va + x)));
            assert(rb + y =~= enc_str(xb.dbg_name@) + (le_bytes(xb.variants@.len(), 8) + (vb + y)));
            lemma_str_pf(xa.dbg_name@, xb.dbg_name@, le_bytes(xa.variants@.len(), 8) + (va + x), le_bytes(
                xb.variants@.len(),
                8,
            ) + (vb + y));
            lemma_le_cancel(xa.variants@.len(), xb.variants@.len(), va + x, vb + y);
            lemma_variants_pf(xa.variants@, xb.variants@, xa.variants@.len() as int, x, y);
        },
        Schema::Primitive(p) => {
            let q = b->Primitive_0;
            lemma_cancel(seq![primitive_tag(p)], seq![primitive_tag(q)], x, y);
            assert(primitive_tag(p) == seq![primitive_tag(p)][0]);
            assert(primitive_tag(q) == seq![primitive_tag(q)][0]);
        },
        Schema::Vector(e) => {
            lemma_schema_pf(*e, *b->Vector_0, x, y);
        },
        Schema::SchemaOption(e) => {
            lemma_schema_pf(*e, *b->SchemaOption_0, x, y);
        },
        _ => {
            assert(ra + x =~= x);
            assert(rb + y =~= y);
        },
    }
}

proof fn lemma_fields_pf(fa: Seq<Field>, fb: Seq<Field>, n: int, x: Seq<u8>, y: Seq<u8>)
    requires
        0 <= n <= fa.len(),
        n <= fb.len(),
        fields_fit(fa, n),
        fields_fit(fb, n),
        enc_fields(fa, n) + x == enc_fields(fb, n) + y,
    ensures
        fields_eqv(fa, fb, n),
        x == y,
    decreases fa, n,
{
    if n == 0 {
        assert(enc_fields(fa, 0) + x =~= x);
        assert(enc_fields(fb, 0) + y =~= y);
    } else {
        let ea = enc_field(fa[n - 1]);
        let eb = enc_field(fb[n - 1]);
        assert(enc_fields(fa, n) + x =~= enc_fields(fa, n - 1) + (ea + x));
        assert(enc_fields(fb, n) + y =~= enc_fields(fb, n - 1) + (eb + y));
        lemma_fields_pf(fa, fb, n - 1, ea + x, eb + y);
        let va = *fa[n - 1].value;
        let vb = *fb[n - 1].value;
        assert(ea + x =~= enc_str(fa[n - 1].name@) + (enc_schema(va) + x));
        assert(eb + y =~= enc_str(fb[n - 1].name@) + (enc_schema(vb) + y));
        assert(field_fits(fa[n - 1]) && field_fits(fb[n - 1]));
        lemma_str_pf(fa[n - 1].name@, fb[n - 1].name@, enc_schema(va) + x, enc_schema(vb) + y);
        lemma_schema_pf(va, vb, x, y);
    }
}

proof fn lemma_variants_pf(va: Seq<Variant>, vb: Seq<Variant>, n: int, x: Seq<u8>, y: Seq<u8>)
    requires
        0 <= n <= va.len(),
        n <= vb.len(),
        variants_fit(va, n),
        variants_fit(vb, n),
        enc_variants(va, n) + x == enc_variants(vb, n) + y,
    ensures
        variants_eqv(va, vb, n),
        x == y,
    decreases va, n,
{
    if n == 0 {
        assert(enc_variants(va, 0) + x =~= x);
        assert(enc_variants(vb, 0) + y =~= y);
    } else {
        let ea = enc_variant(va[n - 1]);
        let eb = enc_variant(vb[n - 1]);
        assert(enc_variants(va, n) + x =~= enc_variants(va, n - 1) + (ea + x));
        assert(enc_variants(vb, n) + y =~= enc_variants(vb, n - 1) + (eb + y));
        lemma_variants_pf(va, vb, n - 1, ea + x, eb + y);
        assert(variant_fits(va[n - 1]) && variant_fits(vb[n - 1]));
        lemma_variant_pf(va[n - 1], vb[n - 1], x, y);
    }
}

proof fn lemma_variant_pf(a: Variant, b: Variant, x: Seq<u8>, y: Seq<u8>)
    requires
        variant_fits(a),
        variant_fits(b),
        enc_variant(a) + x == enc_variant(b) + y,
    ensures
        a.name@ == b.name@,
        a.discriminator == b.discriminator,
        a.fields@.len() == b.fields@.len(),
        fields_eqv(a.fields@, b.fields@, a.fields@.len() as int),
        x == y,
    decreases a, 0int,
{
    assert(a.fields.len() == a.fields@.len());
    assert(b.fields.len() == b.fields@.len());
    let fa = enc_fields(a.fields@, a.fields@.len() as int);
    let fb = enc_fields(b.fields@, b.fields@.len() as int);
    let ta = le_bytes(a.fields@.len(), 8) + (fa + x);
    let tb = le_bytes(b.fields@.len(), 8) + (fb + y);
    assert(enc_variant(a) + x =~= enc_str(a.name@) + (seq![a.discriminator] + ta));
    assert(enc_variant(b) + y =~= enc_str(b.name@) + (seq![b.discriminator] + tb));
    lemma_str_pf(a.name@, b.name@, seq![a.discriminator] + ta, seq![b.discriminator] + tb);
    lemma_cancel(seq![a.discriminator], seq![b.discriminator], ta, tb);
    assert(a.discriminator == seq![a.discriminator][0]);
    assert(b.discriminator == seq![b.discriminator][0]);
    lemma_le_cancel(a.fields@.len(), b.fields@.len(), fa + x, fb + y);
    lemma_fields_pf(a.fields@, b.fields@, a.fields@.len() as int, x, y);
}

/// Schemas that say the same thing are compatible with the same schemas.
proof fn lemma_eqv_compatible(a: Schema, b: Schema, m: Schema)
    requires
        schema_eqv(a, b),
    ensures
        compatible(a, m) == compatible(b, m),
    decreases a, 2int,
{
    match a {
        Schema::Struct(xa) => {
            if m is Struct {
                lemma_fields_eqv_compatible(
                    xa.fields@,
                    b->Struct_0.fields@,
                    m->Struct_0.fields@,
                    xa.fields@.len() as int,
                );
            }
        },
        Schema::Enum(xa) => {
            if m is Enum {
                lemma_variants_eqv_compatible(
                    xa.variants@,
                    b->Enum_0.variants@,
                    m->Enum_0.variants@,
                    xa.variants@.len() as int,
                );
            }
        },
        Schema::Vector(e) => {
            if m is Vector {
                lemma_eqv_compatible(*e, *b->Vector_0, *m->Vector_0);
            }
        },
        Schema::SchemaOption(e) => {
            if m is SchemaOption {
                lemma_eqv_compatible(*e, *b->SchemaOption_0, *m->SchemaOption_0);
            }
        },
        _ => {},
    }
}

proof fn lemma_fields_eqv_compatible(fa: Seq<Field>, fb: Seq<Field>, fm: Seq<Field>, n: int)
    requires
        fa.len() == fb.len(),
        0 <= n <= fa.len(),
        fields_eqv(fa, fb, n),
    ensures
        fields_compatible(fa, fm, n) == fields_compatible(fb, fm, n),
    decreases fa, n,
{
    if n > 0 {
        lemma_fields_eqv_compatible(fa, fb, fm, n - 1);
        if n <= fm.len() {
            lemma_eqv_compatible(*fa[n - 1].value, *fb[n - 1].value, *fm[n - 1].value);
        }
    }
}

proof fn lemma_variants_eqv_compatible(va: Seq<Variant>, vb: Seq<Variant>, vm: Seq<Variant>, n: int)
    requires
        va.len() == vb.len(),
        0 <= n <= va.len(),
        variants_eqv(va, vb, n),
    ensures
        variants_compatible(va, vm, n) == variants_compatible(vb, vm, n),
    decreases va, n,
{
    if n > 0 {
        lemma_variants_eqv_compatible(va, vb, vm, n - 1);
        if n <= vm.len() {
            let a = va[n - 1];
            let b = vb[n - 1];
            lemma_fields_eqv_compatible(a.fields@, b.fields@, vm[n - 1].fields@, a.fields@.len() as int);
        }
    }
}

/// A schema block read back from the wire form of `s` says what `s` says,
/// and is compatible with exactly the schemas `s` is compatible with.
pub proof fn lemma_read_back_compatible(read: Schema, s: Schema, x: Seq<u8>, y: Seq<u8>, m: Schema)
    requires
        schema_fits(read),
        schema_fits(s),
        enc_schema(read) + x == enc_schema(s) + y,
    ensures
        x == y,
        compatible(read, m) == compatible(s, m),
{
    lemma_schema_pf(read, s, x, y);
    lemma_eqv_compatible(read, s, m);
}

} // verus!
