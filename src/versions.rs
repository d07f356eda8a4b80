//! Version-gated fields: each field of an aggregate exists for a range of
//! protocol versions, and is written, read and described only there.
use vstd::prelude::*;
use crate::error::SavefileError;
use crate::schema::{Field, Schema, SchemaStruct};
use crate::schema_codec::{
    enc_schema,
    enc_fields,
    enc_field,
    lemma_enc_fields_prefix,
    lemma_fields_fit_prefix,
    name_fits,
    schema_fits,
    fields_fit,
    field_fits,
};
use crate::wire::{le_bytes, enc_str};
use crate::value::{Value, ValueView, conforms, dec, enc, view_of, views, decode_value, encode_value, lemma_round_trip};
use crate::wire::{Serializer, Deserializer};

verus! {

broadcast use vstd::std_specs::vec::group_vec_axioms;

/// The last protocol version there is: a field that exists up to it has
/// not been removed.
pub const MAX_VERSION: u32 = 0xffff_ffff;

/// A field of an aggregate with the inclusive range of protocol versions in
/// which it exists. A removed field keeps its place in the description of
/// older versions but holds no live value.
pub struct VersionedField {
    pub name: String,
    pub value: Schema,
    pub version_from: u32,
    pub version_to: u32,
    pub removed: bool,
}

/// An aggregate whose fields exist in ranges of protocol versions.
pub struct VersionedStruct {
    pub dbg_name: String,
    pub fields: Vec<VersionedField>,
}

impl VersionedField {
    /// The field exists in protocol version `version`.
    pub open spec fn present_at(&self, version: u32) -> bool {
        self.version_from <= version <= self.version_to
    }

    /// A field that exists from `version_from` to `version_to`, both
    /// included. A removed field must stop existing at some version: one
    /// whose range reaches `MAX_VERSION` is refused.
    pub fn new(name: String, value: Schema, version_from: u32, version_to: u32, removed: bool) -> (r: Result<
        VersionedField,
        SavefileError,
    >)
        ensures
            r is Err <==> removed && version_to == MAX_VERSION,
            r is Err ==> r->Err_0 is InvalidVersionRange,
            r is Ok ==> r->Ok_0.name@ == name@ && r->Ok_0.version_from == version_from
                && r->Ok_0.version_to == version_to && r->Ok_0.removed == removed && enc_schema(
                r->Ok_0.value,
            ) == enc_schema(value),
    {
        if removed && version_to == MAX_VERSION {
            return Err(
                SavefileError::InvalidVersionRange {
                    message: String::from_str(
                        "a removed field must have a last version; it cannot exist up to the last version there is",
                    ),
                },
            );
        }
        Ok(VersionedField { name, value, version_from, version_to, removed })
    }

    /// A field that exists in every version.
    pub fn always(name: String, value: Schema) -> (r: VersionedField)
        ensures
            r.name@ == name@,
            r.version_from == 0,
            r.version_to == MAX_VERSION,
            !r.removed,
            enc_schema(r.value) == enc_schema(value),
    {
        VersionedField { name, value, version_from: 0, version_to: MAX_VERSION, removed: false }
    }

    /// Whether the field exists in protocol version `version`.
    pub fn is_present(&self, version: u32) -> (r: bool)
        ensures
            r == self.present_at(version),
    {
        self.version_from <= version && version <= self.version_to
    }
}

/// The indices, in order, of the first `n` fields of `fs` that exist in
/// `version`.
pub open spec fn present_indices(fs: Seq<VersionedField>, version: u32, n: int) -> Seq<int>
    decreases n,
{
    if n <= 0 || n > fs.len() {
        Seq::empty()
    } else if fs[n - 1].present_at(version) {
        present_indices(fs, version, n - 1).push(n - 1)
    } else {
        present_indices(fs, version, n - 1)
    }
}

/// The encodings of the values of the fields among the first `n` that
/// exist in `version`, in order.
pub open spec fn enc_gated(fs: Seq<VersionedField>, vals: Seq<ValueView>, version: u32, n: int) -> Seq<u8>
    decreases n,
{
    if n <= 0 || n > fs.len() || n > vals.len() {
        Seq::empty()
    } else if fs[n - 1].present_at(version) {
        enc_gated(fs, vals, version, n - 1) + enc(vals[n - 1])
    } else {
        enc_gated(fs, vals, version, n - 1)
    }
}

/// The wire forms of the fields among the first `n` of `fs` that exist in
/// `version`: each name, then its schema.
pub open spec fn enc_present_fields(fs: Seq<VersionedField>, version: u32, n: int) -> Seq<u8>
    decreases n,
{
    if n <= 0 || n > fs.len() {
        Seq::empty()
    } else if fs[n - 1].present_at(version) {
        enc_present_fields(fs, version, n - 1) + enc_str(fs[n - 1].name@) + enc_schema(fs[n - 1].value)
    } else {
        enc_present_fields(fs, version, n - 1)
    }
}

/// The wire form of the aggregate's schema in `version`.
pub open spec fn versioned_schema_bytes(d: VersionedStruct, version: u32) -> Seq<u8> {
    seq![1u8] + enc_str(d.dbg_name@) + le_bytes(
        present_indices(d.fields@, version, d.fields@.len() as int).len(),
        8,
    ) + enc_present_fields(d.fields@, version, d.fields@.len() as int)
}

/// Decodes the fields among the first `n` of `fs` that exist in `version`:
/// for each field its value, or `None` where it does not exist or has been
/// removed; and the number of bytes taken.
pub open spec fn dec_gated(fs: Seq<VersionedField>, version: u32, n: int, b: Seq<u8>) -> Option<
    (Seq<Option<ValueView>>, nat),
>
    decreases n,
{
    if n <= 0 || n > fs.len() {
        Some((Seq::empty(), 0))
    } else {
        match dec_gated(fs, version, n - 1, b) {
            Some((vs, k)) => if !fs[n - 1].present_at(version) {
                Some((vs.push(None), k))
            } else if k <= b.len() {
                match dec(fs[n - 1].value, b.subrange(k as int, b.len() as int)) {
                    Some((v, k2)) => Some(
                        (
                            vs.push(
                                if fs[n - 1].removed {
                                    None
                                } else {
                                    Some(v)
                                },
                            ),
                            k + k2,
                        ),
                    ),
                    None => None,
                }
            } else {
                None
            },
            None => None,
        }
    }
}

/// A field is listed among those of a version exactly when that version
/// lies in its range.
pub proof fn lemma_version_gating(fs: Seq<VersionedField>, version: u32, i: int)
    requires
        0 <= i < fs.len(),
    ensures
        present_indices(fs, version, fs.len() as int).contains(i) <==> fs[i].version_from <= version
            <= fs[i].version_to,
{
    lemma_present_indices_members(fs, version, fs.len() as int);
}

proof fn lemma_present_indices_members(fs: Seq<VersionedField>, version: u32, n: int)
    requires
        0 <= n <= fs.len(),
    ensures
        forall|i: int|
            0 <= i < n ==> (present_indices(fs, version, n).contains(i) <==> fs[i].present_at(
                version,
            )),
        forall|j: int|
            0 <= j < present_indices(fs, version, n).len() ==> 0 <= #[trigger] present_indices(
                fs,
                version,
                n,
            )[j] < n,
    decreases n,
{
    if n > 0 {
        lemma_present_indices_members(fs, version, n - 1);
        let p = present_indices(fs, version, n - 1);
        if fs[n - 1].present_at(version) {
            let q = p.push(n - 1);
            assert(q == present_indices(fs, version, n));
            assert forall|i: int| 0 <= i < n implies (q.contains(i) <==> fs[i].present_at(
                version,
            )) by {
                if i < n - 1 {
                    if q.contains(i) {
                        let j = choose|j: int| 0 <= j < q.len() && #[trigger] q[j] == i;
                        assert(j < p.len());
                        assert(p[j] == i);
                    }
                    if p.contains(i) {
                        let j = choose|j: int| 0 <= j < p.len() && #[trigger] p[j] == i;
                        assert(q[j] == i);
                    }
                } else {
                    assert(q[p.len() as int] == n - 1);
                }
            }
            assert forall|j: int| 0 <= j < q.len() implies 0 <= #[trigger] q[j] < n by {
                if j < p.len() {
                    assert(q[j] == p[j]);
                }
            }
        } else {
            assert forall|i: int| 0 <= i < n implies (p.contains(i) <==> fs[i].present_at(
                version,
            )) by {
                if i == n - 1 && p.contains(i) {
                    let j = choose|j: int| 0 <= j < p.len() && #[trigger] p[j] == i;
                }
            }
        }
    }
}

impl VersionedStruct {
    /// The description is usable: no removed field exists up to the last
    /// version there is, and every name fits in memory.
    pub open spec fn wf(&self) -> bool {
        &&& name_fits(self.dbg_name@)
        &&& forall|i: int|
            0 <= i < self.fields@.len() ==> {
                let f = #[trigger] self.fields@[i];
                &&& name_fits(f.name@)
                &&& schema_fits(f.value)
                &&& !(f.removed && f.version_to == MAX_VERSION)
            }
    }

    /// The schema of the aggregate in protocol version `version`: the
    /// fields that exist in that version, in order.
    pub fn schema(&self, version: u32) -> (r: Schema)
        requires
            self.wf(),
        ensures
            schema_fits(r),
            r is Struct,
            r->Struct_0.dbg_name@ == self.dbg_name@,
            enc_schema(r) == versioned_schema_bytes(*self, version),
            r->Struct_0.fields@.len() == present_indices(
                self.fields@,
                version,
                self.fields@.len() as int,
            ).len(),
            forall|j: int|
                0 <= j < r->Struct_0.fields@.len() ==> {
                    let k = present_indices(self.fields@, version, self.fields@.len() as int)[j];
                    &&& #[trigger] r->Struct_0.fields@[j].name@ == self.fields@[k].name@
                    &&& enc_schema(*r->Struct_0.fields@[j].value) == enc_schema(self.fields@[k].value)
                },
    {
        let mut out: Vec<Field> = Vec::new();
        let mut i: usize = 0;
        while i < self.fields.len()
            invariant
                i <= self.fields@.len(),
                out@.len() == present_indices(self.fields@, version, i as int).len(),
                enc_fields(out@, out@.len() as int) == enc_present_fields(self.fields@, version, i as int),
                self.wf(),
                fields_fit(out@, out@.len() as int),
                forall|j: int|
                    0 <= j < out@.len() ==> {
                        let k = present_indices(self.fields@, version, i as int)[j];
                        &&& #[trigger] out@[j].name@ == self.fields@[k].name@
                        &&& enc_schema(*out@[j].value) == enc_schema(self.fields@[k].value)
                    },
            decreases self.fields@.len() - i,
        {
            let f = &self.fields[i];
            if f.is_present(version) {
                let nf = Field { name: f.name.clone(), value: Box::new(f.value.duplicate()) };
                let ghost prev = out@;
                out.push(nf);
                proof {
                    assert(prev.push(nf).take(prev.len() as int) =~= prev.take(prev.len() as int));
                    lemma_enc_fields_prefix(prev.push(nf), prev, prev.len() as int);
                    lemma_fields_fit_prefix(prev.push(nf), prev, prev.len() as int);
                    assert(field_fits(nf));
                    assert(out@[prev.len() as int] == nf);
                    assert(enc_field(nf) == enc_str(f.name@) + enc_schema(f.value));
                }
                assert(enc_fields(out@, out@.len() as int) =~= enc_present_fields(self.fields@, version, i + 1));
            }
            i = i + 1;
        }
        let r = Schema::Struct(SchemaStruct { dbg_name: self.dbg_name.clone(), fields: out });
        assert(enc_schema(r) =~= versioned_schema_bytes(*self, version));
        r
    }

    /// Writes the values of the fields that exist in the serializer's
    /// version, in order; `values` holds one value per declared field.
    /// A removed field must not exist in that version.
    pub fn serialize(&self, values: &Vec<Value>, serializer: &mut Serializer) -> (r: Result<
        (),
        SavefileError,
    >)
        requires
            self.wf(),
            values@.len() == self.fields@.len(),
            forall|i: int|
                0 <= i < self.fields@.len() && (#[trigger] self.fields@[i]).removed ==> !self.fields@[i].present_at(
                    old(serializer).version,
                ),
        ensures
            r is Ok,
            final(serializer).version == old(serializer).version,
            final(serializer).bytes@ == old(serializer).bytes@ + enc_gated(
                self.fields@,
                views(values@),
                old(serializer).version,
                self.fields@.len() as int,
            ),
    {
        let ghost w = views(values@);
        let mut i: usize = 0;
        while i < self.fields.len()
            invariant
                i <= self.fields@.len(),
                values@.len() == self.fields@.len(),
                w == views(values@),
                serializer.version == old(serializer).version,
                serializer.bytes@ == old(serializer).bytes@ + enc_gated(
                    self.fields@,
                    w,
                    serializer.version,
                    i as int,
                ),
            decreases self.fields@.len() - i,
        {
            if self.fields[i].is_present(serializer.version) {
                let _ = encode_value(&values[i], serializer);
                assert(w[i as int] == view_of(values@[i as int]));
                assert(serializer.bytes@ =~= old(serializer).bytes@ + enc_gated(
                    self.fields@,
                    w,
                    serializer.version,
                    i + 1,
                ));
            }
            i = i + 1;
        }
        Ok(())
    }

    /// Reads the fields that exist in the file's version, in order. The
    /// result holds one entry per declared field: its value, or `None`
    /// where the field does not exist in that version or has been removed
    /// (a removed field's bytes are read and dropped).
    pub fn deserialize(&self, deserializer: &mut Deserializer) -> (r: Result<
        Vec<Option<Value>>,
        SavefileError,
    >)
        requires
            old(deserializer).wf(),
        ensures
            final(deserializer).wf(),
            final(deserializer).data@ == old(deserializer).data@,
            final(deserializer).file_version == old(deserializer).file_version,
            final(deserializer).memory_version == old(deserializer).memory_version,
            match dec_gated(
                self.fields@,
                old(deserializer).file_version,
                self.fields@.len() as int,
                old(deserializer).rest(),
            ) {
                Some((vs, k)) => r is Ok && r->Ok_0@.len() == vs.len() && (forall|i: int|
                    0 <= i < vs.len() ==> (#[trigger] vs[i] is Some <==> r->Ok_0@[i] is Some) && (
                    vs[i] is Some ==> view_of(r->Ok_0@[i]->Some_0) == vs[i]->Some_0))
                    && final(deserializer).pos == old(deserializer).pos + k,
                None => r is Err,
            },
            r is Err ==> !(r->Err_0 is IncompatibleSchema),
    {
        let ghost b = deserializer.rest();
        let ghost start_pos = deserializer.pos;
        let mut out: Vec<Option<Value>> = Vec::new();
        let mut i: usize = 0;
        while i < self.fields.len()
            invariant
                i <= self.fields@.len(),
                deserializer.wf(),
                start_pos <= deserializer.pos,
                b == old(deserializer).rest(),
                start_pos == old(deserializer).pos,
                deserializer.data@ == old(deserializer).data@,
                deserializer.file_version == old(deserializer).file_version,
                deserializer.memory_version == old(deserializer).memory_version,
                dec_gated(self.fields@, deserializer.file_version, i as int, b) matches Some((vs, k))
                    && k == deserializer.pos - start_pos && vs.len() == out@.len() && (forall|j: int|
                    0 <= j < vs.len() ==> (#[trigger] vs[j] is Some <==> out@[j] is Some) && (
                    vs[j] is Some ==> view_of(out@[j]->Some_0) == vs[j]->Some_0)),
            decreases self.fields@.len() - i,
        {
            let f = &self.fields[i];
            if !f.is_present(deserializer.file_version) {
                out.push(None);
            } else {
                assert(deserializer.rest() =~= b.subrange(deserializer.pos - start_pos, b.len() as int));
                let x = decode_value(&f.value, deserializer);
                match x {
                    Ok(x) => {
                        if f.removed {
                            out.push(None);
                        } else {
                            out.push(Some(x));
                        }
                    },
                    Err(e) => {
                        proof {
                            lemma_dec_gated_none(
                                self.fields@,
                                deserializer.file_version,
                                i + 1,
                                self.fields@.len() as int,
                                b,
                            );
                        }
                        return Err(e);
                    },
                }
            }
            i = i + 1;
        }
        Ok(out)
    }
}

proof fn lemma_dec_gated_none(fs: Seq<VersionedField>, version: u32, n: int, m: int, b: Seq<u8>)
    requires
        0 <= n <= m <= fs.len(),
        dec_gated(fs, version, n, b) is None,
    ensures
        dec_gated(fs, version, m, b) is None,
    decreases m - n,
{
    if n < m {
        lemma_dec_gated_none(fs, version, n, m - 1, b);
    }
}


/// What reading back the fields of `fs` holding `vals` gives in `version`:
/// each live field that exists in that version has its value, every other
/// field has none.
pub open spec fn expected_fields(fs: Seq<VersionedField>, vals: Seq<ValueView>, version: u32) -> Seq<
    Option<ValueView>,
> {
    Seq::new(
        fs.len(),
        |i: int|
            if fs[i].present_at(version) && !fs[i].removed {
                Some(vals[i])
            } else {
                None
            },
    )
}

/// Reading back what a versioned aggregate wrote in a version, in that same
/// version, gives each live field that exists there its value and the
/// others none, and consumes exactly the written bytes.
pub proof fn lemma_versioned_round_trip(
    fs: Seq<VersionedField>,
    vals: Seq<ValueView>,
    version: u32,
    tail: Seq<u8>,
)
    requires
        vals.len() == fs.len(),
        forall|i: int|
            0 <= i < fs.len() && (#[trigger] fs[i]).present_at(version) ==> conforms(vals[i], fs[i].value),
    ensures
        dec_gated(fs, version, fs.len() as int, enc_gated(fs, vals, version, fs.len() as int) + tail) == Some(
            (
                expected_fields(fs, vals, version),
                enc_gated(fs, vals, version, fs.len() as int).len(),
            ),
        ),
{
    lemma_gated_prefix(fs, vals, version, fs.len() as int, tail);
    assert(expected_fields(fs, vals, version).take(fs.len() as int) =~= expected_fields(fs, vals, version));
}

proof fn lemma_gated_prefix(fs: Seq<VersionedField>, vals: Seq<ValueView>, version: u32, n: int, tail: Seq<u8>)
    requires
        vals.len() == fs.len(),
        0 <= n <= fs.len(),
        forall|i: int|
            0 <= i < fs.len() && (#[trigger] fs[i]).present_at(version) ==> conforms(vals[i], fs[i].value),
    ensures
        dec_gated(fs, version, n, enc_gated(fs, vals, version, n) + tail) == Some(
            (expected_fields(fs, vals, version).take(n), enc_gated(fs, vals, version, n).len()),
        ),
    decreases n,
{
    let exp = expected_fields(fs, vals, version);
    if n == 0 {
        assert(exp.take(0) =~= Seq::<Option<ValueView>>::empty());
    } else {
        let head = enc_gated(fs, vals, version, n - 1);
        let f = fs[n - 1];
        if f.present_at(version) {
            let last = enc(vals[n - 1]);
            let b = enc_gated(fs, vals, version, n) + tail;
            assert(b =~= head + (last + tail));
            lemma_gated_prefix(fs, vals, version, n - 1, last + tail);
            assert(b.subrange(head.len() as int, b.len() as int) =~= last + tail);
            lemma_round_trip(f.value, vals[n - 1], tail);
        } else {
            lemma_gated_prefix(fs, vals, version, n - 1, tail);
        }
        assert(exp.take(n - 1).push(exp[n - 1]) =~= exp.take(n));
    }
}

} // verus!
