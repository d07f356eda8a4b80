//! The schema model: a recursive description of a type's wire shape, the
//! sizes it implies, and the compatibility diff run before any load.
use vstd::prelude::*;

verus! {

broadcast use vstd::std_specs::vec::group_vec_axioms;

/// A field of an aggregate or of an enum variant. The name is only for
/// diagnostics.
#[derive(Debug, PartialEq)]
pub struct Field {
    pub name: String,
    pub value: Box<Schema>,
}

/// An aggregate, serialized as its fields one after the other, without
/// padding. The name is only for diagnostics.
#[derive(Debug, PartialEq)]
pub struct SchemaStruct {
    pub dbg_name: String,
    pub fields: Vec<Field>,
}

/// An enum variant, serialized as its fields one after the other.
#[derive(Debug, PartialEq)]
pub struct Variant {
    pub name: String,
    pub discriminator: u8,
    pub fields: Vec<Field>,
}

/// An enum, serialized as the one-byte discriminator of its variant followed
/// by that variant's fields. Variant names and discriminators are significant.
#[derive(Debug, PartialEq)]
pub struct SchemaEnum {
    pub dbg_name: String,
    pub variants: Vec<Variant>,
}

/// A primitive, serialized as the little-endian form of its type; a string
/// is its byte count on 8 bytes followed by its UTF-8 bytes.
#[allow(non_camel_case_types)]
#[derive(Copy, Clone, Debug, PartialEq, Eq, Structural)]
pub enum SchemaPrimitive {
    schema_i8,
    schema_u8,
    schema_i16,
    schema_u16,
    schema_i32,
    schema_u32,
    schema_i64,
    schema_u64,
    schema_string,
    schema_f32,
    schema_f64,
    schema_bool,
}

/// The wire format of a type.
#[derive(Debug, PartialEq)]
pub enum Schema {
    Struct(SchemaStruct),
    Enum(SchemaEnum),
    Primitive(SchemaPrimitive),
    Vector(Box<Schema>),
    SchemaOption(Box<Schema>),
    Undefined,
    ZeroSize,
}

/// Data laid out as `a` may be read as `b`: same shape, field counts,
/// variant names and discriminators, and primitive kinds; `Undefined` never
/// matches.
pub open spec fn compatible(a: Schema, b: Schema) -> bool
    decreases a, 0int,
{
    match a {
        Schema::Struct(x) => match b {
            Schema::Struct(y) => x.fields@.len() == y.fields@.len() && fields_compatible(
                x.fields@,
                y.fields@,
                x.fields@.len() as int,
            ),
            _ => false,
        },
        Schema::Enum(x) => match b {
            Schema::Enum(y) => x.variants@.len() == y.variants@.len() && variants_compatible(
                x.variants@,
                y.variants@,
                x.variants@.len() as int,
            ),
            _ => false,
        },
        Schema::Primitive(x) => match b {
            Schema::Primitive(y) => x == y,
            _ => false,
        },
        Schema::Vector(x) => match b {
            Schema::Vector(y) => compatible(*x, *y),
            _ => false,
        },
        Schema::SchemaOption(x) => match b {
            Schema::SchemaOption(y) => compatible(*x, *y),
            _ => false,
        },
        Schema::Undefined => false,
        Schema::ZeroSize => b is ZeroSize,
    }
}

/// The first `n` fields of `a` and `b` are pairwise compatible.
pub open spec fn fields_compatible(a: Seq<Field>, b: Seq<Field>, n: int) -> bool
    decreases a, n,
{
    if n <= 0 || n > a.len() || n > b.len() {
        true
    } else {
        fields_compatible(a, b, n - 1) && compatible(*a[n - 1].value, *b[n - 1].value)
    }
}

/// The first `n` variants of `a` and `b` agree in name and discriminator,
/// and have compatible fields.
pub open spec fn variants_compatible(a: Seq<Variant>, b: Seq<Variant>, n: int) -> bool
    decreases a, n,
{
    if n <= 0 || n > a.len() || n > b.len() {
        true
    } else {
        &&& variants_compatible(a, b, n - 1)
        &&& a[n - 1].name@ == b[n - 1].name@
        &&& a[n - 1].discriminator == b[n - 1].discriminator
        &&& a[n - 1].fields@.len() == b[n - 1].fields@.len()
        &&& fields_compatible(a[n - 1].fields@, b[n - 1].fields@, a[n - 1].fields@.len() as int)
    }
}


/// Diff finds no mismatch in one direction exactly when it finds none in
/// the other.
pub proof fn lemma_compatible_symmetric(a: Schema, b: Schema)
    ensures
        compatible(a, b) == compatible(b, a),
    decreases a, 0int,
{
    match a {
        Schema::Struct(x) => match b {
            Schema::Struct(y) => {
                lemma_fields_symmetric(x.fields@, y.fields@, x.fields@.len() as int);
            },
            _ => {},
        },
        Schema::Enum(x) => match b {
            Schema::Enum(y) => {
                lemma_variants_symmetric(x.variants@, y.variants@, x.variants@.len() as int);
            },
            _ => {},
        },
        Schema::Vector(x) => match b {
            Schema::Vector(y) => {
                lemma_compatible_symmetric(*x, *y);
            },
            _ => {},
        },
        Schema::SchemaOption(x) => match b {
            Schema::SchemaOption(y) => {
                lemma_compatible_symmetric(*x, *y);
            },
            _ => {},
        },
        _ => {},
    }
}

proof fn lemma_fields_symmetric(a: Seq<Field>, b: Seq<Field>, n: int)
    ensures
        fields_compatible(a, b, n) == fields_compatible(b, a, n),
    decreases a, n,
{
    if n <= 0 || n > a.len() || n > b.len() {
    } else {
        lemma_fields_symmetric(a, b, n - 1);
        lemma_compatible_symmetric(*a[n - 1].value, *b[n - 1].value);
    }
}

proof fn lemma_variants_symmetric(a: Seq<Variant>, b: Seq<Variant>, n: int)
    ensures
        variants_compatible(a, b, n) == variants_compatible(b, a, n),
    decreases a, n,
{
    if n <= 0 || n > a.len() || n > b.len() {
    } else {
        lemma_variants_symmetric(a, b, n - 1);
        lemma_fields_symmetric(a[n - 1].fields@, b[n - 1].fields@, a[n - 1].fields@.len() as int);
    }
}

pub(crate) proof fn lemma_fields_prefix(a: Seq<Field>, b: Seq<Field>, i: int, n: int)
    requires
        0 <= i <= n <= a.len(),
        n <= b.len(),
    ensures
        fields_compatible(a, b, n) ==> fields_compatible(a, b, i),
    decreases n - i,
{
    if i < n {
        lemma_fields_prefix(a, b, i, n - 1);
    }
}

pub(crate) proof fn lemma_variants_prefix(a: Seq<Variant>, b: Seq<Variant>, i: int, n: int)
    requires
        0 <= i <= n <= a.len(),
        n <= b.len(),
    ensures
        variants_compatible(a, b, n) ==> variants_compatible(a, b, i),
    decreases n - i,
{
    if i < n {
        lemma_variants_prefix(a, b, i, n - 1);
    }
}

/// No part of the schema is `Undefined`.
pub open spec fn defined(s: Schema) -> bool
    decreases s, 1int,
{
    match s {
        Schema::Struct(x) => fields_defined(x.fields@, x.fields@.len() as int),
        Schema::Enum(x) => variants_defined(x.variants@, x.variants@.len() as int),
        Schema::Vector(e) => defined(*e),
        Schema::SchemaOption(e) => defined(*e),
        Schema::Undefined => false,
        _ => true,
    }
}

/// No part of the first `n` fields is `Undefined`.
pub open spec fn fields_defined(fs: Seq<Field>, n: int) -> bool
    decreases fs, n,
{
    if n <= 0 || n > fs.len() {
        true
    } else {
        fields_defined(fs, n - 1) && defined(*fs[n - 1].value)
    }
}

/// No part of the first `n` variants is `Undefined`.
pub open spec fn variants_defined(vs: Seq<Variant>, n: int) -> bool
    decreases vs, n,
{
    if n <= 0 || n > vs.len() {
        true
    } else {
        variants_defined(vs, n - 1) && fields_defined(vs[n - 1].fields@, vs[n - 1].fields@.len() as int)
    }
}

/// A schema with no `Undefined` part is compatible with itself.
pub proof fn lemma_compatible_reflexive(s: Schema)
    requires
        defined(s),
    ensures
        compatible(s, s),
    decreases s, 2int,
{
    match s {
        Schema::Struct(x) => {
            lemma_fields_reflexive(x.fields@, x.fields@.len() as int);
        },
        Schema::Enum(x) => {
            lemma_variants_reflexive(x.variants@, x.variants@.len() as int);
        },
        Schema::Vector(e) => {
            lemma_compatible_reflexive(*e);
        },
        Schema::SchemaOption(e) => {
            lemma_compatible_reflexive(*e);
        },
        _ => {},
    }
}

proof fn lemma_fields_reflexive(fs: Seq<Field>, n: int)
    requires
        fields_defined(fs, n),
    ensures
        fields_compatible(fs, fs, n),
    decreases fs, n,
{
    if 0 < n <= fs.len() {
        lemma_fields_reflexive(fs, n - 1);
        lemma_compatible_reflexive(*fs[n - 1].value);
    }
}

proof fn lemma_variants_reflexive(vs: Seq<Variant>, n: int)
    requires
        variants_defined(vs, n),
    ensures
        variants_compatible(vs, vs, n),
    decreases vs, n,
{
    if 0 < n <= vs.len() {
        lemma_variants_reflexive(vs, n - 1);
        lemma_fields_reflexive(vs[n - 1].fields@, vs[n - 1].fields@.len() as int);
    }
}

/// The sum of two sizes, when both are fixed.
pub open spec fn opt_add(a: Option<nat>, b: Option<nat>) -> Option<nat> {
    match (a, b) {
        (Some(x), Some(y)) => Some(x + y),
        _ => None,
    }
}

/// The larger of two sizes, when both are fixed.
pub open spec fn opt_max(a: Option<nat>, b: Option<nat>) -> Option<nat> {
    match (a, b) {
        (Some(x), Some(y)) => Some(
            if x >= y {
                x
            } else {
                y
            },
        ),
        _ => None,
    }
}

/// A size as a `usize`, or `None` where it is not fixed or does not fit.
pub open spec fn fit(a: Option<nat>) -> Option<usize> {
    match a {
        Some(x) => if x <= usize::MAX {
            Some(x as usize)
        } else {
            None
        },
        None => None,
    }
}

/// The number of bytes a primitive takes on the wire, where it is fixed.
pub open spec fn primitive_size(p: SchemaPrimitive) -> Option<nat> {
    match p {
        SchemaPrimitive::schema_i8 | SchemaPrimitive::schema_u8 => Some(1),
        SchemaPrimitive::schema_i16 | SchemaPrimitive::schema_u16 => Some(2),
        SchemaPrimitive::schema_i32 | SchemaPrimitive::schema_u32 => Some(4),
        SchemaPrimitive::schema_i64 | SchemaPrimitive::schema_u64 => Some(8),
        SchemaPrimitive::schema_string => None,
        SchemaPrimitive::schema_f32 => Some(4),
        SchemaPrimitive::schema_f64 => Some(8),
        SchemaPrimitive::schema_bool => Some(1),
    }
}

/// The number of bytes every value of `s` takes on the wire, where that is
/// the same for all values; an enum counts its largest variant.
pub open spec fn wire_size(s: Schema) -> Option<nat>
    decreases s, 0int,
{
    match s {
        Schema::Struct(x) => fields_size(x.fields@, x.fields@.len() as int),
        Schema::Enum(x) => variants_size(x.variants@, x.variants@.len() as int),
        Schema::Primitive(p) => primitive_size(p),
        Schema::Vector(_) => None,
        Schema::SchemaOption(_) => None,
        Schema::Undefined => None,
        Schema::ZeroSize => Some(0),
    }
}

/// The fixed size of the first `n` fields together.
pub open spec fn fields_size(fs: Seq<Field>, n: int) -> Option<nat>
    decreases fs, n,
{
    if n <= 0 || n > fs.len() {
        Some(0)
    } else {
        opt_add(fields_size(fs, n - 1), wire_size(*fs[n - 1].value))
    }
}

/// The fixed size of the largest of the first `n` variants.
pub open spec fn variants_size(vs: Seq<Variant>, n: int) -> Option<nat>
    decreases vs, n,
{
    if n <= 0 || n > vs.len() {
        Some(0)
    } else {
        opt_max(
            variants_size(vs, n - 1),
            fields_size(vs[n - 1].fields@, vs[n - 1].fields@.len() as int),
        )
    }
}

/// Adds two sizes; `None` where either is `None` or the sum overflows.
fn maybe_add(a: Option<usize>, b: Option<usize>) -> (r: Option<usize>)
    ensures
        r == fit(
            opt_add(
                match a {
                    Some(x) => Some(x as nat),
                    None => None,
                },
                match b {
                    Some(x) => Some(x as nat),
                    None => None,
                },
            ),
        ),
{
    if let Some(a) = a {
        if let Some(b) = b {
            return a.checked_add(b);
        }
    }
    None
}

/// The larger of two sizes; `None` where either is `None`.
fn maybe_max(a: Option<usize>, b: Option<usize>) -> (r: Option<usize>)
    ensures
        r == fit(
            opt_max(
                match a {
                    Some(x) => Some(x as nat),
                    None => None,
                },
                match b {
                    Some(x) => Some(x as nat),
                    None => None,
                },
            ),
        ),
{
    if let Some(a) = a {
        if let Some(b) = b {
            return Some(if a >= b { a } else { b });
        }
    }
    None
}

/// The size as a plain optional number.
pub open spec fn unfit(a: Option<usize>) -> Option<nat> {
    match a {
        Some(x) => Some(x as nat),
        None => None,
    }
}

proof fn lemma_fit_add(x: Option<nat>, y: Option<nat>)
    ensures
        fit(opt_add(x, y)) == fit(opt_add(unfit(fit(x)), unfit(fit(y)))),
{
}

proof fn lemma_fit_max(x: Option<nat>, y: Option<nat>)
    ensures
        fit(opt_max(x, y)) == fit(opt_max(unfit(fit(x)), unfit(fit(y)))),
{
}

impl SchemaPrimitive {
    /// The Rust name of the primitive type.
    pub open spec fn spec_name(&self) -> &'static str {
        match *self {
            SchemaPrimitive::schema_i8 => "i8",
            SchemaPrimitive::schema_u8 => "u8",
            SchemaPrimitive::schema_i16 => "i16",
            SchemaPrimitive::schema_u16 => "u16",
            SchemaPrimitive::schema_i32 => "i32",
            SchemaPrimitive::schema_u32 => "u32",
            SchemaPrimitive::schema_i64 => "i64",
            SchemaPrimitive::schema_u64 => "u64",
            SchemaPrimitive::schema_string => "String",
            SchemaPrimitive::schema_f32 => "f32",
            SchemaPrimitive::schema_f64 => "f64",
            SchemaPrimitive::schema_bool => "bool",
        }
    }

    /// The Rust name of the primitive type, for diagnostics.
    pub fn name(&self) -> (r: &'static str)
        ensures
            r == self.spec_name(),
    {
        match *self {
            SchemaPrimitive::schema_i8 => "i8",
            SchemaPrimitive::schema_u8 => "u8",
            SchemaPrimitive::schema_i16 => "i16",
            SchemaPrimitive::schema_u16 => "u16",
            SchemaPrimitive::schema_i32 => "i32",
            SchemaPrimitive::schema_u32 => "u32",
            SchemaPrimitive::schema_i64 => "i64",
            SchemaPrimitive::schema_u64 => "u64",
            SchemaPrimitive::schema_string => "String",
            SchemaPrimitive::schema_f32 => "f32",
            SchemaPrimitive::schema_f64 => "f64",
            SchemaPrimitive::schema_bool => "bool",
        }
    }

    /// The number of bytes the primitive takes on the wire; `None` for a
    /// string, whose size depends on its value.
    pub fn serialized_size(&self) -> (r: Option<usize>)
        ensures
            r == fit(primitive_size(*self)),
    {
        match *self {
            SchemaPrimitive::schema_i8 | SchemaPrimitive::schema_u8 => Some(1),
            SchemaPrimitive::schema_i16 | SchemaPrimitive::schema_u16 => Some(2),
            SchemaPrimitive::schema_i32 | SchemaPrimitive::schema_u32 => Some(4),
            SchemaPrimitive::schema_i64 | SchemaPrimitive::schema_u64 => Some(8),
            SchemaPrimitive::schema_string => None,
            SchemaPrimitive::schema_f32 => Some(4),
            SchemaPrimitive::schema_f64 => Some(8),
            SchemaPrimitive::schema_bool => Some(1),
        }
    }
}

/// The summed size of the fields of `fs`, as `serialized_size` reports it.
fn fields_serialized_size(fs: &Vec<Field>) -> (r: Option<usize>)
    ensures
        r == fit(fields_size(fs@, fs@.len() as int)),
    decreases fs@, 0int,
{
    let mut acc: Option<usize> = Some(0);
    let mut i: usize = 0;
    while i < fs.len()
        invariant
            i <= fs@.len(),
            acc == fit(fields_size(fs@, i as int)),
        decreases fs@.len() - i,
    {
        let sz = fs[i].value.serialized_size();
        proof {
            lemma_fit_add(fields_size(fs@, i as int), wire_size(*fs@[i as int].value));
        }
        acc = maybe_add(acc, sz);
        i = i + 1;
    }
    acc
}

impl SchemaStruct {
    /// The fixed wire size of the aggregate: the sum of its fields' sizes.
    pub fn serialized_size(&self) -> (r: Option<usize>)
        ensures
            r == fit(fields_size(self.fields@, self.fields@.len() as int)),
        decreases self.fields@, 1int,
    {
        fields_serialized_size(&self.fields)
    }
}

impl Variant {
    /// The fixed wire size of the variant's fields together.
    pub fn serialized_size(&self) -> (r: Option<usize>)
        ensures
            r == fit(fields_size(self.fields@, self.fields@.len() as int)),
        decreases self.fields@, 1int,
    {
        fields_serialized_size(&self.fields)
    }
}

impl SchemaEnum {
    /// The fixed wire size of the largest variant.
    pub fn serialized_size(&self) -> (r: Option<usize>)
        ensures
            r == fit(variants_size(self.variants@, self.variants@.len() as int)),
        decreases self.variants@, 0int,
    {
        let mut acc: Option<usize> = Some(0);
        let mut i: usize = 0;
        while i < self.variants.len()
            invariant
                i <= self.variants@.len(),
                acc == fit(variants_size(self.variants@, i as int)),
            decreases self.variants@.len() - i,
        {
            let sz = self.variants[i].serialized_size();
            proof {
                let v = self.variants@[i as int];
                lemma_fit_max(
                    variants_size(self.variants@, i as int),
                    fields_size(v.fields@, v.fields@.len() as int),
                );
            }
            acc = maybe_max(acc, sz);
            i = i + 1;
        }
        acc
    }
}

impl Schema {
    /// The number of bytes every value of this schema takes on the wire, or
    /// `None` where it varies between values or does not fit in a `usize`.
    pub fn serialized_size(&self) -> (r: Option<usize>)
        ensures
            r == fit(wire_size(*self)),
        decreases *self, 2int,
    {
        match self {
            Schema::Struct(schema_struct) => schema_struct.serialized_size(),
            Schema::Enum(schema_enum) => schema_enum.serialized_size(),
            Schema::Primitive(schema_primitive) => schema_primitive.serialized_size(),
            Schema::Vector(_) => None,
            Schema::SchemaOption(_) => None,
            Schema::Undefined => None,
            Schema::ZeroSize => Some(0),
        }
    }
}


/// The decimal digits of `n`, most significant first.
pub open spec fn decimal(n: nat) -> Seq<char>
    decreases n,
{
    if n < 10 {
        seq![digit_char(n)]
    } else {
        decimal(n / 10).push(digit_char(n % 10))
    }
}

/// The character of the decimal digit `d`.
pub open spec fn digit_char(d: nat) -> char {
    if d == 0 {
        '0'
    } else if d == 1 {
        '1'
    } else if d == 2 {
        '2'
    } else if d == 3 {
        '3'
    } else if d == 4 {
        '4'
    } else if d == 5 {
        '5'
    } else if d == 6 {
        '6'
    } else if d == 7 {
        '7'
    } else if d == 8 {
        '8'
    } else {
        '9'
    }
}

/// `n` written in decimal.
pub fn usize_text(n: usize) -> (r: String)
    ensures
        r@ == decimal(n as nat),
    decreases n,
{
    let d = n % 10;
    let digit = if d == 0 {
        "0"
    } else if d == 1 {
        "1"
    } else if d == 2 {
        "2"
    } else if d == 3 {
        "3"
    } else if d == 4 {
        "4"
    } else if d == 5 {
        "5"
    } else if d == 6 {
        "6"
    } else if d == 7 {
        "7"
    } else if d == 8 {
        "8"
    } else {
        "9"
    };
    proof {
        reveal_strlit("0");
        reveal_strlit("1");
        reveal_strlit("2");
        reveal_strlit("3");
        reveal_strlit("4");
        reveal_strlit("5");
        reveal_strlit("6");
        reveal_strlit("7");
        reveal_strlit("8");
        reveal_strlit("9");
    }
    assert(digit@ == seq![digit_char(d as nat)]);
    if n < 10 {
        String::from_str(digit)
    } else {
        let r = usize_text(n / 10).concat(digit);
        assert(r@ =~= decimal(n as nat));
        r
    }
}

/// The first `n` of `parts`, one after the other.
pub open spec fn joined(parts: Seq<&str>, n: int) -> Seq<char>
    decreases n,
{
    if n <= 0 || n > parts.len() {
        Seq::empty()
    } else {
        joined(parts, n - 1) + parts[n - 1]@
    }
}

/// `a`, then each of `parts`, as one string.
fn join(a: &str, parts: &[&str]) -> (r: String)
    ensures
        r@ == a@ + joined(parts@, parts@.len() as int),
{
    let mut r = String::from_str(a);
    let mut i: usize = 0;
    while i < parts.len()
        invariant
            i <= parts@.len(),
            r@ == a@ + joined(parts@, i as int),
        decreases parts@.len() - i,
    {
        r = r.concat(parts[i]);
        assert(r@ =~= a@ + joined(parts@, i + 1));
        i = i + 1;
    }
    r
}

/// The start of every diff message: the location of the mismatch.
pub open spec fn location(path: Seq<char>) -> Seq<char> {
    "At location ["@ + path
}

proof fn lemma_prefix_append(a: Seq<char>, b: Seq<char>)
    ensures
        a.is_prefix_of(a + b),
{
    assert((a + b).subrange(0, a.len() as int) =~= a);
}

proof fn lemma_prefix_trans(a: Seq<char>, b: Seq<char>, c: Seq<char>)
    requires
        a.is_prefix_of(b),
        b.is_prefix_of(c),
    ensures
        a.is_prefix_of(c),
{
    assert(c.subrange(0, a.len() as int) =~= c.subrange(0, b.len() as int).subrange(0, a.len() as int));
}

/// The location of a path is where the location of any longer path begins.
proof fn lemma_location_extend(path: Seq<char>, suffix: Seq<char>)
    ensures
        location(path).is_prefix_of(location(path + suffix)),
{
    assert(location(path + suffix) =~= location(path) + suffix);
    lemma_prefix_append(location(path), suffix);
}

/// A diff message: the location of `path`, then each of `parts`.
fn located(path: &str, parts: &[&str]) -> (r: String)
    ensures
        r@ == location(path@) + joined(parts@, parts@.len() as int),
        location(path@).is_prefix_of(r@),
{
    let mut out = String::from_str("At location [").concat(path);
    let mut i: usize = 0;
    while i < parts.len()
        invariant
            i <= parts@.len(),
            out@ == location(path@) + joined(parts@, i as int),
        decreases parts@.len() - i,
    {
        out = out.concat(parts[i]);
        assert(out@ =~= location(path@) + joined(parts@, i + 1));
        i = i + 1;
    }
    proof {
        lemma_prefix_append(location(path@), joined(parts@, parts@.len() as int));
    }
    out
}

/// Reports a mismatch between two primitive kinds, if there is one.
fn diff_primitive(a: SchemaPrimitive, b: SchemaPrimitive, path: &str) -> (r: Option<String>)
    ensures
        r is None <==> a == b,
        r is Some ==> r->Some_0@ == "At location ["@ + path@ + "]: Application protocol has datatype "@
            + a.spec_name()@ + ", but disk format has "@ + b.spec_name()@,
        r is Some ==> location(path@).is_prefix_of(r->Some_0@),
{
    if a != b {
        let parts: [&str; 5] = [path, "]: Application protocol has datatype ", a.name(), ", but disk format has ", b.name()];
        let s = join("At location [", parts.as_slice());
        proof {
            reveal_with_fuel(joined, 6);
            assert(parts@.len() == 5);
        }
        assert(s@ =~= "At location ["@ + path@ + "]: Application protocol has datatype "@ + a.spec_name()@
            + ", but disk format has "@ + b.spec_name()@);
        assert(s@ =~= location(path@) + ("]: Application protocol has datatype "@ + a.spec_name()@
            + ", but disk format has "@ + b.spec_name()@));
        proof {
            lemma_prefix_append(location(path@), "]: Application protocol has datatype "@ + a.spec_name()@
                + ", but disk format has "@ + b.spec_name()@);
        }
        return Some(s);
    }
    None
}

/// Compares the element schemas of two sequences.
fn diff_vector(a: &Schema, b: &Schema, path: String) -> (r: Option<String>)
    ensures
        r is None <==> compatible(*a, *b),
        r is Some ==> location(path@ + "/*"@).is_prefix_of(r->Some_0@),
    decreases *a, 5int,
{
    diff_schema(a, b, path.concat("/*"))
}

/// Compares the inner schemas of two optional values.
fn diff_option(a: &Schema, b: &Schema, path: String) -> (r: Option<String>)
    ensures
        r is None <==> compatible(*a, *b),
        r is Some ==> location(path@ + "/?"@).is_prefix_of(r->Some_0@),
    decreases *a, 5int,
{
    diff_schema(a, b, path.concat("/?"))
}

/// Compares two enums: variant count, then each variant's name,
/// discriminator and fields, in order.
fn diff_enum(a: &SchemaEnum, b: &SchemaEnum, path: String) -> (r: Option<String>)
    ensures
        r is None <==> (a.variants@.len() == b.variants@.len() && variants_compatible(
            a.variants@,
            b.variants@,
            a.variants@.len() as int,
        )),
        r is Some ==> location(path@ + b.dbg_name@).is_prefix_of(r->Some_0@),
    decreases a.variants@, 0int,
{
    let ghost p0 = path@;
    let epath = path.concat(b.dbg_name.as_str());
    if a.variants.len() != b.variants.len() {
        let na = usize_text(a.variants.len());
        let nb = usize_text(b.variants.len());
        return Some(
            located(
                epath.as_str(),
                &[
                    "]: In memory enum has ",
                    na.as_str(),
                    " variants, but disk format has ",
                    nb.as_str(),
                    " variants.",
                ],
            ),
        );
    }
    let mut i: usize = 0;
    while i < a.variants.len()
        invariant
            i <= a.variants@.len(),
            a.variants@.len() == b.variants@.len(),
            variants_compatible(a.variants@, b.variants@, i as int),
            epath@ == p0 + b.dbg_name@,
            p0 == path@,
        decreases a.variants@.len() - i,
    {
        let va = &a.variants[i];
        let vb = &b.variants[i];
        proof {
            lemma_variants_prefix(a.variants@, b.variants@, i + 1, a.variants@.len() as int);
        }
        if !(va.name == vb.name) {
            let ni = usize_text(i);
            return Some(
                located(
                    epath.as_str(),
                    &[
                        "]: Enum variant #",
                        ni.as_str(),
                        " in memory is called ",
                        va.name.as_str(),
                        ", but in disk format it is called ",
                        vb.name.as_str(),
                    ],
                ),
            );
        }
        if va.discriminator != vb.discriminator {
            let ni = usize_text(i);
            let da = usize_text(va.discriminator as usize);
            let db = usize_text(vb.discriminator as usize);
            return Some(
                located(
                    epath.as_str(),
                    &[
                        "]: Enum variant #",
                        ni.as_str(),
                        " in memory has discriminator ",
                        da.as_str(),
                        ", but in disk format it has ",
                        db.as_str(),
                    ],
                ),
            );
        }
        let vpath = epath.clone().concat("/").concat(vb.name.as_str());
        let r = diff_fields(va.fields.as_slice(), vb.fields.as_slice(), vpath.as_str(), "enum", "", "");
        if r.is_some() {
            proof {
                lemma_location_extend(epath@, "/"@ + vb.name@);
                assert(epath@ + "/"@ + vb.name@ =~= epath@ + ("/"@ + vb.name@));
                lemma_prefix_trans(location(epath@), location(vpath@), r->Some_0@);
            }
            return r;
        }
        i = i + 1;
    }
    None
}

/// Compares two aggregates field by field.
fn diff_struct(a: &SchemaStruct, b: &SchemaStruct, path: String) -> (r: Option<String>)
    ensures
        r is None <==> (a.fields@.len() == b.fields@.len() && fields_compatible(
            a.fields@,
            b.fields@,
            a.fields@.len() as int,
        )),
        r is Some ==> location(path@ + "/"@ + b.dbg_name@).is_prefix_of(r->Some_0@),
    decreases a.fields@, 1int,
{
    let spath = path.concat("/").concat(b.dbg_name.as_str());
    let extra_a = join(" (struct ", &[a.dbg_name.as_str(), ")"]);
    let extra_b = join(" (struct ", &[b.dbg_name.as_str(), ")"]);
    diff_fields(
        a.fields.as_slice(),
        b.fields.as_slice(),
        spath.as_str(),
        "struct",
        extra_a.as_str(),
        extra_b.as_str(),
    )
}

/// Compares two field lists: their counts, then each pair by position.
/// Field names are not compared.
fn diff_fields(
    a: &[Field],
    b: &[Field],
    path: &str,
    structuretype: &str,
    extra_a: &str,
    extra_b: &str,
) -> (r: Option<String>)
    ensures
        r is None <==> (a@.len() == b@.len() && fields_compatible(a@, b@, a@.len() as int)),
        r is Some ==> location(path@).is_prefix_of(r->Some_0@),
    decreases a@, 0int,
{
    if a.len() != b.len() {
        let na = usize_text(a.len());
        let nb = usize_text(b.len());
        return Some(
            located(
                path,
                &[
                    "]: In memory ",
                    structuretype,
                    extra_a,
                    " has ",
                    na.as_str(),
                    " fields, disk format",
                    extra_b,
                    " has ",
                    nb.as_str(),
                    " fields.",
                ],
            ),
        );
    }
    let mut i: usize = 0;
    while i < a.len()
        invariant
            i <= a@.len(),
            a@.len() == b@.len(),
            fields_compatible(a@, b@, i as int),
        decreases a@.len() - i,
    {
        proof {
            lemma_fields_prefix(a@, b@, i + 1, a@.len() as int);
        }
        let fpath = String::from_str(path).concat("/").concat(b[i].name.as_str());
        let ghost fp = fpath@;
        let r = diff_schema(&a[i].value, &b[i].value, fpath);
        if r.is_some() {
            proof {
                lemma_location_extend(path@, "/"@ + b@[i as int].name@);
                assert(fp =~= path@ + ("/"@ + b@[i as int].name@));
                lemma_prefix_trans(location(path@), location(fp), r->Some_0@);
            }
            return r;
        }
        i = i + 1;
    }
    None
}

/// A short name for the shape of `s`, for diagnostics.
pub open spec fn spec_kind_name(s: Schema) -> &'static str {
    match s {
        Schema::Struct(_) => "struct",
        Schema::Enum(_) => "enum",
        Schema::Primitive(_) => "primitive",
        Schema::Vector(_) => "vector",
        Schema::SchemaOption(_) => "option",
        Schema::Undefined => "undefined",
        Schema::ZeroSize => "zerosize",
    }
}

/// The shape of `s`, as a number.
pub open spec fn kind_index(s: Schema) -> int {
    match s {
        Schema::Struct(_) => 1,
        Schema::Enum(_) => 2,
        Schema::Primitive(_) => 3,
        Schema::Vector(_) => 4,
        Schema::SchemaOption(_) => 5,
        Schema::Undefined => 6,
        Schema::ZeroSize => 7,
    }
}

/// A short name for the shape of `s`, for diagnostics.
fn kind_name(s: &Schema) -> (r: &'static str)
    ensures
        r == spec_kind_name(*s),
{
    match s {
        Schema::Struct(_) => "struct",
        Schema::Enum(_) => "enum",
        Schema::Primitive(_) => "primitive",
        Schema::Vector(_) => "vector",
        Schema::SchemaOption(_) => "option",
        Schema::Undefined => "undefined",
        Schema::ZeroSize => "zerosize",
    }
}

/// Describes the first difference between schema `a`, the one in memory,
/// and schema `b`, the one on disk; `None` when data written as `b` can be
/// read as `a`. `path` is the accessor trail reported in the message.
pub fn diff_schema(a: &Schema, b: &Schema, path: String) -> (r: Option<String>)
    ensures
        r is None <==> compatible(*a, *b),
        r is Some ==> location(path@).is_prefix_of(r->Some_0@),
        *a is Undefined ==> r is Some && r->Some_0@ == location(path@) + "]: Undefined schema encountered."@,
        !(*a is Undefined) && kind_index(*a) != kind_index(*b) ==> r is Some && r->Some_0@ == location(
            path@,
        ) + "]: In memory schema: "@ + spec_kind_name(*a)@ + ", file schema: "@ + spec_kind_name(*b)@,
        *a is Primitive && *b is Primitive && r is Some ==> r->Some_0@ == location(path@)
            + "]: Application protocol has datatype "@ + a->Primitive_0.spec_name()@
            + ", but disk format has "@ + b->Primitive_0.spec_name()@,
        *a is Struct && *b is Struct && r is Some ==> location(
            path@ + "/"@ + b->Struct_0.dbg_name@,
        ).is_prefix_of(r->Some_0@),
        *a is Enum && *b is Enum && r is Some ==> location(path@ + b->Enum_0.dbg_name@).is_prefix_of(
            r->Some_0@,
        ),
        *a is Vector && *b is Vector && r is Some ==> location(path@ + "/*"@).is_prefix_of(r->Some_0@),
        *a is SchemaOption && *b is SchemaOption && r is Some ==> location(path@ + "/?"@).is_prefix_of(
            r->Some_0@,
        ),
    decreases *a, 4int,
{
    match a {
        Schema::Struct(xa) => {
            if let Schema::Struct(xb) = b {
                return diff_struct(xa, xb, path);
            }
        },
        Schema::Enum(xa) => {
            if let Schema::Enum(xb) = b {
                return diff_enum(xa, xb, path);
            }
        },
        Schema::Primitive(xa) => {
            if let Schema::Primitive(xb) = b {
                return diff_primitive(*xa, *xb, path.as_str());
            }
        },
        Schema::SchemaOption(xa) => {
            if let Schema::SchemaOption(xb) = b {
                return diff_option(xa, xb, path);
            }
        },
        Schema::Vector(xa) => {
            if let Schema::Vector(xb) = b {
                return diff_vector(xa, xb, path);
            }
        },
        Schema::Undefined => {
            let parts: [&str; 1] = ["]: Undefined schema encountered."];
            let m = located(path.as_str(), parts.as_slice());
            proof {
                reveal_with_fuel(joined, 2);
            }
            assert(m@ =~= location(path@) + "]: Undefined schema encountered."@);
            return Some(m);
        },
        Schema::ZeroSize => {
            if let Schema::ZeroSize = b {
                return None;
            }
        },
    }
    let parts: [&str; 4] = ["]: In memory schema: ", kind_name(a), ", file schema: ", kind_name(b)];
    let m = located(path.as_str(), parts.as_slice());
    proof {
        reveal_with_fuel(joined, 5);
    }
    assert(m@ =~= location(path@) + "]: In memory schema: "@ + spec_kind_name(*a)@ + ", file schema: "@
        + spec_kind_name(*b)@);
    Some(m)
}

} // verus!
