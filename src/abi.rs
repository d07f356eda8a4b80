//! The cross-binary call protocol. A caller and a callee, built apart,
//! each describe the interface they were built from; the caller works out
//! once per connection which methods both sides agree on, marshals the
//! arguments of a call into bytes prefixed by its protocol version, and the
//! callee dispatches on the method number and answers through a byte-encoded
//! result.
use vstd::prelude::*;
use crate::error::SavefileError;
use crate::schema::{Schema, compatible, diff_schema};
use crate::value::{Value, ValueView, conforms, dec, enc, view_of, views, enc_all, decode_value, encode_value, lemma_round_trip};
use crate::wire::{
    Serializer,
    Deserializer,
    le_bytes,
    le_value,
    enc_str,
    string_ahead,
    string_payload,
    lemma_pow256_facts,
    lemma_le_value_bound,
};
use vstd::utf8::decode_utf8;

verus! {

broadcast use vstd::std_specs::vec::group_vec_axioms;

/// One method of an interface: its argument and return schemas, and whether
/// it takes its receiver mutably. Its method number is its position in the
/// interface.
pub struct AbiMethod {
    pub name: String,
    pub arguments: Vec<Schema>,
    pub return_value: Schema,
    pub mutable_receiver: bool,
}

/// An interface: its methods in declaration order.
pub struct AbiTraitDefinition {
    pub name: String,
    pub methods: Vec<AbiMethod>,
}

/// The requests the single entry point of an interface accepts.
#[derive(Clone, Copy, Debug, PartialEq, Eq)]
pub enum AbiProtocol {
    /// Return the interface's definition for a protocol version.
    QueryDefinition { version: u32 },
    /// Create an instance of the implementation.
    CreateInstance,
    /// Call method `method_number` on an instance.
    CallMethod { method_number: u16 },
    /// Destroy an instance created through the same entry point.
    DropInstance,
}

/// Who is responsible for destroying an instance handed across.
#[derive(Clone, Copy, Debug, PartialEq, Eq)]
pub enum Ownership {
    /// The receiving side owns the instance and must have it destroyed
    /// through the entry point of the side that made it.
    Owning,
    /// The receiving side only borrows the instance.
    Borrowed,
}

/// What the callee's entry point decided for a request.
#[derive(Clone, Copy, Debug, PartialEq, Eq)]
pub enum Dispatch {
    SendDefinition { version: u32 },
    Create,
    Invoke { method: usize },
    Destroy,
}

/// The argument schemas of `a` and `b` agree pairwise, for the first `n`.
pub open spec fn arguments_compatible(a: Seq<Schema>, b: Seq<Schema>, n: int) -> bool {
    forall|i: int| 0 <= i < n ==> compatible(#[trigger] a[i], b[i])
}

/// The caller's method `m` may be called on a callee whose method of the
/// same number is `c`: same receiver mutability, same number of arguments,
/// and compatible argument and return schemas.
pub open spec fn method_compatible(m: AbiMethod, c: AbiMethod) -> bool {
    &&& m.mutable_receiver == c.mutable_receiver
    &&& m.arguments@.len() == c.arguments@.len()
    &&& arguments_compatible(m.arguments@, c.arguments@, m.arguments@.len() as int)
    &&& compatible(m.return_value, c.return_value)
}

/// Method number `i` of the caller may be called on the callee.
pub open spec fn callable(caller: AbiTraitDefinition, callee: AbiTraitDefinition, i: int) -> bool {
    &&& 0 <= i < caller.methods@.len()
    &&& i < callee.methods@.len()
    &&& method_compatible(caller.methods@[i], callee.methods@[i])
}

/// The wire form of a call's arguments: the caller's protocol version on 4
/// bytes, then each argument.
pub open spec fn enc_call(version: u32, args: Seq<ValueView>) -> Seq<u8> {
    le_bytes(version as nat, 4) + enc_all(args, args.len() as int)
}

/// The wire form of a call's outcome: 0 and the return value, or 1 and the
/// error text.
pub open spec fn enc_outcome(outcome: Result<ValueView, Seq<char>>) -> Seq<u8> {
    match outcome {
        Ok(v) => seq![0u8] + enc(v),
        Err(m) => seq![1u8] + enc_str(m),
    }
}

/// Decodes the first `n` arguments, of schemas `schemas`, one after the
/// other from the start of `b`.
pub open spec fn dec_args(schemas: Seq<Schema>, n: int, b: Seq<u8>) -> Option<(Seq<ValueView>, nat)>
    decreases n,
{
    if n <= 0 || n > schemas.len() {
        Some((Seq::empty(), 0))
    } else {
        match dec_args(schemas, n - 1, b) {
            Some((vs, k)) => if k <= b.len() {
                match dec(schemas[n - 1], b.subrange(k as int, b.len() as int)) {
                    Some((v, k2)) => Some((vs.push(v), k + k2)),
                    None => None,
                }
            } else {
                None
            },
            None => None,
        }
    }
}

proof fn lemma_dec_args_none(schemas: Seq<Schema>, n: int, m: int, b: Seq<u8>)
    requires
        0 <= n <= m <= schemas.len(),
        dec_args(schemas, n, b) is None,
    ensures
        dec_args(schemas, m, b) is None,
    decreases m - n,
{
    if n < m {
        lemma_dec_args_none(schemas, n, m - 1, b);
    }
}

/// Decoding the encodings of arguments of the given schemas gives the
/// arguments back.
pub proof fn lemma_call_round_trip(schemas: Seq<Schema>, args: Seq<ValueView>, n: int, tail: Seq<u8>)
    requires
        0 <= n <= schemas.len(),
        args.len() == schemas.len(),
        forall|i: int| 0 <= i < args.len() ==> conforms(#[trigger] args[i], schemas[i]),
    ensures
        dec_args(schemas, n, enc_all(args, n) + tail) == Some((args.take(n), enc_all(args, n).len())),
    decreases n,
{
    if n == 0 {
        assert(args.take(0) =~= Seq::<ValueView>::empty());
    } else {
        let head = enc_all(args, n - 1);
        let last = enc(args[n - 1]);
        let b = enc_all(args, n) + tail;
        assert(b =~= head + (last + tail));
        lemma_call_round_trip(schemas, args, n - 1, last + tail);
        assert(b.subrange(head.len() as int, b.len() as int) =~= last + tail);
        lemma_round_trip(schemas[n - 1], args[n - 1], tail);
        assert(args.take(n - 1).push(args[n - 1]) =~= args.take(n));
    }
}

/// Whether `m` and `c` agree, as `method_compatible` says.
fn check_method(m: &AbiMethod, c: &AbiMethod) -> (r: bool)
    ensures
        r == method_compatible(*m, *c),
{
    if m.mutable_receiver != c.mutable_receiver {
        return false;
    }
    if m.arguments.len() != c.arguments.len() {
        return false;
    }
    let mut i: usize = 0;
    while i < m.arguments.len()
        invariant
            i <= m.arguments@.len() == c.arguments@.len(),
            arguments_compatible(m.arguments@, c.arguments@, i as int),
        decreases m.arguments@.len() - i,
    {
        if diff_schema(&m.arguments[i], &c.arguments[i], String::from_str("")).is_some() {
            return false;
        }
        i = i + 1;
    }
    diff_schema(&m.return_value, &c.return_value, String::from_str("")).is_none()
}

/// For each method of the caller's interface, whether it may be called on
/// the callee. Worked out once per connection: a method found incompatible
/// stays disabled, and only a call to it fails.
pub fn compatibility_mask(caller: &AbiTraitDefinition, callee: &AbiTraitDefinition) -> (r: Vec<bool>)
    ensures
        r@.len() == caller.methods@.len(),
        forall|i: int| 0 <= i < r@.len() ==> r@[i] == callable(*caller, *callee, i),
{
    let mut mask: Vec<bool> = Vec::new();
    let mut i: usize = 0;
    while i < caller.methods.len()
        invariant
            i <= caller.methods@.len(),
            mask@.len() == i,
            forall|j: int| 0 <= j < i ==> mask@[j] == callable(*caller, *callee, j),
        decreases caller.methods@.len() - i,
    {
        let ok = i < callee.methods.len() && check_method(&caller.methods[i], &callee.methods[i]);
        mask.push(ok);
        i = i + 1;
    }
    mask
}

/// The caller's side of a connection to an implementation built apart.
pub struct Connection {
    pub caller: AbiTraitDefinition,
    pub callee: AbiTraitDefinition,
    pub mask: Vec<bool>,
    pub version: u32,
}

impl Connection {
    /// The mask is the one the two definitions give.
    pub open spec fn wf(&self) -> bool {
        &&& self.mask@.len() == self.caller.methods@.len()
        &&& forall|i: int|
            0 <= i < self.mask@.len() ==> #[trigger] self.mask@[i] == callable(self.caller, self.callee, i)
    }

    /// A connection between the caller's interface and the callee's, at the
    /// caller's protocol `version`.
    pub fn new(caller: AbiTraitDefinition, callee: AbiTraitDefinition, version: u32) -> (r: Connection)
        ensures
            r.wf(),
            r.caller == caller,
            r.callee == callee,
            r.version == version,
    {
        let mask = compatibility_mask(&caller, &callee);
        Connection { caller, callee, mask, version }
    }

    /// Marshals a call of method `method_number`: the caller's protocol
    /// version, then the arguments. An unknown method number, a method that
    /// the callee does not define compatibly, or a wrong number of arguments
    /// is a `Protocol` error, not a crash.
    pub fn prepare_call(&self, method_number: u16, args: &Vec<Value>) -> (r: Result<Vec<u8>, SavefileError>)
        requires
            self.wf(),
        ensures
            r is Ok <==> callable(self.caller, self.callee, method_number as int) && args@.len()
                == self.caller.methods@[method_number as int].arguments@.len(),
            r is Err ==> r->Err_0 is Protocol,
            r is Ok ==> r->Ok_0@ == enc_call(self.version, views(args@)),
    {
        let m = method_number as usize;
        if m >= self.mask.len() {
            return Err(SavefileError::Protocol { message: String::from_str("unknown method number") });
        }
        if !self.mask[m] {
            return Err(
                SavefileError::Protocol {
                    message: String::from_str("the callee does not define this method compatibly"),
                },
            );
        }
        if args.len() != self.caller.methods[m].arguments.len() {
            return Err(SavefileError::Protocol { message: String::from_str("wrong number of arguments") });
        }
        let mut serializer = Serializer::new(self.version);
        let _ = serializer.write_u32(self.version);
        let ghost w = views(args@);
        let ghost start = serializer.bytes@;
        let mut i: usize = 0;
        while i < args.len()
            invariant
                i <= args@.len(),
                w == views(args@),
                w.len() == args@.len(),
                start == le_bytes(self.version as nat, 4),
                serializer.bytes@ == start + enc_all(w, i as int),
            decreases args@.len() - i,
        {
            let _ = encode_value(&args[i], &mut serializer);
            assert(w[i as int] == view_of(args@[i as int]));
            assert(serializer.bytes@ =~= start + enc_all(w, i + 1));
            i = i + 1;
        }
        Ok(serializer.bytes)
    }

    /// Reads the outcome the callee delivered for a call of method
    /// `method_number`: its return value, or its error as a `Protocol`
    /// error. Bytes that hold neither are a `Protocol` error too.
    pub fn read_outcome(&self, method_number: u16, bytes: Vec<u8>) -> (r: Result<Value, SavefileError>)
        requires
            self.wf(),
            callable(self.caller, self.callee, method_number as int),
        ensures
            r is Err ==> r->Err_0 is Protocol,
            bytes@.len() >= 1 && bytes@[0] == 0 ==> match dec(
                self.caller.methods@[method_number as int].return_value,
                bytes@.subrange(1, bytes@.len() as int),
            ) {
                Some((v, _)) => r is Ok && view_of(r->Ok_0) == v,
                None => r is Err,
            },
            bytes@.len() >= 1 && bytes@[0] != 0 ==> r is Err,
            bytes@.len() >= 1 && bytes@[0] != 0 && string_ahead(bytes@.subrange(1, bytes@.len() as int))
                ==> (r matches Err(SavefileError::Protocol { message }) && message@ == decode_utf8(
                string_payload(bytes@.subrange(1, bytes@.len() as int)),
            )),
            bytes@.len() == 0 ==> r is Err,
    {
        let ghost all = bytes@;
        let mut d = Deserializer::new(bytes, self.version, self.version);
        let tag = match d.read_u8() {
            Ok(t) => t,
            Err(_) => {
                return Err(SavefileError::Protocol { message: String::from_str("empty result") });
            },
        };
        assert(d.rest() =~= all.subrange(1, all.len() as int));
        if tag == 0 {
            match decode_value(&self.caller.methods[method_number as usize].return_value, &mut d) {
                Ok(v) => Ok(v),
                Err(_) => Err(SavefileError::Protocol { message: String::from_str("corrupt return value") }),
            }
        } else {
            match d.read_string() {
                Ok(m) => Err(SavefileError::Protocol { message: m }),
                Err(_) => Err(SavefileError::Protocol { message: String::from_str("corrupt error result") }),
            }
        }
    }
}

/// The callee's entry point: decides what a request asks of an
/// implementation of `definition`. A call of a method number the
/// definition does not have is a `Protocol` error, not a crash.
pub fn dispatch(definition: &AbiTraitDefinition, request: AbiProtocol) -> (r: Result<Dispatch, SavefileError>)
    ensures
        match request {
            AbiProtocol::QueryDefinition { version } => r == Ok::<Dispatch, SavefileError>(
                Dispatch::SendDefinition { version },
            ),
            AbiProtocol::CreateInstance => r == Ok::<Dispatch, SavefileError>(Dispatch::Create),
            AbiProtocol::DropInstance => r == Ok::<Dispatch, SavefileError>(Dispatch::Destroy),
            AbiProtocol::CallMethod { method_number } => if (method_number as int)
                < definition.methods@.len() {
                r == Ok::<Dispatch, SavefileError>(Dispatch::Invoke { method: method_number as usize })
            } else {
                r is Err && r->Err_0 is Protocol
            },
        },
{
    match request {
        AbiProtocol::QueryDefinition { version } => Ok(Dispatch::SendDefinition { version }),
        AbiProtocol::CreateInstance => Ok(Dispatch::Create),
        AbiProtocol::DropInstance => Ok(Dispatch::Destroy),
        AbiProtocol::CallMethod { method_number } => {
            if (method_number as usize) < definition.methods.len() {
                Ok(Dispatch::Invoke { method: method_number as usize })
            } else {
                Err(SavefileError::Protocol { message: String::from_str("unknown method number") })
            }
        },
    }
}

/// The callee's side of a call: reads the caller's protocol version and
/// the arguments of method `method`, as the callee's definition describes
/// them. Bytes that do not hold them are a `Protocol` error.
pub fn decode_call(definition: &AbiTraitDefinition, method: usize, bytes: Vec<u8>) -> (r: Result<
    (u32, Vec<Value>),
    SavefileError,
>)
    requires
        method < definition.methods@.len(),
    ensures
        r is Err ==> r->Err_0 is Protocol,
        bytes@.len() < 4 ==> r is Err,
        bytes@.len() >= 4 ==> match dec_args(
            definition.methods@[method as int].arguments@,
            definition.methods@[method as int].arguments@.len() as int,
            bytes@.subrange(4, bytes@.len() as int),
        ) {
            Some((vs, _)) => r is Ok && r->Ok_0.0 as nat == le_value(bytes@.subrange(0, 4)) && views(
                r->Ok_0.1@,
            ) == vs,
            None => r is Err,
        },
{
    let ghost all = bytes@;
    let mut d = Deserializer::new(bytes, 0, 0);
    proof {
        lemma_pow256_facts();
        if all.len() >= 4 {
            lemma_le_value_bound(all.subrange(0, 4));
        }
    }
    let version = match d.read_u32() {
        Ok(v) => v,
        Err(_) => {
            return Err(SavefileError::Protocol { message: String::from_str("missing version header") });
        },
    };
    d.file_version = version;
    let ghost b = all.subrange(4, all.len() as int);
    assert(d.rest() =~= b);
    let ghost start_pos = d.pos;
    let m = &definition.methods[method];
    let mut args: Vec<Value> = Vec::new();
    let mut i: usize = 0;
    while i < m.arguments.len()
        invariant
            i <= m.arguments@.len(),
            d.wf(),
            d.data@ == all,
            start_pos == 4,
            start_pos <= d.pos,
            all == bytes@,
            m.arguments@ == definition.methods@[method as int].arguments@,
            b == all.subrange(4, all.len() as int),
            dec_args(m.arguments@, i as int, b) == Some((views(args@), (d.pos - start_pos) as nat)),
        decreases m.arguments@.len() - i,
    {
        assert(d.rest() =~= b.subrange(d.pos - start_pos, b.len() as int));
        match decode_value(&m.arguments[i], &mut d) {
            Ok(v) => {
                let ghost prev = args@;
                args.push(v);
                assert(views(args@) =~= views(prev).push(view_of(v)));
            },
            Err(_) => {
                proof {
                    lemma_dec_args_none(m.arguments@, i + 1, m.arguments@.len() as int, b);
                    assert(b == bytes@.subrange(4, bytes@.len() as int));
                }
                return Err(SavefileError::Protocol { message: String::from_str("corrupt call arguments") });
            },
        }
        i = i + 1;
    }
    Ok((version, args))
}

/// The callee's answer to a call: 0 and the return value, or 1 and the
/// error text. It is handed to the caller's receiver, never returned
/// across the boundary.
pub fn encode_outcome(outcome: &Result<Value, String>) -> (r: Vec<u8>)
    ensures
        r@ == enc_outcome(
            match outcome {
                Ok(v) => Ok(view_of(*v)),
                Err(m) => Err(m@),
            },
        ),
{
    let mut serializer = Serializer::new(0);
    match outcome {
        Ok(v) => {
            serializer.bytes.push(0u8);
            let _ = encode_value(v, &mut serializer);
        },
        Err(m) => {
            serializer.bytes.push(1u8);
            let _ = serializer.write_string(m.as_str());
        },
    }
    assert(serializer.bytes@ =~= enc_outcome(
        match outcome {
            Ok(v) => Ok(view_of(*v)),
            Err(m) => Err(m@),
        },
    ));
    serializer.bytes
}

/// Whether the side that receives an instance must have it destroyed
/// through the entry point of the side that made it.
pub fn must_request_drop(ownership: Ownership) -> (r: bool)
    ensures
        r == (ownership == Ownership::Owning),
{
    match ownership {
        Ownership::Owning => true,
        Ownership::Borrowed => false,
    }
}

} // verus!
