//! Bit vectors of the `bit-vec` crate on the wire: the number of bits, the
//! number of bytes, then the bits packed eight to a byte, first bit in the
//! high-order position.
use vstd::prelude::*;
use bit_vec::BitVec;
use crate::error::SavefileError;
use crate::schema::{Field, Schema, SchemaPrimitive, SchemaStruct};
use crate::schema_codec::{enc_schema, enc_field, enc_fields};
use crate::traits::WithSchema;
use crate::wire::{Serializer, Deserializer, le_bytes, le_value, enc_str};

verus! {

#[verifier::external_type_specification]
#[verifier::external_body]
#[verifier::reject_recursive_types(B)]
pub struct ExBitVec<B>(BitVec<B>);

/// The bits a bit vector holds, in order.
pub uninterp spec fn bits_of(v: BitVec) -> Seq<bool>;

/// The weight of the bit at position `k` of a byte, counted from the
/// high-order end.
pub open spec fn bit_weight(k: int) -> int {
    if k == 0 {
        128
    } else if k == 1 {
        64
    } else if k == 2 {
        32
    } else if k == 3 {
        16
    } else if k == 4 {
        8
    } else if k == 5 {
        4
    } else if k == 6 {
        2
    } else {
        1
    }
}

/// Bit `i` of `b`, counting from the high-order bit of the first byte.
pub open spec fn byte_bit(b: Seq<u8>, i: int) -> bool {
    (b[i / 8] as int / bit_weight(i % 8)) % 2 == 1
}

/// `b` holds `bits` eight to a byte, first bit high-order, with the unused
/// low-order bits of the last byte clear.
pub open spec fn packs(bits: Seq<bool>, b: Seq<u8>) -> bool {
    &&& b.len() == (bits.len() + 7) / 8
    &&& forall|i: int| 0 <= i < 8 * b.len() ==> #[trigger] byte_bit(b, i) == (i < bits.len() && bits[i])
}

/// The first `n` bits held in `b`.
pub open spec fn unpack(b: Seq<u8>, n: nat) -> Seq<bool> {
    Seq::new(n, |i: int| byte_bit(b, i))
}

/// Relies on `BitVec::len`: the number of bits.
#[verifier::external_body]
fn bitvec_len(v: &BitVec) -> (r: usize)
    ensures
        r == bits_of(*v).len(),
{
    v.len()
}

/// Relies on `BitVec::to_bytes`: the bits eight to a byte, the first bit
/// the high-order bit of the first byte, trailing bits filled with false.
#[verifier::external_body]
fn bitvec_to_bytes(v: &BitVec) -> (r: Vec<u8>)
    ensures
        packs(bits_of(*v), r@),
{
    v.to_bytes()
}

/// Relies on `BitVec::from_bytes`: eight bits per byte, most significant
/// first. It panics when the bit count overflows a `usize`.
#[verifier::external_body]
fn bitvec_from_bytes(b: &[u8]) -> (r: BitVec)
    requires
        8 * b@.len() <= usize::MAX,
    ensures
        bits_of(r) == unpack(b@, 8 * b@.len()),
{
    BitVec::from_bytes(b)
}

/// Relies on `BitVec::truncate`: keeps the first `len` bits; a longer
/// `len` changes nothing.
#[verifier::external_body]
fn bitvec_truncate(v: &mut BitVec, len: usize)
    ensures
        bits_of(*final(v)) == if len < bits_of(*old(v)).len() {
            bits_of(*old(v)).take(len as int)
        } else {
            bits_of(*old(v))
        },
{
    v.truncate(len)
}

/// Unpacking what packs a bit sequence gives the sequence back.
pub proof fn lemma_bitvec_round_trip(bits: Seq<bool>, b: Seq<u8>)
    requires
        packs(bits, b),
    ensures
        8 * b.len() >= bits.len(),
        unpack(b, bits.len()) == bits,
{
    assert(unpack(b, bits.len()) =~= bits) by {
        assert forall|i: int| 0 <= i < bits.len() implies unpack(b, bits.len())[i] == bits[i] by {
            assert(byte_bit(b, i) == (i < bits.len() && bits[i]));
        }
    }
}

/// Writes the bit vector: its bit count, its byte count, then the packed
/// bytes.
pub fn serialize_bitvec(v: &BitVec, serializer: &mut Serializer) -> (r: Result<(), SavefileError>)
    ensures
        r is Ok,
        final(serializer).version == old(serializer).version,
        exists|b: Seq<u8>|
            #[trigger] packs(bits_of(*v), b) && final(serializer).bytes@ == old(serializer).bytes@
                + le_bytes(bits_of(*v).len(), 8) + le_bytes(b.len(), 8) + b,
{
    let l = bitvec_len(v);
    let _ = serializer.write_usize(l);
    let bytes = bitvec_to_bytes(v);
    let _ = serializer.write_usize(bytes.len());
    let _ = serializer.write_bytes(bytes.as_slice());
    assert(packs(bits_of(*v), bytes@));
    assert(serializer.bytes@ =~= old(serializer).bytes@ + le_bytes(bits_of(*v).len(), 8) + le_bytes(
        bytes@.len() as nat,
        8,
    ) + bytes@);
    Ok(())
}

/// The bit count, byte count and packed bytes at the start of `s` are all
/// there and fit in memory.
pub open spec fn bitvec_ahead(s: Seq<u8>) -> bool {
    &&& s.len() >= 16
    &&& le_value(s.subrange(0, 8)) <= usize::MAX
    &&& le_value(s.subrange(8, 16)) <= usize::MAX
    &&& 16 + le_value(s.subrange(8, 16)) <= s.len()
    &&& 8 * le_value(s.subrange(8, 16)) <= usize::MAX
}

/// The bits that a bit vector at the start of `s` holds: the bit count
/// given first, or every bit of the bytes if they hold fewer.
pub open spec fn bitvec_bits(s: Seq<u8>) -> Seq<bool> {
    let n = le_value(s.subrange(0, 8));
    let m = le_value(s.subrange(8, 16));
    let payload = s.subrange(16, 16 + m as int);
    if n < 8 * m {
        unpack(payload, n)
    } else {
        unpack(payload, 8 * m)
    }
}

/// Reads a bit vector written by `serialize_bitvec`.
pub fn deserialize_bitvec(deserializer: &mut Deserializer) -> (r: Result<BitVec, SavefileError>)
    requires
        old(deserializer).wf(),
    ensures
        final(deserializer).wf(),
        final(deserializer).data@ == old(deserializer).data@,
        bitvec_ahead(old(deserializer).rest()) <==> r is Ok,
        r is Ok ==> bits_of(r->Ok_0) == bitvec_bits(old(deserializer).rest()),
        r is Ok ==> final(deserializer).pos == old(deserializer).pos + 16 + le_value(
            old(deserializer).rest().subrange(8, 16),
        ),
{
    let ghost s = deserializer.rest();
    let numbits = deserializer.read_usize()?;
    assert(deserializer.rest() =~= s.subrange(8, s.len() as int));
    proof {
        if s.len() >= 16 {
            assert(deserializer.rest().subrange(0, 8) =~= s.subrange(8, 16));
        }
    }
    let numbytes = deserializer.read_usize()?;
    assert(deserializer.rest() =~= s.subrange(16, s.len() as int));
    let bytes = deserializer.read_bytes(numbytes)?;
    assert(bytes@ =~= s.subrange(16, 16 + numbytes));
    if numbytes > usize::MAX / 8 {
        return Err(SavefileError::OutOfMemory { message: String::from_str("bit vector too large") });
    }
    let mut ret = bitvec_from_bytes(bytes.as_slice());
    bitvec_truncate(&mut ret, numbits);
    proof {
        let n = numbits as nat;
        let m8 = 8 * numbytes as nat;
        if n < m8 {
            assert(unpack(bytes@, m8).take(n as int) =~= unpack(bytes@, n));
        }
    }
    Ok(ret)
}

impl WithSchema for BitVec {
    /// An aggregate "BitVec" of the bit count, the byte count and the
    /// packed bytes.
    open spec fn schema_bytes(version: u32) -> Seq<u8> {
        seq![1u8] + enc_str("BitVec"@) + le_bytes(3, 8) + enc_str("num_bits"@) + seq![3u8, 8u8]
            + enc_str("num_bytes"@) + seq![3u8, 8u8] + enc_str("buffer"@) + seq![4u8, 3u8, 2u8]
    }

    fn schema(version: u32) -> (r: Schema) {
        let mut fields: Vec<Field> = Vec::new();
        fields.push(
            Field {
                name: String::from_str("num_bits"),
                value: Box::new(Schema::Primitive(SchemaPrimitive::schema_u64)),
            },
        );
        fields.push(
            Field {
                name: String::from_str("num_bytes"),
                value: Box::new(Schema::Primitive(SchemaPrimitive::schema_u64)),
            },
        );
        fields.push(
            Field {
                name: String::from_str("buffer"),
                value: Box::new(Schema::Vector(Box::new(Schema::Primitive(SchemaPrimitive::schema_u8)))),
            },
        );
        let r = Schema::Struct(SchemaStruct { dbg_name: String::from_str("BitVec"), fields });
        proof {
            let fs = r->Struct_0.fields@;
            assert(enc_fields(fs, 0) == Seq::<u8>::empty());
            assert(enc_fields(fs, 1) == enc_fields(fs, 0) + enc_field(fs[0]));
            assert(enc_fields(fs, 2) == enc_fields(fs, 1) + enc_field(fs[1]));
            assert(enc_fields(fs, 3) == enc_fields(fs, 2) + enc_field(fs[2]));
        }
        assert(enc_schema(r) =~= Self::schema_bytes(version));
        r
    }
}

} // verus!
