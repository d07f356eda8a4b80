//! The byte codec: fixed-width little-endian integers, booleans,
//! length-prefixed strings and raw byte runs, written to a growable buffer
//! and read back from a byte slice with a cursor.
use vstd::prelude::*;
use crate::error::SavefileError;
use vstd::utf8::{encode_utf8, decode_utf8, valid_utf8};

verus! {

/// `256` raised to the power `n`.
pub open spec fn pow256(n: nat) -> nat
    decreases n,
{
    if n == 0 {
        1
    } else {
        256 * pow256((n - 1) as nat)
    }
}

/// The `n` low-order bytes of `v`, least significant first.
pub open spec fn le_bytes(v: nat, n: nat) -> Seq<u8>
    decreases n,
{
    if n == 0 {
        Seq::empty()
    } else {
        seq![(v % 256) as u8] + le_bytes(v / 256, (n - 1) as nat)
    }
}

/// The unsigned number whose little-endian bytes are `s`.
pub open spec fn le_value(s: Seq<u8>) -> nat
    decreases s.len(),
{
    if s.len() == 0 {
        0
    } else {
        s[0] as nat + 256 * le_value(s.drop_first())
    }
}

/// Two's complement of `v` on `n` bytes, as an unsigned number.
pub open spec fn twos(v: int, n: nat) -> nat {
    if v < 0 {
        (v + pow256(n)) as nat
    } else {
        v as nat
    }
}

/// The signed number whose two's complement on `n` bytes is `u`.
pub open spec fn from_twos(u: nat, n: nat) -> int {
    if 2 * u >= pow256(n) {
        u - pow256(n)
    } else {
        u as int
    }
}

/// Wire form of an unsigned integer of `n` bytes.
pub open spec fn enc_uint(v: nat, n: nat) -> Seq<u8> {
    le_bytes(v, n)
}

/// Wire form of a signed integer of `n` bytes.
pub open spec fn enc_int(v: int, n: nat) -> Seq<u8> {
    le_bytes(twos(v, n), n)
}

/// Wire form of a boolean: one byte, 1 for true and 0 for false.
pub open spec fn enc_bool(b: bool) -> Seq<u8> {
    if b {
        seq![1u8]
    } else {
        seq![0u8]
    }
}

/// Wire form of a byte string: its length on 8 bytes, then the bytes.
pub open spec fn enc_len_prefixed(b: Seq<u8>) -> Seq<u8> {
    le_bytes(b.len(), 8) + b
}

/// Wire form of a text: its UTF-8 bytes, prefixed by their count.
pub open spec fn enc_str(s: Seq<char>) -> Seq<u8> {
    enc_len_prefixed(encode_utf8(s))
}

pub(crate) proof fn lemma_pow256_facts()
    ensures
        pow256(0) == 1,
        pow256(1) == 256,
        pow256(2) == 65536,
        pow256(4) == 0x1_0000_0000,
        pow256(8) == 0x1_0000_0000_0000_0000,
{
    reveal_with_fuel(pow256, 9);
}

pub(crate) proof fn lemma_pow256_positive(n: nat)
    ensures
        pow256(n) >= 1,
    decreases n,
{
    if n > 0 {
        lemma_pow256_positive((n - 1) as nat);
    }
}

/// Reading back the `n` bytes of `v` gives `v`.
pub(crate) proof fn lemma_le_round_trip(v: nat, n: nat)
    requires
        v < pow256(n),
    ensures
        le_bytes(v, n).len() == n,
        le_value(le_bytes(v, n)) == v,
    decreases n,
{
    if n == 0 {
    } else {
        let p = pow256((n - 1) as nat);
        assert(v / 256 < p) by (nonlinear_arith)
            requires
                v < 256 * p,
        ;
        lemma_le_round_trip(v / 256, (n - 1) as nat);
        let s = le_bytes(v, n);
        assert(s.drop_first() =~= le_bytes(v / 256, (n - 1) as nat));
        assert(v == (v % 256) + 256 * (v / 256)) by (nonlinear_arith);
    }
}

/// The value of `n` bytes is below `256` to the power `n`.
pub(crate) proof fn lemma_le_value_bound(s: Seq<u8>)
    ensures
        le_value(s) < pow256(s.len()),
    decreases s.len(),
{
    if s.len() > 0 {
        lemma_le_value_bound(s.drop_first());
        let r = le_value(s.drop_first());
        let p = pow256((s.len() - 1) as nat);
        assert(s[0] as nat + 256 * r < 256 * p) by (nonlinear_arith)
            requires
                r < p,
                s[0] < 256,
        ;
    }
}

/// Two's complement round trip for values that fit in `n` bytes.
pub(crate) proof fn lemma_twos_round_trip(v: int, n: nat)
    requires
        n >= 1,
        -pow256(n) <= 2 * v < pow256(n),
    ensures
        twos(v, n) < pow256(n),
        from_twos(twos(v, n), n) == v,
{
}

/// A growable byte sink, tagged with the protocol version of what is written.
pub struct Serializer {
    pub bytes: Vec<u8>,
    pub version: u32,
}

/// A byte source with a read cursor, the version of the data being read and
/// the version of the data structures in memory.
pub struct Deserializer {
    pub data: Vec<u8>,
    pub pos: usize,
    pub file_version: u32,
    pub memory_version: u32,
}

impl Serializer {
    /// A serializer with an empty buffer, writing at `version`.
    pub fn new(version: u32) -> (r: Serializer)
        ensures
            r.bytes@ == Seq::<u8>::empty(),
            r.version == version,
    {
        Serializer { bytes: Vec::new(), version }
    }

    /// A serializer for protocol version 0, used for the schema block.
    pub fn new_raw() -> (r: Serializer)
        ensures
            r.bytes@ == Seq::<u8>::empty(),
            r.version == 0,
    {
        Serializer { bytes: Vec::new(), version: 0 }
    }

    /// Appends the `n` low-order bytes of `v`, least significant first.
    pub fn write_uint(&mut self, v: u64, n: usize)
        requires
            n <= 8,
            v < pow256(n as nat),
        ensures
            final(self).bytes@ == old(self).bytes@ + le_bytes(v as nat, n as nat),
            final(self).version == old(self).version,
    {
        let ghost start = self.bytes@;
        let mut x: u64 = v;
        let mut i: usize = 0;
        while i < n
            invariant
                i <= n,
                self.version == old(self).version,
                start == old(self).bytes@,
                start + le_bytes(v as nat, n as nat) == self.bytes@ + le_bytes(
                    x as nat,
                    (n - i) as nat,
                ),
            decreases n - i,
        {
            let ghost before = self.bytes@;
            let ghost rest = le_bytes((x / 256) as nat, (n - i - 1) as nat);
            assert(le_bytes(x as nat, (n - i) as nat) == seq![(x % 256) as u8] + rest);
            self.bytes.push((x % 256) as u8);
            assert(before + (seq![(x % 256) as u8] + rest) =~= self.bytes@ + rest);
            x = x / 256;
            i = i + 1;
        }
        assert(self.bytes@ + le_bytes(x as nat, 0) =~= self.bytes@);
    }

    /// Appends the two's complement of `v` on `n` bytes.
    fn write_int(&mut self, v: i64, n: usize)
        requires
            n == 1 || n == 2 || n == 4 || n == 8,
            -pow256(n as nat) <= 2 * v < pow256(n as nat),
        ensures
            final(self).bytes@ == old(self).bytes@ + enc_int(v as int, n as nat),
            final(self).version == old(self).version,
    {
        proof {
            lemma_pow256_facts();
            lemma_twos_round_trip(v as int, n as nat);
        }
        let m: i128 = if n == 1 {
            256
        } else if n == 2 {
            65536
        } else if n == 4 {
            0x1_0000_0000
        } else {
            0x1_0000_0000_0000_0000
        };
        assert(m == pow256(n as nat));
        let u: u64 = if v < 0 {
            (v as i128 + m) as u64
        } else {
            v as u64
        };
        self.write_uint(u, n);
    }

    pub fn write_bool(&mut self, v: bool) -> (r: Result<(), SavefileError>)
        ensures
            r is Ok,
            final(self).bytes@ == old(self).bytes@ + enc_bool(v),
            final(self).version == old(self).version,
    {
        self.bytes.push(if v { 1u8 } else { 0u8 });
        Ok(())
    }

    pub fn write_u8(&mut self, v: u8) -> (r: Result<(), SavefileError>)
        ensures
            r is Ok,
            final(self).bytes@ == old(self).bytes@ + enc_uint(v as nat, 1),
            final(self).version == old(self).version,
    {
        proof {
            lemma_pow256_facts();
        }
        self.write_uint(v as u64, 1);
        Ok(())
    }

    pub fn write_i8(&mut self, v: i8) -> (r: Result<(), SavefileError>)
        ensures
            r is Ok,
            final(self).bytes@ == old(self).bytes@ + enc_int(v as int, 1),
            final(self).version == old(self).version,
    {
        proof {
            lemma_pow256_facts();
        }
        self.write_int(v as i64, 1);
        Ok(())
    }

    pub fn write_u16(&mut self, v: u16) -> (r: Result<(), SavefileError>)
        ensures
            r is Ok,
            final(self).bytes@ == old(self).bytes@ + enc_uint(v as nat, 2),
            final(self).version == old(self).version,
    {
        proof {
            lemma_pow256_facts();
        }
        self.write_uint(v as u64, 2);
        Ok(())
    }

    pub fn write_i16(&mut self, v: i16) -> (r: Result<(), SavefileError>)
        ensures
            r is Ok,
            final(self).bytes@ == old(self).bytes@ + enc_int(v as int, 2),
            final(self).version == old(self).version,
    {
        proof {
            lemma_pow256_facts();
        }
        self.write_int(v as i64, 2);
        Ok(())
    }

    pub fn write_u32(&mut self, v: u32) -> (r: Result<(), SavefileError>)
        ensures
            r is Ok,
            final(self).bytes@ == old(self).bytes@ + enc_uint(v as nat, 4),
            final(self).version == old(self).version,
    {
        proof {
            lemma_pow256_facts();
        }
        self.write_uint(v as u64, 4);
        Ok(())
    }

    pub fn write_i32(&mut self, v: i32) -> (r: Result<(), SavefileError>)
        ensures
            r is Ok,
            final(self).bytes@ == old(self).bytes@ + enc_int(v as int, 4),
            final(self).version == old(self).version,
    {
        proof {
            lemma_pow256_facts();
        }
        self.write_int(v as i64, 4);
        Ok(())
    }

    pub fn write_u64(&mut self, v: u64) -> (r: Result<(), SavefileError>)
        ensures
            r is Ok,
            final(self).bytes@ == old(self).bytes@ + enc_uint(v as nat, 8),
            final(self).version == old(self).version,
    {
        proof {
            lemma_pow256_facts();
        }
        self.write_uint(v, 8);
        Ok(())
    }

    pub fn write_i64(&mut self, v: i64) -> (r: Result<(), SavefileError>)
        ensures
            r is Ok,
            final(self).bytes@ == old(self).bytes@ + enc_int(v as int, 8),
            final(self).version == old(self).version,
    {
        proof {
            lemma_pow256_facts();
        }
        self.write_int(v, 8);
        Ok(())
    }

    /// Writes a `usize` as an 8-byte unsigned integer.
    pub fn write_usize(&mut self, v: usize) -> (r: Result<(), SavefileError>)
        ensures
            r is Ok,
            final(self).bytes@ == old(self).bytes@ + enc_uint(v as nat, 8),
            final(self).version == old(self).version,
    {
        self.write_u64(v as u64)
    }

    /// Writes an `isize` as an 8-byte signed integer.
    pub fn write_isize(&mut self, v: isize) -> (r: Result<(), SavefileError>)
        ensures
            r is Ok,
            final(self).bytes@ == old(self).bytes@ + enc_int(v as int, 8),
            final(self).version == old(self).version,
    {
        self.write_i64(v as i64)
    }

    /// Appends the bytes of `v` as they are, with no length prefix.
    pub fn write_buf(&mut self, v: &[u8]) -> (r: Result<(), SavefileError>)
        ensures
            r is Ok,
            final(self).bytes@ == old(self).bytes@ + v@,
            final(self).version == old(self).version,
    {
        let mut i: usize = 0;
        while i < v.len()
            invariant
                i <= v@.len(),
                self.version == old(self).version,
                self.bytes@ == old(self).bytes@ + v@.subrange(0, i as int),
            decreases v@.len() - i,
        {
            self.bytes.push(v[i]);
            assert(v@.subrange(0, i + 1) =~= v@.subrange(0, i as int).push(v@[i as int]));
            i = i + 1;
        }
        assert(v@.subrange(0, i as int) =~= v@);
        Ok(())
    }

    /// Appends the bytes of `v` as they are, with no length prefix.
    pub fn write_bytes(&mut self, v: &[u8]) -> (r: Result<(), SavefileError>)
        ensures
            r is Ok,
            final(self).bytes@ == old(self).bytes@ + v@,
            final(self).version == old(self).version,
    {
        self.write_buf(v)
    }

    /// Writes the UTF-8 bytes of `v`, prefixed by their count on 8 bytes.
    pub fn write_string(&mut self, v: &str) -> (r: Result<(), SavefileError>)
        ensures
            r is Ok,
            final(self).bytes@ == old(self).bytes@ + enc_str(v@),
            final(self).version == old(self).version,
    {
        let asb = v.as_bytes();
        self.write_usize(asb.len());
        self.write_buf(asb);
        assert(self.bytes@ =~= old(self).bytes@ + enc_str(v@));
        Ok(())
    }
}

impl Deserializer {
    /// The cursor lies within the data.
    pub open spec fn wf(&self) -> bool {
        self.pos <= self.data@.len()
    }

    /// The bytes not read yet.
    pub open spec fn rest(&self) -> Seq<u8> {
        self.data@.subrange(self.pos as int, self.data@.len() as int)
    }

    /// The reader moved on by `n` bytes and changed nothing else.
    pub open spec fn advanced(&self, before: &Deserializer, n: nat) -> bool {
        &&& self.data@ == before.data@
        &&& self.pos == before.pos + n
        &&& self.file_version == before.file_version
        &&& self.memory_version == before.memory_version
    }

    /// A reader over `data`, from its start, with the given versions.
    pub fn new(data: Vec<u8>, file_version: u32, memory_version: u32) -> (r: Deserializer)
        ensures
            r.wf(),
            r.data@ == data@,
            r.pos == 0,
            r.rest() == data@,
            r.file_version == file_version,
            r.memory_version == memory_version,
    {
        let r = Deserializer { data, pos: 0, file_version, memory_version };
        assert(r.rest() =~= r.data@);
        r
    }

    /// A reader over `data` for protocol version 0, used for the schema block.
    pub fn new_raw(data: Vec<u8>) -> (r: Deserializer)
        ensures
            r.wf(),
            r.data@ == data@,
            r.pos == 0,
            r.rest() == data@,
            r.file_version == 0,
            r.memory_version == 0,
    {
        Deserializer::new(data, 0, 0)
    }

    /// Reads `n` little-endian bytes as an unsigned number.
    pub fn read_uint(&mut self, n: usize) -> (r: Result<u64, SavefileError>)
        requires
            old(self).wf(),
            n <= 8,
        ensures
            final(self).wf(),
            n <= old(self).rest().len() ==> r == Ok::<u64, SavefileError>(
                le_value(old(self).rest().subrange(0, n as int)) as u64,
            ) && final(self).advanced(old(self), n as nat) && le_value(
                old(self).rest().subrange(0, n as int),
            ) < pow256(n as nat),
            n > old(self).rest().len() ==> r is Err && r->Err_0 is IOError && final(self).advanced(
                old(self),
                0,
            ),
    {
        if n > self.data.len() - self.pos {
            return Err(SavefileError::IOError { message: String::from_str("unexpected end of data") });
        }
        let ghost s = self.rest().subrange(0, n as int);
        proof {
            lemma_le_value_bound(s);
            lemma_pow256_facts();
            lemma_pow256_mono(n as nat, 8);
        }
        let len = self.data.len();
        let mut acc: u64 = 0;
        let mut i: usize = n;
        while i > 0
            invariant
                i <= n <= 8,
                self.pos + n <= self.data@.len(),
                len == self.data@.len(),
                s == self.data@.subrange(self.pos as int, self.pos + n),
                acc as nat == le_value(s.subrange(i as int, n as int)),
                le_value(s) < pow256(n as nat),
                pow256(n as nat) <= pow256(8),
                pow256(8) == 0x1_0000_0000_0000_0000,
            decreases i,
        {
            let b = self.data[self.pos + (i - 1)];
            let ghost t = s.subrange(i - 1, n as int);
            assert(t.drop_first() =~= s.subrange(i as int, n as int));
            assert(t[0] == b);
            proof {
                lemma_le_value_bound(t);
                lemma_pow256_mono(t.len(), 8);
            }
            acc = acc * 256 + b as u64;
            i = i - 1;
        }
        assert(s.subrange(0, n as int) =~= s);
        self.pos = self.pos + n;
        Ok(acc)
    }

    /// Reads `n` little-endian bytes as a two's complement number.
    fn read_int(&mut self, n: usize) -> (r: Result<i64, SavefileError>)
        requires
            old(self).wf(),
            n == 1 || n == 2 || n == 4 || n == 8,
        ensures
            final(self).wf(),
            n <= old(self).rest().len() ==> r == Ok::<i64, SavefileError>(
                from_twos(le_value(old(self).rest().subrange(0, n as int)), n as nat) as i64,
            ) && final(self).advanced(old(self), n as nat) && -pow256(n as nat) <= 2 * from_twos(
                le_value(old(self).rest().subrange(0, n as int)),
                n as nat,
            ) < pow256(n as nat),
            n > old(self).rest().len() ==> r is Err && r->Err_0 is IOError && final(self).advanced(
                old(self),
                0,
            ),
    {
        proof {
            lemma_pow256_facts();
        }
        let u = self.read_uint(n)?;
        let m: i128 = if n == 1 {
            256
        } else if n == 2 {
            65536
        } else if n == 4 {
            0x1_0000_0000
        } else {
            0x1_0000_0000_0000_0000
        };
        assert(m == pow256(n as nat));
        if 2 * (u as i128) >= m {
            Ok((u as i128 - m) as i64)
        } else {
            Ok(u as i64)
        }
    }

    pub fn read_u8(&mut self) -> (r: Result<u8, SavefileError>)
        requires
            old(self).wf(),
        ensures
            final(self).wf(),
            1 <= old(self).rest().len() ==> r == Ok::<u8, SavefileError>(old(self).rest()[0])
                && final(self).advanced(old(self), 1),
            1 > old(self).rest().len() ==> r is Err && r->Err_0 is IOError && final(self).advanced(
                old(self),
                0,
            ),
    {
        proof {
            lemma_pow256_facts();
        }
        let v = self.read_uint(1)?;
        proof {
            let s = old(self).rest().subrange(0, 1);
            assert(s.drop_first() =~= Seq::<u8>::empty());
        }
        Ok(v as u8)
    }

    pub fn read_bool(&mut self) -> (r: Result<bool, SavefileError>)
        requires
            old(self).wf(),
        ensures
            final(self).wf(),
            1 <= old(self).rest().len() ==> r == Ok::<bool, SavefileError>(old(self).rest()[0] == 1)
                && final(self).advanced(old(self), 1),
            1 > old(self).rest().len() ==> r is Err && r->Err_0 is IOError && final(self).advanced(
                old(self),
                0,
            ),
    {
        let v = self.read_u8()?;
        Ok(v == 1)
    }

    pub fn read_u16(&mut self) -> (r: Result<u16, SavefileError>)
        requires
            old(self).wf(),
        ensures
            final(self).wf(),
            2 <= old(self).rest().len() ==> r == Ok::<u16, SavefileError>(
                le_value(old(self).rest().subrange(0, 2)) as u16,
            ) && final(self).advanced(old(self), 2),
            2 > old(self).rest().len() ==> r is Err && r->Err_0 is IOError && final(self).advanced(
                old(self),
                0,
            ),
    {
        proof {
            lemma_pow256_facts();
        }
        let v = self.read_uint(2)?;
        Ok(v as u16)
    }

    pub fn read_u32(&mut self) -> (r: Result<u32, SavefileError>)
        requires
            old(self).wf(),
        ensures
            final(self).wf(),
            4 <= old(self).rest().len() ==> r == Ok::<u32, SavefileError>(
                le_value(old(self).rest().subrange(0, 4)) as u32,
            ) && final(self).advanced(old(self), 4),
            4 > old(self).rest().len() ==> r is Err && r->Err_0 is IOError && final(self).advanced(
                old(self),
                0,
            ),
    {
        proof {
            lemma_pow256_facts();
        }
        let v = self.read_uint(4)?;
        Ok(v as u32)
    }

    pub fn read_u64(&mut self) -> (r: Result<u64, SavefileError>)
        requires
            old(self).wf(),
        ensures
            final(self).wf(),
            8 <= old(self).rest().len() ==> r == Ok::<u64, SavefileError>(
                le_value(old(self).rest().subrange(0, 8)) as u64,
            ) && final(self).advanced(old(self), 8),
            8 > old(self).rest().len() ==> r is Err && r->Err_0 is IOError && final(self).advanced(
                old(self),
                0,
            ),
    {
        self.read_uint(8)
    }

    pub fn read_i8(&mut self) -> (r: Result<i8, SavefileError>)
        requires
            old(self).wf(),
        ensures
            final(self).wf(),
            1 <= old(self).rest().len() ==> r == Ok::<i8, SavefileError>(
                from_twos(le_value(old(self).rest().subrange(0, 1)), 1) as i8,
            ) && final(self).advanced(old(self), 1),
            1 > old(self).rest().len() ==> r is Err && r->Err_0 is IOError && final(self).advanced(
                old(self),
                0,
            ),
    {
        proof {
            lemma_pow256_facts();
        }
        let v = self.read_int(1)?;
        Ok(v as i8)
    }

    pub fn read_i16(&mut self) -> (r: Result<i16, SavefileError>)
        requires
            old(self).wf(),
        ensures
            final(self).wf(),
            2 <= old(self).rest().len() ==> r == Ok::<i16, SavefileError>(
                from_twos(le_value(old(self).rest().subrange(0, 2)), 2) as i16,
            ) && final(self).advanced(old(self), 2),
            2 > old(self).rest().len() ==> r is Err && r->Err_0 is IOError && final(self).advanced(
                old(self),
                0,
            ),
    {
        proof {
            lemma_pow256_facts();
        }
        let v = self.read_int(2)?;
        Ok(v as i16)
    }

    pub fn read_i32(&mut self) -> (r: Result<i32, SavefileError>)
        requires
            old(self).wf(),
        ensures
            final(self).wf(),
            4 <= old(self).rest().len() ==> r == Ok::<i32, SavefileError>(
                from_twos(le_value(old(self).rest().subrange(0, 4)), 4) as i32,
            ) && final(self).advanced(old(self), 4),
            4 > old(self).rest().len() ==> r is Err && r->Err_0 is IOError && final(self).advanced(
                old(self),
                0,
            ),
    {
        proof {
            lemma_pow256_facts();
        }
        let v = self.read_int(4)?;
        Ok(v as i32)
    }

    pub fn read_i64(&mut self) -> (r: Result<i64, SavefileError>)
        requires
            old(self).wf(),
        ensures
            final(self).wf(),
            8 <= old(self).rest().len() ==> r == Ok::<i64, SavefileError>(
                from_twos(le_value(old(self).rest().subrange(0, 8)), 8) as i64,
            ) && final(self).advanced(old(self), 8),
            8 > old(self).rest().len() ==> r is Err && r->Err_0 is IOError && final(self).advanced(
                old(self),
                0,
            ),
    {
        self.read_int(8)
    }

    /// Reads an 8-byte unsigned integer as a `usize`; one that does not fit
    /// in a `usize` on this machine is an error.
    pub fn read_usize(&mut self) -> (r: Result<usize, SavefileError>)
        requires
            old(self).wf(),
        ensures
            final(self).wf(),
            8 <= old(self).rest().len() && le_value(old(self).rest().subrange(0, 8)) <= usize::MAX
                ==> r == Ok::<usize, SavefileError>(
                le_value(old(self).rest().subrange(0, 8)) as usize,
            ) && final(self).advanced(old(self), 8),
            8 <= old(self).rest().len() && le_value(old(self).rest().subrange(0, 8)) > usize::MAX
                ==> r is Err && r->Err_0 is IOError && final(self).advanced(old(self), 8),
            8 > old(self).rest().len() ==> r is Err && r->Err_0 is IOError && final(self).advanced(
                old(self),
                0,
            ),
    {
        proof {
            lemma_pow256_facts();
            lemma_le_value_bound(old(self).rest().subrange(0, 8));
        }
        let v = self.read_u64()?;
        if v > usize::MAX as u64 {
            return Err(SavefileError::IOError { message: String::from_str("length does not fit in memory") });
        }
        Ok(v as usize)
    }

    /// Reads an 8-byte signed integer as an `isize`; one that does not fit
    /// in an `isize` on this machine is an error.
    pub fn read_isize(&mut self) -> (r: Result<isize, SavefileError>)
        requires
            old(self).wf(),
        ensures
            final(self).wf(),
            8 <= old(self).rest().len() && isize::MIN <= from_twos(
                le_value(old(self).rest().subrange(0, 8)),
                8,
            ) <= isize::MAX ==> r == Ok::<isize, SavefileError>(
                from_twos(le_value(old(self).rest().subrange(0, 8)), 8) as isize,
            ) && final(self).advanced(old(self), 8),
            8 <= old(self).rest().len() && !(isize::MIN <= from_twos(
                le_value(old(self).rest().subrange(0, 8)),
                8,
            ) <= isize::MAX) ==> r is Err && r->Err_0 is IOError,
            8 > old(self).rest().len() ==> r is Err && r->Err_0 is IOError && final(self).advanced(
                old(self),
                0,
            ),
    {
        proof {
            lemma_pow256_facts();
            if 8 <= old(self).rest().len() {
                lemma_le_value_bound(old(self).rest().subrange(0, 8));
            }
        }
        let v = self.read_i64()?;
        if v > isize::MAX as i64 || v < isize::MIN as i64 {
            return Err(SavefileError::IOError { message: String::from_str("value does not fit in an isize") });
        }
        Ok(v as isize)
    }

    /// Reads the next `len` bytes as they are.
    pub fn read_bytes(&mut self, len: usize) -> (r: Result<Vec<u8>, SavefileError>)
        requires
            old(self).wf(),
        ensures
            final(self).wf(),
            len <= old(self).rest().len() ==> r is Ok && r->Ok_0@ == old(self).rest().subrange(
                0,
                len as int,
            ) && final(self).advanced(old(self), len as nat),
            len > old(self).rest().len() ==> r is Err && r->Err_0 is IOError && final(self).advanced(
                old(self),
                0,
            ),
    {
        if len > self.data.len() - self.pos {
            return Err(SavefileError::IOError { message: String::from_str("unexpected end of data") });
        }
        let dlen = self.data.len();
        let mut v: Vec<u8> = Vec::new();
        let mut i: usize = 0;
        while i < len
            invariant
                i <= len,
                dlen == self.data@.len(),
                self.pos + len <= self.data@.len(),
                v@ == self.data@.subrange(self.pos as int, self.pos + i),
            decreases len - i,
        {
            v.push(self.data[self.pos + i]);
            assert(v@ =~= self.data@.subrange(self.pos as int, self.pos + i + 1));
            i = i + 1;
        }
        assert(v@ =~= old(self).rest().subrange(0, len as int));
        self.pos = self.pos + len;
        Ok(v)
    }

    /// Reads a text written by `write_string`: its byte count on 8 bytes,
    /// then that many bytes of UTF-8.
    pub fn read_string(&mut self) -> (r: Result<String, SavefileError>)
        requires
            old(self).wf(),
        ensures
            final(self).wf(),
            final(self).data@ == old(self).data@,
            final(self).file_version == old(self).file_version,
            final(self).memory_version == old(self).memory_version,
            string_ahead(old(self).rest()) ==> r is Ok && r->Ok_0@ == decode_utf8(
                string_payload(old(self).rest()),
            ) && final(self).advanced(old(self), 8 + string_payload(old(self).rest()).len()),
            !string_ahead(old(self).rest()) ==> r is Err,
            r is Err && !string_fits(old(self).rest()) ==> r->Err_0 is IOError,
            r is Err && string_fits(old(self).rest()) ==> r->Err_0 is InvalidUtf8,
    {
        let ghost r0 = self.rest();
        let l = self.read_usize()?;
        assert(self.rest() =~= r0.subrange(8, r0.len() as int));
        let v = self.read_bytes(l)?;
        assert(v@ =~= string_payload(r0));
        match utf8_to_string(v) {
            Some(s) => Ok(s),
            None => Err(SavefileError::InvalidUtf8 { msg: String::from_str("invalid utf-8 in string") }),
        }
    }

}

/// The byte count that a string written at the start of `s` declares.
pub open spec fn string_len(s: Seq<u8>) -> nat {
    le_value(s.subrange(0, 8))
}

/// `s` starts with a byte count that fits in memory and that many bytes.
pub open spec fn string_fits(s: Seq<u8>) -> bool {
    &&& 8 <= s.len()
    &&& string_len(s) <= usize::MAX
    &&& 8 + string_len(s) <= s.len()
}

/// The payload bytes of the string at the start of `s`.
pub open spec fn string_payload(s: Seq<u8>) -> Seq<u8> {
    s.subrange(8, 8 + string_len(s) as int)
}

/// `s` starts with a complete, valid UTF-8 string.
pub open spec fn string_ahead(s: Seq<u8>) -> bool {
    string_fits(s) && valid_utf8(string_payload(s))
}

/// Relies on `String::from_utf8`: it succeeds exactly on valid UTF-8, and
/// then holds the characters that the bytes encode.
#[verifier::external_body]
fn utf8_to_string(b: Vec<u8>) -> (r: Option<String>)
    ensures
        r is Some <==> valid_utf8(b@),
        r is Some ==> r->Some_0@ == decode_utf8(b@),
{
    String::from_utf8(b).ok()
}

/// Writing back the value of some bytes gives those bytes.
pub(crate) proof fn lemma_le_bytes_of_value(s: Seq<u8>)
    ensures
        le_bytes(le_value(s), s.len()) == s,
    decreases s.len(),
{
    if s.len() > 0 {
        let t = s.drop_first();
        lemma_le_bytes_of_value(t);
        let v = le_value(s);
        let r = le_value(t);
        assert(v % 256 == s[0] as nat && v / 256 == r) by (nonlinear_arith)
            requires
                v == s[0] as nat + 256 * r,
                s[0] < 256,
        ;
        assert(le_bytes(v, s.len()) =~= s);
    }
}

/// A valid string at the start of `b` is the wire form of the text it
/// decodes to.
pub(crate) proof fn lemma_string_prefix(b: Seq<u8>)
    requires
        string_ahead(b),
    ensures
        b.subrange(0, 8 + string_len(b) as int) == enc_str(decode_utf8(string_payload(b))),
{
    let p = string_payload(b);
    vstd::utf8::decode_utf8_encode_utf8(p);
    lemma_le_bytes_of_value(b.subrange(0, 8));
    assert(b.subrange(0, 8 + string_len(b) as int) =~= b.subrange(0, 8) + p);
}

/// A byte string that begins with the wire form of a text whose UTF-8
/// bytes fit in memory holds that string ahead.
pub(crate) proof fn lemma_string_complete(b: Seq<u8>, t: Seq<char>)
    requires
        encode_utf8(t).len() <= usize::MAX,
        enc_str(t).len() <= b.len(),
        b.subrange(0, enc_str(t).len() as int) == enc_str(t),
    ensures
        string_ahead(b),
        8 + string_len(b) == enc_str(t).len(),
        decode_utf8(string_payload(b)) == t,
{
    let u = encode_utf8(t);
    lemma_pow256_facts();
    lemma_le_round_trip(u.len(), 8);
    assert(b.subrange(0, 8) =~= enc_str(t).subrange(0, 8));
    assert(enc_str(t).subrange(0, 8) =~= le_bytes(u.len(), 8));
    assert(string_payload(b) =~= u) by {
        assert(string_payload(b) =~= enc_str(t).subrange(8, 8 + u.len() as int));
    }
    vstd::utf8::encode_utf8_valid_utf8(t);
    vstd::utf8::encode_utf8_decode_utf8(t);
}

/// Powers of 256 grow with the exponent.
pub(crate) proof fn lemma_pow256_mono(a: nat, b: nat)
    requires
        a <= b,
    ensures
        pow256(a) <= pow256(b),
    decreases b - a,
{
    if a < b {
        lemma_pow256_mono(a, (b - 1) as nat);
        lemma_pow256_positive((b - 1) as nat);
    }
}

} // verus!
