//! The layout optimizer. From each field's place in memory it decides, per
//! protocol version, whether an aggregate may be written as one copy of its
//! memory, and groups runs of adjacent fields into single copies otherwise.
//! A `true` answer is a promise that is later read back by a raw copy, so
//! every test here errs on the side of `false`.
use vstd::prelude::*;
use crate::versions::MAX_VERSION;

verus! {

/// Where one field of an aggregate lies in memory, and what the field's
/// declaration says about its versions.
#[derive(Clone, Copy, Debug)]
pub struct FieldLayout {
    /// Byte offset of the field from the start of the aggregate.
    pub offset: usize,
    /// Size of the field's type in bytes.
    pub size: usize,
    /// The field's type has the same bytes in memory as on the wire in the
    /// version at hand.
    pub type_reprc: bool,
    pub version_from: u32,
    pub version_to: u32,
    /// The field only keeps the place of one that no longer exists.
    pub removed: bool,
    /// The field is never written.
    pub ignored: bool,
}

/// The memory layout of an aggregate: its total size and its fields in
/// declaration order.
pub struct StructLayout {
    pub size: usize,
    pub fields: Vec<FieldLayout>,
}

/// One step of writing an aggregate's fields.
#[derive(Clone, Copy, Debug)]
pub enum WriteStep {
    /// Copy the memory of fields `first` to `last`, both included, at once.
    BulkRegion { first: usize, last: usize },
    /// Write one field through its own encoding.
    SingleField { index: usize },
}

/// The field exists in every version.
pub open spec fn full_range(f: FieldLayout) -> bool {
    f.version_from == 0 && f.version_to == MAX_VERSION
}

/// The field is written in version `v`.
pub open spec fn written_at(f: FieldLayout, v: u32) -> bool {
    !f.ignored && f.version_from <= v <= f.version_to
}

/// The field's bytes end where the next field's begin.
pub open spec fn adjacent(fs: Seq<FieldLayout>, k: int) -> bool {
    fs[k].offset + fs[k].size == fs[k + 1].offset
}

/// The fields have no gap between them, and none at either end of the
/// aggregate.
pub open spec fn packed(l: StructLayout) -> bool {
    let fs = l.fields@;
    fs.len() > 0 ==> {
        &&& fs[0].offset == 0
        &&& forall|k: int| 0 <= k < fs.len() - 1 ==> #[trigger] adjacent(fs, k)
        &&& fs[fs.len() - 1].offset + fs[fs.len() - 1].size == l.size
    }
}

/// In version `v` the field's wire bytes are exactly its memory: a live
/// field that is written and whose type is safe, or a removed field that
/// is not written and takes no memory.
pub open spec fn field_reprc(f: FieldLayout, v: u32) -> bool {
    &&& !f.ignored
    &&& if f.removed {
        !written_at(f, v) && f.size == 0
    } else {
        written_at(f, v) && f.type_reprc
    }
}

/// In version `v` the whole aggregate may be written as one copy of its
/// memory.
pub open spec fn reprc_safe(l: StructLayout, v: u32) -> bool {
    &&& packed(l)
    &&& forall|i: int| 0 <= i < l.fields@.len() ==> field_reprc(#[trigger] l.fields@[i], v)
}

/// The memory of field `i` within the aggregate's memory `mem`.
pub open spec fn field_memory(fs: Seq<FieldLayout>, mem: Seq<u8>, i: int) -> Seq<u8> {
    mem.subrange(fs[i].offset as int, fs[i].offset + fs[i].size)
}

/// The indices, in order, of the first `n` fields written in version `v`.
pub open spec fn written_indices(fs: Seq<FieldLayout>, v: u32, n: int) -> Seq<int>
    decreases n,
{
    if n <= 0 || n > fs.len() {
        Seq::empty()
    } else if written_at(fs[n - 1], v) {
        written_indices(fs, v, n - 1).push(n - 1)
    } else {
        written_indices(fs, v, n - 1)
    }
}

/// The wire bytes of the fields listed in `idx`, one after the other;
/// `wire[i]` is the wire form of field `i`.
pub open spec fn concat_wire(wire: Seq<Seq<u8>>, idx: Seq<int>) -> Seq<u8>
    decreases idx.len(),
{
    if idx.len() == 0 {
        Seq::empty()
    } else {
        concat_wire(wire, idx.drop_last()) + wire[idx.last()]
    }
}

/// What writing the fields one by one produces in version `v`.
pub open spec fn field_path_bytes(l: StructLayout, wire: Seq<Seq<u8>>, v: u32) -> Seq<u8> {
    concat_wire(wire, written_indices(l.fields@, v, l.fields@.len() as int))
}

/// The wire form of every field whose type is safe is its memory.
pub open spec fn wire_matches_memory(fs: Seq<FieldLayout>, mem: Seq<u8>, wire: Seq<Seq<u8>>) -> bool {
    &&& wire.len() == fs.len()
    &&& forall|i: int|
        0 <= i < fs.len() && fs[i].type_reprc && !fs[i].removed ==> #[trigger] wire[i] == field_memory(
            fs,
            mem,
            i,
        )
    &&& forall|i: int| 0 <= i < fs.len() ==> fs[i].offset + fs[i].size <= mem.len()
}

/// The indices `a` to `b`, both included.
pub open spec fn range_seq(a: int, b: int) -> Seq<int> {
    Seq::new((b - a + 1) as nat, |k: int| a + k)
}

/// The fields a step writes.
pub open spec fn step_indices(s: WriteStep) -> Seq<int> {
    match s {
        WriteStep::BulkRegion { first, last } => range_seq(first as int, last as int),
        WriteStep::SingleField { index } => seq![index as int],
    }
}

/// The fields a plan writes, in order.
pub open spec fn flatten(plan: Seq<WriteStep>) -> Seq<int>
    decreases plan.len(),
{
    if plan.len() == 0 {
        Seq::empty()
    } else {
        flatten(plan.drop_last()) + step_indices(plan.last())
    }
}

/// The field may take part in a memory copy: it exists in every version,
/// is written, is live and has a safe type.
pub open spec fn bulkable(f: FieldLayout) -> bool {
    &&& !f.ignored
    &&& full_range(f)
    &&& f.type_reprc
    &&& !f.removed
}

/// Fields `k` and `k + 1` may be copied together.
pub open spec fn mergeable(fs: Seq<FieldLayout>, k: int) -> bool {
    bulkable(fs[k]) && bulkable(fs[k + 1]) && adjacent(fs, k)
}

/// The step copies fields `k` and `k + 1` together.
pub open spec fn covers(s: WriteStep, k: int) -> bool {
    match s {
        WriteStep::BulkRegion { first, last } => first <= k && k + 1 <= last,
        WriteStep::SingleField { .. } => false,
    }
}

/// Some step of the plan copies fields `k` and `k + 1` together.
pub open spec fn merged(plan: Seq<WriteStep>, k: int) -> bool {
    exists|q: int| 0 <= q < plan.len() && #[trigger] covers(plan[q], k)
}

/// Fields `a` to `b` are adjacent in memory and may each take part in a
/// memory copy.
pub open spec fn region_ok(fs: Seq<FieldLayout>, a: int, b: int) -> bool {
    &&& 0 <= a < b < fs.len()
    &&& forall|k: int| a <= k < b ==> #[trigger] adjacent(fs, k)
    &&& forall|k: int| a <= k <= b ==> bulkable(#[trigger] fs[k])
}

/// Every bulk step of the plan copies a valid region.
pub open spec fn plan_ok(fs: Seq<FieldLayout>, plan: Seq<WriteStep>) -> bool {
    forall|j: int|
        0 <= j < plan.len() ==> match #[trigger] plan[j] {
            WriteStep::BulkRegion { first, last } => region_ok(fs, first as int, last as int),
            WriteStep::SingleField { index } => 0 <= index < fs.len(),
        }
}

/// What carrying out a step produces from the aggregate's memory `mem`.
pub open spec fn step_bytes(fs: Seq<FieldLayout>, mem: Seq<u8>, wire: Seq<Seq<u8>>, s: WriteStep) -> Seq<u8> {
    match s {
        WriteStep::BulkRegion { first, last } => mem.subrange(
            fs[first as int].offset as int,
            fs[last as int].offset + fs[last as int].size,
        ),
        WriteStep::SingleField { index } => wire[index as int],
    }
}

/// What carrying out a plan produces from the aggregate's memory `mem`.
pub open spec fn plan_bytes(fs: Seq<FieldLayout>, mem: Seq<u8>, wire: Seq<Seq<u8>>, plan: Seq<WriteStep>) -> Seq<u8>
    decreases plan.len(),
{
    if plan.len() == 0 {
        Seq::empty()
    } else {
        plan_bytes(fs, mem, wire, plan.drop_last()) + step_bytes(fs, mem, wire, plan.last())
    }
}

proof fn lemma_concat_wire_append(wire: Seq<Seq<u8>>, a: Seq<int>, b: Seq<int>)
    ensures
        concat_wire(wire, a + b) == concat_wire(wire, a) + concat_wire(wire, b),
    decreases b.len(),
{
    if b.len() == 0 {
        assert(a + b =~= a);
        assert(concat_wire(wire, a) + Seq::<u8>::empty() =~= concat_wire(wire, a));
    } else {
        assert((a + b).drop_last() =~= a + b.drop_last());
        lemma_concat_wire_append(wire, a, b.drop_last());
        assert(concat_wire(wire, a + b) =~= concat_wire(wire, a) + concat_wire(wire, b));
    }
}

proof fn lemma_concat_wire_one(wire: Seq<Seq<u8>>, i: int)
    ensures
        concat_wire(wire, seq![i]) == wire[i],
{
    let one = seq![i];
    assert(one.drop_last() =~= Seq::<int>::empty());
    assert(concat_wire(wire, one.drop_last()) == Seq::<u8>::empty());
    assert(concat_wire(wire, one) =~= wire[i]);
}

/// A region of adjacent fields of safe types is, on the wire, the memory
/// from the first field's start to the last field's end.
proof fn lemma_region_bytes(fs: Seq<FieldLayout>, mem: Seq<u8>, wire: Seq<Seq<u8>>, a: int, b: int)
    requires
        0 <= a <= b < fs.len(),
        forall|k: int| a <= k < b ==> #[trigger] adjacent(fs, k),
        forall|k: int| a <= k <= b ==> (#[trigger] fs[k]).type_reprc && !fs[k].removed,
        wire_matches_memory(fs, mem, wire),
    ensures
        concat_wire(wire, range_seq(a, b)) == mem.subrange(fs[a].offset as int, fs[b].offset + fs[b].size),
        fs[a].offset <= fs[b].offset,
    decreases b - a,
{
    if a == b {
        assert(range_seq(a, b) =~= seq![a]);
        lemma_concat_wire_one(wire, a);
        assert(wire[a] == field_memory(fs, mem, a));
    } else {
        lemma_region_bytes(fs, mem, wire, a, b - 1);
        assert(range_seq(a, b).drop_last() =~= range_seq(a, b - 1));
        assert(range_seq(a, b).last() == b);
        assert(adjacent(fs, b - 1));
        assert(wire[b] == field_memory(fs, mem, b));
        assert(mem.subrange(fs[a].offset as int, fs[b].offset + fs[b].size) =~= mem.subrange(
            fs[a].offset as int,
            fs[b - 1].offset + fs[b - 1].size,
        ) + field_memory(fs, mem, b));
    }
}

/// Carrying out a plan whose bulk steps copy valid regions produces the
/// wire bytes of the fields it lists, in order: each bulk copy gives byte
/// for byte what writing its fields one by one gives.
pub proof fn lemma_plan_bytes(fs: Seq<FieldLayout>, mem: Seq<u8>, wire: Seq<Seq<u8>>, plan: Seq<WriteStep>)
    requires
        plan_ok(fs, plan),
        wire_matches_memory(fs, mem, wire),
    ensures
        plan_bytes(fs, mem, wire, plan) == concat_wire(wire, flatten(plan)),
    decreases plan.len(),
{
    if plan.len() > 0 {
        let p = plan.drop_last();
        assert forall|j: int| 0 <= j < p.len() implies match #[trigger] p[j] {
            WriteStep::BulkRegion { first, last } => region_ok(fs, first as int, last as int),
            WriteStep::SingleField { index } => 0 <= index < fs.len(),
        } by {
            assert(p[j] == plan[j]);
        }
        lemma_plan_bytes(fs, mem, wire, p);
        lemma_concat_wire_append(wire, flatten(p), step_indices(plan.last()));
        assert(plan[plan.len() - 1] == plan.last());
        match plan.last() {
            WriteStep::BulkRegion { first, last } => {
                assert forall|k: int| first <= k <= last implies (#[trigger] fs[k]).type_reprc
                    && !fs[k].removed by {
                    assert(bulkable(fs[k]));
                }
                lemma_region_bytes(fs, mem, wire, first as int, last as int);
            },
            WriteStep::SingleField { index } => {
                lemma_concat_wire_one(wire, index as int);
            },
        }
    }
}

/// What the bulk path writes for an aggregate: its memory from the first
/// field's start to the last field's end; nothing when it has no fields.
pub open spec fn bulk_bytes(l: StructLayout, mem: Seq<u8>) -> Seq<u8> {
    let fs = l.fields@;
    if fs.len() == 0 {
        Seq::empty()
    } else {
        mem.subrange(fs[0].offset as int, fs[fs.len() - 1].offset + fs[fs.len() - 1].size)
    }
}

/// For an aggregate that may be bulk-copied in version `v`, the single copy
/// of its memory gives byte for byte what writing its fields one by one
/// gives, and that copy is the aggregate's whole memory.
pub proof fn lemma_bulk_equivalence(l: StructLayout, mem: Seq<u8>, wire: Seq<Seq<u8>>, v: u32)
    requires
        reprc_safe(l, v),
        mem.len() == l.size,
        wire_matches_memory(l.fields@, mem, wire),
    ensures
        field_path_bytes(l, wire, v) == bulk_bytes(l, mem),
        l.fields@.len() > 0 ==> bulk_bytes(l, mem) == mem,
{
    let fs = l.fields@;
    let n = fs.len() as int;
    if n == 0 {
        assert(written_indices(fs, v, 0) =~= Seq::<int>::empty());
    } else {
        lemma_prefix_bytes(l, mem, wire, v, n);
        assert(mem.subrange(0, l.size as int) =~= mem);
    }
}

/// The wire bytes of the fields written among the first `n` are the memory
/// from the start of the aggregate to the end of field `n - 1`.
proof fn lemma_prefix_bytes(l: StructLayout, mem: Seq<u8>, wire: Seq<Seq<u8>>, v: u32, n: int)
    requires
        reprc_safe(l, v),
        mem.len() == l.size,
        wire_matches_memory(l.fields@, mem, wire),
        1 <= n <= l.fields@.len(),
    ensures
        concat_wire(wire, written_indices(l.fields@, v, n)) == mem.subrange(
            0,
            l.fields@[n - 1].offset + l.fields@[n - 1].size,
        ),
    decreases n,
{
    let fs = l.fields@;
    let f = fs[n - 1];
    assert(field_reprc(fs[n - 1], v));
    if n == 1 {
        assert(written_indices(fs, v, 0) =~= Seq::<int>::empty());
        if f.removed {
            assert(mem.subrange(0, 0) =~= Seq::<u8>::empty());
        } else {
            assert(Seq::<int>::empty().push(0) =~= seq![0int]);
            lemma_concat_wire_one(wire, 0);
            assert(wire[0] == field_memory(fs, mem, 0));
        }
    } else {
        lemma_prefix_bytes(l, mem, wire, v, n - 1);
        assert(adjacent(fs, n - 2));
        if f.removed {
        } else {
            let prev = written_indices(fs, v, n - 1);
            assert(prev.push(n - 1).drop_last() =~= prev);
            assert(wire[n - 1] == field_memory(fs, mem, n - 1));
            assert(mem.subrange(0, f.offset + f.size) =~= mem.subrange(
                0,
                fs[n - 2].offset + fs[n - 2].size,
            ) + field_memory(fs, mem, n - 1));
        }
    }
}

/// A plan for version `v` that writes exactly the fields written in that
/// version, in order, produces what writing them one by one produces.
pub proof fn lemma_plan_equivalence(
    l: StructLayout,
    mem: Seq<u8>,
    wire: Seq<Seq<u8>>,
    v: u32,
    plan: Seq<WriteStep>,
)
    requires
        plan_ok(l.fields@, plan),
        flatten(plan) == written_indices(l.fields@, v, l.fields@.len() as int),
        wire_matches_memory(l.fields@, mem, wire),
    ensures
        plan_bytes(l.fields@, mem, wire, plan) == field_path_bytes(l, wire, v),
{
    lemma_plan_bytes(l.fields@, mem, wire, plan);
}

proof fn lemma_flatten_push(plan: Seq<WriteStep>, s: WriteStep)
    ensures
        flatten(plan.push(s)) == flatten(plan) + step_indices(s),
{
    assert(plan.push(s).drop_last() =~= plan);
}

/// Whether fields `a` to `b` lie one right after the other in memory.
fn run_is_adjacent(fs: &Vec<FieldLayout>, a: usize, b: usize) -> (r: bool)
    requires
        a <= b < fs@.len(),
    ensures
        r == forall|k: int| a <= k < b ==> #[trigger] adjacent(fs@, k),
{
    let mut k = a;
    while k < b
        invariant
            a <= k <= b < fs@.len(),
            forall|j: int| a <= j < k ==> #[trigger] adjacent(fs@, j),
        decreases b - k,
    {
        match fs[k].offset.checked_add(fs[k].size) {
            Some(end) => {
                if end != fs[k + 1].offset {
                    assert(!adjacent(fs@, k as int));
                    return false;
                }
            },
            None => {
                assert(!adjacent(fs@, k as int));
                return false;
            },
        }
        k = k + 1;
    }
    true
}

impl StructLayout {
    /// Whether, in protocol version `version`, the aggregate may be written
    /// as one copy of its memory: its fields are packed with no gap and no
    /// padding at either end, every live field is written in that version
    /// and has a safe type, no field is ignored, and every removed field is
    /// absent from that version and takes no memory.
    pub fn repr_c_optimization_safe(&self, version: u32) -> (r: bool)
        ensures
            r == reprc_safe(*self, version),
    {
        let n = self.fields.len();
        if n > 0 {
            if self.fields[0].offset != 0 {
                return false;
            }
            if !run_is_adjacent(&self.fields, 0, n - 1) {
                return false;
            }
            match self.fields[n - 1].offset.checked_add(self.fields[n - 1].size) {
                Some(end) => {
                    if end != self.size {
                        return false;
                    }
                },
                None => {
                    return false;
                },
            }
        }
        let mut i: usize = 0;
        while i < n
            invariant
                i <= n == self.fields@.len(),
                forall|j: int| 0 <= j < i ==> field_reprc(#[trigger] self.fields@[j], version),
            decreases n - i,
        {
            let f = &self.fields[i];
            let written = !f.ignored && f.version_from <= version && version <= f.version_to;
            let ok = if f.ignored {
                false
            } else if f.removed {
                !written && f.size == 0
            } else {
                written && f.type_reprc
            };
            if !ok {
                return false;
            }
            i = i + 1;
        }
        true
    }

    /// The steps that write the aggregate's fields in protocol version
    /// `version`: each maximal run of two or more adjacent fields that exist
    /// in every version, are live and have safe types becomes one memory
    /// copy; every other written field is written on its own. Fields that
    /// exist in a range of versions are written only where the range holds.
    /// A removed field must not be written in `version`.
    pub fn plan_serialization(&self, version: u32) -> (r: Vec<WriteStep>)
        requires
            forall|i: int|
                0 <= i < self.fields@.len() && (#[trigger] self.fields@[i]).removed ==> !written_at(
                    self.fields@[i],
                    version,
                ),
        ensures
            plan_ok(self.fields@, r@),
            flatten(r@) == written_indices(self.fields@, version, self.fields@.len() as int),
            forall|k: int|
                0 <= k < self.fields@.len() - 1 && #[trigger] mergeable(self.fields@, k) ==> merged(
                    r@,
                    k,
                ),
    {
        let fs = &self.fields;
        let n = fs.len();
        let mut plan: Vec<WriteStep> = Vec::new();
        let mut i: usize = 0;
        while i < n
            invariant
                i <= n == fs@.len(),
                fs == &self.fields,
                forall|j: int|
                    0 <= j < fs@.len() && (#[trigger] fs@[j]).removed ==> !written_at(fs@[j], version),
                plan_ok(fs@, plan@),
                flatten(plan@) == written_indices(fs@, version, i as int),
                forall|k: int| 0 <= k && k + 1 < i && #[trigger] mergeable(fs@, k) ==> merged(plan@, k),
                0 < i < n ==> !mergeable(fs@, i - 1),
            decreases n - i,
        {
            let f = &fs[i];
            let written = !f.ignored && f.version_from <= version && version <= f.version_to;
            let ghost before = plan@;
            if self.bulkable(i) {
                let mut j = i;
                while j + 1 < n && self.bulkable(j + 1) && self.adjacent_at(j)
                    invariant
                        i <= j < n == fs@.len(),
                        fs == &self.fields,
                        bulkable(fs@[j as int]),
                        forall|k: int| i <= k < j ==> #[trigger] mergeable(fs@, k),
                        flatten(before) + range_seq(i as int, j as int) == written_indices(
                            fs@,
                            version,
                            j + 1,
                        ),
                    decreases n - j,
                {
                    proof {
                        assert(range_seq(i as int, j as int) + seq![j + 1] =~= range_seq(i as int, j + 1));
                    }
                    j = j + 1;
                }
                let st = if j > i {
                    WriteStep::BulkRegion { first: i, last: j }
                } else {
                    WriteStep::SingleField { index: i }
                };
                plan.push(st);
                proof {
                    lemma_flatten_push(before, st);
                    if j == i {
                        assert(range_seq(i as int, i as int) =~= seq![i as int]);
                    } else {
                        assert forall|k: int| i <= k < j implies #[trigger] adjacent(fs@, k) by {
                            assert(mergeable(fs@, k));
                        }
                        assert forall|k: int| i <= k <= j implies bulkable(#[trigger] fs@[k]) by {
                            if k < j {
                                assert(mergeable(fs@, k));
                            }
                        }
                    }
                    assert forall|q: int| 0 <= q < plan@.len() implies match #[trigger] plan@[q] {
                        WriteStep::BulkRegion { first, last } => region_ok(fs@, first as int, last as int),
                        WriteStep::SingleField { index } => 0 <= index < fs@.len(),
                    } by {
                        if q < before.len() {
                            assert(plan@[q] == before[q]);
                        }
                    }
                    assert forall|k: int| 0 <= k && k + 1 < j + 1 && #[trigger] mergeable(fs@, k) implies merged(
                        plan@,
                        k,
                    ) by {
                        if k + 1 < i {
                            let q = choose|q: int| 0 <= q < before.len() && covers(before[q], k);
                            assert(plan@[q] == before[q]);
                        } else if k + 1 == i {
                        } else {
                            assert(covers(plan@[before.len() as int], k));
                        }
                    }
                }
                i = j + 1;
            } else {
                if written {
                    let ghost p = plan@;
                    let st = WriteStep::SingleField { index: i };
                    plan.push(st);
                    proof {
                        lemma_flatten_push(p, st);
                        assert forall|q: int| 0 <= q < plan@.len() implies match #[trigger] plan@[q] {
                            WriteStep::BulkRegion { first, last } => region_ok(fs@, first as int, last as int),
                            WriteStep::SingleField { index } => 0 <= index < fs@.len(),
                        } by {
                            if q < p.len() {
                                assert(plan@[q] == p[q]);
                            }
                        }
                        assert forall|k: int| 0 <= k && k + 1 < i + 1 && #[trigger] mergeable(fs@, k) implies merged(
                            plan@,
                            k,
                        ) by {
                            let q = choose|q: int| 0 <= q < p.len() && covers(p[q], k);
                            assert(plan@[q] == p[q]);
                        }
                    }
                } else {
                    proof {
                        assert(written_indices(fs@, version, i + 1) == written_indices(fs@, version, i as int));
                    }
                }
                i = i + 1;
            }
        }
        plan
    }

    /// Whether field `i` may take part in a memory copy.
    fn bulkable(&self, i: usize) -> (r: bool)
        requires
            i < self.fields@.len(),
        ensures
            r == bulkable(self.fields@[i as int]),
    {
        let f = &self.fields[i];
        !f.ignored && f.version_from == 0 && f.version_to == MAX_VERSION && f.type_reprc && !f.removed
    }

    /// Whether field `i` ends where field `i + 1` begins.
    fn adjacent_at(&self, i: usize) -> (r: bool)
        requires
            i + 1 < self.fields@.len(),
        ensures
            r == adjacent(self.fields@, i as int),
    {
        let _len = self.fields.len();
        match self.fields[i].offset.checked_add(self.fields[i].size) {
            Some(end) => end == self.fields[i + 1].offset,
            None => false,
        }
    }
}

/// A `repr` hint written on an enum.
#[derive(Clone, Copy, Debug, PartialEq, Eq)]
pub enum ReprAttr {
    C,
    U8,
    I8,
    U16,
    I16,
    U32,
    I32,
    U64,
    I64,
}

/// How an enum's discriminant is stored.
#[derive(Clone, Copy, Debug, PartialEq, Eq)]
pub struct EnumSize {
    /// Bytes taken by the discriminant.
    pub discriminant_size: u8,
    /// The enum is marked `repr(C)`.
    pub repr_c: bool,
    /// The enum names its discriminant's integer type.
    pub explicit_size: bool,
}

/// The discriminant size that the hint names, if it names one.
pub open spec fn hint_size(h: ReprAttr) -> Option<u8> {
    match h {
        ReprAttr::U8 | ReprAttr::I8 => Some(1u8),
        ReprAttr::U16 | ReprAttr::I16 => Some(2u8),
        ReprAttr::U32 | ReprAttr::I32 => Some(4u8),
        _ => None,
    }
}

/// The size named by the last of the first `n` hints that names one.
pub open spec fn last_named_size(hints: Seq<ReprAttr>, n: int) -> Option<u8>
    decreases n,
{
    if n <= 0 || n > hints.len() {
        None
    } else if hint_size(hints[n - 1]) is Some {
        hint_size(hints[n - 1])
    } else {
        last_named_size(hints, n - 1)
    }
}

/// The discriminant size an enum of `variants` variants gets without an
/// explicit hint: the smallest of 1, 2 or 4 bytes that numbers them all.
pub open spec fn implicit_size(variants: nat) -> u8 {
    if variants <= 256 {
        1
    } else if variants <= 65536 {
        2
    } else {
        4
    }
}

/// How an enum with the `repr` hints `hints` and `actual_variants`
/// variants stores its discriminant: the last size a hint names, else the
/// smallest that numbers all variants. 8-byte discriminants are not
/// supported, nor are `u32::MAX` variants or more.
pub fn get_enum_size(hints: &Vec<ReprAttr>, actual_variants: usize) -> (r: EnumSize)
    requires
        forall|i: int|
            0 <= i < hints@.len() ==> #[trigger] hints@[i] != ReprAttr::U64 && hints@[i] != ReprAttr::I64,
        last_named_size(hints@, hints@.len() as int) is None ==> actual_variants < u32::MAX,
    ensures
        r.repr_c == hints@.contains(ReprAttr::C),
        r.explicit_size == last_named_size(hints@, hints@.len() as int) is Some,
        r.discriminant_size == match last_named_size(hints@, hints@.len() as int) {
            Some(s) => s,
            None => implicit_size(actual_variants as nat),
        },
{
    let mut size: Option<u8> = None;
    let mut repr_c_seen = false;
    let mut i: usize = 0;
    while i < hints.len()
        invariant
            i <= hints@.len(),
            size == last_named_size(hints@, i as int),
            repr_c_seen == hints@.subrange(0, i as int).contains(ReprAttr::C),
        decreases hints@.len() - i,
    {
        let h = hints[i];
        proof {
            let p = hints@.subrange(0, i as int);
            assert(hints@.subrange(0, i + 1) =~= p.push(h));
            if p.push(h).contains(ReprAttr::C) {
                let j = choose|j: int| 0 <= j < p.push(h).len() && #[trigger] p.push(h)[j] == ReprAttr::C;
                if j < p.len() {
                    assert(p[j] == ReprAttr::C);
                }
            }
            if p.contains(ReprAttr::C) {
                let j = choose|j: int| 0 <= j < p.len() && #[trigger] p[j] == ReprAttr::C;
                assert(p.push(h)[j] == ReprAttr::C);
            }
            if h == ReprAttr::C {
                assert(p.push(h)[p.len() as int] == ReprAttr::C);
            }
        }
        match h {
            ReprAttr::C => {
                repr_c_seen = true;
            },
            ReprAttr::U8 | ReprAttr::I8 => {
                size = Some(1);
            },
            ReprAttr::U16 | ReprAttr::I16 => {
                size = Some(2);
            },
            ReprAttr::U32 | ReprAttr::I32 => {
                size = Some(4);
            },
            ReprAttr::U64 | ReprAttr::I64 => {},
        }
        i = i + 1;
    }
    assert(hints@.subrange(0, hints@.len() as int) =~= hints@);
    let discriminant_size = match size {
        Some(s) => s,
        None => {
            if actual_variants <= 256 {
                1
            } else if actual_variants <= 65536 {
                2
            } else {
                4
            }
        },
    };
    EnumSize { discriminant_size, repr_c: repr_c_seen, explicit_size: size.is_some() }
}


/// The memory layout of one enum variant: its fields, with offsets from the
/// start of the enum.
pub struct VariantLayout {
    pub fields: Vec<FieldLayout>,
}

/// The memory layout of an enum: its total size, how its discriminant is
/// stored, and its variants.
pub struct EnumLayout {
    pub size: usize,
    pub discriminant: EnumSize,
    pub variants: Vec<VariantLayout>,
}

/// The variant's memory is its discriminant followed by its fields with no
/// gap, ending at the end of the enum.
pub open spec fn variant_packed(fs: Seq<FieldLayout>, disc: nat, size: nat) -> bool {
    if fs.len() == 0 {
        disc == size
    } else {
        &&& fs[0].offset == disc
        &&& forall|k: int| 0 <= k < fs.len() - 1 ==> #[trigger] adjacent(fs, k)
        &&& fs[fs.len() - 1].offset + fs[fs.len() - 1].size == size
    }
}

/// In version `v` every value of the enum may be written as one copy of its
/// memory: the discriminant is named explicitly and takes the one byte it
/// takes on the wire, and every variant is packed with fields whose wire
/// bytes are their memory.
pub open spec fn enum_reprc_safe(e: EnumLayout, v: u32) -> bool {
    &&& e.discriminant.explicit_size
    &&& e.discriminant.discriminant_size == 1
    &&& forall|j: int|
        0 <= j < e.variants@.len() ==> {
            let fs = (#[trigger] e.variants@[j]).fields@;
            &&& variant_packed(fs, 1, e.size as nat)
            &&& forall|i: int| 0 <= i < fs.len() ==> field_reprc(#[trigger] fs[i], v)
        }
}

/// Whether the fields of one variant are packed after a discriminant of
/// `disc` bytes and have wire bytes equal to their memory in `version`.
fn variant_reprc(fs: &Vec<FieldLayout>, disc: usize, size: usize, version: u32) -> (r: bool)
    ensures
        r == (variant_packed(fs@, disc as nat, size as nat) && forall|i: int|
            0 <= i < fs@.len() ==> field_reprc(#[trigger] fs@[i], version)),
{
    let n = fs.len();
    if n == 0 {
        return disc == size;
    }
    if fs[0].offset != disc || !run_is_adjacent(fs, 0, n - 1) {
        return false;
    }
    match fs[n - 1].offset.checked_add(fs[n - 1].size) {
        Some(end) => {
            if end != size {
                return false;
            }
        },
        None => {
            return false;
        },
    }
    let mut i: usize = 0;
    while i < n
        invariant
            i <= n == fs@.len(),
            forall|j: int| 0 <= j < i ==> field_reprc(#[trigger] fs@[j], version),
        decreases n - i,
    {
        let f = &fs[i];
        let written = !f.ignored && f.version_from <= version && version <= f.version_to;
        let ok = if f.ignored {
            false
        } else if f.removed {
            !written && f.size == 0
        } else {
            written && f.type_reprc
        };
        if !ok {
            return false;
        }
        i = i + 1;
    }
    true
}

impl EnumLayout {
    /// Whether, in protocol version `version`, every value of the enum may
    /// be written as one copy of its memory.
    pub fn repr_c_optimization_safe(&self, version: u32) -> (r: bool)
        ensures
            r == enum_reprc_safe(*self, version),
    {
        if !self.discriminant.explicit_size || self.discriminant.discriminant_size != 1 {
            return false;
        }
        let mut j: usize = 0;
        while j < self.variants.len()
            invariant
                j <= self.variants@.len(),
                forall|k: int|
                    0 <= k < j ==> {
                        let fs = (#[trigger] self.variants@[k]).fields@;
                        &&& variant_packed(fs, 1, self.size as nat)
                        &&& forall|i: int| 0 <= i < fs.len() ==> field_reprc(#[trigger] fs[i], version)
                    },
            decreases self.variants@.len() - j,
        {
            if !variant_reprc(&self.variants[j].fields, 1, self.size, version) {
                return false;
            }
            j = j + 1;
        }
        true
    }
}

} // verus!
