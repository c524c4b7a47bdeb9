//! The garbage-collected object store.
//!
//! Objects live in parallel slot arrays (`flags` beside `objects`), addressed
//! by [`Handle`]s. Each slot's flag byte encodes its object-type tag in the
//! high nibble and mark, trace-needed and sticky bits in the low nibble. A
//! slot is live iff its mark bit or its sticky bit is set; the live count is
//! tracked incrementally, never recomputed by scanning.
//!
//! Collection is a single forward sweep that traces as it marks, pushing
//! back-references onto an explicit grey worklist ([`Heap::collect`]). The
//! marked set it computes is pinned exactly: it is the least set that
//! contains the roots and the sticky slots and is closed under following
//! the references of trace-flagged slots ([`gc_marks`]).

use vstd::arithmetic::div_mod::{lemma_div_is_ordered, lemma_div_multiples_vanish};
use vstd::arithmetic::mul::{lemma_mul_inequality, lemma_mul_upper_bound};
use vstd::prelude::*;
use vstd::set_lib::{lemma_int_range, set_int_range};

use crate::error::{VMError, VMResult};
use crate::value::Value;

verus! {

/// Mark bit: set on reachable slots during collection and on fresh allocations.
pub const FLAG_MARK: u8 = 0x01;
/// Trace-needed bit: the slot's object may hold references to follow.
pub const FLAG_TRACE: u8 = 0x02;
/// Sticky bit: the slot is pinned live until explicitly unpinned.
pub const FLAG_STICKY: u8 = 0x04;

/// Type tag (high nibble) for a boxed scalar value.
pub const TYPE_VALUE: u8 = 0x00;
/// Type tag for a string.
pub const TYPE_STRING: u8 = 0x10;
/// Type tag for a vector of values.
pub const TYPE_VECTOR: u8 = 0x20;
/// Type tag for a byte buffer.
pub const TYPE_BYTES: u8 = 0x30;
/// Type tag for a cons pair.
pub const TYPE_PAIR: u8 = 0x40;

/// Whether a flag byte says its slot is live (mark bit or sticky bit set).
pub open spec fn spec_is_marked(flag: u8) -> bool {
    flag & 0x05 != 0
}

/// Whether a flag byte says its slot is live.
#[verifier::when_used_as_spec(spec_is_marked)]
pub fn is_marked(flag: u8) -> (r: bool)
    ensures
        r == spec_is_marked(flag),
{
    flag & 0x05 != 0
}

/// Whether a flag byte says its slot must be traced: live and trace-flagged.
pub open spec fn spec_need_trace(flag: u8) -> bool {
    spec_is_marked(flag) && flag & 0x02 != 0
}

/// Whether a flag byte says its slot must be traced.
#[verifier::when_used_as_spec(spec_need_trace)]
pub fn need_trace(flag: u8) -> (r: bool)
    ensures
        r == spec_need_trace(flag),
{
    is_marked(flag) && flag & 0x02 != 0
}

/// An index into the heap's slot arrays. Not a pointer: it is stable only
/// while the slot it names stays allocated, and a slot may be recycled by a
/// collection, silently changing the handle's referent.
#[derive(Copy, Clone, Debug, PartialEq, Eq, Structural)]
pub struct Handle {
    pub idx: usize,
}

/// Anything that can live on the heap. Values normally live in registers or
/// constant pools but can be boxed here too, for instance to be mutated in
/// place or to stand for nil at the end of a pair chain.
#[derive(Clone, Debug)]
pub enum Object {
    Value(Value),
    String(String),
    Vector(Vec<Value>),
    Bytes(Vec<u8>),
    Pair(Value, Value),
}

/// The mathematical shape of an [`Object`].
pub ghost enum ObjectV {
    Value(Value),
    String(Seq<char>),
    Vector(Seq<Value>),
    Bytes(Seq<u8>),
    Pair(Value, Value),
}

impl View for Object {
    type V = ObjectV;

    open spec fn view(&self) -> ObjectV {
        match self {
            Object::Value(v) => ObjectV::Value(*v),
            Object::String(s) => ObjectV::String(s@),
            Object::Vector(vs) => ObjectV::Vector(vs@),
            Object::Bytes(bs) => ObjectV::Bytes(bs@),
            Object::Pair(a, b) => ObjectV::Pair(*a, *b),
        }
    }
}

impl Object {
    pub open spec fn is_nil_spec(&self) -> bool {
        self@ matches ObjectV::Value(Value::Nil)
    }

    /// Whether this object is a boxed `Nil`.
    pub fn is_nil(&self) -> (r: bool)
        ensures
            r == self.is_nil_spec(),
    {
        matches!(self, Object::Value(Value::Nil))
    }
}

/// The flag byte an object is given when installed: its type tag in the
/// high nibble, with the trace-needed bit for shapes that can hold
/// references (a boxed reference, a vector, a pair).
pub open spec fn spec_type_flag(o: ObjectV) -> u8 {
    match o {
        ObjectV::Value(Value::Reference(_)) => 0x02,  // TYPE_VALUE | FLAG_TRACE
        ObjectV::Value(_) => 0x00,
        ObjectV::String(_) => 0x10,
        ObjectV::Vector(_) => 0x22,  // TYPE_VECTOR | FLAG_TRACE
        ObjectV::Bytes(_) => 0x30,
        ObjectV::Pair(_, _) => 0x42,  // TYPE_PAIR | FLAG_TRACE
    }
}

/// Whether an object's shape can hold references the collector must follow.
pub open spec fn needs_trace_obj(o: ObjectV) -> bool {
    ||| o matches ObjectV::Value(Value::Reference(_))
    ||| o matches ObjectV::Vector(_)
    ||| o matches ObjectV::Pair(_, _)
}

/// The slot indices referenced by a value: one for a reference, none else.
pub open spec fn refs_of_value(v: Value) -> Seq<int> {
    match v {
        Value::Reference(h) => seq![h.idx as int],
        _ => Seq::empty(),
    }
}

/// The slot indices referenced by each value of a sequence, in order.
pub open spec fn refs_of_values(vs: Seq<Value>) -> Seq<int>
    decreases vs.len(),
{
    if vs.len() == 0 {
        Seq::empty()
    } else {
        refs_of_value(vs[0]) + refs_of_values(vs.drop_first())
    }
}

/// The slot indices an object refers to, in the order the collector
/// follows them.
pub open spec fn refs_of(o: ObjectV) -> Seq<int> {
    match o {
        ObjectV::Value(v) => refs_of_value(v),
        ObjectV::Vector(vs) => refs_of_values(vs),
        ObjectV::Pair(a, b) => refs_of_value(a) + refs_of_value(b),
        _ => Seq::empty(),
    }
}

/// Incrementally tracked slot statistics.
pub struct HeapStats {
    live_objects: usize,
    sticky_objects: usize,
}

impl HeapStats {
    pub closed spec fn live_spec(&self) -> int {
        self.live_objects as int
    }

    pub closed spec fn sticky_spec(&self) -> int {
        self.sticky_objects as int
    }

    /// Fresh statistics: nothing live, nothing sticky.
    pub fn new() -> (s: HeapStats)
        ensures
            s.live_spec() == 0,
            s.sticky_spec() == 0,
    {
        HeapStats { live_objects: 0, sticky_objects: 0 }
    }

    /// The number of live slots (marked or sticky; a slot that is both
    /// counts toward both the mark and the sticky tally).
    pub fn live_objects(&self) -> (n: usize)
        ensures
            n as int == self.live_spec(),
    {
        self.live_objects
    }
}

impl Default for HeapStats {
    fn default() -> (s: Self)
        ensures
            s.live_spec() == 0,
            s.sticky_spec() == 0,
    {
        Self::new()
    }
}

/// The mathematical state of a [`Heap`].
pub ghost struct HeapV {
    pub flags: Seq<u8>,
    pub objects: Seq<ObjectV>,
    pub greys: Seq<int>,
    pub capacity: int,
    pub live: int,
    pub sticky: int,
    pub grow_num: int,
    pub grow_den: int,
}

/// How many flag bytes of `flags` have any bit of `bit` set.
pub open spec fn count_bit(flags: Seq<u8>, bit: u8) -> int
    decreases flags.len(),
{
    if flags.len() == 0 {
        0
    } else {
        count_bit(flags.drop_last(), bit) + if flags.last() & bit != 0 {
            1int
        } else {
            0int
        }
    }
}

/// Flag byte and object of one slot agree: the type nibble is the object's,
/// and an object that can hold references carries the trace-needed bit.
pub open spec fn flag_type_ok(flag: u8, o: ObjectV) -> bool {
    &&& flag & 0xf0 == spec_type_flag(o) & 0xf0
    &&& needs_trace_obj(o) ==> flag & 0x02 != 0
}

/// The heap's internal consistency: parallel arrays, capacity bounds, the
/// incrementally tracked counts equal to what the flag bytes say, a growth
/// ratio strictly above one, and per-slot flag/object agreement.
pub open spec fn heap_inv(h: HeapV) -> bool {
    &&& h.objects.len() == h.flags.len()
    &&& h.flags.len() <= h.capacity
    &&& 1 <= h.capacity <= usize::MAX as int
    &&& h.flags.len() <= usize::MAX as int / 2
    &&& h.live == count_bit(h.flags, 0x01) + count_bit(h.flags, 0x04)
    &&& h.sticky == count_bit(h.flags, 0x04)
    &&& 1 <= h.grow_den
    &&& 2 * h.grow_den <= h.grow_num <= usize::MAX as int
    &&& forall|i: int|
        0 <= i < h.objects.len() ==> flag_type_ok(#[trigger] h.flags[i], h.objects[i])
}

/// A heap at rest between operations: consistent, with an empty grey
/// worklist.
pub open spec fn heap_ready(h: HeapV) -> bool {
    heap_inv(h) && h.greys.len() == 0
}

/// The garbage-collected store: an unbounded but capacity-gated collection
/// of objects, each addressable by the [`Handle`] its allocation returned.
pub struct Heap {
    flags: Vec<u8>,
    objects: Vec<Object>,
    greys: Vec<usize>,
    grow_num: usize,
    grow_den: usize,
    capacity: usize,
    stats: HeapStats,
}

impl View for Heap {
    type V = HeapV;

    closed spec fn view(&self) -> HeapV {
        HeapV {
            flags: self.flags@,
            objects: self.objects@.map_values(|o: Object| o@),
            greys: self.greys@.map_values(|g: usize| g as int),
            capacity: self.capacity as int,
            live: self.stats.live_objects as int,
            sticky: self.stats.sticky_objects as int,
            grow_num: self.grow_num as int,
            grow_den: self.grow_den as int,
        }
    }
}

// ---------------------------------------------------------------------------
// Flag-byte algebra, proved once and reused by every operation.
// ---------------------------------------------------------------------------

/// Setting the mark bit: touches nothing else, and is idempotent.
proof fn lemma_set_mark(f: u8)
    by (bit_vector)
    ensures
        (f | 0x01) & 0x01 != 0,
        (f | 0x01) & 0x04 == f & 0x04,
        (f | 0x01) & 0x02 == f & 0x02,
        (f | 0x01) & 0xf0 == f & 0xf0,
        (f | 0x01) & 0xfe == f & 0xfe,
        (f | 0x01) & 0x05 != 0,
        f & 0x01 != 0 ==> f | 0x01 == f,
{
}

/// Clearing the mark bit: touches nothing else, and is idempotent.
proof fn lemma_clear_mark(f: u8)
    by (bit_vector)
    ensures
        (f & 0xfe) & 0x01 == 0,
        (f & 0xfe) & 0x04 == f & 0x04,
        (f & 0xfe) & 0x02 == f & 0x02,
        (f & 0xfe) & 0xf0 == f & 0xf0,
        (f & 0xfe) & 0xfe == f & 0xfe,
        ((f & 0xfe) & 0x05 != 0) == (f & 0x04 != 0),
        f & 0x01 == 0 ==> f & 0xfe == f,
{
}

/// Setting the sticky bit: touches nothing else, and is idempotent.
proof fn lemma_set_sticky(f: u8)
    by (bit_vector)
    ensures
        (f | 0x04) & 0x04 != 0,
        (f | 0x04) & 0x01 == f & 0x01,
        (f | 0x04) & 0x02 == f & 0x02,
        (f | 0x04) & 0xf0 == f & 0xf0,
        f & 0x04 != 0 ==> f | 0x04 == f,
{
}

/// Clearing the sticky bit: touches nothing else, and is idempotent.
proof fn lemma_clear_sticky(f: u8)
    by (bit_vector)
    ensures
        (f & 0xfb) & 0x04 == 0,
        (f & 0xfb) & 0x01 == f & 0x01,
        (f & 0xfb) & 0x02 == f & 0x02,
        (f & 0xfb) & 0xf0 == f & 0xf0,
        f & 0x04 == 0 ==> f & 0xfb == f,
{
}

/// Liveness is the disjunction of the mark and sticky bits.
proof fn lemma_live_bits(f: u8)
    by (bit_vector)
    ensures
        (f & 0x05 != 0) == (f & 0x01 != 0 || f & 0x04 != 0),
{
}

/// Combining a fresh type flag with the kept mark and sticky bits, as
/// `replace` does: mark and sticky come from the old byte; the type
/// nibble and the trace bit come from the new object alone.
proof fn lemma_combine_flag(tf: u8, f: u8)
    by (bit_vector)
    requires
        tf & 0x0d == 0,
    ensures
        (tf | (f & 0x05)) & 0x01 == f & 0x01,
        (tf | (f & 0x05)) & 0x04 == f & 0x04,
        (tf | (f & 0x05)) & 0xf0 == tf & 0xf0,
        (tf | (f & 0x05)) & 0x02 == tf & 0x02,
{
}

/// Every type flag keeps its mark, sticky and trace bits clear except the
/// trace bit of reference-holding shapes.
proof fn lemma_type_flag_bits(o: ObjectV)
    ensures
        spec_type_flag(o) & 0x0d == 0,
        spec_type_flag(o) & 0x01 == 0,
        spec_type_flag(o) & 0x04 == 0,
        needs_trace_obj(o) ==> spec_type_flag(o) & 0x02 != 0,
        flag_type_ok(spec_type_flag(o), o),
        spec_is_marked(spec_type_flag(o)) == false,
{
    assert(0x00u8 & 0x0d == 0 && 0x02u8 & 0x0d == 0 && 0x10u8 & 0x0d == 0 && 0x22u8 & 0x0d == 0
        && 0x30u8 & 0x0d == 0 && 0x42u8 & 0x0d == 0) by (bit_vector);
    assert(0x00u8 & 0x01 == 0 && 0x02u8 & 0x01 == 0 && 0x10u8 & 0x01 == 0 && 0x22u8 & 0x01 == 0
        && 0x30u8 & 0x01 == 0 && 0x42u8 & 0x01 == 0) by (bit_vector);
    assert(0x00u8 & 0x04 == 0 && 0x02u8 & 0x04 == 0 && 0x10u8 & 0x04 == 0 && 0x22u8 & 0x04 == 0
        && 0x30u8 & 0x04 == 0 && 0x42u8 & 0x04 == 0) by (bit_vector);
    assert(0x02u8 & 0x02 != 0 && 0x22u8 & 0x02 != 0 && 0x42u8 & 0x02 != 0) by (bit_vector);
    assert(0x00u8 & 0xf0 == 0x00u8 & 0xf0 && 0x02u8 & 0xf0 == 0x02u8 & 0xf0) by (bit_vector);
    assert(0x00u8 & 0x05 == 0 && 0x02u8 & 0x05 == 0 && 0x10u8 & 0x05 == 0 && 0x22u8 & 0x05 == 0
        && 0x30u8 & 0x05 == 0 && 0x42u8 & 0x05 == 0) by (bit_vector);
}

// ---------------------------------------------------------------------------
// Counting lemmas.
// ---------------------------------------------------------------------------

/// The count of set flag bytes lies between zero and the length.
proof fn lemma_count_bit_bounds(flags: Seq<u8>, bit: u8)
    ensures
        0 <= count_bit(flags, bit) <= flags.len(),
    decreases flags.len(),
{
    if flags.len() > 0 {
        lemma_count_bit_bounds(flags.drop_last(), bit);
    }
}

/// Appending one flag byte adds its contribution to the count.
proof fn lemma_count_bit_push(flags: Seq<u8>, v: u8, bit: u8)
    ensures
        count_bit(flags.push(v), bit) == count_bit(flags, bit) + if v & bit != 0 {
            1int
        } else {
            0int
        },
{
    assert(flags.push(v).drop_last() =~= flags);
}

/// Updating one flag byte shifts the count by the difference of the old and
/// new contributions.
proof fn lemma_count_bit_update(flags: Seq<u8>, i: int, v: u8, bit: u8)
    requires
        0 <= i < flags.len(),
    ensures
        count_bit(flags.update(i, v), bit) == count_bit(flags, bit) - (if flags[i] & bit != 0 {
            1int
        } else {
            0int
        }) + (if v & bit != 0 {
            1int
        } else {
            0int
        }),
    decreases flags.len(),
{
    let upd = flags.update(i, v);
    if i == flags.len() - 1 {
        assert(upd.drop_last() =~= flags.drop_last());
    } else {
        assert(upd.drop_last() =~= flags.drop_last().update(i, v));
        assert(upd.last() == flags.last());
        lemma_count_bit_update(flags.drop_last(), i, v, bit);
    }
}

/// A count that equals the length means every byte has the bit set; below
/// the length, some byte lacks it.
proof fn lemma_count_bit_full(flags: Seq<u8>, bit: u8)
    ensures
        count_bit(flags, bit) == flags.len() ==> forall|i: int|
            0 <= i < flags.len() ==> #[trigger] flags[i] & bit != 0,
        count_bit(flags, bit) < flags.len() ==> exists|i: int|
            0 <= i < flags.len() && #[trigger] flags[i] & bit == 0,
    decreases flags.len(),
{
    if flags.len() > 0 {
        lemma_count_bit_full(flags.drop_last(), bit);
        lemma_count_bit_bounds(flags.drop_last(), bit);
        if count_bit(flags, bit) == flags.len() {
            assert(forall|i: int|
                0 <= i < flags.len() - 1 ==> flags.drop_last()[i] == #[trigger] flags[i]);
        } else if count_bit(flags, bit) < flags.len() {
            if flags.last() & bit == 0 {
                assert(flags[flags.len() - 1] & bit == 0);
            } else {
                let j = choose|i: int|
                    0 <= i < flags.drop_last().len() && #[trigger] flags.drop_last()[i] & bit == 0;
                assert(flags[j] & bit == 0);
            }
        }
    }
}

/// The number of live slots is at most the mark count plus the sticky
/// count: each live slot has at least one of the two bits.
proof fn lemma_count_live_le(flags: Seq<u8>)
    ensures
        count_bit(flags, 0x05) <= count_bit(flags, 0x01) + count_bit(flags, 0x04),
    decreases flags.len(),
{
    if flags.len() > 0 {
        lemma_count_live_le(flags.drop_last());
        lemma_live_bits(flags.last());
    }
}

// ---------------------------------------------------------------------------
// Heap operations.
// ---------------------------------------------------------------------------

impl Default for Heap {
    fn default() -> (h: Self)
        ensures
            heap_ready(h@),
            h@.capacity == 512,
            h@.flags.len() == 0,
            h@.live == 0,
            h@.sticky == 0,
            h@.grow_num == 2,
            h@.grow_den == 1,
    {
        Self::new()
    }
}

impl Heap {
    /// A fresh heap with the default capacity of 512 slots and the default
    /// growth factor of two.
    pub fn new() -> (h: Self)
        ensures
            heap_ready(h@),
            h@.capacity == 512,
            h@.flags.len() == 0,
            h@.live == 0,
            h@.sticky == 0,
            h@.grow_num == 2,
            h@.grow_den == 1,
    {
        let h = Heap {
            flags: Vec::with_capacity(512),
            // Keep one extra slot to swap through on replace.
            objects: Vec::with_capacity(512 + 1),
            greys: Vec::new(),
            grow_num: 2,
            grow_den: 1,
            capacity: 512,
            stats: HeapStats::default(),
        };
        proof {
            assert(h@.objects =~= Seq::<ObjectV>::empty());
            assert(h@.greys =~= Seq::<int>::empty());
        }
        h
    }

    /// A fresh heap with the given capacity (at least one slot) and the
    /// default growth factor of two.
    pub fn with_capacity(capacity: usize) -> (h: Self)
        requires
            1 <= capacity < usize::MAX,
        ensures
            heap_ready(h@),
            h@.capacity == capacity as int,
            h@.flags.len() == 0,
            h@.live == 0,
            h@.sticky == 0,
            h@.grow_num == 2,
            h@.grow_den == 1,
    {
        let h = Heap {
            flags: Vec::with_capacity(capacity),
            // Keep one extra slot to swap through on replace.
            objects: Vec::with_capacity(capacity + 1),
            greys: Vec::new(),
            grow_num: 2,
            grow_den: 1,
            capacity,
            stats: HeapStats::default(),
        };
        proof {
            assert(h@.objects =~= Seq::<ObjectV>::empty());
            assert(h@.greys =~= Seq::<int>::empty());
        }
        h
    }

    /// Set the growth factor as a ratio `numerator / denominator`. The
    /// ratio must be at least two, so that growing after a fruitless
    /// collection always creates headroom; allocation then never aborts.
    pub fn set_grow_factor(&mut self, numerator: usize, denominator: usize)
        requires
            heap_inv(old(self)@),
            1 <= denominator,
            2 * denominator <= numerator,
        ensures
            heap_inv(final(self)@),
            final(self)@ == (HeapV {
                grow_num: numerator as int,
                grow_den: denominator as int,
                ..old(self)@
            }),
    {
        self.grow_num = numerator;
        self.grow_den = denominator;
    }

    /// The current soft capacity: allocation past it collects first.
    pub fn capacity(&self) -> (c: usize)
        ensures
            c as int == self@.capacity,
    {
        self.capacity
    }

    /// The current live count.
    pub fn live_objects(&self) -> (n: usize)
        ensures
            n as int == self@.live,
    {
        self.stats.live_objects()
    }

    /// The number of slots currently backed by storage.
    pub fn object_count(&self) -> (n: usize)
        ensures
            n as int == self@.flags.len(),
    {
        self.flags.len()
    }

    /// The flag byte an object is installed with.
    fn type_flag(obj: &Object) -> (f: u8)
        ensures
            f == spec_type_flag(obj@),
    {
        match obj {
            Object::Value(Value::Reference(_)) => 0x02,  // TYPE_VALUE | FLAG_TRACE
            Object::Value(_) => 0x00,
            Object::String(_) => 0x10,
            Object::Vector(_) => 0x22,  // TYPE_VECTOR | FLAG_TRACE
            Object::Bytes(_) => 0x30,
            Object::Pair(_, _) => 0x42,  // TYPE_PAIR | FLAG_TRACE
        }
    }

    /// Whether the handle names a slot whose flag byte carries the given
    /// type nibble; false for out-of-range handles.
    fn has_type(&self, handle: Handle, nibble: u8) -> (r: bool)
        ensures
            r == (handle.idx < self@.flags.len() && self@.flags[handle.idx as int] & 0xf0
                == nibble),
    {
        if handle.idx < self.flags.len() {
            self.flags[handle.idx] & 0xf0 == nibble
        } else {
            false
        }
    }

    /// Whether the slot holds a boxed scalar. Reads only the flag byte;
    /// false for out-of-range handles.
    pub fn is_value(&self, handle: Handle) -> (r: bool)
        requires
            heap_inv(self@),
        ensures
            r == (handle.idx < self@.objects.len() && self@.objects[handle.idx as int]
                matches ObjectV::Value(_)),
    {
        let r = self.has_type(handle, TYPE_VALUE);
        proof {
            if handle.idx < self@.objects.len() {
                lemma_type_flag_bits(self@.objects[handle.idx as int]);
                assert(0x00u8 & 0xf0 == 0 && 0x02u8 & 0xf0 == 0 && 0x10u8 & 0xf0 == 0x10
                    && 0x22u8 & 0xf0 == 0x20 && 0x30u8 & 0xf0 == 0x30 && 0x42u8 & 0xf0 == 0x40)
                    by (bit_vector);
            }
        }
        r
    }

    /// Whether the slot holds a string; false for out-of-range handles.
    pub fn is_string(&self, handle: Handle) -> (r: bool)
        requires
            heap_inv(self@),
        ensures
            r == (handle.idx < self@.objects.len() && self@.objects[handle.idx as int]
                matches ObjectV::String(_)),
    {
        let r = self.has_type(handle, TYPE_STRING);
        proof {
            if handle.idx < self@.objects.len() {
                lemma_type_flag_bits(self@.objects[handle.idx as int]);
                assert(0x00u8 & 0xf0 == 0 && 0x02u8 & 0xf0 == 0 && 0x10u8 & 0xf0 == 0x10
                    && 0x22u8 & 0xf0 == 0x20 && 0x30u8 & 0xf0 == 0x30 && 0x42u8 & 0xf0 == 0x40)
                    by (bit_vector);
            }
        }
        r
    }

    /// Whether the slot holds a vector; false for out-of-range handles.
    pub fn is_vector(&self, handle: Handle) -> (r: bool)
        requires
            heap_inv(self@),
        ensures
            r == (handle.idx < self@.objects.len() && self@.objects[handle.idx as int]
                matches ObjectV::Vector(_)),
    {
        let r = self.has_type(handle, TYPE_VECTOR);
        proof {
            if handle.idx < self@.objects.len() {
                lemma_type_flag_bits(self@.objects[handle.idx as int]);
                assert(0x00u8 & 0xf0 == 0 && 0x02u8 & 0xf0 == 0 && 0x10u8 & 0xf0 == 0x10
                    && 0x22u8 & 0xf0 == 0x20 && 0x30u8 & 0xf0 == 0x30 && 0x42u8 & 0xf0 == 0x40)
                    by (bit_vector);
            }
        }
        r
    }

    /// Whether the slot holds a byte buffer; false for out-of-range handles.
    pub fn is_bytes(&self, handle: Handle) -> (r: bool)
        requires
            heap_inv(self@),
        ensures
            r == (handle.idx < self@.objects.len() && self@.objects[handle.idx as int]
                matches ObjectV::Bytes(_)),
    {
        let r = self.has_type(handle, TYPE_BYTES);
        proof {
            if handle.idx < self@.objects.len() {
                lemma_type_flag_bits(self@.objects[handle.idx as int]);
                assert(0x00u8 & 0xf0 == 0 && 0x02u8 & 0xf0 == 0 && 0x10u8 & 0xf0 == 0x10
                    && 0x22u8 & 0xf0 == 0x20 && 0x30u8 & 0xf0 == 0x30 && 0x42u8 & 0xf0 == 0x40)
                    by (bit_vector);
            }
        }
        r
    }

    /// Whether the slot holds a pair; false for out-of-range handles.
    pub fn is_pair(&self, handle: Handle) -> (r: bool)
        requires
            heap_inv(self@),
        ensures
            r == (handle.idx < self@.objects.len() && self@.objects[handle.idx as int]
                matches ObjectV::Pair(_, _)),
    {
        let r = self.has_type(handle, TYPE_PAIR);
        proof {
            if handle.idx < self@.objects.len() {
                lemma_type_flag_bits(self@.objects[handle.idx as int]);
                assert(0x00u8 & 0xf0 == 0 && 0x02u8 & 0xf0 == 0 && 0x10u8 & 0xf0 == 0x10
                    && 0x22u8 & 0xf0 == 0x20 && 0x30u8 & 0xf0 == 0x30 && 0x42u8 & 0xf0 == 0x40)
                    by (bit_vector);
            }
        }
        r
    }

    /// The object a handle names. Fails exactly when the index is out of
    /// range; liveness is not checked, so a stale handle into a recycled
    /// slot silently yields the new occupant — the caller must know the
    /// slot is still live.
    pub fn get(&self, handle: Handle) -> (r: VMResult<&Object>)
        ensures
            match r {
                Ok(obj) => handle.idx < self@.objects.len() && obj@ == self@.objects[handle.idx
                    as int],
                Err(e) => handle.idx >= self@.objects.len() && e == VMError::InvalidHandle,
            },
    {
        if handle.idx < self.objects.len() {
            Ok(&self.objects[handle.idx])
        } else {
            Err(VMError::InvalidHandle)
        }
    }

    /// The value form of a slot: a boxed scalar unwraps to the scalar it
    /// holds, any other object stands as a reference to itself. Fails
    /// exactly when the index is out of range.
    pub fn get_value(&self, handle: Handle) -> (r: VMResult<Value>)
        ensures
            r == spec_get_value(self@, handle),
    {
        match self.get(handle) {
            Ok(obj) => match obj {
                Object::Value(val) => Ok(*val),
                _ => Ok(Value::Reference(handle)),
            },
            Err(e) => Err(e),
        }
    }

    /// Whether the slot is live (marked or sticky); false for out-of-range
    /// handles.
    pub fn is_marked(&self, handle: Handle) -> (r: bool)
        ensures
            r == (handle.idx < self@.flags.len() && spec_is_marked(
                self@.flags[handle.idx as int],
            )),
    {
        if handle.idx < self.flags.len() {
            is_marked(self.flags[handle.idx])
        } else {
            false
        }
    }

    /// Idempotently make the slot live, counting it on the transition from
    /// dead to live; a slot that is already live (marked or sticky) is left
    /// untouched. Fails exactly when the index is out of range, leaving the
    /// heap unchanged.
    pub fn mark(&mut self, handle: Handle) -> (r: VMResult<()>)
        requires
            heap_inv(old(self)@),
        ensures
            heap_inv(final(self)@),
            match r {
                Ok(()) => handle.idx < old(self)@.flags.len() && final(self)@ == HeapV {
                    flags: spec_mark_flags(old(self)@.flags, handle.idx as int),
                    live: old(self)@.live + if spec_is_marked(
                        old(self)@.flags[handle.idx as int],
                    ) {
                        0int
                    } else {
                        1int
                    },
                    ..old(self)@
                },
                Err(e) => handle.idx >= old(self)@.flags.len() && e == VMError::InvalidHandle
                    && final(self)@ == old(self)@,
            },
    {
        if handle.idx < self.flags.len() {
            let f = self.flags[handle.idx];
            if !is_marked(f) {
                proof {
                    lemma_count_bit_bounds(self@.flags, 0x01);
                    lemma_count_bit_bounds(self@.flags, 0x04);
                }
                self.stats.live_objects = self.stats.live_objects + 1;
                self.flags.set(handle.idx, f | FLAG_MARK);
                proof {
                    lemma_set_mark(f);
                    lemma_live_bits(f);
                    lemma_count_bit_update(old(self)@.flags, handle.idx as int, f | 0x01, 0x01);
                    lemma_count_bit_update(old(self)@.flags, handle.idx as int, f | 0x01, 0x04);
                    assert(self@.objects =~= old(self)@.objects);
                }
            }
            Ok(())
        } else {
            Err(VMError::InvalidHandle)
        }
    }

    /// Pin the slot permanently live. A newly sticky slot counts toward
    /// both the live and the sticky tallies, independent of its mark bit.
    /// Fails exactly when the index is out of range.
    pub fn sticky(&mut self, handle: Handle) -> (r: VMResult<()>)
        requires
            heap_inv(old(self)@),
        ensures
            heap_inv(final(self)@),
            match r {
                Ok(()) => handle.idx < old(self)@.flags.len() && {
                    let was = old(self)@.flags[handle.idx as int] & 0x04 != 0;
                    final(self)@ == HeapV {
                        flags: old(self)@.flags.update(
                            handle.idx as int,
                            old(self)@.flags[handle.idx as int] | 0x04,
                        ),
                        live: old(self)@.live + if was {
                            0int
                        } else {
                            1int
                        },
                        sticky: old(self)@.sticky + if was {
                            0int
                        } else {
                            1int
                        },
                        ..old(self)@
                    }
                },
                Err(e) => handle.idx >= old(self)@.flags.len() && e == VMError::InvalidHandle
                    && final(self)@ == old(self)@,
            },
    {
        if handle.idx < self.flags.len() {
            let f = self.flags[handle.idx];
            if f & FLAG_STICKY == 0 {
                proof {
                    lemma_count_bit_bounds(old(self)@.flags, 0x01);
                    lemma_count_bit_bounds(old(self)@.flags, 0x04);
                }
                self.stats.sticky_objects = self.stats.sticky_objects + 1;
                self.stats.live_objects = self.stats.live_objects + 1;
                self.flags.set(handle.idx, f | FLAG_STICKY);
                proof {
                    lemma_set_sticky(f);
                    lemma_count_bit_update(old(self)@.flags, handle.idx as int, f | 0x04, 0x01);
                    lemma_count_bit_update(old(self)@.flags, handle.idx as int, f | 0x04, 0x04);
                    assert(self@.objects =~= old(self)@.objects);
                }
            } else {
                proof {
                    lemma_set_sticky(f);
                    assert(old(self)@.flags.update(handle.idx as int, f | 0x04) =~= old(
                        self,
                    )@.flags);
                }
            }
            Ok(())
        } else {
            Err(VMError::InvalidHandle)
        }
    }

    /// Unpin the slot: a sticky slot leaves both tallies, whatever its mark
    /// bit. Fails exactly when the index is out of range.
    pub fn unsticky(&mut self, handle: Handle) -> (r: VMResult<()>)
        requires
            heap_inv(old(self)@),
        ensures
            heap_inv(final(self)@),
            match r {
                Ok(()) => handle.idx < old(self)@.flags.len() && {
                    let was = old(self)@.flags[handle.idx as int] & 0x04 != 0;
                    final(self)@ == HeapV {
                        flags: old(self)@.flags.update(
                            handle.idx as int,
                            old(self)@.flags[handle.idx as int] & 0xfb,
                        ),
                        live: old(self)@.live - if was {
                            1int
                        } else {
                            0int
                        },
                        sticky: old(self)@.sticky - if was {
                            1int
                        } else {
                            0int
                        },
                        ..old(self)@
                    }
                },
                Err(e) => handle.idx >= old(self)@.flags.len() && e == VMError::InvalidHandle
                    && final(self)@ == old(self)@,
            },
    {
        if handle.idx < self.flags.len() {
            let f = self.flags[handle.idx];
            if f & FLAG_STICKY != 0 {
                proof {
                    lemma_clear_sticky(f);
                    lemma_count_bit_update(old(self)@.flags, handle.idx as int, f & 0xfb, 0x04);
                    lemma_count_bit_update(old(self)@.flags, handle.idx as int, f & 0xfb, 0x01);
                    lemma_count_bit_bounds(
                        old(self)@.flags.update(handle.idx as int, f & 0xfb),
                        0x04,
                    );
                    lemma_count_bit_bounds(old(self)@.flags, 0x01);
                }
                self.stats.sticky_objects = self.stats.sticky_objects - 1;
                self.stats.live_objects = self.stats.live_objects - 1;
                self.flags.set(handle.idx, f & 0xfb);
                proof {
                    assert(self@.objects =~= old(self)@.objects);
                }
            } else {
                proof {
                    lemma_clear_sticky(f);
                    assert(old(self)@.flags.update(handle.idx as int, f & 0xfb) =~= old(
                        self,
                    )@.flags);
                }
            }
            Ok(())
        } else {
            Err(VMError::InvalidHandle)
        }
    }

    /// Swap the slot's content for a new object, preserving its identity:
    /// the handle stays valid, the mark and sticky bits are kept, and the
    /// type nibble and the trace bit become the new object's. Returns the
    /// old content; the handle must be in range.
    pub fn replace(&mut self, handle: Handle, obj: Object) -> (r: VMResult<Object>)
        requires
            heap_inv(old(self)@),
            handle.idx < old(self)@.objects.len(),
        ensures
            heap_inv(final(self)@),
            match r {
                Ok(old_obj) => old_obj@ == old(self)@.objects[handle.idx as int] && final(self)@ == HeapV {
                    objects: old(self)@.objects.update(handle.idx as int, obj@),
                    flags: old(self)@.flags.update(
                        handle.idx as int,
                        spec_type_flag(obj@) | (old(self)@.flags[handle.idx as int] & 0x05),
                    ),
                    ..old(self)@
                },
                Err(_) => false,
            },
    {
        let ghost pre = self@;
        let ghost objv = obj@;
        let type_flag = Self::type_flag(&obj);
        self.objects.push(obj);
        let old_obj = self.objects.swap_remove(handle.idx);
        let f = self.flags[handle.idx];
        self.flags.set(handle.idx, type_flag | (f & 0x05));
        proof {
            let i = handle.idx as int;
            lemma_type_flag_bits(objv);
            lemma_combine_flag(spec_type_flag(objv), f);
            lemma_count_bit_update(pre.flags, i, spec_type_flag(objv) | (f & 0x05), 0x01);
            lemma_count_bit_update(pre.flags, i, spec_type_flag(objv) | (f & 0x05), 0x04);
            assert(self@.objects =~= pre.objects.update(i, objv));
            assert(self@.flags =~= pre.flags.update(i, spec_type_flag(objv) | (f & 0x05)));
        }
        Ok(old_obj)
    }
}

/// The flag sequence after idempotently marking slot `i`: unchanged when
/// the slot is already live.
pub open spec fn spec_mark_flags(flags: Seq<u8>, i: int) -> Seq<u8> {
    if spec_is_marked(flags[i]) {
        flags
    } else {
        flags.update(i, flags[i] | 0x01)
    }
}

/// What [`Heap::get_value`] yields for a handle.
pub open spec fn spec_get_value(h: HeapV, handle: Handle) -> Result<Value, VMError> {
    if handle.idx < h.objects.len() {
        match h.objects[handle.idx as int] {
            ObjectV::Value(v) => Ok(v),
            _ => Ok(Value::Reference(handle)),
        }
    } else {
        Err(VMError::InvalidHandle)
    }
}

impl Value {
    /// Follow one level of reference indirection: a reference to a boxed
    /// scalar yields the scalar, a reference to any other object stays a
    /// reference, and every other value is already its own result. Fails
    /// exactly on a dangling reference.
    pub fn unref(&self, heap: &Heap) -> (r: VMResult<Value>)
        ensures
            r == spec_unref(heap@, *self),
    {
        match self {
            Value::Reference(h) => heap.get_value(*h),
            _ => Ok(*self),
        }
    }
}

/// What [`Value::unref`] yields.
pub open spec fn spec_unref(h: HeapV, v: Value) -> Result<Value, VMError> {
    match v {
        Value::Reference(hd) => spec_get_value(h, hd),
        _ => Ok(v),
    }
}

// ---------------------------------------------------------------------------
// The collector's marked set, as a least fixpoint.
// ---------------------------------------------------------------------------

/// The handle indices of a sequence of handles.
pub open spec fn handle_ids(s: Seq<Handle>) -> Seq<int> {
    s.map_values(|h: Handle| h.idx as int)
}

/// The set of live slots (mark bit or sticky bit set).
pub open spec fn marked_set(flags: Seq<u8>) -> Set<int> {
    Set::new(|i: int| 0 <= i < flags.len() && spec_is_marked(flags[i]))
}

/// The set of sticky slots.
pub open spec fn sticky_set(flags: Seq<u8>) -> Set<int> {
    Set::new(|i: int| 0 <= i < flags.len() && flags[i] & 0x04 != 0)
}

/// Whether slot `i` exists and carries the trace-needed bit.
pub open spec fn trace_flagged(flags: Seq<u8>, i: int) -> bool {
    0 <= i < flags.len() && flags[i] & 0x02 != 0
}

/// What a collection starts from: the sticky slots plus the caller's roots.
pub open spec fn gc_base(h: HeapV, roots: Seq<int>) -> Set<int> {
    sticky_set(h.flags).union(roots.to_set())
}

/// One round of tracing: everything already in `s`, plus every index that a
/// trace-flagged member of `s` refers to.
pub open spec fn gc_step(h: HeapV, s: Set<int>) -> Set<int> {
    s.union(
        Set::new(
            |j: int|
                exists|i: int|
                    s.contains(i) && trace_flagged(h.flags, i) && refs_of(h.objects[i]).contains(
                        j,
                    ),
        ),
    )
}

/// `n` rounds of tracing from `s`.
pub open spec fn gc_iter(h: HeapV, s: Set<int>, n: nat) -> Set<int>
    decreases n,
{
    if n == 0 {
        s
    } else {
        gc_step(h, gc_iter(h, s, (n - 1) as nat))
    }
}

/// The set a collection marks: the trace closure of the sticky slots and
/// the roots. Enough rounds are taken that the result is a fixpoint
/// ([`lemma_gc_marks_closed`]), and it is the least closed superset of the
/// base ([`lemma_gc_marks_least`]).
pub open spec fn gc_marks(h: HeapV, roots: Seq<int>) -> Set<int> {
    gc_iter(h, gc_base(h, roots), (h.flags.len() + 2) as nat)
}

/// `s` is closed under following the references of its trace-flagged
/// members.
pub open spec fn gc_closed(h: HeapV, s: Set<int>) -> bool {
    forall|i: int, j: int|
        s.contains(i) && trace_flagged(h.flags, i) && #[trigger] refs_of(h.objects[i]).contains(j)
            ==> s.contains(j)
}

/// Every member of `s` lies below `n`.
pub open spec fn set_in_range(s: Set<int>, n: int) -> bool {
    forall|i: int| #[trigger] s.contains(i) ==> 0 <= i < n
}

/// A collection from these roots succeeds: the roots are in range, and the
/// closure never reaches out of the slot arrays.
pub open spec fn collect_ok(h: HeapV, roots: Seq<int>) -> bool {
    &&& set_in_range(roots.to_set(), h.flags.len() as int)
    &&& set_in_range(gc_marks(h, roots), h.flags.len() as int)
}

/// The flag bytes after a collection that marks exactly `m`: every mark bit
/// is cleared, then set again on the non-sticky members of `m`. Sticky
/// members stay live through their sticky bit alone.
pub open spec fn collect_flags(flags: Seq<u8>, m: Set<int>) -> Seq<u8> {
    Seq::new(
        flags.len(),
        |i: int|
            if m.contains(i) && flags[i] & 0x04 == 0 {
                (flags[i] & 0xfe) | 0x01
            } else {
                flags[i] & 0xfe
            },
    )
}

/// The heap after a successful collection from these roots: objects,
/// capacity and growth ratio untouched, marks recomputed, the live count
/// again equal to what the flag bytes say.
pub open spec fn heap_after_collect(h: HeapV, roots: Seq<int>) -> HeapV {
    let flags = collect_flags(h.flags, gc_marks(h, roots));
    HeapV {
        flags: flags,
        live: count_bit(flags, 0x01) + count_bit(flags, 0x04),
        ..h
    }
}

/// After a successful collection the live slots are exactly the closure:
/// everything transitively reachable from the sticky slots and the roots
/// stays live, and every other slot is reclaimed — unmarked, its index
/// free for reuse.
pub proof fn lemma_collect_live_set(h: HeapV, roots: Seq<int>)
    requires
        heap_inv(h),
        collect_ok(h, roots),
    ensures
        marked_set(heap_after_collect(h, roots).flags) == gc_marks(h, roots),
{
    let m = gc_marks(h, roots);
    let flags = collect_flags(h.flags, m);
    lemma_gc_marks_closed(h, roots);
    assert forall|i: int| #[trigger] marked_set(flags).contains(i) == m.contains(i) by {
        if 0 <= i < h.flags.len() {
            lemma_clear_mark(h.flags[i]);
            lemma_set_mark(h.flags[i] & 0xfe);
            lemma_live_bits(flags[i]);
            if h.flags[i] & 0x04 != 0 {
                assert(sticky_set(h.flags).contains(i));
                assert(gc_base(h, roots).contains(i));
                assert(m.contains(i));
            }
        }
    }
    assert(marked_set(flags) =~= m);
}

/// The base set is contained in every iterate.
proof fn lemma_gc_iter_contains_base(h: HeapV, s: Set<int>, n: nat)
    ensures
        s.subset_of(gc_iter(h, s, n)),
    decreases n,
{
    if n > 0 {
        lemma_gc_iter_contains_base(h, s, (n - 1) as nat);
    }
}

/// Iterates grow with the round count.
proof fn lemma_gc_iter_mono(h: HeapV, s: Set<int>, n: nat, m: nat)
    requires
        n <= m,
    ensures
        gc_iter(h, s, n).subset_of(gc_iter(h, s, m)),
    decreases m,
{
    if n < m {
        lemma_gc_iter_mono(h, s, n, (m - 1) as nat);
    }
}

/// Every closed superset of the base contains every iterate.
proof fn lemma_gc_iter_least(h: HeapV, s: Set<int>, t: Set<int>, n: nat)
    requires
        s.subset_of(t),
        gc_closed(h, t),
    ensures
        gc_iter(h, s, n).subset_of(t),
    decreases n,
{
    if n > 0 {
        lemma_gc_iter_least(h, s, t, (n - 1) as nat);
        let prev = gc_iter(h, s, (n - 1) as nat);
        assert forall|j: int| gc_iter(h, s, n).contains(j) implies t.contains(j) by {
            if !prev.contains(j) {
                let i = choose|i: int|
                    prev.contains(i) && trace_flagged(h.flags, i) && #[trigger] refs_of(
                        h.objects[i],
                    ).contains(j);
                assert(t.contains(i));
            }
        }
    }
}

/// If one round adds no trace-flagged slot, the next round adds nothing.
proof fn lemma_gc_step_stable(h: HeapV, s: Set<int>)
    requires
        forall|i: int|
            trace_flagged(h.flags, i) ==> (#[trigger] gc_step(h, s).contains(i) == s.contains(i)),
    ensures
        gc_step(h, gc_step(h, s)) == gc_step(h, s),
{
    let s1 = gc_step(h, s);
    assert forall|j: int| #[trigger] gc_step(h, s1).contains(j) implies s1.contains(j) by {
        if !s1.contains(j) {
            let i = choose|i: int|
                s1.contains(i) && trace_flagged(h.flags, i) && #[trigger] refs_of(
                    h.objects[i],
                ).contains(j);
            assert(s.contains(i));
            assert(s1.contains(j));
        }
    }
    assert(gc_step(h, s1) =~= s1);
}

/// The in-range part of a set, which is all the closure can trace from.
spec fn rng(s: Set<int>, len: int) -> Set<int> {
    s.intersect(set_int_range(0, len))
}

/// The in-range part of any set of slots is finite and no larger than the
/// slot count.
proof fn lemma_rng_finite(s: Set<int>, len: int)
    requires
        0 <= len,
    ensures
        rng(s, len).finite(),
        rng(s, len).len() <= len,
{
    lemma_int_range(0, len);
    vstd::set_lib::lemma_len_subset(rng(s, len), set_int_range(0, len));
}

/// While consecutive iterates differ, their in-range parts grow strictly,
/// so iterate `n + 1` holds at least `n + 1` in-range slots.
proof fn lemma_gc_progress(h: HeapV, s: Set<int>, n: nat)
    ensures
        gc_iter(h, s, n + 2) == gc_iter(h, s, n + 1) || rng(
            gc_iter(h, s, n + 1),
            h.flags.len() as int,
        ).len() >= n + 1,
    decreases n,
{
    let len = h.flags.len() as int;
    let s0 = gc_iter(h, s, n);
    let s1 = gc_iter(h, s, n + 1);
    let s2 = gc_iter(h, s, n + 2);
    assert(s1 == gc_step(h, s0));
    assert(s2 == gc_step(h, s1));
    if s2 != s1 {
        // Some trace-flagged slot is new in s1, else s2 would equal s1.
        assert(!(forall|i: int|
            trace_flagged(h.flags, i) ==> (#[trigger] gc_step(h, s0).contains(i) == s0.contains(
                i,
            )))) by {
            if forall|i: int|
                trace_flagged(h.flags, i) ==> (#[trigger] gc_step(h, s0).contains(i)
                    == s0.contains(i)) {
                lemma_gc_step_stable(h, s0);
            }
        }
        let w = choose|i: int|
            trace_flagged(h.flags, i) && #[trigger] gc_step(h, s0).contains(i) != s0.contains(i);
        lemma_gc_iter_contains_base(h, s0, 1);
        assert(s1.contains(w) && !s0.contains(w));
        assert(0 <= w < len);
        lemma_rng_finite(s0, len);
        lemma_rng_finite(s1, len);
        if n == 0 {
            assert(rng(s1, len).contains(w));
            assert(rng(s1, len).len() >= 1) by {
                if rng(s1, len).len() == 0 {
                    rng(s1, len).lemma_len0_is_empty();
                }
            }
        } else {
            lemma_gc_progress(h, s, (n - 1) as nat);
            assert(s1 != s0);
            assert(rng(s0, len).len() >= n);
            // rng(s0).insert(w) is a subset of rng(s1), and w is fresh.
            let grown = rng(s0, len).insert(w);
            assert(grown.subset_of(rng(s1, len))) by {
                assert(s0.subset_of(s1)) by {
                    lemma_gc_iter_mono(h, s, n, n + 1);
                }
            }
            vstd::set_lib::lemma_len_subset(grown, rng(s1, len));
            assert(grown.len() == rng(s0, len).len() + 1);
        }
    }
}

/// After `len + 2` rounds the iterate is a fixpoint of the trace step.
proof fn lemma_gc_marks_fixpoint(h: HeapV, roots: Seq<int>)
    ensures
        gc_step(h, gc_marks(h, roots)) == gc_marks(h, roots),
{
    let base = gc_base(h, roots);
    let len = h.flags.len() as int;
    let l = h.flags.len();
    lemma_gc_progress(h, base, l);
    if gc_iter(h, base, l + 2) == gc_iter(h, base, l + 1) {
        assert(gc_step(h, gc_iter(h, base, l + 1)) == gc_iter(h, base, l + 2));
        assert(gc_step(h, gc_marks(h, roots)) == gc_step(h, gc_iter(h, base, l + 2)));
        assert(gc_iter(h, base, l + 2) == gc_step(h, gc_iter(h, base, l + 1)));
    } else {
        lemma_rng_finite(gc_iter(h, base, l + 1), len);
        assert(false);
    }
}

/// Trace correctness, first half: the marked set contains every sticky
/// slot and every root, and following the references of any trace-flagged
/// marked slot stays inside it. Whatever a marked pair or vector
/// transitively references is therefore marked too.
pub proof fn lemma_gc_marks_closed(h: HeapV, roots: Seq<int>)
    ensures
        gc_base(h, roots).subset_of(gc_marks(h, roots)),
        gc_closed(h, gc_marks(h, roots)),
{
    lemma_gc_iter_contains_base(h, gc_base(h, roots), (h.flags.len() + 2) as nat);
    lemma_gc_marks_fixpoint(h, roots);
    let m = gc_marks(h, roots);
    assert forall|i: int, j: int|
        m.contains(i) && trace_flagged(h.flags, i) && #[trigger] refs_of(h.objects[i]).contains(
            j,
        ) implies m.contains(j) by {
        assert(gc_step(h, m).contains(j));
    }
}

/// Trace correctness, second half: the marked set is the least one — any
/// set that contains the sticky slots and the roots and is closed under
/// tracing contains it. A slot outside every such set is reclaimed.
pub proof fn lemma_gc_marks_least(h: HeapV, roots: Seq<int>, t: Set<int>)
    requires
        gc_base(h, roots).subset_of(t),
        gc_closed(h, t),
    ensures
        gc_marks(h, roots).subset_of(t),
{
    lemma_gc_iter_least(h, gc_base(h, roots), t, (h.flags.len() + 2) as nat);
}

/// The heap after [`Heap::replace`] on slot `i`: the object swapped, the
/// type and trace bits renewed to match the new object, the mark and
/// sticky bits kept.
pub open spec fn spec_replace(h: HeapV, i: int, o: ObjectV) -> HeapV {
    HeapV {
        objects: h.objects.update(i, o),
        flags: h.flags.update(i, spec_type_flag(o) | (h.flags[i] & 0x05)),
        ..h
    }
}

/// Every reference held by any heap object stays inside the slot arrays.
pub open spec fn heap_refs_ok(h: HeapV) -> bool {
    forall|i: int, j: int|
        0 <= i < h.objects.len() && #[trigger] refs_of(h.objects[i]).contains(j) ==> 0 <= j
            < h.objects.len()
}

/// A heap whose objects only reference in-range slots can always be
/// collected from in-range roots: the closure never escapes the arrays.
pub proof fn lemma_refs_ok_collect_ok(h: HeapV, roots: Seq<int>)
    requires
        heap_inv(h),
        heap_refs_ok(h),
        set_in_range(roots.to_set(), h.flags.len() as int),
    ensures
        collect_ok(h, roots),
{
    let len = h.flags.len() as int;
    let t = set_int_range(0, len);
    assert(gc_closed(h, t));
    assert(gc_base(h, roots).subset_of(t));
    lemma_gc_marks_least(h, roots, t);
}

/// The sticky floor: in any consistent heap the live count never lies
/// below the sticky count, whatever sequence of operations produced it.
pub proof fn lemma_live_at_least_sticky(h: HeapV)
    requires
        heap_inv(h),
    ensures
        h.live >= h.sticky,
{
    lemma_count_bit_bounds(h.flags, 0x01);
}

// ---------------------------------------------------------------------------
// Collection and allocation.
// ---------------------------------------------------------------------------

/// Everything of two heap states agrees except possibly the mark bits, the
/// live count and the grey worklist.
pub open spec fn heap_frame(pre: HeapV, post: HeapV) -> bool {
    &&& post.objects == pre.objects
    &&& post.capacity == pre.capacity
    &&& post.grow_num == pre.grow_num
    &&& post.grow_den == pre.grow_den
    &&& post.sticky == pre.sticky
    &&& post.flags.len() == pre.flags.len()
    &&& forall|i: int|
        0 <= i < pre.flags.len() ==> #[trigger] post.flags[i] & 0xfe == pre.flags[i] & 0xfe
}

/// A u8 is determined by its low bit and the rest.
proof fn lemma_flag_reconstruct(x: u8, y: u8)
    by (bit_vector)
    requires
        x & 0xfe == y & 0xfe,
        (x & 0x01 != 0) == (y & 0x01 != 0),
    ensures
        x == y,
{
}

/// Bits above the mark bit determine stickiness, traceability and type.
proof fn lemma_frame_bits(x: u8, y: u8)
    by (bit_vector)
    requires
        x & 0xfe == y & 0xfe,
    ensures
        x & 0x04 == y & 0x04,
        x & 0x02 == y & 0x02,
        x & 0xf0 == y & 0xf0,
{
}

/// An object without references never needs tracing; contrapositively, a
/// slot whose object has references carries the trace bit in a consistent
/// heap.
proof fn lemma_refs_imply_traceable(o: ObjectV)
    ensures
        refs_of(o).len() > 0 ==> needs_trace_obj(o),
{
}

/// A bit set nowhere counts to zero.
proof fn lemma_count_bit_zero(flags: Seq<u8>, bit: u8)
    requires
        forall|i: int| 0 <= i < flags.len() ==> #[trigger] flags[i] & bit == 0,
    ensures
        count_bit(flags, bit) == 0,
    decreases flags.len(),
{
    if flags.len() > 0 {
        assert(forall|i: int|
            0 <= i < flags.len() - 1 ==> #[trigger] flags.drop_last()[i] & bit == flags[i] & bit);
        lemma_count_bit_zero(flags.drop_last(), bit);
        assert(flags[flags.len() - 1] & bit == 0);
    }
}

/// Sequences that agree pointwise on a bit have the same count for it.
proof fn lemma_count_bit_pointwise(f1: Seq<u8>, f2: Seq<u8>, bit: u8)
    requires
        f1.len() == f2.len(),
        forall|i: int| 0 <= i < f1.len() ==> (#[trigger] f1[i] & bit != 0) == (f2[i] & bit != 0),
    ensures
        count_bit(f1, bit) == count_bit(f2, bit),
    decreases f1.len(),
{
    if f1.len() > 0 {
        assert(forall|i: int|
            0 <= i < f1.len() - 1 ==> (#[trigger] f1.drop_last()[i] & bit != 0) == (
            f2.drop_last()[i] & bit != 0)) by {
            assert(forall|i: int|
                0 <= i < f1.len() - 1 ==> #[trigger] f1.drop_last()[i] == f1[i]
                    && f2.drop_last()[i] == f2[i]);
        }
        lemma_count_bit_pointwise(f1.drop_last(), f2.drop_last(), bit);
        assert((f1[f1.len() - 1] & bit != 0) == (f2[f1.len() - 1] & bit != 0));
    }
}

/// A pointwise implication between bit patterns bounds the counts.
proof fn lemma_count_bit_le_pointwise(f1: Seq<u8>, f2: Seq<u8>, bit: u8)
    requires
        f1.len() == f2.len(),
        forall|i: int| 0 <= i < f1.len() && #[trigger] f1[i] & bit != 0 ==> f2[i] & bit != 0,
    ensures
        count_bit(f1, bit) <= count_bit(f2, bit),
    decreases f1.len(),
{
    if f1.len() > 0 {
        assert(forall|i: int|
            0 <= i < f1.len() - 1 ==> #[trigger] f1.drop_last()[i] == f1[i] && f2.drop_last()[i]
                == f2[i]);
        lemma_count_bit_le_pointwise(f1.drop_last(), f2.drop_last(), bit);
        assert(f1[f1.len() - 1] & bit != 0 ==> f2[f1.len() - 1] & bit != 0);
    }
}

/// Appending a value appends its references.
pub proof fn lemma_refs_of_values_push(vs: Seq<Value>, v: Value)
    ensures
        refs_of_values(vs.push(v)) == refs_of_values(vs) + refs_of_value(v),
    decreases vs.len(),
{
    if vs.len() == 0 {
        let p = vs.push(v);
        assert(p.drop_first() =~= Seq::<Value>::empty());
        assert(p[0] == v);
        assert(refs_of_values(p.drop_first()) == Seq::<int>::empty());
        assert(refs_of_values(p) == refs_of_value(v) + refs_of_values(p.drop_first()));
        assert(refs_of_values(vs) == Seq::<int>::empty());
        assert(refs_of_values(p) =~= refs_of_values(vs) + refs_of_value(v));
    } else {
        assert(vs.push(v).drop_first() =~= vs.drop_first().push(v));
        lemma_refs_of_values_push(vs.drop_first(), v);
        assert(vs.push(v)[0] == vs[0]);
        assert(refs_of_value(vs[0]) + (refs_of_values(vs.drop_first()) + refs_of_value(v))
            =~= (refs_of_value(vs[0]) + refs_of_values(vs.drop_first())) + refs_of_value(v));
    }
}

/// The capacity after the post-collection growth check: live times the
/// growth ratio, rounded up (and saturated at the address-space limit),
/// if that exceeds the current capacity.
pub open spec fn grown(h: HeapV) -> HeapV {
    let t = (h.live * h.grow_num + h.grow_den - 1) / h.grow_den;
    let t2 = if t > usize::MAX as int {
        usize::MAX as int
    } else {
        t
    };
    if t2 > h.capacity {
        HeapV { capacity: t2, ..h }
    } else {
        h
    }
}

/// The first slot whose mark and sticky bits are both clear, from `from`
/// on; the length when there is none.
pub open spec fn first_unmarked(flags: Seq<u8>, from: int) -> int
    decreases flags.len() - from,
{
    if from < 0 || from >= flags.len() {
        flags.len() as int
    } else if !spec_is_marked(flags[from]) {
        from
    } else {
        first_unmarked(flags, from + 1)
    }
}

/// Where an object lands without a collection: a fresh slot while storage
/// is below capacity, else the first unmarked slot, overwritten in place.
/// Either way the slot's flag byte becomes the object's type flag with the
/// mark bit set.
pub open spec fn place_new(h: HeapV, o: ObjectV) -> (HeapV, int) {
    if h.flags.len() < h.capacity {
        (
            HeapV {
                flags: h.flags.push(spec_type_flag(o) | 0x01),
                objects: h.objects.push(o),
                live: h.live + 1,
                ..h
            },
            h.flags.len() as int,
        )
    } else {
        let i = first_unmarked(h.flags, 0);
        (
            HeapV {
                flags: h.flags.update(i, spec_type_flag(o) | 0x01),
                objects: h.objects.update(i, o),
                live: h.live + 1,
                ..h
            },
            i,
        )
    }
}

/// What [`Heap::allocate`] does: place directly while the live count is under
/// capacity; otherwise collect from the given roots, grow if the live
/// survivors still crowd the capacity, and place into the room that made.
pub open spec fn spec_alloc(h: HeapV, o: ObjectV, roots: Seq<int>) -> (HeapV, int) {
    if h.live >= h.capacity {
        place_new(grown(heap_after_collect(h, roots)), o)
    } else {
        place_new(h, o)
    }
}

/// When some slot from `from` on is free, the scan finds the first one:
/// everything before it is live, it is not, and it is in range.
proof fn lemma_first_unmarked_props(flags: Seq<u8>, from: int)
    requires
        0 <= from <= flags.len(),
        exists|i: int| from <= i < flags.len() && !spec_is_marked(#[trigger] flags[i]),
    ensures
        from <= first_unmarked(flags, from) < flags.len(),
        !spec_is_marked(flags[first_unmarked(flags, from)]),
        forall|j: int| from <= j < first_unmarked(flags, from) ==> spec_is_marked(
            #[trigger] flags[j],
        ),
    decreases flags.len() - from,
{
    if spec_is_marked(flags[from]) {
        let w = choose|i: int| from <= i < flags.len() && !spec_is_marked(#[trigger] flags[i]);
        assert(from + 1 <= w);
        lemma_first_unmarked_props(flags, from + 1);
    }
}

/// Capacity and growth: allocating below capacity never grows or collects;
/// allocation at capacity collects first, and the capacity that results is
/// the one the growth rule computes from the post-collection live count —
/// the current capacity when the survivors leave room, else live times the
/// growth ratio, rounded up.
pub proof fn lemma_alloc_capacity(h: HeapV, o: ObjectV, roots: Seq<int>)
    ensures
        h.live < h.capacity ==> spec_alloc(h, o, roots).0.capacity == h.capacity,
        h.live >= h.capacity ==> spec_alloc(h, o, roots).0.capacity == grown(
            heap_after_collect(h, roots),
        ).capacity,
{
}

/// Slot reuse: once storage has reached capacity, an allocation below the
/// live ceiling lands exactly on the first unmarked slot, whose handle
/// then observes the new content; storage does not extend.
pub proof fn lemma_alloc_reuses_first_free(h: HeapV, o: ObjectV, roots: Seq<int>)
    requires
        heap_inv(h),
        h.live < h.capacity,
        h.flags.len() == h.capacity,
    ensures
        spec_alloc(h, o, roots).1 == first_unmarked(h.flags, 0),
        0 <= spec_alloc(h, o, roots).1 < h.flags.len(),
        !spec_is_marked(h.flags[spec_alloc(h, o, roots).1]),
        spec_alloc(h, o, roots).0.objects[spec_alloc(h, o, roots).1] == o,
        spec_alloc(h, o, roots).0.objects.len() == h.objects.len(),
{
    lemma_count_live_le(h.flags);
    lemma_count_bit_full(h.flags, 0x05);
    assert(exists|i: int| 0 <= i < h.flags.len() && !spec_is_marked(#[trigger] h.flags[i])) by {
        let w = choose|i: int| 0 <= i < h.flags.len() && #[trigger] h.flags[i] & 0x05 == 0;
        assert(!spec_is_marked(h.flags[w]));
    }
    lemma_first_unmarked_props(h.flags, 0);
}

/// An allocation below the live ceiling touches no live slot: it lands in
/// a fresh slot or in an unmarked one, every marked or sticky slot keeps
/// its flag byte and object, and the new slot comes out marked with the
/// new object.
pub proof fn lemma_place_preserves(h: HeapV, o: ObjectV)
    requires
        heap_inv(h),
        h.live < h.capacity,
        h.flags.len() + 1 <= usize::MAX as int / 2,
    ensures
        ({
            let (h2, idx) = place_new(h, o);
            &&& heap_inv(h2)
            &&& h.objects.len() <= h2.objects.len() <= h.objects.len() + 1
            &&& h2.capacity == h.capacity
            &&& h2.sticky == h.sticky
            &&& h2.live == h.live + 1
            &&& h2.greys == h.greys
            &&& h2.grow_num == h.grow_num
            &&& h2.grow_den == h.grow_den
            &&& 0 <= idx < h2.objects.len()
            &&& h2.objects[idx] == o
            &&& spec_is_marked(h2.flags[idx])
            &&& forall|j: int|
                0 <= j < h.objects.len() && spec_is_marked(#[trigger] h.flags[j]) ==> h2.flags[j]
                    == h.flags[j] && h2.objects[j] == h.objects[j]
        }),
{
    lemma_type_flag_bits(o);
    lemma_set_mark(spec_type_flag(o));
    lemma_live_bits(spec_type_flag(o) | 0x01);
    if h.flags.len() < h.capacity {
        lemma_count_bit_push(h.flags, spec_type_flag(o) | 0x01, 0x01);
        lemma_count_bit_push(h.flags, spec_type_flag(o) | 0x01, 0x04);
    } else {
        lemma_count_live_le(h.flags);
        lemma_count_bit_full(h.flags, 0x05);
        assert(exists|i: int|
            0 <= i < h.flags.len() && !spec_is_marked(#[trigger] h.flags[i])) by {
            let w = choose|i: int| 0 <= i < h.flags.len() && #[trigger] h.flags[i] & 0x05 == 0;
            assert(!spec_is_marked(h.flags[w]));
        }
        lemma_first_unmarked_props(h.flags, 0);
        let i = first_unmarked(h.flags, 0);
        lemma_live_bits(h.flags[i]);
        lemma_count_bit_update(h.flags, i, spec_type_flag(o) | 0x01, 0x01);
        lemma_count_bit_update(h.flags, i, spec_type_flag(o) | 0x01, 0x04);
    }
}

/// Replace preserves identity: the handle stays valid, every other slot is
/// untouched, and the slot's liveness (mark or sticky) survives the swap,
/// while the stored object, its type nibble and its trace bit all become
/// the new object's.
pub proof fn lemma_replace_identity(h: HeapV, i: int, o: ObjectV)
    requires
        heap_inv(h),
        0 <= i < h.objects.len(),
    ensures
        spec_replace(h, i, o).objects.len() == h.objects.len(),
        spec_replace(h, i, o).objects[i] == o,
        forall|j: int|
            0 <= j < h.objects.len() && j != i ==> spec_replace(h, i, o).objects[j]
                == h.objects[j],
        spec_replace(h, i, o).flags[i] & 0x01 == h.flags[i] & 0x01,
        spec_replace(h, i, o).flags[i] & 0x04 == h.flags[i] & 0x04,
        spec_is_marked(spec_replace(h, i, o).flags[i]) == spec_is_marked(h.flags[i]),
        spec_replace(h, i, o).flags[i] & 0xf0 == spec_type_flag(o) & 0xf0,
        spec_replace(h, i, o).flags[i] & 0x02 == spec_type_flag(o) & 0x02,
{
    lemma_type_flag_bits(o);
    lemma_combine_flag(spec_type_flag(o), h.flags[i]);
    lemma_live_bits(h.flags[i]);
    lemma_live_bits(spec_type_flag(o) | (h.flags[i] & 0x05));
}

/// Destructive field update on an existing pair, as `XAR`/`XDR` perform
/// it: only the requested field changes, the other is carried over, the
/// cell's handle names the same slot, every other slot is untouched, and
/// the slot's liveness survives.
pub proof fn lemma_xar_in_place(h: HeapV, i: int, val: Value, set_car: bool)
    requires
        heap_inv(h),
        0 <= i < h.objects.len(),
        h.objects[i] matches ObjectV::Pair(_, _),
    ensures
        match h.objects[i] {
            ObjectV::Pair(car, cdr) => {
                let o = if set_car {
                    ObjectV::Pair(val, cdr)
                } else {
                    ObjectV::Pair(car, val)
                };
                let h2 = spec_replace(h, i, o);
                &&& h2.objects.len() == h.objects.len()
                &&& h2.objects[i] == o
                &&& forall|j: int|
                    0 <= j < h.objects.len() && j != i ==> h2.objects[j] == h.objects[j]
                &&& spec_is_marked(h2.flags[i]) == spec_is_marked(h.flags[i])
            },
            _ => true,
        },
{
    match h.objects[i] {
        ObjectV::Pair(car, cdr) => {
            let o = if set_car {
                ObjectV::Pair(val, cdr)
            } else {
                ObjectV::Pair(car, val)
            };
            lemma_replace_identity(h, i, o);
        },
        _ => {},
    }
}

/// The scan of [`first_unmarked`] lands on `i` when everything before `i`
/// is live and `i` is not.
proof fn lemma_first_unmarked_at(flags: Seq<u8>, from: int, i: int)
    requires
        0 <= from <= i < flags.len(),
        forall|j: int| from <= j < i ==> spec_is_marked(#[trigger] flags[j]),
        !spec_is_marked(flags[i]),
    ensures
        first_unmarked(flags, from) == i,
    decreases i - from,
{
    if from < i {
        lemma_first_unmarked_at(flags, from + 1, i);
    }
}

/// Marks grown only onto referents of one marked slot stay inside the
/// closure fixpoint `m`.
proof fn lemma_marks_stay_in_m(pre: HeapV, snap: HeapV, post: HeapV, m: Set<int>, s: int)
    requires
        heap_inv(pre),
        gc_step(pre, m) == m,
        marked_set(snap.flags).subset_of(m),
        snap.objects == pre.objects,
        snap.flags.len() == pre.flags.len(),
        post.flags.len() == pre.flags.len(),
        0 <= s < pre.flags.len(),
        spec_is_marked(snap.flags[s]),
        forall|i: int|
            0 <= i < pre.flags.len() ==> #[trigger] snap.flags[i] & 0xfe == pre.flags[i] & 0xfe,
        forall|i: int|
            0 <= i < pre.flags.len() && !spec_is_marked(snap.flags[i]) && spec_is_marked(
                #[trigger] post.flags[i],
            ) ==> refs_of(snap.objects[s]).contains(i),
        forall|i: int|
            0 <= i < pre.flags.len() && spec_is_marked(snap.flags[i]) ==> spec_is_marked(
                #[trigger] post.flags[i],
            ),
    ensures
        marked_set(post.flags).subset_of(m),
{
    assert forall|a: int| #[trigger] marked_set(post.flags).contains(a) implies m.contains(a) by {
        if !spec_is_marked(snap.flags[a]) {
            assert(refs_of(pre.objects[s]).contains(a));
            assert(refs_of(pre.objects[s]).len() > 0);
            lemma_refs_imply_traceable(pre.objects[s]);
            assert(flag_type_ok(pre.flags[s], pre.objects[s]));
            lemma_frame_bits(snap.flags[s], pre.flags[s]);
            assert(trace_flagged(pre.flags, s));
            assert(m.contains(s));
            assert(gc_step(pre, m).contains(a));
        } else {
            assert(marked_set(snap.flags).contains(a));
        }
    }
}

/// The mark bit lands only on non-sticky slots, step by step.
proof fn lemma_bit1_nonsticky(snap: Seq<u8>, post: Seq<u8>)
    requires
        snap.len() == post.len(),
        forall|i: int|
            0 <= i < snap.len() && spec_is_marked(snap[i]) ==> #[trigger] post[i] == snap[i],
        forall|i: int|
            0 <= i < snap.len() && !spec_is_marked(snap[i]) ==> #[trigger] post[i] == snap[i]
                || post[i] == snap[i] | 0x01,
        forall|k: int| 0 <= k < snap.len() && #[trigger] snap[k] & 0x01 != 0 ==> snap[k] & 0x04 == 0,
    ensures
        forall|k: int| 0 <= k < post.len() && #[trigger] post[k] & 0x01 != 0 ==> post[k] & 0x04 == 0,
{
    assert forall|k: int| 0 <= k < post.len() && #[trigger] post[k] & 0x01 != 0 implies post[k]
        & 0x04 == 0 by {
        lemma_live_bits(snap[k]);
        lemma_set_mark(snap[k]);
        if !spec_is_marked(snap[k]) {
            assert(snap[k] & 0x04 == 0);
        }
    }
}

/// The references of values that all point below `len` themselves lie
/// below `len`.
pub proof fn lemma_refs_of_values_in_range(vs: Seq<Value>, len: int)
    requires
        forall|k: int|
            0 <= k < vs.len() ==> match #[trigger] vs[k] {
                Value::Reference(h) => h.idx < len,
                _ => true,
            },
    ensures
        forall|k: int|
            0 <= k < refs_of_values(vs).len() ==> 0 <= #[trigger] refs_of_values(vs)[k] < len,
    decreases vs.len(),
{
    if vs.len() > 0 {
        assert(forall|k: int|
            0 <= k < vs.drop_first().len() ==> #[trigger] vs.drop_first()[k] == vs[k + 1]);
        lemma_refs_of_values_in_range(vs.drop_first(), len);
        assert forall|k: int|
            0 <= k < refs_of_values(vs).len() implies 0 <= #[trigger] refs_of_values(vs)[k]
            < len by {
            let head = refs_of_value(vs[0]);
            if k >= head.len() {
                assert(refs_of_values(vs)[k] == refs_of_values(vs.drop_first())[k - head.len()]);
            }
        }
    }
}

impl Heap {
    /// The handles an object refers to, in trace order.
    fn object_refs(obj: &Object) -> (r: Vec<Handle>)
        ensures
            handle_ids(r@) == refs_of(obj@),
    {
        let mut out: Vec<Handle> = Vec::new();
        proof {
            assert(handle_ids(out@) =~= Seq::<int>::empty());
        }
        match obj {
            Object::Value(v) => {
                if let Value::Reference(h) = v {
                    out.push(*h);
                    proof {
                        assert(handle_ids(out@) =~= refs_of(obj@));
                    }
                }
            },
            Object::Vector(vs) => {
                let n = vs.len();
                let mut k: usize = 0;
                while k < n
                    invariant
                        n == vs.len(),
                        k <= n,
                        handle_ids(out@) == refs_of_values(vs@.subrange(0, k as int)),
                    decreases n - k,
                {
                    let ghost prefix = vs@.subrange(0, k as int);
                    let v = vs[k];
                    if let Value::Reference(h) = v {
                        out.push(h);
                    }
                    proof {
                        assert(vs@.subrange(0, k + 1int) =~= prefix.push(vs@[k as int]));
                        lemma_refs_of_values_push(prefix, vs@[k as int]);
                        assert(handle_ids(out@) =~= refs_of_values(vs@.subrange(0, k + 1int)));
                    }
                    k = k + 1;
                }
                proof {
                    assert(vs@.subrange(0, vs@.len() as int) =~= vs@);
                }
            },
            Object::Pair(a, b) => {
                if let Value::Reference(h) = a {
                    out.push(*h);
                }
                if let Value::Reference(h) = b {
                    out.push(*h);
                }
                proof {
                    assert(handle_ids(out@) =~= refs_of(obj@));
                }
            },
            _ => {
                proof {
                    assert(handle_ids(out@) =~= refs_of(obj@));
                }
            },
        }
        out
    }

    /// Mark a referent if it is not already live; one marked behind the
    /// sweep cursor goes onto the grey worklist so the sweep revisits it.
    fn mark_trace(&mut self, handle: Handle, current: usize) -> (r: VMResult<()>)
        requires
            heap_inv(old(self)@),
        ensures
            heap_inv(final(self)@),
            match r {
                Ok(()) => handle.idx < old(self)@.flags.len() && (if spec_is_marked(
                    old(self)@.flags[handle.idx as int],
                ) {
                    final(self)@ == old(self)@
                } else {
                    final(self)@ == (HeapV {
                        flags: old(self)@.flags.update(
                            handle.idx as int,
                            old(self)@.flags[handle.idx as int] | 0x01,
                        ),
                        live: old(self)@.live + 1,
                        greys: if handle.idx < current {
                            old(self)@.greys.push(handle.idx as int)
                        } else {
                            old(self)@.greys
                        },
                        ..old(self)@
                    })
                }),
                Err(e) => handle.idx >= old(self)@.flags.len() && e == VMError::InvalidHandle
                    && final(self)@ == old(self)@,
            },
    {
        if !self.is_marked(handle) {
            match self.mark(handle) {
                Ok(()) => {},
                Err(e) => {
                    return Err(e);
                },
            }
            if handle.idx < current {
                self.greys.push(handle.idx);
                proof {
                    assert(self@.greys =~= old(self)@.greys.push(handle.idx as int));
                }
            }
        }
        Ok(())
    }

    /// Trace one slot: mark every slot its object refers to. Fails exactly
    /// when one of those references is out of range; references before the
    /// failing one stay marked.
    fn trace(&mut self, idx: usize, current: usize) -> (r: VMResult<()>)
        requires
            heap_inv(old(self)@),
            idx < old(self)@.flags.len(),
            current <= old(self)@.flags.len(),
        ensures
            heap_inv(final(self)@),
            heap_frame(old(self)@, final(self)@),
            // Live slots are untouched; a dead slot at most gains the mark bit.
            forall|i: int|
                0 <= i < old(self)@.flags.len() && spec_is_marked(old(self)@.flags[i])
                    ==> #[trigger] final(self)@.flags[i] == old(self)@.flags[i],
            forall|i: int|
                0 <= i < old(self)@.flags.len() && !spec_is_marked(old(self)@.flags[i])
                    ==> #[trigger] final(self)@.flags[i] == old(self)@.flags[i]
                    || final(self)@.flags[i] == old(self)@.flags[i] | 0x01,
            // Marks grow monotonically, and only onto referents of this slot.
            forall|i: int|
                0 <= i < old(self)@.flags.len() && spec_is_marked(old(self)@.flags[i])
                    ==> spec_is_marked(#[trigger] final(self)@.flags[i]),
            forall|i: int|
                0 <= i < old(self)@.flags.len() && !spec_is_marked(old(self)@.flags[i])
                    && spec_is_marked(#[trigger] final(self)@.flags[i]) ==> refs_of(
                    old(self)@.objects[idx as int],
                ).contains(i),
            // The grey worklist only grows, by marked indices behind the cursor,
            // and every freshly marked index behind the cursor is on it.
            final(self)@.greys.len() >= old(self)@.greys.len(),
            final(self)@.greys.subrange(0, old(self)@.greys.len() as int) == old(self)@.greys,
            forall|k: int|
                old(self)@.greys.len() <= k < final(self)@.greys.len() ==> 0 <= #[trigger] final(self)@.greys[k]
                    < current && spec_is_marked(final(self)@.flags[final(self)@.greys[k]]),
            forall|j: int|
                0 <= j < old(self)@.flags.len() && !spec_is_marked(old(self)@.flags[j])
                    && spec_is_marked(#[trigger] final(self)@.flags[j]) && j < current
                    ==> final(self)@.greys.contains(j),
            // The worklist grows no faster than the marked population.
            final(self)@.greys.len() - old(self)@.greys.len() <= count_bit(
                final(self)@.flags,
                0x05,
            ) - count_bit(old(self)@.flags, 0x05),
            match r {
                Ok(()) => forall|j: int|
                    #[trigger] refs_of(old(self)@.objects[idx as int]).contains(j) ==> 0 <= j
                        < old(self)@.flags.len() && spec_is_marked(final(self)@.flags[j]),
                Err(e) => e == VMError::InvalidHandle && exists|j: int|
                    #[trigger] refs_of(old(self)@.objects[idx as int]).contains(j) && !(0 <= j
                        < old(self)@.flags.len()),
            },
    {
        let ghost pre = old(self)@;
        let ghost full = refs_of(pre.objects[idx as int]);
        let refs = Self::object_refs(&self.objects[idx]);
        proof {
            assert(self.objects@.map_values(|o: Object| o@)[idx as int] == self.objects@[idx
                as int]@);
        }
        let n = refs.len();
        let mut k: usize = 0;
        while k < n
            invariant
                pre == old(self)@,
                full == refs_of(pre.objects[idx as int]),
                idx < pre.flags.len(),
                heap_inv(self@),
                heap_frame(pre, self@),
                n == refs.len(),
                k <= n,
                handle_ids(refs@) == full,
                forall|i: int|
                    0 <= i < pre.flags.len() && spec_is_marked(pre.flags[i])
                        ==> #[trigger] self@.flags[i] == pre.flags[i],
                forall|i: int|
                    0 <= i < pre.flags.len() && !spec_is_marked(pre.flags[i])
                        ==> #[trigger] self@.flags[i] == pre.flags[i] || self@.flags[i]
                        == pre.flags[i] | 0x01,
                forall|i: int|
                    0 <= i < pre.flags.len() && spec_is_marked(pre.flags[i]) ==> spec_is_marked(
                        #[trigger] self@.flags[i],
                    ),
                forall|i: int|
                    0 <= i < pre.flags.len() && !spec_is_marked(pre.flags[i]) && spec_is_marked(
                        #[trigger] self@.flags[i],
                    ) ==> full.contains(i),
                self@.greys.len() >= pre.greys.len(),
                self@.greys.subrange(0, pre.greys.len() as int) == pre.greys,
                forall|kk: int|
                    pre.greys.len() <= kk < self@.greys.len() ==> 0 <= #[trigger] self@.greys[kk]
                        < current && spec_is_marked(self@.flags[self@.greys[kk]]),
                forall|j: int|
                    0 <= j < pre.flags.len() && !spec_is_marked(pre.flags[j]) && spec_is_marked(
                        #[trigger] self@.flags[j],
                    ) && j < current ==> self@.greys.contains(j),
                self@.greys.len() - pre.greys.len() <= count_bit(self@.flags, 0x05) - count_bit(
                    pre.flags,
                    0x05,
                ),
                forall|j: int|
                    0 <= j < k ==> {
                        let t = #[trigger] handle_ids(refs@)[j];
                        0 <= t < pre.flags.len() && spec_is_marked(self@.flags[t])
                    },
                current <= pre.flags.len(),
            decreases n - k,
        {
            let ghost snap = self@;
            let h = refs[k];
            let res = self.mark_trace(h, current);
            proof {
                assert(handle_ids(refs@)[k as int] == h.idx as int);
                assert(full.contains(h.idx as int)) by {
                    assert(full[k as int] == h.idx as int);
                }
                if h.idx < snap.flags.len() && !spec_is_marked(snap.flags[h.idx as int]) {
                    lemma_set_mark(snap.flags[h.idx as int]);
                    lemma_count_bit_update(
                        snap.flags,
                        h.idx as int,
                        snap.flags[h.idx as int] | 0x01,
                        0x05,
                    );
                }
                assert forall|i: int|
                    0 <= i < pre.flags.len() && !spec_is_marked(pre.flags[i]) implies #[trigger] self@.flags[i]
                    == pre.flags[i] || self@.flags[i] == pre.flags[i] | 0x01 by {
                    lemma_set_mark(pre.flags[i]);
                }
                assert forall|i: int|
                    0 <= i < pre.flags.len() && spec_is_marked(pre.flags[i]) implies #[trigger] self@.flags[i]
                    == pre.flags[i] by {
                    lemma_set_mark(pre.flags[i]);
                }
                if self@.greys.len() > snap.greys.len() {
                    assert(self@.greys.subrange(0, pre.greys.len() as int) =~= snap.greys.subrange(
                        0,
                        pre.greys.len() as int,
                    ));
                    assert forall|j: int| snap.greys.contains(j) implies self@.greys.contains(
                        j,
                    ) by {
                        let kk = choose|kk: int|
                            0 <= kk < snap.greys.len() && snap.greys[kk] == j;
                        assert(self@.greys[kk] == j);
                    }
                    assert(self@.greys.contains(h.idx as int)) by {
                        assert(self@.greys[snap.greys.len() as int] == h.idx as int);
                    }
                } else {
                    assert(self@.greys.subrange(0, pre.greys.len() as int) == snap.greys.subrange(
                        0,
                        pre.greys.len() as int,
                    ));
                }
            }
            match res {
                Ok(()) => {},
                Err(e) => {
                    proof {
                        assert(full.contains(handle_ids(refs@)[k as int]));
                        assert(handle_ids(refs@)[k as int] == h.idx as int);
                    }
                    return Err(e);
                },
            }
            k = k + 1;
        }
        proof {
            assert forall|j: int| #[trigger] full.contains(j) implies 0 <= j < pre.flags.len()
                && spec_is_marked(self@.flags[j]) by {
            let kk = choose|kk: int| 0 <= kk < full.len() && full[kk] == j;
                assert(handle_ids(refs@)[kk] == j);
            }
        }
        Ok(())
    }

    /// Mark-sweep collection. The live count falls back to the sticky
    /// count and every mark bit is cleared; the caller's roots are marked;
    /// then a single forward sweep traces every live, trace-flagged slot,
    /// draining the grey worklist of back-references before advancing. No
    /// object is moved or overwritten: reclaiming a slot only leaves its
    /// mark bit clear, for the next allocation to reuse.
    ///
    /// On success the live slots afterwards are exactly [`gc_marks`]: the
    /// least set containing the sticky slots and the roots that is closed
    /// under following references. Fails (with an invalid-handle error)
    /// exactly when a root, or a reference reachable from the base, lies
    /// out of range; type, trace and sticky bits survive either way.
    pub fn collect(&mut self, roots: &[Handle]) -> (r: VMResult<()>)
        requires
            heap_ready(old(self)@),
        ensures
            heap_ready(final(self)@),
            heap_frame(old(self)@, final(self)@),
            match r {
                Ok(()) => collect_ok(old(self)@, handle_ids(roots@)) && final(self)@
                    == heap_after_collect(old(self)@, handle_ids(roots@)),
                Err(e) => e == VMError::InvalidHandle && !collect_ok(
                    old(self)@,
                    handle_ids(roots@),
                ),
            },
    {
        let ghost pre = old(self)@;
        let ghost ids = handle_ids(roots@);
        let ghost m = gc_marks(pre, ids);
        proof {
            lemma_gc_marks_closed(pre, ids);
            lemma_gc_marks_fixpoint(pre, ids);
        }
        let n = self.flags.len();

        // Live count back to the sticky floor; every mark bit cleared.
        self.stats.live_objects = self.stats.sticky_objects;
        let mut i: usize = 0;
        while i < n
            invariant
                pre == old(self)@,
                heap_ready(pre),
                n == pre.flags.len(),
                i <= n,
                self@.objects == pre.objects,
                self@.greys == pre.greys,
                self@.capacity == pre.capacity,
                self@.grow_num == pre.grow_num,
                self@.grow_den == pre.grow_den,
                self@.sticky == pre.sticky,
                self@.live == pre.sticky,
                self@.flags.len() == n,
                forall|j: int| 0 <= j < i ==> #[trigger] self@.flags[j] == pre.flags[j] & 0xfe,
                forall|j: int| i <= j < n ==> #[trigger] self@.flags[j] == pre.flags[j],
            decreases n - i,
        {
            let f = self.flags[i];
            self.flags.set(i, f & 0xfe);
            i = i + 1;
        }
        proof {
            assert forall|j: int| 0 <= j < n implies (#[trigger] self@.flags[j] & 0x01 == 0
                && self@.flags[j] & 0x04 == pre.flags[j] & 0x04 && self@.flags[j] & 0xfe
                == pre.flags[j] & 0xfe && (spec_is_marked(self@.flags[j]) == (pre.flags[j] & 0x04
                != 0)) && flag_type_ok(self@.flags[j], pre.objects[j])) by {
                lemma_clear_mark(pre.flags[j]);
                lemma_frame_bits(self@.flags[j], pre.flags[j]);
            }
            lemma_count_bit_zero(self@.flags, 0x01);
            lemma_count_bit_pointwise(self@.flags, pre.flags, 0x04);
            assert(heap_inv(self@));
            assert(marked_set(self@.flags) =~= sticky_set(pre.flags));
        }

        // The caller's roots.
        let mut j: usize = 0;
        while j < roots.len()
            invariant
                pre == old(self)@,
                heap_ready(pre),
                ids == handle_ids(roots@),
                n == pre.flags.len(),
                j <= roots.len(),
                heap_inv(self@),
                heap_frame(pre, self@),
                self@.greys == pre.greys,
                self@.greys.len() == 0,
                forall|k: int| 0 <= k < j ==> 0 <= #[trigger] ids[k] < n,
                marked_set(self@.flags) == sticky_set(pre.flags).union(
                    ids.take(j as int).to_set(),
                ),
                forall|k: int|
                    0 <= k < n && #[trigger] self@.flags[k] & 0x01 != 0 ==> self@.flags[k] & 0x04
                        == 0,
            decreases roots.len() - j,
        {
            let ghost snap = self@;
            let root = roots[j];
            match self.mark(root) {
                Ok(()) => {},
                Err(e) => {
                    proof {
                        assert(ids[j as int] == root.idx as int);
                        assert(ids.to_set().contains(ids[j as int]));
                        assert(!set_in_range(ids.to_set(), n as int));
                    }
                    return Err(e);
                },
            }
            proof {
                assert(ids[j as int] == root.idx as int);
                let idx = root.idx as int;
                if !spec_is_marked(snap.flags[idx]) {
                    lemma_set_mark(snap.flags[idx]);
                    lemma_live_bits(snap.flags[idx]);
                }
                assert forall|a: int| #[trigger] ids.take(j + 1int).contains(a) implies ids.take(
                    j as int,
                ).contains(a) || a == ids[j as int] by {
                    let kk = choose|kk: int|
                        0 <= kk < ids.take(j + 1int).len() && #[trigger] ids.take(j + 1int)[kk]
                            == a;
                    if kk < j {
                        assert(ids.take(j as int)[kk] == a);
                    }
                }
                assert forall|a: int| ids.take(j as int).contains(a) implies #[trigger] ids.take(
                    j + 1int,
                ).contains(a) by {
                    let kk = choose|kk: int|
                        0 <= kk < ids.take(j as int).len() && #[trigger] ids.take(j as int)[kk]
                            == a;
                    assert(ids.take(j + 1int)[kk] == a);
                }
                assert(ids.take(j + 1int)[j as int] == ids[j as int]);
                assert(ids.take(j + 1int).contains(ids[j as int]));
                let target = sticky_set(pre.flags).union(ids.take(j + 1int).to_set());
                assert forall|a: int| #[trigger] marked_set(self@.flags).contains(a) implies
                    target.contains(a) by {
                    if a != idx {
                        assert(self@.flags[a] == snap.flags[a]);
                        assert(marked_set(snap.flags).contains(a));
                    }
                }
                assert forall|a: int| #[trigger] target.contains(a) implies marked_set(
                    self@.flags,
                ).contains(a) by {
                    if a == idx {
                    } else {
                        assert(sticky_set(pre.flags).contains(a) || ids.take(j as int).contains(a)
                            || a == ids[j as int]);
                        assert(marked_set(snap.flags).contains(a));
                        assert(self@.flags[a] == snap.flags[a]);
                    }
                }
                assert(marked_set(self@.flags) =~= target);
            }
            j = j + 1;
        }
        proof {
            assert(ids.take(ids.len() as int) =~= ids);
            assert(set_in_range(ids.to_set(), n as int)) by {
                assert forall|a: int| #[trigger] ids.to_set().contains(a) implies 0 <= a < n by {
                    let kk = choose|kk: int| 0 <= kk < ids.len() && ids[kk] == a;
                }
            }
            assert(marked_set(self@.flags) == gc_base(pre, ids));
        }

        // Forward sweep with the grey worklist.
        let mut cur: usize = 0;
        while cur < n
            invariant
                pre == old(self)@,
                heap_ready(pre),
                ids == handle_ids(roots@),
                m == gc_marks(pre, ids),
                gc_step(pre, m) == m,
                gc_base(pre, ids).subset_of(m),
                set_in_range(ids.to_set(), n as int),
                n == pre.flags.len(),
                cur <= n,
                heap_inv(self@),
                heap_frame(pre, self@),
                self@.greys.len() == 0,
                gc_base(pre, ids).subset_of(marked_set(self@.flags)),
                marked_set(self@.flags).subset_of(m),
                forall|k: int|
                    0 <= k < n && #[trigger] self@.flags[k] & 0x01 != 0 ==> self@.flags[k] & 0x04
                        == 0,
                forall|i2: int, j2: int|
                    0 <= i2 < cur && spec_is_marked(self@.flags[i2]) && trace_flagged(
                        pre.flags,
                        i2,
                    ) && #[trigger] refs_of(pre.objects[i2]).contains(j2) ==> 0 <= j2 < n
                        && spec_is_marked(self@.flags[j2]),
            decreases n - cur,
        {
            let f = self.flags[cur];
            if need_trace(f) {
                let ghost at_cur = self@;
                let trace_res = self.trace(cur, cur);
                proof {
                    lemma_marks_stay_in_m(pre, at_cur, self@, m, cur as int);
                    lemma_bit1_nonsticky(at_cur.flags, self@.flags);
                    lemma_count_bit_le_pointwise(self@.flags, self@.flags, 0x05);
                    lemma_count_bit_bounds(self@.flags, 0x05);
                }
                match trace_res {
                    Ok(()) => {},
                    Err(e) => {
                        self.greys.clear();
                        proof {
                            let j2 = choose|j2: int|
                                #[trigger] refs_of(at_cur.objects[cur as int]).contains(j2) && !(0
                                    <= j2 < n);
                            assert(marked_set(at_cur.flags).contains(cur as int));
                            assert(trace_flagged(pre.flags, cur as int)) by {
                                lemma_frame_bits(at_cur.flags[cur as int], pre.flags[cur as int]);
                            }
                            assert(gc_step(pre, m).contains(j2));
                            assert(!set_in_range(gc_marks(pre, ids), n as int));
                            assert(self@.greys =~= pre.greys);
                        }
                        return Err(e);
                    },
                }
                while self.greys.len() > 0
                    invariant
                        pre == old(self)@,
                        heap_ready(pre),
                        ids == handle_ids(roots@),
                        m == gc_marks(pre, ids),
                        gc_step(pre, m) == m,
                        gc_base(pre, ids).subset_of(m),
                        set_in_range(ids.to_set(), n as int),
                        n == pre.flags.len(),
                        cur < n,
                        heap_inv(self@),
                        heap_frame(pre, self@),
                        gc_base(pre, ids).subset_of(marked_set(self@.flags)),
                        marked_set(self@.flags).subset_of(m),
                        count_bit(self@.flags, 0x05) <= n,
                        forall|k: int|
                            0 <= k < n && #[trigger] self@.flags[k] & 0x01 != 0 ==> self@.flags[k]
                                & 0x04 == 0,
                        spec_is_marked(self@.flags[cur as int]),
                        forall|k: int|
                            0 <= k < self@.greys.len() ==> 0 <= #[trigger] self@.greys[k] < cur
                                && spec_is_marked(self@.flags[self@.greys[k]]),
                        forall|i2: int, j2: int|
                            0 <= i2 <= cur && spec_is_marked(self@.flags[i2]) && trace_flagged(
                                pre.flags,
                                i2,
                            ) && #[trigger] refs_of(pre.objects[i2]).contains(j2) ==> (0 <= j2 < n
                                && spec_is_marked(self@.flags[j2])) || self@.greys.contains(i2),
                    decreases self@.flags.len() - count_bit(self@.flags, 0x05), self@.greys.len(),
                {
                    let ghost at_pop = self@;
                    let g = self.greys.pop().unwrap();
                    proof {
                        assert(at_pop.greys[at_pop.greys.len() - 1] == g as int);
                        assert(self@.greys =~= at_pop.greys.subrange(
                            0,
                            at_pop.greys.len() - 1,
                        ));
                    }
                    let ghost at_tr = self@;
                    match self.trace(g, cur) {
                        Ok(()) => {},
                        Err(e) => {
                            self.greys.clear();
                            proof {
                                let j2 = choose|j2: int|
                                    #[trigger] refs_of(at_tr.objects[g as int]).contains(j2)
                                        && !(0 <= j2 < n);
                                assert(refs_of(pre.objects[g as int]).len() > 0);
                                lemma_refs_imply_traceable(pre.objects[g as int]);
                                assert(flag_type_ok(pre.flags[g as int], pre.objects[g as int]));
                                assert(marked_set(at_tr.flags).contains(g as int));
                                assert(gc_step(pre, m).contains(j2));
                                assert(!set_in_range(gc_marks(pre, ids), n as int));
                                assert(self@.greys =~= pre.greys);
                            }
                            return Err(e);
                        },
                    }
                    proof {
                        lemma_marks_stay_in_m(pre, at_tr, self@, m, g as int);
                        lemma_bit1_nonsticky(at_tr.flags, self@.flags);
                        lemma_count_bit_le_pointwise(at_tr.flags, self@.flags, 0x05);
                        lemma_count_bit_bounds(self@.flags, 0x05);
                        // A grey that stays pending keeps its place in the list.
                        assert forall|i2: int|
                            at_pop.greys.contains(i2) && i2 != g as int implies at_tr
                            .greys.contains(i2) by {
                            let kk = choose|kk: int|
                                0 <= kk < at_pop.greys.len() && #[trigger] at_pop.greys[kk] == i2;
                            assert(kk < at_pop.greys.len() - 1);
                            assert(at_tr.greys[kk] == i2);
                        }
                        assert forall|i2: int|
                            at_tr.greys.contains(i2) implies self@.greys.contains(i2) by {
                            let kk = choose|kk: int|
                                0 <= kk < at_tr.greys.len() && #[trigger] at_tr.greys[kk] == i2;
                            assert(self@.greys.subrange(0, at_tr.greys.len() as int)[kk] == i2);
                        }
                        // Every pending grey is still a marked slot behind the cursor.
                        assert forall|k: int| 0 <= k < self@.greys.len() implies 0
                            <= #[trigger] self@.greys[k] < cur && spec_is_marked(
                            self@.flags[self@.greys[k]],
                        ) by {
                            if k < at_tr.greys.len() {
                                assert(self@.greys.subrange(0, at_tr.greys.len() as int)[k]
                                    == self@.greys[k]);
                                assert(at_tr.greys[k] == at_pop.greys[k]);
                            }
                        }
                        // Completeness: every marked, trace-flagged slot up to the
                        // cursor has its referents marked, or is still pending.
                        assert forall|i2: int, j2: int|
                            0 <= i2 <= cur && spec_is_marked(self@.flags[i2]) && trace_flagged(
                                pre.flags,
                                i2,
                            ) && #[trigger] refs_of(pre.objects[i2]).contains(j2) implies (0 <= j2
                            < n && spec_is_marked(self@.flags[j2])) || self@.greys.contains(
                            i2,
                        ) by {
                            if i2 == g as int {
                                assert(refs_of(at_tr.objects[g as int]).contains(j2));
                            } else if spec_is_marked(at_pop.flags[i2]) {
                                if !(0 <= j2 < n && spec_is_marked(at_pop.flags[j2])) {
                                    assert(at_pop.greys.contains(i2));
                                }
                            } else {
                                assert(self@.greys.contains(i2));
                            }
                        }
                    }
                }
            }
            proof {
                if spec_is_marked(self@.flags[cur as int]) && trace_flagged(
                    pre.flags,
                    cur as int,
                ) {
                    lemma_frame_bits(self@.flags[cur as int], pre.flags[cur as int]);
                    assert(need_trace(f));
                }
            }
            cur = cur + 1;
        }

        // The marked set now equals the closure, and the flag bytes match
        // the specified post-collection image.
        proof {
            let ms = marked_set(self@.flags);
            assert(gc_closed(pre, ms)) by {
                assert forall|i2: int, j2: int|
                    ms.contains(i2) && trace_flagged(pre.flags, i2) && #[trigger] refs_of(
                        pre.objects[i2],
                    ).contains(j2) implies ms.contains(j2) by {}
            }
            lemma_gc_marks_least(pre, ids, ms);
            assert(m =~= ms);
            assert(set_in_range(m, n as int));
            assert forall|i2: int| 0 <= i2 < n implies #[trigger] self@.flags[i2] == collect_flags(
                pre.flags,
                m,
            )[i2] by {
                let fi = self@.flags[i2];
                let pi = pre.flags[i2];
                lemma_clear_mark(pi);
                lemma_set_mark(pi & 0xfe);
                lemma_live_bits(fi);
                lemma_frame_bits(fi, pi);
                if m.contains(i2) {
                    assert(ms.contains(i2));
                    if pi & 0x04 == 0 {
                        lemma_flag_reconstruct(fi, (pi & 0xfe) | 0x01);
                    } else {
                        lemma_flag_reconstruct(fi, pi & 0xfe);
                    }
                } else {
                    assert(!ms.contains(i2));
                    lemma_flag_reconstruct(fi, pi & 0xfe);
                }
            }
            assert(self@.flags =~= collect_flags(pre.flags, m));
            assert(self@.greys =~= pre.greys);
            assert(self@ == heap_after_collect(pre, ids));
        }
        Ok(())
    }

    /// Allocate an object, returning its handle. While the live count is
    /// under capacity the object lands in a fresh slot, or in the first
    /// unmarked one once storage has reached capacity; the slot comes out
    /// marked. At capacity a collection from the caller's roots runs
    /// first, and if the survivors still crowd the capacity it grows by
    /// the growth ratio — which always creates room, so allocation never
    /// aborts. The caller owes a collectable heap (roots and reachable
    /// references in range) whenever the collection would run.
    pub fn allocate(&mut self, obj: Object, roots: &[Handle]) -> (h: Handle)
        requires
            heap_ready(old(self)@),
            old(self)@.flags.len() < usize::MAX as int / 2,
            old(self)@.live >= old(self)@.capacity ==> collect_ok(
                old(self)@,
                handle_ids(roots@),
            ),
        ensures
            heap_ready(final(self)@),
            final(self)@ == spec_alloc(old(self)@, obj@, handle_ids(roots@)).0,
            h.idx as int == spec_alloc(old(self)@, obj@, handle_ids(roots@)).1,
            h.idx < final(self)@.flags.len(),
            final(self)@.objects[h.idx as int] == obj@,
            spec_is_marked(final(self)@.flags[h.idx as int]),
            final(self)@.flags.len() <= old(self)@.flags.len() + 1,
    {
        let ghost pre = old(self)@;
        let ghost ids = handle_ids(roots@);
        let ghost objv = obj@;
        let ghost collected = old(self)@.live >= old(self)@.capacity;
        if self.stats.live_objects() >= self.capacity {
            let gc = self.collect(roots);
            proof {
                if gc is Err {
                    assert(false);
                }
            }
            let live = self.stats.live_objects();
            proof {
                assert((usize::MAX as u128) * (usize::MAX as u128) + (usize::MAX as u128)
                    <= u128::MAX) by (nonlinear_arith);
                lemma_mul_upper_bound(
                    live as int,
                    usize::MAX as int,
                    self.grow_num as int,
                    usize::MAX as int,
                );
            }
            let t128: u128 = ((live as u128) * (self.grow_num as u128) + (self.grow_den as u128)
                - 1) / (self.grow_den as u128);
            let new_min: usize = if t128 > usize::MAX as u128 {
                usize::MAX
            } else {
                t128 as usize
            };
            if new_min > self.capacity {
                self.capacity = new_min;
            }
            proof {
                assert(self@ == grown(heap_after_collect(pre, ids)));
            }
        }
        let ghost mid = self@;
        proof {
            assert(mid == if collected {
                grown(heap_after_collect(pre, ids))
            } else {
                pre
            });
        }
        let n = self.objects.len();
        if n < self.capacity {
            let tf = Self::type_flag(&obj);
            self.objects.push(obj);
            self.flags.push(tf | FLAG_MARK);
            proof {
                lemma_count_bit_bounds(mid.flags, 0x01);
                lemma_count_bit_bounds(mid.flags, 0x04);
            }
            self.stats.live_objects = self.stats.live_objects + 1;
            proof {
                lemma_type_flag_bits(objv);
                lemma_set_mark(spec_type_flag(objv));
                lemma_live_bits(spec_type_flag(objv) | 0x01);
                lemma_count_bit_push(mid.flags, spec_type_flag(objv) | 0x01, 0x01);
                lemma_count_bit_push(mid.flags, spec_type_flag(objv) | 0x01, 0x04);
                assert(self@.objects =~= mid.objects.push(objv));
                assert(self@.flags =~= mid.flags.push(spec_type_flag(objv) | 0x01));
                assert(self@ == place_new(mid, objv).0);
            }
            Handle { idx: n }
        } else {
            // Storage is full: the live count is strictly below the slot
            // count here, so an unmarked slot exists for reuse.
            proof {
                assert(n == mid.flags.len() && n as int == mid.capacity);
                if collected {
                    let hc = heap_after_collect(pre, ids);
                    let t = (hc.live * hc.grow_num + hc.grow_den - 1) / hc.grow_den;
                    assert(t <= usize::MAX as int);
                    assert(t <= mid.capacity);
                    lemma_mul_inequality(2 * hc.grow_den, hc.grow_num, hc.live);
                    lemma_div_is_ordered(
                        hc.live * (2 * hc.grow_den),
                        hc.live * hc.grow_num + hc.grow_den - 1,
                        hc.grow_den,
                    );
                    lemma_div_multiples_vanish(2 * hc.live, hc.grow_den);
                    assert(hc.live * (2 * hc.grow_den) == (2 * hc.live) * hc.grow_den)
                        by (nonlinear_arith);
                    assert(2 * mid.live <= t);
                } else {
                    assert(mid.live < mid.capacity);
                }
                lemma_count_live_le(mid.flags);
                assert(count_bit(mid.flags, 0x05) < n);
                lemma_count_bit_full(mid.flags, 0x05);
                lemma_count_bit_bounds(mid.flags, 0x05);
            }
            let mut idx: usize = 0;
            while idx < n
                invariant
                    pre == old(self)@,
                    ids == handle_ids(roots@),
                    objv == obj@,
                    collected == (pre.live >= pre.capacity),
                    mid == (if collected {
                        grown(heap_after_collect(pre, ids))
                    } else {
                        pre
                    }),
                    mid == self@,
                    heap_ready(mid),
                    pre.flags.len() < usize::MAX as int / 2,
                    n == mid.flags.len(),
                    n as int == mid.capacity,
                    idx <= n,
                    exists|i: int| 0 <= i < n && #[trigger] mid.flags[i] & 0x05 == 0,
                    forall|j: int| 0 <= j < idx ==> spec_is_marked(#[trigger] mid.flags[j]),
                decreases n - idx,
            {
                let f = self.flags[idx];
                if !is_marked(f) {
                    proof {
                        lemma_first_unmarked_at(mid.flags, 0, idx as int);
                        lemma_count_bit_bounds(mid.flags, 0x01);
                        lemma_count_bit_bounds(mid.flags, 0x04);
                    }
                    let tf = Self::type_flag(&obj);
                    self.stats.live_objects = self.stats.live_objects + 1;
                    self.flags.set(idx, tf | FLAG_MARK);
                    self.objects.push(obj);
                    let _reclaimed = self.objects.swap_remove(idx);
                    proof {
                        lemma_type_flag_bits(objv);
                        lemma_set_mark(spec_type_flag(objv));
                        lemma_live_bits(spec_type_flag(objv) | 0x01);
                        lemma_live_bits(f);
                        lemma_count_bit_update(
                            mid.flags,
                            idx as int,
                            spec_type_flag(objv) | 0x01,
                            0x01,
                        );
                        lemma_count_bit_update(
                            mid.flags,
                            idx as int,
                            spec_type_flag(objv) | 0x01,
                            0x04,
                        );
                        assert(self@.objects =~= mid.objects.update(idx as int, objv));
                        assert(self@.flags =~= mid.flags.update(
                            idx as int,
                            spec_type_flag(objv) | 0x01,
                        ));
                        assert(self@ == place_new(mid, objv).0);
                    }
                    return Handle { idx };
                }
                idx = idx + 1;
            }
            proof {
                lemma_count_bit_full(mid.flags, 0x05);
                let witness = choose|i: int| 0 <= i < n && #[trigger] mid.flags[i] & 0x05 == 0;
                assert(spec_is_marked(mid.flags[witness]));
                assert(false);
            }
            // Unreachable: a free slot always exists at this point.
            Handle { idx: 0 }
        }
    }
}

} // verus!
