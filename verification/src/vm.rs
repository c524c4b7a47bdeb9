//! The register virtual machine.
//!
//! A `Vm` owns one heap, one chunk, a fixed register file and an
//! instruction pointer. [`Vm::execute`] runs the chunk until a `RET`, a
//! classified failure, or an arithmetic instruction whose operands promote
//! to float — floating-point work belongs to the host, which computes the
//! requested operation on the returned operands and hands the resulting
//! bit pattern back through [`Vm::resume_float`].
//!
//! Allocations made during execution may trigger a collection; its roots
//! are everything reachable from machine state outside the heap — the
//! registers, the constant pool and the global bindings, plus the partial
//! chain while a `LIST` is under construction — so live data survives runs
//! that allocate past the heap's capacity.
//!
//! Execution is proved equal to the mathematical semantics
//! ([`vm_run`](crate::semantics::vm_run)) instruction by instruction.

use vstd::prelude::*;

use crate::chunk::Chunk;
use crate::error::{VMError, VMResult};
use crate::heap::{
    collect_ok, handle_ids, heap_ready, heap_refs_ok, lemma_refs_of_values_push, refs_of,
    refs_of_value, refs_of_values, spec_alloc, spec_replace, Handle, Heap, HeapV, Object,
    ObjectV,
};
use crate::interner::{Globals, Interned, Interner};
use crate::opcodes::{
    ADD, ADD_KR, ADD_RK, CAR, CDR, CONS, DIV, DIV_KR, DIV_RK, LIST, MUL, MUL_KR, MUL_RK, RET,
    STORE, STORE_K, SUB, SUB_KR, SUB_RK, XAR, XDR,
};
use crate::semantics::{
    arith_int, arith_spec, code_ok_from, d_u16, fop_of, is_arith_kr, is_arith_rk,
    lemma_vm_roots_ok, list_fold, numeric_zero, operand, opsize, resume_state, values_refs_ok,
    vm_ok, vm_roots, vm_run, vm_step, ArithR, FloatOp, RunEnd, StepV, VmV, STACK_SIZE,
};
use crate::value::{add56, div56, mul56, sub56, Value};

verus! {

/// How a call into the interpreter came back: the chunk ran to its `RET`,
/// or the host owes one floating-point operation on the two operands
/// before execution can resume.
#[derive(Copy, Clone, Debug, PartialEq, Eq, Structural)]
pub enum Outcome {
    Done,
    NeedFloat { op: FloatOp, a: Value, b: Value },
}

/// The register virtual machine: one heap, one chunk, a fixed-size
/// register file, an instruction pointer, and the interning tables its
/// host resolves symbols through.
pub struct Vm {
    interner: Interner,
    heap: Heap,
    chunk: Chunk,
    stack: Vec<Value>,
    ip: usize,
    globals: Globals,
    pending: Option<u16>,
}

impl View for Vm {
    type V = VmV;

    closed spec fn view(&self) -> VmV {
        VmV {
            heap: self.heap@,
            chunk: self.chunk@,
            stack: self.stack@,
            ip: self.ip as int,
            pending: self.pending,
            interner: self.interner@,
            globals: self.globals@,
        }
    }
}

impl Vm {
    /// A fresh machine bound to the given chunk: a default heap, every
    /// register `Undefined`, the instruction pointer at the start.
    pub fn new(chunk: Chunk) -> (vm: Vm)
        ensures
            vm@.chunk == chunk@,
            vm@.ip == 0,
            vm@.pending is None,
            vm@.stack.len() == STACK_SIZE as int,
            forall|i: int| 0 <= i < STACK_SIZE ==> vm@.stack[i] == Value::Undefined,
            heap_ready(vm@.heap),
            heap_refs_ok(vm@.heap),
            vm@.heap.flags.len() == 0,
            vm@.heap.capacity == 512,
            vm@.heap.live == 0,
            vm@.heap.sticky == 0,
            vm@.heap.grow_num == 2,
            vm@.heap.grow_den == 1,
            vm@.interner == Seq::<Seq<char>>::empty(),
            vm@.globals.names == Seq::<Seq<char>>::empty(),
            vm@.globals.bindings == Seq::<Handle>::empty(),
    {
        let mut stack: Vec<Value> = Vec::with_capacity(STACK_SIZE);
        let mut i: usize = 0;
        while i < STACK_SIZE
            invariant
                i <= STACK_SIZE,
                stack@.len() == i as int,
                forall|j: int| 0 <= j < i ==> stack@[j] == Value::Undefined,
            decreases STACK_SIZE - i,
        {
            stack.push(Value::Undefined);
            i = i + 1;
        }
        Vm {
            interner: Interner::with_capacity(8192),
            heap: Heap::new(),
            chunk,
            stack,
            ip: 0,
            globals: Globals::new(),
            pending: None,
        }
    }

    /// Allocate an object on the machine's heap. A collection this may
    /// trigger roots everything reachable from machine state outside the
    /// heap: the registers, the constant pool, and the global bindings.
    pub fn allocate(&mut self, obj: Object) -> (h: Handle)
        requires
            heap_ready(old(self)@.heap),
            old(self)@.heap.flags.len() < usize::MAX as int / 2,
            old(self)@.heap.live >= old(self)@.heap.capacity ==> collect_ok(
                old(self)@.heap,
                vm_roots(old(self)@),
            ),
        ensures
            heap_ready(final(self)@.heap),
            final(self)@ == (VmV {
                heap: spec_alloc(old(self)@.heap, obj@, vm_roots(old(self)@)).0,
                ..old(self)@
            }),
            h.idx as int == spec_alloc(old(self)@.heap, obj@, vm_roots(old(self)@)).1,
            h.idx < final(self)@.heap.flags.len(),
            final(self)@.heap.objects[h.idx as int] == obj@,
            final(self)@.heap.flags.len() <= old(self)@.heap.flags.len() + 1,
            heap_refs_ok(old(self)@.heap) && (forall|j: int|
                refs_of(obj@).contains(j) ==> 0 <= j < old(self)@.heap.flags.len())
                ==> heap_refs_ok(final(self)@.heap),
            old(self)@.heap.flags.len() <= final(self)@.heap.flags.len(),
    {
        let roots = self.gather_roots();
        let h = self.heap.allocate(obj, &roots);
        h
    }

    /// Collect the machine's garbage-collection roots: every reference
    /// held in a register, in the constant pool, or in a global binding.
    fn gather_roots(&self) -> (r: Vec<Handle>)
        ensures
            handle_ids(r@) == vm_roots(self@),
    {
        let mut out: Vec<Handle> = Vec::new();
        proof {
            assert(handle_ids(out@) =~= Seq::<int>::empty());
            assert(Seq::<int>::empty() =~= refs_of_values(self@.stack.subrange(0, 0)));
        }
        let n1 = self.stack.len();
        let mut k: usize = 0;
        while k < n1
            invariant
                n1 == self@.stack.len(),
                k <= n1,
                handle_ids(out@) == refs_of_values(self@.stack.subrange(0, k as int)),
            decreases n1 - k,
        {
            let ghost prefix = self@.stack.subrange(0, k as int);
            if let Value::Reference(h) = self.stack[k] {
                out.push(h);
            }
            proof {
                assert(self@.stack.subrange(0, k + 1int) =~= prefix.push(self@.stack[k as int]));
                lemma_refs_of_values_push(prefix, self@.stack[k as int]);
                assert(handle_ids(out@) =~= refs_of_values(self@.stack.subrange(0, k + 1int)));
            }
            k = k + 1;
        }
        proof {
            assert(self@.stack.subrange(0, self@.stack.len() as int) =~= self@.stack);
        }
        let ghost part1 = refs_of_values(self@.stack);
        let n2 = self.chunk.constants.len();
        let mut k2: usize = 0;
        proof {
            assert(part1 + refs_of_values(self@.chunk.constants.subrange(0, 0)) =~= part1);
        }
        while k2 < n2
            invariant
                part1 == refs_of_values(self@.stack),
                n2 == self@.chunk.constants.len(),
                k2 <= n2,
                handle_ids(out@) == part1 + refs_of_values(
                    self@.chunk.constants.subrange(0, k2 as int),
                ),
            decreases n2 - k2,
        {
            let ghost prefix = self@.chunk.constants.subrange(0, k2 as int);
            if let Value::Reference(h) = self.chunk.constants[k2] {
                out.push(h);
            }
            proof {
                let c = self@.chunk.constants[k2 as int];
                assert(self@.chunk.constants.subrange(0, k2 + 1int) =~= prefix.push(c));
                lemma_refs_of_values_push(prefix, c);
                assert(handle_ids(out@) =~= (part1 + refs_of_values(prefix)) + refs_of_value(c));
                assert((part1 + refs_of_values(prefix)) + refs_of_value(c) =~= part1 + (
                refs_of_values(prefix) + refs_of_value(c)));
                assert(handle_ids(out@) =~= part1 + refs_of_values(
                    self@.chunk.constants.subrange(0, k2 + 1int),
                ));
            }
            k2 = k2 + 1;
        }
        proof {
            assert(self@.chunk.constants.subrange(0, self@.chunk.constants.len() as int)
                =~= self@.chunk.constants);
        }
        let ghost part12 = part1 + refs_of_values(self@.chunk.constants);
        let bound = self.globals.handles();
        let n3 = bound.len();
        let mut k3: usize = 0;
        proof {
            assert(part12 + handle_ids(self@.globals.bindings.subrange(0, 0)) =~= part12);
        }
        while k3 < n3
            invariant
                part12 == refs_of_values(self@.stack) + refs_of_values(self@.chunk.constants),
                bound@ == self@.globals.bindings,
                n3 == self@.globals.bindings.len(),
                k3 <= n3,
                handle_ids(out@) == part12 + handle_ids(
                    self@.globals.bindings.subrange(0, k3 as int),
                ),
            decreases n3 - k3,
        {
            out.push(bound[k3]);
            proof {
                let sub = self@.globals.bindings.subrange(0, k3 as int);
                let b = self@.globals.bindings[k3 as int];
                assert(self@.globals.bindings.subrange(0, k3 + 1int) =~= sub.push(b));
                assert(handle_ids(sub.push(b)) =~= handle_ids(sub).push(b.idx as int));
                assert(handle_ids(out@) =~= (part12 + handle_ids(sub)).push(b.idx as int));
                assert((part12 + handle_ids(sub)).push(b.idx as int) =~= part12 + handle_ids(
                    sub,
                ).push(b.idx as int));
                assert(handle_ids(out@) =~= part12 + handle_ids(
                    self@.globals.bindings.subrange(0, k3 + 1int),
                ));
            }
            k3 = k3 + 1;
        }
        proof {
            assert(self@.globals.bindings.subrange(0, self@.globals.bindings.len() as int)
                =~= self@.globals.bindings);
            assert(handle_ids(out@) =~= vm_roots(self@));
        }
        out
    }

    /// Read the object a handle names; fails exactly on an out-of-range
    /// index, and does not check liveness.
    pub fn get(&self, handle: Handle) -> (r: VMResult<&Object>)
        ensures
            match r {
                Ok(obj) => handle.idx < self@.heap.objects.len() && obj@
                    == self@.heap.objects[handle.idx as int],
                Err(e) => handle.idx >= self@.heap.objects.len() && e == VMError::InvalidHandle,
            },
    {
        self.heap.get(handle)
    }

    /// The machine's heap, for inspection.
    pub fn heap(&self) -> (h: &Heap)
        ensures
            h@ == self@.heap,
    {
        &self.heap
    }

    /// One register's current value.
    pub fn get_stack(&self, idx: usize) -> (v: Value)
        requires
            idx < self@.stack.len(),
        ensures
            v == self@.stack[idx as int],
    {
        self.stack[idx]
    }

    /// The machine's chunk, for appending code or constants between runs.
    pub fn chunk_mut(&mut self) -> (c: &mut Chunk)
        ensures
            c@ == old(self)@.chunk,
            final(self)@ == (VmV { chunk: final(c)@, ..old(self)@ }),
    {
        &mut self.chunk
    }

    /// Intern a string, without binding it to anything.
    pub fn intern(&mut self, string: &str) -> (s: Interned)
        requires
            old(self)@.interner.len() < u32::MAX as int,
        ensures
            ({
                let pre = old(self)@.interner;
                &&& final(self)@ == (VmV { interner: final(self)@.interner, ..old(self)@ })
                &&& if exists|j: int| 0 <= j < pre.len() && pre[j] == string@ {
                    &&& final(self)@.interner == pre
                    &&& 0 <= s.id < pre.len()
                    &&& pre[s.id as int] == string@
                    &&& forall|j: int| 0 <= j < s.id ==> pre[j] != string@
                } else {
                    &&& final(self)@.interner == pre.push(string@)
                    &&& s.id as int == pre.len()
                }
            }),
    {
        self.interner.intern(string)
    }

    /// Bind a symbol to the given handle in the global table.
    pub fn intern_symbol(&mut self, string: &str, handle: Handle) -> (s: Interned)
        requires
            old(self)@.globals.names.len() == old(self)@.globals.bindings.len(),
            old(self)@.globals.names.len() < u32::MAX as int,
        ensures
            final(self)@ == (VmV { globals: final(self)@.globals, ..old(self)@ }),
            final(self)@.globals.names.len() == final(self)@.globals.bindings.len(),
            ({
                let pre = old(self)@.globals;
                if exists|j: int| 0 <= j < pre.names.len() && pre.names[j] == string@ {
                    &&& final(self)@.globals.names == pre.names
                    &&& 0 <= s.id < pre.names.len()
                    &&& pre.names[s.id as int] == string@
                    &&& final(self)@.globals.bindings == pre.bindings.update(s.id as int, handle)
                } else {
                    &&& final(self)@.globals.names == pre.names.push(string@)
                    &&& s.id as int == pre.names.len()
                    &&& final(self)@.globals.bindings == pre.bindings.push(handle)
                }
            }),
    {
        self.globals.intern_symbol(string, handle)
    }

    /// Bind a symbol to a freshly allocated box holding `Undefined`, the
    /// state of a global declared but not yet set.
    pub fn intern_symbol_empty(&mut self, string: &str) -> (s: Interned)
        requires
            heap_ready(old(self)@.heap),
            old(self)@.heap.flags.len() < usize::MAX as int / 2,
            old(self)@.heap.live >= old(self)@.heap.capacity ==> collect_ok(
                old(self)@.heap,
                vm_roots(old(self)@),
            ),
            old(self)@.globals.names.len() == old(self)@.globals.bindings.len(),
            old(self)@.globals.names.len() < u32::MAX as int,
        ensures
            heap_ready(final(self)@.heap),
            final(self)@.globals.names.len() == final(self)@.globals.bindings.len(),
            final(self)@ == (VmV {
                heap: spec_alloc(
                    old(self)@.heap,
                    ObjectV::Value(Value::Undefined),
                    vm_roots(old(self)@),
                ).0,
                globals: final(self)@.globals,
                ..old(self)@
            }),
            ({
                let pre = old(self)@.globals;
                let h = spec_alloc(
                    old(self)@.heap,
                    ObjectV::Value(Value::Undefined),
                    vm_roots(old(self)@),
                ).1;
                if exists|j: int| 0 <= j < pre.names.len() && pre.names[j] == string@ {
                    &&& final(self)@.globals.names == pre.names
                    &&& final(self)@.globals.bindings == pre.bindings.update(
                        s.id as int,
                        Handle { idx: h as usize },
                    )
                } else {
                    &&& final(self)@.globals.names == pre.names.push(string@)
                    &&& final(self)@.globals.bindings == pre.bindings.push(
                        Handle { idx: h as usize },
                    )
                }
            }),
    {
        let handle = self.allocate(Object::Value(Value::Undefined));
        self.globals.intern_symbol(string, handle)
    }

    /// The handle a symbol is bound to, if any.
    pub fn global_binding(&self, s: Interned) -> (r: Option<Handle>)
        ensures
            match r {
                Some(h) => s.id < self@.globals.bindings.len() && h
                    == self@.globals.bindings[s.id as int],
                None => s.id >= self@.globals.bindings.len(),
            },
    {
        self.globals.binding(s)
    }
}

// ---------------------------------------------------------------------------
// Small facts the dispatch proofs lean on.
// ---------------------------------------------------------------------------

/// Updating a register with an in-range value keeps every register's
/// references in range.
proof fn lemma_stack_set_ok(vs: Seq<Value>, i: int, v: Value, len: int)
    requires
        values_refs_ok(vs, len),
        0 <= i < vs.len(),
        v matches Value::Reference(h) ==> h.idx < len,
    ensures
        values_refs_ok(vs.update(i, v), len),
{
    assert forall|k: int| 0 <= k < vs.update(i, v).len() implies match #[trigger] vs.update(
        i,
        v,
    )[k] {
        Value::Reference(h) => h.idx < len,
        _ => true,
    } by {
        if k != i {
            assert(vs.update(i, v)[k] == vs[k]);
        }
    }
}

/// References stay in range when the heap only grows.
proof fn lemma_values_refs_mono(vs: Seq<Value>, len1: int, len2: int)
    requires
        values_refs_ok(vs, len1),
        len1 <= len2,
    ensures
        values_refs_ok(vs, len2),
{
}

/// A pair of in-range values references only in-range slots.
proof fn lemma_pair_refs_ok(a: Value, b: Value, len: int)
    requires
        a matches Value::Reference(h) ==> h.idx < len,
        b matches Value::Reference(h) ==> h.idx < len,
        len >= 0,
    ensures
        forall|j: int| #[trigger] refs_of(ObjectV::Pair(a, b)).contains(j) ==> 0 <= j < len,
{
    assert forall|j: int| #[trigger] refs_of(ObjectV::Pair(a, b)).contains(j) implies 0 <= j
        < len by {
        let rs = refs_of_value(a) + refs_of_value(b);
        let k = choose|k: int| 0 <= k < rs.len() && rs[k] == j;
        if k < refs_of_value(a).len() {
            assert(refs_of_value(a)[k] == j);
        } else {
            assert(refs_of_value(b)[k - refs_of_value(a).len()] == j);
        }
    }
}

/// The fields of a heap pair are themselves in-range values.
proof fn lemma_pair_field_ok(h: HeapV, i: int)
    requires
        heap_refs_ok(h),
        0 <= i < h.objects.len(),
        h.objects[i] matches ObjectV::Pair(_, _),
    ensures
        match h.objects[i] {
            ObjectV::Pair(car, cdr) => (car matches Value::Reference(hc) ==> hc.idx
                < h.objects.len()) && (cdr matches Value::Reference(hd) ==> hd.idx
                < h.objects.len()),
            _ => true,
        },
{
    match h.objects[i] {
        ObjectV::Pair(car, cdr) => {
            let rs = refs_of_value(car) + refs_of_value(cdr);
            assert(refs_of(h.objects[i]) == rs);
            match car {
                Value::Reference(hc) => {
                    assert(rs[0] == hc.idx as int);
                    assert(rs.contains(hc.idx as int));
                },
                _ => {},
            }
            match cdr {
                Value::Reference(hd) => {
                    assert(rs[rs.len() - 1] == hd.idx as int);
                    assert(rs.contains(hd.idx as int));
                },
                _ => {},
            }
        },
        _ => {},
    }
}

/// The machine's roots extended with one in-range value stay collectable
/// on a heap that has only grown since the roots were in range.
proof fn lemma_concat_roots_ok(h: HeapV, base: Seq<int>, v: Value, base_len: int)
    requires
        crate::heap::heap_inv(h),
        heap_refs_ok(h),
        crate::semantics::roots_in_range(base, base_len),
        base_len <= h.flags.len(),
        v matches Value::Reference(hh) ==> hh.idx < h.flags.len(),
    ensures
        collect_ok(h, base + refs_of_value(v)),
{
    let ids = base + refs_of_value(v);
    assert forall|x: int| #[trigger] ids.to_set().contains(x) implies 0 <= x
        < h.flags.len() by {
        let k = choose|k: int| 0 <= k < ids.len() && ids[k] == x;
        if k < base.len() {
            assert(ids[k] == base[k]);
        } else {
            assert(ids[k] == refs_of_value(v)[k - base.len()]);
        }
    }
    crate::heap::lemma_refs_ok_collect_ok(h, ids);
}

/// At least one code byte remains, so at least one full room quantum does.
proof fn lemma_mul_ordering_helper(k: int)
    requires
        k >= 1,
    ensures
        k * 0x10000 >= 1 * 0x10000,
{
    lemma_mul_inequality_local(1, k, 0x10000);
}

proof fn lemma_mul_inequality_local(x: int, y: int, z: int)
    by (nonlinear_arith)
    requires
        x <= y,
        z >= 0,
    ensures
        x * z <= y * z,
{
}

/// What one call into the interpreter steps to.
enum StepOut {
    /// The instruction completed; execution continues.
    Cont,
    /// A `RET` ended the run.
    Finished,
    /// The instruction failed.
    Failed(VMError),
    /// The host owes a float operation on these operands.
    FloatReq(FloatOp, Value, Value),
}

impl Vm {
    /// Whether the bound chunk decodes safely from the current
    /// instruction pointer: every instruction until a `RET` or an unknown
    /// opcode stays within the code bytes, and addresses only existing
    /// registers and constants. A host can so validate untrusted bytecode
    /// before running it.
    pub fn code_ok(&self) -> (r: bool)
        ensures
            r == code_ok_from(
                self@.chunk.code,
                self@.ip,
                STACK_SIZE as int,
                self@.chunk.constants.len() as int,
            ),
    {
        Self::check_code(&self.chunk.code, self.ip, self.chunk.constants.len())
    }

    /// Walk the instruction stream, checking what [`code_ok_from`] asks
    /// of each instruction in turn.
    fn check_code(code: &Vec<u8>, start: usize, nconsts: usize) -> (r: bool)
        ensures
            r == code_ok_from(code@, start as int, STACK_SIZE as int, nconsts as int),
    {
        let n = code.len();
        let mut ip = start;
        loop
            invariant
                n == code@.len(),
                start <= ip,
                code_ok_from(code@, start as int, STACK_SIZE as int, nconsts as int)
                    == code_ok_from(code@, ip as int, STACK_SIZE as int, nconsts as int),
            decreases n - ip,
        {
            if ip >= n {
                return false;
            }
            let byte = code[ip];
            let wide = byte & 0x80 != 0;
            let op = byte & 0x7f;
            if !(op >= RET && op <= XDR) {
                return true;
            }
            if op == RET {
                return true;
            }
            let w: usize = if wide {
                2
            } else {
                1
            };
            let k: usize = if op == STORE || op == STORE_K || op == CAR || op == CDR || op == XAR
                || op == XDR {
                2
            } else {
                3
            };
            if n - ip - 1 < k * w {
                return false;
            }
            let o1 = Self::peek_operand(code, ip + 1, wide);
            let o2 = Self::peek_operand(code, ip + 1 + w, wide);
            let ok: bool = if op == STORE {
                (o1 as usize) < STACK_SIZE && (o2 as usize) < STACK_SIZE
            } else if op == STORE_K {
                (o1 as usize) < STACK_SIZE && (o2 as usize) < nconsts
            } else if op == CAR || op == CDR || op == XAR || op == XDR {
                (o1 as usize) < STACK_SIZE && (o2 as usize) < STACK_SIZE
            } else if op == LIST {
                (o1 as usize) < STACK_SIZE
            } else {
                // The arithmetic families and CONS.
                let o3 = Self::peek_operand(code, ip + 1 + 2 * w, wide);
                let a_from_const = op == ADD_KR || op == SUB_KR || op == MUL_KR || op == DIV_KR;
                let b_from_const = op == ADD_RK || op == SUB_RK || op == MUL_RK || op == DIV_RK;
                (o1 as usize) < STACK_SIZE && (if a_from_const {
                    (o2 as usize) < nconsts
                } else {
                    (o2 as usize) < STACK_SIZE
                }) && (if b_from_const {
                    (o3 as usize) < nconsts
                } else {
                    (o3 as usize) < STACK_SIZE
                })
            };
            proof {
                assert(ok == crate::semantics::instr_operands_ok(
                    code@,
                    ip as int,
                    op,
                    wide,
                    STACK_SIZE as int,
                    nconsts as int,
                ));
            }
            if !ok {
                return false;
            }
            ip = ip + 1 + k * w;
        }
    }

    /// Read one operand without advancing any state.
    fn peek_operand(code: &Vec<u8>, pos: usize, wide: bool) -> (r: u16)
        requires
            pos + opsize(wide) <= code@.len(),
        ensures
            r == operand(code@, pos as int, wide),
    {
        // Ties the ghost code length to the machine word.
        let _n = code.len();
        if wide {
            ((code[pos] as u16) << 8) | (code[pos + 1] as u16)
        } else {
            code[pos] as u16
        }
    }

    /// Decode one big-endian 16-bit operand.
    fn decode_u16(&mut self) -> (r: u16)
        requires
            old(self)@.ip + 2 <= old(self)@.chunk.code.len(),
        ensures
            r == d_u16(old(self)@.chunk.code, old(self)@.ip),
            final(self)@ == (VmV { ip: old(self)@.ip + 2, ..old(self)@ }),
    {
        // Ties the ghost code length to the machine word, for the index
        // arithmetic below.
        let _n = self.chunk.code.len();
        let idx1 = self.chunk.code[self.ip];
        let idx2 = self.chunk.code[self.ip + 1];
        self.ip = self.ip + 2;
        ((idx1 as u16) << 8) | (idx2 as u16)
    }

    /// Decode one operand, narrow or wide.
    fn decode_operand(&mut self, wide: bool) -> (r: u16)
        requires
            old(self)@.ip + opsize(wide) <= old(self)@.chunk.code.len(),
        ensures
            r == operand(old(self)@.chunk.code, old(self)@.ip, wide),
            final(self)@ == (VmV { ip: old(self)@.ip + opsize(wide), ..old(self)@ }),
    {
        if wide {
            self.decode_u16()
        } else {
            let _n = self.chunk.code.len();
            let b = self.chunk.code[self.ip];
            self.ip = self.ip + 1;
            b as u16
        }
    }

    /// Decode two operands.
    fn decode2(&mut self, wide: bool) -> (r: (u16, u16))
        requires
            old(self)@.ip + 2 * opsize(wide) <= old(self)@.chunk.code.len(),
        ensures
            r.0 == operand(old(self)@.chunk.code, old(self)@.ip, wide),
            r.1 == operand(old(self)@.chunk.code, old(self)@.ip + opsize(wide), wide),
            final(self)@ == (VmV { ip: old(self)@.ip + 2 * opsize(wide), ..old(self)@ }),
    {
        let op1 = self.decode_operand(wide);
        let op2 = self.decode_operand(wide);
        (op1, op2)
    }

    /// Decode three operands.
    fn decode3(&mut self, wide: bool) -> (r: (u16, u16, u16))
        requires
            old(self)@.ip + 3 * opsize(wide) <= old(self)@.chunk.code.len(),
        ensures
            r.0 == operand(old(self)@.chunk.code, old(self)@.ip, wide),
            r.1 == operand(old(self)@.chunk.code, old(self)@.ip + opsize(wide), wide),
            r.2 == operand(old(self)@.chunk.code, old(self)@.ip + 2 * opsize(wide), wide),
            final(self)@ == (VmV { ip: old(self)@.ip + 3 * opsize(wide), ..old(self)@ }),
    {
        let op1 = self.decode_operand(wide);
        let op2 = self.decode_operand(wide);
        let op3 = self.decode_operand(wide);
        (op1, op2, op3)
    }

    /// Integer arithmetic on the packed representation.
    fn arith_int_exec(fop: FloatOp, a: i64, b: i64) -> (r: i64)
        requires
            fop == FloatOp::Div ==> b != 0,
        ensures
            r as int == arith_int(fop, a as int, b as int),
    {
        match fop {
            FloatOp::Add => add56(a, b),
            FloatOp::Sub => sub56(a, b),
            FloatOp::Mul => mul56(a, b),
            FloatOp::Div => div56(a, b),
        }
    }

    /// Whether a numeric value is zero in its own representation.
    fn numeric_zero_exec(v: &Value) -> (r: bool)
        ensures
            r == numeric_zero(*v),
    {
        match v {
            Value::Byte(b) => *b == 0,
            Value::Int(i) => *i == 0,
            Value::Float(bits) => *bits & 0x7fff_ffff_ffff_ffff == 0,
            _ => false,
        }
    }

    /// Decode and perform one instruction, mirroring [`vm_step`] branch
    /// for branch.
    #[verifier::rlimit(100)]
    fn step(&mut self) -> (r: StepOut)
        requires
            vm_ok(old(self)@),
            code_ok_from(
                old(self)@.chunk.code,
                old(self)@.ip,
                STACK_SIZE as int,
                old(self)@.chunk.constants.len() as int,
            ),
            old(self)@.pending is None,
        ensures
            vm_ok(final(self)@),
            final(self)@.chunk == old(self)@.chunk,
            match r {
                StepOut::Cont => vm_step(old(self)@) == StepV::Next(final(self)@)
                    && final(self)@.pending is None && code_ok_from(
                    final(self)@.chunk.code,
                    final(self)@.ip,
                    STACK_SIZE as int,
                    final(self)@.chunk.constants.len() as int,
                ) && old(self)@.ip < final(self)@.ip,
                StepOut::Finished => vm_step(old(self)@) == StepV::Done(final(self)@)
                    && final(self)@.pending is None,
                StepOut::Failed(e) => vm_step(old(self)@) == StepV::Fail(final(self)@, e)
                    && final(self)@.pending is None,
                StepOut::FloatReq(f, a, b) => vm_step(old(self)@) == StepV::Float(
                    final(self)@,
                    f,
                    a,
                    b,
                ) && code_ok_from(
                    final(self)@.chunk.code,
                    final(self)@.ip,
                    STACK_SIZE as int,
                    final(self)@.chunk.constants.len() as int,
                ),
            },
    {
        let ghost s0 = self@;
        // Ties the ghost code length to the machine word.
        let _n = self.chunk.code.len();
        let byte = self.chunk.code[self.ip];
        self.ip = self.ip + 1;
        let wide = byte & 0x80 != 0;
        let op = byte & 0x7f;
        if op == RET {
            proof {
                assert(vm_step(s0) == StepV::Done(self@));
            }
            return StepOut::Finished;
        }
        if !(op >= RET && op <= XDR) {
            proof {
                assert(vm_step(s0) == StepV::Fail(self@, VMError::InvalidOpcode(byte)));
            }
            return StepOut::Failed(VMError::InvalidOpcode(byte));
        }
        if op == STORE {
            let (d, src) = self.decode2(wide);
            let v = self.stack[src as usize];
            self.stack.set(d as usize, v);
            proof {
                lemma_stack_set_ok(s0.stack, d as int, v, s0.heap.flags.len() as int);
                assert(vm_step(s0) == StepV::Next(self@));
            }
            return StepOut::Cont;
        }
        if op == STORE_K {
            let (d, src) = self.decode2(wide);
            let v = self.chunk.constants[src as usize];
            self.stack.set(d as usize, v);
            proof {
                lemma_stack_set_ok(s0.stack, d as int, v, s0.heap.flags.len() as int);
                assert(vm_step(s0) == StepV::Next(self@));
            }
            return StepOut::Cont;
        }
        if op >= ADD && op <= DIV_KR {
            let a_from_const = op == ADD_KR || op == SUB_KR || op == MUL_KR || op == DIV_KR;
            let b_from_const = op == ADD_RK || op == SUB_RK || op == MUL_RK || op == DIV_RK;
            let fop = if op == ADD || op == ADD_RK || op == ADD_KR {
                FloatOp::Add
            } else if op == SUB || op == SUB_RK || op == SUB_KR {
                FloatOp::Sub
            } else if op == MUL || op == MUL_RK || op == MUL_KR {
                FloatOp::Mul
            } else {
                FloatOp::Div
            };
            proof {
                assert(fop == fop_of(op));
                assert(a_from_const == is_arith_kr(op));
                assert(b_from_const == is_arith_rk(op));
            }
            let (d, x, y) = self.decode3(wide);
            let a = if a_from_const {
                self.chunk.constants[x as usize]
            } else {
                self.stack[x as usize]
            };
            let b = if b_from_const {
                self.chunk.constants[y as usize]
            } else {
                self.stack[y as usize]
            };
            if a.is_int() && b.is_int() {
                let ai = match a.get_int() {
                    Ok(v) => v,
                    Err(_) => {
                        proof {
                            assert(false);
                        }
                        0
                    },
                };
                let bi = match b.get_int() {
                    Ok(v) => v,
                    Err(_) => {
                        proof {
                            assert(false);
                        }
                        0
                    },
                };
                if fop == FloatOp::Div && bi == 0 {
                    proof {
                        assert(vm_step(s0) == StepV::Fail(self@, VMError::DivideByZero));
                    }
                    return StepOut::Failed(VMError::DivideByZero);
                }
                let rv = Self::arith_int_exec(fop, ai, bi);
                let out = Value::Int(rv);
                self.stack.set(d as usize, out);
                proof {
                    lemma_stack_set_ok(s0.stack, d as int, out, s0.heap.flags.len() as int);
                    assert(arith_spec(fop, a, b) == ArithR::IntVal(out));
                    assert(vm_step(s0) == StepV::Next(self@));
                }
                return StepOut::Cont;
            }
            if fop == FloatOp::Div {
                if !b.is_number() {
                    proof {
                        assert(vm_step(s0) == StepV::Fail(self@, VMError::NotAFloat));
                    }
                    return StepOut::Failed(VMError::NotAFloat);
                }
                if Self::numeric_zero_exec(&b) {
                    proof {
                        assert(vm_step(s0) == StepV::Fail(self@, VMError::DivideByZero));
                    }
                    return StepOut::Failed(VMError::DivideByZero);
                }
                if !a.is_number() {
                    proof {
                        assert(vm_step(s0) == StepV::Fail(self@, VMError::NotAFloat));
                    }
                    return StepOut::Failed(VMError::NotAFloat);
                }
            } else {
                if !a.is_number() {
                    proof {
                        assert(vm_step(s0) == StepV::Fail(self@, VMError::NotAFloat));
                    }
                    return StepOut::Failed(VMError::NotAFloat);
                }
                if !b.is_number() {
                    proof {
                        assert(vm_step(s0) == StepV::Fail(self@, VMError::NotAFloat));
                    }
                    return StepOut::Failed(VMError::NotAFloat);
                }
            }
            self.pending = Some(d);
            proof {
                assert(arith_spec(fop, a, b) == ArithR::Promote(fop, a, b));
                assert(vm_step(s0) == StepV::Float(self@, fop, a, b));
            }
            return StepOut::FloatReq(fop, a, b);
        }
        if op == CONS {
            let (d, x, y) = self.decode3(wide);
            let a = self.stack[x as usize];
            let b = self.stack[y as usize];
            proof {
                lemma_vm_roots_ok(self@);
                lemma_pair_refs_ok(a, b, s0.heap.flags.len() as int);
            }
            let h = self.allocate(Object::Pair(a, b));
            let out = Value::Reference(h);
            self.stack.set(d as usize, out);
            proof {
                lemma_values_refs_mono(
                    s0.stack,
                    s0.heap.flags.len() as int,
                    self@.heap.flags.len() as int,
                );
                lemma_values_refs_mono(
                    s0.chunk.constants,
                    s0.heap.flags.len() as int,
                    self@.heap.flags.len() as int,
                );
                lemma_stack_set_ok(s0.stack, d as int, out, self@.heap.flags.len() as int);
                assert(vm_step(s0) == StepV::Next(self@));
            }
            return StepOut::Cont;
        }
        if op == CAR || op == CDR {
            let (d, srcr) = self.decode2(wide);
            let v0 = self.stack[srcr as usize];
            let not_pair = if op == CAR {
                VMError::CarNotPair
            } else {
                VMError::CdrNotPair
            };
            match v0.unref(&self.heap) {
                Err(e) => {
                    proof {
                        assert(vm_step(s0) == StepV::Fail(self@, e));
                    }
                    return StepOut::Failed(e);
                },
                Ok(v) => match v {
                    Value::Reference(h) => {
                        let got: Option<(Value, Value)> = match self.heap.get(h) {
                            Err(_) => None,
                            Ok(obj) => match obj {
                                Object::Pair(car, cdr) => Some((*car, *cdr)),
                                _ => {
                                    proof {
                                        assert(vm_step(s0) == StepV::Fail(self@, not_pair));
                                    }
                                    return StepOut::Failed(not_pair);
                                },
                            },
                        };
                        match got {
                            None => {
                                proof {
                                    assert(vm_step(s0) == StepV::Fail(
                                        self@,
                                        VMError::InvalidHandle,
                                    ));
                                }
                                return StepOut::Failed(VMError::InvalidHandle);
                            },
                            Some((car, cdr)) => {
                                let out = if op == CAR {
                                    car
                                } else {
                                    cdr
                                };
                                proof {
                                    lemma_pair_field_ok(s0.heap, h.idx as int);
                                }
                                self.stack.set(d as usize, out);
                                proof {
                                    lemma_stack_set_ok(
                                        s0.stack,
                                        d as int,
                                        out,
                                        s0.heap.flags.len() as int,
                                    );
                                    assert(vm_step(s0) == StepV::Next(self@));
                                }
                                return StepOut::Cont;
                            },
                        }
                    },
                    Value::Nil => {
                        self.stack.set(d as usize, Value::Nil);
                        proof {
                            lemma_stack_set_ok(
                                s0.stack,
                                d as int,
                                Value::Nil,
                                s0.heap.flags.len() as int,
                            );
                            assert(vm_step(s0) == StepV::Next(self@));
                        }
                        return StepOut::Cont;
                    },
                    _ => {
                        proof {
                            assert(vm_step(s0) == StepV::Fail(self@, not_pair));
                        }
                        return StepOut::Failed(not_pair);
                    },
                },
            }
        }
        if op == LIST {
            let (d, start, end) = self.decode3(wide);
            if end <= start {
                self.stack.set(d as usize, Value::Nil);
                proof {
                    lemma_stack_set_ok(
                        s0.stack,
                        d as int,
                        Value::Nil,
                        s0.heap.flags.len() as int,
                    );
                    assert(vm_step(s0) == StepV::Next(self@));
                }
                return StepOut::Cont;
            }
            if end as usize > self.stack.len() {
                proof {
                    assert(vm_step(s0) == StepV::Fail(self@, VMError::NotEnoughElements));
                }
                return StepOut::Failed(VMError::NotEnoughElements);
            }
            let ghost s1 = self@;
            let mut base = self.gather_roots();
            proof {
                assert(vm_roots(s1) == vm_roots(s0));
                lemma_vm_roots_ok(s0);
            }
            let mut last_cdr = Value::Nil;
            let mut i: usize = end as usize;
            while i > start as usize
                invariant
                    s0 == old(self)@,
                    vm_ok(s0),
                    s0.ip < s0.chunk.code.len(),
                    s1 == (VmV { ip: s0.ip + 1 + 3 * opsize(wide), ..s0 }),
                    start < end,
                    end as int <= s0.stack.len(),
                    start as usize <= i <= end as usize,
                    self@ == (VmV { heap: self@.heap, ..s1 }),
                    heap_ready(self@.heap),
                    heap_refs_ok(self@.heap),
                    s0.heap.flags.len() <= self@.heap.flags.len() <= s0.heap.flags.len() + (
                    end as int - i),
                    values_refs_ok(s0.stack, self@.heap.flags.len() as int),
                    last_cdr matches Value::Reference(hc) ==> hc.idx
                        < self@.heap.flags.len(),
                    handle_ids(base@) == vm_roots(s0),
                    crate::semantics::roots_in_range(vm_roots(s0), s0.heap.flags.len() as int),
                    list_fold(s0.heap, s0.stack, start as int, end as int, Value::Nil, vm_roots(s0))
                        == list_fold(
                        self@.heap,
                        s0.stack,
                        start as int,
                        i as int,
                        last_cdr,
                        vm_roots(s0),
                    ),
                decreases i,
            {
                let ghost hpre = self@.heap;
                let ghost last_pre = last_cdr;
                let ghost base_pre = base@;
                i = i - 1;
                let car = self.stack[i];
                let cdr = last_cdr;
                // The partial chain's head joins the machine's roots for
                // this cell's allocation.
                let pushed = if let Value::Reference(hc) = cdr {
                    base.push(hc);
                    true
                } else {
                    false
                };
                proof {
                    assert(handle_ids(base@) =~= vm_roots(s0) + refs_of_value(cdr));
                    lemma_concat_roots_ok(
                        self@.heap,
                        vm_roots(s0),
                        cdr,
                        s0.heap.flags.len() as int,
                    );
                    lemma_pair_refs_ok(car, cdr, self@.heap.flags.len() as int);
                    assert(end as int - i <= 0x10000);
                    assert(self@.heap.flags.len() <= s0.heap.flags.len() + 0x10000);
                    assert(s0.heap.flags.len() + (s0.chunk.code.len() - s0.ip) * 0x10000
                        < usize::MAX as int / 2);
                    assert((s0.chunk.code.len() - s0.ip) * 0x10000 >= 1 * 0x10000) by {
                        lemma_mul_ordering_helper(s0.chunk.code.len() - s0.ip);
                    }
                    assert(self@.heap.flags.len() < usize::MAX as int / 2);
                }
                let h = self.heap.allocate(Object::Pair(car, cdr), &base);
                if pushed {
                    let _dropped = base.pop();
                    proof {
                        assert(base@ =~= base_pre);
                    }
                }
                last_cdr = Value::Reference(h);
                proof {
                    lemma_values_refs_mono(
                        s0.stack,
                        hpre.flags.len() as int,
                        self@.heap.flags.len() as int,
                    );
                    assert(list_fold(hpre, s0.stack, start as int, i + 1, last_pre, vm_roots(s0))
                        == list_fold(
                        self@.heap,
                        s0.stack,
                        start as int,
                        i as int,
                        last_cdr,
                        vm_roots(s0),
                    ));
                }
            }
            self.stack.set(d as usize, last_cdr);
            proof {
                assert(list_fold(
                    s0.heap,
                    s0.stack,
                    start as int,
                    end as int,
                    Value::Nil,
                    vm_roots(s0),
                ) == (self@.heap, last_cdr));
                lemma_values_refs_mono(
                    s0.chunk.constants,
                    s0.heap.flags.len() as int,
                    self@.heap.flags.len() as int,
                );
                lemma_values_refs_mono(
                    s0.stack,
                    s0.heap.flags.len() as int,
                    self@.heap.flags.len() as int,
                );
                lemma_stack_set_ok(s0.stack, d as int, last_cdr, self@.heap.flags.len() as int);
                assert(vm_step(s0) == StepV::Next(self@));
            }
            return StepOut::Cont;
        }
        // XAR or XDR.
        let is_car = op == XAR;
        let (pr, vr) = self.decode2(wide);
        let pairv = self.stack[pr as usize];
        let val = self.stack[vr as usize];
        match pairv {
            Value::Reference(h) => {
                let repl: Option<Object> = match self.heap.get(h) {
                    Err(_) => {
                        proof {
                            assert(vm_step(s0) == StepV::Fail(self@, VMError::InvalidHandle));
                        }
                        return StepOut::Failed(VMError::InvalidHandle);
                    },
                    Ok(obj) => match obj {
                        Object::Pair(car, cdr) => Some(
                            if is_car {
                                Object::Pair(val, *cdr)
                            } else {
                                Object::Pair(*car, val)
                            },
                        ),
                        Object::Value(Value::Nil) => Some(
                            if is_car {
                                Object::Pair(val, Value::Nil)
                            } else {
                                Object::Pair(Value::Nil, val)
                            },
                        ),
                        _ => None,
                    },
                };
                match repl {
                    None => {
                        proof {
                            assert(vm_step(s0) == StepV::Fail(self@, VMError::XarNotPair));
                        }
                        return StepOut::Failed(VMError::XarNotPair);
                    },
                    Some(o) => {
                        let ghost ov = o@;
                        proof {
                            if s0.heap.objects[h.idx as int] matches ObjectV::Pair(_, _) {
                                lemma_pair_field_ok(s0.heap, h.idx as int);
                            }
                        }
                        let rr = self.heap.replace(h, o);
                        proof {
                            assert(rr is Ok);
                            assert(self@.heap == spec_replace(s0.heap, h.idx as int, ov));
                            assert forall|i2: int, j2: int|
                                0 <= i2 < self@.heap.objects.len() && #[trigger] refs_of(
                                    self@.heap.objects[i2],
                                ).contains(j2) implies 0 <= j2 < self@.heap.objects.len() by {
                                if i2 == h.idx as int {
                                    match ov {
                                        ObjectV::Pair(a2, b2) => {
                                            lemma_pair_refs_ok(
                                                a2,
                                                b2,
                                                s0.heap.flags.len() as int,
                                            );
                                        },
                                        _ => {},
                                    }
                                } else {
                                    assert(self@.heap.objects[i2] == s0.heap.objects[i2]);
                                }
                            }
                            assert(vm_step(s0) == StepV::Next(self@));
                        }
                        return StepOut::Cont;
                    },
                }
            },
            Value::Nil => {
                proof {
                    lemma_vm_roots_ok(self@);
                    lemma_pair_refs_ok(val, Value::Nil, s0.heap.flags.len() as int);
                    lemma_pair_refs_ok(Value::Nil, val, s0.heap.flags.len() as int);
                }
                let h = self.allocate(
                    if is_car {
                        Object::Pair(val, Value::Nil)
                    } else {
                        Object::Pair(Value::Nil, val)
                    },
                );
                let out = Value::Reference(h);
                self.stack.set(pr as usize, out);
                proof {
                    lemma_values_refs_mono(
                        s0.stack,
                        s0.heap.flags.len() as int,
                        self@.heap.flags.len() as int,
                    );
                    lemma_values_refs_mono(
                        s0.chunk.constants,
                        s0.heap.flags.len() as int,
                        self@.heap.flags.len() as int,
                    );
                    lemma_stack_set_ok(s0.stack, pr as int, out, self@.heap.flags.len() as int);
                    assert(vm_step(s0) == StepV::Next(self@));
                }
                return StepOut::Cont;
            },
            _ => {
                proof {
                    assert(vm_step(s0) == StepV::Fail(self@, VMError::XarNotPair));
                }
                return StepOut::Failed(VMError::XarNotPair);
            },
        }
    }

    /// Drive [`Self::step`] until the run ends or the host must compute.
    fn run_loop(&mut self) -> (r: VMResult<Outcome>)
        requires
            vm_ok(old(self)@),
            code_ok_from(
                old(self)@.chunk.code,
                old(self)@.ip,
                STACK_SIZE as int,
                old(self)@.chunk.constants.len() as int,
            ),
            old(self)@.pending is None,
        ensures
            vm_ok(final(self)@),
            final(self)@.chunk.constants == old(self)@.chunk.constants,
            match r {
                Ok(Outcome::Done) => vm_run(old(self)@) == (final(self)@, RunEnd::Done)
                    && final(self)@.pending is None,
                Ok(Outcome::NeedFloat { op, a, b }) => vm_run(old(self)@) == (
                    final(self)@,
                    RunEnd::Float(op, a, b),
                ) && final(self)@.pending is Some && code_ok_from(
                    final(self)@.chunk.code,
                    final(self)@.ip,
                    STACK_SIZE as int,
                    final(self)@.chunk.constants.len() as int,
                ),
                Err(e) => vm_run(old(self)@) == (final(self)@, RunEnd::Fail(e))
                    && final(self)@.pending is None,
            },
    {
        loop
            invariant
                vm_ok(self@),
                code_ok_from(
                    self@.chunk.code,
                    self@.ip,
                    STACK_SIZE as int,
                    self@.chunk.constants.len() as int,
                ),
                self@.pending is None,
                self@.chunk == old(self)@.chunk,
                vm_run(old(self)@) == vm_run(self@),
            decreases self@.chunk.code.len() - self@.ip,
        {
            let ghost pre = self@;
            match self.step() {
                StepOut::Cont => {
                    proof {
                        assert(vm_run(pre) == vm_run(self@));
                    }
                },
                StepOut::Finished => {
                    proof {
                        assert(vm_run(pre) == (self@, RunEnd::Done));
                    }
                    return Ok(Outcome::Done);
                },
                StepOut::Failed(e) => {
                    proof {
                        assert(vm_run(pre) == (self@, RunEnd::Fail(e)));
                    }
                    return Err(e);
                },
                StepOut::FloatReq(f, a, b) => {
                    proof {
                        assert(vm_run(pre) == (self@, RunEnd::Float(f, a, b)));
                    }
                    return Ok(Outcome::NeedFloat { op: f, a, b });
                },
            }
        }
    }

    /// Execute the bound chunk from the current instruction pointer until
    /// its `RET`, a classified failure, or a float request the host must
    /// answer through [`Vm::resume_float`]. The result is exactly what the
    /// mathematical semantics says: `vm_run` of the starting state. The
    /// decode-safety obligation can be established at run time with
    /// [`Vm::code_ok`].
    pub fn execute(&mut self) -> (r: VMResult<Outcome>)
        requires
            vm_ok(old(self)@),
            code_ok_from(
                old(self)@.chunk.code,
                old(self)@.ip,
                STACK_SIZE as int,
                old(self)@.chunk.constants.len() as int,
            ),
            old(self)@.pending is None,
        ensures
            vm_ok(final(self)@),
            final(self)@.chunk.constants == old(self)@.chunk.constants,
            match r {
                Ok(Outcome::Done) => vm_run(old(self)@) == (final(self)@, RunEnd::Done)
                    && final(self)@.pending is None,
                Ok(Outcome::NeedFloat { op, a, b }) => vm_run(old(self)@) == (
                    final(self)@,
                    RunEnd::Float(op, a, b),
                ) && final(self)@.pending is Some && code_ok_from(
                    final(self)@.chunk.code,
                    final(self)@.ip,
                    STACK_SIZE as int,
                    final(self)@.chunk.constants.len() as int,
                ),
                Err(e) => vm_run(old(self)@) == (final(self)@, RunEnd::Fail(e))
                    && final(self)@.pending is None,
            },
    {
        self.run_loop()
    }

    /// Hand back the bits of the float operation the machine paused for:
    /// they land in the recorded destination register as a `Float`, and
    /// execution continues as the semantics says from that state.
    pub fn resume_float(&mut self, bits: u64) -> (r: VMResult<Outcome>)
        requires
            vm_ok(old(self)@),
            code_ok_from(
                old(self)@.chunk.code,
                old(self)@.ip,
                STACK_SIZE as int,
                old(self)@.chunk.constants.len() as int,
            ),
            old(self)@.pending is Some,
        ensures
            vm_ok(final(self)@),
            final(self)@.chunk.constants == old(self)@.chunk.constants,
            match r {
                Ok(Outcome::Done) => vm_run(resume_state(old(self)@, bits)) == (
                    final(self)@,
                    RunEnd::Done,
                ) && final(self)@.pending is None,
                Ok(Outcome::NeedFloat { op, a, b }) => vm_run(resume_state(old(self)@, bits))
                    == (final(self)@, RunEnd::Float(op, a, b)) && final(self)@.pending is Some
                    && code_ok_from(
                    final(self)@.chunk.code,
                    final(self)@.ip,
                    STACK_SIZE as int,
                    final(self)@.chunk.constants.len() as int,
                ),
                Err(e) => vm_run(resume_state(old(self)@, bits)) == (
                    final(self)@,
                    RunEnd::Fail(e),
                ) && final(self)@.pending is None,
            },
    {
        let d = match self.pending {
            Some(d) => d,
            None => {
                proof {
                    assert(false);
                }
                0
            },
        };
        self.stack.set(d as usize, Value::Float(bits));
        self.pending = None;
        proof {
            assert(self@ == resume_state(old(self)@, bits));
            lemma_stack_set_ok(
                old(self)@.stack,
                d as int,
                Value::Float(bits),
                old(self)@.heap.flags.len() as int,
            );
        }
        self.run_loop()
    }
}

} // verus!
