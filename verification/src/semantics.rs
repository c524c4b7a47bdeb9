//! The virtual machine's semantics, as mathematics.
//!
//! [`vm_step`] maps a machine state to the effect of its next instruction;
//! [`vm_run`] iterates it to a return, a failure, or a request for host
//! floating-point work. [`Vm::execute`](crate::vm::Vm::execute) is proved
//! to produce exactly what [`vm_run`] says.

use vstd::prelude::*;

use crate::chunk::ChunkV;
use crate::error::VMError;
use crate::heap::{
    collect_ok, handle_ids, heap_inv, heap_ready, heap_refs_ok, lemma_refs_of_values_in_range,
    lemma_refs_ok_collect_ok, refs_of_value, refs_of_values, set_in_range, spec_alloc,
    spec_replace, spec_unref, Handle, HeapV, ObjectV,
};
use crate::interner::GlobalsV;
use crate::opcodes::{
    ADD, ADD_KR, ADD_RK, CAR, CDR, CONS, DIV, DIV_KR, DIV_RK, LIST, MUL, MUL_KR, MUL_RK, RET,
    STORE, STORE_K, SUB, SUB_KR, SUB_RK, XAR, XDR,
};
use crate::value::{i56_wrap, tdiv, Value};

verus! {

/// The register file's fixed size.
pub const STACK_SIZE: usize = 1024;

/// An arithmetic operation whose floating-point form the host computes.
#[derive(Copy, Clone, Debug, PartialEq, Eq, Structural)]
pub enum FloatOp {
    Add,
    Sub,
    Mul,
    Div,
}

/// The full mathematical state of a [`Vm`](crate::vm::Vm).
pub ghost struct VmV {
    pub heap: HeapV,
    pub chunk: ChunkV,
    pub stack: Seq<Value>,
    pub ip: int,
    pub pending: Option<u16>,
    pub interner: Seq<Seq<char>>,
    pub globals: GlobalsV,
}

/// Every global binding names a slot inside the heap's arrays.
pub open spec fn globals_in_range(g: GlobalsV, n: int) -> bool {
    forall|k: int| 0 <= k < g.bindings.len() ==> (#[trigger] g.bindings[k]).idx < n
}

/// The machine's collection roots: every slot referenced from a register,
/// from the constant pool, or from a global binding — the handles
/// reachable from machine state outside the heap.
pub open spec fn vm_roots(s: VmV) -> Seq<int> {
    refs_of_values(s.stack) + refs_of_values(s.chunk.constants) + handle_ids(s.globals.bindings)
}

/// Every index of a root sequence lies below `n`.
pub open spec fn roots_in_range(roots: Seq<int>, n: int) -> bool {
    forall|k: int| 0 <= k < roots.len() ==> 0 <= #[trigger] roots[k] < n
}

/// A consistent machine can always collect from its own roots: they are
/// in range, and the closure they reach stays inside the heap's arrays.
pub proof fn lemma_vm_roots_ok(s: VmV)
    requires
        heap_inv(s.heap),
        heap_refs_ok(s.heap),
        values_refs_ok(s.stack, s.heap.flags.len() as int),
        values_refs_ok(s.chunk.constants, s.heap.flags.len() as int),
        globals_in_range(s.globals, s.heap.flags.len() as int),
    ensures
        roots_in_range(vm_roots(s), s.heap.flags.len() as int),
        set_in_range(vm_roots(s).to_set(), s.heap.flags.len() as int),
        collect_ok(s.heap, vm_roots(s)),
{
    let len = s.heap.flags.len() as int;
    lemma_refs_of_values_in_range(s.stack, len);
    lemma_refs_of_values_in_range(s.chunk.constants, len);
    let a = refs_of_values(s.stack);
    let b = refs_of_values(s.chunk.constants);
    let c = handle_ids(s.globals.bindings);
    assert forall|k: int| 0 <= k < vm_roots(s).len() implies 0 <= #[trigger] vm_roots(s)[k]
        < len by {
        if k < a.len() {
            assert(vm_roots(s)[k] == a[k]);
        } else if k < a.len() + b.len() {
            assert(vm_roots(s)[k] == b[k - a.len()]);
        } else {
            assert(vm_roots(s)[k] == c[k - a.len() - b.len()]);
            assert(c[k - a.len() - b.len()] == s.globals.bindings[k - a.len() - b.len()].idx
                as int);
        }
    }
    assert forall|x: int| #[trigger] vm_roots(s).to_set().contains(x) implies 0 <= x < len by {
        let k = choose|k: int| 0 <= k < vm_roots(s).len() && vm_roots(s)[k] == x;
    }
    lemma_refs_ok_collect_ok(s.heap, vm_roots(s));
}

/// The effect of one instruction.
pub ghost enum StepV {
    /// Execution continues in the new state.
    Next(VmV),
    /// A `RET` ended the run.
    Done(VmV),
    /// The instruction failed; the error propagates to the caller.
    Fail(VmV, VMError),
    /// Both promoted operands must go to the host's float unit; the
    /// destination register is recorded in `pending`.
    Float(VmV, FloatOp, Value, Value),
}

/// How a run ends.
pub ghost enum RunEnd {
    Done,
    Fail(VMError),
    Float(FloatOp, Value, Value),
}

// ---------------------------------------------------------------------------
// Decoding.
// ---------------------------------------------------------------------------

/// A big-endian 16-bit operand.
pub open spec fn d_u16(code: Seq<u8>, ip: int) -> u16 {
    ((code[ip] as u16) << 8) | (code[ip + 1] as u16)
}

/// One operand: two bytes in wide mode, one otherwise.
pub open spec fn operand(code: Seq<u8>, ip: int, wide: bool) -> u16 {
    if wide {
        d_u16(code, ip)
    } else {
        code[ip] as u16
    }
}

/// Bytes per operand.
pub open spec fn opsize(wide: bool) -> int {
    if wide {
        2
    } else {
        1
    }
}

/// The two operands of an instruction at `ip`.
pub open spec fn operands2(code: Seq<u8>, ip: int, wide: bool) -> (u16, u16) {
    (operand(code, ip + 1, wide), operand(code, ip + 1 + opsize(wide), wide))
}

/// The three operands of an instruction at `ip`.
pub open spec fn operands3(code: Seq<u8>, ip: int, wide: bool) -> (u16, u16, u16) {
    (
        operand(code, ip + 1, wide),
        operand(code, ip + 1 + opsize(wide), wide),
        operand(code, ip + 1 + 2 * opsize(wide), wide),
    )
}

/// Whether the low seven bits name an operation.
pub open spec fn known_opcode(op: u8) -> bool {
    RET <= op <= XDR
}

/// How many operands an operation takes.
pub open spec fn arity(op: u8) -> int {
    if op == RET {
        0
    } else if op == STORE || op == STORE_K || op == CAR || op == CDR || op == XAR || op == XDR {
        2
    } else {
        3
    }
}

/// The arithmetic family with both operands in registers.
pub open spec fn is_arith_rr(op: u8) -> bool {
    op == ADD || op == SUB || op == MUL || op == DIV
}

/// The arithmetic family with a register and a constant operand.
pub open spec fn is_arith_rk(op: u8) -> bool {
    op == ADD_RK || op == SUB_RK || op == MUL_RK || op == DIV_RK
}

/// The arithmetic family with a constant and a register operand.
pub open spec fn is_arith_kr(op: u8) -> bool {
    op == ADD_KR || op == SUB_KR || op == MUL_KR || op == DIV_KR
}

/// Which operation an arithmetic opcode performs.
pub open spec fn fop_of(op: u8) -> FloatOp {
    if op == ADD || op == ADD_RK || op == ADD_KR {
        FloatOp::Add
    } else if op == SUB || op == SUB_RK || op == SUB_KR {
        FloatOp::Sub
    } else if op == MUL || op == MUL_RK || op == MUL_KR {
        FloatOp::Mul
    } else {
        FloatOp::Div
    }
}

/// The operand bounds one instruction needs so that decoding and register
/// and constant addressing never leave their arrays. `LIST` checks its
/// source range at run time; only its destination is constrained.
pub open spec fn instr_operands_ok(
    code: Seq<u8>,
    ip: int,
    op: u8,
    wide: bool,
    nregs: int,
    nconsts: int,
) -> bool {
    if op == STORE {
        let (d, src) = operands2(code, ip, wide);
        d < nregs && src < nregs
    } else if op == STORE_K {
        let (d, src) = operands2(code, ip, wide);
        d < nregs && src < nconsts
    } else if is_arith_rr(op) || op == CONS {
        let (d, a, b) = operands3(code, ip, wide);
        d < nregs && a < nregs && b < nregs
    } else if is_arith_rk(op) {
        let (d, a, b) = operands3(code, ip, wide);
        d < nregs && a < nregs && b < nconsts
    } else if is_arith_kr(op) {
        let (d, a, b) = operands3(code, ip, wide);
        d < nregs && a < nconsts && b < nregs
    } else if op == CAR || op == CDR || op == XAR || op == XDR {
        let (d, src) = operands2(code, ip, wide);
        d < nregs && src < nregs
    } else if op == LIST {
        let (d, _s, _e) = operands3(code, ip, wide);
        d < nregs
    } else {
        true
    }
}

/// Decode safety from `ip` on: every instruction until a `RET` or an
/// unrecognized opcode decodes within the code bytes, with operands inside
/// the register file and the constant pool.
pub open spec fn code_ok_from(code: Seq<u8>, ip: int, nregs: int, nconsts: int) -> bool
    decreases code.len() - ip,
{
    &&& 0 <= ip < code.len()
    &&& {
        let byte = code[ip];
        let wide = byte & 0x80 != 0;
        let op = byte & 0x7f;
        if !known_opcode(op) || op == RET {
            true
        } else {
            let next = ip + 1 + arity(op) * opsize(wide);
            &&& next <= code.len()
            &&& instr_operands_ok(code, ip, op, wide, nregs, nconsts)
            &&& code_ok_from(code, next, nregs, nconsts)
        }
    }
}

// ---------------------------------------------------------------------------
// Arithmetic.
// ---------------------------------------------------------------------------

/// Integer arithmetic on the packed 56-bit representation, with native
/// wraparound; division truncates toward zero.
pub open spec fn arith_int(fop: FloatOp, a: int, b: int) -> int {
    match fop {
        FloatOp::Add => i56_wrap(a + b),
        FloatOp::Sub => i56_wrap(a - b),
        FloatOp::Mul => i56_wrap(a * b),
        FloatOp::Div => i56_wrap(tdiv(a, b)),
    }
}

/// Whether a numeric value is zero in its own representation; an IEEE
/// float is zero exactly when all bits but the sign are clear.
pub open spec fn numeric_zero(v: Value) -> bool {
    match v {
        Value::Byte(b) => b == 0,
        Value::Int(i) => i == 0,
        Value::Float(bits) => bits & 0x7fff_ffff_ffff_ffff == 0,
        _ => false,
    }
}

/// What one arithmetic instruction yields.
pub ghost enum ArithR {
    /// An integer result, both operands having been integers.
    IntVal(Value),
    /// A classified failure: a zero divisor, or a non-numeric operand.
    Fault(VMError),
    /// Both operands promote to float; the host must compute.
    Promote(FloatOp, Value, Value),
}

/// The arithmetic promotion rule. Two integer operands give an integer
/// with native wraparound; any float operand sends both to the host; a
/// divide checks its divisor for zero in either representation before
/// anything else can fail.
pub open spec fn arith_spec(fop: FloatOp, a: Value, b: Value) -> ArithR {
    if a.is_int_spec() && b.is_int_spec() {
        if fop == FloatOp::Div && b.int_val() == 0 {
            ArithR::Fault(VMError::DivideByZero)
        } else {
            ArithR::IntVal(Value::Int(arith_int(fop, a.int_val(), b.int_val()) as i64))
        }
    } else if fop == FloatOp::Div {
        if !b.is_number_spec() {
            ArithR::Fault(VMError::NotAFloat)
        } else if numeric_zero(b) {
            ArithR::Fault(VMError::DivideByZero)
        } else if !a.is_number_spec() {
            ArithR::Fault(VMError::NotAFloat)
        } else {
            ArithR::Promote(fop, a, b)
        }
    } else if !a.is_number_spec() {
        ArithR::Fault(VMError::NotAFloat)
    } else if !b.is_number_spec() {
        ArithR::Fault(VMError::NotAFloat)
    } else {
        ArithR::Promote(fop, a, b)
    }
}

// ---------------------------------------------------------------------------
// List building.
// ---------------------------------------------------------------------------

/// Build the pair chain for registers `[start, i)` from the highest index
/// down, threading each new pair's second field to the previous cell, so
/// the chain's first fields keep left-to-right register order. Each
/// allocation passes the machine's roots plus the partial chain's head,
/// so a collection triggered mid-build reclaims neither the registers'
/// referents nor the cells already built. Yields the heap after all
/// allocations and the list's head value.
pub open spec fn list_fold(
    h: HeapV,
    stack: Seq<Value>,
    start: int,
    i: int,
    last: Value,
    roots: Seq<int>,
) -> (HeapV, Value)
    decreases i - start,
{
    if i <= start {
        (h, last)
    } else {
        let (h2, idx) = spec_alloc(
            h,
            ObjectV::Pair(stack[i - 1], last),
            roots + refs_of_value(last),
        );
        list_fold(h2, stack, start, i - 1, Value::Reference(Handle { idx: idx as usize }), roots)
    }
}

// ---------------------------------------------------------------------------
// The step function.
// ---------------------------------------------------------------------------

/// The effect of the instruction at `s.ip`. On a state whose next
/// instruction does not decode within the code bytes the result is an
/// inert failure; [`code_ok_from`] rules such states out for execution.
pub open spec fn vm_step(s: VmV) -> StepV {
    let code = s.chunk.code;
    if !(0 <= s.ip < code.len()) {
        StepV::Fail(s, VMError::InvalidOpcode(0))
    } else {
        let byte = code[s.ip];
        let wide = byte & 0x80 != 0;
        let op = byte & 0x7f;
        let w = opsize(wide);
        if !known_opcode(op) {
            StepV::Fail(VmV { ip: s.ip + 1, ..s }, VMError::InvalidOpcode(byte))
        } else if op == RET {
            StepV::Done(VmV { ip: s.ip + 1, ..s })
        } else if s.ip + 1 + arity(op) * w > code.len() {
            StepV::Fail(s, VMError::InvalidOpcode(0))
        } else if op == STORE {
            let (d, src) = operands2(code, s.ip, wide);
            StepV::Next(
                VmV {
                    ip: s.ip + 1 + 2 * w,
                    stack: s.stack.update(d as int, s.stack[src as int]),
                    ..s
                },
            )
        } else if op == STORE_K {
            let (d, src) = operands2(code, s.ip, wide);
            StepV::Next(
                VmV {
                    ip: s.ip + 1 + 2 * w,
                    stack: s.stack.update(d as int, s.chunk.constants[src as int]),
                    ..s
                },
            )
        } else if is_arith_rr(op) || is_arith_rk(op) || is_arith_kr(op) {
            let (d, x, y) = operands3(code, s.ip, wide);
            let a = if is_arith_kr(op) {
                s.chunk.constants[x as int]
            } else {
                s.stack[x as int]
            };
            let b = if is_arith_rk(op) {
                s.chunk.constants[y as int]
            } else {
                s.stack[y as int]
            };
            let s2 = VmV { ip: s.ip + 1 + 3 * w, ..s };
            match arith_spec(fop_of(op), a, b) {
                ArithR::IntVal(v) => StepV::Next(VmV { stack: s.stack.update(d as int, v), ..s2 }),
                ArithR::Fault(e) => StepV::Fail(s2, e),
                ArithR::Promote(fop, fa, fb) => StepV::Float(
                    VmV { pending: Some(d), ..s2 },
                    fop,
                    fa,
                    fb,
                ),
            }
        } else if op == CONS {
            let (d, x, y) = operands3(code, s.ip, wide);
            let (h2, idx) = spec_alloc(
                s.heap,
                ObjectV::Pair(s.stack[x as int], s.stack[y as int]),
                vm_roots(s),
            );
            StepV::Next(
                VmV {
                    ip: s.ip + 1 + 3 * w,
                    heap: h2,
                    stack: s.stack.update(
                        d as int,
                        Value::Reference(Handle { idx: idx as usize }),
                    ),
                    ..s
                },
            )
        } else if op == CAR || op == CDR {
            let (d, src) = operands2(code, s.ip, wide);
            let s2 = VmV { ip: s.ip + 1 + 2 * w, ..s };
            let not_pair = if op == CAR {
                VMError::CarNotPair
            } else {
                VMError::CdrNotPair
            };
            match spec_unref(s.heap, s.stack[src as int]) {
                Err(e) => StepV::Fail(s2, e),
                Ok(v) => match v {
                    Value::Reference(h) => if h.idx < s.heap.objects.len() {
                        match s.heap.objects[h.idx as int] {
                            ObjectV::Pair(car, cdr) => StepV::Next(
                                VmV {
                                    stack: s.stack.update(
                                        d as int,
                                        if op == CAR {
                                            car
                                        } else {
                                            cdr
                                        },
                                    ),
                                    ..s2
                                },
                            ),
                            _ => StepV::Fail(s2, not_pair),
                        }
                    } else {
                        StepV::Fail(s2, VMError::InvalidHandle)
                    },
                    Value::Nil => StepV::Next(
                        VmV { stack: s.stack.update(d as int, Value::Nil), ..s2 },
                    ),
                    _ => StepV::Fail(s2, not_pair),
                },
            }
        } else if op == LIST {
            let (d, start, end) = operands3(code, s.ip, wide);
            let s2 = VmV { ip: s.ip + 1 + 3 * w, ..s };
            if end <= start {
                StepV::Next(VmV { stack: s.stack.update(d as int, Value::Nil), ..s2 })
            } else if end as int > s.stack.len() {
                StepV::Fail(s2, VMError::NotEnoughElements)
            } else {
                let (h2, head) = list_fold(
                    s.heap,
                    s.stack,
                    start as int,
                    end as int,
                    Value::Nil,
                    vm_roots(s),
                );
                StepV::Next(VmV { heap: h2, stack: s.stack.update(d as int, head), ..s2 })
            }
        } else {
            // XAR or XDR: destructive field mutation with box-creating
            // semantics on nil.
            let (pr, vr) = operands2(code, s.ip, wide);
            let s2 = VmV { ip: s.ip + 1 + 2 * w, ..s };
            let val = s.stack[vr as int];
            let is_car = op == XAR;
            match s.stack[pr as int] {
                Value::Reference(h) => if h.idx < s.heap.objects.len() {
                    match s.heap.objects[h.idx as int] {
                        ObjectV::Pair(car, cdr) => StepV::Next(
                            VmV {
                                heap: spec_replace(
                                    s.heap,
                                    h.idx as int,
                                    if is_car {
                                        ObjectV::Pair(val, cdr)
                                    } else {
                                        ObjectV::Pair(car, val)
                                    },
                                ),
                                ..s2
                            },
                        ),
                        ObjectV::Value(Value::Nil) => StepV::Next(
                            VmV {
                                heap: spec_replace(
                                    s.heap,
                                    h.idx as int,
                                    if is_car {
                                        ObjectV::Pair(val, Value::Nil)
                                    } else {
                                        ObjectV::Pair(Value::Nil, val)
                                    },
                                ),
                                ..s2
                            },
                        ),
                        _ => StepV::Fail(s2, VMError::XarNotPair),
                    }
                } else {
                    StepV::Fail(s2, VMError::InvalidHandle)
                },
                Value::Nil => {
                    let (h2, idx) = spec_alloc(
                        s.heap,
                        if is_car {
                            ObjectV::Pair(val, Value::Nil)
                        } else {
                            ObjectV::Pair(Value::Nil, val)
                        },
                        vm_roots(s),
                    );
                    StepV::Next(
                        VmV {
                            heap: h2,
                            stack: s.stack.update(
                                pr as int,
                                Value::Reference(Handle { idx: idx as usize }),
                            ),
                            ..s2
                        },
                    )
                },
                _ => StepV::Fail(s2, VMError::XarNotPair),
            }
        }
    }
}

/// One instruction leaves the chunk alone, and a continuing instruction
/// advances the instruction pointer within the code bytes.
pub proof fn lemma_vm_step_ip(s: VmV)
    ensures
        match vm_step(s) {
            StepV::Next(s2) => s2.chunk == s.chunk && s.ip < s2.ip <= s.chunk.code.len(),
            _ => true,
        },
{
}

/// Run to a return, a failure, or a float request.
pub open spec fn vm_run(s: VmV) -> (VmV, RunEnd)
    decreases s.chunk.code.len() - s.ip
        via vm_run_decreases
{
    match vm_step(s) {
        StepV::Next(s2) => vm_run(s2),
        StepV::Done(s2) => (s2, RunEnd::Done),
        StepV::Fail(s2, e) => (s2, RunEnd::Fail(e)),
        StepV::Float(s2, fop, a, b) => (s2, RunEnd::Float(fop, a, b)),
    }
}

#[via_fn]
proof fn vm_run_decreases(s: VmV) {
    lemma_vm_step_ip(s);
}

/// Resuming after host float work: the computed bit pattern lands in the
/// recorded destination register, and the request is cleared.
pub open spec fn resume_state(s: VmV, bits: u64) -> VmV {
    match s.pending {
        Some(d) => VmV {
            stack: s.stack.update(d as int, Value::Float(bits)),
            pending: None,
            ..s
        },
        None => s,
    }
}

// ---------------------------------------------------------------------------
// Laws of the instruction semantics.
// ---------------------------------------------------------------------------

/// Arithmetic promotion. Two integer operands (bytes included) give an
/// integer result by native wraparound on the packed 56-bit
/// representation; once any operand is a float, both go to the host and
/// the result register receives a float; and a divide with a zero divisor
/// fails with the divide-by-zero error whatever the operands'
/// representations — never reaching the host.
pub proof fn lemma_arith_promotion(fop: FloatOp, a: Value, b: Value)
    ensures
        a.is_int_spec() && b.is_int_spec() && !(fop == FloatOp::Div && b.int_val() == 0)
            ==> arith_spec(fop, a, b) == ArithR::IntVal(
            Value::Int(arith_int(fop, a.int_val(), b.int_val()) as i64),
        ),
        a.is_number_spec() && b.is_number_spec() && !(a.is_int_spec() && b.is_int_spec()) && !(
        fop == FloatOp::Div && numeric_zero(b)) ==> arith_spec(fop, a, b) == ArithR::Promote(
            fop,
            a,
            b,
        ),
        fop == FloatOp::Div && b.is_number_spec() && numeric_zero(b) ==> arith_spec(fop, a, b)
            == ArithR::Fault(VMError::DivideByZero),
{
}

/// `CAR` and `CDR` treat nil as nil, wherever it lives: a register-resident
/// `Nil` and a heap box holding `Nil` both dereference to `Nil`, so the
/// instructions store `Nil` rather than failing.
pub proof fn lemma_unref_nil(h: HeapV, v: Value)
    requires
        v == Value::Nil || (match v {
            Value::Reference(hd) => hd.idx < h.objects.len() && h.objects[hd.idx as int]
                == ObjectV::Value(Value::Nil),
            _ => false,
        }),
    ensures
        spec_unref(h, v) == Ok::<Value, VMError>(Value::Nil),
{
}

/// A proper list: `v` heads a chain of pairs whose first fields are the
/// registers `[start, end)` in order and whose final second field is
/// `Nil`.
pub open spec fn list_chain(h: HeapV, v: Value, stack: Seq<Value>, start: int, end: int) -> bool
    decreases end - start,
{
    if end <= start {
        v == Value::Nil
    } else {
        match v {
            Value::Reference(hd) => hd.idx < h.objects.len() && match h.objects[hd.idx as int] {
                ObjectV::Pair(car, cdr) => car == stack[start] && list_chain(
                    h,
                    cdr,
                    stack,
                    start + 1,
                    end,
                ),
                _ => false,
            },
            _ => false,
        }
    }
}

/// A proper list all of whose cells are live, so that further allocations
/// below the capacity ceiling cannot overwrite them.
spec fn chain_live(h: HeapV, v: Value, stack: Seq<Value>, start: int, end: int) -> bool
    decreases end - start,
{
    if end <= start {
        v == Value::Nil
    } else {
        match v {
            Value::Reference(hd) => hd.idx < h.objects.len() && crate::heap::spec_is_marked(
                h.flags[hd.idx as int],
            ) && h.flags.len() == h.objects.len() && match h.objects[hd.idx as int] {
                ObjectV::Pair(car, cdr) => car == stack[start] && chain_live(
                    h,
                    cdr,
                    stack,
                    start + 1,
                    end,
                ),
                _ => false,
            },
            _ => false,
        }
    }
}

/// A live chain survives any change that leaves marked slots untouched.
proof fn lemma_chain_live_preserved(
    h: HeapV,
    h2: HeapV,
    v: Value,
    stack: Seq<Value>,
    start: int,
    end: int,
)
    requires
        chain_live(h, v, stack, start, end),
        h.objects.len() <= h2.objects.len(),
        h2.objects.len() == h2.flags.len(),
        forall|j: int|
            0 <= j < h.objects.len() && crate::heap::spec_is_marked(#[trigger] h.flags[j])
                ==> h2.flags[j] == h.flags[j] && h2.objects[j] == h.objects[j],
    ensures
        chain_live(h2, v, stack, start, end),
    decreases end - start,
{
    if end > start {
        match v {
            Value::Reference(hd) => {
                match h.objects[hd.idx as int] {
                    ObjectV::Pair(car, cdr) => {
                        lemma_chain_live_preserved(h, h2, cdr, stack, start + 1, end);
                    },
                    _ => {},
                }
            },
            _ => {},
        }
    }
}

/// A live chain is a proper list.
proof fn lemma_chain_live_implies_chain(
    h: HeapV,
    v: Value,
    stack: Seq<Value>,
    start: int,
    end: int,
)
    requires
        chain_live(h, v, stack, start, end),
    ensures
        list_chain(h, v, stack, start, end),
    decreases end - start,
{
    if end > start {
        match v {
            Value::Reference(hd) => {
                match h.objects[hd.idx as int] {
                    ObjectV::Pair(car, cdr) => {
                        lemma_chain_live_implies_chain(h, cdr, stack, start + 1, end);
                    },
                    _ => {},
                }
            },
            _ => {},
        }
    }
}

/// The inner induction: folding the registers `[start, i)` onto a live
/// chain for `[i, end)` yields a live chain for `[start, end)`.
proof fn lemma_list_fold_builds(
    h: HeapV,
    stack: Seq<Value>,
    start: int,
    i: int,
    end: int,
    last: Value,
    roots: Seq<int>,
)
    requires
        crate::heap::heap_inv(h),
        0 <= start <= i <= end,
        h.live + (i - start) <= h.capacity,
        h.flags.len() + (i - start) <= usize::MAX as int / 2,
        chain_live(h, last, stack, i, end),
    ensures
        ({
            let (h2, v) = list_fold(h, stack, start, i, last, roots);
            &&& crate::heap::heap_inv(h2)
            &&& chain_live(h2, v, stack, start, end)
            &&& h2.live == h.live + (i - start)
            &&& h2.capacity == h.capacity
            &&& h.objects.len() <= h2.objects.len() <= h.objects.len() + (i - start)
        }),
    decreases i - start,
{
    if i > start {
        let o = ObjectV::Pair(stack[i - 1], last);
        assert(spec_alloc(h, o, roots + refs_of_value(last)) == crate::heap::place_new(h, o));
        crate::heap::lemma_place_preserves(h, o);
        let (ha, idx) = crate::heap::place_new(h, o);
        lemma_chain_live_preserved(h, ha, last, stack, i, end);
        assert(chain_live(ha, Value::Reference(Handle { idx: idx as usize }), stack, i - 1, end));
        lemma_list_fold_builds(ha, stack, start, i - 1, end, Value::Reference(
            Handle { idx: idx as usize },
        ), roots);
    }
}

/// List construction. Building a list over registers `[start, end)` of a
/// heap with room for `end - start` fresh cells (so that no collection
/// runs mid-build) yields exactly `end - start` pairs whose first fields
/// are those registers in order, ending in `Nil`; an empty or collapsed
/// range yields `Nil` with the heap untouched. The live count grows by
/// one per cell and the capacity stands.
pub proof fn lemma_list_fold_chain(h: HeapV, stack: Seq<Value>, start: int, end: int, roots: Seq<int>)
    requires
        crate::heap::heap_inv(h),
        0 <= start,
        h.live + (end - start) <= h.capacity,
        h.flags.len() + (end - start) <= usize::MAX as int / 2,
    ensures
        start <= end ==> ({
            let (h2, v) = list_fold(h, stack, start, end, Value::Nil, roots);
            &&& list_chain(h2, v, stack, start, end)
            &&& h2.live == h.live + (end - start)
            &&& h2.capacity == h.capacity
        }),
        end <= start ==> list_fold(h, stack, start, end, Value::Nil, roots) == (h, Value::Nil),
{
    if start <= end {
        lemma_list_fold_builds(h, stack, start, end, end, Value::Nil, roots);
        let (h2, v) = list_fold(h, stack, start, end, Value::Nil, roots);
        lemma_chain_live_implies_chain(h2, v, stack, start, end);
    }
}

// ---------------------------------------------------------------------------
// The standing well-formedness of an executing machine.
// ---------------------------------------------------------------------------

/// Every reference among these values points inside the heap's arrays.
pub open spec fn values_refs_ok(vs: Seq<Value>, len: int) -> bool {
    forall|k: int|
        0 <= k < vs.len() ==> match #[trigger] vs[k] {
            Value::Reference(h) => h.idx < len,
            _ => true,
        }
}

/// A machine state fit to execute: a consistent heap whose references,
/// and whose registers' and constants' references, all stay in range, a
/// full-size register file, and enough address space that the run's
/// allocations cannot exhaust the heap's slot indexing.
pub open spec fn vm_ok(s: VmV) -> bool {
    &&& heap_ready(s.heap)
    &&& heap_refs_ok(s.heap)
    &&& s.stack.len() == STACK_SIZE as int
    &&& values_refs_ok(s.stack, s.heap.flags.len() as int)
    &&& values_refs_ok(s.chunk.constants, s.heap.flags.len() as int)
    &&& globals_in_range(s.globals, s.heap.flags.len() as int)
    &&& s.heap.flags.len() + (s.chunk.code.len() - s.ip) * 0x10000 < usize::MAX as int / 2
    &&& 0 <= s.ip <= s.chunk.code.len()
    &&& match s.pending {
        Some(d) => (d as int) < s.stack.len(),
        None => true,
    }
}

} // verus!
