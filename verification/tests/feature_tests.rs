use slvm::chunk::Chunk;
use slvm::error::{ErrorKind, VMError};
use slvm::heap::{Handle, Heap, Object};
use slvm::interner::Globals;
use slvm::opcodes::{ADD, CAR, CDR, CONS, DIV, LIST, RET, STORE, STORE_K, XAR};
use slvm::semantics::FloatOp;
use slvm::value::{to_i56, Value, I56_MAX, I56_MIN};
use slvm::vm::{Outcome, Vm};

fn to_f64(v: &Value) -> f64 {
    match v {
        Value::Int(i) => *i as f64,
        Value::Byte(b) => *b as f64,
        Value::Float(bits) => f64::from_bits(*bits),
        _ => panic!("operand is not numeric"),
    }
}

fn run(vm: &mut Vm) -> Result<(), VMError> {
    let mut out = vm.execute()?;
    loop {
        match out {
            Outcome::Done => return Ok(()),
            Outcome::NeedFloat { op, a, b } => {
                let x = to_f64(&a);
                let y = to_f64(&b);
                let r = match op {
                    FloatOp::Add => x + y,
                    FloatOp::Sub => x - y,
                    FloatOp::Mul => x * y,
                    FloatOp::Div => x / y,
                };
                out = vm.resume_float(r.to_bits())?;
            }
        }
    }
}

#[test]
fn i56_wrapping() {
    assert!(to_i56(0) == Value::Int(0));
    assert!(to_i56(I56_MAX) == Value::Int(I56_MAX));
    assert!(to_i56(I56_MIN) == Value::Int(I56_MIN));
    // One past the top wraps to the bottom, and conversely.
    assert!(to_i56(I56_MAX + 1) == Value::Int(I56_MIN));
    assert!(to_i56(I56_MIN - 1) == Value::Int(I56_MAX));
    assert!(to_i56(-1) == Value::Int(-1));
    assert!(to_i56(i64::MAX) == Value::Int(-1));
}

#[test]
fn add_wraps_at_56_bits() {
    let mut chunk = Chunk::new("no_file", 1);
    let line = 1;
    let cmax = chunk.add_constant(Value::Int(I56_MAX)) as u16;
    let cone = chunk.add_constant(Value::Int(1)) as u16;
    chunk.encode2(STORE_K, 0, cmax, line).unwrap();
    chunk.encode2(STORE_K, 1, cone, line).unwrap();
    chunk.encode3(ADD, 0, 0, 1, line).unwrap();
    chunk.encode0(RET, line).unwrap();
    let mut vm = Vm::new(chunk);
    run(&mut vm).unwrap();
    assert!(vm.get_stack(0) == Value::Int(I56_MIN));
}

#[test]
fn i32_conversions() {
    assert!(Value::from_i32(-5) == Value::Int(-5));
    assert!(Value::from_u32(7) == Value::Int(7));
    assert!(Value::from_i32(i32::MIN).to_i32().unwrap() == i32::MIN);
    assert!(Value::Int(42).to_i32().unwrap() == 42);
    assert!(Value::Int(i32::MAX as i64 + 1).to_i32().unwrap_err() == VMError::ConversionOutOfRange);
    assert!(Value::Int(i32::MIN as i64 - 1).to_i32().unwrap_err() == VMError::ConversionOutOfRange);
    // Only an Int converts; a byte is a mismatch, as is anything else.
    assert!(Value::Byte(3).to_i32().unwrap_err() == VMError::ConversionMismatch);
    assert!(Value::Nil.to_i32().unwrap_err() == VMError::ConversionMismatch);
}

#[test]
fn value_shapes() {
    assert!(Value::Byte(1).is_int());
    assert!(Value::Int(1).is_int());
    assert!(!Value::Float(0).is_int());
    assert!(Value::Float(0).is_number());
    assert!(!Value::Nil.is_number());
    assert!(Value::Byte(9).get_int().unwrap() == 9);
    assert!(Value::Nil.get_int().unwrap_err() == VMError::NotAnInt);
    assert!(Value::Int(1).get_float_bits().unwrap_err() == VMError::NotAFloat);
}

#[test]
fn error_kinds_and_messages() {
    assert!(VMError::InvalidHandle.kind() == ErrorKind::Heap);
    assert!(VMError::DivideByZero.kind() == ErrorKind::Arithmetic);
    assert!(VMError::CarNotPair.kind() == ErrorKind::Type);
    assert!(VMError::InvalidOpcode(0x7f).kind() == ErrorKind::Vm);
    assert!(VMError::ConversionOutOfRange.kind() == ErrorKind::Conversion);
    assert!(VMError::InvalidHandle.display_string() == "[Heap]: Invalid object handle!");
    assert!(VMError::CarNotPair.display_string() == "[VM]: CAR: Not a pair/conscell.");
    assert!(VMError::CdrNotPair.display_string() == "[VM]: CDR: Not a pair/conscell.");
    assert!(VMError::XarNotPair.display_string() == "[VM]: XAR: Not a pair/conscell.");
    assert!(
        VMError::NotEnoughElements.display_string() == "[VM]: List: Not enough elements."
    );
}

#[test]
fn invalid_opcode_errors() {
    let mut chunk = Chunk::new("no_file", 1);
    chunk.encode0(0x70, 1).unwrap();
    let mut vm = Vm::new(chunk);
    let res = run(&mut vm);
    assert!(res.unwrap_err() == VMError::InvalidOpcode(0x70));
}

#[test]
fn car_type_error() {
    let mut chunk = Chunk::new("no_file", 1);
    let line = 1;
    let c = chunk.add_constant(Value::Int(7)) as u16;
    chunk.encode2(STORE_K, 0, c, line).unwrap();
    chunk.encode2(CAR, 1, 0, line).unwrap();
    chunk.encode0(RET, line).unwrap();
    let mut vm = Vm::new(chunk);
    assert!(run(&mut vm).unwrap_err() == VMError::CarNotPair);
}

#[test]
fn xar_type_error() {
    let mut chunk = Chunk::new("no_file", 1);
    let line = 1;
    let c = chunk.add_constant(Value::Int(7)) as u16;
    chunk.encode2(STORE_K, 0, c, line).unwrap();
    chunk.encode2(XAR, 0, 0, line).unwrap();
    chunk.encode0(RET, line).unwrap();
    let mut vm = Vm::new(chunk);
    assert!(run(&mut vm).unwrap_err() == VMError::XarNotPair);
}

#[test]
fn dangling_reference_errors() {
    let mut chunk = Chunk::new("no_file", 1);
    let line = 1;
    let c = chunk.add_constant(Value::Reference(Handle { idx: 100_000 })) as u16;
    chunk.encode2(STORE_K, 0, c, line).unwrap();
    chunk.encode2(CDR, 1, 0, line).unwrap();
    chunk.encode0(RET, line).unwrap();
    let mut vm = Vm::new(chunk);
    assert!(run(&mut vm).unwrap_err() == VMError::InvalidHandle);
}

#[test]
fn list_reversed_range_is_nil() {
    // A collapsed range, end before start, yields Nil rather than erring.
    let mut chunk = Chunk::new("no_file", 1);
    let line = 1;
    let c = chunk.add_constant(Value::Int(1)) as u16;
    chunk.encode2(STORE_K, 0, c, line).unwrap();
    chunk.encode3(LIST, 0, 3, 1, line).unwrap();
    chunk.encode0(RET, line).unwrap();
    let mut vm = Vm::new(chunk);
    run(&mut vm).unwrap();
    assert!(vm.get_stack(0).is_nil());
}

#[test]
fn list_out_of_registers_errors() {
    // A source range past the register file fails with the list error.
    let mut chunk = Chunk::new("no_file", 1);
    chunk.encode3(LIST, 0, 1500, 1501, 1).unwrap();
    chunk.encode0(RET, 1).unwrap();
    let mut vm = Vm::new(chunk);
    assert!(run(&mut vm).unwrap_err() == VMError::NotEnoughElements);
}

#[test]
fn division_truncates_and_negative_zero_divides() {
    let mut chunk = Chunk::new("no_file", 1);
    let line = 1;
    let ca = chunk.add_constant(Value::Int(-7)) as u16;
    let cb = chunk.add_constant(Value::Int(2)) as u16;
    chunk.encode2(STORE_K, 0, ca, line).unwrap();
    chunk.encode2(STORE_K, 1, cb, line).unwrap();
    chunk.encode3(DIV, 0, 0, 1, line).unwrap();
    chunk.encode0(RET, line).unwrap();
    let mut vm = Vm::new(chunk);
    run(&mut vm).unwrap();
    // Truncation toward zero, the native rule.
    assert!(vm.get_stack(0) == Value::Int(-3));

    // An IEEE negative zero is still a zero divisor.
    let mut chunk = Chunk::new("no_file", 1);
    let ca = chunk.add_constant(Value::Float((1.0f64).to_bits())) as u16;
    let cb = chunk.add_constant(Value::Float((-0.0f64).to_bits())) as u16;
    chunk.encode2(STORE_K, 0, ca, line).unwrap();
    chunk.encode2(STORE_K, 1, cb, line).unwrap();
    chunk.encode3(DIV, 0, 0, 1, line).unwrap();
    chunk.encode0(RET, line).unwrap();
    let mut vm = Vm::new(chunk);
    assert!(run(&mut vm).unwrap_err() == VMError::DivideByZero);
}

#[test]
fn three_constant_list_walked_by_car_cdr() {
    // Chunk loads constants 1, 2, 3; LIST over those three registers
    // yields (1 . (2 . (3 . Nil))) when walked via CAR/CDR.
    let mut chunk = Chunk::new("no_file", 1);
    let line = 1;
    let c1 = chunk.add_constant(Value::Int(1)) as u16;
    let c2 = chunk.add_constant(Value::Int(2)) as u16;
    let c3 = chunk.add_constant(Value::Int(3)) as u16;
    chunk.encode2(STORE_K, 10, c1, line).unwrap();
    chunk.encode2(STORE_K, 11, c2, line).unwrap();
    chunk.encode2(STORE_K, 12, c3, line).unwrap();
    chunk.encode3(LIST, 0, 10, 13, line).unwrap();
    // Walk: r1 = car, r2 = cdr; r3 = car(r2), r4 = cdr(r2);
    // r5 = car(r4), r6 = cdr(r4).
    chunk.encode2(CAR, 1, 0, line).unwrap();
    chunk.encode2(CDR, 2, 0, line).unwrap();
    chunk.encode2(CAR, 3, 2, line).unwrap();
    chunk.encode2(CDR, 4, 2, line).unwrap();
    chunk.encode2(CAR, 5, 4, line).unwrap();
    chunk.encode2(CDR, 6, 4, line).unwrap();
    chunk.encode0(RET, line).unwrap();
    let mut vm = Vm::new(chunk);
    run(&mut vm).unwrap();
    assert!(vm.get_stack(1) == Value::Int(1));
    assert!(vm.get_stack(3) == Value::Int(2));
    assert!(vm.get_stack(5) == Value::Int(3));
    assert!(vm.get_stack(6).is_nil());
}

#[test]
fn xar_on_empty_box_rewrites_register() {
    // XAR on a register holding Nil allocates a new pair and rewrites the
    // register; on a reference to an existing pair it mutates only the
    // requested field and keeps the handle.
    let mut chunk = Chunk::new("no_file", 1);
    let line = 1;
    let cn = chunk.add_constant(Value::Nil) as u16;
    let cv = chunk.add_constant(Value::Int(9)) as u16;
    chunk.encode2(STORE_K, 0, cn, line).unwrap();
    chunk.encode2(STORE_K, 1, cv, line).unwrap();
    chunk.encode2(XAR, 0, 1, line).unwrap();
    chunk.encode0(RET, line).unwrap();
    let mut vm = Vm::new(chunk);
    run(&mut vm).unwrap();
    let head = vm.get_stack(0);
    let first = if let Value::Reference(h) = head {
        match vm.get(h).unwrap() {
            Object::Pair(car, cdr) => {
                assert!(*car == Value::Int(9));
                assert!(car_is_nil(cdr));
                h
            }
            _ => panic!("expected a pair"),
        }
    } else {
        panic!("register was not rewritten to a reference");
    };

    // Mutate the other field in place: same handle, car untouched.
    let cv2 = vm.chunk_mut().add_constant(Value::Int(5)) as u16;
    vm.chunk_mut().encode2(STORE_K, 2, cv2, line).unwrap();
    vm.chunk_mut().encode2(slvm::opcodes::XDR, 0, 2, line).unwrap();
    vm.chunk_mut().encode0(RET, line).unwrap();
    run(&mut vm).unwrap();
    let head2 = vm.get_stack(0);
    if let Value::Reference(h2) = head2 {
        assert!(h2 == first);
        match vm.get(h2).unwrap() {
            Object::Pair(car, cdr) => {
                assert!(*car == Value::Int(9));
                assert!(*cdr == Value::Int(5));
            }
            _ => panic!("expected a pair"),
        }
    } else {
        panic!("register no longer holds the pair");
    }
}

fn car_is_nil(v: &Value) -> bool {
    matches!(v, Value::Nil)
}

#[test]
fn interner_deduplicates() {
    let chunk = Chunk::new("no_file", 1);
    let mut vm = Vm::new(chunk);
    let a = vm.intern("alpha");
    let b = vm.intern("beta");
    let a2 = vm.intern("alpha");
    assert!(a == a2);
    assert!(a != b);
}

#[test]
fn globals_bind_and_rebind() {
    let mut globals = Globals::new();
    let h1 = Handle { idx: 1 };
    let h2 = Handle { idx: 2 };
    let s = globals.intern_symbol("x", h1);
    assert!(globals.binding(s).unwrap() == h1);
    let s2 = globals.intern_symbol("x", h2);
    assert!(s == s2);
    assert!(globals.binding(s).unwrap() == h2);
}

#[test]
fn intern_symbol_empty_boxes_undefined() {
    let chunk = Chunk::new("no_file", 1);
    let mut vm = Vm::new(chunk);
    let s = vm.intern_symbol("answer", Handle { idx: 0 });
    let _ = s;
    let s2 = vm.intern_symbol_empty("question");
    let bound = vm.global_binding(s2).unwrap();
    match vm.get(bound).unwrap() {
        Object::Value(Value::Undefined) => {}
        _ => panic!("expected a boxed Undefined"),
    }
}

#[test]
fn chunk_encoding_widths() {
    let mut chunk = Chunk::new("no_file", 1);
    chunk.encode2(STORE_K, 1, 2, 1).unwrap();
    // Narrow: opcode plus one byte per operand.
    assert!(chunk.code == vec![STORE_K, 1, 2]);
    let mut chunk = Chunk::new("no_file", 1);
    chunk.encode2(STORE_K, 1, 0x1234, 1).unwrap();
    // Wide: high bit on the opcode, two big-endian bytes per operand.
    assert!(chunk.code == vec![STORE_K | 0x80, 0, 1, 0x12, 0x34]);
    let mut chunk = Chunk::new("no_file", 1);
    chunk.encode3(LIST, 0, 0x8fff, 3, 1).unwrap();
    assert!(chunk.code == vec![LIST | 0x80, 0, 0, 0x8f, 0xff, 0, 3]);
    let idx = chunk.add_constant(Value::Int(1));
    assert!(idx == 0);
    let idx = chunk.add_constant(Value::Nil);
    assert!(idx == 1);
}

#[test]
fn stale_handle_reads_new_occupant() {
    // A handle surviving past a collection that reclaimed its slot
    // silently reads the slot's new occupant: the documented hazard.
    let mut heap = Heap::default();
    let no_roots: Vec<Handle> = Vec::new();
    let mut hs = Vec::new();
    for x in 0..512 {
        hs.push(heap.allocate(Object::Value(Value::Int(x)), &no_roots));
    }
    let stale = hs[0];
    heap.collect(&no_roots).unwrap();
    heap.allocate(Object::String(String::from("fresh")), &no_roots);
    match heap.get(stale).unwrap() {
        Object::String(s) => assert!(s == "fresh"),
        _ => panic!("stale handle did not observe the new occupant"),
    }
}

#[test]
fn collection_mid_run_keeps_reachable_roots() {
    // A run that allocates past the heap's capacity triggers collections
    // whose roots are the registers, the constant pool and the global
    // bindings: the chain under construction, a boxed constant and a
    // global's box all survive.
    let mut chunk = Chunk::new("no_file", 1);
    let line = 1;
    let c7 = chunk.add_constant(Value::Int(7)) as u16;
    chunk.encode2(STORE_K, 0, c7, line).unwrap();
    for _ in 0..600 {
        chunk.encode3(CONS, 1, 0, 1, line).unwrap();
    }
    chunk.encode2(CAR, 2, 1, line).unwrap();
    chunk.encode2(CDR, 3, 1, line).unwrap();
    chunk.encode0(RET, line).unwrap();
    let mut vm = Vm::new(chunk);
    let sym = vm.intern_symbol_empty("kept");
    let boxed = vm.allocate(slvm::heap::Object::Value(Value::Nil));
    vm.chunk_mut().add_constant(Value::Reference(boxed));
    run(&mut vm).unwrap();
    assert!(vm.get_stack(2) == Value::Int(7));
    assert!(matches!(vm.get_stack(3), Value::Reference(_)));
    // 600 chain cells plus the global box and the boxed constant.
    assert!(vm.heap().live_objects() == 602);
    assert!(vm.heap().capacity() == 1024);
    let bound = vm.global_binding(sym).unwrap();
    match vm.get(bound).unwrap() {
        slvm::heap::Object::Value(Value::Undefined) => {}
        _ => panic!("the global box did not survive collection"),
    }
    match vm.get(boxed).unwrap() {
        slvm::heap::Object::Value(Value::Nil) => {}
        _ => panic!("the boxed constant did not survive collection"),
    }
}

#[test]
fn code_ok_validates_bytecode() {
    let mut chunk = Chunk::new("no_file", 1);
    let line = 1;
    let c = chunk.add_constant(Value::Int(1)) as u16;
    chunk.encode2(STORE_K, 0, c, line).unwrap();
    chunk.encode3(ADD, 0, 0, 0, line).unwrap();
    chunk.encode0(RET, line).unwrap();
    let vm = Vm::new(chunk);
    assert!(vm.code_ok());

    // A truncated stream is refused.
    let mut chunk = Chunk::new("no_file", 1);
    chunk.encode2(STORE, 1, 0, 1).unwrap();
    chunk.encode0(RET, 1).unwrap();
    let mut vm = Vm::new(chunk);
    vm.chunk_mut().code.pop();
    assert!(!vm.code_ok());

    // A constant index past the pool is refused.
    let mut chunk = Chunk::new("no_file", 1);
    chunk.encode2(STORE_K, 0, 5, 1).unwrap();
    chunk.encode0(RET, 1).unwrap();
    let vm = Vm::new(chunk);
    assert!(!vm.code_ok());

    // A register operand past the file is refused.
    let mut chunk = Chunk::new("no_file", 1);
    chunk.encode2(STORE, 5000, 0, 1).unwrap();
    chunk.encode0(RET, 1).unwrap();
    let vm = Vm::new(chunk);
    assert!(!vm.code_ok());

    // An unknown opcode ends validation: execution stops there with a
    // clean, recoverable error.
    let mut chunk = Chunk::new("no_file", 1);
    chunk.encode0(0x70, 1).unwrap();
    let vm = Vm::new(chunk);
    assert!(vm.code_ok());
}
