use slvm::chunk::Chunk;
use slvm::error::VMError;
use slvm::heap::Object;
use slvm::opcodes::{
    ADD, ADD_KR, ADD_RK, CAR, CDR, CONS, DIV, DIV_KR, DIV_RK, LIST, MUL, MUL_KR, MUL_RK, RET,
    STORE, STORE_K, SUB, SUB_KR, SUB_RK, XAR, XDR,
};
use slvm::semantics::FloatOp;
use slvm::value::Value;
use slvm::vm::{Outcome, Vm};

fn to_f64(v: &Value) -> f64 {
    match v {
        Value::Int(i) => *i as f64,
        Value::Byte(b) => *b as f64,
        Value::Float(bits) => f64::from_bits(*bits),
        _ => panic!("operand is not numeric"),
    }
}

/// Drive the machine to completion, serving as its float unit.
fn run(vm: &mut Vm) -> Result<(), VMError> {
    let mut out = vm.execute()?;
    loop {
        match out {
            Outcome::Done => return Ok(()),
            Outcome::NeedFloat { op, a, b } => {
                let x = to_f64(&a);
                let y = to_f64(&b);
                let r = match op {
                    FloatOp::Add => x + y,
                    FloatOp::Sub => x - y,
                    FloatOp::Mul => x * y,
                    FloatOp::Div => x / y,
                };
                out = vm.resume_float(r.to_bits())?;
            }
        }
    }
}

fn get_int(_vm: &Vm, val: &Value) -> Result<i64, VMError> {
    if let Value::Int(i) = val {
        Ok(*i)
    } else {
        Err(VMError::NotAnInt)
    }
}

fn is_nil(_vm: &Vm, val: &Value) -> Result<bool, VMError> {
    if let Value::Nil = val {
        Ok(true)
    } else {
        Ok(false)
    }
}

#[test]
fn test_list() {
    let mut chunk = Chunk::new("no_file", 1);
    let line = 1;
    chunk.add_constant(Value::Int(1));
    chunk.add_constant(Value::Int(2));
    chunk.add_constant(Value::Int(3));
    chunk.add_constant(Value::Int(4));
    chunk.add_constant(Value::Nil);
    chunk.encode2(STORE_K, 0, 0, line).unwrap();
    chunk.encode2(STORE_K, 1, 1, line).unwrap();
    chunk.encode3(CONS, 1, 0, 1, line).unwrap();
    chunk.encode2(CDR, 0, 1, line).unwrap();
    chunk.encode0(RET, line).unwrap();
    let mut vm = Vm::new(chunk);
    let const_handle = vm.allocate(Object::Value(Value::Nil));
    vm.chunk_mut().add_constant(Value::Reference(const_handle));
    run(&mut vm).unwrap();
    let result = vm.get_stack(0).get_int().unwrap();
    assert!(result == 2);

    vm.chunk_mut().encode2(CAR, 0, 1, line).unwrap();
    vm.chunk_mut().encode0(RET, line).unwrap();
    run(&mut vm).unwrap();
    let result = vm.get_stack(0).get_int().unwrap();
    assert!(result == 1);

    // car with nil
    vm.chunk_mut().encode2(STORE_K, 2, 4, line).unwrap();
    vm.chunk_mut().encode2(CAR, 0, 2, line).unwrap();
    vm.chunk_mut().encode0(RET, line).unwrap();
    run(&mut vm).unwrap();
    assert!(vm.get_stack(0).is_nil());
    // car with nil on heap
    vm.chunk_mut().encode2(STORE_K, 2, 5, line).unwrap();
    vm.chunk_mut().encode2(CAR, 0, 2, line).unwrap();
    vm.chunk_mut().encode0(RET, line).unwrap();
    run(&mut vm).unwrap();
    assert!(vm.get_stack(0).is_nil());

    // cdr with nil
    vm.chunk_mut().encode2(CDR, 0, 2, line).unwrap();
    vm.chunk_mut().encode0(RET, line).unwrap();
    run(&mut vm).unwrap();
    assert!(vm.get_stack(0).is_nil());
    // cdr with nil on heap
    vm.chunk_mut().encode2(STORE_K, 2, 5, line).unwrap();
    vm.chunk_mut().encode2(CDR, 0, 2, line).unwrap();
    vm.chunk_mut().encode0(RET, line).unwrap();
    run(&mut vm).unwrap();
    assert!(vm.get_stack(0).is_nil());

    vm.chunk_mut().encode2(STORE_K, 2, 2, line).unwrap();
    vm.chunk_mut().encode2(XAR, 1, 2, line).unwrap();
    vm.chunk_mut().encode2(CAR, 0, 1, line).unwrap();
    vm.chunk_mut().encode0(RET, line).unwrap();
    run(&mut vm).unwrap();
    let result = vm.get_stack(0).get_int().unwrap();
    assert!(result == 3);

    vm.chunk_mut().encode2(STORE_K, 2, 3, line).unwrap();
    vm.chunk_mut().encode2(XDR, 1, 2, line).unwrap();
    vm.chunk_mut().encode2(CDR, 0, 1, line).unwrap();
    vm.chunk_mut().encode0(RET, line).unwrap();
    run(&mut vm).unwrap();
    let result = vm.get_stack(0).get_int().unwrap();
    assert!(result == 4);

    vm.chunk_mut().encode2(STORE_K, 2, 4, line).unwrap();
    vm.chunk_mut().encode2(STORE_K, 3, 2, line).unwrap();
    vm.chunk_mut().encode2(XAR, 2, 3, line).unwrap();
    vm.chunk_mut().encode2(CAR, 0, 2, line).unwrap();
    vm.chunk_mut().encode2(CDR, 3, 2, line).unwrap();
    vm.chunk_mut().encode0(RET, line).unwrap();
    run(&mut vm).unwrap();
    let result = vm.get_stack(0).get_int().unwrap();
    assert!(result == 3);
    assert!(vm.get_stack(3).is_nil());

    vm.chunk_mut().encode2(STORE_K, 2, 4, line).unwrap();
    vm.chunk_mut().encode2(STORE_K, 3, 3, line).unwrap();
    vm.chunk_mut().encode2(XDR, 2, 3, line).unwrap();
    vm.chunk_mut().encode2(CDR, 0, 2, line).unwrap();
    vm.chunk_mut().encode2(CAR, 3, 2, line).unwrap();
    vm.chunk_mut().encode0(RET, line).unwrap();
    run(&mut vm).unwrap();
    let result = vm.get_stack(0).get_int().unwrap();
    assert!(result == 4);
    assert!(vm.get_stack(3).is_nil());

    // Test a list with elements.
    vm.chunk_mut().encode2(STORE_K, 0, 0, line).unwrap();
    vm.chunk_mut().encode2(STORE_K, 1, 1, line).unwrap();
    vm.chunk_mut().encode2(STORE_K, 2, 2, line).unwrap();
    vm.chunk_mut().encode3(LIST, 0, 0, 3, line).unwrap();
    vm.chunk_mut().encode0(RET, line).unwrap();
    run(&mut vm).unwrap();
    let result = vm.get_stack(0);
    if let Value::Reference(h) = result {
        if let Object::Pair(car, cdr) = vm.get(h).unwrap() {
            assert!(get_int(&vm, car).unwrap() == 1);
            if let Value::Reference(cdr) = cdr {
                if let Object::Pair(car, cdr) = vm.get(*cdr).unwrap() {
                    assert!(get_int(&vm, car).unwrap() == 2);
                    if let Value::Reference(cdr) = cdr {
                        if let Object::Pair(car, cdr) = vm.get(*cdr).unwrap() {
                            assert!(get_int(&vm, car).unwrap() == 3);
                            assert!(is_nil(&vm, cdr).unwrap());
                        } else {
                            assert!(false);
                        }
                    } else {
                        assert!(false);
                    }
                } else {
                    assert!(false);
                }
            } else {
                assert!(false);
            }
        } else {
            assert!(false);
        }
    } else {
        assert!(false);
    }

    vm.chunk_mut().encode3(LIST, 0, 0, 0, line).unwrap();
    vm.chunk_mut().encode0(RET, line).unwrap();
    run(&mut vm).unwrap();
    let result = vm.get_stack(0);
    assert!(result.is_nil());
    vm.chunk_mut().encode3(LIST, 0, 1, 1, line).unwrap();
    vm.chunk_mut().encode0(RET, line).unwrap();
    run(&mut vm).unwrap();
    let result = vm.get_stack(0);
    assert!(result.is_nil());
}

#[test]
fn test_store() {
    let mut chunk = Chunk::new("no_file", 1);
    let line = 1;
    for i in 0..u16::MAX {
        chunk.add_constant(Value::Int(i as i64));
    }
    chunk.encode2(STORE_K, 0, 0, line).unwrap();
    chunk.encode2(STORE_K, 1, 255, line).unwrap();
    chunk.encode3(ADD, 0, 0, 1, line).unwrap();
    chunk.encode0(RET, line).unwrap();

    let mut vm = Vm::new(chunk);
    run(&mut vm).unwrap();
    let result = vm.get_stack(0).get_int().unwrap();
    assert!(result == 255);

    vm.chunk_mut().encode2(STORE_K, 1, 256, line).unwrap();
    vm.chunk_mut().encode3(ADD, 0, 0, 1, line).unwrap();
    vm.chunk_mut().encode0(RET, line).unwrap();

    run(&mut vm).unwrap();
    let result = vm.get_stack(0).get_int().unwrap();
    assert!(result == 255 + 256);

    vm.chunk_mut().encode2(STORE, 1, 0, line).unwrap();
    vm.chunk_mut().encode0(RET, line).unwrap();
    let result = vm.get_stack(1).get_int().unwrap();
    assert!(result == 256);
    run(&mut vm).unwrap();
    let result = vm.get_stack(1).get_int().unwrap();
    assert!(result == 255 + 256);
}

#[test]
fn test_add() {
    let mut chunk = Chunk::new("no_file", 1);
    let line = 1;
    let const0 = chunk.add_constant(Value::Int(2)) as u16;
    let const1 = chunk.add_constant(Value::Int(3)) as u16;
    let const2 = chunk.add_constant(Value::Byte(1)) as u16;
    chunk.encode2(STORE_K, 0, const0, line).unwrap();
    chunk.encode3(ADD_RK, 0, 0, const1, line).unwrap();
    chunk.encode3(ADD_RK, 0, 0, const2, line).unwrap();
    chunk.encode0(RET, line).unwrap();
    let mut vm = Vm::new(chunk);
    run(&mut vm).unwrap();
    assert!(vm.get_stack(0).get_int().unwrap() == 6);

    let mut chunk = Chunk::new("no_file", 1);
    let const0 = chunk.add_constant(Value::Float((2.0f64).to_bits())) as u16;
    let const1 = chunk.add_constant(Value::Int(3)) as u16;
    let const2 = chunk.add_constant(Value::Byte(1)) as u16;
    chunk.encode2(STORE_K, 0, const0, line).unwrap();
    chunk.encode3(ADD_RK, 0, 0, const1, line).unwrap();
    chunk.encode3(ADD_RK, 0, 0, const2, line).unwrap();
    chunk.encode0(RET, line).unwrap();
    let mut vm = Vm::new(chunk);
    run(&mut vm).unwrap();
    let item = vm.get_stack(0);
    assert!(!item.is_int());
    assert!(item.is_number());
    assert!(f64::from_bits(item.get_float_bits().unwrap()) == 6.0);

    let mut chunk = Chunk::new("no_file", 1);
    for i in 0..u16::MAX {
        chunk.add_constant(Value::Int(i as i64));
    }
    chunk.encode2(STORE_K, 1, 1, line).unwrap();
    chunk.encode2(STORE_K, 2, 2, line).unwrap();
    chunk.encode3(ADD, 0, 1, 2, line).unwrap();
    chunk.encode3(ADD_KR, 0, 5, 0, line).unwrap();
    chunk.encode3(ADD_KR, 1, 500, 0, line).unwrap();
    chunk.encode0(RET, line).unwrap();
    let mut vm = Vm::new(chunk);
    run(&mut vm).unwrap();
    let item = vm.get_stack(0);
    let item2 = vm.get_stack(1);
    assert!(item.is_int());
    assert!(item.get_int().unwrap() == 8);
    assert!(item2.get_int().unwrap() == 508);
}

#[test]
fn test_sub() {
    let mut chunk = Chunk::new("no_file", 1);
    let line = 1;
    let const0 = chunk.add_constant(Value::Int(2)) as u16;
    let const1 = chunk.add_constant(Value::Int(3)) as u16;
    let const2 = chunk.add_constant(Value::Byte(1)) as u16;
    chunk.encode2(STORE_K, 0, const0, line).unwrap();
    chunk.encode3(SUB_RK, 0, 0, const1, line).unwrap();
    chunk.encode3(SUB_RK, 0, 0, const2, line).unwrap();
    chunk.encode0(RET, line).unwrap();
    let mut vm = Vm::new(chunk);
    run(&mut vm).unwrap();
    assert!(vm.get_stack(0).get_int().unwrap() == -2);

    let mut chunk = Chunk::new("no_file", 1);
    let const0 = chunk.add_constant(Value::Float((5.0f64).to_bits())) as u16;
    let const1 = chunk.add_constant(Value::Int(3)) as u16;
    let const2 = chunk.add_constant(Value::Byte(1)) as u16;
    chunk.encode2(STORE_K, 0, const0, line).unwrap();
    chunk.encode3(SUB_RK, 0, 0, const1, line).unwrap();
    chunk.encode3(SUB_RK, 0, 0, const2, line).unwrap();
    chunk.encode0(RET, line).unwrap();
    let mut vm = Vm::new(chunk);
    run(&mut vm).unwrap();
    let item = vm.get_stack(0);
    assert!(!item.is_int());
    assert!(item.is_number());
    assert!(f64::from_bits(item.get_float_bits().unwrap()) == 1.0);

    let mut chunk = Chunk::new("no_file", 1);
    for i in 0..u16::MAX {
        chunk.add_constant(Value::Int(i as i64));
    }
    chunk.encode2(STORE_K, 1, 1, line).unwrap();
    chunk.encode2(STORE_K, 2, 2, line).unwrap();
    chunk.encode3(SUB, 0, 1, 2, line).unwrap();
    chunk.encode3(SUB_KR, 0, 5, 0, line).unwrap();
    chunk.encode3(SUB_KR, 1, 500, 0, line).unwrap();
    chunk.encode0(RET, line).unwrap();
    let mut vm = Vm::new(chunk);
    run(&mut vm).unwrap();
    let item = vm.get_stack(0);
    let item2 = vm.get_stack(1);
    assert!(item.is_int());
    assert!(item.get_int().unwrap() == 6);
    assert!(item2.get_int().unwrap() == 494);
}

#[test]
fn test_mul() {
    let mut chunk = Chunk::new("no_file", 1);
    let line = 1;
    let const0 = chunk.add_constant(Value::Int(2)) as u16;
    let const1 = chunk.add_constant(Value::Int(3)) as u16;
    let const2 = chunk.add_constant(Value::Byte(1)) as u16;
    chunk.encode2(STORE_K, 0, const0, line).unwrap();
    chunk.encode3(MUL_RK, 0, 0, const1, line).unwrap();
    chunk.encode3(MUL_RK, 0, 0, const2, line).unwrap();
    chunk.encode0(RET, line).unwrap();
    let mut vm = Vm::new(chunk);
    run(&mut vm).unwrap();
    assert!(vm.get_stack(0).get_int().unwrap() == 6);

    let mut chunk = Chunk::new("no_file", 1);
    let const0 = chunk.add_constant(Value::Float((5.0f64).to_bits())) as u16;
    let const1 = chunk.add_constant(Value::Int(3)) as u16;
    let const2 = chunk.add_constant(Value::Byte(2)) as u16;
    chunk.encode2(STORE_K, 0, const0, line).unwrap();
    chunk.encode3(MUL_RK, 0, 0, const1, line).unwrap();
    chunk.encode3(MUL_RK, 0, 0, const2, line).unwrap();
    chunk.encode0(RET, line).unwrap();
    let mut vm = Vm::new(chunk);
    run(&mut vm).unwrap();
    let item = vm.get_stack(0);
    assert!(!item.is_int());
    assert!(item.is_number());
    assert!(f64::from_bits(item.get_float_bits().unwrap()) == 30.0);

    let mut chunk = Chunk::new("no_file", 1);
    for i in 0..u16::MAX {
        chunk.add_constant(Value::Int(i as i64));
    }
    chunk.encode2(STORE_K, 1, 1, line).unwrap();
    chunk.encode2(STORE_K, 2, 2, line).unwrap();
    chunk.encode3(MUL, 0, 1, 2, line).unwrap();
    chunk.encode3(MUL_KR, 0, 5, 0, line).unwrap();
    chunk.encode3(MUL_KR, 1, 500, 0, line).unwrap();
    chunk.encode0(RET, line).unwrap();
    let mut vm = Vm::new(chunk);
    run(&mut vm).unwrap();
    let item = vm.get_stack(0);
    let item2 = vm.get_stack(1);
    assert!(item.is_int());
    assert!(item.get_int().unwrap() == 10);
    assert!(item2.get_int().unwrap() == 5000);
}

#[test]
fn test_div() {
    let mut chunk = Chunk::new("no_file", 1);
    let line = 1;
    let const0 = chunk.add_constant(Value::Int(18)) as u16;
    let const1 = chunk.add_constant(Value::Int(2)) as u16;
    let const2 = chunk.add_constant(Value::Byte(3)) as u16;
    chunk.encode2(STORE_K, 0, const0, line).unwrap();
    chunk.encode3(DIV_RK, 0, 0, const1, line).unwrap();
    chunk.encode3(DIV_RK, 0, 0, const2, line).unwrap();
    chunk.encode0(RET, line).unwrap();
    let mut vm = Vm::new(chunk);
    run(&mut vm).unwrap();
    assert!(vm.get_stack(0).get_int().unwrap() == 3);

    let mut chunk = Chunk::new("no_file", 1);
    let const0 = chunk.add_constant(Value::Float((10.0f64).to_bits())) as u16;
    let const1 = chunk.add_constant(Value::Int(2)) as u16;
    let const2 = chunk.add_constant(Value::Byte(2)) as u16;
    chunk.encode2(STORE_K, 0, const0, line).unwrap();
    chunk.encode3(DIV_RK, 0, 0, const1, line).unwrap();
    chunk.encode3(DIV_RK, 0, 0, const2, line).unwrap();
    chunk.encode0(RET, line).unwrap();
    let mut vm = Vm::new(chunk);
    run(&mut vm).unwrap();
    let item = vm.get_stack(0);
    assert!(!item.is_int());
    assert!(item.is_number());
    assert!(f64::from_bits(item.get_float_bits().unwrap()) == 2.5);

    let mut chunk = Chunk::new("no_file", 1);
    for i in 0..u16::MAX {
        chunk.add_constant(Value::Int(i as i64));
    }
    chunk.encode2(STORE_K, 1, 1, line).unwrap();
    chunk.encode2(STORE_K, 2, 2, line).unwrap();
    chunk.encode3(DIV, 0, 2, 1, line).unwrap();
    chunk.encode3(DIV_KR, 0, 10, 0, line).unwrap();
    chunk.encode3(DIV_KR, 1, 500, 0, line).unwrap();
    chunk.encode0(RET, line).unwrap();
    let mut vm = Vm::new(chunk);
    run(&mut vm).unwrap();
    let item = vm.get_stack(0);
    let item2 = vm.get_stack(1);
    assert!(item.is_int());
    assert!(item.get_int().unwrap() == 5);
    assert!(item2.get_int().unwrap() == 100);

    let mut chunk = Chunk::new("no_file", 1);
    let const0 = chunk.add_constant(Value::Int(10)) as u16;
    let const1 = chunk.add_constant(Value::Int(0)) as u16;
    chunk.encode2(STORE_K, 0, const0, line).unwrap();
    chunk.encode2(STORE_K, 1, const1, line).unwrap();
    chunk.encode3(DIV, 0, 0, 1, line).unwrap();
    chunk.encode0(RET, line).unwrap();
    let mut vm = Vm::new(chunk);
    let res = run(&mut vm);
    assert!(res.is_err());
    assert!(res.unwrap_err().display_string() == "[VM]: Divide by zero error.");

    let mut chunk = Chunk::new("no_file", 1);
    let const0 = chunk.add_constant(Value::Float((10.0f64).to_bits())) as u16;
    let const1 = chunk.add_constant(Value::Float((0.0f64).to_bits())) as u16;
    chunk.encode2(STORE_K, 0, const0, line).unwrap();
    chunk.encode2(STORE_K, 1, const1, line).unwrap();
    chunk.encode3(DIV, 0, 0, 1, line).unwrap();
    chunk.encode0(RET, line).unwrap();
    let mut vm = Vm::new(chunk);
    let res = run(&mut vm);
    assert!(res.is_err());
    assert!(res.unwrap_err().display_string() == "[VM]: Divide by zero error.");

    let mut chunk = Chunk::new("no_file", 1);
    let const0 = chunk.add_constant(Value::Float((10.0f64).to_bits())) as u16;
    let const1 = chunk.add_constant(Value::Byte(0)) as u16;
    chunk.encode2(STORE_K, 0, const0, line).unwrap();
    chunk.encode2(STORE_K, 1, const1, line).unwrap();
    chunk.encode3(DIV, 0, 0, 1, line).unwrap();
    chunk.encode0(RET, line).unwrap();
    let mut vm = Vm::new(chunk);
    let res = run(&mut vm);
    assert!(res.is_err());
    assert!(res.unwrap_err().display_string() == "[VM]: Divide by zero error.");
}
