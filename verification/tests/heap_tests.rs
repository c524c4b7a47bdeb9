use slvm::heap::{Handle, Heap, Object};
use slvm::value::Value;

fn handle_range(lo: usize, hi: usize) -> Vec<Handle> {
    let mut v = Vec::new();
    for idx in lo..hi {
        v.push(Handle { idx });
    }
    v
}

fn even_handles(hi: usize) -> Vec<Handle> {
    let mut v = Vec::new();
    for idx in 0..hi {
        if idx % 2 == 0 {
            v.push(Handle { idx });
        }
    }
    v
}

#[test]
fn test_basic() {
    let mut heap = Heap::default();
    let no_roots: Vec<Handle> = Vec::new();
    assert!(heap.capacity() == 512);
    assert!(heap.live_objects() == 0);
    for x in 0..512 {
        heap.allocate(Object::Value(Value::Int(x)), &no_roots);
    }
    assert!(heap.capacity() == 512);
    assert!(heap.live_objects() == 512);
    for x in 0..512usize {
        let obj = heap.get(Handle { idx: x }).unwrap();
        if let Object::Value(Value::Int(v)) = obj {
            assert!(x == *v as usize);
        } else {
            assert!(false);
        }
    }
    heap.allocate(Object::Value(Value::Int(512)), &no_roots);
    assert!(heap.capacity() == 512);
    assert!(heap.live_objects() == 1);
    let obj = heap.get(Handle { idx: 0 }).unwrap();
    if let Object::Value(Value::Int(v)) = obj {
        assert!(512 == *v);
    } else {
        assert!(false);
    }
    let mark_first_512 = handle_range(0, 512);
    for x in 0..512 {
        heap.allocate(Object::Value(Value::Int(x)), &mark_first_512);
    }
    assert!(heap.capacity() == 1024);
    assert!(heap.live_objects() == 513);
    for x in 0..513usize {
        let obj = heap.get(Handle { idx: x }).unwrap();
        if let Object::Value(Value::Int(v)) = obj {
            if x == 0 {
                assert!(512 == *v);
            } else {
                assert!(x - 1 == *v as usize);
            }
        } else {
            assert!(false);
        }
    }
    let evens = even_handles(513);
    heap.collect(&evens).unwrap();
    assert!(heap.capacity() == 1024);
    assert!(heap.live_objects() == 257);
    let no_roots: Vec<Handle> = Vec::new();
    heap.collect(&no_roots).unwrap();
    assert!(heap.capacity() == 1024);
    assert!(heap.live_objects() == 0);
    for x in 0..512 {
        let h = heap.allocate(Object::Value(Value::Int(x)), &no_roots);
        heap.sticky(h).unwrap();
    }
    heap.collect(&no_roots).unwrap();
    assert!(heap.capacity() == 1024);
    assert!(heap.live_objects() == 512);
    for x in 512..1024 {
        let _h = heap.allocate(Object::Value(Value::Int(x)), &no_roots);
    }
    let mark_first_1024 = handle_range(0, 1024);
    heap.collect(&mark_first_1024).unwrap();
    assert!(heap.capacity() == 1024);
    assert!(heap.live_objects() == 1024);
    heap.allocate(Object::String(String::from("steve")), &mark_first_1024);
    assert!(heap.capacity() == 2048);
    assert!(heap.live_objects() == 1025);
}

#[test]
fn test_trace_val() {
    let mut heap = Heap::default();

    assert!(heap.capacity() == 512);
    assert!(heap.live_objects() == 0);
    let mut outers: Vec<Handle> = Vec::new();
    for x in 0..256 {
        let inner = heap.allocate(Object::Value(Value::Int(x)), &outers);
        let outer = heap.allocate(Object::Value(Value::Reference(inner)), &outers);
        outers.push(outer);
    }
    assert!(heap.capacity() == 512);
    assert!(heap.live_objects() == 512);
    let mut i: i64 = 0;
    for h in &outers {
        let obj = heap.get(*h).unwrap();
        if let Object::Value(Value::Reference(inner)) = obj {
            let obj = heap.get(*inner).unwrap();
            if let Object::Value(Value::Int(v)) = obj {
                assert!(i == *v);
            } else {
                assert!(false);
            }
        } else {
            assert!(false);
        }
        i += 1;
    }
    heap.collect(&outers).unwrap();
    assert!(heap.capacity() == 512);
    assert!(heap.live_objects() == 512);
    for h in &outers {
        heap.replace(*h, Object::String(String::from("bloop"))).unwrap();
    }
    heap.collect(&outers).unwrap();
    assert!(heap.capacity() == 512);
    assert!(heap.live_objects() == 256);
    for h in &outers {
        let obj = heap.get(*h).unwrap();
        if let Object::String(sstr) = obj {
            assert!(sstr == "bloop");
        } else {
            assert!(false);
        }
    }
}

#[test]
fn test_trace_vec() {
    let mut heap = Heap::default();

    assert!(heap.capacity() == 512);
    assert!(heap.live_objects() == 0);
    let mut outers: Vec<Handle> = Vec::new();
    let mut v = Vec::new();
    for x in 0..256 {
        let inner = heap.allocate(Object::Value(Value::Int(x)), &outers);
        v.push(Value::Reference(inner));
    }
    let outer = heap.allocate(Object::Vector(v), &outers);
    outers.push(outer);
    assert!(heap.capacity() == 512);
    assert!(heap.live_objects() == 257);
    for h in &outers {
        let obj = heap.get(*h).unwrap();
        if let Object::Vector(v) = obj {
            let mut i: i64 = 0;
            for hv in v {
                if let Value::Reference(hv) = hv {
                    let obj = heap.get(*hv).unwrap();
                    if let Object::Value(Value::Int(v)) = obj {
                        assert!(i == *v);
                    } else {
                        assert!(false);
                    }
                } else {
                    assert!(false);
                }
                i += 1;
            }
        } else {
            assert!(false);
        }
    }
    heap.collect(&outers).unwrap();
    assert!(heap.capacity() == 512);
    assert!(heap.live_objects() == 257);
    for h in &outers {
        let obj = heap.get(*h).unwrap();
        if let Object::Vector(v) = obj {
            let mut i: i64 = 0;
            for hv in v {
                if let Value::Reference(hv) = hv {
                    let obj = heap.get(*hv).unwrap();
                    if let Object::Value(Value::Int(v)) = obj {
                        assert!(i == *v);
                    } else {
                        assert!(false);
                    }
                } else {
                    assert!(false);
                }
                i += 1;
            }
        } else {
            assert!(false);
        }
    }
    for h in &outers {
        heap.replace(*h, Object::String(String::from("bloop"))).unwrap();
    }
    heap.collect(&outers).unwrap();
    assert!(heap.capacity() == 512);
    assert!(heap.live_objects() == 1);
    for h in &outers {
        let obj = heap.get(*h).unwrap();
        if let Object::String(sstr) = obj {
            assert!(sstr == "bloop");
        } else {
            assert!(false);
        }
    }
}

#[test]
fn test_trace_pair() {
    let mut heap = Heap::default();
    assert!(heap.capacity() == 512);
    assert!(heap.live_objects() == 0);
    let mut outers: Vec<Handle> = Vec::new();
    let outer = heap.allocate(Object::Pair(Value::Int(1), Value::Int(2)), &outers);
    outers.push(outer);
    let car_h = heap.allocate(Object::Value(Value::Int(3)), &outers);
    let cdr_h = heap.allocate(Object::Value(Value::Int(4)), &outers);
    let outer = heap.allocate(
        Object::Pair(Value::Reference(car_h), Value::Int(2)),
        &outers,
    );
    outers.push(outer);
    let outer = heap.allocate(
        Object::Pair(Value::Int(1), Value::Reference(cdr_h)),
        &outers,
    );
    outers.push(outer);
    let outer = heap.allocate(
        Object::Pair(Value::Reference(car_h), Value::Reference(cdr_h)),
        &outers,
    );
    outers.push(outer);
    assert!(heap.capacity() == 512);
    assert!(heap.live_objects() == 6);
    heap.collect(&outers).unwrap();
    assert!(heap.capacity() == 512);
    assert!(heap.live_objects() == 6);
    let mut i = 0;
    for h in &outers {
        let obj = heap.get(*h).unwrap();
        if let Object::Pair(car, cdr) = obj {
            if i == 0 {
                let (car, cdr) = if let Value::Int(car) = car {
                    if let Value::Int(cdr) = cdr {
                        (*car, *cdr)
                    } else {
                        (*car, 0)
                    }
                } else {
                    (0, 0)
                };
                assert!(car == 1);
                assert!(cdr == 2);
            } else if i == 1 {
                let (car, cdr) = if let Value::Reference(car_h) = car {
                    if let Object::Value(Value::Int(car)) = heap.get(*car_h).unwrap() {
                        if let Value::Int(cdr) = cdr {
                            (*car, *cdr)
                        } else {
                            (*car, 0)
                        }
                    } else {
                        (0, 0)
                    }
                } else {
                    (0, 0)
                };
                assert!(car == 3);
                assert!(cdr == 2);
            } else if i == 2 {
                let (car, cdr) = if let Value::Reference(cdr_h) = cdr {
                    if let Object::Value(Value::Int(cdr)) = heap.get(*cdr_h).unwrap() {
                        if let Value::Int(car) = car {
                            (*car, *cdr)
                        } else {
                            (0, *cdr)
                        }
                    } else {
                        (0, 0)
                    }
                } else {
                    (0, 0)
                };
                assert!(car == 1);
                assert!(cdr == 4);
            } else if i == 3 {
                let (car, cdr) = if let Value::Reference(car_h) = car {
                    if let Object::Value(Value::Int(car)) = heap.get(*car_h).unwrap() {
                        if let Value::Reference(cdr_h) = cdr {
                            if let Object::Value(Value::Int(cdr)) = heap.get(*cdr_h).unwrap() {
                                (*car, *cdr)
                            } else {
                                (*car, 0)
                            }
                        } else {
                            (0, 0)
                        }
                    } else {
                        (0, 0)
                    }
                } else {
                    (0, 0)
                };
                assert!(car == 3);
                assert!(cdr == 4);
            } else {
                assert!(false);
            }
        } else {
            assert!(false);
        }
        i += 1;
    }
}

#[test]
fn sticky_floor_over_collections() {
    // The live count never drops below the sticky count across
    // collections that do not unsticky.
    let mut heap = Heap::default();
    let no_roots: Vec<Handle> = Vec::new();
    let mut stickies = Vec::new();
    for x in 0..10 {
        let h = heap.allocate(Object::Value(Value::Int(x)), &no_roots);
        heap.sticky(h).unwrap();
        stickies.push(h);
    }
    for x in 10..20 {
        heap.allocate(Object::Value(Value::Int(x)), &no_roots);
    }
    for _ in 0..3 {
        heap.collect(&no_roots).unwrap();
        assert!(heap.live_objects() >= 10);
    }
    assert!(heap.live_objects() == 10);
    for h in &stickies {
        heap.unsticky(*h).unwrap();
    }
    heap.collect(&no_roots).unwrap();
    assert!(heap.live_objects() == 0);
}

#[test]
fn slot_reuse_after_collect() {
    // Freed slots are reused, lowest index first, before storage extends,
    // and a handle into a reused slot observes the new content.
    let mut heap = Heap::with_capacity(8);
    let no_roots: Vec<Handle> = Vec::new();
    for x in 0..8 {
        heap.allocate(Object::Value(Value::Int(x)), &no_roots);
    }
    assert!(heap.object_count() == 8);
    // Keep slots 5..8 alive; 0..5 become free.
    let keep = handle_range(5, 8);
    heap.collect(&keep).unwrap();
    assert!(heap.live_objects() == 3);
    for x in 0..5usize {
        let h = heap.allocate(Object::Value(Value::Int(100 + x as i64)), &keep);
        assert!(h.idx == x);
        if let Object::Value(Value::Int(v)) = heap.get(h).unwrap() {
            assert!(*v == 100 + x as i64);
        } else {
            assert!(false);
        }
    }
    // Storage never extended while free slots remained.
    assert!(heap.object_count() == 8);
    assert!(heap.capacity() == 8);
}

#[test]
fn replace_preserves_identity() {
    // Replacing a handle's content changes the type flag but keeps the
    // handle valid and the mark/sticky state unchanged.
    let mut heap = Heap::default();
    let no_roots: Vec<Handle> = Vec::new();
    let h = heap.allocate(Object::Pair(Value::Int(1), Value::Int(2)), &no_roots);
    heap.sticky(h).unwrap();
    assert!(heap.is_pair(h));
    assert!(heap.is_marked(h));
    let old = heap.replace(h, Object::String(String::from("txt"))).unwrap();
    assert!(matches!(old, Object::Pair(Value::Int(1), Value::Int(2))));
    assert!(!heap.is_pair(h));
    assert!(heap.is_string(h));
    assert!(heap.is_marked(h));
    let live_before = heap.live_objects();
    assert!(live_before >= 1);
    // Sticky survived the replace: a collection keeps the slot.
    heap.collect(&no_roots).unwrap();
    assert!(heap.is_string(h));
    assert!(heap.live_objects() >= 1);
}

#[test]
fn growth_uses_grow_factor() {
    // With nothing reclaimable, capacity becomes live times the factor.
    let mut heap = Heap::with_capacity(4);
    heap.set_grow_factor(3, 1);
    let no_roots: Vec<Handle> = Vec::new();
    let mut all = Vec::new();
    for x in 0..4 {
        let h = heap.allocate(Object::Value(Value::Int(x)), &no_roots);
        all.push(h);
    }
    for h in &all {
        heap.sticky(*h).unwrap();
    }
    heap.collect(&no_roots).unwrap();
    assert!(heap.capacity() == 4);
    assert!(heap.live_objects() == 4);
    // Everything sticky: the triggered collection frees nothing, so the
    // heap grows to live * 3.
    heap.allocate(Object::Value(Value::Int(99)), &no_roots);
    assert!(heap.capacity() == 12);
    assert!(heap.live_objects() == 5);
}

#[test]
fn out_of_range_handles_error() {
    let mut heap = Heap::default();
    let far = Handle { idx: 100_000 };
    assert!(heap.mark(far).is_err());
    assert!(heap.sticky(far).is_err());
    assert!(heap.unsticky(far).is_err());
    assert!(heap.get_value(far).is_err());
    assert!(heap.live_objects() == 0);
}

#[test]
fn collect_fails_on_dangling_root() {
    let mut heap = Heap::default();
    let far = vec![Handle { idx: 100_000 }];
    let res = heap.collect(&far);
    assert!(res.is_err());
    assert!(res.unwrap_err().display_string() == "[Heap]: Invalid object handle!");
}

#[test]
fn collect_fails_on_dangling_reference() {
    // A root whose pair references a slot outside the arrays makes the
    // trace fail; sticky and type state survive the failed collection.
    let mut heap = Heap::default();
    let no_roots: Vec<Handle> = Vec::new();
    let h = heap.allocate(
        Object::Pair(Value::Reference(Handle { idx: 100_000 }), Value::Nil),
        &no_roots,
    );
    heap.sticky(h).unwrap();
    let res = heap.collect(&[h]);
    assert!(res.is_err());
    assert!(heap.is_pair(h));
}

#[test]
fn get_value_unwraps_boxes() {
    let mut heap = Heap::default();
    let no_roots: Vec<Handle> = Vec::new();
    let boxed = heap.allocate(Object::Value(Value::Int(7)), &no_roots);
    assert!(heap.get_value(boxed).unwrap() == Value::Int(7));
    let pair = heap.allocate(Object::Pair(Value::Nil, Value::Nil), &no_roots);
    assert!(heap.get_value(pair).unwrap() == Value::Reference(pair));
    let v = Value::Reference(boxed);
    assert!(v.unref(&heap).unwrap() == Value::Int(7));
    assert!(Value::Int(3).unref(&heap).unwrap() == Value::Int(3));
}

#[test]
fn type_predicates_by_flag() {
    let mut heap = Heap::default();
    let no_roots: Vec<Handle> = Vec::new();
    let hv = heap.allocate(Object::Value(Value::Int(1)), &no_roots);
    let hs = heap.allocate(Object::String(String::from("s")), &no_roots);
    let hvec = heap.allocate(Object::Vector(vec![Value::Int(1)]), &no_roots);
    let hb = heap.allocate(Object::Bytes(vec![1, 2]), &no_roots);
    let hp = heap.allocate(Object::Pair(Value::Nil, Value::Nil), &no_roots);
    assert!(heap.is_value(hv) && !heap.is_pair(hv));
    assert!(heap.is_string(hs) && !heap.is_value(hs));
    assert!(heap.is_vector(hvec));
    assert!(heap.is_bytes(hb));
    assert!(heap.is_pair(hp) && !heap.is_vector(hp));
    // Out-of-range handles answer false, never an error.
    let far = Handle { idx: 100_000 };
    assert!(!heap.is_value(far) && !heap.is_pair(far) && !heap.is_marked(far));
    assert!(heap.get(far).is_err());
}

#[test]
fn growth_rounds_up_on_fractional_ratio() {
    // ceil(live * 5/2): three sticky survivors grow a full heap to 8.
    let mut heap = Heap::with_capacity(3);
    heap.set_grow_factor(5, 2);
    let no_roots: Vec<Handle> = Vec::new();
    let mut all = Vec::new();
    for x in 0..3 {
        all.push(heap.allocate(Object::Value(Value::Int(x)), &no_roots));
    }
    for h in &all {
        heap.sticky(*h).unwrap();
    }
    heap.collect(&no_roots).unwrap();
    assert!(heap.capacity() == 3);
    assert!(heap.live_objects() == 3);
    heap.allocate(Object::Value(Value::Int(99)), &no_roots);
    assert!(heap.capacity() == 8);
    assert!(heap.live_objects() == 4);
}
