use scmrun::heap::GC;
use scmrun::value::Ptr;
use scmrun::value::Value;

fn live_count(gc: &GC) -> usize {
    let mut n = 0;
    for slot in gc.heap.iter() {
        if slot.is_some() {
            n += 1;
        }
    }
    n
}

#[test]
fn sweep_frees_unreachable_cells() {
    let mut gc = GC::new();
    let _garbage1 = gc.alloc_pair(Value::Null, Value::Null);
    let _garbage2 = gc.alloc_pair(Value::Unit, Value::Null);
    let kept = gc.alloc_pair(Value::Bool(true), Value::Null);
    assert_eq!(live_count(&gc), 3);
    let roots = vec![kept];
    gc.sweep(&roots);
    // completeness: the unreachable cells are gone
    assert_eq!(live_count(&gc), 1);
    // soundness: the reachable cell still holds its exact payload
    let pr = gc.pair(kept);
    assert!(matches!(pr.car, Value::Bool(true)));
    assert!(matches!(pr.cdr, Value::Null));
}

#[test]
fn sweep_keeps_whole_reachable_graph() {
    let mut gc = GC::new();
    let inner = gc.alloc_pair(Value::Bool(false), Value::Unit);
    let outer = gc.alloc_pair(Value::Pair(inner), Value::Null);
    let _dead = gc.alloc_pair(Value::Null, Value::Null);
    let roots = vec![outer];
    gc.sweep(&roots);
    assert_eq!(live_count(&gc), 2);
    let o = gc.pair(outer);
    let inner_again = match o.car {
        Value::Pair(p) => p,
        _ => panic!("outer cell lost its child"),
    };
    let i = gc.pair(inner_again);
    assert!(matches!(i.car, Value::Bool(false)));
}

#[test]
fn two_collections_flip_colors() {
    let mut gc = GC::new();
    let kept = gc.alloc_pair(Value::Null, Value::Null);
    let roots = vec![kept];
    gc.sweep(&roots);
    gc.sweep(&roots);
    gc.sweep(&roots);
    assert_eq!(live_count(&gc), 1);
}

#[test]
fn cyclic_pair_does_not_hang_marking() {
    let mut gc = GC::new();
    let p = gc.alloc_pair(Value::Num(scmrun::bignum::Big::from_i64(1)), Value::Null);
    // tie the knot: the pair's tail is the pair itself
    gc.set_cdr(p, Value::Pair(p));
    let roots = vec![p];
    gc.sweep(&roots);
    assert_eq!(live_count(&gc), 1);
    let pr = gc.pair(p);
    assert!(matches!(pr.cdr, Value::Pair(q) if q == p));
}

#[test]
fn interner_survives_collection_with_no_roots() {
    let mut gc = GC::new();
    let h = gc.intern(b"foo".to_vec());
    let roots: Vec<Ptr> = Vec::new();
    gc.sweep(&roots);
    // interned strings are implicit roots: the handle is still live
    let s = gc.str(h);
    assert_eq!(s.contents, b"foo".to_vec());
    assert!(!s.mutable);
}

#[test]
fn intern_twice_returns_identical_handle() {
    let mut gc = GC::new();
    let a = gc.intern(b"foo".to_vec());
    let b = gc.intern(b"foo".to_vec());
    assert_eq!(a, b);
}

#[test]
fn intern_distinct_contents_distinct_handles() {
    let mut gc = GC::new();
    let a = gc.intern(b"foo".to_vec());
    let b = gc.intern(b"bar".to_vec());
    assert_ne!(a, b);
}

#[test]
fn alloc_reuses_freed_slots() {
    let mut gc = GC::new();
    let dead = gc.alloc_pair(Value::Null, Value::Null);
    let kept = gc.alloc_pair(Value::Unit, Value::Unit);
    let roots = vec![kept];
    gc.sweep(&roots);
    assert_eq!(live_count(&gc), 1);
    let fresh = gc.alloc_pair(Value::Bool(true), Value::Null);
    // the freed slot is reused, the arena does not grow
    assert_eq!(fresh, dead);
    assert_eq!(live_count(&gc), 2);
}

#[test]
fn set_car_updates_in_place() {
    let mut gc = GC::new();
    let p = gc.alloc_pair(Value::Null, Value::Unit);
    gc.set_car(p, Value::Bool(true));
    let pr = gc.pair(p);
    assert!(matches!(pr.car, Value::Bool(true)));
    assert!(matches!(pr.cdr, Value::Unit));
}

#[test]
fn list_builder_links_pairs_in_order() {
    let mut gc = GC::new();
    let mut b = scmrun::heap::ListBuilder::init();
    assert!(matches!(b.get_list(&mut gc), Value::Null));
    b.append(Value::Bool(true), &gc);
    b.append(Value::Bool(false), &gc);
    let lst = b.get_list(&mut gc);
    let first = match lst {
        Value::Pair(p) => p,
        _ => panic!("expected a pair"),
    };
    let f = gc.pair(first);
    assert!(matches!(f.car, Value::Bool(true)));
    let second = match f.cdr {
        Value::Pair(p) => p,
        _ => panic!("expected a second pair"),
    };
    let s = gc.pair(second);
    assert!(matches!(s.car, Value::Bool(false)));
    assert!(matches!(s.cdr, Value::Null));
}

#[test]
fn generic_list_insert_at_head() {
    let mut l: scmrun::list::List<u32> = scmrun::list::List::new();
    l.insert(1);
    l.insert(2);
    match &*l.head {
        scmrun::list::ListNode::Node(t, rest) => {
            assert_eq!(*t, 2);
            assert!(matches!(&**rest, scmrun::list::ListNode::Node(u, _) if *u == 1));
        }
        _ => panic!("list should not be empty"),
    }
}
