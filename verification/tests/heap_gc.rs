use sundial::dict::Dict;
use sundial::error::Error;
use sundial::heap::Heap;
use sundial::machine::reduce;

#[test]
fn constructors_and_accessors() {
    let mut heap = Heap::with_capacity(64);
    let id = heap.new_id().unwrap();
    assert!(heap.is_id(id).unwrap());
    let n = heap.new_number(42).unwrap();
    assert!(heap.is_number(n).unwrap());
    assert_eq!(heap.get_number(n).unwrap(), 42);
    assert!(matches!(heap.get_word(n), Err(Error::Tag)));
    let w = heap.new_word(String::from("hello")).unwrap();
    assert_eq!(heap.get_word(w).unwrap(), "hello");
    let b = heap.new_block(w).unwrap();
    assert!(heap.is_block(b).unwrap());
    assert_eq!(heap.get_block_body(b).unwrap(), w);
    let s = heap.new_sequence(b, n).unwrap();
    assert!(heap.is_sequence(s).unwrap());
    assert_eq!(heap.get_sequence_head(s).unwrap(), b);
    assert_eq!(heap.get_sequence_tail(s).unwrap(), n);
}

#[test]
fn composition_identities() {
    // composing with Empty on either side allocates nothing and returns the
    // other operand
    let mut heap = Heap::with_capacity(64);
    let id = heap.new_id().unwrap();
    let w = heap.new_word(String::from("x")).unwrap();
    assert_eq!(heap.new_sequence(id, w).unwrap(), w);
    assert_eq!(heap.new_sequence(w, id).unwrap(), w);
}

#[test]
fn composition_associates() {
    // both association orders render identically
    let mut heap = Heap::with_capacity(256);
    let a = heap.new_word(String::from("a")).unwrap();
    let b = heap.new_word(String::from("b")).unwrap();
    let c = heap.new_word(String::from("c")).unwrap();
    let ab = heap.new_sequence(a, b).unwrap();
    let left = heap.new_sequence(ab, c).unwrap();
    let bc = heap.new_sequence(b, c).unwrap();
    let right = heap.new_sequence(a, bc).unwrap();
    let mut s1 = String::new();
    heap.quote(left, &mut s1).unwrap();
    let mut s2 = String::new();
    heap.quote(right, &mut s2).unwrap();
    assert_eq!(s1, s2);
    assert_eq!(s1, "a b c");
}

#[test]
fn space_exhaustion() {
    let mut heap = Heap::with_capacity(2);
    heap.new_id().unwrap();
    heap.new_id().unwrap();
    assert!(matches!(heap.new_id(), Err(Error::Space)));
}

#[test]
fn flush_keeps_reachable_and_frees_the_rest() {
    let mut heap = Heap::with_capacity(64);
    let kept_leaf = heap.new_word(String::from("kept")).unwrap();
    let root = heap.new_block(kept_leaf).unwrap();
    let doomed = heap.new_word(String::from("doomed")).unwrap();
    heap.flush(root).unwrap();
    // everything reachable from the root survives
    assert!(heap.is_block(root).unwrap());
    assert_eq!(heap.get_word(kept_leaf).unwrap(), "kept");
    // everything unreachable is removed
    assert!(matches!(heap.get_word(doomed), Err(Error::Null)));
}

#[test]
fn mark_and_sweep_separately() {
    let mut heap = Heap::with_capacity(64);
    let a = heap.new_word(String::from("a")).unwrap();
    let b = heap.new_word(String::from("b")).unwrap();
    let dead = heap.new_word(String::from("dead")).unwrap();
    heap.mark(a).unwrap();
    heap.mark(b).unwrap();
    heap.sweep().unwrap();
    assert_eq!(heap.get_word(a).unwrap(), "a");
    assert_eq!(heap.get_word(b).unwrap(), "b");
    assert!(matches!(heap.get_word(dead), Err(Error::Null)));
    // marking a stale root fails with Null
    assert!(matches!(heap.mark(dead), Err(Error::Null)));
}

#[test]
fn stale_pointers_stay_stale_after_reuse() {
    let mut heap = Heap::with_capacity(4);
    let root = heap.new_word(String::from("root")).unwrap();
    let stale = heap.new_word(String::from("gone")).unwrap();
    heap.flush(root).unwrap();
    assert!(matches!(heap.get_word(stale), Err(Error::Null)));
    // refill every slot so the freed slot is certainly reused
    let mut refilled = Vec::new();
    while let Ok(p) = heap.new_word(String::from("new")) {
        refilled.push(p);
    }
    assert!(refilled.len() >= 3);
    // the pointer issued before the sweep still fails with Null
    assert!(matches!(heap.get_word(stale), Err(Error::Null)));
    assert!(matches!(heap.is_word(stale), Err(Error::Null)));
}

#[test]
fn zero_fuel_returns_the_root_unchanged() {
    let mut heap = Heap::with_capacity(256);
    let tab = Dict::new();
    let root = heap.parse("[A] Copy Drop").unwrap();
    let out = reduce(root, &mut heap, &tab, 0).unwrap();
    assert_eq!(out, root);
}

#[test]
fn literals_render_in_decimal() {
    let mut heap = Heap::with_capacity(64);
    let n = heap.new_number(42).unwrap();
    let mut s = String::new();
    heap.quote(n, &mut s).unwrap();
    assert_eq!(s, "42");
    let m = heap.new_number(-7).unwrap();
    let mut t = String::new();
    heap.quote(m, &mut t).unwrap();
    assert_eq!(t, "-7");
    let z = heap.new_number(0).unwrap();
    let mut u = String::new();
    heap.quote(z, &mut u).unwrap();
    assert_eq!(u, "0");
    let extreme = heap.new_number(i64::MIN).unwrap();
    let mut v = String::new();
    heap.quote(extreme, &mut v).unwrap();
    assert_eq!(v, "-9223372036854775808");
}

#[test]
fn parse_rejects_unbalanced_brackets() {
    let mut heap = Heap::with_capacity(256);
    assert!(matches!(heap.parse("[A"), Err(Error::Syntax)));
    assert!(matches!(heap.parse("]"), Err(Error::Syntax)));
    assert!(matches!(heap.parse("[[X]"), Err(Error::Syntax)));
}

#[test]
fn parse_empty_input_yields_empty() {
    let mut heap = Heap::with_capacity(16);
    let p = heap.parse("").unwrap();
    assert!(heap.is_id(p).unwrap());
    let q = heap.parse("   \t \n ").unwrap();
    assert!(heap.is_id(q).unwrap());
}
