use sundial::error::Error;
use sundial::machine::{reduce, Thread};
use sundial::dict::Dict;
use sundial::heap::Heap;
use sundial::pod::Pod;

#[test]
fn bindings_insert_lookup_delete() {
    let mut pod = Pod::from_string("", 4096, 1024).unwrap();
    let out = pod.eval(":double [Copy Concatenate]", 1024).unwrap();
    assert_eq!(out, ":double [Copy Concatenate]");
    // the bound name splices its definition at execution time
    let out = pod.eval("double Apply", 1024).unwrap();
    assert_eq!(out, "Copy Concatenate");
    let out = pod.eval("~double", 1024).unwrap();
    assert_eq!(out, "~double");
    // once deleted, the name is an unbound symbol again
    let out = pod.eval("double", 1024).unwrap();
    assert_eq!(out, "double");
}

#[test]
fn bindings_reduce_before_binding() {
    let mut pod = Pod::from_string("", 4096, 1024).unwrap();
    let out = pod.eval(":k [A] [B] Concatenate", 1024).unwrap();
    assert_eq!(out, ":k [A B]");
    let out = pod.eval("k", 1024).unwrap();
    assert_eq!(out, "[A B]");
}

#[test]
fn rendering_the_dictionary() {
    let mut pod = Pod::from_string("", 4096, 1024).unwrap();
    pod.eval(":b [B]", 1024).unwrap();
    pod.eval(":a [A]", 1024).unwrap();
    // lines come out sorted by name
    let rendered = pod.to_string().unwrap();
    assert_eq!(rendered, ":a [A]\n:b [B]\n");
}

#[test]
fn from_string_runs_each_line() {
    let pod = Pod::from_string(":a [A]\n:b [B]\n", 4096, 1024).unwrap();
    let rendered = pod.to_string().unwrap();
    assert_eq!(rendered, ":a [A]\n:b [B]\n");
}

#[test]
fn bindings_survive_collection_cycles() {
    let mut pod = Pod::from_string("", 4096, 1024).unwrap();
    pod.eval(":keep [X Y]", 1024).unwrap();
    // every eval marks the dictionary and sweeps; run several cycles
    for _ in 0..5 {
        pod.eval("[junk] Drop", 1024).unwrap();
    }
    let out = pod.eval("keep", 1024).unwrap();
    assert_eq!(out, "[X Y]");
}

#[test]
fn space_exhaustion_is_reported() {
    let mut pod = Pod::from_string("", 2, 1024).unwrap();
    assert!(matches!(
        pod.eval("[A] [B] [C] [D]", 1024),
        Err(Error::Space)
    ));
}

#[test]
fn resumability_with_split_fuel() {
    // a run interrupted at a clean point continues under more fuel to the
    // same answer as one uninterrupted run
    let mut heap = Heap::with_capacity(4096);
    let tab = Dict::new();
    let program = "[A] Apply [B] Apply [C] Apply";
    let root = heap.parse(program).unwrap();
    let full = reduce(root, &mut heap, &tab, 1024).unwrap();
    let mut full_text = String::new();
    heap.quote(full, &mut full_text).unwrap();
    assert_eq!(full_text, "A B C");
    // interrupt after two steps: the environment has just been consumed, so
    // the partial term is a clean snapshot and the rest of the budget
    // finishes the same computation
    let root2 = heap.parse(program).unwrap();
    let part = reduce(root2, &mut heap, &tab, 2).unwrap();
    let mut part_text = String::new();
    heap.quote(part, &mut part_text).unwrap();
    assert_eq!(part_text, "A [B] Apply [C] Apply");
    let rest = reduce(part, &mut heap, &tab, 1022).unwrap();
    let mut split_text = String::new();
    heap.quote(rest, &mut split_text).unwrap();
    assert_eq!(split_text, full_text);
}

#[test]
fn fully_reduced_terms_are_fixed_points() {
    let mut heap = Heap::with_capacity(4096);
    let tab = Dict::new();
    let root = heap.parse("[A] [B] Concatenate").unwrap();
    let done = reduce(root, &mut heap, &tab, 1024).unwrap();
    let again = reduce(done, &mut heap, &tab, 1024).unwrap();
    let mut s1 = String::new();
    heap.quote(done, &mut s1).unwrap();
    let mut s2 = String::new();
    heap.quote(again, &mut s2).unwrap();
    assert_eq!(s1, s2);
    assert_eq!(s1, "[A B]");
}

#[test]
fn thread_operations() {
    let mut heap = Heap::with_capacity(256);
    let tab = Dict::new();
    let block = {
        let w = heap.new_word(String::from("A")).unwrap();
        heap.new_block(w).unwrap()
    };
    let code = heap.new_sequence(block, block).unwrap();
    let mut thread = Thread::with_continuation(code);
    assert!(thread.has_continuation());
    assert!(!thread.is_monadic());
    thread.step(&mut heap, &tab).unwrap();
    assert!(thread.is_monadic());
    thread.step(&mut heap, &tab).unwrap();
    assert!(thread.is_dyadic());
    assert!(!thread.has_continuation());
    let top = thread.peek_environment().unwrap();
    assert_eq!(top, block);
    let popped = thread.pop_environment().unwrap();
    assert_eq!(popped, block);
    assert!(thread.is_monadic());
    thread.push_environment(popped);
    let flushed = thread.get_environment(&mut heap).unwrap();
    let mut text = String::new();
    heap.quote(flushed, &mut text).unwrap();
    assert_eq!(text, "[A] [A]");
}

#[test]
fn continuation_queue_operations() {
    let mut heap = Heap::with_capacity(256);
    let a = heap.new_word(String::from("a")).unwrap();
    let b = heap.new_word(String::from("b")).unwrap();
    let c = heap.new_word(String::from("c")).unwrap();
    let mut thread = Thread::with_continuation(b);
    thread.push_continuation_front(a);
    thread.push_continuation_back(c);
    let first = thread.pop_continuation(&mut heap).unwrap();
    assert_eq!(first, a);
    let flushed = thread.get_continuation(&mut heap).unwrap();
    let mut text = String::new();
    heap.quote(flushed, &mut text).unwrap();
    assert_eq!(text, "b c");
    // popping an empty continuation is the internal bookkeeping error
    assert!(matches!(thread.pop_continuation(&mut heap), Err(Error::Bug)));
}

#[test]
fn underflow_is_distinct_from_stuck() {
    let mut thread = Thread::with_continuation(sundial::heap::Heap::with_capacity(1).new_id().unwrap());
    assert!(matches!(thread.pop_environment(), Err(Error::Underflow)));
    assert!(matches!(thread.peek_environment(), Err(Error::Underflow)));
}
