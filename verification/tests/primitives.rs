use sundial::pod::Pod;

fn check(pod: &mut Pod, source: &str, expected: &str) {
    println!("{} => {}", source, expected);
    let target = pod.eval(source, 1024).unwrap();
    assert_eq!(expected, &target);
}

#[test]
fn primitives() {
    let space = 1024;
    let time = 1024;
    let mut pod = Pod::from_string("", space, time).unwrap();
    check(&mut pod, "", "");
    check(&mut pod, "[A]", "[A]");
    check(&mut pod, "[[A]]", "[[A]]");
    check(&mut pod, "[A] [B]", "[A] [B]");
    check(&mut pod, "Apply", "Apply");
    check(&mut pod, "Box", "Box");
    check(&mut pod, "Concatenate", "Concatenate");
    check(&mut pod, "Copy", "Copy");
    check(&mut pod, "Drop", "Drop");
    check(&mut pod, "Swap", "Swap");
    check(&mut pod, "Forall", "Forall");
    check(&mut pod, "Prop", "Prop");
    check(&mut pod, "[A] Apply", "A");
    check(&mut pod, "[A] Box", "[[A]]");
    check(&mut pod, "[A] [B] Concatenate", "[A B]");
    check(&mut pod, "[A] Concatenate", "[A] Concatenate");
    check(&mut pod, "[A] Copy", "[A] [A]");
    check(&mut pod, "[A] Drop", "");
    check(&mut pod, "[A] [B] Swap", "[B] [A]");
    check(&mut pod, "[A] Swap", "[A] Swap");
    check(&mut pod, "[A] [B] Box Concatenate", "[A [B]]");
    check(&mut pod, "[A] Forall", "[A] Forall");
    check(&mut pod, "[A] [B] Forall", "[A] [B] Forall");
    check(&mut pod, "[A] Prop", "[A] Prop");
}

#[test]
fn fix_unfolds() {
    let mut pod = Pod::from_string("", 4096, 1024).unwrap();
    check(&mut pod, "[A] Fix", "[[A] Fix A]");
    check(&mut pod, "Fix", "Fix");
}

#[test]
fn stuck_outputs_are_fixed_points() {
    // an output equal to its input stays equal under further evaluation
    let mut pod = Pod::from_string("", 4096, 1024).unwrap();
    for stuck in ["Copy", "[A] Concatenate", "[A] Swap", "[A] Forall", "[A] Prop"] {
        let once = pod.eval(stuck, 1024).unwrap();
        let twice = pod.eval(&once, 1024).unwrap();
        assert_eq!(once, twice);
    }
}

#[test]
fn annotations_are_inert_inside_quotations() {
    let mut pod = Pod::from_string("", 4096, 1024).unwrap();
    check(&mut pod, "[(note)]", "[(note)]");
    check(&mut pod, "[(note) A]", "[(note) A]");
    // in instruction position an annotation is a no-op
    check(&mut pod, "(note) [A]", "[A]");
}

#[test]
fn deep_nesting_round_trips() {
    let mut pod = Pod::from_string("", 8192, 4096).unwrap();
    check(&mut pod, "[[[[X]]]]", "[[[[X]]]]");
    check(&mut pod, "[a b [c d] e]", "[a b [c d] e]");
    check(&mut pod, "[ ]", "[]");
    check(&mut pod, "[]", "[]");
}
