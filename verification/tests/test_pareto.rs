use toycc::passes::pareto::dominates;

#[test]
fn dominance_needs_one_strict_improvement() {
    assert!(dominates(&[2, 3, 4], &[2, 2, 4]));
    assert!(!dominates(&[2, 3, 4], &[2, 3, 4]));
    assert!(!dominates(&[2, 3, 4], &[3, 0, 0]));
    assert!(!dominates(&[], &[]));
}

#[test]
fn dominance_is_transitive_on_an_example() {
    let a = [5, 5];
    let b = [4, 5];
    let c = [4, 1];
    assert!(dominates(&a, &b));
    assert!(dominates(&b, &c));
    assert!(dominates(&a, &c));
}
