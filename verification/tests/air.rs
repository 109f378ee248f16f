use zkvm::air::{permutation, rv_permutation};

#[test]
fn accumulator_counts() {
    assert_eq!(permutation::num_accum_constraints(), 20);
    assert!(permutation::is_wrap_constraint(0));
    assert!(permutation::is_wrap_constraint(19));
    assert_eq!(rv_permutation::num_accum_constraints(), 39);
}

#[test]
fn wrap_constraints_of_the_risc_v_trace() {
    let wraps: Vec<usize> = (0..39).filter(|&j| rv_permutation::is_wrap_constraint(j)).collect();
    let mut expect: Vec<usize> = (0..12).collect();
    expect.extend(28..=32);
    expect.extend(37..39);
    assert_eq!(wraps, expect);
}
