use zkvm::field::{bb_add, bb_inv, bb_mul, bb_sub, reduce, P};

#[test]
fn field_arithmetic_wraps_at_the_modulus() {
    assert_eq!(bb_add(P - 1, 1), 0);
    assert_eq!(bb_add(5, 7), 12);
    assert_eq!(bb_sub(3, 5), P - 2);
    assert_eq!(bb_sub(9, 4), 5);
    assert_eq!(bb_mul(P - 1, P - 1), 1);
    assert_eq!(bb_mul(1 << 16, 1 << 16), ((1u64 << 32) % P as u64) as u32);
    assert_eq!(reduce(P), 0);
    assert_eq!(reduce(u32::MAX), (u32::MAX % P));
}

#[test]
fn inverse_times_element_is_one() {
    for a in [1u32, 2, 3, 12345, P - 1, P + 5, u32::MAX] {
        let x = bb_inv(a);
        assert!(x < P);
        assert_eq!((a as u64 % P as u64) * x as u64 % P as u64, 1, "a = {}", a);
    }
    assert_eq!(bb_inv(1), 1);
    assert_eq!(bb_inv(2), (P + 1) / 2);
}

#[test]
fn zero_has_no_inverse() {
    assert_eq!(bb_inv(0), 0);
    assert_eq!(bb_inv(P), 0);
}

#[test]
fn subtraction_undoes_addition() {
    let samples = [(0u32, 0u32), (5, 7), (P - 1, 1), (P - 1, P - 1), (123456789, P - 2), (1, P - 1)];
    for &(a, b) in samples.iter() {
        assert_eq!(bb_sub(bb_add(a, b), b), a);
        assert_eq!(bb_add(bb_sub(a, b), b), a);
    }
}
