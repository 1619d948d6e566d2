use ruju::intrinsics::{add_int, eq_int, mul_int, slt_int, sub_int};

#[test]
fn machine_int_semantics() {
    assert_eq!(add_int(2, 3), 5);
    assert_eq!(add_int(i64::MAX, 1), i64::MIN); // wrapping
    assert_eq!(sub_int(3, 5), -2);
    assert_eq!(mul_int(6, 7), 42);
    assert!(slt_int(-1, 0) && !slt_int(0, 0));
    assert!(eq_int(9, 9) && !eq_int(9, 8));
}
