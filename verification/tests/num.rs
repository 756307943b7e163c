use lib::num::{f_i32, F, F_MAX_INT, F_MIN_INT};

#[test]
fn test_f_i32() {
    assert_eq!(f_i32(123), F(123 << 8));
    assert_eq!(f_i32(8388607), F(8388607 << 8));
    assert_eq!(f_i32(-8388608), F(-8388608 << 8));
}

#[test]
fn f_i32_bounds_are_the_24_bit_range() {
    assert_eq!(F_MAX_INT, i32::MAX >> 8);
    assert_eq!(F_MIN_INT, i32::MIN >> 8);
    assert_eq!(f_i32(0), F(0));
    assert_eq!(f_i32(-1), F(-256));
}
