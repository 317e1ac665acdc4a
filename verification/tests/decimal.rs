use auxein_core::decimal::floor_mul;
use auxein_core::digits::mul_digits;

#[test]
fn exact_floor() {
    assert_eq!(floor_mul("1.9", 24).unwrap(), 45);
    assert_eq!(floor_mul("1e-2", 100).unwrap(), 1);
    assert_eq!(floor_mul(".5", 25).unwrap(), 12);
    assert_eq!(floor_mul("100", 24).unwrap(), 2400);
    assert_eq!(floor_mul("1e-1000", 24).unwrap(), 0);
    assert!(floor_mul("1e1000", 24).is_err());
    assert_eq!(floor_mul("0e999999999999999999999", 24).unwrap(), 0);
}

#[test]
fn digit_products_keep_the_input_width() {
    assert_eq!(mul_digits(&vec![0, 5], 1), vec![0, 5]);
    assert_eq!(mul_digits(&vec![5], 2), vec![1, 0]);
    assert_eq!(mul_digits(&vec![9, 9], 0), vec![0, 0]);
    assert_eq!(mul_digits(&vec![1, 2, 3], 1000), vec![1, 2, 3, 0, 0, 0]);
    assert_eq!(mul_digits(&vec![], 7), Vec::<u8>::new());
}
