use pkvector::text::{push_integer, push_natural};

#[test]
fn numerals_are_decimal_without_leading_zeros() {
    for n in [0u64, 7, 10, 99, 100, 1020, u64::MAX] {
        let mut text = String::from("n = ");
        push_natural(&mut text, n);
        assert_eq!(text, format!("n = {}", n));
    }
    for n in [0i64, 5, -5, 10, -10, i64::MAX, i64::MIN] {
        let mut text = String::new();
        push_integer(&mut text, n);
        assert_eq!(text, n.to_string());
    }
}
