use swh_origin_stats::text::{decimal_string, push_decimal};

#[test]
fn decimal_of_small_numbers() {
    assert_eq!(decimal_string(0), "0");
    assert_eq!(decimal_string(7), "7");
    assert_eq!(decimal_string(9), "9");
    assert_eq!(decimal_string(10), "10");
    assert_eq!(decimal_string(42), "42");
    assert_eq!(decimal_string(1234567890), "1234567890");
}

#[test]
fn decimal_has_no_leading_zeros() {
    assert_eq!(decimal_string(100), "100");
    assert_eq!(decimal_string(1001), "1001");
    assert_eq!(decimal_string(999999), "999999");
}

#[test]
fn decimal_of_the_largest_number() {
    assert_eq!(decimal_string(usize::MAX), usize::MAX.to_string());
}

#[test]
fn decimal_agrees_with_the_standard_rendering() {
    let mut n: usize = 1;
    for _ in 0..19 {
        assert_eq!(decimal_string(n), n.to_string());
        assert_eq!(decimal_string(n - 1), (n - 1).to_string());
        n = n.saturating_mul(10);
    }
}

#[test]
fn push_decimal_appends() {
    let mut text = String::from("id=");
    push_decimal(305, &mut text);
    assert_eq!(text, "id=305");
    push_decimal(0, &mut text);
    assert_eq!(text, "id=3050");
}
