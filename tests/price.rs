use financial_data_pipeline::price::{Price, MAX_MANTISSA};

#[test]
fn less_than_compares_across_scales() {
    let a = Price::new(150, 2); // 1.50
    let b = Price::new(2, 0); // 2
    assert!(a.less_than(b));
    assert!(!b.less_than(a));
    let c = Price::new(15, 1); // 1.5
    assert!(!a.less_than(c));
    assert!(!c.less_than(a));
}

#[test]
fn checked_add_is_exact_for_small_values() {
    let s = Price::new(150, 2).checked_add(Price::new(25, 1)).unwrap();
    // 1.50 + 2.5 = 4.00
    assert!(!s.less_than(Price::new(4, 0)));
    assert!(!Price::new(4, 0).less_than(s));
    assert_ne!(s, Price::new(150, 2));
}

#[test]
fn checked_add_overflows_to_none() {
    let max = Price::from_parts(MAX_MANTISSA, 0).unwrap();
    assert!(max.checked_add(max).is_none());
}

#[test]
fn checked_div_count_divides() {
    let q = Price::new(900, 2).checked_div_count(3).unwrap();
    assert!(!q.less_than(Price::new(3, 0)));
    assert!(!Price::new(3, 0).less_than(q));
}

#[test]
fn checked_div_by_zero_is_none() {
    assert!(Price::new(900, 2).checked_div_count(0).is_none());
}

#[test]
fn from_parts_rejects_out_of_range() {
    assert!(Price::from_parts(1, 29).is_none());
    assert!(Price::from_parts(MAX_MANTISSA + 1, 0).is_none());
    assert!(Price::from_parts(-MAX_MANTISSA - 1, 0).is_none());
    assert_eq!(Price::from_parts(-5, 28), Some(Price { mantissa: -5, scale: 28 }));
}
