use mimicros::ratio::Ratio;

#[test]
fn test_ratio() {
    assert_eq!(Ratio::new(1, 3), Ratio::new(2, 6));
}

#[test]
fn ratio_multiply_scales() {
    let r = Ratio::new(1_000_000_000, 62_500_000);
    assert_eq!(r.multiply(62_500_000), 1_000_000_000);
    let half = Ratio::new(1, 2);
    assert_eq!(half.multiply(10), 5);
}

#[test]
fn ratio_zero_numerator() {
    let z = Ratio::new(0, 0);
    assert_eq!(z.multiply(12345), 0);
    assert_eq!(z, Ratio::new(0, 7));
}

#[test]
fn equal_fractions_give_equal_ratios() {
    assert_eq!(Ratio::new(3, 7), Ratio::new(300, 700));
    assert_eq!(Ratio::new(1_000_000_000, 24_000_000), Ratio::new(125, 3));
    assert_ne!(Ratio::new(1, 3), Ratio::new(1, 4));
}
