use payledger::FixedPoint;
use rand::RngExt;

#[test]
fn fixedpoint_tests() {
    let v = "0.1234";
    let fp = FixedPoint::from_decimal(v).unwrap();

    assert_eq!(1234, fp.scaled());
}

#[test]
fn parses_whole_and_fractional_forms() {
    assert_eq!(500000, FixedPoint::from_decimal("50").unwrap().scaled());
    assert_eq!(500000, FixedPoint::from_decimal("50.0000").unwrap().scaled());
    assert_eq!(51000, FixedPoint::from_decimal("5.1").unwrap().scaled());
    assert_eq!(51200, FixedPoint::from_decimal("5.12").unwrap().scaled());
    assert_eq!(51230, FixedPoint::from_decimal("5.123").unwrap().scaled());
    assert_eq!(51234, FixedPoint::from_decimal("5.1234").unwrap().scaled());
    assert_eq!(0, FixedPoint::from_decimal("0.0000").unwrap().scaled());
    assert_eq!(551234, FixedPoint::from_decimal("55.1234").unwrap().scaled());
}

#[test]
fn rejects_malformed_text() {
    assert!(FixedPoint::from_decimal("").is_none());
    assert!(FixedPoint::from_decimal(".").is_none());
    assert!(FixedPoint::from_decimal("5.").is_none());
    assert!(FixedPoint::from_decimal(".5").is_none());
    assert!(FixedPoint::from_decimal("1.12345").is_none());
    assert!(FixedPoint::from_decimal("-1.0").is_none());
    assert!(FixedPoint::from_decimal("1.2.3").is_none());
    assert!(FixedPoint::from_decimal("abc").is_none());
    assert!(FixedPoint::from_decimal("1e3").is_none());
    assert!(FixedPoint::from_decimal(" 1.0").is_none());
}

#[test]
fn rejects_values_too_large_to_represent() {
    // One more than i128::MAX in ten-thousandths.
    assert!(FixedPoint::from_decimal("17014118346046923173168730371588410.5728").is_none());
    // Exactly i128::MAX in ten-thousandths still fits.
    let max = FixedPoint::from_decimal("17014118346046923173168730371588410.5727").unwrap();
    assert_eq!(i128::MAX, max.scaled());
}

#[test]
fn renders_to_four_decimal_places() {
    assert_eq!("0.0000", FixedPoint::from_decimal("0.0000").unwrap().to_decimal());
    assert_eq!("55.1234", FixedPoint::from_decimal("55.1234").unwrap().to_decimal());
    assert_eq!("50.0000", FixedPoint::from_decimal("50").unwrap().to_decimal());
    assert_eq!("5.1000", FixedPoint::from_decimal("5.1").unwrap().to_decimal());
    assert_eq!("123456789.0001", FixedPoint::from_decimal("123456789.0001").unwrap().to_decimal());
}

#[test]
fn arithmetic_is_exact() {
    let a = FixedPoint::from_decimal("0.1").unwrap();
    let b = FixedPoint::from_decimal("0.2").unwrap();
    let c = a.add(b);
    // No binary-float drift: one tenth plus two tenths is exactly three
    // tenths.
    assert_eq!("0.3000", c.to_decimal());
    assert_eq!(c.sub(a), b);
    assert!(b.gt(a));
    assert!(b.ge(a));
    assert!(b.ge(b));
    assert!(!a.ge(b));
}

#[test]
fn round_trip_of_random_values_is_exact() {
    let mut rng = rand::rng();
    for _ in 0..1000 {
        let whole: u32 = rng.random_range(0..1000000);
        let frac: u32 = rng.random_range(0..10000);
        let text = format!("{}.{:04}", whole, frac);
        let value = FixedPoint::from_decimal(&text).unwrap();
        assert_eq!(value.scaled(), (whole as i128) * 10000 + frac as i128);
        // Reading the value back yields exactly the text it came from.
        assert_eq!(text, value.to_decimal());
    }
}
