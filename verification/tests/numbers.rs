use cgt::dyadic_rational_number::{DyadicRationalNumber, Relation};
use cgt::numeric::rational::{Rational, RationalError};

#[test]
fn denominator_exponent_works() {
    assert_eq!(
        DyadicRationalNumber::rational(52, 1)
            .unwrap()
            .denominator_exponent(),
        0
    );
    assert_eq!(
        DyadicRationalNumber::rational(1, 8)
            .unwrap()
            .denominator_exponent(),
        3
    );
}

fn test_parsing_works(inp: &str) {
    let number = Rational::parse(inp).unwrap();
    assert_eq!(inp, &number.to_string());
}

#[test]
fn parsing_works_positive() {
    test_parsing_works("3/16");
    test_parsing_works("42");
    test_parsing_works("-1/2");
    test_parsing_works("2/3");
}

#[test]
fn parsing_rejects_what_is_no_rational() {
    assert_eq!(Rational::parse(""), Err(RationalError::InvalidRational));
    assert_eq!(Rational::parse("-"), Err(RationalError::InvalidRational));
    assert_eq!(Rational::parse("1/0"), Err(RationalError::InvalidRational));
    assert_eq!(Rational::parse("1/"), Err(RationalError::InvalidRational));
    assert_eq!(Rational::parse("/2"), Err(RationalError::InvalidRational));
    assert_eq!(Rational::parse("1/2/3"), Err(RationalError::InvalidRational));
    assert_eq!(Rational::parse("1/-2"), Err(RationalError::InvalidRational));
    assert_eq!(Rational::parse(" 1"), Err(RationalError::InvalidRational));
    assert_eq!(Rational::parse("∞"), Err(RationalError::InvalidRational));
    assert_eq!(
        Rational::parse("9223372036854775808"),
        Err(RationalError::InvalidRational)
    );
    assert_eq!(
        Rational::parse("-9223372036854775808"),
        Ok(Rational::Value(i64::MIN, 1))
    );
    assert_eq!(
        Rational::parse("1/4294967296"),
        Err(RationalError::InvalidRational)
    );
    assert_eq!(Rational::parse("6/4"), Ok(Rational::Value(3, 2)));
    assert_eq!(Rational::parse("007"), Ok(Rational::Value(7, 1)));
}

#[test]
fn rational_new_reduces() {
    assert_eq!(Rational::new(6, 4), Rational::Value(3, 2));
    assert_eq!(Rational::new(-6, 3), Rational::Value(-2, 1));
    assert_eq!(Rational::new(0, 7), Rational::Value(0, 1));
    assert!(!Rational::new(1, 2).is_infinite());
    assert!(Rational::PositiveInfinity.is_infinite());
    assert!(Rational::NegativeInfinity.is_infinite());
}

#[test]
fn rational_arithmetic() {
    let half = Rational::new(1, 2);
    let third = Rational::new(1, 3);
    assert_eq!(half.add(&third), Ok(Rational::Value(5, 6)));
    assert_eq!(half.sub(&third), Ok(Rational::Value(1, 6)));
    assert_eq!(half.mul(&third), Ok(Rational::Value(1, 6)));
    assert_eq!(half.div(&third), Ok(Rational::Value(3, 2)));
    assert_eq!(half.div(&Rational::new(-1, 3)), Ok(Rational::Value(-3, 2)));
    assert_eq!(half.neg(), Ok(Rational::Value(-1, 2)));
    assert_eq!(
        half.div(&Rational::from_integer(0)),
        Err(RationalError::ArithmeticUndefined)
    );
    let big = Rational::from_integer(1 << 40);
    assert_eq!(big.add(&half), Err(RationalError::Overflow));
    assert_eq!(
        Rational::Value(i64::MIN, 1).neg(),
        Err(RationalError::Overflow)
    );
}

#[test]
fn rational_infinities() {
    let one = Rational::from_integer(1);
    let up = Rational::PositiveInfinity;
    let down = Rational::NegativeInfinity;
    assert_eq!(up.add(&one), Ok(up));
    assert_eq!(one.add(&down), Ok(down));
    assert_eq!(down.sub(&one), Ok(down));
    assert_eq!(up.add(&down), Err(RationalError::ArithmeticUndefined));
    assert_eq!(up.add(&up), Err(RationalError::ArithmeticUndefined));
    assert_eq!(up.sub(&one), Err(RationalError::ArithmeticUndefined));
    assert_eq!(one.sub(&up), Err(RationalError::ArithmeticUndefined));
    assert_eq!(up.mul(&Rational::from_integer(-2)), Ok(down));
    assert_eq!(Rational::from_integer(3).mul(&down), Ok(down));
    assert_eq!(
        up.mul(&Rational::from_integer(0)),
        Err(RationalError::ArithmeticUndefined)
    );
    assert_eq!(up.mul(&up), Err(RationalError::ArithmeticUndefined));
    assert_eq!(up.div(&one), Err(RationalError::ArithmeticUndefined));
    assert_eq!(up.neg(), Ok(down));
    assert_eq!(down.neg(), Ok(up));
    assert!(down.lt(&one));
    assert!(one.lt(&up));
    assert!(down.lt(&up));
    assert!(!up.lt(&up));
    assert!(up.le(&up));
    assert!(Rational::new(1, 3).lt(&Rational::new(1, 2)));
    assert!(Rational::new(-1, 2).lt(&Rational::new(-1, 3)));
    assert_eq!(&up.to_string(), "∞");
    assert_eq!(&down.to_string(), "-∞");
}

#[test]
fn dyadic_rational_takes_fractions_in_lowest_terms() {
    let three_quarters = DyadicRationalNumber::rational(6, 8).unwrap();
    assert_eq!(three_quarters.numerator(), 3);
    assert_eq!(three_quarters.denominator(), 4);
    assert_eq!(three_quarters.denominator_exponent(), 2);
    assert_eq!(three_quarters.to_integer(), None);
    let minus_two = DyadicRationalNumber::rational(4, -2).unwrap();
    assert_eq!(minus_two.numerator(), -2);
    assert_eq!(minus_two.denominator(), 1);
    assert_eq!(minus_two.to_integer(), Some(-2));
    assert!(minus_two.is_integer());
    let zero = DyadicRationalNumber::rational(0, 5).unwrap();
    assert_eq!((zero.numerator(), zero.denominator()), (0, 1));
    assert_eq!(DyadicRationalNumber::rational(1, 0), None);
    assert_eq!(DyadicRationalNumber::rational(1, 3), None);
    assert_eq!(DyadicRationalNumber::rational(2, 6), None);
    assert_eq!(DyadicRationalNumber::rational(3, 6).unwrap().denominator(), 2);
    assert_eq!(DyadicRationalNumber::rational(i32::MIN, -1), None);
    assert_eq!(
        DyadicRationalNumber::rational(i32::MIN, 1).unwrap().numerator(),
        i32::MIN
    );
    assert_eq!(
        DyadicRationalNumber::rational(1, i32::MIN).unwrap_or(zero),
        zero
    );
}

#[test]
fn dyadic_rational_arithmetic() {
    let half = DyadicRationalNumber::rational(1, 2).unwrap();
    let quarter = DyadicRationalNumber::rational(1, 4).unwrap();
    let three = DyadicRationalNumber::from_integer(3);
    assert_eq!(half.add(&quarter), DyadicRationalNumber::rational(3, 4));
    assert_eq!(half.add(&half), Some(DyadicRationalNumber::from_integer(1)));
    assert_eq!(quarter.sub(&half), DyadicRationalNumber::rational(-1, 4));
    assert_eq!(half.neg(), DyadicRationalNumber::rational(-1, 2));
    assert_eq!(quarter.mul_integer(6), DyadicRationalNumber::rational(3, 2));
    assert_eq!(three.div_power_of_two(3), DyadicRationalNumber::rational(3, 8));
    assert_eq!(half.mean(&three), DyadicRationalNumber::rational(7, 4));
    assert!(quarter.lt(&half));
    assert!(half.le(&half));
    assert!(!three.lt(&half));
    assert_eq!(&half.to_string(), "1/2");
    assert_eq!(&three.to_string(), "3");
    assert_eq!(
        &DyadicRationalNumber::rational(-5, 2).unwrap().to_string(),
        "-5/2"
    );
    let max = DyadicRationalNumber::from_integer(i32::MAX);
    assert_eq!(max.add(&three), None);
    assert_eq!(DyadicRationalNumber::from_integer(i32::MIN).neg(), None);
    let tiny = DyadicRationalNumber::rational(1, 1 << 30).unwrap();
    assert_eq!(tiny.div_power_of_two(1), None);
    assert_eq!(tiny.mean(&DyadicRationalNumber::from_integer(0)), None);
}

#[test]
fn simplest_number_between() {
    let dy = |n: i32, d: i32| DyadicRationalNumber::rational(n, d).unwrap();
    let between = |a, b| DyadicRationalNumber::simplest_between(&a, &b);
    assert_eq!(between(dy(0, 1), dy(1, 1)), Some(dy(1, 2)));
    assert_eq!(between(dy(-3, 1), dy(5, 2)), Some(dy(0, 1)));
    assert_eq!(between(dy(1, 2), dy(7, 2)), Some(dy(1, 1)));
    assert_eq!(between(dy(-7, 2), dy(-1, 2)), Some(dy(-1, 1)));
    assert_eq!(between(dy(1, 4), dy(1, 2)), Some(dy(3, 8)));
    assert_eq!(between(dy(1, 8), dy(1, 1)), Some(dy(1, 2)));
    assert_eq!(between(dy(-1, 1), dy(-1, 8)), Some(dy(-1, 2)));
    assert_eq!(between(dy(5, 2), dy(3, 1)), Some(dy(11, 4)));
    assert_eq!(between(dy(1, 1), dy(1, 1)), None);
    assert_eq!(between(dy(2, 1), dy(1, 1)), None);
    assert_eq!(between(dy(0, 1), dy(1, 1 << 30)), None);
}

#[test]
fn dyadic_floor_is_the_integer_below() {
    assert_eq!(DyadicRationalNumber::rational(7, 2).unwrap().floor(), 3);
    assert_eq!(DyadicRationalNumber::rational(-7, 2).unwrap().floor(), -4);
    assert_eq!(DyadicRationalNumber::rational(-1, 8).unwrap().floor(), -1);
    assert_eq!(DyadicRationalNumber::from_integer(-5).floor(), -5);
    assert_eq!(DyadicRationalNumber::from_integer(0).floor(), 0);
    assert_eq!(DyadicRationalNumber::rational(1, 1024).unwrap().floor(), 0);
}

#[test]
fn dyadic_compare_orders_by_value() {
    let half = DyadicRationalNumber::rational(1, 2).unwrap();
    let three_quarters = DyadicRationalNumber::rational(3, 4).unwrap();
    let minus_one = DyadicRationalNumber::from_integer(-1);
    assert_eq!(half.compare(&three_quarters), Relation::Less);
    assert_eq!(three_quarters.compare(&half), Relation::Greater);
    assert_eq!(half.compare(&DyadicRationalNumber::rational(2, 4).unwrap()), Relation::Equal);
    assert_eq!(minus_one.compare(&half), Relation::Less);
}

#[test]
fn rational_text_is_read_back() {
    for number in [
        Rational::new(3, 16),
        Rational::new(-7, 3),
        Rational::from_integer(0),
        Rational::from_integer(i64::MIN),
        Rational::new(i64::MAX, u32::MAX),
    ] {
        assert_eq!(Rational::parse(&number.to_string()), Ok(number));
    }
    assert_eq!(Rational::PositiveInfinity.to_string(), "∞");
    assert_eq!(Rational::NegativeInfinity.to_string(), "-∞");
    assert_eq!(
        Rational::parse("∞"),
        Err(RationalError::InvalidRational)
    );
}
