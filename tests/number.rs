use pollocad::number::{NumError, Number};

fn n(a: i64, b: i64) -> Number {
    Number::ratio(a, b).unwrap()
}

#[test]
fn ratio_reduces_to_lowest_terms() {
    assert_eq!(n(6, 4), Number { num: 3, den: 2 });
    assert_eq!(n(3, -6), Number { num: -1, den: 2 });
    assert_eq!(n(0, 5), Number { num: 0, den: 1 });
    assert_eq!(Number::ratio(1, 0), Err(NumError::DivisionByZero));
}

#[test]
fn arithmetic() {
    assert_eq!(n(1, 2).add(n(1, 3)), Ok(n(5, 6)));
    assert_eq!(n(1, 2).sub(n(1, 3)), Ok(n(1, 6)));
    assert_eq!(n(2, 3).mul(n(3, 4)), Ok(n(1, 2)));
    assert_eq!(n(2, 3).div(n(-4, 3)), Ok(n(-1, 2)));
    assert_eq!(n(2, 3).div(n(0, 1)), Err(NumError::DivisionByZero));
}

#[test]
fn overflow_is_reported() {
    let big = Number::from_int(i64::MAX);
    assert_eq!(big.add(Number::from_int(1)), Err(NumError::Overflow));
    assert_eq!(big.mul(Number::from_int(2)), Err(NumError::Overflow));
    assert_eq!(Number::from_int(i64::MIN).sub(Number::from_int(1)), Err(NumError::Overflow));
    assert_eq!(Number::from_int(i64::MIN).add(Number::from_int(0)), Ok(Number::from_int(i64::MIN)));
}

#[test]
fn comparison_and_max() {
    assert!(n(1, 3).le_num(n(1, 2)));
    assert!(!n(1, 2).le_num(n(1, 3)));
    assert_eq!(n(-1, 2).max(n(1, 1000)), n(1, 1000));
    assert_eq!(n(3, 1).max(n(1, 1000)), n(3, 1));
}
