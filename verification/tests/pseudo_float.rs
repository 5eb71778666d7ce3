use profqu_neat::data_structures::pseudo_float::{div_toward_zero, saturate, SCALE};
use profqu_neat::data_structures::PseudoFloat;

#[test]
fn test_from() {
    for _ in 0..10 {
        let units: i64 = rand::random();
        let pseudo = PseudoFloat::new(units);
        let units2 = pseudo.parse();

        assert_eq!(units, units2);
    }
}

#[test]
fn test_into() {
    for _ in 0..10 {
        let pseudo = PseudoFloat::new(rand::random());
        let units = pseudo.parse();
        let pseudo2 = PseudoFloat::new(units);

        assert_eq!(pseudo, pseudo2);
    }
}

#[test]
fn whole_numbers_and_ratios() {
    assert_eq!(SCALE, 1_000_000_000);
    assert_eq!(PseudoFloat::zero().parse(), 0);
    assert_eq!(PseudoFloat::one().parse(), SCALE);
    assert_eq!(PseudoFloat::from_int(-3).parse(), -3 * SCALE);
    assert_eq!(PseudoFloat::from_ratio(1, 4).parse(), 250_000_000);
    assert_eq!(PseudoFloat::from_ratio(-1, 3).parse(), -333_333_333);
    assert_eq!(PseudoFloat::from_ratio(2, 3).parse(), 666_666_666);
    assert_eq!(PseudoFloat::from_ratio(i64::MAX, 1).parse(), i64::MAX);
    assert_eq!(PseudoFloat::from_ratio(i64::MIN, 1).parse(), i64::MIN);
}

#[test]
fn arithmetic_rounds_towards_zero_and_saturates() {
    let half = PseudoFloat::new(500_000_000);
    let third = PseudoFloat::new(333_333_333);
    let top = PseudoFloat::new(i64::MAX);
    let bottom = PseudoFloat::new(i64::MIN);

    assert_eq!(half.add(third).parse(), 833_333_333);
    assert_eq!(half.sub(third).parse(), 166_666_667);
    assert_eq!(top.add(half).parse(), i64::MAX);
    assert_eq!(bottom.sub(half).parse(), i64::MIN);
    assert_eq!(half.mul(third).parse(), 166_666_666);
    assert_eq!(half.mul(PseudoFloat::new(-333_333_333)).parse(), -166_666_666);
    assert_eq!(top.mul(top).parse(), i64::MAX);
    assert_eq!(top.mul(bottom).parse(), i64::MIN);
    assert_eq!(bottom.mul(bottom).parse(), i64::MAX);
    assert_eq!(half.abs_diff(third), 166_666_667);
    assert_eq!(third.abs_diff(half), 166_666_667);
    assert_eq!(bottom.abs_diff(top), u64::MAX);
    assert_eq!(half.midpoint(third).parse(), 416_666_666);
    assert_eq!(PseudoFloat::new(-3).midpoint(PseudoFloat::new(0)).parse(), -1);
    assert_eq!(top.midpoint(top).parse(), i64::MAX);
    assert_eq!(bottom.midpoint(bottom).parse(), i64::MIN);
    assert!(third.lt(half));
    assert!(!half.lt(half));
    assert!(half.gt(third));
    assert_eq!(div_toward_zero(-7, 2), -3);
    assert_eq!(div_toward_zero(7, 2), 3);
    assert_eq!(saturate(i128::MAX), i64::MAX);
    assert_eq!(saturate(i128::MIN), i64::MIN);
    assert_eq!(saturate(-5), -5);
}
