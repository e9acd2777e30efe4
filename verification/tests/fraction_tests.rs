use abnormal_lp::abnormal_fraction::{AbnormalFraction, ExtractError};
use abnormal_lp::rational::Comparison;

fn frac(n: usize, d: usize) -> AbnormalFraction {
    AbnormalFraction::from_pair(n, d)
}

fn neg_frac(n: usize, d: usize) -> AbnormalFraction {
    AbnormalFraction::zero().sub(&AbnormalFraction::from_pair(n, d))
}

fn same_value(a: &AbnormalFraction, b: &AbnormalFraction) -> bool {
    a.partial_cmp(b) == Some(Comparison::Equal)
}

#[test]
fn abnormal_fraction() {
    assert!(AbnormalFraction::zero().is_zero());
    assert!(!AbnormalFraction::infinity().is_zero());
    assert!(AbnormalFraction::infinity().is_infinite());
    assert!(!AbnormalFraction::infinity().is_finite());
}

#[test]
fn finite_addition_is_exact() {
    let a = frac(1, 2);
    let b = frac(1, 3);
    assert!(same_value(&a.add(&b), &frac(5, 6)));
    let c = neg_frac(1, 6);
    assert!(same_value(&a.add(&c), &frac(1, 3)));
}

#[test]
fn subtract_self_is_zero() {
    let a = frac(22, 7);
    assert!(a.sub(&a).is_zero());
    let b = neg_frac(5, 3);
    assert!(b.sub(&b).is_zero());
}

#[test]
fn multiply_by_one_is_identity() {
    let a = frac(9, 4);
    assert!(same_value(&a.mul(&AbnormalFraction::one()), &a));
    assert!(same_value(&a.mul(&frac(2, 3)), &frac(3, 2)));
}

#[test]
fn divide_by_self_is_one() {
    let a = frac(13, 5);
    assert!(a.div(&a).is_one());
    let b = neg_frac(4, 9);
    assert!(b.div(&b).is_one());
    assert!(same_value(&frac(1, 2).div(&frac(1, 4)), &frac(2, 1)));
}

#[test]
fn infinity_arithmetic_table() {
    let inf = AbnormalFraction::infinity();
    let ninf = AbnormalFraction::neg_infinity();
    let one = AbnormalFraction::one();
    let zero = AbnormalFraction::zero();

    assert!(matches!(inf.add(&ninf), AbnormalFraction::NaN));
    assert!(matches!(ninf.add(&inf), AbnormalFraction::NaN));
    assert!(matches!(inf.add(&inf), AbnormalFraction::Infinite));
    assert!(matches!(ninf.add(&ninf), AbnormalFraction::NegInfinite));
    assert!(matches!(one.add(&inf), AbnormalFraction::Infinite));
    assert!(matches!(one.add(&ninf), AbnormalFraction::NegInfinite));

    assert!(matches!(inf.sub(&inf), AbnormalFraction::NaN));
    assert!(matches!(ninf.sub(&ninf), AbnormalFraction::NaN));
    assert!(matches!(inf.sub(&ninf), AbnormalFraction::Infinite));
    assert!(matches!(one.sub(&inf), AbnormalFraction::NegInfinite));

    assert!(matches!(zero.mul(&inf), AbnormalFraction::NaN));
    assert!(matches!(inf.mul(&zero), AbnormalFraction::NaN));
    assert!(matches!(one.mul(&inf), AbnormalFraction::Infinite));
    assert!(matches!(neg_frac(1, 2).mul(&inf), AbnormalFraction::NegInfinite));
    assert!(matches!(inf.mul(&inf), AbnormalFraction::Infinite));
    assert!(matches!(inf.mul(&ninf), AbnormalFraction::NegInfinite));
    assert!(matches!(ninf.mul(&ninf), AbnormalFraction::Infinite));

    assert!(one.div(&inf).is_zero());
    assert!(one.div(&ninf).is_zero());
    assert!(matches!(one.div(&zero), AbnormalFraction::NaN));
    assert!(matches!(inf.div(&inf), AbnormalFraction::NaN));
    assert!(matches!(inf.div(&one), AbnormalFraction::Infinite));
    assert!(matches!(inf.div(&zero), AbnormalFraction::NaN));

    let nan = AbnormalFraction::NaN;
    assert!(matches!(nan.add(&one), AbnormalFraction::NaN));
    assert!(matches!(one.add(&nan), AbnormalFraction::NaN));
    assert!(matches!(nan.mul(&inf), AbnormalFraction::NaN));
}

#[test]
fn comparison_conventions() {
    let inf = AbnormalFraction::infinity();
    let ninf = AbnormalFraction::neg_infinity();
    let nan = AbnormalFraction::NaN;
    let a = frac(3, 2);

    assert_eq!(nan.partial_cmp(&nan), None);
    assert_eq!(nan.partial_cmp(&a), None);
    assert_eq!(a.partial_cmp(&nan), None);
    assert_eq!(inf.partial_cmp(&a), Some(Comparison::Greater));
    assert_eq!(a.partial_cmp(&inf), Some(Comparison::Less));
    assert_eq!(ninf.partial_cmp(&a), Some(Comparison::Less));
    assert_eq!(a.partial_cmp(&ninf), Some(Comparison::Greater));
    assert_eq!(inf.partial_cmp(&ninf), Some(Comparison::Greater));
    assert_eq!(inf.partial_cmp(&inf), None);
    assert_eq!(ninf.partial_cmp(&ninf), None);
    assert_eq!(frac(1, 3).partial_cmp(&frac(1, 2)), Some(Comparison::Less));
    assert_eq!(frac(2, 4).partial_cmp(&frac(1, 2)), Some(Comparison::Equal));
    assert_eq!(frac(2, 3).partial_cmp(&frac(1, 2)), Some(Comparison::Greater));
}

#[test]
fn floor_and_ceil() {
    assert!(same_value(&frac(7, 2).floor(), &frac(3, 1)));
    assert!(same_value(&frac(7, 2).ceil(), &frac(4, 1)));
    assert!(same_value(&neg_frac(7, 2).floor(), &neg_frac(4, 1)));
    assert!(same_value(&neg_frac(7, 2).ceil(), &neg_frac(3, 1)));
    assert!(same_value(&frac(6, 3).floor(), &frac(2, 1)));
    assert!(same_value(&frac(6, 3).ceil(), &frac(2, 1)));
    assert!(matches!(AbnormalFraction::infinity().floor(), AbnormalFraction::Infinite));
    assert!(matches!(AbnormalFraction::NaN.ceil(), AbnormalFraction::NaN));
}

#[test]
fn negate_and_abs() {
    let a = frac(5, 8);
    assert!(same_value(&a.neg().neg(), &a));
    assert!(same_value(&neg_frac(5, 8).abs(), &frac(5, 8)));
    assert!(same_value(&frac(5, 8).abs(), &frac(5, 8)));
    assert!(matches!(AbnormalFraction::infinity().neg(), AbnormalFraction::NegInfinite));
    assert!(matches!(AbnormalFraction::neg_infinity().abs(), AbnormalFraction::Infinite));
}

#[test]
fn sign_predicates() {
    assert!(frac(1, 9).is_positive());
    assert!(!frac(1, 9).is_negative());
    assert!(neg_frac(1, 9).is_negative());
    assert!(AbnormalFraction::infinity().is_positive());
    assert!(AbnormalFraction::neg_infinity().is_negative());
    assert!(!AbnormalFraction::NaN.is_positive());
    assert!(!AbnormalFraction::NaN.is_negative());
    assert!(AbnormalFraction::NaN.is_not_negative());
    assert!(AbnormalFraction::NaN.is_not_positive());
    assert!(AbnormalFraction::zero().is_not_negative());
    assert!(AbnormalFraction::zero().is_not_positive());
    assert!(AbnormalFraction::neg_infinity().is_neg_infinite());
    assert!(!AbnormalFraction::infinity().is_neg_infinite());
}

#[test]
fn assign_operations() {
    let mut a = frac(1, 2);
    a.add_assign(&frac(1, 3));
    assert!(same_value(&a, &frac(5, 6)));
    a.sub_assign(&frac(1, 3));
    assert!(same_value(&a, &frac(1, 2)));
    let mut b = AbnormalFraction::infinity();
    b.add_assign(&AbnormalFraction::neg_infinity());
    assert!(matches!(b, AbnormalFraction::NaN));
}

#[test]
fn sum_of_values() {
    let values = vec![frac(1, 2), frac(1, 3), frac(1, 6)];
    assert!(AbnormalFraction::sum(&values).is_one());
    let empty: Vec<AbnormalFraction> = vec![];
    assert!(AbnormalFraction::sum(&empty).is_zero());
    let with_inf = vec![frac(1, 2), AbnormalFraction::infinity()];
    assert!(matches!(AbnormalFraction::sum(&with_inf), AbnormalFraction::Infinite));
}

#[test]
fn exactness_and_extraction() {
    assert!(frac(3, 7).is_exact());
    assert!(AbnormalFraction::infinity().is_exact());
    assert!(frac(3, 7).extract_exact().is_ok());
    assert_eq!(
        AbnormalFraction::infinity().extract_exact(),
        Err(ExtractError::Unavailable)
    );
    assert_eq!(AbnormalFraction::NaN.to_exact(), Err(ExtractError::Unavailable));
    let back = frac(3, 7).to_exact().unwrap();
    assert!(same_value(&AbnormalFraction::Normal(back), &frac(3, 7)));
}

#[test]
fn construction_and_default() {
    assert!(AbnormalFraction::default().is_zero());
    assert!(same_value(&AbnormalFraction::from_usize(4), &frac(8, 2)));
    assert!(AbnormalFraction::from_usize(0).is_zero());
    assert!(frac(5, 5).is_one());
    assert!(!frac(5, 4).is_one());
}
