use limit_order_book::decimal::MANTISSA_LIMIT;
use limit_order_book::Decimal;

fn outside(d: &Decimal) -> rust_decimal::Decimal {
    rust_decimal::Decimal::from_i128_with_scale(d.mantissa(), d.scale())
}

#[test]
fn new_keeps_mantissa_and_scale() {
    let d = Decimal::new(12345, 2);
    assert_eq!(d.mantissa(), 12345);
    assert_eq!(d.scale(), 2);
    assert_eq!(outside(&d), rust_decimal::Decimal::new(12345, 2));
}

#[test]
fn zero_is_zero() {
    let z = Decimal::zero();
    assert!(z.is_zero());
    assert!(!z.is_positive());
    assert_eq!(z, Decimal::new(0, 5));
}

#[test]
fn from_parts_accepts_96_bits_and_28_digits() {
    let d = Decimal::from_parts(MANTISSA_LIMIT - 1, 28).unwrap();
    assert_eq!(d.mantissa(), MANTISSA_LIMIT - 1);
    assert_eq!(d.scale(), 28);
    assert!(Decimal::from_parts(-(MANTISSA_LIMIT - 1), 0).is_some());
}

#[test]
fn from_parts_refuses_what_does_not_fit() {
    assert!(Decimal::from_parts(MANTISSA_LIMIT, 0).is_none());
    assert!(Decimal::from_parts(-MANTISSA_LIMIT, 0).is_none());
    assert!(Decimal::from_parts(1, 29).is_none());
}

#[test]
fn equality_is_numerical() {
    assert_eq!(Decimal::new(10, 1), Decimal::new(1, 0));
    assert_eq!(Decimal::new(100, 2), Decimal::new(1000, 3));
    assert_ne!(Decimal::new(10, 1), Decimal::new(11, 1));
    assert_ne!(Decimal::new(1, 0), Decimal::new(-1, 0));
}

#[test]
fn order_is_numerical() {
    let half = Decimal::new(5, 1);
    let third = Decimal::new(33, 2);
    assert!(third.lt(&half));
    assert!(!half.lt(&third));
    assert!(!half.lt(&half));
    assert!(half.le(&half));
    assert!(third.le(&half));
    assert!(!half.le(&third));
    assert!(Decimal::new(-1, 0).lt(&Decimal::new(1, 3)));
}

#[test]
fn sign_tests() {
    assert!(Decimal::new(1, 28).is_positive());
    assert!(!Decimal::new(-1, 28).is_positive());
    assert!(!Decimal::new(-1, 28).is_zero());
    assert!(Decimal::new(0, 28).is_zero());
}

#[test]
fn checked_add_aligns_scales() {
    let a = Decimal::new(15, 1);
    let b = Decimal::new(225, 2);
    let c = a.checked_add(&b).unwrap();
    assert_eq!(c, Decimal::new(375, 2));
    assert_ne!(c, a);
    assert_ne!(c, b);
    assert_eq!(outside(&c), outside(&a) + outside(&b));
}

#[test]
fn checked_sub_aligns_scales() {
    let a = Decimal::new(10, 0);
    let b = Decimal::new(25, 2);
    let c = a.checked_sub(&b).unwrap();
    assert_eq!(c, Decimal::new(975, 2));
    assert_ne!(c, a);
    assert_eq!(outside(&c), outside(&a) - outside(&b));
    let d = b.checked_sub(&a).unwrap();
    assert_eq!(d, Decimal::new(-975, 2));
}

#[test]
fn checked_mul_adds_scales() {
    let a = Decimal::new(15, 1);
    let b = Decimal::new(25, 1);
    let c = a.checked_mul(&b).unwrap();
    assert_eq!(c, Decimal::new(375, 2));
    assert_ne!(c, a);
    assert_eq!(outside(&c), outside(&a) * outside(&b));
    let z = a.checked_mul(&Decimal::zero()).unwrap();
    assert!(z.is_zero());
}

#[test]
fn checked_add_refuses_a_mantissa_beyond_96_bits() {
    let top = Decimal::from_parts(MANTISSA_LIMIT - 1, 0).unwrap();
    let one = Decimal::new(1, 0);
    assert!(top.checked_add(&one).is_none());
    assert!(top.checked_sub(&Decimal::new(-1, 0)).is_none());
    assert_eq!(top.checked_sub(&one).unwrap().mantissa(), MANTISSA_LIMIT - 2);
}

#[test]
fn checked_add_refuses_what_would_be_rounded() {
    let top = Decimal::from_parts(MANTISSA_LIMIT - 1, 0).unwrap();
    let half = Decimal::new(5, 1);
    assert!(top.checked_add(&half).is_none());
    assert!(top.checked_sub(&half).is_none());
}

#[test]
fn checked_mul_refuses_what_does_not_fit() {
    let big = Decimal::from_parts(MANTISSA_LIMIT - 1, 0).unwrap();
    assert!(big.checked_mul(&Decimal::new(2, 0)).is_none());
    let fine = Decimal::new(1, 20);
    assert!(fine.checked_mul(&Decimal::new(1, 9)).is_none());
    assert_eq!(fine.checked_mul(&Decimal::new(1, 8)).unwrap().scale(), 28);
}

#[test]
fn sum_is_written_with_the_larger_scale() {
    let c = Decimal::new(15, 1).checked_add(&Decimal::new(225, 2)).unwrap();
    assert_eq!(c.mantissa(), 375);
    assert_eq!(c.scale(), 2);
    let d = Decimal::new(100, 2).checked_sub(&Decimal::new(1, 0)).unwrap();
    assert_eq!(d.mantissa(), 0);
    assert_eq!(d.scale(), 2);
}

#[test]
fn product_is_written_with_both_scales() {
    let c = Decimal::new(15, 1).checked_mul(&Decimal::new(20, 2)).unwrap();
    assert_eq!(c.mantissa(), 300);
    assert_eq!(c.scale(), 3);
}

#[test]
fn zero_leaves_the_other_operand_as_it_is() {
    let zero = Decimal::new(0, 20);
    let x = Decimal::from_parts(MANTISSA_LIMIT - 1, 0).unwrap();
    let a = zero.checked_add(&x).unwrap();
    assert_eq!(a.mantissa(), MANTISSA_LIMIT - 1);
    assert_eq!(a.scale(), 0);
    let b = x.checked_add(&zero).unwrap();
    assert_eq!(b.mantissa(), MANTISSA_LIMIT - 1);
    assert_eq!(b.scale(), 0);
    let c = x.checked_sub(&zero).unwrap();
    assert_eq!(c.mantissa(), MANTISSA_LIMIT - 1);
    assert_eq!(c.scale(), 0);
    let d = zero.checked_sub(&x).unwrap();
    assert_eq!(d.mantissa(), -(MANTISSA_LIMIT - 1));
    assert_eq!(d.scale(), 0);
    let e = zero.checked_mul(&Decimal::new(7, 20)).unwrap();
    assert_eq!(e.mantissa(), 0);
    assert_eq!(e.scale(), 0);
}

#[test]
fn half_is_one_half() {
    let h = Decimal::half();
    assert_eq!(h, Decimal::new(5, 1));
    assert_eq!(h.checked_add(&h).unwrap(), Decimal::new(1, 0));
}
