use rust_lib_aggs::decimal::{Decimal, MANT_LIMIT, MAX_SCALE};

fn dec(mantissa: i64, scale: u32) -> Decimal {
    Decimal::new(mantissa, scale).expect("scale in range")
}

#[test]
fn zero_is_additive_unit() {
    let a = dec(12345, 2);
    let z = Decimal::zero();
    let sum = a.add(z).expect("in range");
    assert!(sum.eq_val(a));
    let sum2 = z.add(a).expect("in range");
    assert!(sum2.eq_val(a));
    assert!(z.is_zero());
    assert!(!a.is_zero());
}

#[test]
fn addition_commutes_on_values() {
    let a = dec(15, 1);
    let b = dec(27, 0);
    let ab = a.add(b).expect("in range");
    let ba = b.add(a).expect("in range");
    assert_eq!(ab, ba);
    assert_eq!(ab.scale, 1);
    assert_eq!(ab.mantissa, 285);
}

#[test]
fn addition_associates_on_values() {
    let a = dec(1, 2);
    let b = dec(2, 1);
    let c = dec(3, 0);
    let l = a.add(b).unwrap().add(c).unwrap();
    let r = a.add(b.add(c).unwrap()).unwrap();
    assert_eq!(l, r);
    assert_eq!(l.mantissa, 321);
    assert_eq!(l.scale, 2);
}

#[test]
fn subtracting_self_is_zero() {
    let a = dec(-98765, 3);
    let d = a.sub(a).expect("in range");
    assert!(d.is_zero());
}

#[test]
fn multiplication_is_exact() {
    let a = dec(25, 1);
    let b = dec(4, 0);
    let p = a.mul(b).expect("in range");
    assert_eq!(p.mantissa, 100);
    assert_eq!(p.scale, 1);
    assert!(p.eq_val(dec(10, 0)));
}

#[test]
fn multiplication_associates_on_values() {
    let a = dec(2, 0);
    let b = dec(30, 1);
    let c = dec(400, 2);
    let l = a.mul(b).unwrap().mul(c).unwrap();
    let r = a.mul(b.mul(c).unwrap()).unwrap();
    assert_eq!(l, r);
    assert_eq!(l.mantissa, 2 * 30 * 400);
    assert_eq!(l.scale, 3);
}

#[test]
fn value_equality_crosses_scales() {
    let a = dec(1, 0);
    let b = dec(10, 1);
    let c = dec(1000, 3);
    assert!(a.eq_val(b));
    assert!(b.eq_val(c));
    assert_ne!(a, b);
    assert!(!a.lt(b));
    assert!(a.le(b));
}

#[test]
fn ordering_follows_values() {
    let a = dec(99, 1);
    let b = dec(10, 0);
    assert!(a.lt(b));
    assert!(!b.lt(a));
    let n = dec(-1, 0);
    assert!(n.lt(Decimal::zero()));
}

#[test]
fn negation_flips_sign() {
    let a = dec(42, 1);
    let n = a.neg();
    assert!(a.add(n).expect("in range").is_zero());
}

#[test]
fn new_rejects_only_oversized_scales() {
    assert!(Decimal::new(1, MAX_SCALE).is_some());
    assert!(Decimal::new(1, MAX_SCALE + 1).is_none());
}

#[test]
fn addition_overflows_to_none() {
    let big = Decimal { mantissa: MANT_LIMIT, scale: 0 };
    assert!(big.add(big).is_none());
    assert!(big.add(big.neg()).expect("cancels").is_zero());
}

#[test]
fn multiplication_overflows_to_none() {
    let big = Decimal { mantissa: MANT_LIMIT, scale: 0 };
    let two = dec(2, 0);
    assert!(big.mul(two).is_none());
    // scale overflow: 10 + 9 > MAX_SCALE
    let a = dec(1, 10);
    let b = dec(1, 9);
    assert!(a.mul(b).is_none());
}

#[test]
fn sum_folds_exactly() {
    let xs = vec![dec(1, 0), dec(25, 1), dec(5, 1)];
    let s = rust_lib_aggs::decimal::sum(&xs).expect("in range");
    assert!(s.eq_val(dec(40, 1)));
    let empty: Vec<Decimal> = Vec::new();
    assert!(rust_lib_aggs::decimal::sum(&empty).expect("zero").is_zero());
}

#[test]
fn division_truncates_at_requested_scale() {
    // VWAP of scenario two: 530 / 5 = 106
    let q = dec(530, 0).div_floor(dec(5, 0), 0).expect("in range");
    assert_eq!(q.mantissa, 106);
    assert_eq!(q.scale, 0);
    // 1 / 2 at one fraction digit = 0.5
    let h = dec(1, 0).div_floor(dec(2, 0), 1).expect("in range");
    assert_eq!(h.mantissa, 5);
    assert_eq!(h.scale, 1);
    // 1 / 3 truncates toward zero
    let t = dec(1, 0).div_floor(dec(3, 0), 2).expect("in range");
    assert_eq!(t.mantissa, 33);
    assert_eq!(t.scale, 2);
}
