use denarii::rat::Rat;

#[test]
fn construction_reduces() {
    let x = Rat::new(6, 4);
    assert_eq!(x.numerator(), 3);
    assert_eq!(x.denominator(), 2);
    let y = Rat::new(-6, 4);
    assert_eq!(y.numerator(), -3);
    assert_eq!(y.denominator(), 2);
    let z = Rat::new(0, 17);
    assert_eq!(z.numerator(), 0);
    assert_eq!(z.denominator(), 1);
}

#[test]
fn arithmetic_is_exact() {
    let a = Rat::new(1, 3);
    let b = Rat::new(1, 6);
    let s = a.checked_add(&b).unwrap();
    assert_eq!((s.numerator(), s.denominator()), (1, 2));
    let d = a.checked_sub(&b).unwrap();
    assert_eq!((d.numerator(), d.denominator()), (1, 6));
    let p = a.checked_mul(&b).unwrap();
    assert_eq!((p.numerator(), p.denominator()), (1, 18));
    let q = a.checked_div(&b).unwrap();
    assert_eq!((q.numerator(), q.denominator()), (2, 1));
}

#[test]
fn division_by_negative_keeps_denominator_positive() {
    let a = Rat::new(1, 2);
    let b = Rat::new(-3, 4);
    let q = a.checked_div(&b).unwrap();
    assert_eq!((q.numerator(), q.denominator()), (-2, 3));
}

#[test]
fn comparisons_follow_the_values() {
    let a = Rat::new(2, 3);
    let b = Rat::new(3, 4);
    assert!(a.lt(&b));
    assert!(a.le(&b));
    assert!(!b.le(&a));
    assert!(a.eq_val(&Rat::new(4, 6)));
    assert!(!a.eq_val(&b));
    assert!(a.is_pos());
    assert!(a.is_nonneg());
    assert!(Rat::zero().is_nonneg());
    assert!(!Rat::zero().is_pos());
    assert!(!Rat::new(-1, 2).is_nonneg());
}

#[test]
fn overflow_is_detected_not_wrapped() {
    // consecutive odd numbers are coprime, and their product does not fit
    let a = Rat::new(1, 3_100_000_001);
    let b = Rat::new(1, 3_100_000_003);
    assert!(a.checked_add(&b).is_none());
    assert!(a.checked_mul(&b).is_none());
}
