use hachi::arithmetic::field::{Fq, Fq2, Fq4};

#[test]
fn test_fq() {
    let a = Fq::from_i64(10);
    let b = Fq::from_i64(30);

    assert_eq!(Fq::from_i64(40), a.plus(b));
    assert_eq!(Fq::from_i64(300), a.times(b));
}

#[test]
fn test_fq2() {
    let a = Fq2::new(Fq::from_i64(10), Fq::from_i64(50));
    let b = Fq2::new(Fq::from_i64(30), Fq::from_i64(-8));

    assert_eq!(Fq2::new(Fq::from_i64(40), Fq::from_i64(42)), a.plus(b));
    assert_eq!(Fq2::new(Fq::from_i64(3212570907i64), Fq::from_i64(1420)), a.times(b));
}

#[test]
fn test_fq4() {
    let a = Fq2::new(Fq::from_i64(10), Fq::from_i64(50));
    let b = Fq2::new(Fq::from_i64(30), Fq::from_i64(-8));

    let c = Fq4::new(a, b);
    let d = Fq4::new(b, a);

    let sum = Fq4::new(
        Fq2::new(Fq::from_i64(40), Fq::from_i64(42)),
        Fq2::new(Fq::from_i64(40), Fq::from_i64(42)),
    );

    let prod = Fq4::new(
        Fq2::new(Fq::from_i64(612628006), Fq::from_i64(3212572327i64)),
        Fq2::new(Fq::from_i64(3931686104i64), Fq::from_i64(520)),
    );

    assert_eq!(sum, c.plus(d));
    assert_eq!(prod, c.times(d));
}

#[test]
fn test_fq_inverse_and_negation() {
    let a = Fq::from_i64(12345);
    let inv = a.inverse().unwrap();
    assert_eq!(Fq::one(), a.times(inv));
    assert_eq!(None, Fq::zero().inverse());
    assert_eq!(Fq::zero(), a.plus(a.negate()));
    assert_eq!(Fq::from_i64(-1), Fq::from_u64(4294967196));
    assert_eq!(Fq::from_u64(4294967197), Fq::zero());
}

#[test]
fn test_fq4_identities() {
    let a = Fq4::new(
        Fq2::new(Fq::from_i64(7), Fq::from_i64(-3)),
        Fq2::new(Fq::from_i64(11), Fq::from_i64(5)),
    );
    assert_eq!(a, a.times(Fq4::one()));
    assert_eq!(Fq4::zero(), a.times(Fq4::zero()));
    assert_eq!(Fq4::zero(), a.minus(a));
    assert_eq!(Fq4::zero(), a.plus(a.negate()));
}
