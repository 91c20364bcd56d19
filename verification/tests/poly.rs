use hachi::arithmetic::field::{Fq, Fq2, Fq4};
use hachi::arithmetic::poly::Poly;
use hachi::arithmetic::utils::{mul_int_field, powers};

#[test]
fn poly_test_eval() {
    let poly = [3u64, 1, 5, 3432, 4313, 8761, 2, 535430].as_slice();

    let alpha = Fq4::new(
        Fq2::new(Fq::from_i64(918273), Fq::from_i64(-4421)),
        Fq2::new(Fq::from_i64(55), Fq::from_i64(3000000000)),
    );

    let mut pows: Vec<Fq4> = Vec::new();
    let mut expected = Fq4::zero();
    let mut pow = Fq4::one();

    for i in 0..8 {
        pows.push(pow);
        expected = expected.plus(mul_int_field(poly[i as usize], pow));
        pow = pow.times(alpha);
    }

    let actual = poly.eval(&pows);

    assert_eq!(expected, actual);
    assert_eq!(pows, powers(alpha, 8));
}

#[test]
fn test_cyclotomic_div() {
    // 3 + x + 5x^2 + 3432x^3 + 4313x^4 + 8761x^5 + 2x^6 + 535430x^7
    let poly = [3u64, 1, 5, 3432, 4313, 8761, 2, 535430].as_slice();

    let q = (1i64 << 32) - 43221;

    // expected division
    let expected_quo = [4313, 8761, 2, 535430].as_slice();
    let expected_rem = [4294919765, 4294915315, 3, 4294392077].as_slice();

    // actual division
    let mut actual_quo = [0u64; 4];
    let mut actual_rem = [0u64; 4];

    poly.cyclotomic_div(q as u64, &mut actual_quo, &mut actual_rem);

    assert_eq!(expected_quo, actual_quo);
    assert_eq!(expected_rem, actual_rem);
}

#[test]
fn test_eval_at_one_sums_coefficients() {
    // at alpha = 1 the evaluation is the sum of the coefficients modulo q
    let poly = [4294967196u64, 2, 3].as_slice();
    let ones = vec![Fq4::one(); 3];
    let expected = Fq4::new(Fq2::new(Fq::from_i64(4), Fq::zero()), Fq2::zero());
    assert_eq!(expected, poly.eval(&ones));
}
