use hachi::arithmetic::poly::Poly;
use hachi::arithmetic::poly_chal::PChal;
use hachi::arithmetic::poly_mat::PMat;
use hachi::arithmetic::poly_mat_ntt::PMatNtt;
use hachi::arithmetic::poly_vec::PVec;
use hachi::arithmetic::poly_vec_ntt::PVecNtt;
use hachi::arithmetic::ring::Ring;
use hachi::arithmetic::rng::Prg;
use hachi::arithmetic::utils::{rand_int, Logarithm};
use hachi::hachi::setup::Q;

/// A fixed-seed generator for the random inputs of these tests.
fn rng() -> Prg {
    Prg::from_seed([7u8; 32])
}

const P0: u64 = 0b0011_1111_0101_1010_0000_0000_0000_0001;
const P1: u64 = 0b0011_1111_0101_1101_0000_0000_0000_0001;
const P2: u64 = 0b0011_1111_0111_0110_0000_0000_0000_0001;

const P3: u64 = 0b0011_1111_1000_0010_0000_0000_0000_0001;

const P4: u64 = 0b0011_1111_1010_1100_0000_0000_0000_0001;

/// add mod q
fn add_64(a: u64, b: u64, q: u64) -> u64 {
    ((a % q) + (b % q)) % q
}

/// add mod q
fn add_32(a: u32, b: u32, q: u64) -> u32 {
    add_64(a as u64, b as u64, q) as u32
}

/// subtract mod q
fn sub_64(a: u64, b: u64, q: u64) -> u64 {
    let a = a % q;
    let b = b % q;

    if a >= b {
        a.wrapping_sub(b)
    }
    else {
        (a + q).wrapping_sub(b)
    }
}

/// subtract mod q
fn sub_32(a: u32, b: u32, q: u64) -> u32 {
    sub_64(a as u64, b as u64, q) as u32
}

/// multiply mod q
fn mul_64(a: u64, b: u64, q: u64) -> u64 {
    let a = (a % q) as u128;
    let b = (b % q) as u128;
    ((a * b) % q as u128) as u64
}

/// multiply mod q
fn mul_32(a: u32, b: u32, q: u64) -> u32 {
    mul_64(a as u64, b as u64, q) as u32
}

/// schoolbook polynomial multiplication
fn poly_mul(p1: &[u64], p2: &[u64], p_out: &mut [u64], q: u64) {
    let d = p1.len();
    assert_eq!(d, p2.len());
    assert_eq!(2*d, p_out.len());

    for i in 0..d {
        for j in 0..d {
            p_out[i + j] = add_64(p_out[i + j], mul_64(p1[i], p2[j], q), q);
        }
    }
}

/// schoolbook polynomial multiplication
fn poly_mul_cyclotomic(p1: &[u64], p2: &[u64], p_out: &mut [u64], q: u64) {
    let d = p1.len();
    assert_eq!(d, p2.len());
    assert_eq!(d, p_out.len());

    let mut prod = vec![0; 2 * d];

    for i in 0..d {
        for j in 0..d {
            prod[i + j] = add_64(prod[i + j], mul_64(p1[i], p2[j], q), q);
        }
    }

    for i in 0..d {
        p_out[i] = sub_64(prod[i], prod[d + i], q);
    }
}

#[test]
fn test_test_methods() {
    let a = Q - 10224;
    let b = 10224;
    let c = 24243;

    assert_eq!(0, add_64(a, b, Q));
    assert_eq!(b + c, add_64(b, c, Q));
    assert_eq!(c.wrapping_sub(b), add_64(a, c ,Q));

    assert_eq!(a, sub_64(0, b, Q));
    assert_eq!(c - b, sub_64(c, b, Q));
    assert_eq!(a.wrapping_sub(c), sub_64(a, c, Q));
    assert_eq!((b + Q).wrapping_sub(c), sub_64(b, c, Q));
    
    assert_eq!((a * b) % Q, mul_64(a, b, Q));
    assert_eq!(b * c, mul_64(b, c, Q));        
    assert_eq!(((a as u128 * a as u128) % Q as u128) as u64, mul_64(a, a, Q));    

    let a = a as u32;
    let b = b as u32;
    let c = c as u32;

    assert_eq!(0, add_32(a, b, Q));
    assert_eq!(b + c, add_32(b, c, Q));
    assert_eq!(c.wrapping_sub(b), add_32(a, c, Q));

    assert_eq!(a, sub_32(0, b, Q));
    assert_eq!(c - b, sub_32(c, b, Q));
    assert_eq!(a.wrapping_sub(c), sub_32(a, c, Q));
    assert_eq!((Q as u32).wrapping_sub(c.wrapping_sub(b)), sub_32(b, c, Q));

    assert_eq!(((a  as u64 * b as u64) % Q) as u32, mul_32(a, b, Q));
    assert_eq!(b * c, mul_32(b, c, Q));        
    assert_eq!(((a as u128 * a as u128) % Q as u128) as u32, mul_32(a, a, Q));

    let p1_coeffs: [i64; 4] = [-1, -2, 5432, 43];
    let p2_coeffs: [i64; 4] = [6, 602, -5, 4];
    let expected_coeffs: [i64; 8] = [-6, -614, 31393, 3270328, -1282, 21513, 172, 0];

    let mut p1 = [0u64; 4];
    let mut p2 = [0u64; 4];
    let mut expected = [0u64; 8];

    for i in 0..4 {
        if p1_coeffs[i] < 0 {
            p1[i] = (p1_coeffs[i] + Q as i64) as u64;
        }
        else {
            p1[i] = p1_coeffs[i] as u64;
        }

        if p2_coeffs[i] < 0 {
            p2[i] = (p2_coeffs[i] + Q as i64) as u64;
        }
        else {
            p2[i] = p2_coeffs[i] as u64;
        }
    }

    for i in 0..8 {
        if expected_coeffs[i] < 0 {
            expected[i] = (expected_coeffs[i] + Q as i64) as u64;
        }
        else {
            expected[i] = expected_coeffs[i] as u64;
        }
    }

    let mut actual = [0u64; 8];
    poly_mul(&p1, &p2, &mut actual, Q);
    assert_eq!(expected, actual);

    let mut expected_cyclotomic = [0u64; 4];
    let mut _quo = [0u64; 4];
    expected.as_slice().cyclotomic_div(Q, &mut _quo, &mut expected_cyclotomic);

    let mut actual = [0u64; 4];
    poly_mul_cyclotomic(&p1, &p2, &mut actual, Q);
    assert_eq!(expected_cyclotomic, actual);
}

#[test]
fn ring_test_fwd_inv() {
    let d = 512;
    let ring = Ring::init(Q, d, true);

    // do forward NTT
    let p = PVec::rand(1, d, Q, [1; 32]);
    let mut ntt = PVecNtt::zero(1, d);
    let (a0, a1, a2, a3, a4) = ntt.mut_element(0);
    ring._fwd(p.element(0), a0, a1, a2, a3, a4);
    

    // do inverse NTT
    let mut p_out = PVec::zero(1, d);
    ring._inv(p_out.mut_element(0), a0, a1, a2, a3, a4);

    // check we get the same thing back
    assert_eq!(p.element(0), p_out.element(0));
}

#[test]
fn ring_test_fwd_sum_inv() {
    let d = 512;
    let ring = Ring::init(Q, d, true);

    // generate many polynomials and sum them in coefficient form
    let p_vec = PVec::rand(1024, d, Q, [1; 32]);
    let mut sum_actual = vec![0u64; d];

    for i in 0..p_vec.length() {
        let p = p_vec.element(i);

        for j in 0..d {
            sum_actual[j] = add_64(sum_actual[j], p[j], Q);
        }
    }

    // sum them over NTT form
    let mut p_vec_ntt = PVecNtt::zero(1024, d);
    let mut s0 = vec![0u32; d];
    let mut s1 = vec![0u32; d];
    let mut s2 = vec![0u32; d];
    let mut s3 = vec![0u32; d];
    let mut s4 = vec![0u32; d];
    
    for i in 0..p_vec.length() {
        let p = p_vec.element(i);

        // do forward NTT
        let (a0, a1, a2, a3, a4) = p_vec_ntt.mut_element(i);
        ring._fwd(p, a0, a1, a2, a3, a4);

        // sum over NTT domains
        for j in 0..d {
            s0[j] = add_32(s0[j], a0[j], P0);
            s1[j] = add_32(s1[j], a1[j], P1);
            s2[j] = add_32(s2[j], a2[j], P2);
            s3[j] = add_32(s3[j], a3[j], P3);
            s4[j] = add_32(s4[j], a4[j], P4);
        }
    }

    // do inverse NTT on sum
    let mut sum_actual = vec![0u64; d];
    ring._inv(&mut sum_actual, &mut s0, &mut s1, &mut s2, &mut s3, &mut s4);

    // check we get the same thing back
    assert_eq!(sum_actual, sum_actual);
}

#[test]
fn test_fwd_mul_inv() {
    // Note: multiplication in our ring is only guaranteed if each coefficient of the product does not exceed
    // 63 bits.
    let d = 32;
    let ring = Ring::init(Q, d, true);

    // generate arbitrary element and small element (e.g. as in commitment matrix * decomposed witness)
    let p_vec_1 = PVec::rand(1, d, Q, [1; 32]);
    let p_vec_2 = PVec::rand(1, d, 16, [1; 32]);

    let mut mul_expected = vec![0u64; d];
    poly_mul_cyclotomic(p_vec_1.element(0), p_vec_2.element(0), &mut mul_expected, Q);

    // do forward NTT on both elements
    let mut a0 = vec![0u32; d];
    let mut a1 = vec![0u32; d];
    let mut a2 = vec![0u32; d];
    let mut a3 = vec![0u32; d];
    let mut a4 = vec![0u32; d];
    ring._fwd(p_vec_1.element(0), &mut a0, &mut a1, &mut a2, &mut a3, &mut a4);

    let mut b0 = vec![0u32; d];
    let mut b1 = vec![0u32; d];
    let mut b2 = vec![0u32; d];
    let mut b3 = vec![0u32; d];
    let mut b4 = vec![0u32; d];       
    ring._fwd(p_vec_2.element(0), &mut b0, &mut b1, &mut b2, &mut b3, &mut b4);

    // pointwise multiply
    let mut m0 = vec![0u32; d];
    let mut m1 = vec![0u32; d];
    let mut m2 = vec![0u32; d];
    let mut m3 = vec![0u32; d];
    let mut m4 = vec![0u32; d];

    for j in 0..d {
        m0[j] = mul_32(a0[j], b0[j], P0);
        m1[j] = mul_32(a1[j], b1[j], P1);
        m2[j] = mul_32(a2[j], b2[j], P2);
        m3[j] = mul_32(a3[j], b3[j], P3);
        m4[j] = mul_32(a4[j], b4[j], P4);
    }

    // do inverse NTT and pointwise product
    let mut mul_actual = vec![0u64; d];
    ring._inv(&mut mul_actual, &mut m0, &mut m1, &mut m2, &mut m3, &mut m4);

    assert_eq!(mul_expected, mul_actual);
}

#[test]
fn test_mul_acc() {
    let d = 32;
    let ring = Ring::init(Q, d, true);
    let length = 100;

    // generate some random NTT domain polynomials
    let mut rng = rng();
    let mut p_vec_ntt_1 = PVecNtt::zero(length, d);
    let mut p_vec_ntt_2 = PVecNtt::zero(length, d);

    for i in 0..length {
        let (a0, a1, a2, a3, a4) = p_vec_ntt_1.mut_element(i);
        let (b0, b1, b2, b3, b4) = p_vec_ntt_2.mut_element(i);

        for j in 0..d {
            a0[j] = rand_int(P4, P4.log(), &mut rng) as u32;
            a1[j] = rand_int(P4, P4.log(), &mut rng) as u32;
            a2[j] = rand_int(P4, P4.log(), &mut rng) as u32;
            a3[j] = rand_int(P4, P4.log(), &mut rng) as u32;
            a4[j] = rand_int(P4, P4.log(), &mut rng) as u32;

            b0[j] = rand_int(P4, P4.log(), &mut rng) as u32;
            b1[j] = rand_int(P4, P4.log(), &mut rng) as u32;
            b2[j] = rand_int(P4, P4.log(), &mut rng) as u32;
            b3[j] = rand_int(P4, P4.log(), &mut rng) as u32;
            b4[j] = rand_int(P4, P4.log(), &mut rng) as u32;
        }
    }

    // do pointwise product and sum
    let mut s0 = vec![0u32; d];
    let mut s1 = vec![0u32; d];
    let mut s2 = vec![0u32; d];
    let mut s3 = vec![0u32; d];
    let mut s4 = vec![0u32; d];

    let mut p0 = vec![0u32; d];
    let mut p1 = vec![0u32; d];
    let mut p2 = vec![0u32; d];
    let mut p3 = vec![0u32; d];
    let mut p4 = vec![0u32; d];

    for i in 0..p_vec_ntt_1.length() {
        let (a0, a1, a2, a3, a4) = p_vec_ntt_1.element(i);
        let (b0, b1, b2, b3, b4) = p_vec_ntt_2.element(i);

        // pointwise multiply and sum
        for j in 0..d {
            s0[j] = add_32(s0[j], mul_32(a0[j], b0[j], P0), P0);
            s1[j] = add_32(s1[j], mul_32(a1[j], b1[j], P1), P1);
            s2[j] = add_32(s2[j], mul_32(a2[j], b2[j], P2), P2);
            s3[j] = add_32(s3[j], mul_32(a3[j], b3[j], P3), P3);
            s4[j] = add_32(s4[j], mul_32(a4[j], b4[j], P4), P4);
        }

        // use method
        ring._mul_acc(
            a0, a1, a2, a3, a4, 
            b0, b1, b2, b3, b4, 
            &mut p0, &mut p1, &mut p2, &mut p3, &mut p4);
    }

    assert_eq!(s0, p0);
    assert_eq!(s1, p1);
    assert_eq!(s2, p2);
    assert_eq!(s3, p3);
    assert_eq!(s4, p4);
}



#[test]
fn test_int_mul_poly() {
    let d = 1024;
    let a = 42314u64;
    let p_vec = PVec::rand(1, d, Q, [1u8; 32]);
    let p = p_vec.element(0);

    // pad a to be a full polynomial
    let mut a_poly = vec![0u64; d];
    a_poly[0] = a;

    // schoolbook multiplication
    let mut expected = vec![0u64; d * 2];
    poly_mul(&a_poly, &p, &mut expected, Q);

    // int * mul
    let ring = Ring::init(Q, d, false);
    let mut actual = vec![0u64; d * 2];
    ring.int_mul_poly(a, &p, &mut actual);
    assert_eq!(expected, actual);

    // int * mul with cyclotomic recuction - should not change
    let ring = Ring::init(Q, d, true);
    let mut actual = vec![0u64; d];
    ring.int_mul_poly(a, &p, &mut actual);
    assert_eq!(expected[0..d], actual);
}

#[test]
fn test_chal_mul_poly_exact_cancellation() {
    // a -1 challenge coefficient subtracting a value equal to the accumulator must leave 0, not q
    let d = 32;
    let chal = PChal::from_entries(&[(0, false)]);
    let mut poly = vec![0u64; d];
    poly[0] = 5;
    let mut out = vec![0u64; 2 * d];
    out[0] = 5;

    let ring = Ring::init(Q, d, false);
    ring.chal_mul_poly(&chal, &poly, &mut out);

    assert_eq!(0, out[0]);
    assert!(out.iter().all(|&c| c < Q));
}

#[test]
fn test_chal_mul_poly() {
    let d = 32;
    let chal_vec = PChal::rand_vec(1, d, 16, [1u8; 32]);
    let p_vec = PVec::rand(1, d, Q, [1u8; 32]);
    let p2 = p_vec.element(0);

    // convert sparse poly into full poly
    let mut p1 = vec![0u64; d];

    for i in 0..chal_vec[0].k() {
        let (exp, sign) = chal_vec[0].get(i);
        
        if sign {
            p1[exp] = 1;
        }
        else {
            p1[exp] = Q.wrapping_sub(1); // -1 mod q;
        }
    }

    // schoolbook multiplication
    let mut expected = vec![0u64; d * 2];
    poly_mul(&p1, &p2, &mut expected, Q);

    // chal * mul
    let ring = Ring::init(Q, d, false);
    let mut actual = vec![0u64; d * 2];
    ring.chal_mul_poly(&chal_vec[0], &p2, &mut actual);

    assert_eq!(expected, actual);

    // schoolbook multiplication with cyclotomic reduction
    let mut expected = vec![0u64; d];
    poly_mul_cyclotomic(&p1, &p2, &mut expected, Q);

    // chal * mul with cyclotomic recuction
    let ring = Ring::init(Q, d, true);
    let mut actual = vec![0u64; d];
    ring.chal_mul_poly(&chal_vec[0], &p2, &mut actual);

    assert_eq!(expected, actual);
}

#[test]
fn test_chal_mul_small_poly() {
    let d = 32;
    let chal_vec = PChal::rand_vec(1, d, 16, [1u8; 32]);

    // sample a polynomial with coefficients at most 15
    let p_vec = PVec::rand(1, d, 16, [1u8; 32]);
    let p2 = p_vec.element(0);

    // convert sparse poly into full poly
    let mut p1 = vec![0u64; d];

    for i in 0..chal_vec[0].k() {
        let (exp, sign) = chal_vec[0].get(i);
        
        if sign {
            p1[exp] = 1;
        }
        else {
            p1[exp] = Q.wrapping_sub(1); // -1 mod q;
        }
    }

    // schoolbook multiplication
    let mut expected = vec![0u64; d * 2];
    poly_mul(&p1, &p2, &mut expected, Q);

    // adjust to balance the coefficients. I.e. coefficients in range q/2...q -> -q/2...0
    for i in 0..expected.len() {
        if expected[i] > (Q >> 1) {
            expected[i] = expected[i].wrapping_sub(Q);
        }
    }

    // chal * mul
    let ring = Ring::init(Q, d, false);
    let mut actual = vec![0u64; d * 2];
    ring.chal_mul_small_poly(&chal_vec[0], &p2, &mut actual);

    assert_eq!(expected, actual);

    // schoolbook multiplication with cyclotomic reduction
    let mut expected = vec![0u64; d];
    poly_mul_cyclotomic(&p1, &p2, &mut expected, Q);

    // adjust to balance the coefficients. I.e. coefficients in range q/2...q -> -q/2...0
    for i in 0..expected.len() {
        if expected[i] > (Q >> 1) {
            expected[i] = expected[i].wrapping_sub(Q);
        }
    }

    // chal * mul with cyclotomic recuction
    let ring = Ring::init(Q, d, true);
    let mut actual = vec![0u64; d];
    ring.chal_mul_small_poly(&chal_vec[0], &p2, &mut actual);

    assert_eq!(expected, actual);
}

#[test]
fn test_int_vec_mul_poly_vec() {
    let n = 1024;
    let d = 128;

    // create a vector of random integers
    let mut int_vec = vec![0u64; n];
    let mut rng = rng();

    for i in 0..n {
        int_vec[i] = rand_int(Q, Q.log(), &mut rng);
    }

    // sample a random poly vector
    let p_vec = PVec::rand(n, d, Q, [1; 32]);

    // perform inner product manually
    let mut prod_expected = vec![0u64; 2 * d];

    for i in 0..n {
        // pad the integer to be a full ring element
        let mut p1 = vec![0u64; d];
        p1[0] = int_vec[i];

        // get the next poly
        let p2 = p_vec.element(i);

        // multiply and add to inner product
        let mut prod = vec![0u64; 2 * d];
        poly_mul(&p1, p2, &mut prod, Q);

        for i in 0..d {
            prod_expected[i] = add_64(prod_expected[i], prod[i], Q);
        }
    }

    // perform inner product with non-cyclotomic ring
    let ring = Ring::init(Q, d, false);
    let mut prod_actual = PVec::zero(1, 2 * d);
    ring.int_vec_mul_poly_vec(&int_vec, &p_vec, &mut prod_actual, 0);
    assert_eq!(prod_expected, prod_actual.element(0));

    // perform inner product with cyclotomic ring
    let ring = Ring::init(Q, d, true);
    let mut prod_actual = PVec::zero(1, d);
    ring.int_vec_mul_poly_vec(&int_vec, &p_vec, &mut prod_actual, 0);
    assert_eq!(&prod_expected[0..d], prod_actual.element(0));

}

#[test]
fn test_chal_mul_poly_vec() {
    let n = 128;
    let d = 256;

    // sample a random challenge
    let chal = PChal::rand(d, 16, &mut rng());

    // convert sparse poly into full poly
    let mut p1 = vec![0u64; d];

    for i in 0..chal.k() {
        let (exp, sign) = chal.get(i);
        
        if sign {
            p1[exp] = 1;
        }
        else {
            p1[exp] = Q.wrapping_sub(1); // -1 mod q;
        }
    }
    
    // sample a random poly vec with small coefficients
    let p_vec = PVec::rand(n, d, 16, [1u8; 32]);
    
    // manually compute chal*vec
    let mut prod_expected = PVec::zero(n, 2 * d);

    for i in 0..n {
        let out = prod_expected.mut_element(i);
        poly_mul(&p1, p_vec.element(i), out, Q);

        // adjust to balance coefficients
        for i in 0..2 * d {
            if out[i] > (Q >> 1) {
                out[i] = out[i].wrapping_sub(Q);
            }
        }
    }

    // compute using ring
    let ring = Ring::init(Q, d, false);
    let mut prod_actual = PVec::zero(n, 2 * d);
    ring.chal_mul_poly_vec(&chal, &p_vec, &mut prod_actual, 0);

    assert_eq!(prod_expected.slice(), prod_actual.slice());
}

#[test]
fn test_chal_mul_poly_vec_cyclotomic() {
    let n = 128;
    let d = 256;

    // sample a random challenge
    let chal = PChal::rand(d, 16, &mut rng());

    // convert sparse poly into full poly
    let mut p1 = vec![0u64; d];

    for i in 0..chal.k() {
        let (exp, sign) = chal.get(i);
        
        if sign {
            p1[exp] = 1;
        }
        else {
            p1[exp] = Q.wrapping_sub(1); // -1 mod q;
        }
    }
    
    // sample a random poly vec with small coefficients
    let p_vec = PVec::rand(n, d, 16, [1u8; 32]);
    
    // manually compute chal*vec
    let mut prod_expected = PVec::zero(n, d);

    for i in 0..n {
        let out = prod_expected.mut_element(i);
        poly_mul_cyclotomic(&p1, p_vec.element(i), out, Q);
    
        // adjust to balance coefficients
        for i in 0..d {
            if out[i] > (Q >> 1) {
                out[i] = out[i].wrapping_sub(Q);
            }
        }
    }

    // compute using ring
    let ring = Ring::init(Q, d, true);
    let mut prod_actual = PVec::zero(n, d);
    ring.chal_mul_poly_vec(&chal, &p_vec, &mut prod_actual, 0);

    assert_eq!(prod_expected.slice(), prod_actual.slice());
}

#[test]
fn test_chal_vec_mul_poly_vec() {
    let n = 1024;
    let d = 64;

    // sample a random challenge vector
    let chal_vec = PChal::rand_vec(n, d, 16, [1u8; 32]);

    // sample a random poly vec
    let p_vec = PVec::rand(n, d, Q, [1u8; 32]);
    
    // do inner product manually
    let mut prod_expected = vec![0u64; 2 * d];

    for i in 0..n {
        // convert sparse poly into full poly
        let mut p1 = vec![0u64; d];

        for j in 0..chal_vec[i].k() {
            let (exp, sign) = chal_vec[i].get(j);
            
            if sign {
                p1[exp] = 1;
            }
            else {
                p1[exp] = Q.wrapping_sub(1); // -1 mod q;
            }
        }

        let mut prod = vec![0u64; 2 * d];
        poly_mul(&p1, p_vec.element(i), &mut prod, Q);

        for j in 0..2 * d {
            prod_expected[j] = add_64(prod_expected[j], prod[j], Q)
        }            
    }

    // do inner product with ring
    let ring = Ring::init(Q, d, false);
    let mut prod_actual = PVec::zero(1, 2 * d);
    ring.chal_vec_mul_poly_vec(&chal_vec, &p_vec, &mut prod_actual, 0);

    assert_eq!(prod_expected, prod_actual.element(0));
}

#[test]
fn test_chal_vec_mul_poly_vec_cyclotomic() {
    let n = 1024;
    let d = 64;

    // sample a random challenge vector
    let chal_vec = PChal::rand_vec(n, d, 16, [1u8; 32]);

    // sample a random poly vec
    let p_vec = PVec::rand(n, d, Q, [1u8; 32]);
    
    // do inner product manually
    let mut prod_expected = vec![0u64; d];

    for i in 0..n {
        // convert sparse poly into full poly
        let mut p1 = vec![0u64; d];

        for j in 0..chal_vec[i].k() {
            let (exp, sign) = chal_vec[i].get(j);
            
            if sign {
                p1[exp] = 1;
            }
            else {
                p1[exp] = Q.wrapping_sub(1); // -1 mod q;
            }
        }

        let mut prod = vec![0u64; d];
        poly_mul_cyclotomic(&p1, p_vec.element(i), &mut prod, Q);

        for j in 0..d {
            prod_expected[j] = add_64(prod_expected[j], prod[j], Q)
        }            
    }

    // do inner product with ring
    let ring = Ring::init(Q, d, true);
    let mut prod_actual = PVec::zero(1, d);
    ring.chal_vec_mul_poly_vec(&chal_vec, &p_vec, &mut prod_actual, 0);

    assert_eq!(prod_expected, prod_actual.element(0));
}

#[test]
fn test_mat_fwd_ntt() {
    let d = 1024;
    let ring = Ring::init(Q, d, true);

    // sample a random matrix
    let (h, w) = (4, 32);
    let mat = PMat::rand(h, w, d, Q, [1; 32]);

    // perform forward NTT
    let mut mat_ntt = PMatNtt::zero(h, w, d);
    ring.mat_fwd_ntt(&mat, &mut mat_ntt);

    // check each element was processed correctly
    for i in 0..h {
        for j in 0..w {
            {
            let mut p0 = vec![0u32; d];
            let mut p1 = vec![0u32; d];
            let mut p2 = vec![0u32; d];
            let mut p3 = vec![0u32; d];
            let mut p4 = vec![0u32; d];
            ring._fwd(mat.element(i, j), &mut p0, &mut p1, &mut p2, &mut p3, &mut p4);
            
            let (s0, s1, s2, s3, s4) = mat_ntt.element(i, j);
            assert_eq!(p0, s0);
            assert_eq!(p1, s1);
            assert_eq!(p2, s2);
            assert_eq!(p3, s3);
            assert_eq!(p4, s4);
            }

        }
    }
}

#[test]
fn test_mat_mul_vec() {
    let d = 64;
    let ring = Ring::init(Q, d, false);

    // sample a random matrix
    let (h, w) = (8, 8);
    let mat = PMat::rand(h, w, d, Q, [1; 32]);
    
    // sample a vector with small coefficients
    let vec = PVec::rand(w, d, 16, [2; 32]);
    
    // manually perform matrix * vector
    let mut prod_expected = PVec::zero(h, 2 * d);

    for row in 0..h {
        let p = prod_expected.mut_element(row);

        for col in 0..w {
            let m = mat.element(row, col);
            let v = vec.element(col);

            let mut prod = vec![0u64; 2 * d];
            poly_mul(m, v, &mut prod, Q);

            for k in 0..2 * d {
                p[k] = add_64(p[k], prod[k], Q);
            }
        }
    }

    // forward NTT on the matrix
    let mut mat_ntt = PMatNtt::zero(h, w, 2 * d);
    ring.mat_fwd_ntt(&mat, &mut mat_ntt);

    // perform product with the ring
    let mut prod_actual = PVec::zero(h, 2 * d);
    ring.mat_mul_vec(&mat_ntt, &vec, &mut prod_actual, 0);

    // check equal
    assert_eq!(prod_expected.slice(), prod_actual.slice());
}

#[test]
fn test_mat_mul_vec_cyclotomic() {
    let d = 512;
    let ring = Ring::init(Q, d, true);

    // sample a random matrix
    let (h, w) = (4, 48);
    let mat = PMat::rand(h, w, d, Q, [1; 32]);
    
    // sample a vector with small coefficients
    let vec = PVec::rand(w, d, 16, [2; 32]);
    
    // manually perform matrix * vector
    let mut prod_expected = PVec::zero(h, d);

    for row in 0..h {
        let p = prod_expected.mut_element(row);

        for col in 0..w {
            let m = mat.element(row, col);
            let v = vec.element(col);
            
            let mut prod = vec![0u64; d];
            poly_mul_cyclotomic(m, v, &mut prod, Q);

            for k in 0..d {
                p[k] = add_64(p[k], prod[k], Q);
            }
        }
    }

    // forward NTT on the matrix
    let mut mat_ntt = PMatNtt::zero(h, w, d);
    ring.mat_fwd_ntt(&mat, &mut mat_ntt);

    // perform product with the ring
    let mut prod_actual = PVec::zero(h, d);
    ring.mat_mul_vec(&mat_ntt, &vec, &mut prod_actual, 0);

    // check equal
    assert_eq!(prod_expected.slice(), prod_actual.slice());
}

#[test]
fn test_mat_mul_vec_negative() {
    let d = 1024;
    let ring = Ring::init(Q, d, false);

    // sample a random matrix
    let (h, w) = (4, 32);
    let mat = PMat::rand(h, w, d, Q, [1; 32]);
    
    // sample a vector with small-ish coefficients
    let mut vec = PVec::rand(w, d, 1 << 16, [2; 32]);

    // adjust the coefficients so they're balanced (using wrappping arithmetic)
    let v = vec.mut_slice();

    for i in 0..v.len() {
        v[i] = v[i].wrapping_sub(1 << 15);
    }
    
    // manually perform matrix * vector
    let mut prod_expected = PVec::zero(h, 2 * d);

    for row in 0..h {
        let p = prod_expected.mut_element(row);

        for col in 0..w {
            let m = mat.element(row, col);
            let v = vec.element(col);
            let mut v_pos = vec![0u64; v.len()];

            // adjust the coefficients of v so that they are between 0..7 and q-8..q-1
            for i in 0..v.len() {
                if (v[i] as i64) < 0 {
                    v_pos[i] = (Q as i64 + v[i] as i64) as u64;
                }
                else {
                    v_pos[i] = v[i];
                }
            }
            
            let mut prod = vec![0u64; 2 * d];
            poly_mul(m, &v_pos, &mut prod, Q);

            for k in 0..2 * d {
                p[k] = add_64(p[k], prod[k], Q);
            }
        }
    }

    // forward NTT on the matrix
    let mut mat_ntt = PMatNtt::zero(h, w, 2 * d);
    ring.mat_fwd_ntt(&mat, &mut mat_ntt);

    // perform product with the ring
    let mut prod_actual = PVec::zero(h, 2 * d);
    ring.mat_mul_vec(&mat_ntt, &vec, &mut prod_actual, 0);

    // check equal
    assert_eq!(prod_expected.slice(), prod_actual.slice());
}

#[test]
fn test_mat_mul_vec_cyclotomic_negative() {
    let d = 512;
    let ring = Ring::init(Q, d, true);

    // sample a random matrix
    let (h, w) = (4, 48);
    let mat = PMat::rand(h, w, d, Q, [1; 32]);
    
    // sample a vector with small coefficients
    let mut vec = PVec::rand(w, d, 16, [2; 32]);

    // adjust the coefficients so they're between -8..7 instead of 0..15 (using wrappping arithmetic)
    let v = vec.mut_slice();

    for i in 0..v.len() {
        v[i] = v[i].wrapping_sub(8);
    }
    
    // manually perform matrix * vector
    let mut prod_expected = PVec::zero(h, d);

    for row in 0..h {
        let p = prod_expected.mut_element(row);

        for col in 0..w {
            let m = mat.element(row, col);
            let v = vec.element(col);
            let mut v_pos = vec![0u64; v.len()];

            // adjust the coefficients of v so that they are between 0..7 and q-8..q-1
            for i in 0..v.len() {
                if (v[i] as i64) < 0 {
                    v_pos[i] = (Q as i64 + v[i] as i64) as u64;
                }
                else {
                    v_pos[i] = v[i];
                }
            }
            
            let mut prod = vec![0u64; d];
            poly_mul_cyclotomic(m, &v_pos, &mut prod, Q);

            for k in 0..d {
                p[k] = add_64(p[k], prod[k], Q);
            }
        }
    }

    // forward NTT on the matrix
    let mut mat_ntt = PMatNtt::zero(h, w, d);
    ring.mat_fwd_ntt(&mat, &mut mat_ntt);

    // perform product with the ring
    let mut prod_actual = PVec::zero(h, d);
    ring.mat_mul_vec(&mat_ntt, &vec, &mut prod_actual, 0);

    // check equal
    assert_eq!(prod_expected.slice(), prod_actual.slice());
}
