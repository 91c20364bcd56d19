use hachi::arithmetic::poly::Poly;
use hachi::arithmetic::poly_chal::PChal;
use hachi::arithmetic::rng::Prg;
use hachi::arithmetic::utils::{powers, rand_field};

fn rng() -> Prg {
    Prg::from_seed([5u8; 32])
}

#[test]
fn poly_chal_test_rand() {
    // generate a random sparse poly
    let mut rng = rng();
    let p = PChal::rand(1024, 17, &mut rng);

    // check that p has distinct exponents and print the signs for manual inspection
    fn count(p: &PChal, exp: usize) -> usize {
        let mut n = 0;

        for i in 0..p.k() {
            let (exp_2, _) = p.get(i);
            if exp == exp_2 {
                n += 1;
            }
        }

        n
    }

    let mut total_neg = 0;
    let mut total_pos = 0;

    for i in 0..p.k() {
        let (exp, sign) = p.get(i);
        assert_eq!(1, count(&p, exp));

        if sign {
            total_pos += 1;
        } else {
            total_neg += 1;
        }
    }

    println!("Total positive: {}. Total negative: {}", total_pos, total_neg);
}

#[test]
fn test_rand_vec() {
    // just test it generates the correct number of elements
    let num = 100;
    assert_eq!(num, PChal::rand_vec(num, 64, 40, [1u8; 32]).len());
}

#[test]
fn test_k() {
    let poly = PChal::rand(1024, 17, &mut rng());
    assert_eq!(17, poly.k());

    let poly = PChal::rand(512, 32, &mut rng());
    assert_eq!(32, poly.k());
}

#[test]
fn test_get() {
    let poly = PChal::rand(1024, 17, &mut rng());

    for i in 0..poly.k() {
        let (exp, _) = poly.get(i);
        assert!(exp < 1024);
    }
}

#[test]
fn poly_chal_test_eval() {
    let d = 1024;
    let sparse_poly = PChal::rand(d, 17, &mut rng());
    let mut poly = vec![0u64; d];

    // store sparse poly as normal poly
    for i in 0..sparse_poly.k() {
        let (exp, sign) = sparse_poly.get(i);

        if sign {
            poly[exp] = 1;
        } else {
            poly[exp] = 4294967196; // -1 mod q;
        }
    }

    // get a random evaluation point
    let mut r = Prg::from_seed([9u8; 32]);
    let alpha = rand_field(4294967197, &mut r);

    // generate the powers [1, alpha, ..., alpha^d-1] and calculate the correct evaluation
    let pows = powers(alpha, d);

    assert_eq!(poly.as_slice().eval(&pows), sparse_poly.eval(&pows));
}

#[test]
fn test_from_entries_and_same_seed() {
    let c = PChal::from_entries(&[(3, true), (0, false), (7, true)]);
    assert_eq!(3, c.k());
    // the same seed gives the same challenges
    let a = PChal::rand_vec(4, 64, 8, [2u8; 32]);
    let b = PChal::rand_vec(4, 64, 8, [2u8; 32]);
    for i in 0..4 {
        for j in 0..8 {
            assert_eq!(a[i].get(j), b[i].get(j));
        }
    }
}
