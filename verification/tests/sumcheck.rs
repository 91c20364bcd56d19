use hachi::arithmetic::field::{Fq, Fq2, Fq4};
use hachi::arithmetic::sumcheck::fix_first_variable;
use hachi::arithmetic::rng::Prg;
use hachi::arithmetic::sumcheck::{SumCheckPoly, Univariate};
use hachi::arithmetic::utils::{eq_bin, lift_int, rand_field, rand_int};
use hachi::hachi::prover_utils::sumcheck::{FAlpha, F0};
use hachi::hachi::setup::Q;
use hachi::hachi::verify::mle_eval;

/// Round-by-round consistency of the F_alpha prover against an independent computation of the
/// claimed sum, and of its final value against the verifier's evaluation formula: the prover
/// folds the coefficient variables first, then the entry variables, and never the row index.
#[test]
fn test_f_alpha_consistency() {
    let q = Q;
    let log_n = 2;
    let height = 1 << log_n;
    let log_x = 3;
    let width = 1 << log_x;
    let log_d = 2;
    let d = 1 << log_d;
    let mut rng = Prg::from_seed([3u8; 32]);

    // witness digits in [-8, 7] as wrapping u64, random public data
    let z_r: Vec<u64> = (0..width * d).map(|_| (rand_int(16, 4, &mut rng) as i64 - 8) as u64).collect();
    let m_alpha: Vec<Fq4> = (0..height * width).map(|_| rand_field(q, &mut rng)).collect();
    let alpha_pows: Vec<Fq4> = (0..d).map(|_| rand_field(q, &mut rng)).collect();
    let tau_1: Vec<Fq4> = (0..log_n).map(|_| rand_field(q, &mut rng)).collect();

    // claimed sum: sum_i eq(tau_1, i) sum_x M(i, x) sum_y w(x, y) alpha^y
    let mut claim = Fq4::zero();

    for i in 0..height {
        let mut eq_i = Fq4::one();

        for b in 0..log_n {
            eq_i = eq_i.times(eq_bin(tau_1[b], (i >> b) & 1));
        }

        for x in 0..width {
            let mut wy = Fq4::zero();

            for y in 0..d {
                wy = wy.plus(lift_int(z_r[x * d + y]).times(alpha_pows[y]));
            }

            claim = claim.plus(eq_i.times(m_alpha[i * width + x]).times(wy));
        }
    }

    // run the prover round by round with the verifier's consistency check
    let mut f_alpha = FAlpha::init(&z_r, alpha_pows.clone(), tau_1.clone(), m_alpha.clone());
    assert_eq!(log_x + log_d, f_alpha.num_vars());

    let mut chals = Vec::new();
    let mut cur = claim;

    for _ in 0..f_alpha.num_vars() {
        let g: Univariate = f_alpha.get_univariate();
        assert_eq!(cur, g.binary_sum());
        let r = rand_field(q, &mut rng);
        cur = g.eval(r);
        f_alpha.fix_first_variable(r);
        chals.push(r);
    }

    // final check exactly as the verifier computes it
    let w_table: Vec<Fq4> = z_r.iter().map(|x| lift_int(*x)).collect();
    let w_r = mle_eval(&w_table, &chals);
    let alpha_r = mle_eval(&alpha_pows, &chals[0..log_d]);
    let mut m_point = chals[log_d..].to_vec();
    m_point.extend_from_slice(&tau_1);
    let m_r = mle_eval(&m_alpha, &m_point);

    assert_eq!(w_r, f_alpha.first_entry());
    assert_eq!(cur, w_r.times(alpha_r).times(m_r));
}

#[test]
fn test_univariate_eval_at_nodes() {
    let mut rng = Prg::from_seed([4u8; 32]);
    let evals: Vec<Fq4> = (0..18).map(|_| rand_field(Q, &mut rng)).collect();
    let g = Univariate::init(evals.clone());
    assert_eq!(18, g.len());
    for k in 0..18u64 {
        let node = Fq4::new(Fq2::new(Fq::from_u64(k), Fq::zero()), Fq2::zero());
        assert_eq!(evals[k as usize], g.eval(node));
    }
    assert_eq!(evals[0].plus(evals[1]), g.binary_sum());
}

#[test]
fn test_fold_is_linear_interpolation() {
    let mut rng = Prg::from_seed([12u8; 32]);
    let t: Vec<Fq4> = (0..8).map(|_| rand_field(Q, &mut rng)).collect();
    let r = rand_field(Q, &mut rng);
    let folded = fix_first_variable(&t, r);
    assert_eq!(4, folded.len());
    for s in 0..4 {
        assert_eq!(t[2 * s].plus(r.times(t[2 * s + 1].minus(t[2 * s]))), folded[s]);
    }
    // folding every variable gives the multilinear extension at the challenges
    let r1 = rand_field(Q, &mut rng);
    let r2 = rand_field(Q, &mut rng);
    let all = fix_first_variable(&fix_first_variable(&folded, r1), r2);
    assert_eq!(mle_eval(&t, &[r, r1, r2]), all[0]);
}

fn digit_witness(n: usize, bad: Option<(usize, u64)>) -> Vec<u64> {
    let mut z: Vec<u64> = (0..n).map(|i| ((i as i64 * 5) % 16 - 8) as u64).collect();
    if let Some((i, v)) = bad {
        z[i] = v;
    }
    z
}

#[test]
fn test_f0_vanishes_on_digits() {
    let mut rng = Prg::from_seed([9u8; 32]);
    let tau: Vec<Fq4> = (0..4).map(|_| rand_field(Q, &mut rng)).collect();

    // every entry a balanced digit in [-8, 7]: the first message sums to zero over {0, 1}
    let z = digit_witness(16, None);
    let f = F0::init(&z, 16, tau.clone(), Q, 16);
    let g = f.get_univariate();
    assert_eq!(18, g.len());
    assert_eq!(Fq4::zero(), g.binary_sum());

    // one entry outside the range: it no longer does
    let z = digit_witness(16, Some((5, 8)));
    let f = F0::init(&z, 16, tau, Q, 16);
    assert_ne!(Fq4::zero(), f.get_univariate().binary_sum());
}

#[test]
fn test_eval_quadratic_exact() {
    let mut rng = Prg::from_seed([11u8; 32]);
    let a = rand_field(Q, &mut rng);
    let b = rand_field(Q, &mut rng);
    let c = rand_field(Q, &mut rng);
    let p = |x: Fq4| a.plus(b.times(x)).plus(c.times(x.times(x)));
    let g = Univariate::init(vec![p(lift_int(0)), p(lift_int(1)), p(lift_int(2))]);
    for _ in 0..4 {
        let r = rand_field(Q, &mut rng);
        assert_eq!(p(r), g.eval(r));
    }
}
