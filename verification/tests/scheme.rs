use hachi::arithmetic::poly_chal::PChal;
use hachi::arithmetic::poly_mat::PMat;
use hachi::hachi::common::{form_m_alpha, form_m_alpha_different_matrices, form_m_alpha_same_matrix};
use hachi::arithmetic::field::Fq4;
use hachi::arithmetic::rng::Prg;
use hachi::arithmetic::utils::{powers, rand_field, rand_int, Logarithm};
use hachi::hachi::Hachi;
use hachi::hachi::commit::Commit;
use hachi::hachi::evaluate::evaluate;
use hachi::hachi::prove::{commit_and_prove, Prove};
use hachi::hachi::setup::{Setup, Q};
use hachi::hachi::verify::{check_reduction, Verify};
use hachi::stream::SliceStream;

fn witness(l: usize, seed: u8) -> Vec<u64> {
    let mut rng = Prg::from_seed([seed; 32]);
    (0..1usize << l).map(|_| rand_int(Q, Q.log(), &mut rng)).collect()
}

fn point(l: usize) -> Vec<u64> {
    (0..l).map(|i| (1234 + 7 * i as u64) % Q).collect()
}

#[test]
fn test_setup_parameters() {
    let p = Hachi::setup(10, true);
    assert_eq!((p.l, p.q, p.d, p.m, p.r, p.k, p.n), (10, Q, 1024, 0, 0, 16, 1));
    assert_eq!((p.width_a, p.width_b, p.width_d), (8, 8, 8));
    assert!(p.reuse_mats);
    let p = Hachi::setup(15, false);
    assert_eq!((p.m, p.r), (2, 3));
    assert_eq!((p.width_a, p.width_b, p.width_d), (4, 64, 64));
    assert!(!p.reuse_mats);
    assert!(!p.decomp_witness);
}

#[test]
fn test_commit_stream_and_slice_agree() {
    let params = Hachi::setup(11, true);
    let f = witness(11, 1);
    let mut s = SliceStream::new(&f);
    let a = Hachi::commit(&mut s, &params);
    let b = Hachi::commit(f.as_slice(), &params);
    assert_eq!(a.u.slice(), b.u.slice());
    assert_eq!(a.t.slice(), b.t.slice());
    assert_eq!(a.t_hat.slice(), b.t_hat.slice());
    assert!(a.u.slice().iter().all(|&c| c < Q));
}

#[test]
fn test_evaluate_constant_and_linear() {
    let params = Hachi::setup(10, true);
    // the polynomial 5 + 3 X_t, where X_t is the variable of coefficient index bit 0 (the first of
    // the last log d coordinates)
    let mut f = vec![0u64; 1024];
    f[0] = 5;
    f[1] = 3;
    let x = point(10);
    let mut s = SliceStream::new(&f);
    let y = evaluate(&mut s, &params, &x);
    assert_eq!((5 + 3 * x[0]) % Q, y);
}

#[test]
fn test_prove_verify_round() {
    let l = 10;
    let params = Hachi::setup(l, true);
    let f = witness(l, 3);
    let mut s = SliceStream::new(&f);
    let com = Hachi::commit(&mut s, &params);
    let x = point(l);
    let proof = Hachi::prove(&mut s, &params, &x, &com).expect("the round completes");
    let y = evaluate(&mut s, &params, &x);

    // the honest value is accepted
    assert!(Hachi::verify(&params, &x, y, &com.u, &proof));

    // another value does not reduce from Y
    assert!(check_reduction(&params, &x, y, &proof.y));
    assert!(!check_reduction(&params, &x, (y + 1) % Q, &proof.y));

    // a proof with another claimed evaluation of the next witness is refused
    let mut bad = Hachi::prove(&mut s, &params, &x, &com).unwrap();
    bad.y_dash = bad.y_dash.plus(Fq4::one());
    assert!(!Hachi::verify(&params, &x, y, &com.u, &bad));

    // a proof with a dropped sumcheck round is refused
    let mut short = Hachi::prove(&mut s, &params, &x, &com).unwrap();
    short.univariates_f_0.pop();
    assert!(!Hachi::verify(&params, &x, y, &com.u, &short));
}

#[test]
fn test_prove_is_deterministic() {
    let l = 10;
    let params = Hachi::setup(l, true);
    let f = witness(l, 4);
    let mut s = SliceStream::new(&f);
    let com = Hachi::commit(&mut s, &params);
    let x = point(l);
    let a = Hachi::prove(&mut s, &params, &x, &com).unwrap();
    let b = Hachi::prove(&mut s, &params, &x, &com).unwrap();
    assert_eq!(a.y.slice(), b.y.slice());
    assert_eq!(a.v.slice(), b.v.slice());
    assert_eq!(a.u_dash.slice(), b.u_dash.slice());
    assert_eq!(a.y_dash, b.y_dash);
    assert_eq!(a.univariates_f_0.len(), b.univariates_f_0.len());
}

#[test]
fn test_setup_is_deterministic() {
    let a = Hachi::setup(21, true);
    let b = Hachi::setup(21, true);
    assert_eq!((a.l, a.m, a.r, a.width_a, a.width_b, a.width_d), (b.l, b.m, b.r, b.width_a, b.width_b, b.width_d));
    assert_eq!((a.a_seed, a.b_seed, a.d_seed), (b.a_seed, b.b_seed, b.d_seed));
    assert_eq!((a.m, a.r), (5, 6));
}

#[test]
fn test_m_alpha_tables_agree() {

    let params = Hachi::setup(10, true);
    assert!(params.reuse_mats);
    let x = point(10);
    let chals = PChal::rand_vec(1 << params.r, params.d, params.k, [6u8; 32]);
    let mut rng = Prg::from_seed([8u8; 32]);
    let alpha = rand_field(Q, &mut rng);
    let pows = powers(alpha, params.d);
    let mat = PMat::rand(params.n, params.width_d, params.d, params.q, params.d_seed);

    let same = form_m_alpha_same_matrix(&params, &x, &chals, &pows, &mat);
    let different = form_m_alpha_different_matrices(&params, &x, &chals, &pows, &mat, &mat, &mat);
    let regenerated = form_m_alpha(&params, &x, &chals, &pows);
    assert_eq!(same, different);
    assert_eq!(same, regenerated);
    assert_eq!(8 * 128, same.len());
}

#[test]
fn test_commit_and_prove() {
    let l = 10;
    let params = Hachi::setup(l, true);
    let f = witness(l, 6);
    let x = point(l);
    let mut s = SliceStream::new(&f);
    let (com, proof) = commit_and_prove(&mut s, &params, &x);
    let proof = proof.expect("the round completes");

    // the commitment is the one commit forms, and the proof is accepted at the true value
    let com2 = Hachi::commit(f.as_slice(), &params);
    assert_eq!(com.u.slice(), com2.u.slice());
    let y = evaluate(&mut s, &params, &x);
    assert!(Hachi::verify(&params, &x, y, &com.u, &proof));
}
