use lattice_commitments::commitment::{sample_uniform_element, ChallengeError};
use lattice_commitments::matrix::Matrix2D;
use lattice_commitments::polynomial::Norm;
use lattice_commitments::ring::RingPolynomial64;
use lattice_commitments::Vcs;
use rand::Rng;

const BABY_BEAR: u64 = 2013265921;

fn element(values: Vec<i64>, q: u64, n: usize) -> RingPolynomial64 {
    RingPolynomial64::from_signed(&values, q, n)
}

fn theta(vcs: &Vcs) -> i64 {
    (vcs.theta_squared as f64).sqrt() as i64
}

fn masking_vector(vcs: &Vcs) -> Vec<RingPolynomial64> {
    let bound = theta(vcs);
    let mut rng = rand::thread_rng();
    (0..vcs.k)
        .map(|_| {
            let c: Vec<i64> = (0..vcs.N).map(|_| rng.gen_range(-bound..=bound)).collect();
            element(c, vcs.q, vcs.N)
        })
        .collect()
}

fn honest_proof(vcs: &Vcs, alpha: &Matrix2D, r: &Vec<RingPolynomial64>) -> (Vec<RingPolynomial64>, Vec<RingPolynomial64>) {
    for _ in 0..50 {
        let y = masking_vector(vcs);
        if let Some(proof) = vcs.prove_opening(alpha, r, &y).unwrap() {
            return proof;
        }
    }
    panic!("no attempt passed the rejection step");
}

#[test]
fn parameters_of_new() {
    let vcs = Vcs::new(BABY_BEAR, 1024);
    assert_eq!((vcs.k, vcs.n, vcs.l, vcs.beta, vcs.kappa, vcs.N), (3, 1, 1, 1, 36, 1024));
    // theta^2 = 121 * 36^2 * 1^2 * 3 * 1024
    assert_eq!(vcs.theta_squared, 481_738_752);
}

#[test]
fn commit_zero_message_opens_small_ring() {
    let vcs = Vcs::new(101, 64);
    let x = vec![RingPolynomial64::zero(101, 64)];
    let (alpha, c, r) = vcs.commit(&x);
    assert!(vcs.open(&c, &alpha, &x, &r));
    // the message portion is A_2 * r + x: removing A_2 * r leaves x = 0
    let (_a1, a2) = vcs.decompose_alpha(&alpha);
    let a2r = a2.mul_vec(&r);
    let (_c1, c2) = vcs.decompose_cm(&c);
    assert_eq!(c2[0].sub(&a2r[0]), x[0]);
}

#[test]
fn commit_detects_tampered_message() {
    let vcs = Vcs::new(101, 64);
    let x = vec![RingPolynomial64::one(101, 64)];
    let (alpha, c, r) = vcs.commit(&x);
    let x2 = vec![element(vec![2], 101, 64)];
    assert!(vcs.open(&c, &alpha, &x, &r));
    assert!(!vcs.open(&c, &alpha, &x2, &r));
}

#[test]
fn commit_random_message_opens_baby_bear() {
    let vcs = Vcs::new(BABY_BEAR, 1024);
    let x = vec![sample_uniform_element(BABY_BEAR, 1024)];
    let (alpha, c, r) = vcs.commit(&x);
    assert_eq!(c.len(), 2);
    assert_eq!(r.len(), 3);
    for ri in &r {
        assert!(ri.norm_max() <= 1);
    }
    assert!(vcs.open(&c, &alpha, &x, &r));
}

#[test]
fn open_rejects_long_randomness() {
    let vcs = Vcs::new(101, 64);
    let x = vec![RingPolynomial64::zero(101, 64)];
    let (alpha, _c, r) = vcs.commit(&x);
    // r' = (r_0 + 50 * (1 + X + ... ), r_1, r_2) still reaches a commitment,
    // but its first component is far too long
    let long: Vec<i64> = vec![50; 64];
    let mut r2: Vec<RingPolynomial64> = r.iter().map(|e| e.copy()).collect();
    r2[0] = r2[0].add(&element(long, 101, 64));
    let c2 = vcs.commit_with(&x, &alpha, &r2);
    // squared norm of 64 coefficients near 50 exceeds 16 * theta^2 * N only for a
    // tiny theta, so shrink theta with the same shape
    let tight = Vcs { theta_squared: 1, ..Vcs::new(101, 64) };
    assert!(!tight.open(&c2, &alpha, &x, &r2));
    assert!(vcs.open(&c2, &alpha, &x, &r2));
}

#[test]
fn open_rejects_wrong_shapes() {
    let vcs = Vcs::new(101, 64);
    let x = vec![RingPolynomial64::zero(101, 64)];
    let (alpha, c, r) = vcs.commit(&x);
    assert!(!vcs.open(&c, &alpha, &vec![], &r));
    assert!(!vcs.open(&c, &alpha, &x, &r[0..2].to_vec()));
    assert!(!vcs.open(&c[0..1].to_vec(), &alpha, &x, &r));
    let other_ring = vec![RingPolynomial64::zero(103, 64)];
    assert!(!vcs.open(&c, &alpha, &other_ring, &r));
}

#[test]
fn public_params_have_identity_blocks() {
    let vcs = Vcs::new(101, 64);
    let (a1, a2) = vcs.public_params();
    assert_eq!(a1.dimensions, (1, 3));
    assert_eq!(a2.dimensions, (1, 3));
    let one = RingPolynomial64::one(101, 64);
    let zero = RingPolynomial64::zero(101, 64);
    assert_eq!(a1.values[0], one);
    assert_eq!(a2.values[0], zero);
    assert_eq!(a2.values[1], one);
}

#[test]
fn matrix_blocks_compose_and_split() {
    let q = 101;
    let n = 4;
    let i2 = Matrix2D::identity(2, q, n);
    let z = Matrix2D::zero(2, 1, q, n);
    let h = i2.compose_horizontal(&z);
    assert_eq!(h.dimensions, (2, 3));
    let v = h.compose_vertical(&h);
    assert_eq!(v.dimensions, (4, 3));
    let (top, bottom) = v.split_vertical(1, 3);
    assert_eq!(top.dimensions, (1, 3));
    assert_eq!(bottom.dimensions, (3, 3));
    assert_eq!(top.values[0], RingPolynomial64::one(q, n));
    assert_eq!(bottom.values[1], RingPolynomial64::one(q, n));
    let x = vec![element(vec![1], q, n), element(vec![2], q, n), element(vec![3], q, n)];
    let prod = v.mul_vec(&x);
    assert_eq!(prod[0], element(vec![1], q, n));
    assert_eq!(prod[1], element(vec![2], q, n));
    assert_eq!(prod[3], element(vec![2], q, n));
}

#[test]
fn challenge_for_zero_transcript() {
    let vcs = Vcs::new(BABY_BEAR, 1024);
    let t = vec![RingPolynomial64::zero(BABY_BEAR, 1024)];
    let d = vcs.sample_challenge_vector(&t).unwrap();
    let ones: Vec<usize> = (0..1024).filter(|&i| d.0.coefficients[i] == 1).collect();
    assert_eq!(d.0.coefficients.iter().filter(|&&c| c != 0).count(), 36);
    assert_eq!(
        ones,
        vec![
            11, 22, 56, 80, 90, 96, 139, 172, 209, 224, 257, 293, 333, 394, 395, 443, 453, 467, 482,
            492, 504, 523, 543, 545, 549, 618, 683, 710, 743, 796, 849, 858, 864, 873, 919, 937
        ]
    );
    assert_eq!(d.norm_l1(), 36);
    assert_eq!(d.norm_max(), 1);
}

#[test]
fn challenge_small_ring() {
    let vcs = Vcs::new(101, 64);
    let t = vec![RingPolynomial64::zero(101, 64)];
    let d = vcs.sample_challenge_vector(&t).unwrap();
    let ones: Vec<usize> = (0..64).filter(|&i| d.0.coefficients[i] == 1).collect();
    assert_eq!(
        ones,
        vec![
            1, 2, 3, 4, 7, 9, 10, 11, 12, 13, 15, 16, 18, 20, 21, 22, 23, 24, 26, 28, 29, 31, 33, 34,
            36, 37, 38, 40, 41, 42, 43, 48, 51, 55, 61, 62
        ]
    );
}

#[test]
fn challenge_is_deterministic() {
    let vcs = Vcs::new(BABY_BEAR, 1024);
    let t = vec![sample_uniform_element(BABY_BEAR, 1024)];
    let d1 = vcs.sample_challenge_vector(&t).unwrap();
    let d2 = vcs.sample_challenge_vector(&t).unwrap();
    assert_eq!(d1, d2);
    assert_eq!(d1.norm_l1(), 36);
    assert_eq!(d1.norm_max(), 1);
    let t2 = vec![element(vec![1], BABY_BEAR, 1024)];
    assert_ne!(vcs.sample_challenge_vector(&t2).unwrap(), d1);
}

#[test]
fn challenge_with_zero_kappa_is_invalid() {
    let vcs = Vcs { kappa: 0, theta_squared: 0, ..Vcs::new(101, 64) };
    let t = vec![RingPolynomial64::zero(101, 64)];
    assert_eq!(vcs.sample_challenge_vector(&t), Err(ChallengeError::InvalidChallenge));
}

#[test]
fn proof_of_opening_verifies() {
    let vcs = Vcs::new(BABY_BEAR, 1024);
    let x = vec![sample_uniform_element(BABY_BEAR, 1024)];
    let (alpha, c, r) = vcs.commit(&x);
    let (t, z) = honest_proof(&vcs, &alpha, &r);
    assert_eq!(t.len(), 1);
    assert_eq!(z.len(), 3);
    assert_eq!(vcs.verify_opening_proof(&t, &z, &c, &alpha), Ok(true));
}

#[test]
fn proof_with_long_response_is_rejected() {
    let vcs = Vcs::new(BABY_BEAR, 1024);
    let x = vec![sample_uniform_element(BABY_BEAR, 1024)];
    let (alpha, c, r) = vcs.commit(&x);
    let (t, z) = honest_proof(&vcs, &alpha, &r);
    let mut bad: Vec<RingPolynomial64> = z.iter().map(|e| e.copy()).collect();
    bad[1] = bad[1].add(&element(vec![1_000_000_000; 4], BABY_BEAR, 1024));
    assert_eq!(vcs.verify_opening_proof(&t, &bad, &c, &alpha), Ok(false));
    // a short but wrong response fails the algebraic check
    let mut off: Vec<RingPolynomial64> = z.iter().map(|e| e.copy()).collect();
    off[0] = off[0].add(&RingPolynomial64::one(BABY_BEAR, 1024));
    assert_eq!(vcs.verify_opening_proof(&t, &off, &c, &alpha), Ok(false));
    // a proof against another commitment fails
    let (_alpha2, c2, _r2) = vcs.commit(&x);
    assert_eq!(vcs.verify_opening_proof(&t, &z, &c2, &alpha), Ok(false));
}

#[test]
fn prove_rejects_oversized_mask() {
    let vcs = Vcs::new(BABY_BEAR, 1024);
    let x = vec![sample_uniform_element(BABY_BEAR, 1024)];
    let (alpha, _c, r) = vcs.commit(&x);
    let huge: Vec<RingPolynomial64> = (0..3).map(|_| element(vec![1_000_000_000; 1024], BABY_BEAR, 1024)).collect();
    assert_eq!(vcs.prove_opening(&alpha, &r, &huge), Ok(None));
}

#[test]
fn sampled_randomness_is_short() {
    let vcs = Vcs::new(101, 64);
    for _ in 0..5 {
        let e = vcs.sample_beta();
        assert!(e.is_member(101, 64));
        assert!(e.norm_max() <= 1);
    }
    let m = vcs.sample_uniform(2, 3);
    assert_eq!(m.dimensions, (2, 3));
    assert!(m.has_shape(2, 3, 101, 64));
}

#[test]
fn parameters_are_checked() {
    let v = Vcs::with_params(101, 64, 4, 1, 2, 1, 10).unwrap();
    assert_eq!((v.k, v.n, v.l, v.beta, v.kappa, v.N, v.q), (4, 1, 2, 1, 10, 64, 101));
    assert_eq!(v.theta_squared, 121 * 100 * 4 * 64);
    assert_eq!(v.beta_bound(), 1);
    assert!(Vcs::with_params(101, 48, 3, 1, 1, 1, 10).is_none());
    assert!(Vcs::with_params(101, 64, 2, 1, 1, 1, 10).is_none());
    assert!(Vcs::with_params(101, 64, 3, 0, 1, 1, 10).is_none());
    assert!(Vcs::with_params(101, 64, 3, 1, 1, 1, 65).is_none());
    assert!(Vcs::with_params(101, 64, 3, 1, 1, 0, 10).is_none());
    assert!(Vcs::with_params(101, 64, 3, 1, 1, 51, 10).is_none());
    assert!(Vcs::with_params(1, 64, 3, 1, 1, 1, 10).is_none());
}

#[test]
fn wider_parameters_commit_and_prove() {
    let vcs = Vcs::with_params(BABY_BEAR, 64, 5, 2, 2, 1, 10).unwrap();
    let x = vec![sample_uniform_element(BABY_BEAR, 64), sample_uniform_element(BABY_BEAR, 64)];
    let (alpha, c, r) = vcs.commit(&x);
    assert_eq!(alpha.dimensions, (4, 5));
    // identity blocks of the stacked public parameters
    let one = RingPolynomial64::one(BABY_BEAR, 64);
    let zero = RingPolynomial64::zero(BABY_BEAR, 64);
    assert_eq!(alpha.values[0], one);
    assert_eq!(alpha.values[1], zero);
    assert_eq!(alpha.values[6], one);
    assert_eq!(alpha.values[2 * 5 + 2], one);
    assert_eq!(alpha.values[3 * 5 + 3], one);
    assert_eq!(alpha.values[2 * 5], zero);
    assert!(vcs.open(&c, &alpha, &x, &r));
    let (t, z) = honest_proof(&vcs, &alpha, &r);
    assert_eq!(vcs.verify_opening_proof(&t, &z, &c, &alpha), Ok(true));
}

#[test]
fn randomness_components_are_nonzero() {
    let vcs = Vcs::new(101, 64);
    let x = vec![RingPolynomial64::zero(101, 64)];
    for _ in 0..5 {
        let (_alpha, _c, r) = vcs.commit(&x);
        for ri in &r {
            assert!(!ri.0.is_zero());
            assert!(ri.norm_max() <= 1);
        }
    }
}

#[test]
fn commitment_splits_at_n() {
    let vcs = Vcs::new(101, 64);
    let cm = vec![element(vec![1], 101, 64), element(vec![2], 101, 64), element(vec![3], 101, 64)];
    let (c1, c2) = vcs.decompose_cm(&cm);
    assert_eq!(c1, vec![element(vec![1], 101, 64)]);
    assert_eq!(c2, vec![element(vec![2], 101, 64), element(vec![3], 101, 64)]);
}
