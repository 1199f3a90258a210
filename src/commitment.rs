//! The vector commitment scheme and its proof of opening.
use rand::Rng;
use vstd::prelude::*;
use crate::chacha_rng::{ChaChaRng, DEFAULT_ROUNDS};
use crate::challenge::{
    challenge_poly, challenge_seed, drawn, encode_transcript, first_full, lemma_drawn_len,
    lemma_first_full_unique, lemma_ones_clear, lemma_ones_set, nested_view, ones,
    draw_limit, WORD_RANGE,
};
use crate::field::{centered_abs, valid_modulus};
use crate::matrix::{
    all_in_ring, all_members, concat_vectors, copy_range, lemma_dot_prefix_len, mat_vec_spec, vec_add_spec,
    vec_scale_spec, vector_add, vector_scale, vectors_equal, views, zero_vector, lemma_row_major,
    Matrix2D, MAX_DIMENSION,
};
use crate::polynomial::{
    all_zero, coef, l2sq_prefix, norm_l1_of, norm_l2_squared_of, norm_max_of, Norm, Polynomial,
};
use crate::field::MODULUS_LIMIT;
use crate::ring::{
    is_power_of_two_exec, ring_add_spec, ring_mul_spec, ring_one, ring_zero, valid_ring_degree,
    RingPolynomial64, MAX_RING_DEGREE,
};

verus! {

/// Largest bound on the randomness coefficients accepted.
pub const MAX_BETA: usize = 1024;

/// Every coefficient of `e`, lifted to the centered interval, lies in `[-beta, beta]`.
pub open spec fn in_s_beta(e: Seq<u64>, q: u64, beta: nat) -> bool {
    forall|i: int| 0 <= i < e.len() ==> centered_abs(#[trigger] e[i] as int, q as int) <= beta
}

/// `n` zero elements followed by the message `x`.
pub open spec fn padded(x: Seq<Seq<u64>>, n: nat, degree: nat) -> Seq<Seq<u64>> {
    Seq::new(n, |_i: int| ring_zero(degree)) + x
}

/// Relies on `rand::thread_rng` and `Rng::gen_range`: a value drawn from
/// `[0, bound)` by the thread's generator, which panics only on an empty range.
#[verifier::external_body]
fn random_below(bound: u64) -> (r: u64)
    requires
        bound > 0,
    ensures
        r < bound,
{
    rand::thread_rng().gen_range(0..bound)
}

/// A ring element whose coefficients are drawn uniformly from `Z_q`.
pub fn sample_uniform_element(q: u64, n: usize) -> (r: RingPolynomial64)
    requires
        valid_modulus(q),
        valid_ring_degree(n as nat),
    ensures
        r.in_ring(q, n as nat),
{
    let mut v: Vec<u64> = Vec::new();
    let mut i: usize = 0;
    while i < n
        invariant
            i <= n,
            valid_modulus(q),
            v@.len() == i,
            forall|j: int| 0 <= j < i ==> v@[j] < q,
        decreases n - i,
    {
        v.push(random_below(q));
        i += 1;
    }
    RingPolynomial64(Polynomial { coefficients: v, modulus: q })
}

/// An element of `S_beta` has squared l2 norm at most `len * beta^2`.
pub proof fn lemma_s_beta_l2(s: Seq<u64>, q: u64, beta: nat, m: int)
    requires
        in_s_beta(s, q, beta),
        0 <= m <= s.len(),
    ensures
        l2sq_prefix(s, q, m) <= m * (beta * beta),
    decreases m,
{
    if m > 0 {
        lemma_s_beta_l2(s, q, beta, m - 1);
        let c = crate::field::centered_abs(coef(s, m - 1), q as int);
        assert(c <= beta) by {
            assert(centered_abs(s[m - 1] as int, q as int) <= beta);
        }
        assert(c * c <= beta * beta) by (nonlinear_arith)
            requires
                c <= beta,
        ;
        assert((m - 1) * (beta * beta) + beta * beta == m * (beta * beta)) by (nonlinear_arith);
    }
}

/// Residues that agree after adding the same value are equal.
pub proof fn lemma_add_mod_cancel(a: int, u: int, v: int, q: int)
    requires
        q > 0,
        0 <= u < q,
        0 <= v < q,
        (a + u) % q == (a + v) % q,
    ensures
        u == v,
{
    vstd::arithmetic::div_mod::lemma_fundamental_div_mod(a + u, q);
    vstd::arithmetic::div_mod::lemma_fundamental_div_mod(a + v, q);
    let k1 = (a + u) / q;
    let k2 = (a + v) / q;
    assert(u - v == q * (k1 - k2)) by (nonlinear_arith)
        requires
            a + u == q * k1 + (a + u) % q,
            a + v == q * k2 + (a + v) % q,
            (a + u) % q == (a + v) % q,
    ;
    assert(k1 - k2 == 0) by (nonlinear_arith)
        requires
            u - v == q * (k1 - k2),
            -q < u - v < q,
            q > 0,
    ;
}

/// Why a challenge could not be derived.
#[derive(Debug, PartialEq, Eq, Structural)]
pub enum ChallengeError {
    /// The stream did not yield enough distinct degrees within the draw limit.
    SamplerExhausted,
    /// The challenge built does not have the declared norms.
    InvalidChallenge,
}

/// The coefficient vectors of a transcript.
fn transcript_words(t: &Vec<RingPolynomial64>) -> (r: Vec<Vec<u64>>)
    ensures
        nested_view(r@) == views(t@),
{
    let mut out: Vec<Vec<u64>> = Vec::new();
    let mut i: usize = 0;
    while i < t.len()
        invariant
            i <= t@.len(),
            out@.len() == i,
            forall|j: int| 0 <= j < i ==> #[trigger] out@[j]@ == t@[j]@,
        decreases t@.len() - i,
    {
        out.push(t[i].0.coefficients.clone());
        i += 1;
    }
    assert(nested_view(out@) =~= views(t@));
    out
}

/// Draw stream words until `kappa` distinct degrees in `[0, n)` are chosen;
/// `None` when the draw limit is reached first.
fn draw_degrees(rng: &mut ChaChaRng, n: usize, kappa: usize) -> (r: Option<Vec<bool>>)
    requires
        old(rng).wf(),
        old(rng).rounds() == DEFAULT_ROUNDS,
        old(rng).position() == 0,
        valid_ring_degree(n as nat),
        kappa <= n,
    ensures
        r matches Some(flags) ==> exists|j: nat|
            j <= draw_limit(n as nat) && first_full(old(rng).seed(), n as nat, kappa as nat, j) && flags@ == drawn(
                old(rng).seed(),
                n as nat,
                j,
            ),
        r is None ==> forall|j: nat|
            j <= draw_limit(n as nat) ==> ones(#[trigger] drawn(old(rng).seed(), n as nat, j)) < kappa,
{
    let ghost seed = rng.seed();
    let zone: u64 = WORD_RANGE - (WORD_RANGE % (n as u64));
    let mut flags: Vec<bool> = Vec::new();
    let mut f: usize = 0;
    while f < n
        invariant
            f <= n,
            flags@ == Seq::new(f as nat, |_i: int| false),
        decreases n - f,
    {
        flags.push(false);
        f += 1;
        assert(flags@ =~= Seq::new(f as nat, |_i: int| false));
    }
    proof {
        lemma_ones_clear(n as nat);
    }
    let limit: usize = 64 * n + 0x1_0000;
    let mut count: usize = 0;
    let mut j: usize = 0;
    while count < kappa
        invariant
            valid_ring_degree(n as nat),
            kappa <= n,
            zone == crate::challenge::zone(n as nat),
            rng.wf(),
            rng.seed() == seed,
            seed == old(rng).seed(),
            rng.rounds() == DEFAULT_ROUNDS,
            rng.position() == 4 * j,
            j <= limit,
            limit == draw_limit(n as nat),
            flags@ == drawn(seed, n as nat, j as nat),
            flags@.len() == n,
            count == ones(flags@),
            count <= kappa,
            forall|i: nat| i < j ==> ones(#[trigger] drawn(seed, n as nat, i)) < kappa,
        decreases limit - j,
    {
        if j == limit {
            proof {
                assert forall|i: nat| i <= draw_limit(n as nat) implies ones(#[trigger] drawn(seed, n as nat, i)) < kappa by {
                    if i == j {
                        assert(drawn(seed, n as nat, i) == flags@);
                    }
                }
            }
            return None;
        }
        let w = rng.next_u32();
        if (w as u64) < zone {
            let d = (w as u64 % n as u64) as usize;
            if !flags[d] {
                proof {
                    lemma_ones_set(flags@, d as int);
                }
                flags.set(d, true);
                count += 1;
            } else {
                assert(flags@.update(d as int, true) =~= flags@);
            }
        }
        j += 1;
        assert(flags@ == drawn(seed, n as nat, j as nat));
        proof {
            assert(ones(drawn(seed, n as nat, (j - 1) as nat)) < kappa);
        }
    }
    assert(first_full(seed, n as nat, kappa as nat, j as nat));
    Some(flags)
}

/// A challenge result with the element replaced by its coefficients.
pub open spec fn challenge_view(r: Result<RingPolynomial64, ChallengeError>) -> Result<Seq<u64>, ChallengeError> {
    match r {
        Ok(d) => Ok(d@),
        Err(e) => Err(e),
    }
}

/// Instance of a vector commitment scheme: the parameters of the ring and of
/// the commitment matrices.
#[allow(non_snake_case)]
#[derive(Clone, Debug)]
pub struct Vcs {
    /// Width (over R_q) of the commitment matrices.
    pub k: usize,
    /// Height (over R_q) of the commitment matrix A_1.
    pub n: usize,
    /// Dimension (over R_q) of the message space.
    pub l: usize,
    /// Infinity norm bound for the prover's randomness.
    pub beta: usize,
    /// l1 norm and sparsity of challenge polynomials.
    pub kappa: usize,
    /// The square of the standard deviation `theta = 11 * kappa * beta * sqrt(k * N)`.
    pub theta_squared: u128,
    /// Degree of the ring modulus `X^N + 1`.
    pub N: usize,
    /// The prime modulus `q` of the coefficients.
    pub q: u64,
}

impl Vcs {
    /// The parameter invariants.
    pub open spec fn wf(&self) -> bool {
        &&& valid_modulus(self.q)
        &&& valid_ring_degree(self.N as nat)
        &&& 1 <= self.n
        &&& 1 <= self.l
        &&& self.n + self.l < self.k <= MAX_DIMENSION
        &&& self.kappa <= self.N
        &&& 1 <= self.beta <= MAX_BETA
        &&& 2 * self.beta < self.q
        &&& self.theta_squared == 121 * self.kappa * self.kappa * self.beta * self.beta * self.k * self.N
    }

    /// The bounds on `theta^2` and the norm bounds fit in a `u128`.
    pub proof fn lemma_bounds_fit(&self)
        requires
            self.wf(),
        ensures
            self.theta_squared <= 0x8_0000_0000_0000_0000_0000_0000,
            self.open_bound() <= 0x800_0000_0000_0000_0000_0000_0000_0000,
            self.proof_bound() <= self.open_bound(),
    {
        let kk = self.kappa as int;
        let b = self.beta as int;
        let k = self.k as int;
        let n = self.N as int;
        assert(kk * kk <= 0x100_0000_0000) by (nonlinear_arith)
            requires
                0 <= kk <= 0x10_0000,
        ;
        assert(b * b <= 0x10_0000) by (nonlinear_arith)
            requires
                0 <= b <= 1024,
        ;
        assert(k * n <= 0x1_0000_0000) by (nonlinear_arith)
            requires
                0 <= k <= 0x1000,
                0 <= n <= 0x10_0000,
        ;
        assert(121 * kk * kk * b * b * k * n == 121 * (kk * kk) * (b * b) * (k * n)) by (nonlinear_arith);
        assert(121 * (kk * kk) * (b * b) * (k * n) <= 128 * 0x100_0000_0000 * 0x10_0000 * 0x1_0000_0000) by (nonlinear_arith)
            requires
                0 <= kk * kk <= 0x100_0000_0000,
                0 <= b * b <= 0x10_0000,
                0 <= k * n <= 0x1_0000_0000,
        ;
        assert(16 * self.theta_squared * n <= 16 * 0x8_0000_0000_0000_0000_0000_0000 * 0x10_0000) by (nonlinear_arith)
            requires
                self.theta_squared <= 0x8_0000_0000_0000_0000_0000_0000,
                0 <= n <= 0x10_0000,
        ;
        assert(4 * self.theta_squared * n <= 16 * self.theta_squared * n) by (nonlinear_arith)
            requires
                self.theta_squared >= 0,
                n >= 0,
        ;
    }

    /// `(4 theta sqrt(N))^2`, the bound on the squared l2 norm of each
    /// randomness component accepted by `open`.
    pub open spec fn open_bound(&self) -> int {
        16 * self.theta_squared * self.N
    }

    /// `(2 theta sqrt(N))^2`, the bound on the squared l2 norm of each
    /// response component accepted by the proof of opening.
    pub open spec fn proof_bound(&self) -> int {
        4 * self.theta_squared * self.N
    }

    /// A vector of `len` elements of this instance's ring.
    pub open spec fn ring_vector(&self, v: Seq<RingPolynomial64>, len: nat) -> bool {
        v.len() == len && all_in_ring(v, self.q, self.N as nat)
    }

    /// A `rows x cols` matrix over this instance's ring.
    pub open spec fn ring_matrix(&self, a: Matrix2D, rows: nat, cols: nat) -> bool {
        a.wf() && a.rows() == rows && a.cols() == cols && a.modulus == self.q && a.ring_degree == self.N
    }

    /// `alpha * r + (0_n || x)`.
    pub open spec fn commitment_of(&self, alpha: Matrix2D, x: Seq<Seq<u64>>, r: Seq<Seq<u64>>) -> Seq<Seq<u64>> {
        vec_add_spec(
            mat_vec_spec(alpha.entries(), alpha.rows(), alpha.cols(), r, self.q, self.N as nat),
            padded(x, self.n as nat, self.N as nat),
            self.q,
        )
    }

    /// The inputs `open` can check: shapes and rings as the parameters state.
    pub open spec fn opening_shaped(
        &self,
        c: Seq<RingPolynomial64>,
        alpha: Matrix2D,
        x: Seq<RingPolynomial64>,
        r: Seq<RingPolynomial64>,
    ) -> bool {
        &&& self.ring_vector(c, (self.n + self.l) as nat)
        &&& self.ring_matrix(alpha, (self.n + self.l) as nat, self.k as nat)
        &&& self.ring_vector(x, self.l as nat)
        &&& self.ring_vector(r, self.k as nat)
    }

    /// The inputs `verify_opening_proof` can check: shapes and rings as the
    /// parameters state.
    pub open spec fn proof_shaped(
        &self,
        t: Seq<RingPolynomial64>,
        z: Seq<RingPolynomial64>,
        cm: Seq<RingPolynomial64>,
        alpha: Matrix2D,
    ) -> bool {
        &&& self.ring_vector(t, self.n as nat)
        &&& self.ring_vector(z, self.k as nat)
        &&& self.ring_vector(cm, (self.n + self.l) as nat)
        &&& self.ring_matrix(alpha, (self.n + self.l) as nat, self.k as nat)
    }

    /// `A_1` holds `I_n` in columns `[0, n)`; `A_2` holds zeros in columns
    /// `[0, n)` and `I_l` in columns `[n, n + l)`.
    pub open spec fn block_shape(&self, a1: Matrix2D, a2: Matrix2D) -> bool {
        &&& forall|i: int, j: int|
            0 <= i < self.n && 0 <= j < self.n ==> #[trigger] a1.entry(i, j) == if i == j {
                ring_one(self.N as nat)
            } else {
                ring_zero(self.N as nat)
            }
        &&& forall|i: int, j: int| 0 <= i < self.l && 0 <= j < self.n ==> #[trigger] a2.entry(i, j) == ring_zero(self.N as nat)
        &&& forall|i: int, j: int|
            0 <= i < self.l && 0 <= j < self.l ==> #[trigger] a2.entry(i, self.n + j) == if i == j {
                ring_one(self.N as nat)
            } else {
                ring_zero(self.N as nat)
            }
    }

    /// The same block structure in the stacked matrix `alpha = A_1 over A_2`.
    pub open spec fn stacked_block_shape(&self, alpha: Matrix2D) -> bool {
        &&& forall|i: int, j: int|
            0 <= i < self.n && 0 <= j < self.n ==> #[trigger] alpha.entry(i, j) == if i == j {
                ring_one(self.N as nat)
            } else {
                ring_zero(self.N as nat)
            }
        &&& forall|i: int, j: int| 0 <= i < self.l && 0 <= j < self.n ==> #[trigger] alpha.entry(self.n + i, j) == ring_zero(self.N as nat)
        &&& forall|i: int, j: int|
            0 <= i < self.l && 0 <= j < self.l ==> #[trigger] alpha.entry(self.n + i, self.n + j) == if i == j {
                ring_one(self.N as nat)
            } else {
                ring_zero(self.N as nat)
            }
    }

    /// Every component of `r` is within the randomness norm bound.
    pub open spec fn randomness_short(&self, r: Seq<RingPolynomial64>) -> bool {
        forall|i: int| 0 <= i < r.len() ==> norm_l2_squared_of(#[trigger] r[i]@, self.q) <= self.open_bound()
    }

    /// What `open` decides.
    pub open spec fn opens(
        &self,
        c: Seq<RingPolynomial64>,
        alpha: Matrix2D,
        x: Seq<RingPolynomial64>,
        r: Seq<RingPolynomial64>,
    ) -> bool {
        &&& self.opening_shaped(c, alpha, x, r)
        &&& self.randomness_short(r)
        &&& views(c) == self.commitment_of(alpha, views(x), views(r))
    }

    /// A new instance over `Z_q[X]/(X^N + 1)` with `k = 3`, `n = 1`, `l = 1`,
    /// `beta = 1` and `kappa = 36`.
    #[allow(non_snake_case)]
    pub fn new(q: u64, polynomial_degree: usize) -> (r: Vcs)
        requires
            valid_modulus(q),
            q > 2,
            valid_ring_degree(polynomial_degree as nat),
            36 <= polynomial_degree,
        ensures
            r.wf(),
            r.q == q,
            r.N == polynomial_degree,
            r.k == 3 && r.n == 1 && r.l == 1 && r.beta == 1 && r.kappa == 36,
    {
        let kappa: usize = 36;
        let beta: usize = 1;
        let k: usize = 3;
        let n: usize = 1;
        let l: usize = 1;
        // 121 * kappa^2 * beta^2 * k
        let theta_squared: u128 = 470448 * (polynomial_degree as u128);
        Vcs { k, n, l, beta, kappa, theta_squared, N: polynomial_degree, q }
    }

    /// An instance with the given parameters, or `None` when they break the
    /// invariants: a supported odd modulus `q > 2 beta`, `N` a power of two,
    /// `n >= 1`, `l >= 1`, `k > n + l`, `kappa <= N`, `beta >= 1`.
    #[allow(non_snake_case)]
    pub fn with_params(q: u64, N: usize, k: usize, n: usize, l: usize, beta: usize, kappa: usize) -> (r: Option<Vcs>)
        ensures
            r is Some <==> {
                &&& valid_modulus(q)
                &&& valid_ring_degree(N as nat)
                &&& 1 <= n
                &&& 1 <= l
                &&& n + l < k <= MAX_DIMENSION
                &&& kappa <= N
                &&& 1 <= beta <= MAX_BETA
                &&& 2 * beta < q
            },
            r matches Some(v) ==> v.wf() && v.q == q && v.N == N && v.k == k && v.n == n && v.l == l
                && v.beta == beta && v.kappa == kappa,
    {
        if q < 2 || q >= MODULUS_LIMIT || N > MAX_RING_DEGREE || !is_power_of_two_exec(N) {
            return None;
        }
        if n < 1 || l < 1 || k > MAX_DIMENSION || n >= k || l >= k - n || kappa > N || beta < 1 || beta > MAX_BETA {
            return None;
        }
        if 2 * (beta as u64) >= q {
            return None;
        }
        let kk = kappa as u128;
        let b = beta as u128;
        assert(kk * kk <= 0x100_0000_0000) by (nonlinear_arith)
            requires
                kk <= 0x10_0000,
        ;
        assert(b * b <= 0x10_0000) by (nonlinear_arith)
            requires
                b <= 1024,
        ;
        assert(kk * kk * (b * b) <= 0x100_0000_0000 * 0x10_0000) by (nonlinear_arith)
            requires
                kk * kk <= 0x100_0000_0000,
                b * b <= 0x10_0000,
        ;
        assert((k as u128) * (N as u128) <= 0x1_0000_0000) by (nonlinear_arith)
            requires
                k <= 0x1000,
                N <= 0x10_0000,
        ;
        let kb = kk * kk * (b * b);
        let kn = (k as u128) * (N as u128);
        assert(121 * kb * kn <= 121 * (0x100_0000_0000 * 0x10_0000) * 0x1_0000_0000) by (nonlinear_arith)
            requires
                kb <= 0x100_0000_0000 * 0x10_0000,
                kn <= 0x1_0000_0000,
        ;
        let theta_squared: u128 = 121 * kb * kn;
        assert(theta_squared == 121 * kappa * kappa * beta * beta * k * N) by (nonlinear_arith)
            requires
                theta_squared == 121 * kb * kn,
                kb == kk * kk * (b * b),
                kn == (k as u128) * (N as u128),
                kk == kappa,
                b == beta,
        ;
        Some(Vcs { k, n, l, beta, kappa, theta_squared, N, q })
    }

    /// The infinity norm bound on the coefficients of the randomness.
    pub fn beta_bound(&self) -> (r: usize)
        ensures
            r == self.beta,
    {
        self.beta
    }

    /// `(0_n || x)`: `n` zero elements followed by copies of `x`.
    fn pad_message(&self, x: &Vec<RingPolynomial64>) -> (r: Vec<RingPolynomial64>)
        requires
            self.wf(),
            all_in_ring(x@, self.q, self.N as nat),
        ensures
            r@.len() == self.n + x@.len(),
            all_in_ring(r@, self.q, self.N as nat),
            views(r@) == padded(views(x@), self.n as nat, self.N as nat),
    {
        let zeros = zero_vector(self.n, self.q, self.N);
        concat_vectors(&zeros, x)
    }

    /// The commitment `alpha * r + (0_n || x)` for given public parameters and
    /// randomness.
    pub fn commit_with(&self, x: &Vec<RingPolynomial64>, alpha: &Matrix2D, r: &Vec<RingPolynomial64>) -> (c: Vec<RingPolynomial64>)
        requires
            self.wf(),
            self.ring_vector(x@, self.l as nat),
            self.ring_matrix(*alpha, (self.n + self.l) as nat, self.k as nat),
            self.ring_vector(r@, self.k as nat),
        ensures
            self.ring_vector(c@, (self.n + self.l) as nat),
            views(c@) == self.commitment_of(*alpha, views(x@), views(r@)),
    {
        let ar = alpha.mul_vec(r);
        let padded_x = self.pad_message(x);
        vector_add(&ar, &padded_x, self.q, self.N)
    }

    /// Open a commitment: whether every component of `r` has l2 norm at most
    /// `4 theta sqrt(N)` and `alpha * r + (0_n || x)` equals `commitment`.
    /// Inputs of the wrong shape or ring do not open.
    pub fn open(
        &self,
        commitment: &Vec<RingPolynomial64>,
        alpha: &Matrix2D,
        x: &Vec<RingPolynomial64>,
        r: &Vec<RingPolynomial64>,
    ) -> (b: bool)
        requires
            self.wf(),
        ensures
            b == self.opens(commitment@, *alpha, x@, r@),
    {
        let q = self.q;
        let big_n = self.N;
        if commitment.len() != self.n + self.l || x.len() != self.l || r.len() != self.k {
            return false;
        }
        if !all_members(commitment, q, big_n) || !all_members(x, q, big_n) || !all_members(r, q, big_n) {
            return false;
        }
        if !alpha.has_shape(self.n + self.l, self.k, q, big_n) {
            return false;
        }
        proof {
            self.lemma_bounds_fit();
        }
        let bound: u128 = 16 * self.theta_squared * (big_n as u128);
        let mut i: usize = 0;
        while i < r.len()
            invariant
                i <= r@.len(),
                self.wf(),
                bound == self.open_bound(),
                all_in_ring(r@, q, big_n as nat),
                q == self.q,
                forall|j: int| 0 <= j < i ==> norm_l2_squared_of(#[trigger] r@[j]@, q) <= self.open_bound(),
            decreases r@.len() - i,
        {
            assert(r@[i as int].in_ring(q, big_n as nat));
            if r[i].norm_l2_squared() > bound {
                return false;
            }
            i += 1;
        }
        let c = self.commit_with(x, alpha, r);
        vectors_equal(&c, commitment)
    }

    /// The challenge a transcript `t` determines, as the contract of
    /// `sample_challenge_vector` describes it on success.
    pub open spec fn is_challenge_for(&self, t: Seq<Seq<u64>>, d: Seq<u64>) -> bool {
        exists|j: nat|
            j <= draw_limit(self.N as nat) && first_full(challenge_seed(t), self.N as nat, self.kappa as nat, j)
                && d == challenge_poly(drawn(challenge_seed(t), self.N as nat, j))
    }

    /// What `sample_challenge_vector` returns for transcript `t`, stated over
    /// the challenge's coefficients.
    pub open spec fn challenge_outcome(&self, t: Seq<Seq<u64>>, r: Result<Seq<u64>, ChallengeError>) -> bool {
        match r {
            Ok(d) => {
                &&& self.is_challenge_for(t, d)
                &&& norm_l1_of(d, self.q) == self.kappa
                &&& norm_max_of(d, self.q) == 1
            },
            Err(ChallengeError::SamplerExhausted) => forall|j: nat|
                j <= draw_limit(self.N as nat) ==> ones(#[trigger] drawn(challenge_seed(t), self.N as nat, j)) < self.kappa,
            Err(ChallengeError::InvalidChallenge) => exists|d: Seq<u64>|
                self.is_challenge_for(t, d) && !(norm_l1_of(d, self.q) == self.kappa && norm_max_of(d, self.q) == 1),
        }
    }

    /// Sample the challenge for transcript `t`: seed a ChaCha stream with the
    /// transcript's bytes, draw degrees in `[0, N)` by rejection until `kappa`
    /// distinct ones are chosen, and set those coefficients to 1.
    pub fn sample_challenge_vector(&self, t: &Vec<RingPolynomial64>) -> (r: Result<RingPolynomial64, ChallengeError>)
        requires
            self.wf(),
        ensures
            r matches Ok(d) ==> d.in_ring(self.q, self.N as nat),
            self.challenge_outcome(views(t@), challenge_view(r)),
            (r matches Err(ChallengeError::InvalidChallenge)) ==> self.kappa == 0,
            self.kappa == 0 ==> !(r is Ok),
    {
        let words = transcript_words(t);
        let bytes = encode_transcript(&words).unwrap();
        let ghost seed = challenge_seed(views(t@));
        let mut rng = ChaChaRng::from_seed(bytes.as_slice());
        let flags = match draw_degrees(&mut rng, self.N, self.kappa) {
            Some(f) => f,
            None => return Err(ChallengeError::SamplerExhausted),
        };
        let ghost j = choose|j: nat| j <= draw_limit(self.N as nat) && first_full(seed, self.N as nat, self.kappa as nat, j) && flags@ == drawn(seed, self.N as nat, j);
        let big_n = self.N;
        let mut coefficients: Vec<u64> = Vec::new();
        let mut i: usize = 0;
        proof {
            lemma_drawn_len(seed, big_n as nat, j);
        }
        while i < big_n
            invariant
                i <= big_n == flags@.len(),
                self.wf(),
                coefficients@ == challenge_poly(flags@).subrange(0, i as int),
            decreases big_n - i,
        {
            coefficients.push(if flags[i] { 1u64 } else { 0u64 });
            i += 1;
            assert(coefficients@ =~= challenge_poly(flags@).subrange(0, i as int));
        }
        assert(coefficients@ =~= challenge_poly(flags@));
        let out = RingPolynomial64(Polynomial { coefficients, modulus: self.q });
        assert(self.is_challenge_for(views(t@), out@));
        proof {
            crate::challenge::lemma_challenge_norms(flags@, self.q);
        }
        proof {
            lemma_drawn_len(seed, big_n as nat, j);
        }
        if out.norm_l1() != self.kappa as u64 || out.norm_max() != 1 {
            return Err(ChallengeError::InvalidChallenge);
        }
        Ok(out)
    }

    /// The entries of the upper block `A_1`: the first `n` rows of `alpha`.
    pub open spec fn upper(&self, alpha: Matrix2D) -> Seq<Seq<u64>> {
        views(alpha.values@.subrange(0, self.n * self.k))
    }

    /// `A_1 * v` for the upper block of `alpha`.
    pub open spec fn upper_times(&self, alpha: Matrix2D, v: Seq<Seq<u64>>) -> Seq<Seq<u64>> {
        mat_vec_spec(self.upper(alpha), self.n as nat, self.k as nat, v, self.q, self.N as nat)
    }

    /// Every component of `z` is within the response norm bound.
    pub open spec fn response_short(&self, z: Seq<Seq<u64>>) -> bool {
        forall|i: int| 0 <= i < z.len() ==> norm_l2_squared_of(#[trigger] z[i], self.q) <= self.proof_bound()
    }

    /// What `verify_opening_proof` returns for `(t, z)`, commitment `cm`
    /// and parameters `alpha`.
    pub open spec fn verification(
        &self,
        t: Seq<RingPolynomial64>,
        z: Seq<RingPolynomial64>,
        cm: Seq<RingPolynomial64>,
        alpha: Matrix2D,
        res: Result<bool, ChallengeError>,
    ) -> bool {
        &&& !self.proof_shaped(t, z, cm, alpha) ==> res == Ok::<bool, ChallengeError>(false)
        &&& self.proof_shaped(t, z, cm, alpha) && !self.response_short(views(z)) ==> res == Ok::<
            bool,
            ChallengeError,
        >(false)
        &&& self.proof_shaped(t, z, cm, alpha) && self.response_short(views(z)) ==> match res {
            Ok(b) => exists|d: Seq<u64>|
                self.challenge_outcome(views(t), Ok(d)) && b == (self.upper_times(alpha, views(z)) == vec_add_spec(
                    views(t),
                    vec_scale_spec(views(cm).subrange(0, self.n as int), d, self.q),
                    self.q,
                )),
            Err(e) => self.challenge_outcome(views(t), Err(e)),
        }
    }

    /// Split `alpha` by rows into `A_1` (`n` rows) and `A_2` (`l` rows).
    pub fn decompose_alpha(&self, alpha: &Matrix2D) -> (r: (Matrix2D, Matrix2D))
        requires
            self.wf(),
            self.ring_matrix(*alpha, (self.n + self.l) as nat, self.k as nat),
        ensures
            self.ring_matrix(r.0, self.n as nat, self.k as nat),
            self.ring_matrix(r.1, self.l as nat, self.k as nat),
            r.0.entries() == self.upper(*alpha),
            forall|i: int, j: int| 0 <= i < self.n && 0 <= j < self.k ==> #[trigger] r.0.entry(i, j) == alpha.entry(i, j),
            forall|i: int, j: int| 0 <= i < self.l && 0 <= j < self.k ==> #[trigger] r.1.entry(i, j) == alpha.entry(self.n + i, j),
    {
        alpha.split_vertical(self.n, self.l)
    }

    /// Split a commitment into `c_1` (the first `n` components) and `c_2`
    /// (the rest).
    pub fn decompose_cm(&self, cm: &Vec<RingPolynomial64>) -> (r: (Vec<RingPolynomial64>, Vec<RingPolynomial64>))
        requires
            self.wf(),
            self.n <= cm@.len(),
        ensures
            r.0@.len() == self.n,
            r.1@.len() == cm@.len() - self.n,
            views(r.0@) == views(cm@).subrange(0, self.n as int),
            views(r.1@) == views(cm@).subrange(self.n as int, cm@.len() as int),
            all_in_ring(cm@, self.q, self.N as nat) ==> all_in_ring(r.0@, self.q, self.N as nat) && all_in_ring(
                r.1@,
                self.q,
                self.N as nat,
            ),
    {
        let c1 = copy_range(cm, 0, self.n);
        let c2 = copy_range(cm, self.n, cm.len());
        assert(views(cm@.subrange(0, self.n as int)) =~= views(cm@).subrange(0, self.n as int));
        assert(views(cm@.subrange(self.n as int, cm@.len() as int)) =~= views(cm@).subrange(self.n as int, cm@.len() as int));
        (c1, c2)
    }

    /// One attempt of the proof of opening, for a masking vector `y` drawn by
    /// the caller: `t = A_1 * y`, `d` the challenge for `t`, `z = y + r * d`.
    /// `Ok(None)` when some component of `z` exceeds `2 theta sqrt(N)` in l2
    /// norm: the attempt is rejected and the caller draws a new `y`.
    pub fn prove_opening(&self, alpha: &Matrix2D, r: &Vec<RingPolynomial64>, y: &Vec<RingPolynomial64>) -> (res: Result<Option<(Vec<RingPolynomial64>, Vec<RingPolynomial64>)>, ChallengeError>)
        requires
            self.wf(),
            self.ring_matrix(*alpha, (self.n + self.l) as nat, self.k as nat),
            self.ring_vector(r@, self.k as nat),
            self.ring_vector(y@, self.k as nat),
        ensures
            ({
                let t = self.upper_times(*alpha, views(y@));
                match res {
                    Ok(Some((tv, z))) => {
                        &&& views(tv@) == t
                        &&& self.ring_vector(tv@, self.n as nat)
                        &&& self.ring_vector(z@, self.k as nat)
                        &&& exists|d: Seq<u64>|
                            self.challenge_outcome(t, Ok(d)) && views(z@) == vec_add_spec(
                                views(y@),
                                vec_scale_spec(views(r@), d, self.q),
                                self.q,
                            )
                        &&& self.response_short(views(z@))
                    },
                    Ok(None) => exists|d: Seq<u64>|
                        self.challenge_outcome(t, Ok(d)) && !self.response_short(
                            vec_add_spec(views(y@), vec_scale_spec(views(r@), d, self.q), self.q),
                        ),
                    Err(e) => self.challenge_outcome(t, Err(e)),
                }
            }),
    {
        let (alpha_1, _alpha_2) = self.decompose_alpha(alpha);
        let t = alpha_1.mul_vec(y);
        let d = self.sample_challenge_vector(&t)?;
        let rd = vector_scale(r, &d, self.q, self.N);
        let z = vector_add(y, &rd, self.q, self.N);
        assert(views(t@) == self.upper_times(*alpha, views(y@)));
        proof {
            self.lemma_bounds_fit();
        }
        let bound: u128 = 4 * self.theta_squared * (self.N as u128);
        let mut i: usize = 0;
        while i < z.len()
            invariant
                i <= z@.len(),
                self.wf(),
                bound == self.proof_bound(),
                all_in_ring(z@, self.q, self.N as nat),
                forall|j: int| 0 <= j < i ==> norm_l2_squared_of(#[trigger] z@[j]@, self.q) <= self.proof_bound(),
                views(t@) == self.upper_times(*alpha, views(y@)),
                self.challenge_outcome(views(t@), Ok(d@)),
                views(z@) == vec_add_spec(views(y@), vec_scale_spec(views(r@), d@, self.q), self.q),
            decreases z@.len() - i,
        {
            assert(z@[i as int].in_ring(self.q, self.N as nat));
            if z[i].norm_l2_squared() > bound {
                assert(views(z@)[i as int] == z@[i as int]@);
                assert(!self.response_short(views(z@)));
                assert(self.challenge_outcome(self.upper_times(*alpha, views(y@)), Ok(d@)));
                return Ok(None);
            }
            i += 1;
        }
        assert forall|j: int| 0 <= j < views(z@).len() implies norm_l2_squared_of(#[trigger] views(z@)[j], self.q) <= self.proof_bound() by {
            assert(views(z@)[j] == z@[j]@);
        }
        Ok(Some((t, z)))
    }

    /// Check a proof of opening `(t, z)` of commitment `cm` under `alpha`:
    /// every component of `z` has l2 norm at most `2 theta sqrt(N)`, and
    /// `A_1 * z == t + c_1 * d` for the challenge `d` of `t`. Inputs of the
    /// wrong shape or ring are rejected.
    pub fn verify_opening_proof(
        &self,
        t: &Vec<RingPolynomial64>,
        z: &Vec<RingPolynomial64>,
        cm: &Vec<RingPolynomial64>,
        alpha: &Matrix2D,
    ) -> (res: Result<bool, ChallengeError>)
        requires
            self.wf(),
        ensures
            self.verification(t@, z@, cm@, *alpha, res),
    {
        let q = self.q;
        let big_n = self.N;
        if t.len() != self.n || z.len() != self.k || cm.len() != self.n + self.l {
            return Ok(false);
        }
        if !all_members(t, q, big_n) || !all_members(z, q, big_n) || !all_members(cm, q, big_n) {
            return Ok(false);
        }
        if !alpha.has_shape(self.n + self.l, self.k, q, big_n) {
            return Ok(false);
        }
        proof {
            self.lemma_bounds_fit();
        }
        let bound: u128 = 4 * self.theta_squared * (big_n as u128);
        let mut i: usize = 0;
        while i < z.len()
            invariant
                i <= z@.len(),
                self.wf(),
                bound == self.proof_bound(),
                q == self.q,
                big_n == self.N,
                all_in_ring(z@, q, big_n as nat),
                forall|j: int| 0 <= j < i ==> norm_l2_squared_of(#[trigger] z@[j]@, q) <= self.proof_bound(),
            decreases z@.len() - i,
        {
            assert(z@[i as int].in_ring(q, big_n as nat));
            if z[i].norm_l2_squared() > bound {
                assert(views(z@)[i as int] == z@[i as int]@);
                assert(!self.response_short(views(z@)));
                return Ok(false);
            }
            i += 1;
        }
        assert(self.response_short(views(z@))) by {
            assert forall|j: int| 0 <= j < views(z@).len() implies norm_l2_squared_of(#[trigger] views(z@)[j], q) <= self.proof_bound() by {
                assert(views(z@)[j] == z@[j]@);
            }
        }
        let d = self.sample_challenge_vector(t)?;
        let (alpha_1, _alpha_2) = self.decompose_alpha(alpha);
        let (cm_1, _cm_2) = self.decompose_cm(cm);
        let lhs = alpha_1.mul_vec(z);
        let cd = vector_scale(&cm_1, &d, q, big_n);
        let rhs = vector_add(t, &cd, q, big_n);
        Ok(vectors_equal(&lhs, &rhs))
    }

    /// Coefficients drawn uniformly from `{-beta, ..., beta}`.
    fn draw_beta(&self) -> (r: RingPolynomial64)
        requires
            self.wf(),
        ensures
            r.in_ring(self.q, self.N as nat),
            in_s_beta(r@, self.q, self.beta as nat),
    {
        let q = self.q;
        let beta = self.beta as u64;
        let mut v: Vec<u64> = Vec::new();
        let mut i: usize = 0;
        while i < self.N
            invariant
                i <= self.N,
                self.wf(),
                q == self.q,
                beta == self.beta,
                v@.len() == i,
                forall|j: int| 0 <= j < i ==> v@[j] < q,
                forall|j: int| 0 <= j < i ==> centered_abs(#[trigger] v@[j] as int, q as int) <= beta,
            decreases self.N - i,
        {
            let draw = random_below(2 * beta + 1);
            let c = if draw >= beta { draw - beta } else { q - (beta - draw) };
            v.push(c);
            i += 1;
        }
        let r = RingPolynomial64(Polynomial { coefficients: v, modulus: q });
        r
    }

    /// A nonzero element of `S_beta`: coefficients drawn uniformly from
    /// `{-beta, ..., beta}`, drawn again while all of them are zero. Should
    /// every one of a bounded number of draws be zero, the constant 1 is taken.
    pub fn sample_beta(&self) -> (r: RingPolynomial64)
        requires
            self.wf(),
        ensures
            r.in_ring(self.q, self.N as nat),
            in_s_beta(r@, self.q, self.beta as nat),
            !all_zero(r@),
    {
        let mut e = self.draw_beta();
        let mut tries: usize = 0;
        while tries < 64
            invariant
                self.wf(),
                e.in_ring(self.q, self.N as nat),
                in_s_beta(e@, self.q, self.beta as nat),
            decreases 64 - tries,
        {
            if !e.0.is_zero() {
                return e;
            }
            e = self.draw_beta();
            tries += 1;
        }
        if e.0.is_zero() {
            e = RingPolynomial64::one(self.q, self.N);
            assert(centered_abs(1, self.q as int) == 1);
            assert(e@[0] == 1);
        }
        e
    }

    /// A `rows x cols` matrix of uniformly drawn ring elements.
    pub fn sample_uniform(&self, rows: usize, cols: usize) -> (r: Matrix2D)
        requires
            self.wf(),
            rows <= MAX_DIMENSION,
            cols <= MAX_DIMENSION,
        ensures
            self.ring_matrix(r, rows as nat, cols as nat),
    {
        assert(rows * cols <= MAX_DIMENSION * MAX_DIMENSION) by (nonlinear_arith)
            requires
                rows <= MAX_DIMENSION,
                cols <= MAX_DIMENSION,
        ;
        let total = rows * cols;
        let mut values: Vec<RingPolynomial64> = Vec::new();
        let mut i: usize = 0;
        while i < total
            invariant
                total == rows * cols,
                i <= total,
                self.wf(),
                values@.len() == i,
                all_in_ring(values@, self.q, self.N as nat),
            decreases total - i,
        {
            values.push(sample_uniform_element(self.q, self.N));
            i += 1;
        }
        Matrix2D { dimensions: (rows, cols), values, modulus: self.q, ring_degree: self.N }
    }

    /// The public parameters with the given uniform blocks:
    /// `A_1 = [I_n | A'_1]` and `A_2 = [0_{l,n} | I_l | A'_2]`.
    pub fn public_params_from(&self, alpha_1_prime: &Matrix2D, alpha_2_prime: &Matrix2D) -> (r: (Matrix2D, Matrix2D))
        requires
            self.wf(),
            self.ring_matrix(*alpha_1_prime, self.n as nat, (self.k - self.n) as nat),
            self.ring_matrix(*alpha_2_prime, self.l as nat, (self.k - self.n - self.l) as nat),
        ensures
            self.ring_matrix(r.0, self.n as nat, self.k as nat),
            self.ring_matrix(r.1, self.l as nat, self.k as nat),
            self.block_shape(r.0, r.1),
            forall|i: int, j: int| 0 <= i < self.n && self.n <= j < self.k ==> #[trigger] r.0.entry(i, j) == alpha_1_prime.entry(i, j - self.n),
            forall|i: int, j: int| 0 <= i < self.l && self.n + self.l <= j < self.k ==> #[trigger] r.1.entry(i, j) == alpha_2_prime.entry(i, j - self.n - self.l),
    {
        let q = self.q;
        let big_n = self.N;
        let alpha_1 = Matrix2D::identity(self.n, q, big_n).compose_horizontal(alpha_1_prime);
        let zero_block = Matrix2D::zero(self.l, self.n, q, big_n);
        let id_l = Matrix2D::identity(self.l, q, big_n);
        let left = zero_block.compose_horizontal(&id_l);
        let alpha_2 = left.compose_horizontal(alpha_2_prime);
        assert forall|i: int, j: int| 0 <= i < self.l && 0 <= j < self.n + self.l implies #[trigger] alpha_2.entry(i, j) == left.entry(i, j) by {}
        assert forall|i: int, j: int| 0 <= i < self.l && 0 <= j < self.n implies #[trigger] left.entry(i, j) == ring_zero(self.N as nat) by {
            assert(zero_block.entry(i, j) == ring_zero(self.N as nat));
        }
        assert forall|i: int, j: int| 0 <= i < self.l && 0 <= j < self.l implies #[trigger] left.entry(i, self.n + j) == (if i == j { ring_one(self.N as nat) } else { ring_zero(self.N as nat) }) by {
            assert(id_l.entry(i, j) == (if i == j { ring_one(self.N as nat) } else { ring_zero(self.N as nat) }));
        }
        assert forall|i: int, j: int| 0 <= i < self.n && self.n <= j < self.k implies #[trigger] alpha_1.entry(i, j) == alpha_1_prime.entry(i, j - self.n) by {
            assert(alpha_1.entry(i, self.n + (j - self.n)) == alpha_1_prime.entry(i, j - self.n));
        }
        assert forall|i: int, j: int| 0 <= i < self.l && self.n + self.l <= j < self.k implies #[trigger] alpha_2.entry(i, j) == alpha_2_prime.entry(i, j - self.n - self.l) by {
            assert(alpha_2.entry(i, (self.n + self.l) + (j - self.n - self.l)) == alpha_2_prime.entry(i, j - self.n - self.l));
        }
        assert(self.block_shape(alpha_1, alpha_2)) by {
            assert forall|i: int, j: int| 0 <= i < self.l && 0 <= j < self.n implies #[trigger] alpha_2.entry(i, j) == ring_zero(self.N as nat) by {
                assert(alpha_2.entry(i, j) == left.entry(i, j));
                assert(left.entry(i, j) == ring_zero(self.N as nat));
            }
            assert forall|i: int, j: int| 0 <= i < self.l && 0 <= j < self.l implies #[trigger] alpha_2.entry(i, self.n + j) == (if i == j { ring_one(self.N as nat) } else { ring_zero(self.N as nat) }) by {
                assert(alpha_2.entry(i, self.n + j) == left.entry(i, self.n + j));
                assert(left.entry(i, self.n + j) == (if i == j { ring_one(self.N as nat) } else { ring_zero(self.N as nat) }));
            }
        }
        (alpha_1, alpha_2)
    }

    /// Fresh public parameters `(A_1, A_2)`, with `A'_1` and `A'_2` drawn uniformly.
    pub fn public_params(&self) -> (r: (Matrix2D, Matrix2D))
        requires
            self.wf(),
        ensures
            self.ring_matrix(r.0, self.n as nat, self.k as nat),
            self.ring_matrix(r.1, self.l as nat, self.k as nat),
            self.block_shape(r.0, r.1),
    {
        let alpha_1_prime = self.sample_uniform(self.n, self.k - self.n);
        let alpha_2_prime = self.sample_uniform(self.l, self.k - self.n - self.l);
        self.public_params_from(&alpha_1_prime, &alpha_2_prime)
    }

    /// Commit to `x`: draw `r` from `S_beta^k` and fresh public parameters
    /// `alpha = A_1 over A_2`, and return `(alpha, alpha * r + (0_n || x), r)`.
    pub fn commit(&self, x: &Vec<RingPolynomial64>) -> (res: (Matrix2D, Vec<RingPolynomial64>, Vec<RingPolynomial64>))
        requires
            self.wf(),
            self.ring_vector(x@, self.l as nat),
        ensures
            self.ring_matrix(res.0, (self.n + self.l) as nat, self.k as nat),
            self.stacked_block_shape(res.0),
            self.ring_vector(res.1@, (self.n + self.l) as nat),
            self.ring_vector(res.2@, self.k as nat),
            forall|i: int| 0 <= i < self.k ==> in_s_beta(#[trigger] res.2@[i]@, self.q, self.beta as nat),
            forall|i: int| 0 <= i < self.k ==> !all_zero(#[trigger] res.2@[i]@),
            views(res.1@) == self.commitment_of(res.0, views(x@), views(res.2@)),
    {
        let mut r: Vec<RingPolynomial64> = Vec::new();
        let mut i: usize = 0;
        while i < self.k
            invariant
                i <= self.k,
                self.wf(),
                r@.len() == i,
                all_in_ring(r@, self.q, self.N as nat),
                forall|j: int| 0 <= j < i ==> in_s_beta(#[trigger] r@[j]@, self.q, self.beta as nat),
                forall|j: int| 0 <= j < i ==> !all_zero(#[trigger] r@[j]@),
            decreases self.k - i,
        {
            r.push(self.sample_beta());
            i += 1;
        }
        let (alpha_1, alpha_2) = self.public_params();
        let alpha = alpha_1.compose_vertical(&alpha_2);
        assert(self.stacked_block_shape(alpha)) by {
            assert forall|i: int, j: int| 0 <= i < self.n && 0 <= j < self.n implies #[trigger] alpha.entry(i, j) == (if i == j { ring_one(self.N as nat) } else { ring_zero(self.N as nat) }) by {
                assert(alpha.entry(i, j) == alpha_1.entry(i, j));
            }
            assert forall|i: int, j: int| 0 <= i < self.l && 0 <= j < self.n implies #[trigger] alpha.entry(self.n + i, j) == ring_zero(self.N as nat) by {
                assert(alpha.entry(self.n + i, j) == alpha_2.entry(i, j));
            }
            assert forall|i: int, j: int| 0 <= i < self.l && 0 <= j < self.l implies #[trigger] alpha.entry(self.n + i, self.n + j) == (if i == j { ring_one(self.N as nat) } else { ring_zero(self.N as nat) }) by {
                assert(alpha.entry(self.n + i, self.n + j) == alpha_2.entry(i, self.n + j));
            }
        }
        let c = self.commit_with(x, &alpha, &r);
        (alpha, c, r)
    }

    /// Opening a commitment with the message and randomness it was made from
    /// succeeds: for every message `x` and every `r` in `S_beta^k`,
    /// `open(alpha * r + (0_n || x), alpha, x, r)` holds.
    pub proof fn lemma_commit_then_open(
        &self,
        c: Seq<RingPolynomial64>,
        alpha: Matrix2D,
        x: Seq<RingPolynomial64>,
        r: Seq<RingPolynomial64>,
    )
        requires
            self.wf(),
            self.kappa >= 1,
            self.ring_vector(c, (self.n + self.l) as nat),
            self.ring_matrix(alpha, (self.n + self.l) as nat, self.k as nat),
            self.ring_vector(x, self.l as nat),
            self.ring_vector(r, self.k as nat),
            forall|i: int| 0 <= i < r.len() ==> in_s_beta(#[trigger] r[i]@, self.q, self.beta as nat),
            views(c) == self.commitment_of(alpha, views(x), views(r)),
        ensures
            self.opens(c, alpha, x, r),
    {
        let b = self.beta as int;
        let kk = self.kappa as int;
        let n = self.N as int;
        let k = self.k as int;
        assert(b * b <= self.theta_squared) by (nonlinear_arith)
            requires
                self.theta_squared == 121 * kk * kk * b * b * k * n,
                kk >= 1,
                k >= 1,
                n >= 1,
        ;
        assert(n * (b * b) <= self.open_bound()) by (nonlinear_arith)
            requires
                b * b <= self.theta_squared,
                self.open_bound() == 16 * self.theta_squared * n,
                n >= 1,
        ;
        assert forall|i: int| 0 <= i < r.len() implies norm_l2_squared_of(#[trigger] r[i]@, self.q) <= self.open_bound() by {
            assert(r[i].in_ring(self.q, self.N as nat));
            lemma_s_beta_l2(r[i]@, self.q, self.beta as nat, r[i]@.len() as int);
        }
    }

    /// A commitment to `x` does not open to any other message `x2` with the
    /// same randomness.
    pub proof fn lemma_binding(
        &self,
        c: Seq<RingPolynomial64>,
        alpha: Matrix2D,
        x: Seq<RingPolynomial64>,
        x2: Seq<RingPolynomial64>,
        r: Seq<RingPolynomial64>,
    )
        requires
            self.wf(),
            self.ring_vector(x, self.l as nat),
            self.ring_vector(x2, self.l as nat),
            views(x) != views(x2),
            views(c) == self.commitment_of(alpha, views(x), views(r)),
        ensures
            !self.opens(c, alpha, x2, r),
    {
        if self.opens(c, alpha, x2, r) {
            let m = mat_vec_spec(alpha.entries(), alpha.rows(), alpha.cols(), views(r), self.q, self.N as nat);
            let i = choose|i: int| 0 <= i < self.l && views(x)[i] != views(x2)[i];
            assert(exists|i: int| 0 <= i < self.l && views(x)[i] != views(x2)[i]) by {
                if forall|i: int| 0 <= i < self.l ==> views(x)[i] == views(x2)[i] {
                    assert(views(x) =~= views(x2));
                }
            }
            let row = self.n + i;
            assert(x[i].in_ring(self.q, self.N as nat));
            assert(x2[i].in_ring(self.q, self.N as nat));
            lemma_dot_prefix_len(alpha.entries(), alpha.cols(), row, views(r), self.q, self.N as nat, alpha.cols() as int);
            let lhs = self.commitment_of(alpha, views(x), views(r))[row];
            let rhs = self.commitment_of(alpha, views(x2), views(r))[row];
            assert(lhs == rhs);
            assert(padded(views(x), self.n as nat, self.N as nat)[row] == x[i]@);
            assert(padded(views(x2), self.n as nat, self.N as nat)[row] == x2[i]@);
            let j = choose|j: int| 0 <= j < self.N && x[i]@[j] != x2[i]@[j];
            assert(exists|j: int| 0 <= j < self.N && x[i]@[j] != x2[i]@[j]) by {
                if forall|j: int| 0 <= j < self.N ==> x[i]@[j] == x2[i]@[j] {
                    assert(x[i]@ =~= x2[i]@);
                }
            }
            assert(lhs[j] == rhs[j]);
            let a = coef(m[row], j);
            assert(((a + x[i]@[j]) % (self.q as int)) as u64 == ((a + x2[i]@[j]) % (self.q as int)) as u64);
            lemma_add_mod_cancel(a, x[i]@[j] as int, x2[i]@[j] as int, self.q as int);
        }
    }

    /// Randomness with a component whose l2 norm exceeds `4 theta sqrt(N)`
    /// never opens a commitment, whatever the algebra says.
    pub proof fn lemma_long_randomness_rejected(
        &self,
        c: Seq<RingPolynomial64>,
        alpha: Matrix2D,
        x: Seq<RingPolynomial64>,
        r: Seq<RingPolynomial64>,
        i: int,
    )
        requires
            0 <= i < r.len(),
            norm_l2_squared_of(r[i]@, self.q) > self.open_bound(),
        ensures
            !self.opens(c, alpha, x, r),
    {
    }

    /// The challenge is a function of the transcript: two challenges derived
    /// from the same transcript are equal.
    pub proof fn lemma_challenge_deterministic(&self, t: Seq<Seq<u64>>, d1: Seq<u64>, d2: Seq<u64>)
        requires
            self.is_challenge_for(t, d1),
            self.is_challenge_for(t, d2),
        ensures
            d1 == d2,
    {
        let seed = challenge_seed(t);
        let j1 = choose|j: nat|
            j <= draw_limit(self.N as nat) && first_full(seed, self.N as nat, self.kappa as nat, j) && d1
                == challenge_poly(drawn(seed, self.N as nat, j));
        let j2 = choose|j: nat|
            j <= draw_limit(self.N as nat) && first_full(seed, self.N as nat, self.kappa as nat, j) && d2
                == challenge_poly(drawn(seed, self.N as nat, j));
        lemma_first_full_unique(seed, self.N as nat, self.kappa as nat, j1, j2);
    }

    /// The verifier's equation holds for every honest response:
    /// `A_1 * (y + r * d) = A_1 * y + c_1 * d` where `c_1` is the first block
    /// of the commitment `alpha * r + (0_n || x)`.
    pub proof fn lemma_proof_equation(
        &self,
        alpha: Matrix2D,
        x: Seq<Seq<u64>>,
        r: Seq<RingPolynomial64>,
        y: Seq<RingPolynomial64>,
        d: Seq<u64>,
    )
        requires
            self.wf(),
            self.ring_matrix(alpha, (self.n + self.l) as nat, self.k as nat),
            self.ring_vector(r, self.k as nat),
            self.ring_vector(y, self.k as nat),
            d.len() == self.N,
        ensures
            self.upper_times(alpha, vec_add_spec(views(y), vec_scale_spec(views(r), d, self.q), self.q))
                == vec_add_spec(
                self.upper_times(alpha, views(y)),
                vec_scale_spec(self.commitment_of(alpha, x, views(r)).subrange(0, self.n as int), d, self.q),
                self.q,
            ),
    {
        let q = self.q;
        let big_n = self.N as nat;
        let k = self.k as nat;
        let u = self.upper(alpha);
        let vy = views(y);
        let vr = views(r);
        let z = vec_add_spec(vy, vec_scale_spec(vr, d, q), q);
        let lhs = self.upper_times(alpha, z);
        let rhs = vec_add_spec(
            self.upper_times(alpha, vy),
            vec_scale_spec(self.commitment_of(alpha, x, vr).subrange(0, self.n as int), d, q),
            q,
        );
        assert(z =~= Seq::new(k, |j: int| ring_add_spec(vy[j], ring_mul_spec(vr[j], d, q), q)));
        assert forall|i: int| 0 <= i < self.n implies lhs[i] == rhs[i] by {
            assert forall|j: int| 0 <= j < k implies (#[trigger] u[i * k + j]).len() == big_n && u[i * k + j] == alpha.entries()[i * k + j] by {
                lemma_row_major(i, j, self.n as int, k as int);
                lemma_row_major(i, j, (self.n + self.l) as int, k as int);
                assert(self.n * k <= (self.n + self.l) * k) by (nonlinear_arith);
                assert(alpha.values@[i * k + j].in_ring(q, big_n));
            }
            assert forall|j: int| 0 <= j < k implies (#[trigger] vy[j]).len() == big_n by {
                assert(y[j].in_ring(q, big_n));
            }
            assert forall|j: int| 0 <= j < k implies (#[trigger] vr[j]).len() == big_n by {
                assert(r[j].in_ring(q, big_n));
            }
            crate::algebra::lemma_dot_linear(u, k, i, vy, vr, d, q, big_n, k as int);
            crate::algebra::lemma_dot_same_row(u, alpha.entries(), k, i, vr, q, big_n, k as int);
            crate::algebra::lemma_dot_plus_zero(alpha.entries(), k, i, vr, q, big_n, k as int);
        }
        assert(lhs =~= rhs);
    }

    /// Completeness of the proof of opening: a proof `(t, z)` that
    /// `prove_opening` produced for the randomness of a commitment verifies.
    pub proof fn lemma_completeness(
        &self,
        alpha: Matrix2D,
        x: Seq<RingPolynomial64>,
        r: Seq<RingPolynomial64>,
        c: Seq<RingPolynomial64>,
        y: Seq<RingPolynomial64>,
        t: Seq<RingPolynomial64>,
        z: Seq<RingPolynomial64>,
        res: Result<bool, ChallengeError>,
    )
        requires
            self.wf(),
            self.ring_matrix(alpha, (self.n + self.l) as nat, self.k as nat),
            self.ring_vector(r, self.k as nat),
            self.ring_vector(y, self.k as nat),
            self.ring_vector(c, (self.n + self.l) as nat),
            views(c) == self.commitment_of(alpha, views(x), views(r)),
            views(t) == self.upper_times(alpha, views(y)),
            self.ring_vector(t, self.n as nat),
            self.ring_vector(z, self.k as nat),
            exists|d: Seq<u64>|
                self.challenge_outcome(views(t), Ok(d)) && views(z) == vec_add_spec(
                    views(y),
                    vec_scale_spec(views(r), d, self.q),
                    self.q,
                ),
            self.response_short(views(z)),
            self.verification(t, z, c, alpha, res),
        ensures
            res == Ok::<bool, ChallengeError>(true),
    {
        let d = choose|d: Seq<u64>|
            self.challenge_outcome(views(t), Ok(d)) && views(z) == vec_add_spec(
                views(y),
                vec_scale_spec(views(r), d, self.q),
                self.q,
            );
        let seed = challenge_seed(views(t));
        let j = choose|j: nat|
            j <= draw_limit(self.N as nat) && first_full(seed, self.N as nat, self.kappa as nat, j) && d
                == challenge_poly(drawn(seed, self.N as nat, j));
        lemma_drawn_len(seed, self.N as nat, j);
        assert(self.proof_shaped(t, z, c, alpha));
        match res {
            Ok(b) => {
                let d2 = choose|d2: Seq<u64>|
                    self.challenge_outcome(views(t), Ok(d2)) && b == (self.upper_times(alpha, views(z)) == vec_add_spec(
                        views(t),
                        vec_scale_spec(views(c).subrange(0, self.n as int), d2, self.q),
                        self.q,
                    ));
                self.lemma_challenge_deterministic(views(t), d, d2);
                self.lemma_proof_equation(alpha, views(x), r, y, d);
            },
            Err(ChallengeError::SamplerExhausted) => {
                assert(ones(drawn(seed, self.N as nat, j)) < self.kappa);
            },
            Err(ChallengeError::InvalidChallenge) => {
                let d3 = choose|d3: Seq<u64>|
                    self.is_challenge_for(views(t), d3) && !(norm_l1_of(d3, self.q) == self.kappa && norm_max_of(
                        d3,
                        self.q,
                    ) == 1);
                self.lemma_challenge_deterministic(views(t), d, d3);
            },
        }
    }

    /// A response with a component whose l2 norm exceeds `2 theta sqrt(N)`
    /// is rejected, whatever the rest of the proof holds.
    pub proof fn lemma_long_response_rejected(
        &self,
        t: Seq<RingPolynomial64>,
        z: Seq<RingPolynomial64>,
        c: Seq<RingPolynomial64>,
        alpha: Matrix2D,
        res: Result<bool, ChallengeError>,
        i: int,
    )
        requires
            0 <= i < z.len(),
            norm_l2_squared_of(z[i]@, self.q) > self.proof_bound(),
            self.verification(t, z, c, alpha, res),
        ensures
            res == Ok::<bool, ChallengeError>(false),
    {
        assert(views(z)[i] == z[i]@);
    }
}

} // verus!
