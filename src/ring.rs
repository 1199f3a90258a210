//! The negacyclic polynomial ring `R_q = Z_q[X]/(X^N + 1)`.
use vstd::prelude::*;
use crate::field::{from_signed, valid_modulus};
use crate::polynomial::{
    all_zero, canonical, coef, conv, conv_prefix, degree_of, norm_l2_squared_of, Norm, Polynomial,
    PolynomialError, MAX_COEFFICIENTS,
};

verus! {

/// Largest ring degree accepted.
pub const MAX_RING_DEGREE: usize = 0x10_0000;

/// `n` is a power of two.
pub open spec fn is_power_of_two(n: nat) -> bool
    decreases n,
{
    if n <= 1 {
        n == 1
    } else {
        n % 2 == 0 && is_power_of_two(n / 2)
    }
}

/// Whether `n` is a power of two.
pub fn is_power_of_two_exec(n: usize) -> (r: bool)
    ensures
        r == is_power_of_two(n as nat),
{
    let mut m = n;
    while m > 1 && m % 2 == 0
        invariant
            is_power_of_two(n as nat) == is_power_of_two(m as nat),
        decreases m,
    {
        m = m / 2;
    }
    m == 1
}

/// A supported ring degree.
pub open spec fn valid_ring_degree(n: nat) -> bool {
    is_power_of_two(n) && n <= MAX_RING_DEGREE
}

/// `p_j - p_{j+n} + p_{j+2n} - ...`: what folding modulo `X^n + 1` leaves at
/// degree `j`, over the integers.
pub open spec fn alt_sum(p: Seq<u64>, n: nat, j: int) -> int
    decreases p.len() - j,
{
    if n == 0 || j < 0 || j >= p.len() {
        0
    } else if j + n >= p.len() {
        p[j] as int
    } else {
        p[j] as int - alt_sum(p, n, j + n)
    }
}

/// `p` reduced modulo `X^n + 1`: `n` canonical coefficients.
pub open spec fn reduce_spec(p: Seq<u64>, n: nat, q: u64) -> Seq<u64> {
    Seq::new(n, |j: int| (alt_sum(p, n, j) % (q as int)) as u64)
}

/// The product of two coefficient sequences over `Z_q`, with
/// `len(a) + len(b)` coefficients.
pub open spec fn poly_mul_spec(a: Seq<u64>, b: Seq<u64>, q: u64) -> Seq<u64> {
    Seq::new(a.len() + b.len(), |k: int| (conv(a, b, k) % (q as int)) as u64)
}

/// Coefficient-wise sum modulo `q`.
pub open spec fn ring_add_spec(a: Seq<u64>, b: Seq<u64>, q: u64) -> Seq<u64> {
    Seq::new(a.len(), |i: int| ((coef(a, i) + coef(b, i)) % (q as int)) as u64)
}

/// Coefficient-wise difference modulo `q`.
pub open spec fn ring_sub_spec(a: Seq<u64>, b: Seq<u64>, q: u64) -> Seq<u64> {
    Seq::new(a.len(), |i: int| ((coef(a, i) - coef(b, i)) % (q as int)) as u64)
}

/// Coefficient-wise negation modulo `q`.
pub open spec fn ring_neg_spec(a: Seq<u64>, q: u64) -> Seq<u64> {
    Seq::new(a.len(), |i: int| ((-coef(a, i)) % (q as int)) as u64)
}

/// The product in `Z_q[X]/(X^n + 1)`, `n` the length of `a`.
pub open spec fn ring_mul_spec(a: Seq<u64>, b: Seq<u64>, q: u64) -> Seq<u64> {
    reduce_spec(poly_mul_spec(a, b, q), a.len(), q)
}

/// The zero element with `n` coefficients.
pub open spec fn ring_zero(n: nat) -> Seq<u64> {
    Seq::new(n, |_i: int| 0u64)
}

/// The one element with `n` coefficients.
pub open spec fn ring_one(n: nat) -> Seq<u64> {
    Seq::new(n, |i: int| if i == 0 { 1u64 } else { 0u64 })
}

/// The cyclotomic modulus `X^n + 1` as a coefficient sequence.
pub open spec fn cyclotomic(n: nat) -> Seq<u64> {
    Seq::new(n + 1, |i: int| if i == 0 || i == n { 1u64 } else { 0u64 })
}

/// The quotient that folding modulo `X^n + 1` implies: coefficient `k` is
/// `p_{k+n} - p_{k+2n} + ...` reduced modulo `q`.
pub open spec fn fold_quotient(p: Seq<u64>, n: nat, q: u64) -> Seq<u64> {
    Seq::new(p.len(), |k: int| (alt_sum(p, n, k + n) % (q as int)) as u64)
}

/// `alt_sum(p, n, j) + alt_sum(p, n, j + n)` is the coefficient of degree `j`.
pub proof fn lemma_alt_sum_pair(p: Seq<u64>, n: nat, j: int)
    requires
        n >= 1,
        j >= 0,
    ensures
        alt_sum(p, n, j) + alt_sum(p, n, j + n) == coef(p, j),
{
    if j < p.len() && j + n < p.len() {
        assert(alt_sum(p, n, j) == p[j] as int - alt_sum(p, n, j + n));
    }
}

/// Multiplying by `X^n + 1` adds each coefficient to the one `n` degrees up.
pub proof fn lemma_conv_cyclotomic(a: Seq<u64>, n: nat, k: int, m: int)
    requires
        n >= 1,
        k >= 0,
        0 <= m <= a.len(),
    ensures
        conv_prefix(a, cyclotomic(n), k, m) == (if k < m { coef(a, k) } else { 0 }) + (if 0 <= k - n < m {
            coef(a, k - n)
        } else {
            0
        }),
    decreases m,
{
    if m > 0 {
        lemma_conv_cyclotomic(a, n, k, m - 1);
        let i = m - 1;
        let d = k - i;
        let phi = cyclotomic(n);
        assert(coef(phi, d) == if d == 0 || d == n { 1int } else { 0int });
        if d == 0 || d == n {
            assert(coef(a, i) * coef(phi, d) == coef(a, i));
        } else {
            assert(coef(a, i) * coef(phi, d) == 0);
        }
    }
}

/// Folding modulo `X^n + 1` computes the remainder of the Euclidean division
/// by `X^n + 1`: with `fold_quotient` as quotient, `p = Q * (X^n + 1) + r`
/// coefficient by coefficient modulo `q`, and `r = reduce_spec(p)` has degree
/// below `n`.
pub proof fn lemma_reduction_is_division_remainder(p: Seq<u64>, n: nat, q: u64)
    requires
        valid_modulus(q),
        n >= 1,
        canonical(p, q),
    ensures
        reduce_spec(p, n, q).len() == n,
        forall|k: int|
            0 <= k ==> (conv(fold_quotient(p, n, q), cyclotomic(n), k) + coef(reduce_spec(p, n, q), k)) % (q as int)
                == #[trigger] coef(p, k),
{
    let qq = fold_quotient(p, n, q);
    let r = reduce_spec(p, n, q);
    assert forall|k: int| 0 <= k implies (conv(qq, cyclotomic(n), k) + coef(r, k)) % (q as int) == #[trigger] coef(p, k) by {
        lemma_conv_cyclotomic(qq, n, k, qq.len() as int);
        lemma_alt_sum_pair(p, n, k);
        let x = alt_sum(p, n, k + n);
        let y = alt_sum(p, n, k);
        assert(coef(qq, k) == x % (q as int)) by {
            if k >= p.len() {
                vstd::arithmetic::div_mod::lemma_small_mod(0, q as nat);
            }
        }
        if k < n {
            assert(coef(r, k) == y % (q as int));
            assert(conv(qq, cyclotomic(n), k) == x % (q as int));
        } else {
            assert(coef(r, k) == 0);
            assert(coef(qq, k - n) == y % (q as int)) by {
                if k - n >= p.len() {
                    vstd::arithmetic::div_mod::lemma_small_mod(0, q as nat);
                }
            }
        }
        vstd::arithmetic::div_mod::lemma_add_mod_noop(x, y, q as int);
        vstd::arithmetic::div_mod::lemma_small_mod(coef(p, k) as nat, q as nat);
    }
}

/// An element of `Z_q[X]/(X^N + 1)`, held as its `N` coefficients, each a
/// `u64` in `[0, q)`. The ring degree `N` is the number of coefficients.
#[derive(Clone, Debug, PartialEq, Eq, Hash)]
pub struct RingPolynomial64(pub Polynomial);

impl RingPolynomial64 {
    /// The coefficients.
    pub open spec fn view(&self) -> Seq<u64> {
        self.0@
    }

    /// The modulus `q` of the coefficients.
    pub open spec fn q(&self) -> u64 {
        self.0.modulus
    }

    /// The ring degree `N`.
    pub open spec fn n(&self) -> nat {
        self.0@.len()
    }

    /// A canonical element of a supported ring.
    pub open spec fn wf(&self) -> bool {
        self.0.wf() && valid_ring_degree(self.n())
    }

    /// An element of the ring with modulus `q` and degree `n`.
    pub open spec fn in_ring(&self, q: u64, n: nat) -> bool {
        self.wf() && self.q() == q && self.n() == n
    }

    /// A copy of this element.
    pub fn copy(&self) -> (r: RingPolynomial64)
        ensures
            r@ == self@,
            r.q() == self.q(),
    {
        RingPolynomial64(Polynomial { coefficients: self.0.coefficients.clone(), modulus: self.0.modulus })
    }

    /// The ring modulus `X^N + 1` as a polynomial.
    pub fn modulus(&self) -> (r: Polynomial)
        requires
            self.wf(),
        ensures
            r.wf(),
            r.modulus == self.q(),
            r@.len() == self.n() + 1,
            r@[0] == 1,
            r@[self.n() as int] == 1,
            forall|i: int| 0 < i < self.n() ==> r@[i] == 0,
    {
        let n = self.0.coefficients.len();
        let mut p = Polynomial::identity(self.0.modulus);
        p.term(1, n);
        assert(p@[n as int] == 1) by {
            vstd::arithmetic::div_mod::lemma_small_mod(1, self.q() as nat);
        }
        p
    }

    /// The zero element.
    pub fn zero(q: u64, n: usize) -> (r: RingPolynomial64)
        requires
            valid_modulus(q),
            valid_ring_degree(n as nat),
        ensures
            r.in_ring(q, n as nat),
            r@ == ring_zero(n as nat),
    {
        let mut v: Vec<u64> = Vec::new();
        let mut i: usize = 0;
        while i < n
            invariant
                i <= n,
                v@ == ring_zero(i as nat),
            decreases n - i,
        {
            v.push(0);
            i += 1;
            assert(v@ =~= ring_zero(i as nat));
        }
        RingPolynomial64(Polynomial { coefficients: v, modulus: q })
    }

    /// The one element.
    pub fn one(q: u64, n: usize) -> (r: RingPolynomial64)
        requires
            valid_modulus(q),
            valid_ring_degree(n as nat),
        ensures
            r.in_ring(q, n as nat),
            r@ == ring_one(n as nat),
    {
        let mut r = Self::zero(q, n);
        r.0.coefficients.set(0, 1);
        assert(r@ =~= ring_one(n as nat));
        r
    }

    /// Reduce a polynomial modulo `X^n + 1`: the coefficient of degree `i`
    /// is added to degree `i mod n` with sign `(-1)^(i / n)`.
    pub fn from_polynomial(p: &Polynomial, n: usize) -> (r: RingPolynomial64)
        requires
            p.wf(),
            valid_ring_degree(n as nat),
        ensures
            r.in_ring(p.modulus, n as nat),
            r@ == reduce_spec(p@, n as nat, p.modulus),
    {
        let q = p.modulus;
        let len = p.coefficients.len();
        let mut out: Vec<u64> = Vec::new();
        let mut j: usize = 0;
        while j < n
            invariant
                j <= n,
                p.wf(),
                q == p.modulus,
                len == p@.len(),
                valid_ring_degree(n as nat),
                out@.len() == j,
                forall|i: int| 0 <= i < j ==> out@[i] == reduce_spec(p@, n as nat, q)[i],
                forall|i: int| 0 <= i < j ==> out@[i] < q,
            decreases n - j,
        {
            let c = fold_coefficient(p, n, j);
            out.push(c);
            j += 1;
        }
        let r = RingPolynomial64(Polynomial { coefficients: out, modulus: q });
        assert(r@ =~= reduce_spec(p@, n as nat, q));
        r
    }
}

/// `alt_sum(p, n, j) mod q`, walking `j, j + n, j + 2n, ...` from the top.
fn fold_coefficient(p: &Polynomial, n: usize, j: usize) -> (r: u64)
    requires
        p.wf(),
        1 <= n <= MAX_RING_DEGREE,
        j < n,
    ensures
        r < p.modulus,
        r == alt_sum(p@, n as nat, j as int) % (p.modulus as int),
{
    let q = p.modulus;
    let len = p.coefficients.len();
    if j >= len {
        assert(0int % (q as int) == 0) by {
            vstd::arithmetic::div_mod::lemma_small_mod(0, q as nat);
        }
        return 0;
    }
    // the last index of the chain j, j + n, ... that lies below len
    let steps = (len - 1 - j) / n;
    proof {
        vstd::arithmetic::div_mod::lemma_fundamental_div_mod((len - 1 - j) as int, n as int);
        vstd::arithmetic::mul::lemma_mul_is_commutative(steps as int, n as int);
        vstd::arithmetic::div_mod::lemma_mod_multiples_basic(steps as int, n as int);
    }
    let mut idx = j + steps * n;
    let mut acc: u64 = p.coefficients[idx];
    proof {
        vstd::arithmetic::div_mod::lemma_small_mod(acc as nat, q as nat);
    }
    while idx >= j + n
        invariant
            p.wf(),
            q == p.modulus,
            len == p@.len(),
            1 <= n <= MAX_RING_DEGREE,
            j <= idx < len,
            (idx - j) % (n as int) == 0,
            acc < q,
            acc == alt_sum(p@, n as nat, idx as int) % (q as int),
        decreases idx,
    {
        let next = idx - n;
        let c = p.coefficients[next];
        proof {
            vstd::arithmetic::div_mod::lemma_sub_mod_noop_right(c as int, alt_sum(p@, n as nat, idx as int), q as int);
            vstd::arithmetic::div_mod::lemma_mod_sub_multiples_vanish((idx - j) as int, n as int);
            assert(alt_sum(p@, n as nat, next as int) == c as int - alt_sum(p@, n as nat, idx as int));
        }
        acc = crate::field::sub_mod(c, acc, q);
        idx = next;
    }
    proof {
        vstd::arithmetic::div_mod::lemma_small_mod((idx - j) as nat, n as nat);
        assert(idx == j);
    }
    acc
}

impl RingPolynomial64 {
    /// Sum in the ring.
    pub fn add(&self, other: &RingPolynomial64) -> (r: RingPolynomial64)
        requires
            self.wf(),
            other.in_ring(self.q(), self.n()),
        ensures
            r.in_ring(self.q(), self.n()),
            r@ == ring_add_spec(self@, other@, self.q()),
    {
        let p = self.0.add(&other.0);
        let r = RingPolynomial64(p);
        assert(r@ =~= ring_add_spec(self@, other@, self.q()));
        r
    }

    /// Difference in the ring.
    pub fn sub(&self, other: &RingPolynomial64) -> (r: RingPolynomial64)
        requires
            self.wf(),
            other.in_ring(self.q(), self.n()),
        ensures
            r.in_ring(self.q(), self.n()),
            r@ == ring_sub_spec(self@, other@, self.q()),
    {
        let p = self.0.sub(&other.0);
        let r = RingPolynomial64(p);
        assert(r@ =~= ring_sub_spec(self@, other@, self.q()));
        r
    }

    /// Additive inverse in the ring.
    pub fn neg(&self) -> (r: RingPolynomial64)
        requires
            self.wf(),
        ensures
            r.in_ring(self.q(), self.n()),
            r@ == ring_neg_spec(self@, self.q()),
    {
        let p = self.0.neg();
        let r = RingPolynomial64(p);
        assert(r@ =~= ring_neg_spec(self@, self.q()));
        r
    }

    /// The constant element `value mod q`.
    pub fn from_u64(value: u64, q: u64, n: usize) -> (r: RingPolynomial64)
        requires
            valid_modulus(q),
            valid_ring_degree(n as nat),
        ensures
            r.in_ring(q, n as nat),
            r@[0] == value % q,
            forall|i: int| 0 < i < n ==> r@[i] == 0,
    {
        let mut r = Self::zero(q, n);
        r.0.coefficients.set(0, value % q);
        r
    }

    /// The quotient of the Euclidean division of the two coefficient
    /// polynomials, reduced into the ring; the remainder is discarded.
    pub fn div(&self, other: &RingPolynomial64) -> (r: Result<RingPolynomial64, PolynomialError>)
        requires
            self.wf(),
            other.in_ring(self.q(), self.n()),
        ensures
            (r matches Err(PolynomialError::DivideByZero)) <==> all_zero(other@),
            r matches Err(PolynomialError::NotInvertible) ==> forall|x: int|
                0 <= x < self.q() ==> #[trigger] ((other@[degree_of(other@) as int] * x) % (self.q() as int)) != 1,
            r matches Ok(e) ==> e.in_ring(self.q(), self.n()) && exists|quot: Seq<u64>, rem: Seq<u64>|
                {
                    &&& canonical(quot, self.q())
                    &&& forall|k: int|
                        0 <= k ==> (conv(quot, other@, k) + coef(rem, k)) % (self.q() as int) == #[trigger] coef(self@, k)
                    &&& (all_zero(rem) || degree_of(rem) < degree_of(other@))
                    &&& e@ == reduce_spec(quot, self.n(), self.q())
                },
    {
        match self.0.div(&other.0) {
            Ok((quot, rem)) => {
                let e = Self::from_polynomial(&quot, self.0.coefficients.len());
                assert(canonical(quot@, self.q()));
                Ok(e)
            },
            Err(err) => Err(err),
        }
    }

    /// Product in the ring: the schoolbook product reduced modulo `X^N + 1`.
    pub fn mul(&self, other: &RingPolynomial64) -> (r: RingPolynomial64)
        requires
            self.wf(),
            other.in_ring(self.q(), self.n()),
        ensures
            r.in_ring(self.q(), self.n()),
            r@ == ring_mul_spec(self@, other@, self.q()),
    {
        let p = self.0.mul(&other.0);
        assert(p@ =~= poly_mul_spec(self@, other@, self.q()));
        Self::from_polynomial(&p, self.0.coefficients.len())
    }

    /// The element whose coefficients are the given integers reduced into
    /// `[0, q)`; `n` coefficients, missing ones zero.
    pub fn from_signed(values: &Vec<i64>, q: u64, n: usize) -> (r: RingPolynomial64)
        requires
            valid_modulus(q),
            valid_ring_degree(n as nat),
            values@.len() <= n,
        ensures
            r.in_ring(q, n as nat),
            forall|i: int| 0 <= i < n ==> r@[i] == (if i < values@.len() { values@[i] as int } else { 0 }) % (q as int),
    {
        let mut v: Vec<u64> = Vec::new();
        let mut i: usize = 0;
        while i < n
            invariant
                i <= n,
                valid_modulus(q),
                v@.len() == i,
                values@.len() <= n,
                forall|j: int| 0 <= j < i ==> v@[j] < q,
                forall|j: int| 0 <= j < i ==> v@[j] == (if j < values@.len() { values@[j] as int } else { 0 }) % (q as int),
            decreases n - i,
        {
            let x: i64 = if i < values.len() { values[i] } else { 0 };
            v.push(from_signed(x, q));
            i += 1;
        }
        RingPolynomial64(Polynomial { coefficients: v, modulus: q })
    }

    /// The square of the l2 norm, exactly.
    pub fn norm_l2_squared(&self) -> (r: u128)
        requires
            self.wf(),
        ensures
            r == norm_l2_squared_of(self@, self.q()),
    {
        self.0.norm_l2_squared()
    }
}

impl RingPolynomial64 {
    /// Whether this is a canonical element of the ring with modulus `q` and
    /// degree `n`.
    pub fn is_member(&self, q: u64, n: usize) -> (r: bool)
        requires
            valid_modulus(q),
            valid_ring_degree(n as nat),
        ensures
            r == self.in_ring(q, n as nat),
    {
        if self.0.modulus != q || self.0.coefficients.len() != n {
            return false;
        }
        let mut i: usize = 0;
        while i < n
            invariant
                i <= n == self.0.coefficients@.len(),
                forall|j: int| 0 <= j < i ==> self.0.coefficients@[j] < q,
            decreases n - i,
        {
            if self.0.coefficients[i] >= q {
                return false;
            }
            i += 1;
        }
        true
    }

    /// Whether two elements have the same coefficients.
    pub fn same_as(&self, other: &RingPolynomial64) -> (r: bool)
        ensures
            r == (self@ == other@),
    {
        if self.0.coefficients.len() != other.0.coefficients.len() {
            return false;
        }
        let mut i: usize = 0;
        while i < self.0.coefficients.len()
            invariant
                i <= self@.len() == other@.len(),
                forall|j: int| 0 <= j < i ==> self@[j] == other@[j],
            decreases self@.len() - i,
        {
            if self.0.coefficients[i] != other.0.coefficients[i] {
                return false;
            }
            i += 1;
        }
        assert(self@ =~= other@);
        true
    }
}

impl Norm for RingPolynomial64 {
    open spec fn norm_coefficients(&self) -> Seq<u64> {
        self@
    }

    open spec fn norm_modulus(&self) -> u64 {
        self.q()
    }

    open spec fn norm_ready(&self) -> bool {
        self.wf()
    }

    fn norm_l1(&self) -> (r: u64) {
        self.0.norm_l1()
    }

    fn norm_l2(&self) -> (r: u64) {
        self.0.norm_l2()
    }

    fn norm_max(&self) -> (r: u64) {
        self.0.norm_max()
    }
}

} // verus!
