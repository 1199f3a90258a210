//! Dense univariate polynomials over `Z_q`.
use vstd::prelude::*;
use crate::field::{abs_centered, add_mod, centered_abs, inv_mod, mul_mod, neg_mod, sub_mod, valid_modulus};
use vstd::arithmetic::div_mod::lemma_add_mod_noop;

verus! {

/// Longest coefficient vector the polynomial operations accept; keeps every
/// norm and every index computation inside machine integers.
pub const MAX_COEFFICIENTS: usize = 0x100_0000;

/// Coefficient of degree `i` of a dense coefficient sequence (zero beyond it).
pub open spec fn coef(s: Seq<u64>, i: int) -> int {
    if 0 <= i < s.len() {
        s[i] as int
    } else {
        0
    }
}

/// Every coefficient is a canonical residue.
pub open spec fn canonical(s: Seq<u64>, q: u64) -> bool {
    forall|i: int| 0 <= i < s.len() ==> s[i] < q
}

/// Every coefficient is zero.
pub open spec fn all_zero(s: Seq<u64>) -> bool {
    forall|i: int| 0 <= i < s.len() ==> s[i] == 0
}

/// The degree: the index of the highest nonzero coefficient, 0 for zero.
pub open spec fn degree_of(s: Seq<u64>) -> nat
    decreases s.len(),
{
    if s.len() == 0 {
        0
    } else if s.last() != 0 {
        (s.len() - 1) as nat
    } else {
        degree_of(s.drop_last())
    }
}

/// `sum_{i < m} coef(a, i) * coef(b, k - i)`: the first `m` products that
/// make up coefficient `k` of `a * b`.
pub open spec fn conv_prefix(a: Seq<u64>, b: Seq<u64>, k: int, m: int) -> int
    decreases m,
{
    if m <= 0 {
        0
    } else {
        conv_prefix(a, b, k, m - 1) + coef(a, m - 1) * coef(b, k - (m - 1))
    }
}

/// Coefficient `k` of the product `a * b` over the integers.
pub open spec fn conv(a: Seq<u64>, b: Seq<u64>, k: int) -> int {
    conv_prefix(a, b, k, a.len() as int)
}

/// `sum_{i < m} |centered(s[i])|`.
pub open spec fn l1_prefix(s: Seq<u64>, q: u64, m: int) -> nat
    decreases m,
{
    if m <= 0 {
        0
    } else {
        l1_prefix(s, q, m - 1) + centered_abs(coef(s, m - 1), q as int)
    }
}

/// `sum_{i < m} centered(s[i])^2`.
pub open spec fn l2sq_prefix(s: Seq<u64>, q: u64, m: int) -> nat
    decreases m,
{
    if m <= 0 {
        0
    } else {
        l2sq_prefix(s, q, m - 1) + centered_abs(coef(s, m - 1), q as int) * centered_abs(
            coef(s, m - 1),
            q as int,
        )
    }
}

/// `max_{i < m} |centered(s[i])|` (0 when `m` is 0).
pub open spec fn max_prefix(s: Seq<u64>, q: u64, m: int) -> nat
    decreases m,
{
    if m <= 0 {
        0
    } else {
        let prev = max_prefix(s, q, m - 1);
        let c = centered_abs(coef(s, m - 1), q as int);
        if c > prev {
            c
        } else {
            prev
        }
    }
}

/// The l1 norm over the integers, coefficients lifted to the centered interval.
pub open spec fn norm_l1_of(s: Seq<u64>, q: u64) -> nat {
    l1_prefix(s, q, s.len() as int)
}

/// The square of the l2 norm over the integers.
pub open spec fn norm_l2_squared_of(s: Seq<u64>, q: u64) -> nat {
    l2sq_prefix(s, q, s.len() as int)
}

/// The l-infinity norm over the integers.
pub open spec fn norm_max_of(s: Seq<u64>, q: u64) -> nat {
    max_prefix(s, q, s.len() as int)
}

/// The integer square root, rounded down.
pub open spec fn is_floor_sqrt(r: int, v: int) -> bool {
    0 <= r && r * r <= v < (r + 1) * (r + 1)
}

/// Facts about `degree_of`: it indexes the highest nonzero coefficient.
pub proof fn lemma_degree_of(s: Seq<u64>)
    ensures
        s.len() > 0 ==> degree_of(s) < s.len(),
        forall|j: int| degree_of(s) < j < s.len() ==> s[j] == 0,
        !all_zero(s) ==> s[degree_of(s) as int] != 0,
        all_zero(s) ==> degree_of(s) == 0,
    decreases s.len(),
{
    if s.len() > 0 && s.last() == 0 {
        let t = s.drop_last();
        lemma_degree_of(t);
        assert forall|j: int| degree_of(s) < j < s.len() implies s[j] == 0 by {
            if j < t.len() {
                assert(t[j] == s[j]);
            }
        }
        if !all_zero(s) {
            let j = choose|j: int| 0 <= j < s.len() && s[j] != 0;
            assert(t[j] == s[j]);
        }
    }
}

/// Products past the end of `a` add nothing.
pub proof fn lemma_conv_prefix_extend(a: Seq<u64>, b: Seq<u64>, k: int, m: int)
    requires
        a.len() <= m,
    ensures
        conv_prefix(a, b, k, m) == conv_prefix(a, b, k, a.len() as int),
    decreases m - a.len(),
{
    if m > a.len() {
        lemma_conv_prefix_extend(a, b, k, m - 1);
    }
}

/// Changing one coefficient of `a` changes each product coefficient by that
/// change times the matching coefficient of `b`.
pub proof fn lemma_conv_prefix_point(a: Seq<u64>, a2: Seq<u64>, b: Seq<u64>, k: int, s: int, m: int)
    requires
        forall|i: int| i != s ==> #[trigger] coef(a2, i) == coef(a, i),
    ensures
        conv_prefix(a2, b, k, m) == conv_prefix(a, b, k, m) + if 0 <= s < m {
            (coef(a2, s) - coef(a, s)) * coef(b, k - s)
        } else {
            0
        },
    decreases m,
{
    if m > 0 {
        lemma_conv_prefix_point(a, a2, b, k, s, m - 1);
        if m - 1 == s {
            assert(coef(a2, s) * coef(b, k - s) == coef(a, s) * coef(b, k - s) + (coef(a2, s) - coef(a, s)) * coef(b, k - s)) by (nonlinear_arith);
        } else {
            assert(coef(a2, m - 1) == coef(a, m - 1));
        }
    }
}

/// Products depend on the coefficients of `b` only.
pub proof fn lemma_conv_prefix_same_b(a: Seq<u64>, b: Seq<u64>, b2: Seq<u64>, k: int, m: int)
    requires
        forall|i: int| #[trigger] coef(b, i) == coef(b2, i),
    ensures
        conv_prefix(a, b, k, m) == conv_prefix(a, b2, k, m),
    decreases m,
{
    if m > 0 {
        lemma_conv_prefix_same_b(a, b, b2, k, m - 1);
        assert(coef(b, k - (m - 1)) == coef(b2, k - (m - 1)));
    }
}

/// One step of long division keeps `P = Q * D + R` modulo `q`.
pub proof fn lemma_division_step(
    p: Seq<u64>,
    quot: Seq<u64>,
    quot2: Seq<u64>,
    d: Seq<u64>,
    rem: Seq<u64>,
    rem2: Seq<u64>,
    t: Seq<u64>,
    c: int,
    s: int,
    q: int,
)
    requires
        q > 0,
        0 <= s < quot2.len(),
        quot.len() <= quot2.len(),
        forall|k: int| 0 <= k ==> (conv(quot, d, k) + coef(rem, k)) % q == #[trigger] coef(p, k),
        forall|i: int| i != s ==> #[trigger] coef(quot2, i) == coef(quot, i),
        coef(quot2, s) == (coef(quot, s) + c) % q,
        forall|k: int| 0 <= k ==> #[trigger] coef(t, k) == (coef(d, k - s) * c) % q,
        forall|k: int| 0 <= k ==> #[trigger] coef(rem2, k) == (coef(rem, k) - coef(t, k)) % q,
    ensures
        forall|k: int| 0 <= k ==> (conv(quot2, d, k) + coef(rem2, k)) % q == #[trigger] coef(p, k),
{
    assert forall|k: int| 0 <= k implies (conv(quot2, d, k) + coef(rem2, k)) % q == #[trigger] coef(p, k) by {
        lemma_conv_prefix_point(quot, quot2, d, k, s, quot2.len() as int);
        lemma_conv_prefix_extend(quot, d, k, quot2.len() as int);
        let a = conv(quot, d, k);
        let rk = coef(rem, k);
        let dk = coef(d, k - s);
        let qs = coef(quot, s);
        vstd::arithmetic::div_mod::lemma_fundamental_div_mod(qs + c, q);
        vstd::arithmetic::div_mod::lemma_fundamental_div_mod(dk * c, q);
        vstd::arithmetic::div_mod::lemma_fundamental_div_mod(rk - coef(t, k), q);
        let t1 = (qs + c) / q;
        let t2 = (dk * c) / q;
        let t3 = (rk - coef(t, k)) / q;
        assert((coef(quot2, s) - qs) * dk == c * dk - q * (t1 * dk)) by (nonlinear_arith)
            requires
                qs + c == q * t1 + coef(quot2, s),
        ;
        assert(c * dk == dk * c) by (nonlinear_arith);
        assert(q * (t2 - t3 - t1 * dk) == q * t2 - q * t3 - q * (t1 * dk)) by (nonlinear_arith);
        assert(coef(t, k) == dk * c - q * t2);
        assert(coef(rem2, k) == rk - coef(t, k) - q * t3);
        assert(conv(quot2, d, k) == a + (coef(quot2, s) - qs) * dk);
        assert(conv(quot2, d, k) + coef(rem2, k) == q * (t2 - t3 - t1 * dk) + (a + rk));
        vstd::arithmetic::div_mod::lemma_mod_multiples_vanish(t2 - t3 - t1 * dk, a + rk, q);
    }
}

/// Norms over the integers, with coefficients lifted to the centered interval.
pub trait Norm {
    /// The coefficients the norms are taken over.
    spec fn norm_coefficients(&self) -> Seq<u64>;

    /// The modulus of the coefficients.
    spec fn norm_modulus(&self) -> u64;

    /// Whether the norms can be computed: canonical coefficients, bounded length.
    spec fn norm_ready(&self) -> bool;

    /// The sum of the absolute values of the coefficients.
    fn norm_l1(&self) -> (r: u64)
        requires
            self.norm_ready(),
        ensures
            r == norm_l1_of(self.norm_coefficients(), self.norm_modulus()),
    ;

    /// The square root of the sum of each coefficient squared, rounded down.
    fn norm_l2(&self) -> (r: u64)
        requires
            self.norm_ready(),
        ensures
            is_floor_sqrt(r as int, norm_l2_squared_of(self.norm_coefficients(), self.norm_modulus()) as int),
    ;

    /// The largest absolute value of a coefficient.
    fn norm_max(&self) -> (r: u64)
        requires
            self.norm_ready(),
        ensures
            r == norm_max_of(self.norm_coefficients(), self.norm_modulus()),
    ;
}

/// Why a polynomial division failed.
#[derive(Debug, PartialEq, Eq, Structural)]
pub enum PolynomialError {
    /// The divisor is the zero polynomial.
    DivideByZero,
    /// The divisor's leading coefficient has no inverse modulo `q` (only
    /// possible when `q` is not prime).
    NotInvertible,
}

/// The long-division measure: 0 for the zero polynomial, else degree + 1.
pub open spec fn division_measure(s: Seq<u64>) -> nat {
    if all_zero(s) {
        0
    } else {
        degree_of(s) + 1
    }
}

/// A univariate polynomial with coefficients in `Z_q`; the coefficient of
/// degree `i` is `coefficients[i]`, and missing ones are zero.
#[derive(Clone, Debug, PartialEq, Eq, Hash)]
pub struct Polynomial {
    pub coefficients: Vec<u64>,
    pub modulus: u64,
}

/// The floor of the square root of `v`.
pub fn isqrt(v: u128) -> (r: u64)
    ensures
        is_floor_sqrt(r as int, v as int),
{
    let mut lo: u128 = 0;
    let mut hi: u128 = 0x1_0000_0000_0000_0000;
    assert(v < hi * hi) by (nonlinear_arith)
        requires
            hi == 0x1_0000_0000_0000_0000u128,
            v <= u128::MAX,
    ;
    while hi - lo > 1
        invariant
            lo < hi <= 0x1_0000_0000_0000_0000u128,
            lo * lo <= v,
            v < hi * hi,
        decreases hi - lo,
    {
        let mid = lo + (hi - lo) / 2;
        assert(mid * mid <= 0xffff_ffff_ffff_ffffu128 * 0xffff_ffff_ffff_ffffu128) by (nonlinear_arith)
            requires
                mid < 0x1_0000_0000_0000_0000u128,
        ;
        if mid * mid <= v {
            lo = mid;
        } else {
            hi = mid;
        }
    }
    assert(hi == lo + 1);
    lo as u64
}

impl Polynomial {
    /// Canonical coefficients, a supported modulus and a bounded length.
    pub open spec fn wf(&self) -> bool {
        &&& valid_modulus(self.modulus)
        &&& canonical(self.coefficients@, self.modulus)
        &&& self.coefficients@.len() <= MAX_COEFFICIENTS
    }

    /// The coefficient sequence.
    pub open spec fn view(&self) -> Seq<u64> {
        self.coefficients@
    }

    /// The polynomial `1`.
    pub fn identity(modulus: u64) -> (r: Polynomial)
        requires
            valid_modulus(modulus),
        ensures
            r.wf(),
            r.modulus == modulus,
            r@ == seq![1u64],
    {
        Polynomial { coefficients: vec![1u64], modulus }
    }

    /// Whether every coefficient is zero.
    pub fn is_zero(&self) -> (r: bool)
        ensures
            r == all_zero(self@),
    {
        let mut i: usize = 0;
        while i < self.coefficients.len()
            invariant
                i <= self@.len(),
                forall|j: int| 0 <= j < i ==> self@[j] == 0,
            decreases self@.len() - i,
        {
            if self.coefficients[i] != 0 {
                return false;
            }
            i += 1;
        }
        true
    }

    /// The degree: the index of the highest nonzero coefficient, 0 for the
    /// zero polynomial.
    pub fn degree(&self) -> (r: usize)
        ensures
            r == degree_of(self@),
    {
        let mut i = self.coefficients.len();
        assert(self@.subrange(0, i as int) =~= self@);
        while i > 0
            invariant
                i <= self@.len(),
                degree_of(self@) == degree_of(self@.subrange(0, i as int)),
            decreases i,
        {
            let sub = Ghost(self@.subrange(0, i as int));
            if self.coefficients[i - 1] != 0 {
                return i - 1;
            }
            assert(sub@.drop_last() =~= self@.subrange(0, i - 1));
            i -= 1;
        }
        0
    }

    /// Coefficient-wise sum.
    pub fn add(&self, other: &Polynomial) -> (r: Polynomial)
        requires
            self.wf(),
            other.wf(),
            self.modulus == other.modulus,
        ensures
            r.wf(),
            r.modulus == self.modulus,
            r@.len() == if self@.len() >= other@.len() { self@.len() } else { other@.len() },
            forall|i: int| 0 <= i < r@.len() ==> r@[i] == (coef(self@, i) + coef(other@, i)) % (self.modulus as int),
    {
        let q = self.modulus;
        let len = if self.coefficients.len() >= other.coefficients.len() {
            self.coefficients.len()
        } else {
            other.coefficients.len()
        };
        let mut out: Vec<u64> = Vec::new();
        let mut i: usize = 0;
        while i < len
            invariant
                i <= len,
                len == if self@.len() >= other@.len() { self@.len() } else { other@.len() },
                self.wf(),
                other.wf(),
                q == self.modulus,
                q == other.modulus,
                out@.len() == i,
                forall|j: int| 0 <= j < i ==> out@[j] < q && out@[j] == (coef(self@, j) + coef(other@, j)) % (q as int),
            decreases len - i,
        {
            let a = if i < self.coefficients.len() { self.coefficients[i] } else { 0 };
            let b = if i < other.coefficients.len() { other.coefficients[i] } else { 0 };
            out.push(add_mod(a, b, q));
            i += 1;
        }
        Polynomial { coefficients: out, modulus: q }
    }

    /// Coefficient-wise difference.
    pub fn sub(&self, other: &Polynomial) -> (r: Polynomial)
        requires
            self.wf(),
            other.wf(),
            self.modulus == other.modulus,
        ensures
            r.wf(),
            r.modulus == self.modulus,
            r@.len() == if self@.len() >= other@.len() { self@.len() } else { other@.len() },
            forall|i: int| 0 <= i < r@.len() ==> r@[i] == (coef(self@, i) - coef(other@, i)) % (self.modulus as int),
    {
        let q = self.modulus;
        let len = if self.coefficients.len() >= other.coefficients.len() {
            self.coefficients.len()
        } else {
            other.coefficients.len()
        };
        let mut out: Vec<u64> = Vec::new();
        let mut i: usize = 0;
        while i < len
            invariant
                i <= len,
                len == if self@.len() >= other@.len() { self@.len() } else { other@.len() },
                self.wf(),
                other.wf(),
                q == self.modulus,
                q == other.modulus,
                out@.len() == i,
                forall|j: int| 0 <= j < i ==> out@[j] < q && out@[j] == (coef(self@, j) - coef(other@, j)) % (q as int),
            decreases len - i,
        {
            let a = if i < self.coefficients.len() { self.coefficients[i] } else { 0 };
            let b = if i < other.coefficients.len() { other.coefficients[i] } else { 0 };
            out.push(sub_mod(a, b, q));
            i += 1;
        }
        Polynomial { coefficients: out, modulus: q }
    }

    /// The additive inverse.
    pub fn neg(&self) -> (r: Polynomial)
        requires
            self.wf(),
        ensures
            r.wf(),
            r.modulus == self.modulus,
            r@.len() == self@.len(),
            forall|i: int| 0 <= i < r@.len() ==> r@[i] == (-coef(self@, i)) % (self.modulus as int),
    {
        let q = self.modulus;
        let mut out: Vec<u64> = Vec::new();
        let mut i: usize = 0;
        while i < self.coefficients.len()
            invariant
                i <= self@.len(),
                self.wf(),
                q == self.modulus,
                out@.len() == i,
                forall|j: int| 0 <= j < i ==> out@[j] < q && out@[j] == (-coef(self@, j)) % (q as int),
            decreases self@.len() - i,
        {
            out.push(neg_mod(self.coefficients[i], q));
            i += 1;
        }
        Polynomial { coefficients: out, modulus: q }
    }

    /// Multiply every coefficient by `v`.
    pub fn mul_scalar(&mut self, v: u64)
        requires
            old(self).wf(),
            v < old(self).modulus,
        ensures
            final(self).wf(),
            final(self).modulus == old(self).modulus,
            final(self)@.len() == old(self)@.len(),
            forall|i: int| 0 <= i < old(self)@.len() ==> final(self)@[i] == (old(self)@[i] * v) % (old(self).modulus as int),
    {
        let q = self.modulus;
        let mut i: usize = 0;
        while i < self.coefficients.len()
            invariant
                i <= self@.len(),
                self@.len() == old(self)@.len(),
                self.modulus == q,
                q == old(self).modulus,
                valid_modulus(q),
                v < q,
                self@.len() <= MAX_COEFFICIENTS,
                forall|j: int| 0 <= j < self@.len() ==> self@[j] < q,
                forall|j: int| 0 <= j < i ==> self@[j] == (old(self)@[j] * v) % (q as int),
                forall|j: int| i <= j < self@.len() ==> self@[j] == old(self)@[j],
            decreases self@.len() - i,
        {
            let c = mul_mod(self.coefficients[i], v, q);
            self.coefficients.set(i, c);
            i += 1;
        }
    }

    /// Add the term `c * X^exp`, growing the coefficient vector as needed.
    pub fn term(&mut self, c: u64, exp: usize)
        requires
            old(self).wf(),
            c < old(self).modulus,
            exp < MAX_COEFFICIENTS,
        ensures
            final(self).wf(),
            final(self).modulus == old(self).modulus,
            final(self)@.len() == if old(self)@.len() > exp { old(self)@.len() as int } else { exp + 1 },
            final(self)@[exp as int] == (coef(old(self)@, exp as int) + c) % (old(self).modulus as int),
            forall|i: int| 0 <= i < final(self)@.len() && i != exp ==> final(self)@[i] == coef(old(self)@, i),
    {
        let q = self.modulus;
        while self.coefficients.len() <= exp
            invariant
                self.modulus == q,
                q == old(self).modulus,
                valid_modulus(q),
                old(self)@.len() <= self@.len() <= if old(self)@.len() > exp { old(self)@.len() as int } else { exp + 1 },
                forall|j: int| 0 <= j < self@.len() ==> self@[j] < q,
                forall|j: int| 0 <= j < self@.len() ==> self@[j] == coef(old(self)@, j),
            decreases exp + 1 - self@.len(),
        {
            self.coefficients.push(0);
        }
        let cur = self.coefficients[exp];
        let updated = add_mod(cur, c, q);
        self.coefficients.set(exp, updated);
    }

    /// Remove the highest nonzero term and return its coefficient and degree;
    /// `(0, 0)` for the zero polynomial.
    pub fn pop_term(&mut self) -> (r: (u64, usize))
        requires
            old(self).wf(),
        ensures
            final(self).wf(),
            final(self).modulus == old(self).modulus,
            all_zero(old(self)@) ==> r == (0u64, 0usize) && final(self)@ == old(self)@,
            !all_zero(old(self)@) ==> r.1 == degree_of(old(self)@) && r.0 == old(self)@[r.1 as int] && final(self)@ == old(self)@.update(r.1 as int, 0),
    {
        proof {
            lemma_degree_of(self@);
        }
        let d = self.degree();
        if self.coefficients.len() == 0 {
            return (0, 0);
        }
        let v = self.coefficients[d];
        if v == 0 {
            assert(all_zero(self@));
            return (0, 0);
        }
        self.coefficients.set(d, 0);
        (v, d)
    }

    /// Multiply by `X^shift`: `shift` zero coefficients followed by these.
    pub fn shift_and_clone(&self, shift: usize) -> (r: Polynomial)
        requires
            self.wf(),
            self@.len() + shift <= MAX_COEFFICIENTS,
        ensures
            r.wf(),
            r.modulus == self.modulus,
            r@ == Seq::new(shift as nat, |_i: int| 0u64) + self@,
    {
        let mut out: Vec<u64> = Vec::new();
        let mut i: usize = 0;
        while i < shift
            invariant
                i <= shift,
                out@ == Seq::new(i as nat, |_i: int| 0u64),
            decreases shift - i,
        {
            out.push(0);
            i += 1;
            assert(out@ =~= Seq::new(i as nat, |_i: int| 0u64));
        }
        let mut j: usize = 0;
        while j < self.coefficients.len()
            invariant
                j <= self@.len(),
                out@ == Seq::new(shift as nat, |_i: int| 0u64) + self@.subrange(0, j as int),
            decreases self@.len() - j,
        {
            out.push(self.coefficients[j]);
            j += 1;
            assert(out@ =~= Seq::new(shift as nat, |_i: int| 0u64) + self@.subrange(0, j as int));
        }
        assert(self@.subrange(0, self@.len() as int) =~= self@);
        Polynomial { coefficients: out, modulus: self.modulus }
    }

    /// Schoolbook product; the result has `len(self) + len(other)` coefficients.
    pub fn mul(&self, other: &Polynomial) -> (r: Polynomial)
        requires
            self.wf(),
            other.wf(),
            self.modulus == other.modulus,
            self@.len() + other@.len() <= MAX_COEFFICIENTS,
        ensures
            r.wf(),
            r.modulus == self.modulus,
            r@.len() == self@.len() + other@.len(),
            forall|k: int| 0 <= k < r@.len() ==> r@[k] == conv(self@, other@, k) % (self.modulus as int),
    {
        let q = self.modulus;
        let la = self.coefficients.len();
        let lb = other.coefficients.len();
        let mut out: Vec<u64> = Vec::new();
        let mut k: usize = 0;
        while k < la + lb
            invariant
                k <= la + lb,
                la == self@.len(),
                lb == other@.len(),
                la + lb <= MAX_COEFFICIENTS,
                self.wf(),
                other.wf(),
                q == self.modulus,
                q == other.modulus,
                out@.len() == k,
                forall|j: int| 0 <= j < k ==> out@[j] < q && out@[j] == conv(self@, other@, j) % (q as int),
            decreases la + lb - k,
        {
            let mut acc: u64 = 0;
            let mut i: usize = 0;
            while i < la
                invariant
                    i <= la,
                    k < la + lb,
                    la == self@.len(),
                    lb == other@.len(),
                    self.wf(),
                    other.wf(),
                    q == self.modulus,
                    q == other.modulus,
                    acc < q,
                    acc == conv_prefix(self@, other@, k as int, i as int) % (q as int),
                decreases la - i,
            {
                if i <= k && k - i < lb {
                    let p = mul_mod(self.coefficients[i], other.coefficients[k - i], q);
                    proof {
                        lemma_add_mod_noop(
                            conv_prefix(self@, other@, k as int, i as int),
                            self@[i as int] * other@[k - i],
                            q as int,
                        );
                        vstd::arithmetic::div_mod::lemma_mod_twice(
                            conv_prefix(self@, other@, k as int, i as int) + self@[i as int] * other@[k - i],
                            q as int,
                        );
                    }
                    acc = add_mod(acc, p, q);
                }
                i += 1;
            }
            out.push(acc);
            k += 1;
        }
        Polynomial { coefficients: out, modulus: q }
    }
}

impl Polynomial {
    /// The square of the l2 norm, exactly; bounds on the l2 norm are checked
    /// against it.
    pub fn norm_l2_squared(&self) -> (r: u128)
        requires
            self.wf(),
        ensures
            r == norm_l2_squared_of(self@, self.modulus),
    {
        let q = self.modulus;
        let mut acc: u128 = 0;
        let mut i: usize = 0;
        while i < self.coefficients.len()
            invariant
                i <= self@.len(),
                self.wf(),
                q == self.modulus,
                acc == l2sq_prefix(self@, q, i as int),
                acc <= i * 0x1_0000_0000_0000_0000,
            decreases self@.len() - i,
        {
            let c = abs_centered(self.coefficients[i], q) as u128;
            assert(c * c <= 0x1_0000_0000_0000_0000) by (nonlinear_arith)
                requires
                    c < 0x1_0000_0000,
            ;
            assert(acc + c * c <= (i + 1) * 0x1_0000_0000_0000_0000) by (nonlinear_arith)
                requires
                    acc <= i * 0x1_0000_0000_0000_0000,
                    c * c <= 0x1_0000_0000_0000_0000,
            ;
            assert((i + 1) * 0x1_0000_0000_0000_0000 <= 0x100_0000 * 0x1_0000_0000_0000_0000) by (nonlinear_arith)
                requires
                    i < 0x100_0000,
            ;
            acc = acc + c * c;
            i += 1;
        }
        acc
    }
}

impl Norm for Polynomial {
    open spec fn norm_coefficients(&self) -> Seq<u64> {
        self@
    }

    open spec fn norm_modulus(&self) -> u64 {
        self.modulus
    }

    open spec fn norm_ready(&self) -> bool {
        self.wf()
    }

    fn norm_l1(&self) -> (r: u64) {
        let q = self.modulus;
        let mut acc: u64 = 0;
        let mut i: usize = 0;
        while i < self.coefficients.len()
            invariant
                i <= self@.len(),
                self.wf(),
                q == self.modulus,
                acc == l1_prefix(self@, q, i as int),
                acc <= i * 0x1_0000_0000,
            decreases self@.len() - i,
        {
            let c = abs_centered(self.coefficients[i], q);
            assert((i + 1) * 0x1_0000_0000 <= 0x100_0000 * 0x1_0000_0000) by (nonlinear_arith)
                requires
                    i < 0x100_0000,
            ;
            acc = acc + c;
            i += 1;
        }
        acc
    }

    fn norm_l2(&self) -> (r: u64) {
        isqrt(self.norm_l2_squared())
    }

    fn norm_max(&self) -> (r: u64) {
        let q = self.modulus;
        let mut acc: u64 = 0;
        let mut i: usize = 0;
        while i < self.coefficients.len()
            invariant
                i <= self@.len(),
                self.wf(),
                q == self.modulus,
                acc == max_prefix(self@, q, i as int),
            decreases self@.len() - i,
        {
            let c = abs_centered(self.coefficients[i], q);
            if c > acc {
                acc = c;
            }
            i += 1;
        }
        acc
    }
}

impl Polynomial {
    /// Euclidean division: `(quotient, remainder)` with
    /// `self = quotient * divisor + remainder` and the remainder zero or of
    /// degree below the divisor's.
    pub fn div(&self, divisor: &Polynomial) -> (r: Result<(Polynomial, Polynomial), PolynomialError>)
        requires
            self.wf(),
            divisor.wf(),
            self.modulus == divisor.modulus,
        ensures
            (r matches Err(PolynomialError::DivideByZero)) <==> all_zero(divisor@),
            r matches Err(PolynomialError::NotInvertible) ==> !all_zero(divisor@) && forall|x: int|
                0 <= x < self.modulus ==> #[trigger] ((divisor@[degree_of(divisor@) as int] * x) % (
                self.modulus as int)) != 1,
            r matches Ok((quot, rem)) ==> {
                &&& quot.wf() && rem.wf()
                &&& quot.modulus == self.modulus && rem.modulus == self.modulus
                &&& forall|k: int|
                    0 <= k ==> (conv(quot@, divisor@, k) + coef(rem@, k)) % (self.modulus as int) == #[trigger] coef(self@, k)
                &&& all_zero(rem@) || degree_of(rem@) < degree_of(divisor@)
            },
    {
        let q = self.modulus;
        if divisor.is_zero() {
            return Err(PolynomialError::DivideByZero);
        }
        proof {
            lemma_degree_of(divisor@);
        }
        let dd = divisor.degree();
        let lead_d = divisor.coefficients[dd];
        let inv = match inv_mod(lead_d, q) {
            Some(x) => x,
            None => return Err(PolynomialError::NotInvertible),
        };
        // the divisor without trailing zeros
        let mut dc: Vec<u64> = Vec::new();
        let mut i: usize = 0;
        while i <= dd
            invariant
                i <= dd + 1,
                dd < divisor@.len() <= MAX_COEFFICIENTS,
                dc@ == divisor@.subrange(0, i as int),
            decreases dd + 1 - i,
        {
            dc.push(divisor.coefficients[i]);
            i += 1;
            assert(dc@ =~= divisor@.subrange(0, i as int));
        }
        let d = Polynomial { coefficients: dc, modulus: q };
        assert forall|j: int| #[trigger] coef(d@, j) == coef(divisor@, j) by {
            if j > dd && j < divisor@.len() {
                assert(divisor@[j] == 0);
            }
        }
        let mut quotient = Polynomial { coefficients: Vec::new(), modulus: q };
        let mut remainder = Polynomial { coefficients: self.coefficients.clone(), modulus: q };
        assert forall|k: int| 0 <= k implies (conv(quotient@, d@, k) + coef(remainder@, k)) % (q as int) == #[trigger] coef(self@, k) by {
            vstd::arithmetic::div_mod::lemma_small_mod(coef(self@, k) as nat, q as nat);
        }
        loop
            invariant
                self.wf(),
                q == self.modulus,
                d.wf(),
                d.modulus == q,
                d@.len() == dd + 1,
                d@[dd as int] == lead_d,
                (lead_d * inv) % (q as int) == 1,
                inv < q,
                quotient.wf(),
                quotient.modulus == q,
                quotient@.len() <= self@.len(),
                remainder.wf(),
                remainder.modulus == q,
                remainder@.len() == self@.len(),
                forall|k: int|
                    0 <= k ==> (conv(quotient@, d@, k) + coef(remainder@, k)) % (q as int) == #[trigger] coef(self@, k),
            ensures
                quotient.wf(),
                quotient.modulus == q,
                remainder.wf(),
                remainder.modulus == q,
                forall|k: int|
                    0 <= k ==> (conv(quotient@, d@, k) + coef(remainder@, k)) % (q as int) == #[trigger] coef(self@, k),
                all_zero(remainder@) || degree_of(remainder@) < dd,
            decreases division_measure(remainder@),
        {
            if remainder.is_zero() {
                break;
            }
            let e = remainder.degree();
            if e < dd {
                break;
            }
            proof {
                lemma_degree_of(remainder@);
            }
            let lead = remainder.coefficients[e];
            let c = mul_mod(lead, inv, q);
            let shift = e - dd;
            let ghost quot_before = quotient@;
            quotient.term(c, shift);
            let mut t = d.shift_and_clone(shift);
            let ghost shifted = t@;
            t.mul_scalar(c);
            let ghost rem_before = remainder@;
            let next = remainder.sub(&t);
            proof {
                assert forall|i: int| i != shift implies #[trigger] coef(quotient@, i) == coef(quot_before, i) by {}
                assert forall|k: int| 0 <= k implies #[trigger] coef(t@, k) == (coef(d@, k - shift) * c) % (q as int) by {
                    if k >= t@.len() {
                        vstd::arithmetic::div_mod::lemma_small_mod(0, q as nat);
                    } else {
                        assert(coef(shifted, k) == coef(d@, k - shift));
                    }
                }
                assert forall|k: int| 0 <= k implies #[trigger] coef(next@, k) == (coef(rem_before, k) - coef(t@, k)) % (q as int) by {
                    if k >= next@.len() {
                        vstd::arithmetic::div_mod::lemma_small_mod(0, q as nat);
                    }
                }
                lemma_division_step(self@, quot_before, quotient@, d@, rem_before, next@, t@, c as int, shift as int, q as int);
                // the leading term cancels, and nothing above it remains
                assert((lead_d * c) % (q as int) == lead) by {
                    vstd::arithmetic::div_mod::lemma_mul_mod_noop_right(lead_d as int, (lead * inv) as int, q as int);
                    assert(lead_d * (lead * inv) == lead * (lead_d * inv)) by (nonlinear_arith);
                    vstd::arithmetic::div_mod::lemma_mul_mod_noop_right(lead as int, (lead_d * inv) as int, q as int);
                    vstd::arithmetic::div_mod::lemma_small_mod(lead as nat, q as nat);
                }
                assert forall|k: int| e <= k < next@.len() implies next@[k] == 0 by {
                    if k == e {
                        assert(coef(d@, k - shift) == lead_d);
                        assert(c * lead_d == lead_d * c) by (nonlinear_arith);
                        vstd::arithmetic::div_mod::lemma_small_mod(0, q as nat);
                    } else {
                        assert(coef(rem_before, k) == 0);
                        assert(coef(d@, k - shift) == 0);
                        vstd::arithmetic::div_mod::lemma_small_mod(0, q as nat);
                    }
                }
                lemma_degree_of(next@);
            }
            remainder = next;
        }
        proof {
            assert forall|k: int| 0 <= k implies (conv(quotient@, divisor@, k) + coef(remainder@, k)) % (q as int) == #[trigger] coef(self@, k) by {
                lemma_conv_prefix_same_b(quotient@, d@, divisor@, k, quotient@.len() as int);
            }
        }
        Ok((quotient, remainder))
    }
}

} // verus!
