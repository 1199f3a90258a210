//! Laws of the ring `Z_q[X]/(X^N + 1)`: distributivity and associativity of
//! its multiplication, proved through the negacyclic convolution formula.
use vstd::prelude::*;
use vstd::arithmetic::div_mod::{
    lemma_add_mod_noop, lemma_fundamental_div_mod, lemma_fundamental_div_mod_converse,
    lemma_mod_twice, lemma_mul_mod_noop_left, lemma_mul_mod_noop_right, lemma_sub_mod_noop,
};
use crate::field::valid_modulus;
use crate::polynomial::{coef, conv, conv_prefix};
use crate::matrix::dot_prefix;
use crate::ring::{alt_sum, poly_mul_spec, reduce_spec, ring_add_spec, ring_mul_spec, ring_zero};

verus! {

/// `f(lo) + ... + f(hi - 1)`.
pub open spec fn sum(f: spec_fn(int) -> int, lo: int, hi: int) -> int
    decreases hi - lo,
{
    if hi <= lo {
        0
    } else {
        sum(f, lo, hi - 1) + f(hi - 1)
    }
}

/// Sums of pointwise equal terms are equal.
pub proof fn lemma_sum_ext(f: spec_fn(int) -> int, g: spec_fn(int) -> int, lo: int, hi: int)
    requires
        forall|j: int| lo <= j < hi ==> #[trigger] f(j) == g(j),
    ensures
        sum(f, lo, hi) == sum(g, lo, hi),
    decreases hi - lo,
{
    if hi > lo {
        lemma_sum_ext(f, g, lo, hi - 1);
    }
}

/// The sum of pointwise sums is the sum of the sums.
pub proof fn lemma_sum_add(f: spec_fn(int) -> int, g: spec_fn(int) -> int, h: spec_fn(int) -> int, lo: int, hi: int)
    requires
        forall|j: int| lo <= j < hi ==> #[trigger] h(j) == f(j) + g(j),
    ensures
        sum(h, lo, hi) == sum(f, lo, hi) + sum(g, lo, hi),
    decreases hi - lo,
{
    if hi > lo {
        lemma_sum_add(f, g, h, lo, hi - 1);
    }
}

/// A constant factor comes out of a sum.
pub proof fn lemma_sum_scale(f: spec_fn(int) -> int, g: spec_fn(int) -> int, c: int, lo: int, hi: int)
    requires
        forall|j: int| lo <= j < hi ==> #[trigger] g(j) == c * f(j),
    ensures
        sum(g, lo, hi) == c * sum(f, lo, hi),
    decreases hi - lo,
{
    if hi > lo {
        lemma_sum_scale(f, g, c, lo, hi - 1);
        assert(c * sum(f, lo, hi - 1) + c * f(hi - 1) == c * (sum(f, lo, hi - 1) + f(hi - 1))) by (nonlinear_arith);
    }
}

/// Sums of terms congruent modulo `q` are congruent modulo `q`.
pub proof fn lemma_sum_mod(f: spec_fn(int) -> int, g: spec_fn(int) -> int, q: int, lo: int, hi: int)
    requires
        q > 0,
        forall|j: int| lo <= j < hi ==> #[trigger] f(j) % q == g(j) % q,
    ensures
        sum(f, lo, hi) % q == sum(g, lo, hi) % q,
    decreases hi - lo,
{
    if hi > lo {
        lemma_sum_mod(f, g, q, lo, hi - 1);
        lemma_add_mod_noop(sum(f, lo, hi - 1), f(hi - 1), q);
        lemma_add_mod_noop(sum(g, lo, hi - 1), g(hi - 1), q);
    }
}

/// Shifting the range of summation.
pub proof fn lemma_sum_shift(f: spec_fn(int) -> int, g: spec_fn(int) -> int, i: int, lo: int, hi: int)
    requires
        forall|j: int| #[trigger] g(j) == f(j + i),
    ensures
        sum(g, lo, hi) == sum(f, lo + i, hi + i),
    decreases hi - lo,
{
    if hi > lo {
        lemma_sum_shift(f, g, i, lo, hi - 1);
    }
}

/// Peeling the first term.
pub proof fn lemma_sum_first(f: spec_fn(int) -> int, lo: int, hi: int)
    requires
        lo < hi,
    ensures
        sum(f, lo, hi) == f(lo) + sum(f, lo + 1, hi),
    decreases hi - lo,
{
    if hi - 1 > lo {
        lemma_sum_first(f, lo, hi - 1);
        assert(sum(f, lo + 1, hi) == sum(f, lo + 1, hi - 1) + f(hi - 1));
    } else {
        assert(sum(f, lo, lo) == 0);
        assert(sum(f, lo + 1, lo + 1) == 0);
    }
}

/// A periodic function sums to the same over every window of one period.
pub proof fn lemma_sum_periodic(f: spec_fn(int) -> int, n: int, i: int)
    requires
        n > 0,
        i >= 0,
        forall|j: int| #[trigger] f(j + n) == f(j),
    ensures
        sum(f, i, i + n) == sum(f, 0, n),
    decreases i,
{
    if i > 0 {
        lemma_sum_periodic(f, n, i - 1);
        lemma_sum_first(f, i - 1, i - 1 + n);
        assert(f(i - 1 + n) == f(i - 1));
    }
}

/// A sum of zeros is zero.
pub proof fn lemma_sum_zero(f: spec_fn(int) -> int, lo: int, hi: int)
    requires
        forall|j: int| lo <= j < hi ==> #[trigger] f(j) == 0,
    ensures
        sum(f, lo, hi) == 0,
    decreases hi - lo,
{
    if hi > lo {
        lemma_sum_zero(f, lo, hi - 1);
    }
}

/// Exchanging the order of a double sum.
pub proof fn lemma_sum_swap(f: spec_fn(int, int) -> int, n: int, m: int)
    requires
        n >= 0,
        m >= 0,
    ensures
        sum(|j: int| sum(|i: int| f(i, j), 0, n), 0, m) == sum(|i: int| sum(|j: int| f(i, j), 0, m), 0, n),
    decreases m,
{
    let outer = |j: int| sum(|i: int| f(i, j), 0, n);
    let inner = |i: int| sum(|j: int| f(i, j), 0, m);
    if m == 0 {
        lemma_sum_zero(inner, 0, n);
    } else {
        lemma_sum_swap(f, n, m - 1);
        let prev = |i: int| sum(|j: int| f(i, j), 0, m - 1);
        let col = |i: int| f(i, m - 1);
        assert(sum(outer, 0, m) == sum(outer, 0, m - 1) + outer(m - 1));
        lemma_sum_ext(|i: int| f(i, m - 1), col, 0, n);
        assert forall|i: int| 0 <= i < n implies #[trigger] inner(i) == prev(i) + col(i) by {}
        lemma_sum_add(prev, col, inner, 0, n);
    }
}

/// The coefficient of degree `j` of the negacyclic extension of `b` (with
/// `X^n = -1`): `b[j mod n]` with sign `(-1)^(j div n)`.
pub open spec fn tw(b: Seq<u64>, n: int, j: int) -> int {
    if (j / n) % 2 == 0 {
        coef(b, j % n)
    } else {
        -coef(b, j % n)
    }
}

/// `sum_{i < n} a_i * tw(b, k - i)`: coefficient `k` of `a * b` modulo
/// `X^n + 1`, over the integers.
pub open spec fn nc(a: Seq<u64>, b: Seq<u64>, n: int, k: int) -> int {
    sum(|i: int| coef(a, i) * tw(b, n, k - i), 0, n)
}

/// Shifting the degree by `t` periods flips the sign `t` times.
pub proof fn lemma_tw_shift(b: Seq<u64>, n: int, j: int, t: int)
    requires
        n > 0,
    ensures
        tw(b, n, j + n * t) == if t % 2 == 0 { tw(b, n, j) } else { -tw(b, n, j) },
{
    lemma_fundamental_div_mod(j, n);
    assert(j + n * t == n * (j / n + t) + j % n) by (nonlinear_arith)
        requires
            j == n * (j / n) + j % n,
    ;
    lemma_fundamental_div_mod_converse(j + n * t, n, j / n + t, j % n);
}

/// Within one period on either side of zero.
pub proof fn lemma_tw_range(b: Seq<u64>, n: int, j: int)
    requires
        n > 0,
        -n <= j < n,
    ensures
        0 <= j ==> tw(b, n, j) == coef(b, j),
        j < 0 ==> tw(b, n, j) == -coef(b, j + n),
{
    if j >= 0 {
        lemma_fundamental_div_mod_converse(j, n, 0, j);
    } else {
        lemma_fundamental_div_mod_converse(j, n, -1, j + n);
    }
}

/// The product's coefficients as a sum.
pub proof fn lemma_conv_as_sum(a: Seq<u64>, b: Seq<u64>, k: int, m: int)
    ensures
        conv_prefix(a, b, k, m) == sum(|i: int| coef(a, i) * coef(b, k - i), 0, m),
    decreases m,
{
    if m > 0 {
        lemma_conv_as_sum(a, b, k, m - 1);
    }
}

/// Ring multiplication is the negacyclic convolution reduced modulo `q`.
pub proof fn lemma_ring_mul_formula(a: Seq<u64>, b: Seq<u64>, q: u64, k: int)
    requires
        valid_modulus(q),
        a.len() == b.len(),
        a.len() >= 1,
        0 <= k < a.len(),
    ensures
        ring_mul_spec(a, b, q)[k] as int == nc(a, b, a.len() as int, k) % (q as int),
{
    let n = a.len() as int;
    let qi = q as int;
    let p = poly_mul_spec(a, b, q);
    assert(alt_sum(p, n as nat, k) == p[k] - p[k + n]) by {
        assert(alt_sum(p, n as nat, k + n) == p[k + n] as int);
    }
    lemma_sub_mod_noop(conv(a, b, k), conv(a, b, k + n), qi);
    lemma_conv_as_sum(a, b, k, n);
    lemma_conv_as_sum(a, b, k + n, n);
    let g1 = |i: int| coef(a, i) * coef(b, k - i);
    let g2 = |i: int| coef(a, i) * coef(b, k + n - i);
    let h = |i: int| coef(a, i) * tw(b, n, k - i);
    assert forall|i: int| 0 <= i < n implies #[trigger] g1(i) == g2(i) + h(i) by {
        lemma_tw_range(b, n, k - i);
        if k - i >= 0 {
            assert(coef(b, k + n - i) == 0);
        } else {
            assert(coef(b, k - i) == 0);
            assert(coef(a, i) * (-coef(b, k - i + n)) == -(coef(a, i) * coef(b, k + n - i))) by (nonlinear_arith);
        }
    }
    lemma_sum_add(g2, h, g1, 0, n);
}

/// Negation respects congruence modulo `q`.
pub proof fn lemma_neg_mod(x: int, y: int, q: int)
    requires
        q > 0,
        x % q == y % q,
    ensures
        (-x) % q == (-y) % q,
{
    lemma_sub_mod_noop(0, x, q);
    lemma_sub_mod_noop(0, y, q);
}

/// Multiplication respects congruence modulo `q`.
pub proof fn lemma_mul_cong(c: int, x: int, y: int, q: int)
    requires
        q > 0,
        x % q == y % q,
    ensures
        (c * x) % q == (c * y) % q,
{
    lemma_mul_mod_noop_right(c, x, q);
    lemma_mul_mod_noop_right(c, y, q);
}

/// The twisted coefficients of a sum are the sums of the twisted
/// coefficients, modulo `q`.
pub proof fn lemma_tw_add(y: Seq<u64>, w: Seq<u64>, q: u64, m: int)
    requires
        valid_modulus(q),
        y.len() == w.len(),
        y.len() >= 1,
    ensures
        tw(ring_add_spec(y, w, q), y.len() as int, m) % (q as int) == (tw(y, y.len() as int, m) + tw(
            w,
            y.len() as int,
            m,
        )) % (q as int),
{
    let n = y.len() as int;
    let qi = q as int;
    let j = m % n;
    let x = coef(y, j) + coef(w, j);
    assert(coef(ring_add_spec(y, w, q), j) == x % qi);
    if (m / n) % 2 == 0 {
        lemma_mod_twice(x, qi);
    } else {
        lemma_mod_twice(x, qi);
        lemma_neg_mod(x % qi, x, qi);
    }
}

/// Left distributivity: `a * (y + w) = a * y + a * w`.
pub proof fn lemma_mul_distributes_left(a: Seq<u64>, y: Seq<u64>, w: Seq<u64>, q: u64)
    requires
        valid_modulus(q),
        a.len() == y.len(),
        a.len() == w.len(),
        a.len() >= 1,
    ensures
        ring_mul_spec(a, ring_add_spec(y, w, q), q) == ring_add_spec(ring_mul_spec(a, y, q), ring_mul_spec(a, w, q), q),
{
    let n = a.len() as int;
    let qi = q as int;
    let yw = ring_add_spec(y, w, q);
    let lhs = ring_mul_spec(a, yw, q);
    let rhs = ring_add_spec(ring_mul_spec(a, y, q), ring_mul_spec(a, w, q), q);
    assert forall|k: int| 0 <= k < n implies lhs[k] == rhs[k] by {
        lemma_ring_mul_formula(a, yw, q, k);
        lemma_ring_mul_formula(a, y, q, k);
        lemma_ring_mul_formula(a, w, q, k);
        let f = |i: int| coef(a, i) * tw(yw, n, k - i);
        let gy = |i: int| coef(a, i) * tw(y, n, k - i);
        let gw = |i: int| coef(a, i) * tw(w, n, k - i);
        let g = |i: int| gy(i) + gw(i);
        assert forall|i: int| 0 <= i < n implies #[trigger] f(i) % qi == g(i) % qi by {
            lemma_tw_add(y, w, q, k - i);
            lemma_mul_cong(coef(a, i), tw(yw, n, k - i), tw(y, n, k - i) + tw(w, n, k - i), qi);
            let (c, ty, tww) = (coef(a, i), tw(y, n, k - i), tw(w, n, k - i));
            assert(c * (ty + tww) == c * ty + c * tww) by (nonlinear_arith);
        }
        lemma_sum_mod(f, g, qi, 0, n);
        lemma_sum_add(gy, gw, g, 0, n);
        lemma_add_mod_noop(nc(a, y, n, k), nc(a, w, n, k), qi);
    }
    assert(lhs =~= rhs);
}

/// Right distributivity: `(u + v) * d = u * d + v * d`.
pub proof fn lemma_mul_distributes_right(u: Seq<u64>, v: Seq<u64>, d: Seq<u64>, q: u64)
    requires
        valid_modulus(q),
        u.len() == v.len(),
        u.len() == d.len(),
        u.len() >= 1,
    ensures
        ring_mul_spec(ring_add_spec(u, v, q), d, q) == ring_add_spec(ring_mul_spec(u, d, q), ring_mul_spec(v, d, q), q),
{
    let n = u.len() as int;
    let qi = q as int;
    let uv = ring_add_spec(u, v, q);
    let lhs = ring_mul_spec(uv, d, q);
    let rhs = ring_add_spec(ring_mul_spec(u, d, q), ring_mul_spec(v, d, q), q);
    assert forall|k: int| 0 <= k < n implies lhs[k] == rhs[k] by {
        lemma_ring_mul_formula(uv, d, q, k);
        lemma_ring_mul_formula(u, d, q, k);
        lemma_ring_mul_formula(v, d, q, k);
        let f = |i: int| coef(uv, i) * tw(d, n, k - i);
        let gu = |i: int| coef(u, i) * tw(d, n, k - i);
        let gv = |i: int| coef(v, i) * tw(d, n, k - i);
        let g = |i: int| gu(i) + gv(i);
        assert forall|i: int| 0 <= i < n implies #[trigger] f(i) % qi == g(i) % qi by {
            let x = coef(u, i) + coef(v, i);
            assert(coef(uv, i) == x % qi);
            lemma_mul_mod_noop_left(x, tw(d, n, k - i), qi);
            let (cu, cv, t) = (coef(u, i), coef(v, i), tw(d, n, k - i));
            assert((cu + cv) * t == cu * t + cv * t) by (nonlinear_arith);
        }
        lemma_sum_mod(f, g, qi, 0, n);
        lemma_sum_add(gu, gv, g, 0, n);
        lemma_add_mod_noop(nc(u, d, n, k), nc(v, d, n, k), qi);
    }
    assert(lhs =~= rhs);
}

/// `sum_{j < n} r_j * tw(d, m - j)`: the twisted coefficient of degree `m`
/// of `r * d`, over the integers.
pub open spec fn nc_tw(r: Seq<u64>, d: Seq<u64>, n: int, m: int) -> int {
    sum(|j: int| coef(r, j) * tw(d, n, m - j), 0, n)
}

/// The twisted coefficients of a product, modulo `q`.
pub proof fn lemma_tw_product(r: Seq<u64>, d: Seq<u64>, q: u64, m: int)
    requires
        valid_modulus(q),
        r.len() == d.len(),
        r.len() >= 1,
    ensures
        tw(ring_mul_spec(r, d, q), r.len() as int, m) % (q as int) == nc_tw(r, d, r.len() as int, m) % (q as int),
{
    let n = r.len() as int;
    let qi = q as int;
    let rd = ring_mul_spec(r, d, q);
    lemma_fundamental_div_mod(m, n);
    let m0 = m % n;
    let t = m / n;
    lemma_ring_mul_formula(r, d, q, m0);
    let x = nc(r, d, n, m0);
    assert(coef(rd, m0) == x % qi);
    let f = |j: int| coef(r, j) * tw(d, n, m - j);
    let g = |j: int| coef(r, j) * tw(d, n, m0 - j);
    if t % 2 == 0 {
        assert forall|j: int| 0 <= j < n implies #[trigger] f(j) == g(j) by {
            assert(m - j == (m0 - j) + n * t);
            lemma_tw_shift(d, n, m0 - j, t);
        }
        lemma_sum_ext(f, g, 0, n);
        lemma_mod_twice(x, qi);
    } else {
        assert forall|j: int| 0 <= j < n implies #[trigger] f(j) == -1 * g(j) by {
            assert(m - j == (m0 - j) + n * t);
            lemma_tw_shift(d, n, m0 - j, t);
            let (c, e) = (coef(r, j), tw(d, n, m0 - j));
            assert(c * (-e) == -1 * (c * e)) by (nonlinear_arith);
        }
        lemma_sum_scale(g, f, -1, 0, n);
        lemma_mod_twice(x, qi);
        lemma_neg_mod(x % qi, x, qi);
    }
}

/// Associativity: `a * (r * d) = (a * r) * d`.
pub proof fn lemma_mul_associative(a: Seq<u64>, r: Seq<u64>, d: Seq<u64>, q: u64)
    requires
        valid_modulus(q),
        a.len() == r.len(),
        a.len() == d.len(),
        a.len() >= 1,
    ensures
        ring_mul_spec(a, ring_mul_spec(r, d, q), q) == ring_mul_spec(ring_mul_spec(a, r, q), d, q),
{
    let n = a.len() as int;
    let qi = q as int;
    let rd = ring_mul_spec(r, d, q);
    let ar = ring_mul_spec(a, r, q);
    let lhs = ring_mul_spec(a, rd, q);
    let rhs = ring_mul_spec(ar, d, q);
    assert forall|k: int| 0 <= k < n implies lhs[k] == rhs[k] by {
        lemma_ring_mul_formula(a, rd, q, k);
        lemma_ring_mul_formula(ar, d, q, k);
        let ff = |i: int, j: int| coef(a, i) * tw(r, n, j - i) * tw(d, n, k - j);
        let outer = |j: int| sum(|i: int| ff(i, j), 0, n);
        let inner = |i: int| sum(|j: int| ff(i, j), 0, n);
        // the left side, term by term
        let f1 = |i: int| coef(a, i) * tw(rd, n, k - i);
        assert forall|i: int| 0 <= i < n implies #[trigger] f1(i) % qi == inner(i) % qi by {
            lemma_tw_product(r, d, q, k - i);
            lemma_mul_cong(coef(a, i), tw(rd, n, k - i), nc_tw(r, d, n, k - i), qi);
            // inner(i) == coef(a, i) * nc_tw(r, d, n, k - i)
            let gi = |j: int| tw(r, n, j - i) * tw(d, n, k - j);
            let ci = coef(a, i);
            assert forall|j: int| 0 <= j < n implies #[trigger] ff(i, j) == ci * gi(j) by {
                let (x, y) = (tw(r, n, j - i), tw(d, n, k - j));
                assert(ci * x * y == ci * (x * y)) by (nonlinear_arith);
            }
            lemma_sum_scale(gi, |j: int| ff(i, j), ci, 0, n);
            assert forall|j: int| #[trigger] gi(j + n) == gi(j) by {
                lemma_tw_shift(r, n, j - i, 1);
                lemma_tw_shift(d, n, k - j, -1);
                assert(j + n - i == (j - i) + n * 1);
                assert(k - (j + n) == (k - j) + n * (-1));
                let (x, y) = (tw(r, n, j - i), tw(d, n, k - j));
                assert((-x) * (-y) == x * y) by (nonlinear_arith);
            }
            lemma_sum_periodic(gi, n, i);
            let hi = |j: int| coef(r, j) * tw(d, n, (k - i) - j);
            let gs = |j: int| gi(j + i);
            lemma_sum_shift(gi, gs, i, 0, n);
            assert forall|j: int| 0 <= j < n implies #[trigger] gs(j) == hi(j) by {
                lemma_tw_range(r, n, j);
                assert(j + i - i == j);
                assert(k - (j + i) == (k - i) - j);
            }
            lemma_sum_ext(gs, hi, 0, n);
        }
        lemma_sum_mod(f1, inner, qi, 0, n);
        // the right side, term by term
        let f2 = |j: int| coef(ar, j) * tw(d, n, k - j);
        assert forall|j: int| 0 <= j < n implies #[trigger] f2(j) % qi == outer(j) % qi by {
            lemma_ring_mul_formula(a, r, q, j);
            let x = nc(a, r, n, j);
            let c = tw(d, n, k - j);
            assert(coef(ar, j) == x % qi);
            lemma_mul_mod_noop_left(x, c, qi);
            let fj = |i: int| coef(a, i) * tw(r, n, j - i);
            assert forall|i: int| 0 <= i < n implies #[trigger] ff(i, j) == c * fj(i) by {
                let (u, v) = (coef(a, i), tw(r, n, j - i));
                assert(u * v * c == c * (u * v)) by (nonlinear_arith);
            }
            lemma_sum_scale(fj, |i: int| ff(i, j), c, 0, n);
            assert(x * c == c * x) by (nonlinear_arith);
        }
        lemma_sum_mod(f2, outer, qi, 0, n);
        lemma_sum_swap(ff, n, n);
    }
    assert(lhs =~= rhs);
}

/// `0 * d = 0`.
pub proof fn lemma_mul_zero_left(d: Seq<u64>, q: u64)
    requires
        valid_modulus(q),
        d.len() >= 1,
    ensures
        ring_mul_spec(ring_zero(d.len()), d, q) == ring_zero(d.len()),
{
    let n = d.len() as int;
    let z = ring_zero(d.len());
    let lhs = ring_mul_spec(z, d, q);
    assert forall|k: int| 0 <= k < n implies lhs[k] == 0 by {
        lemma_ring_mul_formula(z, d, q, k);
        let f = |i: int| coef(z, i) * tw(d, n, k - i);
        assert forall|i: int| 0 <= i < n implies #[trigger] f(i) == 0 by {
            assert(coef(z, i) == 0);
            let t = tw(d, n, k - i);
            assert(0 * t == 0) by (nonlinear_arith);
        }
        lemma_sum_zero(f, 0, n);
        vstd::arithmetic::div_mod::lemma_small_mod(0, q as nat);
    }
    assert(lhs =~= z);
}

/// `0 + 0 = 0`.
pub proof fn lemma_add_zero_zero(n: nat, q: u64)
    requires
        valid_modulus(q),
    ensures
        ring_add_spec(ring_zero(n), ring_zero(n), q) == ring_zero(n),
{
    vstd::arithmetic::div_mod::lemma_small_mod(0, q as nat);
    assert(ring_add_spec(ring_zero(n), ring_zero(n), q) =~= ring_zero(n));
}

/// `(a + b) + (c + e) = (a + c) + (b + e)`.
pub proof fn lemma_add_regroup(a: Seq<u64>, b: Seq<u64>, c: Seq<u64>, e: Seq<u64>, q: u64)
    requires
        valid_modulus(q),
        a.len() == b.len(),
        a.len() == c.len(),
        a.len() == e.len(),
    ensures
        ring_add_spec(ring_add_spec(a, b, q), ring_add_spec(c, e, q), q) == ring_add_spec(
            ring_add_spec(a, c, q),
            ring_add_spec(b, e, q),
            q,
        ),
{
    let qi = q as int;
    let lhs = ring_add_spec(ring_add_spec(a, b, q), ring_add_spec(c, e, q), q);
    let rhs = ring_add_spec(ring_add_spec(a, c, q), ring_add_spec(b, e, q), q);
    assert forall|i: int| 0 <= i < a.len() implies lhs[i] == rhs[i] by {
        let (x, y, z, w) = (coef(a, i), coef(b, i), coef(c, i), coef(e, i));
        lemma_add_mod_noop(x + y, z + w, qi);
        lemma_add_mod_noop(x + z, y + w, qi);
        lemma_mod_twice(x + y, qi);
        lemma_mod_twice(z + w, qi);
        lemma_mod_twice(x + z, qi);
        lemma_mod_twice(y + w, qi);
        assert((x + y) + (z + w) == (x + z) + (y + w));
    }
    assert(lhs =~= rhs);
}

/// Row `row` of a matrix times `y + r * d` is the row times `y` plus the
/// row times `r`, times `d`.
pub proof fn lemma_dot_linear(
    e: Seq<Seq<u64>>,
    cols: nat,
    row: int,
    y: Seq<Seq<u64>>,
    r: Seq<Seq<u64>>,
    d: Seq<u64>,
    q: u64,
    n: nat,
    m: int,
)
    requires
        valid_modulus(q),
        n >= 1,
        d.len() == n,
        0 <= m <= cols,
        y.len() == cols,
        r.len() == cols,
        forall|j: int| 0 <= j < cols ==> (#[trigger] y[j]).len() == n,
        forall|j: int| 0 <= j < cols ==> (#[trigger] r[j]).len() == n,
        forall|j: int| 0 <= j < m ==> (#[trigger] e[row * cols + j]).len() == n,
    ensures
        dot_prefix(
            e,
            cols,
            row,
            Seq::new(cols, |j: int| ring_add_spec(y[j], ring_mul_spec(r[j], d, q), q)),
            q,
            n,
            m,
        ) == ring_add_spec(
            dot_prefix(e, cols, row, y, q, n, m),
            ring_mul_spec(dot_prefix(e, cols, row, r, q, n, m), d, q),
            q,
        ),
    decreases m,
{
    let z = Seq::new(cols, |j: int| ring_add_spec(y[j], ring_mul_spec(r[j], d, q), q));
    if m == 0 {
        lemma_mul_zero_left(d, q);
        lemma_add_zero_zero(n, q);
    } else {
        lemma_dot_linear(e, cols, row, y, r, d, q, n, m - 1);
        crate::matrix::lemma_dot_prefix_len(e, cols, row, y, q, n, m - 1);
        crate::matrix::lemma_dot_prefix_len(e, cols, row, r, q, n, m - 1);
        let a = e[row * cols + (m - 1)];
        let yj = y[m - 1];
        let rj = r[m - 1];
        let dy = dot_prefix(e, cols, row, y, q, n, m - 1);
        let dr = dot_prefix(e, cols, row, r, q, n, m - 1);
        assert(z[m - 1] == ring_add_spec(yj, ring_mul_spec(rj, d, q), q));
        lemma_mul_distributes_left(a, yj, ring_mul_spec(rj, d, q), q);
        lemma_mul_associative(a, rj, d, q);
        lemma_add_regroup(dy, ring_mul_spec(dr, d, q), ring_mul_spec(a, yj, q), ring_mul_spec(ring_mul_spec(a, rj, q), d, q), q);
        lemma_mul_distributes_right(dr, ring_mul_spec(a, rj, q), d, q);
    }
}

/// A row product reads only that row's entries.
pub proof fn lemma_dot_same_row(
    e1: Seq<Seq<u64>>,
    e2: Seq<Seq<u64>>,
    cols: nat,
    row: int,
    v: Seq<Seq<u64>>,
    q: u64,
    n: nat,
    m: int,
)
    requires
        forall|j: int| 0 <= j < m ==> #[trigger] e1[row * cols + j] == e2[row * cols + j],
    ensures
        dot_prefix(e1, cols, row, v, q, n, m) == dot_prefix(e2, cols, row, v, q, n, m),
    decreases m,
{
    if m > 0 {
        lemma_dot_same_row(e1, e2, cols, row, v, q, n, m - 1);
        assert(e1[row * cols + (m - 1)] == e2[row * cols + (m - 1)]);
    }
}

/// Adding zero to a canonical row product changes nothing.
pub proof fn lemma_dot_plus_zero(e: Seq<Seq<u64>>, cols: nat, row: int, v: Seq<Seq<u64>>, q: u64, n: nat, m: int)
    requires
        valid_modulus(q),
    ensures
        ring_add_spec(dot_prefix(e, cols, row, v, q, n, m), ring_zero(n), q) == dot_prefix(e, cols, row, v, q, n, m),
{
    crate::matrix::lemma_dot_prefix_len(e, cols, row, v, q, n, m);
    let p = dot_prefix(e, cols, row, v, q, n, m);
    assert forall|i: int| 0 <= i < n implies ring_add_spec(p, ring_zero(n), q)[i] == p[i] by {
        if m > 0 {
            vstd::arithmetic::div_mod::lemma_mod_twice(
                coef(dot_prefix(e, cols, row, v, q, n, m - 1), i) + coef(ring_mul_spec(e[row * cols + (m - 1)], v[m - 1], q), i),
                q as int,
            );
        } else {
            vstd::arithmetic::div_mod::lemma_small_mod(0, q as nat);
        }
    }
    assert(ring_add_spec(p, ring_zero(n), q) =~= p);
}

} // verus!
