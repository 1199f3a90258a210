//! Arithmetic in the prime field `Z_q`, elements held canonically in `[0, q)`.
use vstd::prelude::*;
use vstd::arithmetic::div_mod::*;

verus! {

/// Largest modulus accepted: products of two residues must fit in a `u64`.
pub const MODULUS_LIMIT: u64 = 0x1_0000_0000;

/// A modulus the arithmetic supports.
pub open spec fn valid_modulus(q: u64) -> bool {
    2 <= q && q < MODULUS_LIMIT
}

/// The symmetric (centered) representative of a residue `a` of `Z_q`.
pub open spec fn centered(a: int, q: int) -> int {
    if a <= (q - 1) / 2 {
        a
    } else {
        a - q
    }
}

/// The absolute value of the centered representative.
pub open spec fn centered_abs(a: int, q: int) -> nat {
    let c = centered(a, q);
    if c < 0 {
        (-c) as nat
    } else {
        c as nat
    }
}

/// Addition modulo `q`.
pub fn add_mod(a: u64, b: u64, q: u64) -> (r: u64)
    requires
        valid_modulus(q),
        a < q,
        b < q,
    ensures
        r == (a + b) % (q as int),
        r < q,
{
    (a + b) % q
}

/// Subtraction modulo `q`.
pub fn sub_mod(a: u64, b: u64, q: u64) -> (r: u64)
    requires
        valid_modulus(q),
        a < q,
        b < q,
    ensures
        r == (a - b) % (q as int),
        r < q,
{
    proof {
        lemma_mod_add_multiples_vanish(a - b, q as int);
    }
    (a + (q - b)) % q
}

/// Negation modulo `q`.
pub fn neg_mod(a: u64, q: u64) -> (r: u64)
    requires
        valid_modulus(q),
        a < q,
    ensures
        r == (-a) % (q as int),
        r < q,
{
    sub_mod(0, a, q)
}

/// Multiplication modulo `q`.
pub fn mul_mod(a: u64, b: u64, q: u64) -> (r: u64)
    requires
        valid_modulus(q),
        a < q,
        b < q,
    ensures
        r == (a * b) % (q as int),
        r < q,
{
    proof {
        assert(a * b < MODULUS_LIMIT * MODULUS_LIMIT) by (nonlinear_arith)
            requires
                a < q,
                b < q,
                q < MODULUS_LIMIT;
    }
    (a * b) % q
}

/// Reduction of a signed integer into `[0, q)`.
pub fn from_signed(v: i64, q: u64) -> (r: u64)
    requires
        valid_modulus(q),
    ensures
        r == (v as int) % (q as int),
        r < q,
{
    if v >= 0 {
        (v as u64) % q
    } else {
        let w: u64 = if v == i64::MIN { 0x8000_0000_0000_0000u64 } else { (-v) as u64 };
        let a = w % q;
        proof {
            let k = w as int / q as int;
            lemma_fundamental_div_mod(w as int, q as int);
            assert(v as int == q * (-k) + (-(a as int))) by (nonlinear_arith)
                requires
                    w as int == q * k + a,
                    v as int == -(w as int);
            lemma_mod_multiples_vanish(-k, -(a as int), q as int);
        }
        neg_mod(a, q)
    }
}

/// Absolute value of the centered representative of `a`.
pub fn abs_centered(a: u64, q: u64) -> (r: u64)
    requires
        valid_modulus(q),
        a < q,
    ensures
        r == centered_abs(a as int, q as int),
        2 * r <= q,
{
    if a <= (q - 1) / 2 {
        a
    } else {
        q - a
    }
}

/// `d` divides `x` with no remainder.
pub open spec fn divides(d: int, x: int) -> bool {
    x % d == 0
}

/// A multiple of `d` plus a multiple of `d` is a multiple of `d`.
pub proof fn lemma_divides_combination(d: int, x: int, y: int, k: int)
    requires
        d > 0,
        divides(d, x),
        divides(d, y),
    ensures
        divides(d, x * k + y),
{
    lemma_fundamental_div_mod(x, d);
    lemma_fundamental_div_mod(y, d);
    let u = x / d;
    let v = y / d;
    assert(x * k + y == (u * k + v) * d) by (nonlinear_arith)
        requires
            x == d * u + 0,
            y == d * v + 0,
    ;
    vstd::arithmetic::div_mod::lemma_mod_multiples_basic(u * k + v, d);
}

/// A common divisor of `q` and `a` other than 1 rules out an inverse of `a`.
pub proof fn lemma_no_inverse(a: int, q: int, g: int, x: int)
    requires
        q > 0,
        g > 1,
        divides(g, q),
        divides(g, a),
    ensures
        (a * x) % q != 1,
{
    if (a * x) % q == 1 {
        lemma_fundamental_div_mod(a * x, q);
        lemma_fundamental_div_mod(q, g);
        lemma_fundamental_div_mod(a, g);
        let m = (a * x) / q;
        let u = q / g;
        let v = a / g;
        assert(g * (v * x - u * m) == 1) by (nonlinear_arith)
            requires
                a * x == q * m + 1,
                q == g * u + 0,
                a == g * v + 0,
        ;
        assert(false) by (nonlinear_arith)
            requires
                g * (v * x - u * m) == 1,
                g > 1,
        ;
    }
}

/// One step of the extended Euclidean algorithm keeps `r = s * a (mod q)`.
proof fn lemma_euclid_step(a: u64, q: u64, r0: u64, s0: u64, r1: u64, s1: u64, quot: u64, r2: u64, qm: u64, m: u64, s2: u64)
    requires
        valid_modulus(q),
        r1 > 0,
        quot == r0 / r1,
        r2 == r0 % r1,
        qm == quot % q,
        m == (qm * s1) % (q as int),
        s2 == (s0 - m) % (q as int),
        (r0 - s0 * a) % (q as int) == 0,
        (r1 - s1 * a) % (q as int) == 0,
    ensures
        (r2 - s2 * a) % (q as int) == 0,
{
    let qi = q as int;
    lemma_fundamental_div_mod(r0 - s0 * a, qi);
    lemma_fundamental_div_mod(r1 - s1 * a, qi);
    let u0 = (r0 - s0 * a) / qi;
    let u1 = (r1 - s1 * a) / qi;
    lemma_fundamental_div_mod(r0 as int, r1 as int);
    lemma_fundamental_div_mod(quot as int, qi);
    lemma_fundamental_div_mod(qm * s1, qi);
    lemma_fundamental_div_mod(s0 - m, qi);
    let t0 = quot as int / qi;
    let t1 = (qm * s1) / qi;
    let t2 = (s0 - m) / qi;
    let ai = a as int;
    let s1i = s1 as int;
    assert(s2 * ai == s0 * ai - m * ai - qi * t2 * ai) by (nonlinear_arith)
        requires
            s0 - m == qi * t2 + s2,
    ;
    assert(m * ai == qm * s1i * ai - qi * t1 * ai) by (nonlinear_arith)
        requires
            qm * s1i == qi * t1 + m,
    ;
    assert(qm * s1i * ai == quot * s1i * ai - qi * t0 * s1i * ai) by (nonlinear_arith)
        requires
            quot == qi * t0 + qm,
    ;
    assert(quot * r1 - quot * s1i * ai == quot * (qi * u1)) by (nonlinear_arith)
        requires
            r1 - s1i * ai == qi * u1,
    ;
    assert(quot * (qi * u1) == qi * (quot * u1)) by (nonlinear_arith);
    let x1 = t2 * ai;
    let x2 = t0 * s1i * ai;
    let x3 = t1 * ai;
    vstd::arithmetic::mul::lemma_mul_is_associative(qi, t2, ai);
    vstd::arithmetic::mul::lemma_mul_is_associative(qi, t0 * s1i, ai);
    vstd::arithmetic::mul::lemma_mul_is_associative(qi, t0, s1i);
    vstd::arithmetic::mul::lemma_mul_is_associative(qi, t1, ai);
    vstd::arithmetic::mul::lemma_mul_is_distributive_sub(qi, x1, x2);
    vstd::arithmetic::mul::lemma_mul_is_distributive_sub(qi, x1 - x2, x3);
    assert(qi * t2 * ai - qi * t0 * s1i * ai - qi * t1 * ai == qi * (t2 * ai - t0 * s1i * ai - t1 * ai));
    assert(r1 * quot == quot * r1) by (nonlinear_arith);
    let x = t2 * ai - t0 * s1i * ai - t1 * ai;
    assert(qi * (u0 - quot * u1 + x) == qi * u0 - qi * (quot * u1) + qi * x) by (nonlinear_arith);
    assert(r2 - s2 * a == qi * (u0 - quot * u1 + x));
    vstd::arithmetic::div_mod::lemma_mod_multiples_basic(u0 - quot * u1 + t2 * a - t0 * s1 * a - t1 * a, qi);
    vstd::arithmetic::mul::lemma_mul_is_commutative(u0 - quot * u1 + t2 * a - t0 * s1 * a - t1 * a, qi);
}

/// The inverse of `a` modulo `q`, found by the extended Euclidean algorithm;
/// `None` exactly when no inverse exists (never for `0 < a` and prime `q`).
pub fn inv_mod(a: u64, q: u64) -> (r: Option<u64>)
    requires
        valid_modulus(q),
        a < q,
    ensures
        r matches Some(x) ==> x < q && (a * x) % (q as int) == 1,
        r is None ==> forall|x: int| 0 <= x < q ==> #[trigger] ((a * x) % (q as int)) != 1,
{
    let mut r0: u64 = q;
    let mut s0: u64 = 0;
    let mut r1: u64 = a;
    let mut s1: u64 = 1;
    proof {
        lemma_fundamental_div_mod(q - 0 * a, q as int);
        assert((q - 0 * a) / (q as int) == 1) by {
            vstd::arithmetic::div_mod::lemma_div_by_self(q as int);
        }
        lemma_small_mod((a - 1 * a) as nat, q as nat);
    }
    while r1 != 0
        invariant
            valid_modulus(q),
            a < q,
            s0 < q,
            s1 < q,
            r1 <= r0,
            (r0 - s0 * a) % (q as int) == 0,
            (r1 - s1 * a) % (q as int) == 0,
            r0 > 0,
            forall|d: int|
                d > 0 && divides(d, r0 as int) && divides(d, r1 as int) ==> #[trigger] divides(d, q as int)
                    && divides(d, a as int),
        decreases r1,
    {
        let quot = r0 / r1;
        let r2 = r0 % r1;
        let qm = quot % q;
        let m = mul_mod(qm, s1, q);
        let s2 = sub_mod(s0, m, q);
        proof {
            lemma_euclid_step(a, q, r0, s0, r1, s1, quot, r2, qm, m, s2);
        }
        proof {
            lemma_fundamental_div_mod(r0 as int, r1 as int);
            assert forall|d: int|
                d > 0 && divides(d, r1 as int) && divides(d, r2 as int) implies #[trigger] divides(d, q as int)
                    && divides(d, a as int) by {
                lemma_divides_combination(d, r1 as int, r2 as int, quot as int);
                assert(r0 as int == r1 * quot + r2);
            }
        }
        r0 = r1;
        s0 = s1;
        r1 = r2;
        s1 = s2;
    }
    proof {
        vstd::arithmetic::div_mod::lemma_mod_self_0(r0 as int);
        lemma_small_mod(0, r0 as nat);
        assert(divides(r0 as int, q as int) && divides(r0 as int, a as int));
    }
    if r0 == 1 {
        proof {
            let qi = q as int;
            lemma_fundamental_div_mod(1 - s0 * a, qi);
            let u = (1 - s0 * a) / qi;
            assert(a * s0 == qi * (-u) + 1) by (nonlinear_arith)
                requires
                    1 - s0 * a == qi * u + 0,
            ;
            lemma_mod_multiples_vanish(-u, 1, qi);
            lemma_small_mod(1, q as nat);
        }
        Some(s0)
    } else {
        proof {
            assert forall|x: int| 0 <= x < q implies #[trigger] ((a * x) % (q as int)) != 1 by {
                lemma_no_inverse(a as int, q as int, r0 as int, x);
            }
        }
        None
    }
}

} // verus!
