//! Row-major matrices and vectors over the ring `R_q`.
use vstd::prelude::*;
use crate::field::valid_modulus;
use crate::ring::{
    ring_add_spec, ring_mul_spec, ring_one, ring_sub_spec, ring_zero, valid_ring_degree,
    RingPolynomial64,
};

verus! {

/// Largest number of rows or columns accepted.
pub const MAX_DIMENSION: usize = 0x1000;

/// The coefficient sequences of a sequence of ring elements.
pub open spec fn views(s: Seq<RingPolynomial64>) -> Seq<Seq<u64>> {
    Seq::new(s.len(), |i: int| s[i]@)
}

/// Every element belongs to the ring with modulus `q` and degree `n`.
pub open spec fn all_in_ring(s: Seq<RingPolynomial64>, q: u64, n: nat) -> bool {
    forall|i: int| 0 <= i < s.len() ==> #[trigger] s[i].in_ring(q, n)
}

/// Component-wise sum of two vectors.
pub open spec fn vec_add_spec(a: Seq<Seq<u64>>, b: Seq<Seq<u64>>, q: u64) -> Seq<Seq<u64>> {
    Seq::new(a.len(), |i: int| ring_add_spec(a[i], b[i], q))
}

/// Component-wise difference of two vectors.
pub open spec fn vec_sub_spec(a: Seq<Seq<u64>>, b: Seq<Seq<u64>>, q: u64) -> Seq<Seq<u64>> {
    Seq::new(a.len(), |i: int| ring_sub_spec(a[i], b[i], q))
}

/// Every component multiplied by the ring element `d`.
pub open spec fn vec_scale_spec(a: Seq<Seq<u64>>, d: Seq<u64>, q: u64) -> Seq<Seq<u64>> {
    Seq::new(a.len(), |i: int| ring_mul_spec(a[i], d, q))
}

/// `sum_{j < m} e[row * cols + j] * v[j]` in the ring of degree `n`.
pub open spec fn dot_prefix(
    e: Seq<Seq<u64>>,
    cols: nat,
    row: int,
    v: Seq<Seq<u64>>,
    q: u64,
    n: nat,
    m: int,
) -> Seq<u64>
    decreases m,
{
    if m <= 0 {
        ring_zero(n)
    } else {
        ring_add_spec(
            dot_prefix(e, cols, row, v, q, n, m - 1),
            ring_mul_spec(e[row * cols + (m - 1)], v[m - 1], q),
            q,
        )
    }
}

/// The product of a `rows x cols` row-major matrix with entries `e` and a
/// vector `v` of length `cols`.
pub open spec fn mat_vec_spec(
    e: Seq<Seq<u64>>,
    rows: nat,
    cols: nat,
    v: Seq<Seq<u64>>,
    q: u64,
    n: nat,
) -> Seq<Seq<u64>> {
    Seq::new(rows, |i: int| dot_prefix(e, cols, i, v, q, n, cols as int))
}

/// Every partial row product has `n` coefficients.
pub proof fn lemma_dot_prefix_len(e: Seq<Seq<u64>>, cols: nat, row: int, v: Seq<Seq<u64>>, q: u64, n: nat, m: int)
    ensures
        dot_prefix(e, cols, row, v, q, n, m).len() == n,
    decreases m,
{
    if m > 0 {
        lemma_dot_prefix_len(e, cols, row, v, q, n, m - 1);
    }
}

/// Row-major index arithmetic.
pub proof fn lemma_row_major(i: int, j: int, h: int, w: int)
    requires
        0 <= i < h,
        0 <= j < w,
    ensures
        0 <= i * w + j < h * w,
        (i * w + j) / w == i,
        (i * w + j) % w == j,
{
    assert(0 <= i * w + j < h * w) by (nonlinear_arith)
        requires
            0 <= i < h,
            0 <= j < w,
    ;
    vstd::arithmetic::div_mod::lemma_fundamental_div_mod_converse(i * w + j, w, i, j);
}

/// Copies of `v[start..end]`.
pub fn copy_range(v: &Vec<RingPolynomial64>, start: usize, end: usize) -> (r: Vec<RingPolynomial64>)
    requires
        start <= end <= v@.len(),
    ensures
        r@.len() == end - start,
        forall|k: int| 0 <= k < end - start ==> #[trigger] r@[k]@ == v@[start + k]@ && r@[k].q() == v@[start + k].q(),
        views(r@) == views(v@.subrange(start as int, end as int)),
        forall|q: u64, n: nat| all_in_ring(v@, q, n) ==> all_in_ring(r@, q, n),
{
    let mut out: Vec<RingPolynomial64> = Vec::new();
    let mut k: usize = start;
    while k < end
        invariant
            start <= k <= end <= v@.len(),
            out@.len() == k - start,
            forall|t: int| 0 <= t < k - start ==> #[trigger] out@[t]@ == v@[start + t]@ && out@[t].q() == v@[start + t].q(),
        decreases end - k,
    {
        out.push(v[k].copy());
        k += 1;
    }
    assert(views(out@) =~= views(v@.subrange(start as int, end as int)));
    proof {
        assert forall|q: u64, n: nat| all_in_ring(v@, q, n) implies all_in_ring(out@, q, n) by {
            assert forall|t: int| 0 <= t < out@.len() implies #[trigger] out@[t].in_ring(q, n) by {
                assert(v@[start + t].in_ring(q, n));
                assert(out@[t]@ == v@[start + t]@);
            }
        }
    }
    out
}

/// The vector of `len` zero elements.
pub fn zero_vector(len: usize, q: u64, n: usize) -> (r: Vec<RingPolynomial64>)
    requires
        valid_modulus(q),
        valid_ring_degree(n as nat),
    ensures
        r@.len() == len,
        all_in_ring(r@, q, n as nat),
        views(r@) == Seq::new(len as nat, |_i: int| ring_zero(n as nat)),
{
    let mut out: Vec<RingPolynomial64> = Vec::new();
    let mut k: usize = 0;
    while k < len
        invariant
            k <= len,
            valid_modulus(q),
            valid_ring_degree(n as nat),
            out@.len() == k,
            all_in_ring(out@, q, n as nat),
            forall|t: int| 0 <= t < k ==> #[trigger] out@[t]@ == ring_zero(n as nat),
        decreases len - k,
    {
        out.push(RingPolynomial64::zero(q, n));
        k += 1;
    }
    assert(views(out@) =~= Seq::new(len as nat, |_i: int| ring_zero(n as nat)));
    out
}

/// Component-wise sum of two vectors of the same length.
pub fn vector_add(a: &Vec<RingPolynomial64>, b: &Vec<RingPolynomial64>, q: u64, n: usize) -> (r: Vec<RingPolynomial64>)
    requires
        a@.len() == b@.len(),
        all_in_ring(a@, q, n as nat),
        all_in_ring(b@, q, n as nat),
    ensures
        r@.len() == a@.len(),
        all_in_ring(r@, q, n as nat),
        views(r@) == vec_add_spec(views(a@), views(b@), q),
{
    let mut out: Vec<RingPolynomial64> = Vec::new();
    let mut k: usize = 0;
    while k < a.len()
        invariant
            k <= a@.len() == b@.len(),
            all_in_ring(a@, q, n as nat),
            all_in_ring(b@, q, n as nat),
            out@.len() == k,
            all_in_ring(out@, q, n as nat),
            forall|t: int| 0 <= t < k ==> #[trigger] out@[t]@ == ring_add_spec(a@[t]@, b@[t]@, q),
        decreases a@.len() - k,
    {
        assert(a@[k as int].in_ring(q, n as nat) && b@[k as int].in_ring(q, n as nat));
        out.push(a[k].add(&b[k]));
        k += 1;
    }
    assert(views(out@) =~= vec_add_spec(views(a@), views(b@), q));
    out
}

/// Component-wise difference of two vectors of the same length.
pub fn vector_sub(a: &Vec<RingPolynomial64>, b: &Vec<RingPolynomial64>, q: u64, n: usize) -> (r: Vec<RingPolynomial64>)
    requires
        a@.len() == b@.len(),
        all_in_ring(a@, q, n as nat),
        all_in_ring(b@, q, n as nat),
    ensures
        r@.len() == a@.len(),
        all_in_ring(r@, q, n as nat),
        views(r@) == vec_sub_spec(views(a@), views(b@), q),
{
    let mut out: Vec<RingPolynomial64> = Vec::new();
    let mut k: usize = 0;
    while k < a.len()
        invariant
            k <= a@.len() == b@.len(),
            all_in_ring(a@, q, n as nat),
            all_in_ring(b@, q, n as nat),
            out@.len() == k,
            all_in_ring(out@, q, n as nat),
            forall|t: int| 0 <= t < k ==> #[trigger] out@[t]@ == ring_sub_spec(a@[t]@, b@[t]@, q),
        decreases a@.len() - k,
    {
        assert(a@[k as int].in_ring(q, n as nat) && b@[k as int].in_ring(q, n as nat));
        out.push(a[k].sub(&b[k]));
        k += 1;
    }
    assert(views(out@) =~= vec_sub_spec(views(a@), views(b@), q));
    out
}

/// Every component multiplied by the ring element `d`.
pub fn vector_scale(a: &Vec<RingPolynomial64>, d: &RingPolynomial64, q: u64, n: usize) -> (r: Vec<RingPolynomial64>)
    requires
        all_in_ring(a@, q, n as nat),
        d.in_ring(q, n as nat),
    ensures
        r@.len() == a@.len(),
        all_in_ring(r@, q, n as nat),
        views(r@) == vec_scale_spec(views(a@), d@, q),
{
    let mut out: Vec<RingPolynomial64> = Vec::new();
    let mut k: usize = 0;
    while k < a.len()
        invariant
            k <= a@.len(),
            all_in_ring(a@, q, n as nat),
            d.in_ring(q, n as nat),
            out@.len() == k,
            all_in_ring(out@, q, n as nat),
            forall|t: int| 0 <= t < k ==> #[trigger] out@[t]@ == ring_mul_spec(a@[t]@, d@, q),
        decreases a@.len() - k,
    {
        assert(a@[k as int].in_ring(q, n as nat));
        out.push(a[k].mul(d));
        k += 1;
    }
    assert(views(out@) =~= vec_scale_spec(views(a@), d@, q));
    out
}

/// Whether every element of `v` belongs to the ring with modulus `q` and degree `n`.
pub fn all_members(v: &Vec<RingPolynomial64>, q: u64, n: usize) -> (r: bool)
    requires
        valid_modulus(q),
        valid_ring_degree(n as nat),
    ensures
        r == all_in_ring(v@, q, n as nat),
{
    let mut i: usize = 0;
    while i < v.len()
        invariant
            i <= v@.len(),
            valid_modulus(q),
            valid_ring_degree(n as nat),
            forall|j: int| 0 <= j < i ==> #[trigger] v@[j].in_ring(q, n as nat),
        decreases v@.len() - i,
    {
        if !v[i].is_member(q, n) {
            return false;
        }
        i += 1;
    }
    true
}

/// Whether two vectors have the same components.
pub fn vectors_equal(a: &Vec<RingPolynomial64>, b: &Vec<RingPolynomial64>) -> (r: bool)
    ensures
        r == (views(a@) == views(b@)),
{
    if a.len() != b.len() {
        assert(views(a@).len() != views(b@).len());
        return false;
    }
    let mut i: usize = 0;
    while i < a.len()
        invariant
            i <= a@.len() == b@.len(),
            forall|j: int| 0 <= j < i ==> #[trigger] a@[j]@ == b@[j]@,
        decreases a@.len() - i,
    {
        if !a[i].same_as(&b[i]) {
            assert(views(a@)[i as int] != views(b@)[i as int]);
            return false;
        }
        i += 1;
    }
    assert(views(a@) =~= views(b@));
    true
}

/// Copies of `v` followed by copies of `w`.
pub fn concat_vectors(v: &Vec<RingPolynomial64>, w: &Vec<RingPolynomial64>) -> (r: Vec<RingPolynomial64>)
    ensures
        r@.len() == v@.len() + w@.len(),
        views(r@) == views(v@) + views(w@),
        forall|q: u64, n: nat| all_in_ring(v@, q, n) && all_in_ring(w@, q, n) ==> all_in_ring(r@, q, n),
{
    let mut a = copy_range(v, 0, v.len());
    let mut b = copy_range(w, 0, w.len());
    let ghost a0 = a@;
    let ghost b0 = b@;
    a.append(&mut b);
    assert(v@.subrange(0, v@.len() as int) =~= v@);
    assert(w@.subrange(0, w@.len() as int) =~= w@);
    assert(views(a@) =~= views(v@) + views(w@)) by {
        assert(views(a0) == views(v@));
        assert(views(b0) == views(w@));
        assert forall|k: int| 0 <= k < a@.len() implies views(a@)[k] == (views(v@) + views(w@))[k] by {
            if k < a0.len() {
                assert(views(a0)[k] == a0[k]@);
            } else {
                assert(views(b0)[k - a0.len()] == b0[k - a0.len()]@);
            }
        }
    }
    proof {
        assert forall|q: u64, n: nat| all_in_ring(v@, q, n) && all_in_ring(w@, q, n) implies all_in_ring(a@, q, n) by {
            assert(all_in_ring(a0, q, n));
            assert(all_in_ring(b0, q, n));
            assert forall|k: int| 0 <= k < a@.len() implies #[trigger] a@[k].in_ring(q, n) by {
                if k < a0.len() {
                    assert(a0[k].in_ring(q, n));
                } else {
                    assert(b0[k - a0.len()].in_ring(q, n));
                }
            }
        }
    }
    a
}

/// A two dimensional matrix of ring elements, stored row by row.
#[derive(Debug, PartialEq, Eq)]
pub struct Matrix2D {
    /// `(rows, cols)`
    pub dimensions: (usize, usize),
    pub values: Vec<RingPolynomial64>,
    /// The modulus `q` of the entries' coefficients.
    pub modulus: u64,
    /// The ring degree `N` of the entries.
    pub ring_degree: usize,
}

impl Matrix2D {
    /// The number of rows.
    pub open spec fn rows(&self) -> nat {
        self.dimensions.0 as nat
    }

    /// The number of columns.
    pub open spec fn cols(&self) -> nat {
        self.dimensions.1 as nat
    }

    /// The coefficient sequences of the entries, row by row.
    pub open spec fn entries(&self) -> Seq<Seq<u64>> {
        views(self.values@)
    }

    /// The entry in row `i`, column `j`.
    pub open spec fn entry(&self, i: int, j: int) -> Seq<u64> {
        self.values@[i * self.cols() + j]@
    }

    /// A matrix of the stated shape whose entries lie in its ring.
    pub open spec fn wf(&self) -> bool {
        &&& valid_modulus(self.modulus)
        &&& valid_ring_degree(self.ring_degree as nat)
        &&& self.dimensions.0 <= MAX_DIMENSION
        &&& self.dimensions.1 <= MAX_DIMENSION
        &&& self.values@.len() == self.rows() * self.cols()
        &&& self.values@.len() <= MAX_DIMENSION * MAX_DIMENSION
        &&& all_in_ring(self.values@, self.modulus, self.ring_degree as nat)
    }

    /// The `n x n` identity matrix.
    pub fn identity(size: usize, q: u64, n: usize) -> (r: Matrix2D)
        requires
            size <= MAX_DIMENSION,
            valid_modulus(q),
            valid_ring_degree(n as nat),
        ensures
            r.wf(),
            r.modulus == q,
            r.ring_degree == n,
            r.dimensions == (size, size),
            forall|i: int, j: int|
                0 <= i < size && 0 <= j < size ==> #[trigger] r.entry(i, j) == if i == j {
                    ring_one(n as nat)
                } else {
                    ring_zero(n as nat)
                },
    {
        let mut values: Vec<RingPolynomial64> = Vec::new();
        let mut i: usize = 0;
        while i < size
            invariant
                i <= size <= MAX_DIMENSION,
                valid_modulus(q),
                valid_ring_degree(n as nat),
                values@.len() == i * size,
                all_in_ring(values@, q, n as nat),
                forall|a: int, b: int|
                    0 <= a < i && 0 <= b < size ==> #[trigger] values@[a * size + b]@ == if a == b {
                        ring_one(n as nat)
                    } else {
                        ring_zero(n as nat)
                    },
            decreases size - i,
        {
            let mut j: usize = 0;
            while j < size
                invariant
                    i < size <= MAX_DIMENSION,
                    j <= size,
                    valid_modulus(q),
                    valid_ring_degree(n as nat),
                    values@.len() == i * size + j,
                    all_in_ring(values@, q, n as nat),
                    forall|a: int, b: int|
                        0 <= a < i && 0 <= b < size ==> #[trigger] values@[a * size + b]@ == if a == b {
                            ring_one(n as nat)
                        } else {
                            ring_zero(n as nat)
                        },
                    forall|b: int|
                        0 <= b < j ==> #[trigger] values@[i * size + b]@ == if i == b {
                            ring_one(n as nat)
                        } else {
                            ring_zero(n as nat)
                        },
                decreases size - j,
            {
                let e = if i == j { RingPolynomial64::one(q, n) } else { RingPolynomial64::zero(q, n) };
                let ghost before = values@;
                values.push(e);
                proof {
                    assert forall|a: int, b: int|
                        0 <= a < i && 0 <= b < size implies #[trigger] values@[a * size + b]@ == if a == b {
                            ring_one(n as nat)
                        } else {
                            ring_zero(n as nat)
                        } by {
                        lemma_row_major(a, b, i as int, size as int);
                        assert(values@[a * size + b] == before[a * size + b]);
                    }
                }
                j += 1;
            }
            proof {
                assert((i + 1) * size == i * size + size) by (nonlinear_arith);
                assert forall|a: int, b: int|
                    0 <= a < i + 1 && 0 <= b < size implies #[trigger] values@[a * size + b]@ == if a == b {
                        ring_one(n as nat)
                    } else {
                        ring_zero(n as nat)
                    } by {
                    if a == i {
                    }
                }
            }
            i += 1;
        }
        assert(size * size <= MAX_DIMENSION * MAX_DIMENSION) by (nonlinear_arith)
            requires
                size <= MAX_DIMENSION,
        ;
        Matrix2D { dimensions: (size, size), values, modulus: q, ring_degree: n }
    }

    /// The `rows x cols` zero matrix.
    pub fn zero(rows: usize, cols: usize, q: u64, n: usize) -> (r: Matrix2D)
        requires
            rows <= MAX_DIMENSION,
            cols <= MAX_DIMENSION,
            valid_modulus(q),
            valid_ring_degree(n as nat),
        ensures
            r.wf(),
            r.modulus == q,
            r.ring_degree == n,
            r.dimensions == (rows, cols),
            forall|i: int, j: int| 0 <= i < rows && 0 <= j < cols ==> #[trigger] r.entry(i, j) == ring_zero(n as nat),
    {
        assert(rows * cols <= MAX_DIMENSION * MAX_DIMENSION) by (nonlinear_arith)
            requires
                rows <= MAX_DIMENSION,
                cols <= MAX_DIMENSION,
        ;
        let values = zero_vector(rows * cols, q, n);
        let r = Matrix2D { dimensions: (rows, cols), values, modulus: q, ring_degree: n };
        assert forall|i: int, j: int| 0 <= i < rows && 0 <= j < cols implies #[trigger] r.entry(i, j) == ring_zero(n as nat) by {
            lemma_row_major(i, j, rows as int, cols as int);
            assert(views(r.values@)[i * cols + j] == ring_zero(n as nat));
        }
        r
    }

    /// The first `m1_height` rows and the remaining `m2_height` rows.
    pub fn split_vertical(&self, m1_height: usize, m2_height: usize) -> (r: (Matrix2D, Matrix2D))
        requires
            self.wf(),
            self.rows() == m1_height + m2_height,
        ensures
            r.0.wf(),
            r.1.wf(),
            r.0.modulus == self.modulus && r.0.ring_degree == self.ring_degree,
            r.1.modulus == self.modulus && r.1.ring_degree == self.ring_degree,
            r.0.dimensions == (m1_height, self.dimensions.1),
            r.1.dimensions == (m2_height, self.dimensions.1),
            r.0.entries() == views(self.values@.subrange(0, m1_height * self.cols())),
            forall|i: int, j: int| 0 <= i < m1_height && 0 <= j < self.cols() ==> #[trigger] r.0.entry(i, j) == self.entry(i, j),
            forall|i: int, j: int| 0 <= i < m2_height && 0 <= j < self.cols() ==> #[trigger] r.1.entry(i, j) == self.entry(m1_height + i, j),
    {
        let cols = self.dimensions.1;
        assert(m1_height * cols <= self.rows() * cols) by (nonlinear_arith)
            requires
                m1_height <= self.rows(),
        ;
        assert(self.rows() * cols == m1_height * cols + m2_height * cols) by (nonlinear_arith)
            requires
                self.rows() == m1_height + m2_height,
        ;
        let mid = m1_height * cols;
        let top = Matrix2D {
            dimensions: (m1_height, cols),
            values: copy_range(&self.values, 0, mid),
            modulus: self.modulus,
            ring_degree: self.ring_degree,
        };
        let bottom = Matrix2D {
            dimensions: (m2_height, cols),
            values: copy_range(&self.values, mid, self.values.len()),
            modulus: self.modulus,
            ring_degree: self.ring_degree,
        };
        assert forall|i: int, j: int| 0 <= i < m1_height && 0 <= j < self.cols() implies #[trigger] top.entry(i, j) == self.entry(i, j) by {
            lemma_row_major(i, j, m1_height as int, cols as int);
        }
        assert forall|i: int, j: int| 0 <= i < m2_height && 0 <= j < self.cols() implies #[trigger] bottom.entry(i, j) == self.entry(m1_height + i, j) by {
            lemma_row_major(i, j, m2_height as int, cols as int);
            assert((m1_height + i) * cols + j == mid + (i * cols + j)) by (nonlinear_arith)
                requires
                    mid == m1_height * cols,
            ;
        }
        (top, bottom)
    }

    /// The rows of `self` followed by the rows of `other`.
    pub fn compose_vertical(&self, other: &Matrix2D) -> (r: Matrix2D)
        requires
            self.wf(),
            other.wf(),
            other.modulus == self.modulus,
            other.ring_degree == self.ring_degree,
            self.cols() == other.cols(),
            self.rows() + other.rows() <= MAX_DIMENSION,
        ensures
            r.wf(),
            r.modulus == self.modulus,
            r.ring_degree == self.ring_degree,
            r.dimensions.0 == self.dimensions.0 + other.dimensions.0,
            r.dimensions.1 == self.dimensions.1,
            forall|i: int, j: int| 0 <= i < self.rows() && 0 <= j < self.cols() ==> #[trigger] r.entry(i, j) == self.entry(i, j),
            forall|i: int, j: int| 0 <= i < other.rows() && 0 <= j < self.cols() ==> #[trigger] r.entry(self.rows() + i, j) == other.entry(i, j),
    {
        let ghost q = self.modulus;
        let ghost n = self.ring_degree as nat;
        let r1 = self.dimensions.0;
        let cols = self.dimensions.1;
        let mut values = copy_range(&self.values, 0, self.values.len());
        let tail = copy_range(&other.values, 0, other.values.len());
        let ghost head = values@;
        let mut tail = tail;
        values.append(&mut tail);
        let r = Matrix2D {
            dimensions: (r1 + other.dimensions.0, cols),
            values,
            modulus: self.modulus,
            ring_degree: self.ring_degree,
        };
        assert(r.values@.len() == r.rows() * r.cols()) by (nonlinear_arith)
            requires
                r.values@.len() == self.rows() * self.cols() + other.rows() * self.cols(),
                r.rows() == self.rows() + other.rows(),
                r.cols() == self.cols(),
        ;
        assert(r.rows() * r.cols() <= MAX_DIMENSION * MAX_DIMENSION) by (nonlinear_arith)
            requires
                r.rows() <= MAX_DIMENSION,
                r.cols() <= MAX_DIMENSION,
        ;
        assert forall|k: int| 0 <= k < r.values@.len() implies #[trigger] r.values@[k].in_ring(q, n) by {
            if k < head.len() {
                assert(self.values@[k].in_ring(q, n));
                assert(r.values@[k]@ == self.values@[k]@);
            } else {
                assert(other.values@[k - head.len()].in_ring(q, n));
                assert(r.values@[k]@ == other.values@[k - head.len()]@);
            }
        }
        assert forall|i: int, j: int| 0 <= i < self.rows() && 0 <= j < self.cols() implies #[trigger] r.entry(i, j) == self.entry(i, j) by {
            lemma_row_major(i, j, self.rows() as int, cols as int);
        }
        assert forall|i: int, j: int| 0 <= i < other.rows() && 0 <= j < self.cols() implies #[trigger] r.entry(self.rows() + i, j) == other.entry(i, j) by {
            lemma_row_major(i, j, other.rows() as int, cols as int);
            assert((r1 + i) * cols + j == r1 * cols + (i * cols + j)) by (nonlinear_arith);
        }
        r
    }

    /// The columns of `self` followed by the columns of `other`.
    pub fn compose_horizontal(&self, other: &Matrix2D) -> (r: Matrix2D)
        requires
            self.wf(),
            other.wf(),
            other.modulus == self.modulus,
            other.ring_degree == self.ring_degree,
            self.rows() == other.rows(),
            self.cols() + other.cols() <= MAX_DIMENSION,
        ensures
            r.wf(),
            r.modulus == self.modulus,
            r.ring_degree == self.ring_degree,
            r.dimensions.0 == self.dimensions.0,
            r.dimensions.1 == self.dimensions.1 + other.dimensions.1,
            forall|i: int, j: int| 0 <= i < self.rows() && 0 <= j < self.cols() ==> #[trigger] r.entry(i, j) == self.entry(i, j),
            forall|i: int, j: int| 0 <= i < self.rows() && 0 <= j < other.cols() ==> #[trigger] r.entry(i, self.cols() + j) == other.entry(i, j),
    {
        let ghost q = self.modulus;
        let ghost n = self.ring_degree as nat;
        let rows = self.dimensions.0;
        let c1 = self.dimensions.1;
        let c2 = other.dimensions.1;
        let w = c1 + c2;
        let mut values: Vec<RingPolynomial64> = Vec::new();
        let mut i: usize = 0;
        while i < rows
            invariant
                i <= rows,
                rows == self.rows() == other.rows(),
                c1 == self.cols(),
                c2 == other.cols(),
                w == c1 + c2 <= MAX_DIMENSION,
                self.wf(),
                other.wf(),
                q == self.modulus == other.modulus,
                n == self.ring_degree as nat,
                self.ring_degree == other.ring_degree,
                values@.len() == i * w,
                all_in_ring(values@, q, n),
                forall|a: int, b: int| 0 <= a < i && 0 <= b < w ==> #[trigger] values@[a * w + b]@ == if b < c1 {
                    self.entry(a, b)
                } else {
                    other.entry(a, b - c1)
                },
            decreases rows - i,
        {
            let mut j: usize = 0;
            while j < w
                invariant
                    i < rows,
                    j <= w,
                    rows == self.rows() == other.rows(),
                    c1 == self.cols(),
                    c2 == other.cols(),
                    w == c1 + c2 <= MAX_DIMENSION,
                    self.wf(),
                    other.wf(),
                    q == self.modulus == other.modulus,
                    n == self.ring_degree as nat,
                    self.ring_degree == other.ring_degree,
                    values@.len() == i * w + j,
                    all_in_ring(values@, q, n),
                    forall|a: int, b: int| 0 <= a < i && 0 <= b < w ==> #[trigger] values@[a * w + b]@ == if b < c1 {
                        self.entry(a, b)
                    } else {
                        other.entry(a, b - c1)
                    },
                    forall|b: int| 0 <= b < j ==> #[trigger] values@[i * w + b]@ == if b < c1 {
                        self.entry(i as int, b)
                    } else {
                        other.entry(i as int, b - c1)
                    },
                decreases w - j,
            {
                let e = if j < c1 {
                    proof {
                        lemma_row_major(i as int, j as int, rows as int, c1 as int);
                    }
                    self.values[i * c1 + j].copy()
                } else {
                    proof {
                        lemma_row_major(i as int, (j - c1) as int, rows as int, c2 as int);
                    }
                    other.values[i * c2 + (j - c1)].copy()
                };
                proof {
                    if j < c1 {
                        assert(self.values@[i * c1 + j].in_ring(q, n));
                    } else {
                        assert(other.values@[i * c2 + (j - c1)].in_ring(q, n));
                    }
                }
                let ghost before = values@;
                values.push(e);
                proof {
                    assert forall|a: int, b: int| 0 <= a < i && 0 <= b < w implies #[trigger] values@[a * w + b]@ == if b < c1 {
                        self.entry(a, b)
                    } else {
                        other.entry(a, b - c1)
                    } by {
                        lemma_row_major(a, b, i as int, w as int);
                        assert(values@[a * w + b] == before[a * w + b]);
                    }
                    assert forall|k: int| 0 <= k < values@.len() implies #[trigger] values@[k].in_ring(q, n) by {
                        if k < before.len() {
                            assert(before[k].in_ring(q, n));
                        }
                    }
                }
                j += 1;
            }
            proof {
                assert((i + 1) * w == i * w + w) by (nonlinear_arith);
            }
            i += 1;
        }
        let r = Matrix2D { dimensions: (rows, w), values, modulus: self.modulus, ring_degree: self.ring_degree };
        assert(rows * w <= MAX_DIMENSION * MAX_DIMENSION) by (nonlinear_arith)
            requires
                rows <= MAX_DIMENSION,
                w <= MAX_DIMENSION,
        ;
        assert forall|i: int, j: int| 0 <= i < self.rows() && 0 <= j < self.cols() implies #[trigger] r.entry(i, j) == self.entry(i, j) by {
            assert(r.values@[i * w + j]@ == self.entry(i, j));
        }
        assert forall|i: int, j: int| 0 <= i < self.rows() && 0 <= j < other.cols() implies #[trigger] r.entry(i, self.cols() + j) == other.entry(i, j) by {
            assert(r.values@[i * w + (c1 + j)]@ == other.entry(i, c1 + j - c1));
        }
        r
    }

    /// The product of this matrix with a vector of length `cols`.
    pub fn mul_vec(&self, v: &Vec<RingPolynomial64>) -> (r: Vec<RingPolynomial64>)
        requires
            self.wf(),
            v@.len() == self.cols(),
            all_in_ring(v@, self.modulus, self.ring_degree as nat),
        ensures
            r@.len() == self.rows(),
            all_in_ring(r@, self.modulus, self.ring_degree as nat),
            views(r@) == mat_vec_spec(self.entries(), self.rows(), self.cols(), views(v@), self.modulus, self.ring_degree as nat),
    {
        let q = self.modulus;
        let n = self.ring_degree;
        let rows = self.dimensions.0;
        let cols = self.dimensions.1;
        let mut out: Vec<RingPolynomial64> = Vec::new();
        let mut i: usize = 0;
        while i < rows
            invariant
                i <= rows == self.rows(),
                cols == self.cols(),
                self.wf(),
                q == self.modulus,
                n == self.ring_degree,
                valid_modulus(q),
                valid_ring_degree(n as nat),
                v@.len() == cols,
                all_in_ring(v@, q, n as nat),
                out@.len() == i,
                all_in_ring(out@, q, n as nat),
                forall|t: int| 0 <= t < i ==> #[trigger] out@[t]@ == dot_prefix(self.entries(), cols as nat, t, views(v@), q, n as nat, cols as int),
            decreases rows - i,
        {
            let mut acc = RingPolynomial64::zero(q, n);
            let mut j: usize = 0;
            while j < cols
                invariant
                    i < rows == self.rows(),
                    j <= cols == self.cols(),
                    self.wf(),
                q == self.modulus,
                n == self.ring_degree,
                    v@.len() == cols,
                    all_in_ring(v@, q, n as nat),
                    acc.in_ring(q, n as nat),
                    acc@ == dot_prefix(self.entries(), cols as nat, i as int, views(v@), q, n as nat, j as int),
                decreases cols - j,
            {
                proof {
                    lemma_row_major(i as int, j as int, rows as int, cols as int);
                    assert(self.values@[i * cols + j].in_ring(q, n as nat));
                    assert(v@[j as int].in_ring(q, n as nat));
                }
                let prod = self.values[i * cols + j].mul(&v[j]);
                acc = acc.add(&prod);
                j += 1;
            }
            out.push(acc);
            i += 1;
        }
        assert(views(out@) =~= mat_vec_spec(self.entries(), self.rows(), self.cols(), views(v@), q, n as nat));
        out
    }

    /// Whether this is a well-formed `rows x cols` matrix over the ring with
    /// modulus `q` and degree `n`.
    pub fn has_shape(&self, rows: usize, cols: usize, q: u64, n: usize) -> (r: bool)
        requires
            valid_modulus(q),
            valid_ring_degree(n as nat),
        ensures
            r == (self.wf() && self.dimensions == (rows, cols) && self.modulus == q && self.ring_degree == n),
    {
        if self.dimensions.0 != rows || self.dimensions.1 != cols || self.modulus != q || self.ring_degree != n {
            return false;
        }
        if rows > MAX_DIMENSION || cols > MAX_DIMENSION {
            return false;
        }
        assert(rows * cols <= MAX_DIMENSION * MAX_DIMENSION) by (nonlinear_arith)
            requires
                rows <= MAX_DIMENSION,
                cols <= MAX_DIMENSION,
        ;
        if self.values.len() != rows * cols {
            return false;
        }
        all_members(&self.values, q, n)
    }
}

} // verus!
