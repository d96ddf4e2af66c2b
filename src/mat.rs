use vstd::prelude::*;

use crate::dmat::{dot_step, DMat};
use crate::scalar::Scalar;

verus! {

/// A matrix with `R` rows and `C` columns, its shape fixed by its type.
#[derive(Clone, Debug)]
pub struct Mat<T, const R: usize, const C: usize> {
    cells: DMat<T>,
}

impl<T: Copy, const R: usize, const C: usize> Mat<T, R, C> {
    /// The same cells as a matrix whose shape is a run-time value.
    pub closed spec fn dyn_view(&self) -> DMat<T> {
        self.cells
    }

    /// The buffer is well formed and has `R` rows and `C` columns.
    pub open spec fn wf(&self) -> bool {
        &&& self.dyn_view().wf()
        &&& self.dyn_view().nrows() == R
        &&& self.dyn_view().ncols() == C
    }

    /// The cell in row `r` and column `c`.
    pub open spec fn at(&self, r: int, c: int) -> T {
        self.dyn_view().at(r, c)
    }

    /// The same cells as a matrix whose shape is a run-time value.
    pub fn as_dmat(&self) -> (d: &DMat<T>)
        ensures
            d == self.dyn_view(),
    {
        &self.cells
    }

    /// The fixed-shape matrix holding the cells of `d`, which must have `R`
    /// rows and `C` columns.
    pub fn from_dmat(d: DMat<T>) -> (m: Option<Self>)
        requires
            d.wf(),
        ensures
            m is Some <==> d.nrows() == R && d.ncols() == C,
            m matches Some(m) ==> m.wf() && m.dyn_view() == d,
    {
        if d.rows() == R && d.cols() == C {
            Some(Mat { cells: d })
        } else {
            None
        }
    }

    /// The cell in row `r` and column `c`.
    pub fn get(&self, r: usize, c: usize) -> (v: T)
        requires
            self.wf(),
            r < R,
            c < C,
        ensures
            v == self.at(r as int, c as int),
    {
        self.cells.get(r, c)
    }

    /// The matrix with every cell equal to `fill`, the zero of the caller's
    /// arithmetic.
    pub fn zero(fill: T) -> (m: Self)
        requires
            R * C <= usize::MAX,
        ensures
            m.wf(),
            forall|r: int, c: int| 0 <= r < R && 0 <= c < C ==> #[trigger] m.at(r, c) == fill,
    {
        Mat { cells: DMat::zero(R, C, fill) }
    }

    /// The matrix whose cell in row `r` and column `c` is `f(r, c)`.
    pub fn generate<F: Fn(usize, usize) -> T>(f: F) -> (m: Self)
        requires
            R * C <= usize::MAX,
            forall|r: usize, c: usize| r < R && c < C ==> #[trigger] f.requires((r, c)),
        ensures
            m.wf(),
            forall|r: int, c: int| 0 <= r < R && 0 <= c < C ==> f.ensures((r as usize, c as usize), #[trigger] m.at(r, c)),
    {
        Mat { cells: DMat::generate(R, C, f) }
    }

    /// The matrix of `f` applied to every cell.
    pub fn map<F: Fn(T) -> T>(&self, f: F) -> (m: Self)
        requires
            self.wf(),
            forall|x: T| #[trigger] f.requires((x,)),
        ensures
            m.wf(),
            forall|r: int, c: int| 0 <= r < R && 0 <= c < C ==> f.ensures((self.at(r, c),), #[trigger] m.at(r, c)),
    {
        Mat { cells: self.cells.map(f) }
    }

    /// Combines `self` and `rhs` cell by cell through `op`.
    pub fn zip_with<F: Fn(T, T) -> T>(&self, rhs: &Self, op: F) -> (m: Self)
        requires
            self.wf(),
            rhs.wf(),
            forall|x: T, y: T| #[trigger] op.requires((x, y)),
        ensures
            DMat::combined(&self.dyn_view(), &rhs.dyn_view(), &op, &m.dyn_view()),
            m.wf(),
    {
        match self.cells.zip_with(&rhs.cells, op) {
            Ok(cells) => Mat { cells },
            // The shapes agree by type, so this arm is never taken.
            Err(_) => Mat { cells: self.cells.duplicate() },
        }
    }

    /// The matrix with rows and columns exchanged.
    pub fn transpose(&self) -> (t: Mat<T, C, R>)
        requires
            self.wf(),
        ensures
            t.wf(),
            DMat::transposed(&self.dyn_view(), &t.dyn_view()),
    {
        Mat { cells: self.cells.transpose() }
    }

    /// The cells of row `r`, left to right.
    pub fn row(&self, r: usize) -> (v: Vec<T>)
        requires
            self.wf(),
            r < R,
        ensures
            v@ == self.dyn_view().row_seq(r as int),
    {
        self.cells.row(r)
    }

    /// The cells of column `c`, top to bottom.
    pub fn col(&self, c: usize) -> (v: Vec<T>)
        requires
            self.wf(),
            c < C,
        ensures
            v@ == self.dyn_view().col_seq(c as int),
    {
        self.cells.col(c)
    }

    /// The product of `self` and `rhs`, whose cell in row `r` and column `c`
    /// folds `step` from `zero` over row `r` of `self` and column `c` of `rhs`.
    pub fn mul_with<G: Fn(T, T, T) -> T, const C2: usize>(&self, rhs: &Mat<T, C, C2>, zero: T, step: G) -> (m: Mat<T, R, C2>)
        requires
            self.wf(),
            rhs.wf(),
            R * C2 <= usize::MAX,
            forall|x: T, y: T, z: T| #[trigger] step.requires((x, y, z)),
        ensures
            m.wf(),
            DMat::product(&self.dyn_view(), &rhs.dyn_view(), zero, &step, &m.dyn_view()),
    {
        match self.cells.mul_with(&rhs.cells, zero, step) {
            Ok(cells) => Mat { cells },
            // The inner dimensions agree by type, so this arm is never taken.
            Err(_) => Mat { cells: DMat::zero(R, C2, zero) },
        }
    }
}

impl<T: Copy, const N: usize> Mat<T, N, N> {
    /// The matrix with `one` on the diagonal and `zero` elsewhere.
    pub fn identity(zero: T, one: T) -> (m: Self)
        requires
            N * N <= usize::MAX,
        ensures
            m.wf(),
            forall|r: int, c: int| 0 <= r < N && 0 <= c < N ==> #[trigger] m.at(r, c) == if r == c { one } else { zero },
    {
        Mat { cells: DMat::identity(N, zero, one) }
    }

    /// Whether `is_zero` holds of every cell off the diagonal.
    pub fn is_diagonal<F: Fn(T) -> bool>(&self, is_zero: F) -> (b: bool)
        requires
            self.wf(),
            forall|x: T| #[trigger] is_zero.requires((x,)),
        ensures
            b ==> forall|r: int, c: int| 0 <= r < N && 0 <= c < N && r != c ==> #[trigger] is_zero.ensures((self.at(r, c),), true),
            !b ==> exists|r: int, c: int| 0 <= r < N && 0 <= c < N && r != c && #[trigger] is_zero.ensures((self.at(r, c),), false),
    {
        let b = self.cells.is_diagonal(is_zero);
        proof {
            if !b {
                let (r, c) = choose|r: int, c: int| 0 <= r < N && 0 <= c < N && r != c && #[trigger] is_zero.ensures((self.cells.at(r, c),), false);
                assert(is_zero.ensures((self.at(r, c),), false));
            }
        }
        b
    }

    /// Whether `eq` holds of the cells in row `r`, column `c` and in row `c`,
    /// column `r`, for every `r` and `c`: whether the matrix equals its transpose.
    pub fn is_symmetric<F: Fn(T, T) -> bool>(&self, eq: F) -> (b: bool)
        requires
            self.wf(),
            forall|x: T, y: T| #[trigger] eq.requires((x, y)),
        ensures
            b ==> forall|r: int, c: int| 0 <= r < N && 0 <= c < N ==> #[trigger] eq.ensures((self.at(r, c), self.at(c, r)), true),
            !b ==> exists|r: int, c: int| 0 <= r < N && 0 <= c < N && #[trigger] eq.ensures((self.at(r, c), self.at(c, r)), false),
    {
        let b = self.cells.is_symmetric(eq);
        proof {
            if !b {
                let (r, c) = choose|r: int, c: int| 0 <= r < N && 0 <= c < N && #[trigger] eq.ensures((self.cells.at(r, c), self.cells.at(c, r)), false);
                assert(eq.ensures((self.at(r, c), self.at(c, r)), false));
            }
        }
        b
    }
}

/// `p` is the row that scanning rows `k + 1 .. i` of column `k` settles on:
/// the scan starts at row `k`, and a row takes the place of the one held when
/// `abs_gt` reports its cell larger.
pub open spec fn scan_settles<T: Scalar>(a: DMat<T>, k: int, i: int, p: int) -> bool
    decreases i - k,
{
    if i <= k + 1 {
        p == k
    } else {
        exists|q: int, larger: bool| {
            &&& scan_settles(a, k, i - 1, q)
            &&& #[trigger] call_ensures(T::abs_gt, (&a.at(i - 1, k), &a.at(q, k)), larger)
            &&& p == if larger { i - 1 } else { q }
        }
    }
}

/// Row in `k..n` whose cell in column `k` has the largest magnitude, the
/// first such row where several share it.
fn pivot_row<T: Scalar>(a: &DMat<T>, k: usize) -> (p: usize)
    requires
        a.wf(),
        a.is_square(),
        k < a.nrows(),
    ensures
        k <= p < a.nrows(),
        forall|i: int| p < i < a.nrows() ==> #[trigger] call_ensures(T::abs_gt, (&a.at(i, k as int), &a.at(p as int, k as int)), false),
        p > k ==> exists|q: int| k <= q < p && #[trigger] call_ensures(T::abs_gt, (&a.at(p as int, k as int), &a.at(q, k as int)), true),
        scan_settles(*a, k as int, a.nrows() as int, p as int),
{
    let n = a.rows();
    let mut p = k;
    let mut i = k + 1;
    while i < n
        invariant
            a.wf(),
            a.is_square(),
            n == a.nrows(),
            k <= p < i <= n,
            forall|j: int| p < j < i ==> #[trigger] call_ensures(T::abs_gt, (&a.at(j, k as int), &a.at(p as int, k as int)), false),
            p > k ==> exists|q: int| k <= q < p && #[trigger] call_ensures(T::abs_gt, (&a.at(p as int, k as int), &a.at(q, k as int)), true),
            p < i,
            scan_settles(*a, k as int, i as int, p as int),
        decreases n - i,
    {
        let ghost q = p;
        let better = a.get(i, k).abs_gt(&a.get(p, k));
        if better {
            p = i;
        }
        proof {
            let next = i + 1;
            assert(next - 1 == i);
            assert(call_ensures(T::abs_gt, (&a.at(next - 1, k as int), &a.at(q as int, k as int)), better));
            assert(scan_settles(*a, k as int, next - 1, q as int));
            assert(scan_settles(*a, k as int, next as int, p as int));
        }
        i = i + 1;
    }
    p
}

/// Every cell below the diagonal in the columns before `k` is a value that
/// the arithmetic's `zero` returns.
pub open spec fn zero_below_diagonal<T: Scalar>(a: DMat<T>, k: int) -> bool {
    forall|r: int, c: int| 0 <= c < k && c < r < a.nrows() ==> call_ensures(T::zero, (), #[trigger] a.at(r, c))
}

/// `w` is `a` with rows `k` and `p` exchanged.
pub open spec fn rows_exchanged<T: Copy>(a: DMat<T>, k: int, p: int, w: DMat<T>) -> bool {
    &&& w.wf()
    &&& w.nrows() == a.nrows()
    &&& w.ncols() == a.ncols()
    &&& forall|r: int, c: int| 0 <= r < w.nrows() && 0 <= c < w.ncols() ==>
        #[trigger] w.at(r, c) == a.at(if r == k { p } else if r == p { k } else { r }, c)
}

/// `c` is the multiplier that clears row `r` in column `k`: `-w[r][k] / w[k][k]`.
pub open spec fn clearing_multiplier<T: Scalar>(w: DMat<T>, k: int, r: int, c: T) -> bool {
    exists|ng: T| #[trigger] call_ensures(T::negated, (&w.at(r, k),), ng) && call_ensures(T::over, (&ng, &w.at(k, k)), c)
}

/// `v` is `w[r][j] + w[k][j] * c`.
pub open spec fn row_update<T: Scalar>(w: DMat<T>, k: int, r: int, j: int, c: T, v: T) -> bool {
    exists|t: T| #[trigger] call_ensures(T::times, (&w.at(k, j), &c), t) && call_ensures(T::plus, (&w.at(r, j), &t), v)
}

/// Right of column `k`, row `r` of `b` is row `r` of `w` plus the multiple of
/// row `k` that clears its cell in column `k`.
pub open spec fn row_cleared<T: Scalar>(w: DMat<T>, k: int, r: int, b: DMat<T>) -> bool {
    exists|c: T| #[trigger] clearing_multiplier(w, k, r, c) && forall|j: int| k < j < w.ncols() ==> #[trigger] row_update(w, k, r, j, c, b.at(r, j))
}

/// `b` is `w` with every row below `k` cleared: its cell in column `k` set to
/// the arithmetic's zero, the cells right of it updated, the rest kept.
pub open spec fn cleared_below<T: Scalar>(w: DMat<T>, k: int, b: DMat<T>) -> bool {
    &&& b.wf()
    &&& b.nrows() == w.nrows()
    &&& b.ncols() == w.ncols()
    &&& forall|r: int, c: int| 0 <= r < w.nrows() && 0 <= c < w.ncols() && (r <= k || c < k) ==> #[trigger] b.at(r, c) == w.at(r, c)
    &&& forall|r: int| k < r < w.nrows() ==> call_ensures(T::zero, (), #[trigger] b.at(r, k))
    &&& forall|r: int| k < r < w.nrows() ==> #[trigger] row_cleared(w, k, r, b)
}

/// One column of elimination: the pivot row is chosen in column `k` and is
/// nonzero, it is exchanged into row `k` (the sign `s` negated when it moves),
/// and the rows below are cleared; `a` becomes `b` and `s` becomes `s2`.
pub open spec fn elimination_step<T: Scalar>(a: DMat<T>, k: int, s: T, b: DMat<T>, s2: T) -> bool {
    exists|p: int, w: DMat<T>| {
        &&& k <= p < a.nrows()
        &&& scan_settles(a, k, a.nrows() as int, p)
        &&& call_ensures(T::is_zero, (&a.at(p, k),), false)
        &&& #[trigger] rows_exchanged(a, k, p, w)
        &&& if p == k { s2 == s } else { call_ensures(T::negated, (&s,), s2) }
        &&& cleared_below(w, k, b)
    }
}

/// Column `k` has no usable pivot: the chosen row's cell tests zero.
pub open spec fn stalls<T: Scalar>(a: DMat<T>, k: int) -> bool {
    exists|p: int| k <= p < a.nrows() && scan_settles(a, k, a.nrows() as int, p) && #[trigger] call_ensures(T::is_zero, (&a.at(p, k),), true)
}

/// After `k` columns of elimination, `a0` has become `a` and the sign, which
/// starts at the arithmetic's one, is `s`.
pub open spec fn eliminated<T: Scalar>(a0: DMat<T>, k: nat, a: DMat<T>, s: T) -> bool
    decreases k,
{
    if k == 0 {
        a.wf() && a.same(&a0) && call_ensures(T::one, (), s)
    } else {
        exists|prev: DMat<T>, ps: T| eliminated(a0, (k - 1) as nat, prev, ps) && #[trigger] elimination_step(prev, k - 1, ps, a, s)
    }
}

/// `row_cleared` reads only row `r` of `b` right of column `k`.
proof fn lemma_row_cleared_transfer<T: Scalar>(w: DMat<T>, k: int, r: int, b1: DMat<T>, b2: DMat<T>)
    requires
        row_cleared(w, k, r, b1),
        forall|j: int| k < j < w.ncols() ==> #[trigger] b2.at(r, j) == b1.at(r, j),
    ensures
        row_cleared(w, k, r, b2),
{
    let c = choose|c: T| #[trigger] clearing_multiplier(w, k, r, c) && forall|j: int| k < j < w.ncols() ==> #[trigger] row_update(w, k, r, j, c, b1.at(r, j));
    assert forall|j: int| k < j < w.ncols() implies #[trigger] row_update(w, k, r, j, c, b2.at(r, j)) by {
        assert(row_update(w, k, r, j, c, b1.at(r, j)));
    }
}

/// The trace of elimination depends on the starting matrix only through its
/// shape and cells.
proof fn lemma_eliminated_same_start<T: Scalar>(a0: DMat<T>, b0: DMat<T>, k: nat, a: DMat<T>, s: T)
    requires
        eliminated(a0, k, a, s),
        a0.same(&b0),
    ensures
        eliminated(b0, k, a, s),
    decreases k,
{
    if k > 0 {
        let (prev, ps) = choose|prev: DMat<T>, ps: T| eliminated(a0, (k - 1) as nat, prev, ps) && #[trigger] elimination_step(prev, k - 1, ps, a, s);
        lemma_eliminated_same_start(a0, b0, (k - 1) as nat, prev, ps);
    }
}

/// `prod` is the product of the first `m` diagonal cells of `a`, taken left to
/// right from the arithmetic's one.
pub open spec fn diagonal_product<T: Scalar>(a: DMat<T>, m: nat, prod: T) -> bool
    decreases m,
{
    if m == 0 {
        call_ensures(T::one, (), prod)
    } else {
        exists|q: T| diagonal_product(a, (m - 1) as nat, q) && #[trigger] call_ensures(T::times, (&q, &a.at(m - 1, m - 1)), prod)
    }
}

/// `d` is the determinant of the square matrix `a0` by elimination: zero
/// where some column stalls, else the product of the diagonal after
/// elimination divided by the sign of the row exchanges.
pub open spec fn determinant_of<T: Scalar>(a0: DMat<T>, d: T) -> bool {
    exists|k: nat, a: DMat<T>, s: T| {
        &&& k <= a0.nrows()
        &&& #[trigger] eliminated(a0, k, a, s)
        &&& k < a0.nrows() ==> stalls(a, k as int) && call_ensures(T::zero, (), d)
        &&& k == a0.nrows() ==> exists|prod: T| diagonal_product(a, a0.nrows(), prod) && #[trigger] call_ensures(T::over, (&prod, &s), d)
    }
}

/// Gaussian elimination with partial pivoting on a square matrix: below each
/// pivot the cells are driven to zero. Gives the product of the signs of the
/// row exchanges made, or `None` where some column has no nonzero pivot.
fn eliminate<T: Scalar>(a: &mut DMat<T>) -> (sign: Option<T>)
    requires
        old(a).wf(),
        old(a).is_square(),
    ensures
        final(a).wf(),
        final(a).nrows() == old(a).nrows(),
        final(a).ncols() == old(a).ncols(),
        sign matches Some(s) ==> eliminated(*old(a), final(a).nrows(), *final(a), s),
        sign matches Some(s) ==> zero_below_diagonal(*final(a), final(a).nrows() as int),
        sign is None ==> exists|k: nat, s: T| {
            &&& k < final(a).nrows()
            &&& #[trigger] eliminated(*old(a), k, *final(a), s)
            &&& stalls(*final(a), k as int)
        },
{
    let n = a.rows();
    let mut sign = T::one();
    let ghost a0 = *a;
    proof {
        assert(a.cells() =~= a0.cells());
    }
    let mut k: usize = 0;
    while k < n
        invariant
            a.wf(),
            a.is_square(),
            n == a.nrows(),
            a0 == *old(a),
            a.nrows() == old(a).nrows(),
            a.ncols() == old(a).ncols(),
            k <= n,
            zero_below_diagonal(*a, k as int),
            eliminated(a0, k as nat, *a, sign),
        decreases n - k,
    {
        let ghost a_start = *a;
        let ghost s_start = sign;
        let p = pivot_row(a, k);
        if a.get(p, k).is_zero() {
            proof {
                assert(stalls(*a, k as int));
                assert(eliminated(a0, k as nat, *a, sign));
            }
            return None;
        }
        if p != k {
            let ghost before = *a;
            a.swap_rows(k, p);
            sign = sign.negated();
            assert forall|r: int, c: int| 0 <= c < k && c < r < a.nrows() implies call_ensures(T::zero, (), #[trigger] a.at(r, c)) by {
                let src = if r == k { p as int } else if r == p { k as int } else { r };
                assert(a.at(r, c) == before.at(src, c));
            }
        }
        let ghost w = *a;
        proof {
            assert(rows_exchanged(a_start, k as int, p as int, w));
        }
        let mut i = k + 1;
        while i < n
            invariant
                a.wf(),
                a.is_square(),
                n == a.nrows(),
                a.nrows() == old(a).nrows(),
                a.ncols() == old(a).ncols(),
                k < n,
                k < i,
                w.wf(),
                w.nrows() == n,
                w.ncols() == n,
                zero_below_diagonal(*a, k as int),
                forall|r: int| k < r < i ==> call_ensures(T::zero, (), #[trigger] a.at(r, k as int)),
                forall|r: int, c: int| 0 <= r < n && 0 <= c < n && (r <= k || r >= i || c < k) ==> #[trigger] a.at(r, c) == w.at(r, c),
                forall|r: int| k < r < i ==> #[trigger] row_cleared(w, k as int, r, *a),
            decreases n - i,
        {
            let x = a.get(i, k);
            let y = a.get(k, k);
            let ng = x.negated();
            let c = ng.over(&y);
            proof {
                assert(clearing_multiplier(w, k as int, i as int, c));
            }
            let ghost row_start = *a;
            let mut j = k + 1;
            while j < n
                invariant
                    a.wf(),
                    a.is_square(),
                    n == a.nrows(),
                    a.nrows() == old(a).nrows(),
                    a.ncols() == old(a).ncols(),
                    k < n,
                    k < i < n,
                    k < j,
                    w.wf(),
                    w.nrows() == n,
                    w.ncols() == n,
                    row_start.wf(),
                    row_start.nrows() == n,
                    row_start.ncols() == n,
                    forall|r: int, cc: int| 0 <= r < n && 0 <= cc < n && r != i ==> #[trigger] a.at(r, cc) == row_start.at(r, cc),
                    forall|cc: int| 0 <= cc < n && (cc <= k || cc >= j) ==> #[trigger] a.at(i as int, cc) == row_start.at(i as int, cc),
                    forall|cc: int| 0 <= cc < n ==> #[trigger] row_start.at(i as int, cc) == w.at(i as int, cc),
                    forall|cc: int| 0 <= cc < n ==> #[trigger] row_start.at(k as int, cc) == w.at(k as int, cc),
                    forall|jj: int| k < jj < j && jj < n ==> #[trigger] row_update(w, k as int, i as int, jj, c, a.at(i as int, jj)),
                decreases n - j,
            {
                let u = a.get(i, j);
                let t = a.get(k, j).times(&c);
                let v = u.plus(&t);
                proof {
                    assert(row_update(w, k as int, i as int, j as int, c, v));
                }
                a.set(i, j, v);
                j = j + 1;
            }
            let z = T::zero();
            a.set(i, k, z);
            proof {
                assert forall|jj: int| k < jj < n implies #[trigger] row_update(w, k as int, i as int, jj, c, a.at(i as int, jj)) by {
                }
                assert(row_cleared(w, k as int, i as int, *a));
                assert forall|r: int| k < r < i + 1 implies #[trigger] row_cleared(w, k as int, r, *a) by {
                    if r < i {
                        lemma_row_cleared_transfer(w, k as int, r, row_start, *a);
                    }
                }
            }
            i = i + 1;
        }
        proof {
            assert(cleared_below(w, k as int, *a));
            assert(elimination_step(a_start, k as int, s_start, *a, sign));
            let next = (k + 1) as nat;
            assert((next - 1) as nat == k as nat);
            assert(eliminated(a0, next, *a, sign));
        }
        assert forall|r: int, c: int| 0 <= c < k + 1 && c < r < a.nrows() implies call_ensures(T::zero, (), #[trigger] a.at(r, c)) by {
            if c == k {
                assert(call_ensures(T::zero, (), a.at(r, k as int)));
            }
        }
        k = k + 1;
    }
    Some(sign)
}

impl<T: Scalar, const N: usize> Mat<T, N, N> {
    /// Whether the matrix times its transpose is exactly the identity.
    pub fn is_orthogonal(&self) -> (b: bool)
        requires
            self.wf(),
        ensures
            DMat::reads_as_orthogonal(&self.dyn_view(), b),
    {
        self.cells.is_orthogonal()
    }

    /// Whether the matrix is exactly the identity scaled by its first cell.
    pub fn is_scalar_identity_multiple(&self) -> (b: bool)
        requires
            self.wf(),
            N > 0,
        ensures
            DMat::reads_as_scalar_identity_multiple(&self.dyn_view(), b),
    {
        self.cells.is_scalar_identity_multiple()
    }

    /// The determinant, by Gaussian elimination with partial pivoting: the
    /// product of the pivots divided by the sign of the row exchanges, or zero
    /// where a column has no nonzero pivot.
    pub fn determinant(&self) -> (d: T)
        requires
            self.wf(),
        ensures
            determinant_of(self.dyn_view(), d),
    {
        let mut a = self.cells.duplicate();
        let ghost start = a;
        match eliminate(&mut a) {
            None => {
                let d = T::zero();
                proof {
                    let (k, s) = choose|k: nat, s: T| k < a.nrows() && #[trigger] eliminated(start, k, a, s) && stalls(a, k as int);
                    lemma_eliminated_same_start(start, self.cells, k, a, s);
                }
                d
            },
            Some(sign) => {
                let mut product = T::one();
                let mut k: usize = 0;
                while k < N
                    invariant
                        a.wf(),
                        a.nrows() == N,
                        a.ncols() == N,
                        k <= N,
                        diagonal_product(a, k as nat, product),
                    decreases N - k,
                {
                    let ghost q = product;
                    product = product.times(&a.get(k, k));
                    proof {
                        let m = (k + 1) as nat;
                        assert((m - 1) as nat == k as nat);
                        assert(call_ensures(T::times, (&q, &a.at(m - 1, m - 1)), product));
                    }
                    k = k + 1;
                }
                let d = product.over(&sign);
                proof {
                    lemma_eliminated_same_start(start, self.cells, N as nat, a, sign);
                    assert(call_ensures(T::over, (&product, &sign), d));
                }
                d
            },
        }
    }

    /// The matrix after Gaussian elimination with partial pivoting, with zeros
    /// below the diagonal; pivots are not scaled to one and nothing above them
    /// is eliminated. `None` where a column has no nonzero pivot.
    pub fn reduced_row_echelon_form(&self) -> (r: Option<Self>)
        requires
            self.wf(),
        ensures
            r matches Some(m) ==> m.wf() && zero_below_diagonal(m.dyn_view(), N as int),
            r matches Some(m) ==> exists|k: nat, s: T| k == N && #[trigger] eliminated(self.dyn_view(), k, m.dyn_view(), s),
            r is None ==> exists|k: nat, a: DMat<T>, s: T| k < N && #[trigger] eliminated(self.dyn_view(), k, a, s) && stalls(a, k as int),
    {
        let mut a = self.cells.duplicate();
        let ghost start = a;
        match eliminate(&mut a) {
            None => {
                proof {
                    let (k, s) = choose|k: nat, s: T| k < a.nrows() && #[trigger] eliminated(start, k, a, s) && stalls(a, k as int);
                    lemma_eliminated_same_start(start, self.cells, k, a, s);
                }
                None
            },
            Some(sign) => {
                proof {
                    lemma_eliminated_same_start(start, self.cells, N as nat, a, sign);
                }
                let m = Mat { cells: a };
                assert(eliminated(self.dyn_view(), N as nat, m.dyn_view(), sign));
                let r = Some(m);
                assert(r matches Some(m) && eliminated(self.dyn_view(), N as nat, m.dyn_view(), sign));
                r
            },
        }
    }
}

/// The cell in row `r` and column `col` of `left` followed on the right by `right`.
pub open spec fn aug_at<T: Copy>(left: DMat<T>, right: DMat<T>, r: int, col: int) -> T {
    if col < left.ncols() { left.at(r, col) } else { right.at(r, col - left.ncols()) }
}

/// The cell in row `r` and column `col` of the matrix `left` followed on the
/// right by `right`, both `n` by `n`.
fn aug_get<T: Copy>(left: &DMat<T>, right: &DMat<T>, r: usize, col: usize) -> (v: T)
    requires
        left.wf(),
        right.wf(),
        left.is_square(),
        right.nrows() == left.nrows(),
        right.ncols() == left.ncols(),
        r < left.nrows(),
        col < 2 * left.ncols(),
    ensures
        v == aug_at(*left, *right, r as int, col as int),
{
    let n = left.cols();
    if col < n {
        left.get(r, col)
    } else {
        right.get(r, col - n)
    }
}

/// Replaces the cell in row `r` and column `col` of `left` followed on the
/// right by `right`.
fn aug_set<T: Copy>(left: &mut DMat<T>, right: &mut DMat<T>, r: usize, col: usize, v: T)
    requires
        old(left).wf(),
        old(right).wf(),
        old(left).is_square(),
        old(right).nrows() == old(left).nrows(),
        old(right).ncols() == old(left).ncols(),
        r < old(left).nrows(),
        col < 2 * old(left).ncols(),
    ensures
        final(left).wf(),
        final(right).wf(),
        final(left).nrows() == old(left).nrows(),
        final(left).ncols() == old(left).ncols(),
        final(right).nrows() == old(right).nrows(),
        final(right).ncols() == old(right).ncols(),
        forall|q: int, c: int| 0 <= q < old(left).nrows() && 0 <= c < 2 * old(left).ncols() ==>
            #[trigger] aug_at(*final(left), *final(right), q, c) == if q == r && c == col { v } else { aug_at(*old(left), *old(right), q, c) },
{
    let n = left.cols();
    if col < n {
        left.set(r, col, v);
    } else {
        right.set(r, col - n, v);
    }
}

/// The search for a pivot in `left | right` from row `row` and column `pivot`
/// ends at row `i` of column `col`: the first column with a cell in rows
/// `row..n` that does not test zero, and the first such row.
pub open spec fn pivot_found<T: Scalar>(left: DMat<T>, right: DMat<T>, row: int, pivot: int, i: int, col: int) -> bool {
    &&& row <= i < left.nrows()
    &&& pivot <= col < 2 * left.ncols()
    &&& call_ensures(T::is_zero, (&aug_at(left, right, i, col),), false)
    &&& forall|r: int| row <= r < i ==> #[trigger] call_ensures(T::is_zero, (&aug_at(left, right, r, col),), true)
    &&& forall|r: int, c: int| row <= r < left.nrows() && pivot <= c < col ==>
        #[trigger] call_ensures(T::is_zero, (&aug_at(left, right, r, c),), true)
}

/// Every cell of `left | right` in rows `row..n` from column `pivot` on tests zero.
pub open spec fn no_pivot_left<T: Scalar>(left: DMat<T>, right: DMat<T>, row: int, pivot: int) -> bool {
    forall|r: int, c: int| row <= r < left.nrows() && pivot <= c < 2 * left.ncols() ==>
        #[trigger] call_ensures(T::is_zero, (&aug_at(left, right, r, c),), true)
}

/// `l2 | r2` and `l | r` are two square systems of one size.
pub open spec fn same_system<T: Copy>(l: DMat<T>, r: DMat<T>, l2: DMat<T>, r2: DMat<T>) -> bool {
    &&& l.wf() && r.wf() && l2.wf() && r2.wf()
    &&& l.is_square()
    &&& r.nrows() == l.nrows() && r.ncols() == l.ncols()
    &&& l2.nrows() == l.nrows() && l2.ncols() == l.ncols()
    &&& r2.nrows() == l.nrows() && r2.ncols() == l.ncols()
}

/// Row `row` of `l2 | r2` is row `row` of `l | r` divided by `d` where `d`
/// does not test zero, and kept where it does; the other rows are kept.
pub open spec fn row_scaled<T: Scalar>(l: DMat<T>, r: DMat<T>, row: int, d: T, l2: DMat<T>, r2: DMat<T>) -> bool {
    &&& same_system(l, r, l2, r2)
    &&& forall|q: int, c: int| 0 <= q < l.nrows() && 0 <= c < 2 * l.ncols() && q != row ==>
        #[trigger] aug_at(l2, r2, q, c) == aug_at(l, r, q, c)
    &&& exists|z: bool| {
        &&& #[trigger] call_ensures(T::is_zero, (&d,), z)
        &&& z ==> forall|c: int| 0 <= c < 2 * l.ncols() ==> #[trigger] aug_at(l2, r2, row, c) == aug_at(l, r, row, c)
        &&& !z ==> forall|c: int| 0 <= c < 2 * l.ncols() ==> #[trigger] call_ensures(T::over, (&aug_at(l, r, row, c), &d), aug_at(l2, r2, row, c))
    }
}

/// `v` is the cell in row `q` and column `c` of `l | r` minus the row's cell
/// in column `col` times the cell in row `row` and column `c`.
pub open spec fn cell_reduced<T: Scalar>(l: DMat<T>, r: DMat<T>, row: int, col: int, q: int, c: int, v: T) -> bool {
    exists|t: T| #[trigger] call_ensures(T::times, (&aug_at(l, r, q, col), &aug_at(l, r, row, c)), t) && call_ensures(T::minus, (&aug_at(l, r, q, c), &t), v)
}

/// Every row but `row` of `l2 | r2` is that row of `l | r` reduced by row
/// `row` so as to clear column `col`; row `row` is kept.
pub open spec fn column_cleared<T: Scalar>(l: DMat<T>, r: DMat<T>, row: int, col: int, l2: DMat<T>, r2: DMat<T>) -> bool {
    &&& same_system(l, r, l2, r2)
    &&& forall|c: int| 0 <= c < 2 * l.ncols() ==> #[trigger] aug_at(l2, r2, row, c) == aug_at(l, r, row, c)
    &&& forall|q: int, c: int| 0 <= q < l.nrows() && 0 <= c < 2 * l.ncols() && q != row ==>
        #[trigger] cell_reduced(l, r, row, col, q, c, aug_at(l2, r2, q, c))
}

/// One row of Gauss-Jordan elimination on `l | r`: the pivot is found from
/// column `pivot` on, its row is exchanged into row `row`, scaled by the pivot,
/// and used to clear the pivot's column in every other row; the next search
/// starts at `pivot2`, the column after the pivot's.
pub open spec fn gauss_jordan_step<T: Scalar>(l: DMat<T>, r: DMat<T>, row: int, pivot: int, l2: DMat<T>, r2: DMat<T>, pivot2: int) -> bool {
    exists|i: int, col: int, l1: DMat<T>, r1: DMat<T>, ls: DMat<T>, rs: DMat<T>| {
        &&& #[trigger] pivot_found(l, r, row, pivot, i, col)
        &&& rows_exchanged(l, row, i, l1)
        &&& rows_exchanged(r, row, i, r1)
        &&& #[trigger] row_scaled(l1, r1, row, aug_at(l1, r1, row, col), ls, rs)
        &&& column_cleared(ls, rs, row, col, l2, r2)
        &&& pivot2 == col + 1
    }
}

/// After `k` rows of Gauss-Jordan elimination started from `l0 | r0`, the
/// system is `l | r` and the next search starts at column `pivot`.
pub open spec fn gauss_jordan<T: Scalar>(l0: DMat<T>, r0: DMat<T>, k: nat, l: DMat<T>, r: DMat<T>, pivot: int) -> bool
    decreases k,
{
    if k == 0 {
        &&& same_system(l0, r0, l, r)
        &&& l.same(&l0)
        &&& r.same(&r0)
        &&& pivot == 0
    } else {
        exists|pl: DMat<T>, pr: DMat<T>, pp: int|
            gauss_jordan(l0, r0, (k - 1) as nat, pl, pr, pp) && #[trigger] gauss_jordan_step(pl, pr, k - 1, pp, l, r, pivot)
    }
}

/// The first column from `pivot` on, of `left` followed on the right by
/// `right`, that holds a nonzero cell in rows `row..n`, with the first such
/// row; `None` when every cell there tests zero.
fn find_pivot<T: Scalar>(left: &DMat<T>, right: &DMat<T>, row: usize, pivot: usize) -> (found: Option<(usize, usize)>)
    requires
        left.wf(),
        right.wf(),
        left.is_square(),
        right.nrows() == left.nrows(),
        right.ncols() == left.ncols(),
        row < left.nrows(),
        pivot < 2 * left.ncols(),
    ensures
        found matches Some((i, col)) ==> pivot_found(*left, *right, row as int, pivot as int, i as int, col as int),
        found is None ==> no_pivot_left(*left, *right, row as int, pivot as int),
{
    let n = left.rows();
    proof {
        if n >= 2 {
            assert(2 * n <= n * n) by (nonlinear_arith)
                requires n >= 2;
        }
    }
    let width = 2 * n;
    let mut col = pivot;
    while col < width
        invariant
            left.wf(),
            right.wf(),
            left.is_square(),
            right.nrows() == left.nrows(),
            right.ncols() == left.ncols(),
            n == left.nrows(),
            width == 2 * n,
            row < n,
            pivot <= col <= width,
            forall|r: int, c: int| row <= r < n && pivot <= c < col ==>
                #[trigger] call_ensures(T::is_zero, (&aug_at(*left, *right, r, c),), true),
        decreases width - col,
    {
        let mut i = row;
        while i < n
            invariant
                left.wf(),
                right.wf(),
                left.is_square(),
                right.nrows() == left.nrows(),
                right.ncols() == left.ncols(),
                n == left.nrows(),
                width == 2 * n,
                row <= i <= n,
                pivot <= col < width,
                forall|r: int, c: int| row <= r < n && pivot <= c < col ==>
                    #[trigger] call_ensures(T::is_zero, (&aug_at(*left, *right, r, c),), true),
                forall|r: int| row <= r < i ==> #[trigger] call_ensures(T::is_zero, (&aug_at(*left, *right, r, col as int),), true),
            decreases n - i,
        {
            if !aug_get(left, right, i, col).is_zero() {
                return Some((i, col));
            }
            i = i + 1;
        }
        assert forall|r: int, c: int| row <= r < n && pivot <= c < col + 1 implies
            #[trigger] call_ensures(T::is_zero, (&aug_at(*left, *right, r, c),), true) by {
            if c == col {
                assert(call_ensures(T::is_zero, (&aug_at(*left, *right, r, col as int),), true));
            }
        }
        col = col + 1;
    }
    None
}

/// `id` is the `n` by `n` identity built from values of the arithmetic's zero and one.
pub open spec fn arithmetic_identity<T: Scalar>(id: DMat<T>, n: nat) -> bool {
    exists|z: T, o: T| {
        &&& call_ensures(T::zero, (), z)
        &&& call_ensures(T::one, (), o)
        &&& id.wf()
        &&& id.nrows() == n
        &&& id.ncols() == n
        &&& forall|r: int, c: int| 0 <= r < n && 0 <= c < n ==> #[trigger] id.at(r, c) == DMat::<T>::identity_cell(r, c, z, o)
    }
}

/// The trace of Gauss-Jordan elimination depends on the starting left half
/// only through its shape and cells.
proof fn lemma_gauss_jordan_same_start<T: Scalar>(l0: DMat<T>, m0: DMat<T>, r0: DMat<T>, k: nat, l: DMat<T>, r: DMat<T>, pivot: int)
    requires
        gauss_jordan(l0, r0, k, l, r, pivot),
        l0.same(&m0),
        m0.wf(),
    ensures
        gauss_jordan(m0, r0, k, l, r, pivot),
    decreases k,
{
    if k > 0 {
        let (pl, pr, pp) = choose|pl: DMat<T>, pr: DMat<T>, pp: int|
            gauss_jordan(l0, r0, (k - 1) as nat, pl, pr, pp) && #[trigger] gauss_jordan_step(pl, pr, k - 1, pp, l, r, pivot);
        lemma_gauss_jordan_same_start(l0, m0, r0, (k - 1) as nat, pl, pr, pp);
    }
}

impl<T: Scalar, const N: usize> Mat<T, N, N> {
    /// The inverse, by Gauss-Jordan elimination on the matrix followed on the
    /// right by the identity: for each row in turn the pivot is found from
    /// the column after the last one on, its row is exchanged into place and
    /// divided by the pivot, and the pivot's column is cleared in every other
    /// row. The elimination ends when every row is done, the columns run out
    /// or no pivot is left. Where the left half then reads as the identity,
    /// the right half is the inverse; otherwise `None`.
    pub fn inverse(&self) -> (m: Option<Self>)
        requires
            self.wf(),
        ensures
            m matches Some(inv) ==> inv.wf(),
            exists|k: nat, id0: DMat<T>, l: DMat<T>, r: DMat<T>, pivot: int| {
                &&& arithmetic_identity(id0, N as nat)
                &&& #[trigger] gauss_jordan(self.dyn_view(), id0, k, l, r, pivot)
                &&& k <= N
                &&& k == N || pivot >= 2 * N || no_pivot_left(l, r, k as int, pivot)
                &&& DMat::reads_as_identity(&l, m is Some)
                &&& (m is None || (m matches Some(inv) && inv.dyn_view() == r))
            },
    {
        let n: usize = N;
        proof {
            if n >= 2 {
                assert(2 * n <= n * n) by (nonlinear_arith)
                    requires n >= 2;
            }
        }
        let width: usize = 2 * n;
        let mut left = self.cells.duplicate();
        let z = T::zero();
        let o = T::one();
        let mut right = DMat::identity(n, z, o);
        let ghost l0 = left;
        let ghost r0 = right;
        proof {
            assert(arithmetic_identity(r0, N as nat));
            assert(gauss_jordan(l0, r0, 0, left, right, 0));
        }
        let mut pivot: usize = 0;
        let mut row: usize = 0;
        while row < n
            invariant
                n == N,
                width == 2 * n,
                left.wf(),
                right.wf(),
                left.nrows() == n,
                left.ncols() == n,
                right.nrows() == n,
                right.ncols() == n,
                row <= n,
                gauss_jordan(l0, r0, row as nat, left, right, pivot as int),
            ensures
                row == n || pivot >= width || no_pivot_left(left, right, row as int, pivot as int),
            decreases n - row,
        {
            if pivot >= width {
                break;
            }
            let (i, col) = match find_pivot(&left, &right, row, pivot) {
                Some(at) => at,
                None => break,
            };
            let ghost lp = left;
            let ghost rp = right;
            let ghost start = pivot;
            pivot = col;
            if row != i {
                left.swap_rows(row, i);
                right.swap_rows(row, i);
            }
            let ghost l1 = left;
            let ghost r1 = right;
            proof {
                assert(rows_exchanged(lp, row as int, i as int, l1));
                assert(rows_exchanged(rp, row as int, i as int, r1));
            }
            let divisor = aug_get(&left, &right, row, pivot);
            let divisor_zero = divisor.is_zero();
            if !divisor_zero {
                let mut c: usize = 0;
                while c < width
                    invariant
                        n == N,
                        width == 2 * n,
                        row < n,
                        same_system(l1, r1, left, right),
                        l1.nrows() == n,
                        l1.ncols() == n,
                        c <= width,
                        forall|q: int, cc: int| 0 <= q < n && 0 <= cc < width && q != row ==>
                            #[trigger] aug_at(left, right, q, cc) == aug_at(l1, r1, q, cc),
                        forall|cc: int| 0 <= cc < c ==>
                            #[trigger] call_ensures(T::over, (&aug_at(l1, r1, row as int, cc), &divisor), aug_at(left, right, row as int, cc)),
                        forall|cc: int| c <= cc < width ==> #[trigger] aug_at(left, right, row as int, cc) == aug_at(l1, r1, row as int, cc),
                    decreases width - c,
                {
                    let v = aug_get(&left, &right, row, c).over(&divisor);
                    aug_set(&mut left, &mut right, row, c, v);
                    c = c + 1;
                }
            }
            let ghost ls = left;
            let ghost rs = right;
            proof {
                assert(call_ensures(T::is_zero, (&divisor,), divisor_zero));
                assert(row_scaled(l1, r1, row as int, aug_at(l1, r1, row as int, col as int), ls, rs));
            }
            let mut j: usize = 0;
            while j < n
                invariant
                    n == N,
                    width == 2 * n,
                    row < n,
                    pivot == col,
                    col < width,
                    same_system(ls, rs, left, right),
                    ls.nrows() == n,
                    ls.ncols() == n,
                    j <= n,
                    forall|cc: int| 0 <= cc < width ==> #[trigger] aug_at(left, right, row as int, cc) == aug_at(ls, rs, row as int, cc),
                    forall|q: int, cc: int| 0 <= q < j && 0 <= cc < width && q != row ==>
                        #[trigger] cell_reduced(ls, rs, row as int, col as int, q, cc, aug_at(left, right, q, cc)),
                    forall|q: int, cc: int| j <= q < n && 0 <= cc < width && q != row ==>
                        #[trigger] aug_at(left, right, q, cc) == aug_at(ls, rs, q, cc),
                decreases n - j,
            {
                if j != row {
                    let hold = aug_get(&left, &right, j, pivot);
                    let ghost lj = left;
                    let ghost rj = right;
                    let mut c: usize = 0;
                    while c < width
                        invariant
                            n == N,
                            width == 2 * n,
                            row < n,
                            j < n,
                            j != row,
                            pivot == col,
                            col < width,
                            same_system(ls, rs, left, right),
                            same_system(ls, rs, lj, rj),
                            ls.nrows() == n,
                            ls.ncols() == n,
                            c <= width,
                            hold == aug_at(ls, rs, j as int, col as int),
                            forall|q: int, cc: int| 0 <= q < n && 0 <= cc < width && q != j ==>
                                #[trigger] aug_at(left, right, q, cc) == aug_at(lj, rj, q, cc),
                            forall|cc: int| 0 <= cc < width ==> #[trigger] aug_at(lj, rj, row as int, cc) == aug_at(ls, rs, row as int, cc),
                            forall|cc: int| 0 <= cc < width ==> #[trigger] aug_at(lj, rj, j as int, cc) == aug_at(ls, rs, j as int, cc),
                            forall|cc: int| 0 <= cc < c ==>
                                #[trigger] cell_reduced(ls, rs, row as int, col as int, j as int, cc, aug_at(left, right, j as int, cc)),
                            forall|cc: int| c <= cc < width ==> #[trigger] aug_at(left, right, j as int, cc) == aug_at(ls, rs, j as int, cc),
                        decreases width - c,
                    {
                        let x = aug_get(&left, &right, j, c);
                        let y = aug_get(&left, &right, row, c);
                        let t = hold.times(&y);
                        let v = x.minus(&t);
                        proof {
                            assert(cell_reduced(ls, rs, row as int, col as int, j as int, c as int, v));
                        }
                        aug_set(&mut left, &mut right, j, c, v);
                        c = c + 1;
                    }
                }
                j = j + 1;
            }
            pivot = pivot + 1;
            proof {
                assert(column_cleared(ls, rs, row as int, col as int, left, right));
                assert(pivot_found(lp, rp, row as int, start as int, i as int, col as int));
                assert(gauss_jordan_step(lp, rp, row as int, start as int, left, right, pivot as int));
                let next = (row + 1) as nat;
                assert((next - 1) as nat == row as nat);
                assert(gauss_jordan(l0, r0, next, left, right, pivot as int));
            }
            row = row + 1;
        }
        let b = left.is_identity();
        proof {
            lemma_gauss_jordan_same_start(l0, self.cells, r0, row as nat, left, right, pivot as int);
        }
        if b {
            let inv = Mat { cells: right };
            let m = Some(inv);
            assert(m matches Some(inv) && inv.dyn_view() == right);
            m
        } else {
            None
        }
    }
}

/// `a` is the `n` by `n` identity made of `z` and `o`.
pub open spec fn is_unit_matrix<T: Scalar>(a: DMat<T>, n: nat, z: T, o: T) -> bool {
    &&& a.wf()
    &&& a.nrows() == n
    &&& a.ncols() == n
    &&& forall|r: int, c: int| 0 <= r < n && 0 <= c < n ==> #[trigger] a.at(r, c) == DMat::<T>::identity_cell(r, c, z, o)
}

/// The arithmetic's `zero` and `one` always give `z` and `o`, and on them its
/// operations give one result each, the one that doubles give: `o` is not
/// zero and no smaller in magnitude than `z`, `o * o` and `o / o` are `o`, and
/// adding `z * (-z / o)` leaves `z` and `o` unchanged.
pub open spec fn units_behave<T: Scalar>(z: T, o: T) -> bool {
    &&& call_ensures(T::zero, (), z)
    &&& call_ensures(T::one, (), o)
    &&& forall|x: T| #[trigger] call_ensures(T::zero, (), x) ==> x == z
    &&& forall|x: T| #[trigger] call_ensures(T::one, (), x) ==> x == o
    &&& forall|b: bool| #[trigger] call_ensures(T::is_zero, (&o,), b) ==> !b
    &&& forall|b: bool| #[trigger] call_ensures(T::abs_gt, (&z, &o), b) ==> !b
    &&& forall|p: T| #[trigger] call_ensures(T::times, (&o, &o), p) ==> p == o
    &&& forall|q: T| #[trigger] call_ensures(T::over, (&o, &o), q) ==> q == o
    &&& forall|nz: T, c: T, t: T, v: T|
        #[trigger] call_ensures(T::negated, (&z,), nz) && #[trigger] call_ensures(T::over, (&nz, &o), c)
            && #[trigger] call_ensures(T::times, (&z, &c), t) && #[trigger] call_ensures(T::plus, (&z, &t), v) ==> v == z
    &&& forall|nz: T, c: T, t: T, v: T|
        #[trigger] call_ensures(T::negated, (&z,), nz) && #[trigger] call_ensures(T::over, (&nz, &o), c)
            && #[trigger] call_ensures(T::times, (&z, &c), t) && #[trigger] call_ensures(T::plus, (&o, &t), v) ==> v == o
}

/// On the identity the pivot scan of column `k` stays on row `k`.
proof fn lemma_scan_of_unit<T: Scalar>(a: DMat<T>, n: nat, z: T, o: T, k: int, i: int, p: int)
    requires
        is_unit_matrix(a, n, z, o),
        units_behave(z, o),
        0 <= k < n,
        k < i <= n,
        scan_settles(a, k, i, p),
    ensures
        p == k,
    decreases i - k,
{
    if i > k + 1 {
        let (q, larger) = choose|q: int, larger: bool| {
            &&& scan_settles(a, k, i - 1, q)
            &&& #[trigger] call_ensures(T::abs_gt, (&a.at(i - 1, k), &a.at(q, k)), larger)
            &&& p == if larger { i - 1 } else { q }
        };
        lemma_scan_of_unit(a, n, z, o, k, i - 1, q);
        assert(a.at(i - 1, k) == z);
        assert(a.at(q, k) == o);
    }
}

/// Elimination leaves the identity as it is, with the sign at one.
proof fn lemma_elimination_of_unit<T: Scalar>(a0: DMat<T>, n: nat, z: T, o: T, k: nat, a: DMat<T>, s: T)
    requires
        is_unit_matrix(a0, n, z, o),
        units_behave(z, o),
        k <= n,
        eliminated(a0, k, a, s),
    ensures
        is_unit_matrix(a, n, z, o),
        s == o,
    decreases k,
{
    if k == 0 {
        assert forall|r: int, c: int| 0 <= r < n && 0 <= c < n implies #[trigger] a.at(r, c) == DMat::<T>::identity_cell(r, c, z, o) by {
            assert(a.at(r, c) == a0.at(r, c));
        }
    } else {
        let (prev, ps) = choose|prev: DMat<T>, ps: T| eliminated(a0, (k - 1) as nat, prev, ps) && #[trigger] elimination_step(prev, k - 1, ps, a, s);
        lemma_elimination_of_unit(a0, n, z, o, (k - 1) as nat, prev, ps);
        let kk = k - 1;
        let (p, w) = choose|p: int, w: DMat<T>| {
            &&& kk <= p < prev.nrows()
            &&& scan_settles(prev, kk, prev.nrows() as int, p)
            &&& call_ensures(T::is_zero, (&prev.at(p, kk),), false)
            &&& #[trigger] rows_exchanged(prev, kk, p, w)
            &&& if p == kk { s == ps } else { call_ensures(T::negated, (&ps,), s) }
            &&& cleared_below(w, kk, a)
        };
        lemma_scan_of_unit(prev, n, z, o, kk, n as int, p);
        assert(is_unit_matrix(w, n, z, o));
        assert forall|r: int, c: int| 0 <= r < n && 0 <= c < n implies #[trigger] a.at(r, c) == DMat::<T>::identity_cell(r, c, z, o) by {
            if r <= kk || c < kk {
                assert(a.at(r, c) == w.at(r, c));
            } else if c == kk {
                assert(call_ensures(T::zero, (), a.at(r, kk)));
            } else {
                assert(row_cleared(w, kk, r, a));
                let m = choose|m: T| #[trigger] clearing_multiplier(w, kk, r, m) && forall|j: int| kk < j < w.ncols() ==> #[trigger] row_update(w, kk, r, j, m, a.at(r, j));
                assert(row_update(w, kk, r, c, m, a.at(r, c)));
                let nz = choose|nz: T| #[trigger] call_ensures(T::negated, (&w.at(r, kk),), nz) && call_ensures(T::over, (&nz, &w.at(kk, kk)), m);
                let t = choose|t: T| #[trigger] call_ensures(T::times, (&w.at(kk, c), &m), t) && call_ensures(T::plus, (&w.at(r, c), &t), a.at(r, c));
                assert(w.at(r, kk) == z);
                assert(w.at(kk, kk) == o);
                assert(w.at(kk, c) == z);
                if r == c {
                    assert(w.at(r, c) == o);
                } else {
                    assert(w.at(r, c) == z);
                }
            }
        }
    }
}

/// The diagonal product of the identity is one.
proof fn lemma_diagonal_of_unit<T: Scalar>(a: DMat<T>, n: nat, z: T, o: T, m: nat, prod: T)
    requires
        is_unit_matrix(a, n, z, o),
        units_behave(z, o),
        m <= n,
        diagonal_product(a, m, prod),
    ensures
        prod == o,
    decreases m,
{
    if m > 0 {
        let q = choose|q: T| diagonal_product(a, (m - 1) as nat, q) && #[trigger] call_ensures(T::times, (&q, &a.at(m - 1, m - 1)), prod);
        lemma_diagonal_of_unit(a, n, z, o, (m - 1) as nat, q);
        assert(a.at(m - 1, m - 1) == o);
    }
}

/// The determinant of the identity is one, for every size: where the
/// arithmetic's zero and one behave as they do for doubles, elimination meets
/// a nonzero pivot on the diagonal of every column, exchanges no rows, leaves
/// the identity unchanged, and its diagonal product divided by the sign is one.
pub proof fn lemma_determinant_of_identity<T: Scalar, const N: usize>(id: Mat<T, N, N>, z: T, o: T, d: T)
    requires
        id.wf(),
        forall|r: int, c: int| 0 <= r < N && 0 <= c < N ==> #[trigger] id.at(r, c) == DMat::<T>::identity_cell(r, c, z, o),
        units_behave(z, o),
        determinant_of(id.dyn_view(), d),
    ensures
        d == o,
{
    let a = id.dyn_view();
    let n = N as nat;
    assert forall|r: int, c: int| 0 <= r < n && 0 <= c < n implies #[trigger] a.at(r, c) == DMat::<T>::identity_cell(r, c, z, o) by {
        assert(id.at(r, c) == a.at(r, c));
    }
    let (k, e, s) = choose|k: nat, e: DMat<T>, s: T| {
        &&& k <= a.nrows()
        &&& #[trigger] eliminated(a, k, e, s)
        &&& k < a.nrows() ==> stalls(e, k as int) && call_ensures(T::zero, (), d)
        &&& k == a.nrows() ==> exists|prod: T| diagonal_product(e, a.nrows(), prod) && #[trigger] call_ensures(T::over, (&prod, &s), d)
    };
    lemma_elimination_of_unit(a, n, z, o, k, e, s);
    if k < n {
        let p = choose|p: int| k <= p < e.nrows() && scan_settles(e, k as int, e.nrows() as int, p) && #[trigger] call_ensures(T::is_zero, (&e.at(p, k as int),), true);
        lemma_scan_of_unit(e, n, z, o, k as int, n as int, p);
        assert(e.at(k as int, k as int) == o);
    } else {
        let prod = choose|prod: T| diagonal_product(e, n, prod) && #[trigger] call_ensures(T::over, (&prod, &s), d);
        lemma_diagonal_of_unit(e, n, z, o, n, prod);
    }
}

} // verus!