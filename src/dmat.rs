use vstd::prelude::*;

use crate::error::ShapeError;
use crate::scalar::Scalar;

verus! {

/// `r * cols + c` addresses a cell of a `rows` by `cols` buffer.
pub proof fn lemma_cell_in_bounds(r: int, c: int, rows: int, cols: int)
    requires
        0 <= r < rows,
        0 <= c < cols,
    ensures
        0 <= r * cols + c < rows * cols,
        r * cols + c < (r + 1) * cols,
        r * cols <= r * cols + c,
{
    assert(0 <= r * cols) by (nonlinear_arith)
        requires 0 <= r, 0 <= cols;
    assert((r + 1) * cols <= rows * cols) by (nonlinear_arith)
        requires r + 1 <= rows, 0 <= cols;
    assert((r + 1) * cols == r * cols + cols) by (nonlinear_arith);
}

/// Two different cells of a buffer with `cols` columns have different indices.
pub proof fn lemma_cell_index_distinct(r1: int, c1: int, r2: int, c2: int, cols: int)
    requires
        0 <= c1 < cols,
        0 <= c2 < cols,
        r1 != r2 || c1 != c2,
    ensures
        r1 * cols + c1 != r2 * cols + c2,
{
    if r1 == r2 {
    } else if r1 < r2 {
        assert(r1 * cols + cols <= r2 * cols) by (nonlinear_arith)
            requires r1 < r2, 0 < cols;
    } else {
        assert(r2 * cols + cols <= r1 * cols) by (nonlinear_arith)
            requires r2 < r1, 0 < cols;
    }
}

/// Every index of a `rows` by `cols` buffer is `r * cols + c` for one cell.
pub proof fn lemma_cell_of_index(k: int, rows: int, cols: int)
    requires
        0 <= rows,
        0 <= k < rows * cols,
    ensures
        0 <= k / cols < rows,
        0 <= k % cols < cols,
        k == (k / cols) * cols + k % cols,
{
    assert(cols > 0) by (nonlinear_arith)
        requires 0 <= rows, 0 <= k < rows * cols;
    vstd::arithmetic::div_mod::lemma_fundamental_div_mod(k, cols);
    vstd::arithmetic::div_mod::lemma_mod_bound(k, cols);
    vstd::arithmetic::div_mod::lemma_div_pos_is_pos(k, cols);
    let q = k / cols;
    assert(q * cols == cols * q) by (nonlinear_arith);
    if q >= rows {
        assert(q * cols >= rows * cols) by (nonlinear_arith)
            requires q >= rows, cols > 0;
    }
}

/// `acc` is a value that folding `step` from `init` over the pairs
/// `(a[i], b[i])` for `i < n`, left to right, can end with.
pub open spec fn folds_to<T, G: Fn(T, T, T) -> T>(step: &G, init: T, a: Seq<T>, b: Seq<T>, n: nat, acc: T) -> bool
    decreases n,
{
    if n == 0 {
        acc == init
    } else {
        exists|prev: T| folds_to(step, init, a, b, (n - 1) as nat, prev) && #[trigger] step.ensures((prev, a[n - 1], b[n - 1]), acc)
    }
}

/// A matrix whose row and column counts are chosen at run time.
///
/// Its cells are held in one buffer in row-major order: the cell in row `r` and
/// column `c` sits at `r * cols + c`.
#[derive(Clone, Debug)]
pub struct DMat<T> {
    vals: Vec<T>,
    rows: usize,
    cols: usize,
}

impl<T: Copy> DMat<T> {
    /// Number of rows.
    pub closed spec fn nrows(&self) -> nat {
        self.rows as nat
    }

    /// Number of columns.
    pub closed spec fn ncols(&self) -> nat {
        self.cols as nat
    }

    /// The cells in row-major order.
    pub closed spec fn cells(&self) -> Seq<T> {
        self.vals@
    }

    /// The buffer holds exactly one cell per row and column.
    pub open spec fn wf(&self) -> bool {
        &&& self.cells().len() == self.nrows() * self.ncols()
        &&& self.nrows() * self.ncols() <= usize::MAX
    }

    /// The cell in row `r` and column `c`.
    pub open spec fn at(&self, r: int, c: int) -> T {
        self.cells()[r * self.ncols() + c]
    }

    /// Both matrices have the same shape and the same cells.
    pub open spec fn same(&self, other: &Self) -> bool {
        &&& self.nrows() == other.nrows()
        &&& self.ncols() == other.ncols()
        &&& self.cells() == other.cells()
    }

    /// Two well-formed matrices of one shape that agree on every cell are the same.
    pub proof fn lemma_same_from_cells(&self, other: &Self)
        requires
            self.wf(),
            other.wf(),
            self.nrows() == other.nrows(),
            self.ncols() == other.ncols(),
            forall|r: int, c: int| 0 <= r < self.nrows() && 0 <= c < self.ncols() ==> #[trigger] self.at(r, c) == other.at(r, c),
        ensures
            self.same(other),
    {
        assert forall|k: int| 0 <= k < self.cells().len() implies self.cells()[k] == other.cells()[k] by {
            lemma_cell_of_index(k, self.nrows() as int, self.ncols() as int);
            assert(self.at(k / self.ncols() as int, k % self.ncols() as int) == other.at(k / self.ncols() as int, k % self.ncols() as int));
        }
        assert(self.cells() =~= other.cells());
    }

    pub fn rows(&self) -> (r: usize)
        ensures
            r == self.nrows(),
    {
        self.rows
    }

    pub fn cols(&self) -> (c: usize)
        ensures
            c == self.ncols(),
    {
        self.cols
    }

    /// The cell in row `r` and column `c`.
    pub fn get(&self, r: usize, c: usize) -> (v: T)
        requires
            self.wf(),
            r < self.nrows(),
            c < self.ncols(),
        ensures
            v == self.at(r as int, c as int),
    {
        proof {
            lemma_cell_in_bounds(r as int, c as int, self.rows as int, self.cols as int);
        }
        self.vals[r * self.cols + c]
    }

    /// A `rows` by `cols` matrix with every cell equal to `fill`, the zero
    /// of the caller's arithmetic.
    pub fn zero(rows: usize, cols: usize, fill: T) -> (m: Self)
        requires
            rows * cols <= usize::MAX,
        ensures
            m.wf(),
            m.nrows() == rows,
            m.ncols() == cols,
            forall|r: int, c: int| 0 <= r < rows && 0 <= c < cols ==> #[trigger] m.at(r, c) == fill,
    {
        let n: usize = rows * cols;
        let mut vals: Vec<T> = Vec::with_capacity(n);
        let mut i: usize = 0;
        while i < n
            invariant
                i <= n,
                vals@.len() == i,
                forall|k: int| 0 <= k < i ==> vals@[k] == fill,
            decreases n - i,
        {
            vals.push(fill);
            i = i + 1;
        }
        let m = DMat { vals, rows, cols };
        assert forall|r: int, c: int| 0 <= r < rows && 0 <= c < cols implies #[trigger] m.at(r, c) == fill by {
            lemma_cell_in_bounds(r, c, rows as int, cols as int);
        }
        m
    }

    /// A `rows` by `cols` matrix whose cell in row `r` and column `c` is
    /// `f(r, c)`, with `f` called once per cell in row-major order.
    pub fn generate<F: Fn(usize, usize) -> T>(rows: usize, cols: usize, f: F) -> (m: Self)
        requires
            rows * cols <= usize::MAX,
            forall|r: usize, c: usize| r < rows && c < cols ==> #[trigger] f.requires((r, c)),
        ensures
            m.wf(),
            m.nrows() == rows,
            m.ncols() == cols,
            forall|r: int, c: int| 0 <= r < rows && 0 <= c < cols ==> f.ensures((r as usize, c as usize), #[trigger] m.at(r, c)),
    {
        let mut vals: Vec<T> = Vec::with_capacity(rows * cols);
        let mut r: usize = 0;
        while r < rows
            invariant
                r <= rows,
                rows * cols <= usize::MAX,
                forall|r: usize, c: usize| r < rows && c < cols ==> #[trigger] f.requires((r, c)),
                vals@.len() == r * cols,
                forall|rr: usize, cc: usize| rr < r && cc < cols ==> #[trigger] f.ensures((rr, cc), vals@[rr * cols + cc]),
            decreases rows - r,
        {
            let mut c: usize = 0;
            while c < cols
                invariant
                    r < rows,
                    c <= cols,
                    rows * cols <= usize::MAX,
                    forall|r: usize, c: usize| r < rows && c < cols ==> #[trigger] f.requires((r, c)),
                    vals@.len() == r * cols + c,
                    forall|rr: usize, cc: usize| rr < r && cc < cols ==> #[trigger] f.ensures((rr, cc), vals@[rr * cols + cc]),
                    forall|cc: usize| cc < c ==> #[trigger] f.ensures((r, cc), vals@[r * cols + cc]),
                decreases cols - c,
            {
                proof {
                    lemma_cell_in_bounds(r as int, c as int, rows as int, cols as int);
                }
                let v = f(r, c);
                let ghost prev = vals@;
                vals.push(v);
                proof {
                    assert forall|rr: usize, cc: usize| rr < r && cc < cols implies #[trigger] f.ensures((rr, cc), vals@[rr * cols + cc]) by {
                        lemma_cell_in_bounds(rr as int, cc as int, r as int, cols as int);
                        assert(vals@[rr * cols + cc] == prev[rr * cols + cc]);
                    }
                    assert forall|cc: usize| cc < c + 1 implies #[trigger] f.ensures((r, cc), vals@[r * cols + cc]) by {
                        if cc < c {
                            assert(vals@[r * cols + cc] == prev[r * cols + cc]);
                        }
                    }
                }
                c = c + 1;
            }
            proof {
                assert((r + 1) * cols == r * cols + cols) by (nonlinear_arith);
                assert forall|rr: usize, cc: usize| rr < r + 1 && cc < cols implies #[trigger] f.ensures((rr, cc), vals@[rr * cols + cc]) by {
                    if rr == r {
                    }
                }
            }
            r = r + 1;
        }
        let m = DMat { vals, rows, cols };
        assert forall|r: int, c: int| 0 <= r < rows && 0 <= c < cols implies f.ensures((r as usize, c as usize), #[trigger] m.at(r, c)) by {
            assert(f.ensures((r as usize, c as usize), vals@[(r as usize) * cols + (c as usize)]));
        }
        m
    }

    /// `m` is `a` and `b` combined cell by cell: each cell of `m` is a value
    /// that `op` returns on the two cells at the same place.
    pub open spec fn combined<F: Fn(T, T) -> T>(a: &Self, b: &Self, op: &F, m: &Self) -> bool {
        &&& m.wf()
        &&& m.nrows() == a.nrows()
        &&& m.ncols() == a.ncols()
        &&& forall|r: int, c: int| 0 <= r < m.nrows() && 0 <= c < m.ncols() ==> op.ensures((a.at(r, c), b.at(r, c)), #[trigger] m.at(r, c))
    }

    /// `t` is `a` with rows and columns exchanged.
    pub open spec fn transposed(a: &Self, t: &Self) -> bool {
        &&& t.wf()
        &&& t.nrows() == a.ncols()
        &&& t.ncols() == a.nrows()
        &&& forall|r: int, c: int| 0 <= r < t.nrows() && 0 <= c < t.ncols() ==> #[trigger] t.at(r, c) == a.at(c, r)
    }

    /// The matrix with rows and columns exchanged: the cell in row `r` and
    /// column `c` of the result is the cell in row `c` and column `r` here.
    pub fn transpose(&self) -> (t: Self)
        requires
            self.wf(),
        ensures
            Self::transposed(self, &t),
    {
        proof {
            assert(self.nrows() * self.ncols() == self.ncols() * self.nrows()) by (nonlinear_arith);
        }
        let f = |r: usize, c: usize| -> (v: T)
            requires
                r < self.ncols(),
                c < self.nrows(),
            ensures
                v == self.at(c as int, r as int),
        { self.get(c, r) };
        let t = Self::generate(self.cols, self.rows, f);
        assert forall|r: int, c: int| 0 <= r < t.nrows() && 0 <= c < t.ncols() implies #[trigger] t.at(r, c) == self.at(c, r) by {
            assert(f.ensures((r as usize, c as usize), t.at(r, c)));
        }
        t
    }

    /// Combines `self` and `rhs` cell by cell through `op`; both must have the
    /// same shape.
    pub fn zip_with<F: Fn(T, T) -> T>(&self, rhs: &Self, op: F) -> (m: Result<Self, ShapeError>)
        requires
            self.wf(),
            rhs.wf(),
            forall|x: T, y: T| #[trigger] op.requires((x, y)),
        ensures
            self.nrows() == rhs.nrows() && self.ncols() == rhs.ncols() <==> m is Ok,
            m is Err ==> m == Err::<Self, ShapeError>(ShapeError::ShapeMismatch),
            m matches Ok(m) ==> Self::combined(self, rhs, &op, &m),
    {
        if self.rows != rhs.rows || self.cols != rhs.cols {
            return Err(ShapeError::ShapeMismatch);
        }
        let n = self.vals.len();
        let mut vals: Vec<T> = Vec::with_capacity(n);
        let mut k: usize = 0;
        while k < n
            invariant
                n == self.cells().len(),
                n == rhs.cells().len(),
                k <= n,
                vals@.len() == k,
                forall|x: T, y: T| #[trigger] op.requires((x, y)),
                forall|i: int| 0 <= i < k ==> #[trigger] op.ensures((self.cells()[i], rhs.cells()[i]), vals@[i]),
            decreases n - k,
        {
            let v = op(self.vals[k], rhs.vals[k]);
            vals.push(v);
            k = k + 1;
        }
        let m = DMat { vals, rows: self.rows, cols: self.cols };
        assert forall|r: int, c: int| 0 <= r < m.nrows() && 0 <= c < m.ncols() implies op.ensures((self.at(r, c), rhs.at(r, c)), #[trigger] m.at(r, c)) by {
            lemma_cell_in_bounds(r, c, m.nrows() as int, m.ncols() as int);
            assert(op.ensures((self.cells()[r * m.ncols() + c], rhs.cells()[r * m.ncols() + c]), vals@[r * m.ncols() + c]));
        }
        Ok(m)
    }

    /// A copy of the matrix with the same shape and cells.
    pub fn duplicate(&self) -> (d: Self)
        requires
            self.wf(),
        ensures
            d.wf(),
            d.same(self),
    {
        let f = |x: T| -> (y: T)
            ensures
                y == x,
        { x };
        let d = self.map(f);
        assert forall|r: int, c: int| 0 <= r < self.nrows() && 0 <= c < self.ncols() implies #[trigger] d.at(r, c) == self.at(r, c) by {
            assert(f.ensures((self.at(r, c),), d.at(r, c)));
        }
        proof {
            d.lemma_same_from_cells(self);
        }
        d
    }

    /// The matrix of `f` applied to every cell.
    pub fn map<F: Fn(T) -> T>(&self, f: F) -> (m: Self)
        requires
            self.wf(),
            forall|x: T| #[trigger] f.requires((x,)),
        ensures
            m.wf(),
            m.nrows() == self.nrows(),
            m.ncols() == self.ncols(),
            forall|r: int, c: int| 0 <= r < m.nrows() && 0 <= c < m.ncols() ==> f.ensures((self.at(r, c),), #[trigger] m.at(r, c)),
    {
        let n = self.vals.len();
        let mut vals: Vec<T> = Vec::with_capacity(n);
        let mut k: usize = 0;
        while k < n
            invariant
                n == self.cells().len(),
                k <= n,
                vals@.len() == k,
                forall|x: T| #[trigger] f.requires((x,)),
                forall|i: int| 0 <= i < k ==> #[trigger] f.ensures((self.cells()[i],), vals@[i]),
            decreases n - k,
        {
            let v = f(self.vals[k]);
            vals.push(v);
            k = k + 1;
        }
        let m = DMat { vals, rows: self.rows, cols: self.cols };
        assert forall|r: int, c: int| 0 <= r < m.nrows() && 0 <= c < m.ncols() implies f.ensures((self.at(r, c),), #[trigger] m.at(r, c)) by {
            lemma_cell_in_bounds(r, c, m.nrows() as int, m.ncols() as int);
            assert(f.ensures((self.cells()[r * m.ncols() + c],), vals@[r * m.ncols() + c]));
        }
        m
    }

    /// Row `r` as a sequence of its cells.
    pub open spec fn row_seq(&self, r: int) -> Seq<T> {
        Seq::new(self.ncols(), |c: int| self.at(r, c))
    }

    /// Column `c` as a sequence of its cells.
    pub open spec fn col_seq(&self, c: int) -> Seq<T> {
        Seq::new(self.nrows(), |r: int| self.at(r, c))
    }

    /// `m` is the product of `a` and `b`: the cell in row `r` and column `c`
    /// is the fold of `step` from `zero` over row `r` of `a` and column `c` of `b`.
    pub open spec fn product<G: Fn(T, T, T) -> T>(a: &Self, b: &Self, zero: T, step: &G, m: &Self) -> bool {
        &&& m.wf()
        &&& m.nrows() == a.nrows()
        &&& m.ncols() == b.ncols()
        &&& forall|r: int, c: int| 0 <= r < m.nrows() && 0 <= c < m.ncols() ==>
                folds_to(step, zero, a.row_seq(r), b.col_seq(c), a.ncols(), #[trigger] m.at(r, c))
    }

    /// Folds `step` from `zero` over row `r` of `self` and column `c` of `rhs`.
    fn dot<G: Fn(T, T, T) -> T>(&self, rhs: &Self, r: usize, c: usize, zero: T, step: &G) -> (v: T)
        requires
            self.wf(),
            rhs.wf(),
            self.ncols() == rhs.nrows(),
            r < self.nrows(),
            c < rhs.ncols(),
            forall|x: T, y: T, z: T| #[trigger] step.requires((x, y, z)),
        ensures
            folds_to(step, zero, self.row_seq(r as int), rhs.col_seq(c as int), self.ncols(), v),
    {
        let mut acc = zero;
        let mut i: usize = 0;
        while i < self.cols
            invariant
                self.wf(),
                rhs.wf(),
                self.ncols() == rhs.nrows(),
                r < self.nrows(),
                c < rhs.ncols(),
                i <= self.ncols(),
                forall|x: T, y: T, z: T| #[trigger] step.requires((x, y, z)),
                folds_to(step, zero, self.row_seq(r as int), rhs.col_seq(c as int), i as nat, acc),
            decreases self.ncols() - i,
        {
            let x = self.get(r, i);
            let y = rhs.get(i, c);
            let next = step(acc, x, y);
            proof {
                let row = self.row_seq(r as int);
                let col = rhs.col_seq(c as int);
                assert(row[i as int] == x);
                assert(col[i as int] == y);
                let n = (i + 1) as nat;
                assert((n - 1) as nat == i as nat);
                assert(step.ensures((acc, row[n - 1], col[n - 1]), next));
                assert(folds_to(step, zero, row, col, n, next));
            }
            acc = next;
            i = i + 1;
        }
        acc
    }

    /// The product of `self` and `rhs`, whose cell in row `r` and column `c`
    /// folds `step` from `zero` over row `r` of `self` and column `c` of `rhs`.
    /// The column count of `self` must equal the row count of `rhs`.
    pub fn mul_with<G: Fn(T, T, T) -> T>(&self, rhs: &Self, zero: T, step: G) -> (m: Result<Self, ShapeError>)
        requires
            self.wf(),
            rhs.wf(),
            self.nrows() * rhs.ncols() <= usize::MAX,
            forall|x: T, y: T, z: T| #[trigger] step.requires((x, y, z)),
        ensures
            self.ncols() == rhs.nrows() <==> m is Ok,
            m is Err ==> m == Err::<Self, ShapeError>(ShapeError::InnerDimensionMismatch),
            m matches Ok(m) ==> Self::product(self, rhs, zero, &step, &m),
    {
        if self.cols != rhs.rows {
            return Err(ShapeError::InnerDimensionMismatch);
        }
        let f = |r: usize, c: usize| -> (v: T)
            requires
                r < self.nrows(),
                c < rhs.ncols(),
            ensures
                folds_to(&step, zero, self.row_seq(r as int), rhs.col_seq(c as int), self.ncols(), v),
        { self.dot(rhs, r, c, zero, &step) };
        let m = Self::generate(self.rows, rhs.cols, f);
        assert forall|r: int, c: int| 0 <= r < m.nrows() && 0 <= c < m.ncols() implies
            folds_to(&step, zero, self.row_seq(r), rhs.col_seq(c), self.ncols(), #[trigger] m.at(r, c)) by {
            assert(f.ensures((r as usize, c as usize), m.at(r, c)));
        }
        Ok(m)
    }

    /// The `n` by `n` matrix with `one` on the diagonal and `zero` elsewhere.
    pub fn identity(n: usize, zero: T, one: T) -> (m: Self)
        requires
            n * n <= usize::MAX,
        ensures
            m.wf(),
            m.nrows() == n,
            m.ncols() == n,
            forall|r: int, c: int| 0 <= r < n && 0 <= c < n ==> #[trigger] m.at(r, c) == if r == c { one } else { zero },
    {
        let f = |r: usize, c: usize| -> (v: T)
            ensures
                v == if r == c { one } else { zero },
        {
            if r == c {
                one
            } else {
                zero
            }
        };
        let m = Self::generate(n, n, f);
        assert forall|r: int, c: int| 0 <= r < n && 0 <= c < n implies #[trigger] m.at(r, c) == if r == c { one } else { zero } by {
            assert(f.ensures((r as usize, c as usize), m.at(r, c)));
        }
        m
    }

    /// A matrix from a list of rows, all of one length.
    pub fn from_rows(rows: &Vec<Vec<T>>) -> (m: Result<Self, ShapeError>)
        ensures
            (forall|i: int| 0 <= i < rows@.len() ==> (#[trigger] rows@[i]).len() == rows@[0].len()) <==> m is Ok,
            m is Err ==> m == Err::<Self, ShapeError>(ShapeError::RaggedRows),
            m matches Ok(m) ==> {
                &&& m.wf()
                &&& m.nrows() == rows@.len()
                &&& m.ncols() == if rows@.len() == 0 { 0 } else { rows@[0].len() }
                &&& forall|r: int, c: int| 0 <= r < m.nrows() && 0 <= c < m.ncols() ==> #[trigger] m.at(r, c) == rows@[r]@[c]
            },
    {
        let n = rows.len();
        let cols: usize = if n == 0 { 0 } else { rows[0].len() };
        let mut vals: Vec<T> = Vec::new();
        let mut r: usize = 0;
        while r < n
            invariant
                n == rows@.len(),
                r <= n,
                n > 0 ==> cols == rows@[0].len(),
                forall|i: int| 0 <= i < r ==> (#[trigger] rows@[i]).len() == cols,
                vals@.len() == r * cols,
                forall|rr: int, cc: int| 0 <= rr < r && 0 <= cc < cols ==> vals@[rr * cols + cc] == #[trigger] rows@[rr]@[cc],
            decreases n - r,
        {
            let row = &rows[r];
            if row.len() != cols {
                return Err(ShapeError::RaggedRows);
            }
            let mut c: usize = 0;
            while c < cols
                invariant
                    n == rows@.len(),
                    r < n,
                    c <= cols,
                    row@ == rows@[r as int]@,
                    row@.len() == cols,
                    vals@.len() == r * cols + c,
                    forall|rr: int, cc: int| 0 <= rr < r && 0 <= cc < cols ==> vals@[rr * cols + cc] == #[trigger] rows@[rr]@[cc],
                    forall|cc: int| 0 <= cc < c ==> vals@[r * cols + cc] == #[trigger] rows@[r as int]@[cc],
                decreases cols - c,
            {
                let ghost prev = vals@;
                vals.push(row[c]);
                proof {
                    assert forall|rr: int, cc: int| 0 <= rr < r && 0 <= cc < cols implies vals@[rr * cols + cc] == #[trigger] rows@[rr]@[cc] by {
                        lemma_cell_in_bounds(rr, cc, r as int, cols as int);
                        assert(vals@[rr * cols + cc] == prev[rr * cols + cc]);
                    }
                    assert forall|cc: int| 0 <= cc < c + 1 implies vals@[r * cols + cc] == #[trigger] rows@[r as int]@[cc] by {
                        if cc < c {
                            assert(vals@[r * cols + cc] == prev[r * cols + cc]);
                        }
                    }
                }
                c = c + 1;
            }
            proof {
                assert((r + 1) * cols == r * cols + cols) by (nonlinear_arith);
            }
            r = r + 1;
        }
        let total = vals.len();
        assert(total == n * cols);
        let m = DMat { vals, rows: n, cols };
        assert forall|r: int, c: int| 0 <= r < m.nrows() && 0 <= c < m.ncols() implies #[trigger] m.at(r, c) == rows@[r]@[c] by {
            assert(vals@[r * cols + c] == rows@[r]@[c]);
        }
        Ok(m)
    }

    /// The cells of row `r`, left to right.
    pub fn row(&self, r: usize) -> (v: Vec<T>)
        requires
            self.wf(),
            r < self.nrows(),
        ensures
            v@ == self.row_seq(r as int),
    {
        let mut v: Vec<T> = Vec::with_capacity(self.cols);
        let mut c: usize = 0;
        while c < self.cols
            invariant
                self.wf(),
                r < self.nrows(),
                c <= self.ncols(),
                v@ == self.row_seq(r as int).subrange(0, c as int),
            decreases self.ncols() - c,
        {
            v.push(self.get(r, c));
            c = c + 1;
            assert(v@ =~= self.row_seq(r as int).subrange(0, c as int));
        }
        assert(v@ =~= self.row_seq(r as int));
        v
    }

    /// The cells of column `c`, top to bottom.
    pub fn col(&self, c: usize) -> (v: Vec<T>)
        requires
            self.wf(),
            c < self.ncols(),
        ensures
            v@ == self.col_seq(c as int),
    {
        let mut v: Vec<T> = Vec::with_capacity(self.rows);
        let mut r: usize = 0;
        while r < self.rows
            invariant
                self.wf(),
                c < self.ncols(),
                r <= self.nrows(),
                v@ == self.col_seq(c as int).subrange(0, r as int),
            decreases self.nrows() - r,
        {
            v.push(self.get(r, c));
            r = r + 1;
            assert(v@ =~= self.col_seq(c as int).subrange(0, r as int));
        }
        assert(v@ =~= self.col_seq(c as int));
        v
    }

    /// Replaces the cell in row `r` and column `c` by `v`.
    pub fn set(&mut self, r: usize, c: usize, v: T)
        requires
            old(self).wf(),
            r < old(self).nrows(),
            c < old(self).ncols(),
        ensures
            final(self).wf(),
            final(self).nrows() == old(self).nrows(),
            final(self).ncols() == old(self).ncols(),
            forall|i: int, j: int| 0 <= i < final(self).nrows() && 0 <= j < final(self).ncols() ==>
                #[trigger] final(self).at(i, j) == if i == r && j == c { v } else { old(self).at(i, j) },
    {
        proof {
            lemma_cell_in_bounds(r as int, c as int, self.rows as int, self.cols as int);
        }
        let k = r * self.cols + c;
        self.vals.set(k, v);
        proof {
            assert forall|i: int, j: int| 0 <= i < self.nrows() && 0 <= j < self.ncols() implies
                #[trigger] self.at(i, j) == if i == r && j == c { v } else { old(self).at(i, j) } by {
                lemma_cell_in_bounds(i, j, self.rows as int, self.cols as int);
                if i != r || j != c {
                    lemma_cell_index_distinct(i, j, r as int, c as int, self.cols as int);
                }
            }
        }
    }

    /// Exchanges rows `i` and `j`.
    pub fn swap_rows(&mut self, i: usize, j: usize)
        requires
            old(self).wf(),
            i < old(self).nrows(),
            j < old(self).nrows(),
        ensures
            final(self).wf(),
            final(self).nrows() == old(self).nrows(),
            final(self).ncols() == old(self).ncols(),
            forall|r: int, c: int| 0 <= r < final(self).nrows() && 0 <= c < final(self).ncols() ==>
                #[trigger] final(self).at(r, c) == old(self).at(if r == i { j as int } else if r == j { i as int } else { r }, c),
    {
        if i == j {
            return;
        }
        let ghost start = *self;
        let mut c: usize = 0;
        while c < self.cols
            invariant
                self.wf(),
                i != j,
                i < self.nrows(),
                j < self.nrows(),
                c <= self.ncols(),
                start.wf(),
                self.nrows() == start.nrows(),
                self.ncols() == start.ncols(),
                forall|r: int, cc: int| 0 <= r < self.nrows() && 0 <= cc < self.ncols() ==>
                    #[trigger] self.at(r, cc) == if cc < c { start.at(if r == i { j as int } else if r == j { i as int } else { r }, cc) } else { start.at(r, cc) },
            decreases self.ncols() - c,
        {
            let a = self.get(i, c);
            let b = self.get(j, c);
            self.set(i, c, b);
            self.set(j, c, a);
            c = c + 1;
        }
    }

    /// Replaces each cell by `f` of its value, its row and its column.
    pub fn mutate<F: Fn(T, usize, usize) -> T>(&mut self, f: F)
        requires
            old(self).wf(),
            forall|x: T, r: usize, c: usize| #[trigger] f.requires((x, r, c)),
        ensures
            final(self).wf(),
            final(self).nrows() == old(self).nrows(),
            final(self).ncols() == old(self).ncols(),
            forall|r: int, c: int| 0 <= r < final(self).nrows() && 0 <= c < final(self).ncols() ==>
                #[trigger] f.ensures((old(self).at(r, c), r as usize, c as usize), final(self).at(r, c)),
    {
        let ghost start = *self;
        let mut r: usize = 0;
        while r < self.rows
            invariant
                self.wf(),
                start.wf(),
                r <= self.nrows(),
                self.nrows() == start.nrows(),
                self.ncols() == start.ncols(),
                forall|x: T, r: usize, c: usize| #[trigger] f.requires((x, r, c)),
                forall|rr: int, cc: int| 0 <= rr < self.nrows() && 0 <= cc < self.ncols() ==>
                    if rr < r { f.ensures((start.at(rr, cc), rr as usize, cc as usize), #[trigger] self.at(rr, cc)) } else { self.at(rr, cc) == start.at(rr, cc) },
            decreases self.nrows() - r,
        {
            let mut c: usize = 0;
            while c < self.cols
                invariant
                    self.wf(),
                    start.wf(),
                    r < self.nrows(),
                    c <= self.ncols(),
                    self.nrows() == start.nrows(),
                    self.ncols() == start.ncols(),
                    forall|x: T, r: usize, c: usize| #[trigger] f.requires((x, r, c)),
                    forall|rr: int, cc: int| 0 <= rr < self.nrows() && 0 <= cc < self.ncols() ==>
                        if rr < r || (rr == r && cc < c) { f.ensures((start.at(rr, cc), rr as usize, cc as usize), #[trigger] self.at(rr, cc)) } else { self.at(rr, cc) == start.at(rr, cc) },
                decreases self.ncols() - c,
            {
                let x = self.get(r, c);
                let v = f(x, r, c);
                self.set(r, c, v);
                c = c + 1;
            }
            r = r + 1;
        }
    }

    /// Same row and column counts.
    pub open spec fn is_square(&self) -> bool {
        self.nrows() == self.ncols()
    }

    /// Whether the matrix is square and `is_zero` holds of every cell off the
    /// diagonal; a matrix that is not square is not diagonal.
    pub fn is_diagonal<F: Fn(T) -> bool>(&self, is_zero: F) -> (b: bool)
        requires
            self.wf(),
            forall|x: T| #[trigger] is_zero.requires((x,)),
        ensures
            b ==> self.is_square(),
            b ==> forall|r: int, c: int| 0 <= r < self.nrows() && 0 <= c < self.ncols() && r != c ==>
                #[trigger] is_zero.ensures((self.at(r, c),), true),
            !b ==> !self.is_square() || exists|r: int, c: int| 0 <= r < self.nrows() && 0 <= c < self.ncols() && r != c &&
                #[trigger] is_zero.ensures((self.at(r, c),), false),
    {
        if self.rows != self.cols {
            return false;
        }
        let mut r: usize = 0;
        while r < self.rows
            invariant
                self.wf(),
                self.is_square(),
                r <= self.nrows(),
                forall|x: T| #[trigger] is_zero.requires((x,)),
                forall|rr: int, cc: int| 0 <= rr < r && 0 <= cc < self.ncols() && rr != cc ==>
                    #[trigger] is_zero.ensures((self.at(rr, cc),), true),
            decreases self.nrows() - r,
        {
            let mut c: usize = 0;
            while c < self.cols
                invariant
                    self.wf(),
                    self.is_square(),
                    r < self.nrows(),
                    c <= self.ncols(),
                    forall|x: T| #[trigger] is_zero.requires((x,)),
                    forall|rr: int, cc: int| 0 <= rr < self.nrows() && 0 <= cc < self.ncols() && rr != cc && (rr < r || (rr == r && cc < c)) ==>
                        #[trigger] is_zero.ensures((self.at(rr, cc),), true),
                decreases self.ncols() - c,
            {
                if r != c && !is_zero(self.get(r, c)) {
                    return false;
                }
                c = c + 1;
            }
            r = r + 1;
        }
        true
    }

    /// Whether the matrix is square and `eq` holds of the cells in row `r`,
    /// column `c` and in row `c`, column `r`, for every `r` and `c`; that is,
    /// whether it equals its transpose. A matrix that is not square is not
    /// symmetric.
    pub fn is_symmetric<F: Fn(T, T) -> bool>(&self, eq: F) -> (b: bool)
        requires
            self.wf(),
            forall|x: T, y: T| #[trigger] eq.requires((x, y)),
        ensures
            b ==> self.is_square(),
            b ==> forall|r: int, c: int| 0 <= r < self.nrows() && 0 <= c < self.ncols() ==>
                #[trigger] eq.ensures((self.at(r, c), self.at(c, r)), true),
            !b ==> !self.is_square() || exists|r: int, c: int| 0 <= r < self.nrows() && 0 <= c < self.ncols() &&
                #[trigger] eq.ensures((self.at(r, c), self.at(c, r)), false),
    {
        if self.rows != self.cols {
            return false;
        }
        let mut r: usize = 0;
        while r < self.rows
            invariant
                self.wf(),
                self.is_square(),
                r <= self.nrows(),
                forall|x: T, y: T| #[trigger] eq.requires((x, y)),
                forall|rr: int, cc: int| 0 <= rr < r && 0 <= cc < self.ncols() ==>
                    #[trigger] eq.ensures((self.at(rr, cc), self.at(cc, rr)), true),
            decreases self.nrows() - r,
        {
            let mut c: usize = 0;
            while c < self.cols
                invariant
                    self.wf(),
                    self.is_square(),
                    r < self.nrows(),
                    c <= self.ncols(),
                    forall|x: T, y: T| #[trigger] eq.requires((x, y)),
                    forall|rr: int, cc: int| 0 <= rr < self.nrows() && 0 <= cc < self.ncols() && (rr < r || (rr == r && cc < c)) ==>
                        #[trigger] eq.ensures((self.at(rr, cc), self.at(cc, rr)), true),
                decreases self.ncols() - c,
            {
                if !eq(self.get(r, c), self.get(c, r)) {
                    return false;
                }
                c = c + 1;
            }
            r = r + 1;
        }
        true
    }

    /// Whether both matrices have the same shape and `eq` holds of every pair
    /// of cells at the same place.
    pub fn equals<F: Fn(T, T) -> bool>(&self, other: &Self, eq: F) -> (b: bool)
        requires
            self.wf(),
            other.wf(),
            forall|x: T, y: T| #[trigger] eq.requires((x, y)),
        ensures
            b ==> self.nrows() == other.nrows() && self.ncols() == other.ncols(),
            b ==> forall|r: int, c: int| 0 <= r < self.nrows() && 0 <= c < self.ncols() ==>
                #[trigger] eq.ensures((self.at(r, c), other.at(r, c)), true),
            !b ==> self.nrows() != other.nrows() || self.ncols() != other.ncols() || exists|r: int, c: int|
                0 <= r < self.nrows() && 0 <= c < self.ncols() && #[trigger] eq.ensures((self.at(r, c), other.at(r, c)), false),
    {
        if self.rows != other.rows || self.cols != other.cols {
            return false;
        }
        let n = self.vals.len();
        let mut k: usize = 0;
        while k < n
            invariant
                self.wf(),
                other.wf(),
                self.nrows() == other.nrows(),
                self.ncols() == other.ncols(),
                n == self.cells().len(),
                n == other.cells().len(),
                k <= n,
                forall|x: T, y: T| #[trigger] eq.requires((x, y)),
                forall|i: int| 0 <= i < k ==> #[trigger] eq.ensures((self.cells()[i], other.cells()[i]), true),
            decreases n - k,
        {
            if !eq(self.vals[k], other.vals[k]) {
                proof {
                    let r = (k as int) / (self.cols as int);
                    let c = (k as int) % (self.cols as int);
                    lemma_cell_of_index(k as int, self.nrows() as int, self.ncols() as int);
                    assert(eq.ensures((self.at(r, c), other.at(r, c)), false));
                }
                return false;
            }
            k = k + 1;
        }
        assert forall|r: int, c: int| 0 <= r < self.nrows() && 0 <= c < self.ncols() implies
            #[trigger] eq.ensures((self.at(r, c), other.at(r, c)), true) by {
            lemma_cell_in_bounds(r, c, self.nrows() as int, self.ncols() as int);
            assert(eq.ensures((self.cells()[r * self.ncols() + c], other.cells()[r * self.ncols() + c]), true));
        }
        true
    }
}

/// `acc + x * y` in the caller's arithmetic: one step of a dot product.
pub fn dot_step<T: Scalar>(acc: T, x: T, y: T) -> (r: T)
    ensures
        exists|p: T| call_ensures(T::times, (&x, &y), p) && call_ensures(T::plus, (&acc, &p), r),
{
    acc.plus(&x.times(&y))
}

impl<T: Scalar> DMat<T> {
    /// The cell in row `r` and column `c` of the identity built from `zero` and `one`.
    pub open spec fn identity_cell(r: int, c: int, zero: T, one: T) -> T {
        if r == c { one } else { zero }
    }

    /// `outcome` is what comparing the square matrix `m` with the identity
    /// gives: with `z` and `o` values of the arithmetic's `zero` and `one`,
    /// `same` held between every cell and its identity cell, or it failed on one.
    pub open spec fn reads_as_identity(m: &Self, outcome: bool) -> bool {
        exists|z: T, o: T| {
            &&& call_ensures(T::zero, (), z)
            &&& call_ensures(T::one, (), o)
            &&& outcome ==> forall|r: int, c: int| 0 <= r < m.nrows() && 0 <= c < m.ncols() ==>
                #[trigger] call_ensures(T::same, (&m.at(r, c), &Self::identity_cell(r, c, z, o)), true)
            &&& !outcome ==> exists|r: int, c: int| 0 <= r < m.nrows() && 0 <= c < m.ncols() &&
                #[trigger] call_ensures(T::same, (&m.at(r, c), &Self::identity_cell(r, c, z, o)), false)
        }
    }

    /// `outcome` is what comparing the square matrix `m` times its transpose
    /// with the identity gives, the product summed by `dot_step` from a value
    /// of the arithmetic's zero.
    pub open spec fn reads_as_orthogonal(m: &Self, outcome: bool) -> bool {
        exists|z: T, t: Self, p: Self| {
            &&& call_ensures(T::zero, (), z)
            &&& Self::transposed(m, &t)
            &&& Self::product(m, &t, z, &dot_step::<T>, &p)
            &&& Self::reads_as_identity(&p, outcome)
        }
    }

    /// `outcome` is what comparing the square matrix `m` with the identity
    /// scaled by its first cell gives: `scaled` is the identity of the
    /// arithmetic's zero and one with each cell times that first cell, and
    /// `same` held on every cell or failed on one.
    pub open spec fn reads_as_scalar_identity_multiple(m: &Self, outcome: bool) -> bool {
        exists|z: T, o: T, id: Self, scaled: Self| {
            &&& call_ensures(T::zero, (), z)
            &&& call_ensures(T::one, (), o)
            &&& id.wf() && id.nrows() == m.nrows() && id.ncols() == m.ncols()
            &&& forall|r: int, c: int| 0 <= r < id.nrows() && 0 <= c < id.ncols() ==>
                #[trigger] id.at(r, c) == Self::identity_cell(r, c, z, o)
            &&& scaled.wf() && scaled.nrows() == m.nrows() && scaled.ncols() == m.ncols()
            &&& forall|r: int, c: int| 0 <= r < m.nrows() && 0 <= c < m.ncols() ==>
                call_ensures(T::times, (&id.at(r, c), &m.at(0, 0)), #[trigger] scaled.at(r, c))
            &&& outcome ==> forall|r: int, c: int| 0 <= r < m.nrows() && 0 <= c < m.ncols() ==>
                #[trigger] call_ensures(T::same, (&m.at(r, c), &scaled.at(r, c)), true)
            &&& !outcome ==> exists|r: int, c: int| 0 <= r < m.nrows() && 0 <= c < m.ncols() &&
                #[trigger] call_ensures(T::same, (&m.at(r, c), &scaled.at(r, c)), false)
        }
    }

    /// Whether the matrix is square and exactly the identity: `same` holds
    /// between each cell and the arithmetic's `one` on the diagonal, its
    /// `zero` elsewhere.
    pub fn is_identity(&self) -> (b: bool)
        requires
            self.wf(),
        ensures
            !self.is_square() ==> !b,
            self.is_square() ==> Self::reads_as_identity(self, b),
    {
        if self.rows != self.cols {
            return false;
        }
        let n = self.rows;
        let zero = T::zero();
        let one = T::one();
        let mut r: usize = 0;
        while r < n
            invariant
                self.wf(),
                self.is_square(),
                n == self.nrows(),
                call_ensures(T::zero, (), zero),
                call_ensures(T::one, (), one),
                forall|rr: int, cc: int| 0 <= rr < r && 0 <= cc < n ==>
                    #[trigger] call_ensures(T::same, (&self.at(rr, cc), &Self::identity_cell(rr, cc, zero, one)), true),
            decreases n - r,
        {
            let mut c: usize = 0;
            while c < n
                invariant
                    self.wf(),
                    self.is_square(),
                    n == self.nrows(),
                    r < n,
                    call_ensures(T::zero, (), zero),
                    call_ensures(T::one, (), one),
                    forall|rr: int, cc: int| 0 <= rr < n && 0 <= cc < n && (rr < r || (rr == r && cc < c)) ==>
                        #[trigger] call_ensures(T::same, (&self.at(rr, cc), &Self::identity_cell(rr, cc, zero, one)), true),
                decreases n - c,
            {
                let expected = if r == c { one } else { zero };
                if !self.get(r, c).same(&expected) {
                    assert(call_ensures(T::same, (&self.at(r as int, c as int), &Self::identity_cell(r as int, c as int, zero, one)), false));
                    assert(Self::reads_as_identity(self, false));
                    return false;
                }
                c = c + 1;
            }
            r = r + 1;
        }
        assert(Self::reads_as_identity(self, true));
        true
    }

    /// Whether the matrix is square and its product with its transpose, each
    /// cell summed left to right by `dot_step` from the arithmetic's zero, is
    /// exactly the identity.
    pub fn is_orthogonal(&self) -> (b: bool)
        requires
            self.wf(),
        ensures
            !self.is_square() ==> !b,
            self.is_square() ==> Self::reads_as_orthogonal(self, b),
    {
        if self.rows != self.cols {
            return false;
        }
        let t = self.transpose();
        let z = T::zero();
        proof {
            assert(self.nrows() * t.ncols() <= usize::MAX);
        }
        match self.mul_with(&t, z, dot_step::<T>) {
            Ok(p) => p.is_identity(),
            Err(_) => false,
        }
    }

    /// Whether the matrix is square and exactly the identity scaled by its
    /// cell in the first row and column.
    pub fn is_scalar_identity_multiple(&self) -> (b: bool)
        requires
            self.wf(),
            self.nrows() > 0,
            self.ncols() > 0,
        ensures
            !self.is_square() ==> !b,
            self.is_square() ==> Self::reads_as_scalar_identity_multiple(self, b),
    {
        if self.rows != self.cols {
            return false;
        }
        let s = self.get(0, 0);
        let z = T::zero();
        let o = T::one();
        let id = DMat::identity(self.rows, z, o);
        let scale = |x: T| -> (y: T)
            ensures
                call_ensures(T::times, (&x, &s), y),
        { x.times(&s) };
        let scaled = id.map(scale);
        let same = |x: T, y: T| -> (e: bool)
            ensures
                call_ensures(T::same, (&x, &y), e),
        { x.same(&y) };
        let b = self.equals(&scaled, same);
        proof {
            assert forall|r: int, c: int| 0 <= r < self.nrows() && 0 <= c < self.ncols() implies
                call_ensures(T::times, (&id.at(r, c), &self.at(0, 0)), #[trigger] scaled.at(r, c)) by {
                assert(scale.ensures((id.at(r, c),), scaled.at(r, c)));
            }
            if b {
                assert forall|r: int, c: int| 0 <= r < self.nrows() && 0 <= c < self.ncols() implies
                    #[trigger] call_ensures(T::same, (&self.at(r, c), &scaled.at(r, c)), true) by {
                    assert(same.ensures((self.at(r, c), scaled.at(r, c)), true));
                }
            } else {
                let (r, c) = choose|r: int, c: int| 0 <= r < self.nrows() && 0 <= c < self.ncols() && #[trigger] same.ensures((self.at(r, c), scaled.at(r, c)), false);
                assert(call_ensures(T::same, (&self.at(r, c), &scaled.at(r, c)), false));
            }
        }
        b
    }
}

/// Transposing a matrix twice gives the matrix back.
pub proof fn lemma_transpose_twice<T: Copy>(a: &DMat<T>, t: &DMat<T>, tt: &DMat<T>)
    requires
        a.wf(),
        DMat::transposed(a, t),
        DMat::transposed(t, tt),
    ensures
        tt.same(a),
{
    assert forall|r: int, c: int| 0 <= r < tt.nrows() && 0 <= c < tt.ncols() implies #[trigger] tt.at(r, c) == a.at(r, c) by {
        assert(tt.at(r, c) == t.at(c, r));
    }
    tt.lemma_same_from_cells(a);
}

/// Combining cell by cell through an operation that gives one result whatever
/// the order of its operands does not depend on the order of the matrices.
pub proof fn lemma_combine_commutes<T: Copy, F: Fn(T, T) -> T>(a: &DMat<T>, b: &DMat<T>, op: &F, ab: &DMat<T>, ba: &DMat<T>)
    requires
        a.wf(),
        b.wf(),
        a.nrows() == b.nrows(),
        a.ncols() == b.ncols(),
        forall|x: T, y: T, u: T, v: T| #[trigger] op.ensures((x, y), u) && #[trigger] op.ensures((y, x), v) ==> u == v,
        DMat::combined(a, b, op, ab),
        DMat::combined(b, a, op, ba),
    ensures
        ab.same(ba),
{
    assert forall|r: int, c: int| 0 <= r < ab.nrows() && 0 <= c < ab.ncols() implies #[trigger] ab.at(r, c) == ba.at(r, c) by {
        assert(op.ensures((a.at(r, c), b.at(r, c)), ab.at(r, c)));
        assert(op.ensures((b.at(r, c), a.at(r, c)), ba.at(r, c)));
    }
    ab.lemma_same_from_cells(ba);
}

/// Combining cell by cell through an associative operation is associative:
/// `(a op b) op c` and `a op (b op c)` are the same matrix.
pub proof fn lemma_combine_associates<T: Copy, F: Fn(T, T) -> T>(
    a: &DMat<T>,
    b: &DMat<T>,
    c: &DMat<T>,
    op: &F,
    ab: &DMat<T>,
    ab_c: &DMat<T>,
    bc: &DMat<T>,
    a_bc: &DMat<T>,
)
    requires
        a.wf(),
        b.wf(),
        c.wf(),
        a.nrows() == b.nrows() && b.nrows() == c.nrows(),
        a.ncols() == b.ncols() && b.ncols() == c.ncols(),
        forall|x: T, y: T, z: T, xy: T, yz: T, l: T, r: T|
            #[trigger] op.ensures((x, y), xy) && #[trigger] op.ensures((xy, z), l) && #[trigger] op.ensures((y, z), yz) && #[trigger] op.ensures((x, yz), r) ==> l == r,
        DMat::combined(a, b, op, ab),
        DMat::combined(ab, c, op, ab_c),
        DMat::combined(b, c, op, bc),
        DMat::combined(a, bc, op, a_bc),
    ensures
        ab_c.same(a_bc),
{
    assert forall|r: int, q: int| 0 <= r < ab_c.nrows() && 0 <= q < ab_c.ncols() implies #[trigger] ab_c.at(r, q) == a_bc.at(r, q) by {
        assert(op.ensures((a.at(r, q), b.at(r, q)), ab.at(r, q)));
        assert(op.ensures((ab.at(r, q), c.at(r, q)), ab_c.at(r, q)));
        assert(op.ensures((b.at(r, q), c.at(r, q)), bc.at(r, q)));
        assert(op.ensures((a.at(r, q), bc.at(r, q)), a_bc.at(r, q)));
    }
    ab_c.lemma_same_from_cells(a_bc);
}

} // verus!
