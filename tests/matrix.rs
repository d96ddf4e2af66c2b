use mat_rs::dmat::DMat;
use mat_rs::error::ShapeError;
use mat_rs::mat::Mat;
use mat_rs::scalar::Scalar;

#[derive(Clone, Copy, Debug, PartialEq)]
struct F(f64);

impl Scalar for F {
    fn zero() -> Self {
        F(0.0)
    }
    fn one() -> Self {
        F(1.0)
    }
    fn is_zero(&self) -> bool {
        self.0 == 0.0
    }
    fn abs_gt(&self, other: &Self) -> bool {
        self.0.abs() > other.0.abs()
    }
    fn same(&self, other: &Self) -> bool {
        self.0 == other.0
    }
    fn plus(&self, other: &Self) -> Self {
        F(self.0 + other.0)
    }
    fn minus(&self, other: &Self) -> Self {
        F(self.0 - other.0)
    }
    fn times(&self, other: &Self) -> Self {
        F(self.0 * other.0)
    }
    fn over(&self, other: &Self) -> Self {
        F(self.0 / other.0)
    }
    fn negated(&self) -> Self {
        F(-self.0)
    }
}

fn dmat(rows: &[&[f64]]) -> DMat<f64> {
    let rows: Vec<Vec<f64>> = rows.iter().map(|r| r.to_vec()).collect();
    DMat::from_rows(&rows).unwrap()
}

fn fdmat(rows: &[&[f64]]) -> DMat<F> {
    let rows: Vec<Vec<F>> = rows.iter().map(|r| r.iter().map(|x| F(*x)).collect()).collect();
    DMat::from_rows(&rows).unwrap()
}

fn mat2(rows: [[f64; 2]; 2]) -> Mat<F, 2, 2> {
    Mat::generate(|r, c| F(rows[r][c]))
}

fn mat3(rows: [[f64; 3]; 3]) -> Mat<F, 3, 3> {
    Mat::generate(|r, c| F(rows[r][c]))
}

fn cells<const R: usize, const C: usize>(m: &Mat<F, R, C>) -> Vec<Vec<f64>> {
    (0..R).map(|r| (0..C).map(|c| m.get(r, c).0).collect()).collect()
}

fn dcells(m: &DMat<f64>) -> Vec<Vec<f64>> {
    (0..m.rows()).map(|r| m.row(r)).collect()
}

fn dot_step(acc: f64, x: f64, y: f64) -> f64 {
    acc + x * y
}

#[test]
fn determinant_of_identity_is_one() {
    assert_eq!(Mat::<F, 1, 1>::identity(F(0.0), F(1.0)).determinant(), F(1.0));
    assert_eq!(Mat::<F, 2, 2>::identity(F(0.0), F(1.0)).determinant(), F(1.0));
    assert_eq!(Mat::<F, 3, 3>::identity(F(0.0), F(1.0)).determinant(), F(1.0));
    assert_eq!(Mat::<F, 5, 5>::identity(F(0.0), F(1.0)).determinant(), F(1.0));
}

#[test]
fn swapping_two_rows_negates_the_determinant() {
    let a = mat3([[1.0, -6.0, -7.0], [1.0, -4.0, 7.0], [-1.0, -3.0, -6.0]]);
    let b = mat3([[1.0, -4.0, 7.0], [1.0, -6.0, -7.0], [-1.0, -3.0, -6.0]]);
    assert_eq!(a.determinant(), F(100.0));
    assert_eq!(b.determinant(), F(-100.0));
    let c = mat2([[4.0, 7.0], [2.0, 6.0]]);
    let d = mat2([[2.0, 6.0], [4.0, 7.0]]);
    assert_eq!(c.determinant(), F(10.0));
    assert_eq!(d.determinant(), F(-10.0));
}

#[test]
fn transpose_twice_is_identity_map() {
    let a = dmat(&[&[1.0, 2.0, 3.0], &[4.0, 5.0, 6.0]]);
    let t = a.transpose();
    assert_eq!(t.rows(), 3);
    assert_eq!(t.cols(), 2);
    assert_eq!(dcells(&t), vec![vec![1.0, 4.0], vec![2.0, 5.0], vec![3.0, 6.0]]);
    assert_eq!(dcells(&t.transpose()), dcells(&a));
    let m = mat2([[1.0, 2.0], [3.0, 4.0]]);
    assert_eq!(cells(&m.transpose()), vec![vec![1.0, 3.0], vec![2.0, 4.0]]);
    assert_eq!(cells(&m.transpose().transpose()), cells(&m));
}

#[test]
fn addition_commutes_and_associates_on_exact_values() {
    let a = dmat(&[&[1.0, 2.0], &[3.0, 4.0]]);
    let b = dmat(&[&[0.5, -2.0], &[8.0, 0.25]]);
    let c = dmat(&[&[-1.0, 6.0], &[2.0, 1.5]]);
    let add = |x: f64, y: f64| x + y;
    let ab = a.zip_with(&b, add).unwrap();
    let ba = b.zip_with(&a, add).unwrap();
    assert_eq!(dcells(&ab), vec![vec![1.5, 0.0], vec![11.0, 4.25]]);
    assert_eq!(dcells(&ab), dcells(&ba));
    let ab_c = ab.zip_with(&c, add).unwrap();
    let a_bc = a.zip_with(&b.zip_with(&c, add).unwrap(), add).unwrap();
    assert_eq!(dcells(&ab_c), dcells(&a_bc));
    assert_eq!(dcells(&ab_c), vec![vec![0.5, 6.0], vec![13.0, 5.75]]);
}

#[test]
fn subtraction_is_cellwise() {
    let a = dmat(&[&[1.0, 2.0], &[3.0, 4.0]]);
    let b = dmat(&[&[4.0, 3.0], &[2.0, 1.0]]);
    let d = a.zip_with(&b, |x, y| x - y).unwrap();
    assert_eq!(dcells(&d), vec![vec![-3.0, -1.0], vec![1.0, 3.0]]);
}

#[test]
fn elementwise_shape_mismatch_is_reported() {
    let a = dmat(&[&[1.0, 2.0], &[3.0, 4.0]]);
    let b = dmat(&[&[1.0, 2.0, 3.0]]);
    assert_eq!(a.zip_with(&b, |x, y| x + y).unwrap_err(), ShapeError::ShapeMismatch);
}

#[test]
fn product_inner_dimension_mismatch_is_reported() {
    let a = dmat(&[&[1.0, 2.0], &[3.0, 4.0]]);
    let b = dmat(&[&[1.0, 2.0, 3.0]]);
    assert_eq!(a.mul_with(&b, 0.0, dot_step).unwrap_err(), ShapeError::InnerDimensionMismatch);
}

#[test]
fn ragged_literal_is_reported() {
    let rows = vec![vec![1.0, 2.0], vec![3.0]];
    assert_eq!(DMat::from_rows(&rows).unwrap_err(), ShapeError::RaggedRows);
}

#[test]
fn inverse_times_matrix_is_identity() {
    let a = mat2([[2.0, 0.0], [0.0, 4.0]]);
    let inv = a.inverse().unwrap();
    assert_eq!(cells(&inv), vec![vec![0.5, 0.0], vec![0.0, 0.25]]);
    let step = |acc: F, x: F, y: F| acc.plus(&x.times(&y));
    let p = a.mul_with(&inv, F(0.0), step);
    assert_eq!(cells(&p), vec![vec![1.0, 0.0], vec![0.0, 1.0]]);
    let b = mat2([[4.0, 7.0], [2.0, 6.0]]);
    assert_eq!(cells(&b.inverse().unwrap()), vec![vec![0.6000000000000001, -0.7000000000000001], vec![-0.2, 0.4]]);
}

#[test]
fn inverse_is_absent_when_determinant_is_zero() {
    let a = mat3([[1.0, 2.0, 3.0], [2.0, 4.0, 6.0], [0.0, 1.0, 1.0]]);
    assert_eq!(a.determinant(), F(0.0));
    assert!(a.inverse().is_none());
}

#[test]
fn determinant_of_three_by_three() {
    let a = mat3([[7.0, -4.0, 2.0], [3.0, 1.0, -5.0], [2.0, 2.0, -5.0]]);
    let d = a.determinant().0;
    // Cofactor expansion gives 23; the pivoted elimination in doubles ends
    // one unit in the last place short of it.
    assert_eq!(d, 22.99999999999999);
    assert!((d - 23.0).abs() < 1e-12);
    let b = mat3([[-1.0, -1.0, -1.0], [4.0, 5.0, -3.0], [-1.0, -6.0, 3.0]]);
    assert_eq!(b.determinant(), F(31.0));
}

#[test]
fn determinant_of_four_by_four() {
    let a: Mat<F, 4, 4> = Mat::from_dmat(fdmat(&[
        &[2.0, 3.0, 3.0, 1.0],
        &[1.0, 5.0, 4.0, 3.0],
        &[4.0, 6.0, 8.0, 5.0],
        &[-2.0, -3.0, -3.0, 4.0],
    ]))
    .unwrap();
    assert_eq!(a.determinant(), F(70.0));
}

#[test]
fn product_with_identity_keeps_matrix() {
    let a = dmat(&[&[1.0, 2.0], &[3.0, 4.0]]);
    let i = DMat::identity(2, 0.0, 1.0);
    let p = a.mul_with(&i, 0.0, dot_step).unwrap();
    assert_eq!(dcells(&p), vec![vec![1.0, 2.0], vec![3.0, 4.0]]);
    let m = mat2([[1.0, 2.0], [3.0, 4.0]]);
    let step = |acc: F, x: F, y: F| acc.plus(&x.times(&y));
    let q = m.mul_with(&Mat::identity(F(0.0), F(1.0)), F(0.0), step);
    assert_eq!(cells(&q), vec![vec![1.0, 2.0], vec![3.0, 4.0]]);
}

#[test]
fn product_of_rectangular_matrices() {
    let a = dmat(&[&[1.0, 2.0, 3.0], &[4.0, 5.0, 6.0]]);
    let b = dmat(&[&[7.0, 8.0], &[9.0, 10.0], &[11.0, 12.0]]);
    let p = a.mul_with(&b, 0.0, dot_step).unwrap();
    assert_eq!(p.rows(), 2);
    assert_eq!(p.cols(), 2);
    assert_eq!(dcells(&p), vec![vec![58.0, 64.0], vec![139.0, 154.0]]);
}

#[test]
fn exchange_matrix_predicates_and_inverse() {
    let a = mat2([[0.0, 1.0], [1.0, 0.0]]);
    assert!(a.is_orthogonal());
    assert!(a.is_symmetric(|x, y| x.0 == y.0));
    assert!(!a.is_diagonal(|x| x.0 == 0.0));
    assert_eq!(cells(&a.inverse().unwrap()), cells(&a));
    assert_eq!(a.determinant(), F(-1.0));
}

#[test]
fn zero_row_is_singular() {
    let a = mat2([[1.0, 2.0], [0.0, 0.0]]);
    assert_eq!(a.determinant(), F(0.0));
    assert!(a.inverse().is_none());
    assert!(a.reduced_row_echelon_form().is_none());
}

#[test]
fn reduced_form_zeroes_below_pivots_only() {
    let a = mat2([[2.0, 1.0], [4.0, 3.0]]);
    let r = a.reduced_row_echelon_form().unwrap();
    assert_eq!(cells(&r), vec![vec![4.0, 3.0], vec![0.0, -0.5]]);
}

#[test]
fn pivot_ties_take_the_first_row() {
    let a = mat2([[-3.0, 1.0], [3.0, 2.0]]);
    let r = a.reduced_row_echelon_form().unwrap();
    assert_eq!(cells(&r), vec![vec![-3.0, 1.0], vec![0.0, 3.0]]);
    assert_eq!(a.determinant(), F(-9.0));
}

#[test]
fn structural_predicates_on_dynamic_matrices() {
    let d = dmat(&[&[2.0, 0.0], &[0.0, 3.0]]);
    assert!(d.is_diagonal(|x| x == 0.0));
    assert!(d.is_symmetric(|x, y| x == y));
    let s = dmat(&[&[1.0, 2.0], &[3.0, 1.0]]);
    assert!(!s.is_symmetric(|x, y| x == y));
    let wide = dmat(&[&[0.0, 0.0, 0.0]]);
    assert!(!wide.is_diagonal(|x| x == 0.0));
    assert!(!wide.is_symmetric(|x, y| x == y));
    let f = fdmat(&[&[5.0, 0.0], &[0.0, 5.0]]);
    assert!(f.is_scalar_identity_multiple());
    assert!(!fdmat(&[&[5.0, 0.0], &[0.0, 4.0]]).is_scalar_identity_multiple());
    assert!(!fdmat(&[&[5.0, 0.0, 0.0]]).is_scalar_identity_multiple());
    assert!(!fdmat(&[&[2.0, 0.0], &[0.0, 1.0]]).is_orthogonal());
    assert!(fdmat(&[&[0.0, 1.0], &[1.0, 0.0]]).is_orthogonal());
    assert!(!fdmat(&[&[0.0, 1.0, 0.0]]).is_orthogonal());
    let m = mat2([[3.0, 0.0], [0.0, 3.0]]);
    assert!(m.is_scalar_identity_multiple());
    assert!(m.is_diagonal(|x| x.0 == 0.0));
}

#[test]
fn construction_and_access() {
    let z = DMat::zero(2, 3, 0.0);
    assert_eq!(dcells(&z), vec![vec![0.0; 3]; 2]);
    let g = DMat::generate(2, 3, |r, c| (r * 10 + c) as f64);
    assert_eq!(dcells(&g), vec![vec![0.0, 1.0, 2.0], vec![10.0, 11.0, 12.0]]);
    assert_eq!(g.get(1, 2), 12.0);
    assert_eq!(g.col(1), vec![1.0, 11.0]);
    let i = DMat::identity(3, 0.0, 1.0);
    assert_eq!(dcells(&i), vec![vec![1.0, 0.0, 0.0], vec![0.0, 1.0, 0.0], vec![0.0, 0.0, 1.0]]);
    let m = Mat::<f64, 2, 3>::generate(|r, c| (r + c) as f64);
    assert_eq!(m.row(1), vec![1.0, 2.0, 3.0]);
    assert_eq!(m.col(2), vec![2.0, 3.0]);
    assert!(Mat::<f64, 3, 2>::from_dmat(g.duplicate()).is_none());
    assert_eq!(Mat::<f64, 2, 2>::zero(0.0).get(1, 1), 0.0);
}

#[test]
fn scaling_and_in_place_updates() {
    let a = dmat(&[&[1.0, 2.0], &[3.0, 4.0]]);
    let doubled = a.map(|x| x * 2.0);
    assert_eq!(dcells(&doubled), vec![vec![2.0, 4.0], vec![6.0, 8.0]]);
    let halved = a.map(|x| x / 2.0);
    assert_eq!(dcells(&halved), vec![vec![0.5, 1.0], vec![1.5, 2.0]]);
    let by_zero = a.map(|x| x / 0.0);
    assert_eq!(by_zero.get(0, 0), f64::INFINITY);
    let mut b = a.duplicate();
    b.mutate(|x, r, c| x + (r * 2 + c) as f64);
    assert_eq!(dcells(&b), vec![vec![1.0, 3.0], vec![5.0, 7.0]]);
    b.set(0, 1, -1.0);
    assert_eq!(b.get(0, 1), -1.0);
    b.swap_rows(0, 1);
    assert_eq!(dcells(&b), vec![vec![5.0, 7.0], vec![1.0, -1.0]]);
    assert!(a.equals(&dmat(&[&[1.0, 2.0], &[3.0, 4.0]]), |x, y| x == y));
    assert!(!a.equals(&b, |x, y| x == y));
    let m = mat2([[1.0, 2.0], [3.0, 4.0]]);
    let s = m.zip_with(&m, |x, y| x.plus(&y)).map(|x| x.negated());
    assert_eq!(cells(&s), vec![vec![-2.0, -4.0], vec![-6.0, -8.0]]);
}
