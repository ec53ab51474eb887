use symbolica::matrix::{CompareOp, ExceptionKind, MatrixError, PythonMatrix, ScalarOrMatrix};
use symbolica::rational::Rational;

fn rint(n: i64) -> Rational {
    Rational::from_int(n)
}

fn frac(n: i64, d: i64) -> Rational {
    Rational::new(n, d).unwrap()
}

fn entries(m: &PythonMatrix) -> Vec<(i64, i64)> {
    m.matrix.data.iter().map(|r| (r.num, r.den)).collect()
}

fn ints(v: &[i64]) -> Vec<(i64, i64)> {
    v.iter().map(|n| (*n, 1)).collect()
}

fn mat(nrows: usize, ncols: usize, v: Vec<Rational>) -> PythonMatrix {
    assert_eq!(v.len(), nrows * ncols);
    let mut rows: Vec<Vec<Rational>> = Vec::new();
    for (k, x) in v.into_iter().enumerate() {
        if k % ncols == 0 {
            rows.push(Vec::new());
        }
        rows.last_mut().unwrap().push(x);
    }
    PythonMatrix::from_nested(rows).unwrap()
}

/// The 2x2 matrix [[a, b], [c, d]].
fn m2(a: i64, b: i64, c: i64, d: i64) -> PythonMatrix {
    mat(2, 2, vec![rint(a), rint(b), rint(c), rint(d)])
}

#[test]
fn new_makes_a_zero_matrix() {
    let m = PythonMatrix::new(2, 3).unwrap();
    assert_eq!(m.nrows(), 2);
    assert_eq!(m.ncols(), 3);
    assert!(m.is_zero());
    assert_eq!(PythonMatrix::new(0, 3).err(), Some(MatrixError::EmptyMatrix));
    assert_eq!(PythonMatrix::new(2, 0).err(), Some(MatrixError::EmptyMatrix));
}

#[test]
fn identity_and_eye_are_diagonal() {
    let i = PythonMatrix::identity(3).unwrap();
    assert!(i.is_diagonal());
    assert_eq!(entries(&i), ints(&[1, 0, 0, 0, 1, 0, 0, 0, 1]));
    let e = PythonMatrix::eye(vec![rint(2), rint(5)]).unwrap();
    assert_eq!(entries(&e), ints(&[2, 0, 0, 5]));
    assert!(e.is_diagonal());
    assert_eq!(PythonMatrix::identity(0).err(), Some(MatrixError::EmptyMatrix));
    assert_eq!(PythonMatrix::eye(vec![]).err(), Some(MatrixError::EmptyDiagonal));
}

#[test]
fn vec_makes_a_column() {
    let v = PythonMatrix::vec(vec![rint(1), rint(2), rint(3)]).unwrap();
    assert_eq!(v.nrows(), 3);
    assert_eq!(v.ncols(), 1);
    assert_eq!(PythonMatrix::vec(vec![]).err(), Some(MatrixError::EmptyMatrix));
}

#[test]
fn from_linear_checks_the_shape() {
    let e = PythonMatrix::from_linear(2, 2, vec![rint(1), rint(2), rint(3)]).err();
    assert_eq!(e, Some(MatrixError::InvalidShape { entries: 3, nrows: 2, ncols: 2 }));
    assert_eq!(PythonMatrix::from_linear(1, 1, vec![]).err(), Some(MatrixError::EmptyMatrix));
}

#[test]
fn from_linear_gives_a_zeroed_matrix_of_the_shape() {
    let m = PythonMatrix::from_linear(2, 3, vec![rint(1), rint(2), rint(3), rint(4), rint(5), rint(6)]).unwrap();
    assert_eq!(m.nrows(), 2);
    assert_eq!(m.ncols(), 3);
    assert!(m.is_zero());
    assert_eq!(entries(&m), ints(&[0, 0, 0, 0, 0, 0]));
}

#[test]
fn from_nested_checks_rectangularity() {
    let m = PythonMatrix::from_nested(vec![vec![rint(1), rint(2)], vec![rint(3), rint(4)]]).unwrap();
    assert_eq!(entries(&m), ints(&[1, 2, 3, 4]));
    let bad = PythonMatrix::from_nested(vec![vec![rint(1), rint(2)], vec![rint(3)]]).err();
    assert_eq!(bad, Some(MatrixError::NotRectangular));
    assert_eq!(PythonMatrix::from_nested(vec![]).err(), Some(MatrixError::EmptyMatrix));
}

#[test]
fn transpose_swaps_rows_and_columns() {
    let m = mat(2, 3, vec![rint(1), rint(2), rint(3), rint(4), rint(5), rint(6)]);
    let t = m.transpose();
    assert_eq!(t.nrows(), 3);
    assert_eq!(t.ncols(), 2);
    assert_eq!(entries(&t), ints(&[1, 4, 2, 5, 3, 6]));
    let tt = t.transpose();
    assert_eq!(entries(&tt), entries(&m));
}

#[test]
fn swap_rows_and_cols() {
    let mut m = m2(1, 2, 3, 4);
    m.swap_rows(0, 1, 0).unwrap();
    assert_eq!(entries(&m), ints(&[3, 4, 1, 2]));
    m.swap_rows(0, 1, 1).unwrap();
    assert_eq!(entries(&m), ints(&[3, 2, 1, 4]));
    m.swap_cols(0, 1).unwrap();
    assert_eq!(entries(&m), ints(&[2, 3, 4, 1]));
    m.swap_cols(0, 1).unwrap();
    assert_eq!(entries(&m), ints(&[3, 2, 1, 4]));
    assert_eq!(m.swap_rows(0, 2, 0), Err(MatrixError::RowIndexOutOfBounds));
    assert_eq!(m.swap_rows(0, 1, 2), Err(MatrixError::StartIndexOutOfBounds));
    assert_eq!(m.swap_cols(0, 2), Err(MatrixError::ColumnIndexOutOfBounds));
}

#[test]
fn getitem_accepts_negative_indices() {
    let m = m2(1, 2, 3, 4);
    assert_eq!(m.__getitem__((1, 0)).unwrap().num, 3);
    assert_eq!(m.__getitem__((-1, -1)).unwrap().num, 4);
    assert_eq!(m.__getitem__((2, 0)).err(), Some(MatrixError::IndexOutOfBounds));
    assert_eq!(m.__getitem__((0, -3)).err(), Some(MatrixError::IndexOutOfBounds));
}

#[test]
fn add_sub_neg() {
    let a = m2(1, 2, 3, 4);
    let b = mat(2, 2, vec![frac(1, 2), rint(0), rint(-3), rint(1)]);
    let s = a.__add__(b.__copy__()).unwrap();
    assert_eq!(entries(&s), vec![(3, 2), (2, 1), (0, 1), (5, 1)]);
    let s2 = b.__add__(a.__copy__()).unwrap();
    assert_eq!(entries(&s2), entries(&s));
    let d = a.__sub__(b.__copy__()).unwrap();
    assert_eq!(entries(&d), vec![(1, 2), (2, 1), (6, 1), (3, 1)]);
    let n = a.__neg__().unwrap();
    assert_eq!(entries(&n), ints(&[-1, -2, -3, -4]));
    let c = PythonMatrix::new(3, 2).unwrap();
    assert_eq!(
        a.__add__(c).err(),
        Some(MatrixError::AddDimensionMismatch { lhs_rows: 2, lhs_cols: 2, rhs_rows: 3, rhs_cols: 2 })
    );
}

#[test]
fn arithmetic_overflow_is_an_error() {
    let a = PythonMatrix::vec(vec![rint(i64::MAX)]).unwrap();
    let b = PythonMatrix::vec(vec![rint(1)]).unwrap();
    assert_eq!(a.__add__(b).err(), Some(MatrixError::Overflow));
    let m = PythonMatrix::vec(vec![rint(i64::MIN)]).unwrap();
    assert_eq!(m.__neg__().err(), Some(MatrixError::Overflow));
}

#[test]
fn matrix_products() {
    let a = m2(1, 2, 3, 4);
    let b = m2(0, 1, 1, 0);
    let p = a.__matmul__(ScalarOrMatrix::Matrix(b.__copy__())).unwrap();
    assert_eq!(entries(&p), ints(&[2, 1, 4, 3]));
    let q = a.__mul__(ScalarOrMatrix::Matrix(b)).unwrap();
    assert_eq!(entries(&q), ints(&[2, 1, 4, 3]));
    let i = PythonMatrix::identity(2).unwrap();
    let same = a.__mul__(ScalarOrMatrix::Matrix(i)).unwrap();
    assert_eq!(entries(&same), entries(&a));
    let col = PythonMatrix::vec(vec![rint(1), rint(1), rint(1)]).unwrap();
    assert_eq!(
        a.__mul__(ScalarOrMatrix::Matrix(col)).err(),
        Some(MatrixError::MulDimensionMismatch { lhs_rows: 2, lhs_cols: 2, rhs_rows: 3, rhs_cols: 1 })
    );
}

#[test]
fn scalar_products_and_division() {
    let a = m2(1, 2, 3, 4);
    let s = a.__mul__(ScalarOrMatrix::Scalar(frac(1, 2))).unwrap();
    assert_eq!(entries(&s), vec![(1, 2), (1, 1), (3, 2), (2, 1)]);
    let r = a.__rmul__(rint(3)).unwrap();
    assert_eq!(entries(&r), ints(&[3, 6, 9, 12]));
    let rm = a.__rmatmul__(rint(-1)).unwrap();
    assert_eq!(entries(&rm), ints(&[-1, -2, -3, -4]));
    let d = a.__truediv__(rint(2)).unwrap();
    assert_eq!(entries(&d), vec![(1, 2), (1, 1), (3, 2), (2, 1)]);
    assert_eq!(a.__truediv__(rint(0)).err(), Some(MatrixError::DivisionByZero));
}

#[test]
fn xor_and_inequalities_are_refused() {
    let a = m2(1, 2, 3, 4);
    let b = m2(1, 2, 3, 4);
    assert_eq!(a.__xor__(&b).err(), Some(MatrixError::XorNotSupported));
    assert_eq!(a.__rxor__(&b).err(), Some(MatrixError::XorNotSupported));
    assert_eq!(a.__richcmp__(&b, CompareOp::Eq), Ok(true));
    assert_eq!(a.__richcmp__(&b, CompareOp::Ne), Ok(false));
    assert_eq!(a.__richcmp__(&b, CompareOp::Lt).err(), Some(MatrixError::InequalityNotSupported));
    assert_eq!(MatrixError::XorNotSupported.kind(), ExceptionKind::TypeError);
    assert_eq!(MatrixError::DivisionByZero.kind(), ExceptionKind::ZeroDivisionError);
    assert_eq!(MatrixError::IndexOutOfBounds.kind(), ExceptionKind::IndexError);
    assert_eq!(MatrixError::EmptyMatrix.kind(), ExceptionKind::ValueError);
}

#[test]
fn augment_and_split() {
    let a = m2(1, 2, 3, 4);
    let b = PythonMatrix::vec(vec![rint(5), rint(6)]).unwrap();
    let ab = a.augment(b).unwrap();
    assert_eq!(ab.ncols(), 3);
    assert_eq!(entries(&ab), ints(&[1, 2, 5, 3, 4, 6]));
    let (l, r) = ab.split_col(2).unwrap();
    assert_eq!(entries(&l), ints(&[1, 2, 3, 4]));
    assert_eq!(entries(&r), ints(&[5, 6]));
    assert_eq!(ab.split_col(0).err(), Some(MatrixError::SplitIndexOutOfBounds { index: 0, ncols: 3 }));
    assert_eq!(ab.split_col(3).err(), Some(MatrixError::SplitIndexOutOfBounds { index: 3, ncols: 3 }));
    let tall = PythonMatrix::vec(vec![rint(1), rint(2), rint(3)]).unwrap();
    assert_eq!(a.augment(tall).err(), Some(MatrixError::AugmentRowMismatch { lhs_rows: 2, rhs_rows: 3 }));
}

#[test]
fn content_and_primitive_part() {
    let a = mat(1, 3, vec![rint(4), rint(6), frac(2, 3)]);
    let c = a.content().unwrap();
    assert_eq!((c.num, c.den), (2, 3));
    let p = a.primitive_part().unwrap();
    assert_eq!(entries(&p), ints(&[6, 9, 1]));
    let z = PythonMatrix::new(1, 2).unwrap();
    assert_eq!(z.content().unwrap().num, 0);
    let pz = z.primitive_part().unwrap();
    assert_eq!(entries(&pz), ints(&[0, 0]));
}

#[test]
fn map_applies_to_every_entry() {
    let a = m2(1, 2, 3, 4);
    let doubled: Result<PythonMatrix, ()> = a.map(|x: &Rational| x.checked_add(x).ok_or(()));
    assert_eq!(entries(&doubled.unwrap()), ints(&[2, 4, 6, 8]));
    let failing: Result<PythonMatrix, i64> =
        a.map(|x: &Rational| if x.num == 3 { Err(x.num) } else { Ok(x.copy()) });
    assert_eq!(failing.err(), Some(3));
}

#[test]
fn copy_is_equal() {
    let a = m2(1, 2, 3, 4);
    let b = a.__copy__();
    assert_eq!(a.__richcmp__(&b, CompareOp::Eq), Ok(true));
    assert_eq!(entries(&b), entries(&a));
}

#[test]
fn augmenting_the_parts_of_a_split_gives_back_the_matrix() {
    let m = mat(2, 3, vec![rint(1), rint(2), rint(3), rint(4), rint(5), rint(6)]);
    let (l, r) = m.split_col(1).unwrap();
    assert_eq!(entries(&l), ints(&[1, 4]));
    assert_eq!(entries(&r), ints(&[2, 3, 5, 6]));
    let back = l.augment(r).unwrap();
    assert_eq!(back.ncols(), 3);
    assert_eq!(entries(&back), entries(&m));
}

#[test]
fn multiplying_by_the_identity_changes_nothing() {
    let a = mat(2, 3, vec![frac(1, 2), rint(-2), rint(0), rint(7), frac(-5, 3), rint(1)]);
    let i = PythonMatrix::identity(3).unwrap();
    let p = a.__matmul__(ScalarOrMatrix::Matrix(i)).unwrap();
    assert_eq!(entries(&p), entries(&a));
}

#[test]
fn primitive_part_times_content_is_the_matrix() {
    let a = mat(2, 2, vec![frac(4, 9), frac(-2, 3), rint(6), frac(8, 3)]);
    let c = a.content().unwrap();
    let p = a.primitive_part().unwrap();
    let back = p.__mul__(ScalarOrMatrix::Scalar(c)).unwrap();
    for (x, y) in back.matrix.data.iter().zip(a.matrix.data.iter()) {
        assert!(x.eq_value(y));
    }
}

#[test]
fn row_reduce_gives_the_echelon_form_and_the_rank() {
    let mut m = mat(3, 3, vec![rint(0), rint(2), rint(4), rint(1), rint(1), rint(1), rint(2), rint(2), rint(2)]);
    assert_eq!(m.row_reduce(3), Ok(2));
    assert_eq!(entries(&m), ints(&[1, 1, 1, 0, 2, 4, 0, 0, 0]));
    let mut m = mat(3, 3, vec![rint(0), rint(2), rint(4), rint(1), rint(1), rint(1), rint(2), rint(2), rint(2)]);
    assert_eq!(m.row_reduce(1), Ok(1));
    assert_eq!(entries(&m), ints(&[1, 1, 1, 0, 2, 4, 0, 0, 0]));
    let mut id = PythonMatrix::identity(3).unwrap();
    assert_eq!(id.row_reduce(3), Ok(3));
}

#[test]
fn row_reduce_with_fractions() {
    let mut m = mat(2, 2, vec![rint(2), rint(1), rint(3), rint(4)]);
    assert_eq!(m.row_reduce(2), Ok(2));
    assert_eq!(entries(&m), vec![(2, 1), (1, 1), (0, 1), (5, 2)]);
}

#[test]
fn solve_finds_the_unique_solution() {
    let a = m2(2, 1, 1, 3);
    let b = mat(2, 1, vec![rint(3), rint(5)]);
    let x = a.solve(b).unwrap();
    assert_eq!(x.nrows(), 2);
    assert_eq!(x.ncols(), 1);
    assert_eq!(entries(&x), vec![(4, 5), (7, 5)]);
}

#[test]
fn solve_reports_underdetermined_and_shape_errors() {
    let a = m2(1, 2, 2, 4);
    assert_eq!(a.solve(mat(2, 1, vec![rint(1), rint(2)])).err(), Some(MatrixError::Underdetermined));
    assert_eq!(a.solve(mat(2, 1, vec![rint(1), rint(3)])).err(), Some(MatrixError::Underdetermined));
    assert_eq!(a.solve(mat(3, 1, vec![rint(1), rint(2), rint(3)])).err(), Some(MatrixError::ShapeMismatch));
}

#[test]
fn solve_any_picks_a_solution_or_reports_inconsistency() {
    let a = m2(1, 2, 2, 4);
    let x = a.solve_any(mat(2, 1, vec![rint(1), rint(2)])).unwrap();
    assert_eq!(entries(&x), ints(&[1, 0]));
    assert_eq!(a.solve_any(mat(2, 1, vec![rint(1), rint(3)])).err(), Some(MatrixError::Inconsistent));
}

#[test]
fn inverse_of_an_invertible_matrix() {
    let a = m2(2, 1, 1, 1);
    let inv = a.inv().unwrap();
    assert_eq!(entries(&inv), ints(&[1, -1, -1, 2]));
    let a = m2(4, 7, 2, 6);
    let inv = a.inv().unwrap();
    assert_eq!(entries(&inv), vec![(3, 5), (-7, 10), (-1, 5), (2, 5)]);
}

#[test]
fn inverse_errors() {
    assert_eq!(m2(1, 2, 2, 4).inv().err(), Some(MatrixError::Singular));
    let rect = mat(2, 3, vec![rint(1), rint(2), rint(3), rint(4), rint(5), rint(6)]);
    assert_eq!(rect.inv().err(), Some(MatrixError::NotSquare));
}

#[test]
fn determinant_by_cofactor_expansion() {
    assert_eq!(m2(4, 7, 2, 6).det().map(|d| (d.num, d.den)), Ok((10, 1)));
    let m = mat(3, 3, vec![rint(2), rint(0), rint(1), rint(1), rint(3), rint(2), rint(1), rint(1), rint(2)]);
    assert_eq!(m.det().map(|d| (d.num, d.den)), Ok((6, 1)));
    let h = mat(2, 2, vec![frac(1, 2), frac(1, 3), frac(1, 3), frac(1, 4)]);
    assert_eq!(h.det().map(|d| (d.num, d.den)), Ok((1, 72)));
    assert_eq!(m2(1, 2, 2, 4).det().map(|d| d.num), Ok(0));
    let rect = mat(2, 3, vec![rint(1), rint(2), rint(3), rint(4), rint(5), rint(6)]);
    assert_eq!(rect.det().err(), Some(MatrixError::NotSquare));
}
