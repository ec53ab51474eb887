use crate::rational::{abs, gcd, int_multiple, times, lemma_div_then_mul, lemma_multiple_trans, lemma_spec_gcd_divides, lemma_unit_arithmetic, one_q, zero_q, Rational};
use vstd::prelude::*;

verus! {

/// The Python exception class that an error is raised as.
#[derive(PartialEq, Eq, Structural, Clone, Copy, Debug)]
pub enum ExceptionKind {
    ValueError,
    IndexError,
    TypeError,
    ZeroDivisionError,
}

/// The errors of matrix construction and arithmetic.
#[derive(PartialEq, Eq, Structural, Clone, Copy, Debug)]
pub enum MatrixError {
    /// The matrix must have at least one row and one column.
    EmptyMatrix,
    /// The diagonal must have at least one entry.
    EmptyDiagonal,
    /// The matrix is not rectangular.
    NotRectangular,
    /// The number of entries is not the number of rows times the number of columns.
    InvalidShape { entries: usize, nrows: u32, ncols: u32 },
    /// Row index out of bounds.
    RowIndexOutOfBounds,
    /// Start index out of bounds.
    StartIndexOutOfBounds,
    /// Column index out of bounds.
    ColumnIndexOutOfBounds,
    /// Index out of bounds.
    IndexOutOfBounds,
    /// Cannot add matrices of different dimensions.
    AddDimensionMismatch { lhs_rows: usize, lhs_cols: usize, rhs_rows: usize, rhs_cols: usize },
    /// Cannot multiply matrices because of a dimension mismatch.
    MulDimensionMismatch { lhs_rows: usize, lhs_cols: usize, rhs_rows: usize, rhs_cols: usize },
    /// The matrices to augment do not have the same number of rows.
    AugmentRowMismatch { lhs_rows: usize, rhs_rows: usize },
    /// The column at which to split is not strictly inside the matrix.
    SplitIndexOutOfBounds { index: u32, ncols: u32 },
    /// Cannot divide a matrix by zero.
    DivisionByZero,
    /// Cannot xor a matrix. Did you mean to write a power? Use ** instead, i.e. x**2
    XorNotSupported,
    /// Inequalities between matrices are not supported.
    InequalityNotSupported,
    /// A coefficient does not fit in 64 bits.
    Overflow,
    /// The right-hand side does not have as many rows as the matrix.
    ShapeMismatch,
    /// The matrix is not square.
    NotSquare,
    /// The matrix is singular.
    Singular,
    /// The system has more than one solution.
    Underdetermined,
    /// The system has no solution.
    Inconsistent,
}

impl MatrixError {
    /// The exception class that the error is raised as.
    pub fn kind(&self) -> (r: ExceptionKind)
        ensures
            r == error_kind(*self),
    {
        match self {
            MatrixError::RowIndexOutOfBounds | MatrixError::StartIndexOutOfBounds
            | MatrixError::ColumnIndexOutOfBounds | MatrixError::IndexOutOfBounds => {
                ExceptionKind::IndexError
            },
            MatrixError::XorNotSupported | MatrixError::InequalityNotSupported => {
                ExceptionKind::TypeError
            },
            MatrixError::DivisionByZero => ExceptionKind::ZeroDivisionError,
            _ => ExceptionKind::ValueError,
        }
    }
}

pub open spec fn error_kind(e: MatrixError) -> ExceptionKind {
    match e {
        MatrixError::RowIndexOutOfBounds | MatrixError::StartIndexOutOfBounds
        | MatrixError::ColumnIndexOutOfBounds | MatrixError::IndexOutOfBounds => {
            ExceptionKind::IndexError
        },
        MatrixError::XorNotSupported | MatrixError::InequalityNotSupported => {
            ExceptionKind::TypeError
        },
        MatrixError::DivisionByZero => ExceptionKind::ZeroDivisionError,
        _ => ExceptionKind::ValueError,
    }
}

/// The comparison asked for by Python's rich comparison.
#[derive(PartialEq, Eq, Structural, Clone, Copy, Debug)]
pub enum CompareOp {
    Lt,
    Le,
    Eq,
    Ne,
    Gt,
    Ge,
}


/// `f` has given `Ok(vs[l])` on the entry `s[l]`, for each index `l` of `vs`.
pub open spec fn maps_ok_to<E, F: Fn(&Rational) -> Result<Rational, E>>(f: F, s: Seq<Rational>, vs: Seq<Rational>) -> bool {
    &&& vs.len() <= s.len()
    &&& forall|l: int| 0 <= l < vs.len() ==> #[trigger] f.ensures((&s[l],), Ok::<Rational, E>(vs[l]))
}

pub open spec fn is_sum(r: Seq<Rational>, a: Seq<Rational>, b: Seq<Rational>) -> bool {
    r.len() == a.len() && forall|k: int| 0 <= k < a.len() ==> Some(#[trigger] r[k]) == a[k].spec_add(b[k])
}

/// Some entrywise sum of `a` and `b` does not fit in 64 bits.
pub open spec fn sum_overflows(a: Seq<Rational>, b: Seq<Rational>) -> bool {
    exists|k: int| 0 <= k < a.len() && (#[trigger] a[k]).spec_add(b[k]) is None
}

/// `r` holds the negated entries of `a`.
pub open spec fn is_negation(r: Seq<Rational>, a: Seq<Rational>) -> bool {
    r.len() == a.len() && forall|k: int| 0 <= k < a.len() ==> Some(#[trigger] r[k]) == a[k].spec_neg()
}

pub open spec fn negation_overflows(a: Seq<Rational>) -> bool {
    exists|k: int| 0 <= k < a.len() && (#[trigger] a[k]).spec_neg() is None
}

/// `r` holds the entries of `a` times `c`.
pub open spec fn is_scaled(r: Seq<Rational>, a: Seq<Rational>, c: Rational) -> bool {
    r.len() == a.len() && forall|k: int| 0 <= k < a.len() ==> Some(#[trigger] r[k]) == a[k].spec_mul(c)
}

pub open spec fn scaling_overflows(a: Seq<Rational>, c: Rational) -> bool {
    exists|k: int| 0 <= k < a.len() && (#[trigger] a[k]).spec_mul(c) is None
}

/// `r` holds the entries of `a` divided by `c`.
pub open spec fn is_quotient(r: Seq<Rational>, a: Seq<Rational>, c: Rational) -> bool {
    r.len() == a.len() && forall|k: int| 0 <= k < a.len() ==> Some(#[trigger] r[k]) == a[k].spec_div(c)
}

pub open spec fn quotient_overflows(a: Seq<Rational>, c: Rational) -> bool {
    exists|k: int| 0 <= k < a.len() && (#[trigger] a[k]).spec_div(c) is None
}

/// The sum of `a(i, l) * b(l, j)` over `l < n`, accumulated from `l = 0` up; `None` where a
/// product or running sum does not fit.
pub open spec fn dot(a: Matrix, b: Matrix, i: int, j: int, n: nat) -> Option<Rational>
    decreases n,
{
    if n == 0 {
        Some(Rational { num: 0, den: 1 })
    } else {
        match dot(a, b, i, j, (n - 1) as nat) {
            Some(acc) => match a.at(i, n - 1).spec_mul(b.at(n - 1, j)) {
                Some(p) => acc.spec_add(p),
                None => None,
            },
            None => None,
        }
    }
}


/// Dot products depend on the shapes and entries of the matrices only.
pub proof fn lemma_dot_congruent(a1: Matrix, a2: Matrix, b1: Matrix, b2: Matrix, i: int, j: int, n: nat)
    requires
        a1.ncols == a2.ncols,
        a1.data@ == a2.data@,
        b1.ncols == b2.ncols,
        b1.data@ == b2.data@,
    ensures
        dot(a1, b1, i, j, n) == dot(a2, b2, i, j, n),
    decreases n,
{
    if n > 0 {
        lemma_dot_congruent(a1, a2, b1, b2, i, j, (n - 1) as nat);
        assert(a1.at(i, n - 1) == a2.at(i, n - 1));
        assert(b1.at(n - 1, j) == b2.at(n - 1, j));
    }
}

/// All dot products of two pairs of matrices with the same shapes and entries agree.
pub proof fn lemma_dots_congruent(a1: Matrix, a2: Matrix, b1: Matrix, b2: Matrix)
    requires
        a1.ncols == a2.ncols,
        a1.data@ == a2.data@,
        b1.ncols == b2.ncols,
        b1.data@ == b2.data@,
    ensures
        forall|i: int, j: int, n: nat|
            #![trigger dot(a1, b1, i, j, n)]
            #![trigger dot(a2, b2, i, j, n)]
            dot(a1, b1, i, j, n) == dot(a2, b2, i, j, n),
{
    assert forall|i: int, j: int, n: nat|
        #![trigger dot(a1, b1, i, j, n)]
        #![trigger dot(a2, b2, i, j, n)]
        dot(a1, b1, i, j, n) == dot(a2, b2, i, j, n) by {
        lemma_dot_congruent(a1, a2, b1, b2, i, j, n);
    }
}

/// Once a partial dot product overflows, every longer one does.
pub proof fn lemma_dot_none_stays(a: Matrix, b: Matrix, i: int, j: int, l: nat, n: nat)
    requires
        l <= n,
        dot(a, b, i, j, l) is None,
    ensures
        dot(a, b, i, j, n) is None,
    decreases n - l,
{
    if l < n {
        lemma_dot_none_stays(a, b, i, j, l + 1, n);
    }
}


/// The gcd of the rationals in `s` accumulated from the left starting at zero; `None` on
/// overflow.
pub open spec fn content_of(s: Seq<Rational>) -> Option<Rational>
    decreases s.len(),
{
    if s.len() == 0 {
        Some(Rational { num: 0, den: 1 })
    } else {
        match content_of(s.drop_last()) {
            Some(acc) => acc.spec_gcd(s.last()),
            None => None,
        }
    }
}


/// The content divides every coefficient it was taken of: each is an integer multiple of it
/// (so a zero content comes only from zeros).
pub proof fn lemma_content_divides(s: Seq<Rational>)
    requires
        forall|i: int| 0 <= i < s.len() ==> (#[trigger] s[i]).wf(),
        content_of(s) is Some,
    ensures
        content_of(s)->0.wf(),
        forall|i: int| 0 <= i < s.len() ==> (#[trigger] s[i]).is_multiple_of(content_of(s)->0),
    decreases s.len(),
{
    if s.len() > 0 {
        let p = s.drop_last();
        assert forall|i: int| 0 <= i < p.len() implies (#[trigger] p[i]).wf() by {
            assert(p[i] == s[i]);
        }
        lemma_content_divides(p);
        let acc = content_of(p)->0;
        let c = content_of(s)->0;
        assert(s.last() == s[s.len() - 1]);
        lemma_spec_gcd_divides(acc, s.last());
        assert forall|i: int| 0 <= i < s.len() implies (#[trigger] s[i]).is_multiple_of(c) by {
            if i < p.len() {
                assert(p[i] == s[i]);
                lemma_multiple_trans(s[i], acc, c);
            }
        }
    }
}

/// `d` divides the numerator of every coefficient of `s`.
pub open spec fn divides_all_numerators(s: Seq<Rational>, d: int) -> bool {
    forall|i: int| 0 <= i < s.len() ==> int_multiple((#[trigger] s[i]).num as int, d)
}

/// The content of integers is their greatest common divisor: an integer, and a multiple of
/// every integer that divides them all.
pub proof fn lemma_content_integers(s: Seq<Rational>)
    requires
        forall|i: int| 0 <= i < s.len() ==> (#[trigger] s[i]).den == 1,
        content_of(s) is Some,
    ensures
        content_of(s)->0.den == 1,
        content_of(s)->0.num >= 0,
        forall|d: int| #[trigger] divides_all_numerators(s, d) ==> int_multiple(content_of(s)->0.num as int, d),
    decreases s.len(),
{
    if s.len() == 0 {
        assert forall|d: int| #[trigger] divides_all_numerators(s, d) implies int_multiple(content_of(s)->0.num as int, d) by {
            assert(0int == times(0, d));
        }
    } else {
        let p = s.drop_last();
        assert forall|i: int| 0 <= i < p.len() implies (#[trigger] p[i]).den == 1 by {
            assert(p[i] == s[i]);
        }
        lemma_content_integers(p);
        let acc = content_of(p)->0;
        let e = s.last();
        assert(e == s[s.len() - 1]);
        assert(gcd(1, 1) == gcd(1, 0));
        let g = gcd(abs(acc.num as int), abs(e.num as int));
        assert(abs(1) * abs(1) / 1 == 1);
        crate::rational::lemma_gcd_bounded(abs(acc.num as int), abs(e.num as int));
        assert(gcd(g, 1) == gcd(1, g % 1));
        assert(g % 1 == 0);
        assert(gcd(1, 0) == 1);
        assert(g / 1 == g && 1int / 1 == 1 && g % 1 == 0 && 1int % 1 == 0);
        let c = content_of(s)->0;
        assert(c.num == g && c.den == 1);
        assert forall|d: int| #[trigger] divides_all_numerators(s, d) implies int_multiple(c.num as int, d) by {
            assert forall|i: int| 0 <= i < p.len() implies int_multiple((#[trigger] p[i]).num as int, d) by {
                assert(p[i] == s[i]);
            }
            assert(divides_all_numerators(p, d));
            assert(int_multiple(e.num as int, d));
            let k = choose|k: int| e.num as int == #[trigger] times(k, d);
            if e.num < 0 {
                assert(abs(e.num as int) as int == times(-k, d)) by (nonlinear_arith)
                    requires
                        e.num as int == k * d,
                        e.num < 0,
                ;
            } else {
                assert(abs(e.num as int) as int == times(k, d));
            }
            assert(abs(acc.num as int) as int == acc.num);
            crate::rational::lemma_gcd_greatest(abs(acc.num as int), abs(e.num as int), d);
        }
    }
}

/// Once the running content overflows it stays so.
pub proof fn lemma_content_none_stays(s: Seq<Rational>, k: int)
    requires
        0 <= k <= s.len(),
        content_of(s.take(k)) is None,
    ensures
        content_of(s) is None,
    decreases s.len() - k,
{
    if k < s.len() {
        assert(s.take(k + 1).drop_last() =~= s.take(k));
        lemma_content_none_stays(s, k + 1);
    } else {
        assert(s.take(k) =~= s);
    }
}

/// `t` is the transpose of `m`.
pub open spec fn is_transpose(t: Matrix, m: Matrix) -> bool {
    &&& t.nrows == m.ncols
    &&& t.ncols == m.nrows
    &&& forall|i: int, j: int| 0 <= i < t.nrows && 0 <= j < t.ncols ==> #[trigger] t.at(i, j) == m.at(j, i)
}

/// `n` is `m` with rows `row1` and `row2` exchanged in the columns from `start` on.
pub open spec fn rows_swapped(n: Matrix, m: Matrix, row1: int, row2: int, start: int) -> bool {
    forall|i: int, j: int|
        0 <= i < m.nrows && 0 <= j < m.ncols ==> #[trigger] n.at(i, j) == (if j >= start && i == row1 {
            m.at(row2, j)
        } else if j >= start && i == row2 {
            m.at(row1, j)
        } else {
            m.at(i, j)
        })
}

/// `n` is `m` with columns `col1` and `col2` exchanged.
pub open spec fn cols_swapped(n: Matrix, m: Matrix, col1: int, col2: int) -> bool {
    forall|i: int, j: int|
        0 <= i < m.nrows && 0 <= j < m.ncols ==> #[trigger] n.at(i, j) == (if j == col1 {
            m.at(i, col2)
        } else if j == col2 {
            m.at(i, col1)
        } else {
            m.at(i, j)
        })
}

/// Two well-formed matrices of one shape with the same entries hold the same data.
pub proof fn lemma_same_entries(a: Matrix, b: Matrix)
    requires
        a.wf(),
        b.wf(),
        a.nrows == b.nrows,
        a.ncols == b.ncols,
        forall|i: int, j: int| 0 <= i < a.nrows && 0 <= j < a.ncols ==> #[trigger] a.at(i, j) == b.at(i, j),
    ensures
        a.data@ == b.data@,
{
    assert forall|k: int| 0 <= k < a.data@.len() implies a.data@[k] == b.data@[k] by {
        let c = a.ncols as int;
        let r = a.nrows as int;
        assert(c > 0) by (nonlinear_arith)
            requires
                0 <= k < r * c,
                r >= 0,
                c >= 0,
        ;
        let i = k / c;
        let j = k % c;
        assert(k == i * c + j && 0 <= j < c && 0 <= i < r) by (nonlinear_arith)
            requires
                0 <= k < r * c,
                c > 0,
                i == k / c,
                j == k % c,
        ;
        assert(a.at(i, j) == b.at(i, j));
    }
    assert(a.data@ =~= b.data@);
}

/// Transposing twice gives back the matrix.
pub proof fn lemma_transpose_twice(m: Matrix, t: Matrix, t2: Matrix)
    requires
        m.wf(),
        t2.wf(),
        is_transpose(t, m),
        is_transpose(t2, t),
    ensures
        t2.nrows == m.nrows,
        t2.ncols == m.ncols,
        t2.data@ == m.data@,
{
    assert forall|i: int, j: int| 0 <= i < t2.nrows && 0 <= j < t2.ncols implies #[trigger] t2.at(i, j) == m.at(i, j) by {
        assert(t2.at(i, j) == t.at(j, i));
    }
    lemma_same_entries(t2, m);
}

/// Swapping the same two rows twice gives back the matrix.
pub proof fn lemma_swap_rows_twice(m: Matrix, m1: Matrix, m2: Matrix, row1: int, row2: int, start: int)
    requires
        m.wf(),
        m2.wf(),
        m1.nrows == m.nrows && m1.ncols == m.ncols,
        m2.nrows == m.nrows && m2.ncols == m.ncols,
        0 <= row1 < m.nrows,
        0 <= row2 < m.nrows,
        rows_swapped(m1, m, row1, row2, start),
        rows_swapped(m2, m1, row1, row2, start),
    ensures
        m2.data@ == m.data@,
{
    assert forall|i: int, j: int| 0 <= i < m2.nrows && 0 <= j < m2.ncols implies #[trigger] m2.at(i, j) == m.at(i, j) by {
        assert(m1.at(row1, j) == m1.at(row1, j));
        assert(m1.at(row2, j) == m1.at(row2, j));
        assert(m1.at(i, j) == m1.at(i, j));
    }
    lemma_same_entries(m2, m);
}

/// Swapping the same two columns twice gives back the matrix.
pub proof fn lemma_swap_cols_twice(m: Matrix, m1: Matrix, m2: Matrix, col1: int, col2: int)
    requires
        m.wf(),
        m2.wf(),
        m1.nrows == m.nrows && m1.ncols == m.ncols,
        m2.nrows == m.nrows && m2.ncols == m.ncols,
        0 <= col1 < m.ncols,
        0 <= col2 < m.ncols,
        cols_swapped(m1, m, col1, col2),
        cols_swapped(m2, m1, col1, col2),
    ensures
        m2.data@ == m.data@,
{
    assert forall|i: int, j: int| 0 <= i < m2.nrows && 0 <= j < m2.ncols implies #[trigger] m2.at(i, j) == m.at(i, j) by {
        assert(m1.at(i, col1) == m1.at(i, col1));
        assert(m1.at(i, col2) == m1.at(i, col2));
        assert(m1.at(i, j) == m1.at(i, j));
    }
    lemma_same_entries(m2, m);
}

/// `m` is `a` with the columns of `b` appended.
pub open spec fn is_augmented(m: Matrix, a: Matrix, b: Matrix) -> bool {
    &&& m.nrows == a.nrows
    &&& m.ncols == a.ncols + b.ncols
    &&& forall|i: int, j: int| 0 <= i < m.nrows && 0 <= j < m.ncols ==> #[trigger] m.at(i, j) == (if j < a.ncols {
        a.at(i, j)
    } else {
        b.at(i, j - a.ncols)
    })
}

/// `l` is the first `index` columns of `m`.
pub open spec fn is_left_part(l: Matrix, m: Matrix, index: int) -> bool {
    &&& l.nrows == m.nrows
    &&& l.ncols == index
    &&& forall|i: int, j: int| 0 <= i < m.nrows && 0 <= j < index ==> #[trigger] l.at(i, j) == m.at(i, j)
}

/// `r` is the columns of `m` from `index` on.
pub open spec fn is_right_part(r: Matrix, m: Matrix, index: int) -> bool {
    &&& r.nrows == m.nrows
    &&& r.ncols == m.ncols - index
    &&& forall|i: int, j: int| 0 <= i < m.nrows && 0 <= j < m.ncols - index ==> #[trigger] r.at(i, j) == m.at(i, j + index)
}

/// Splitting an augmented matrix where its first part ends gives back the two parts.
pub proof fn lemma_split_undoes_augment(a: Matrix, b: Matrix, m: Matrix, l: Matrix, r: Matrix)
    requires
        a.wf(),
        b.wf(),
        l.wf(),
        r.wf(),
        a.nrows == b.nrows,
        is_augmented(m, a, b),
        is_left_part(l, m, a.ncols as int),
        is_right_part(r, m, a.ncols as int),
    ensures
        l.nrows == a.nrows && l.ncols == a.ncols && l.data@ == a.data@,
        r.nrows == b.nrows && r.ncols == b.ncols && r.data@ == b.data@,
{
    assert forall|i: int, j: int| 0 <= i < l.nrows && 0 <= j < l.ncols implies #[trigger] l.at(i, j) == a.at(i, j) by {
        assert(m.at(i, j) == a.at(i, j));
    }
    lemma_same_entries(l, a);
    assert forall|i: int, j: int| 0 <= i < r.nrows && 0 <= j < r.ncols implies #[trigger] r.at(i, j) == b.at(i, j) by {
        assert(m.at(i, j + a.ncols) == b.at(i, j));
    }
    lemma_same_entries(r, b);
}

/// Appending the right part of a split to its left part gives back the matrix.
pub proof fn lemma_augment_undoes_split(m: Matrix, l: Matrix, r: Matrix, m2: Matrix, index: int)
    requires
        m.wf(),
        m2.wf(),
        0 < index < m.ncols,
        is_left_part(l, m, index),
        is_right_part(r, m, index),
        is_augmented(m2, l, r),
    ensures
        m2.nrows == m.nrows && m2.ncols == m.ncols && m2.data@ == m.data@,
{
    assert forall|i: int, j: int| 0 <= i < m2.nrows && 0 <= j < m2.ncols implies #[trigger] m2.at(i, j) == m.at(i, j) by {
        if j < index {
            assert(l.at(i, j) == m.at(i, j));
        } else {
            assert(r.at(i, j - index) == m.at(i, j - index + index));
        }
    }
    lemma_same_entries(m2, m);
}

/// `id` is the identity matrix with `n` rows and columns.
pub open spec fn is_identity(id: Matrix, n: int) -> bool {
    &&& id.nrows == n
    &&& id.ncols == n
    &&& forall|l: int, m: int| 0 <= l < n && 0 <= m < n ==> #[trigger] id.at(l, m) == (if l == m { one_q() } else { zero_q() })
}

/// Multiplying by the identity leaves a matrix whose entries are in lowest terms as it is:
/// every entry of the product is the entry of the matrix.
pub proof fn lemma_times_identity(a: Matrix, id: Matrix)
    requires
        a.wf(),
        forall|k: int| 0 <= k < a.data@.len() ==> (#[trigger] a.data@[k]).lowest(),
        is_identity(id, a.ncols as int),
    ensures
        forall|i: int, j: int| 0 <= i < a.nrows && 0 <= j < a.ncols ==> #[trigger] dot(a, id, i, j, a.ncols as nat) == Some(a.at(i, j)),
{
    assert forall|i: int, j: int| 0 <= i < a.nrows && 0 <= j < a.ncols implies #[trigger] dot(a, id, i, j, a.ncols as nat) == Some(a.at(i, j)) by {
        lemma_dot_identity_prefix(a, id, i, j, a.ncols as nat);
    }
}

proof fn lemma_dot_identity_prefix(a: Matrix, id: Matrix, i: int, j: int, n: nat)
    requires
        a.wf(),
        forall|k: int| 0 <= k < a.data@.len() ==> (#[trigger] a.data@[k]).lowest(),
        is_identity(id, a.ncols as int),
        0 <= i < a.nrows,
        0 <= j < a.ncols,
        n <= a.ncols,
    ensures
        dot(a, id, i, j, n) == Some(if j < n { a.at(i, j) } else { zero_q() }),
    decreases n,
{
    if n > 0 {
        let l = n - 1;
        lemma_dot_identity_prefix(a, id, i, j, l as nat);
        lemma_index_in_bounds(i, l, a.nrows as int, a.ncols as int);
        lemma_index_in_bounds(i, j, a.nrows as int, a.ncols as int);
        let x = a.at(i, l);
        assert(x.lowest());
        assert(x.den <= i64::MAX);
        lemma_unit_arithmetic(x);
        lemma_unit_arithmetic(a.at(i, j));
        assert(gcd(abs(0), abs(1)) == gcd(1, 0));
        lemma_unit_arithmetic(zero_q());
        assert(id.at(l, j) == (if l == j { one_q() } else { zero_q() }));
    }
}

/// Multiplying the entrywise quotient by the divisor gives back the entries' values: the
/// primitive part times the content is the matrix.
pub proof fn lemma_scaling_undoes_division(a: Seq<Rational>, c: Rational, p: Seq<Rational>, q: Seq<Rational>)
    requires
        forall|k: int| 0 <= k < a.len() ==> (#[trigger] a[k]).wf(),
        c.wf(),
        c.num != 0,
        is_quotient(p, a, c),
        is_scaled(q, p, c),
    ensures
        q.len() == a.len(),
        forall|k: int| 0 <= k < a.len() ==> (#[trigger] q[k]).same_value(a[k]),
{
    assert forall|k: int| 0 <= k < a.len() implies (#[trigger] q[k]).same_value(a[k]) by {
        assert(Some(p[k]) == a[k].spec_div(c));
        assert(Some(q[k]) == p[k].spec_mul(c));
        lemma_div_then_mul(a[k], c);
    }
}

/// Entrywise addition does not depend on the order of the operands.
pub proof fn lemma_sum_commutes(a: Seq<Rational>, b: Seq<Rational>, r1: Seq<Rational>, r2: Seq<Rational>)
    requires
        a.len() == b.len(),
        is_sum(r1, a, b),
        is_sum(r2, b, a),
    ensures
        r1 == r2,
{
    assert forall|k: int| 0 <= k < a.len() implies r1[k] == r2[k] by {
        crate::rational::lemma_add_commutative(a[k], b[k]);
        assert(Some(r1[k]) == a[k].spec_add(b[k]));
        assert(Some(r2[k]) == b[k].spec_add(a[k]));
    }
    assert(r1 =~= r2);
}

/// A dense matrix of rational numbers, stored row by row.
#[derive(Debug)]
pub struct Matrix {
    pub nrows: u32,
    pub ncols: u32,
    pub data: Vec<Rational>,
}

/// A matrix with rational coefficients, as offered to Python.
#[derive(Debug)]
pub struct PythonMatrix {
    pub matrix: Matrix,
}

/// A scalar or a matrix.
#[derive(Debug)]
pub enum ScalarOrMatrix {
    Scalar(Rational),
    Matrix(PythonMatrix),
}

/// `i * c + j` lies inside a matrix of `r` rows and `c` columns.
pub proof fn lemma_index_in_bounds(i: int, j: int, r: int, c: int)
    requires
        0 <= i < r,
        0 <= j < c,
    ensures
        0 <= i * c + j < r * c,
{
    assert(0 <= i * c + j < r * c) by (nonlinear_arith)
        requires
            0 <= i < r,
            0 <= j < c,
    ;
}

/// Flat positions of distinct cells differ.
pub proof fn lemma_index_injective(i: int, j: int, k: int, l: int, c: int)
    requires
        0 <= j < c,
        0 <= l < c,
        i * c + j == k * c + l,
        0 <= i,
        0 <= k,
    ensures
        i == k,
        j == l,
{
    assert(i == k && j == l) by (nonlinear_arith)
        requires
            0 <= j < c,
            0 <= l < c,
            i * c + j == k * c + l,
            0 <= i,
            0 <= k,
    ;
}

impl Matrix {
    /// The shape matches the data and every coefficient has a positive denominator.
    pub open spec fn wf(&self) -> bool {
        &&& self.data@.len() == self.nrows * self.ncols
        &&& forall|k: int| 0 <= k < self.data@.len() ==> (#[trigger] self.data@[k]).wf()
    }

    /// The coefficient in row `i` and column `j`.
    pub open spec fn at(&self, i: int, j: int) -> Rational {
        self.data@[i * self.ncols + j]
    }

    /// Every coefficient is zero.
    pub open spec fn all_zero(&self) -> bool {
        forall|k: int| 0 <= k < self.data@.len() ==> (#[trigger] self.data@[k]).num == 0
    }

    /// Every coefficient off the main diagonal is zero.
    pub open spec fn diagonal(&self) -> bool {
        forall|i: int, j: int|
            0 <= i < self.nrows && 0 <= j < self.ncols && i != j ==> (#[trigger] self.at(i, j)).num
                == 0
    }


    /// Same shape and the same values.
    pub fn equals(&self, other: &Matrix) -> (r: bool)
        ensures
            r == (self.nrows == other.nrows && self.ncols == other.ncols && self.data@.len() == other.data@.len()
                && forall|k: int| 0 <= k < self.data@.len() ==> (#[trigger] self.data@[k]).same_value(other.data@[k])),
    {
        if self.nrows != other.nrows || self.ncols != other.ncols || self.data.len() != other.data.len() {
            return false;
        }
        let mut k: usize = 0;
        while k < self.data.len()
            invariant
                0 <= k <= self.data@.len(),
                self.data@.len() == other.data@.len(),
                forall|l: int| 0 <= l < k ==> (#[trigger] self.data@[l]).same_value(other.data@[l]),
            decreases self.data@.len() - k,
        {
            if !self.data[k].eq_value(&other.data[k]) {
                return false;
            }
            k = k + 1;
        }
        true
    }

    /// A copy of the matrix.
    pub fn copy(&self) -> (r: Matrix)
        ensures
            r.nrows == self.nrows,
            r.ncols == self.ncols,
            r.data@ == self.data@,
    {
        let mut data: Vec<Rational> = Vec::new();
        let mut k: usize = 0;
        while k < self.data.len()
            invariant
                0 <= k <= self.data@.len(),
                data@ == self.data@.take(k as int),
            decreases self.data@.len() - k,
        {
            data.push(self.data[k].copy());
            assert(data@ =~= self.data@.take(k + 1));
            k = k + 1;
        }
        assert(data@ =~= self.data@);
        Matrix { nrows: self.nrows, ncols: self.ncols, data }
    }
}


fn add_entries(a: &Vec<Rational>, b: &Vec<Rational>) -> (r: Option<Vec<Rational>>)
    requires
        a@.len() == b@.len(),
        forall|k: int| 0 <= k < a@.len() ==> (#[trigger] a@[k]).wf(),
        forall|k: int| 0 <= k < b@.len() ==> (#[trigger] b@[k]).wf(),
    ensures
        match r {
            Some(v) => is_sum(v@, a@, b@) && (forall|k: int| 0 <= k < v@.len() ==> (#[trigger] v@[k]).wf()) && !sum_overflows(a@, b@),
            None => sum_overflows(a@, b@),
        },
{
    let mut out: Vec<Rational> = Vec::new();
    let mut k: usize = 0;
    while k < a.len()
        invariant
            0 <= k <= a@.len(),
            a@.len() == b@.len(),
            forall|l: int| 0 <= l < a@.len() ==> (#[trigger] a@[l]).wf(),
            forall|l: int| 0 <= l < b@.len() ==> (#[trigger] b@[l]).wf(),
            out@.len() == k,
            forall|l: int| 0 <= l < k ==> Some(#[trigger] out@[l]) == a@[l].spec_add(b@[l]) && out@[l].wf(),
        decreases a@.len() - k,
    {
        match a[k].checked_add(&b[k]) {
            Some(x) => out.push(x),
            None => {
                assert(a@[k as int].spec_add(b@[k as int]) is None);
                return None;
            },
        }
        k = k + 1;
    }
    assert(!sum_overflows(a@, b@)) by {
        assert forall|j: int| 0 <= j < a@.len() implies (#[trigger] a@[j].spec_add(b@[j])) is Some by {
            assert(Some(out@[j]) == a@[j].spec_add(b@[j]));
        }
    }
    Some(out)
}

fn neg_entries(a: &Vec<Rational>) -> (r: Option<Vec<Rational>>)
    requires
        forall|k: int| 0 <= k < a@.len() ==> (#[trigger] a@[k]).wf(),
    ensures
        match r {
            Some(v) => is_negation(v@, a@) && (forall|k: int| 0 <= k < v@.len() ==> (#[trigger] v@[k]).wf()) && !negation_overflows(a@),
            None => negation_overflows(a@),
        },
{
    let mut out: Vec<Rational> = Vec::new();
    let mut k: usize = 0;
    while k < a.len()
        invariant
            0 <= k <= a@.len(),
            forall|l: int| 0 <= l < a@.len() ==> (#[trigger] a@[l]).wf(),
            out@.len() == k,
            forall|l: int| 0 <= l < k ==> Some(#[trigger] out@[l]) == a@[l].spec_neg() && out@[l].wf(),
        decreases a@.len() - k,
    {
        match a[k].checked_neg() {
            Some(x) => out.push(x),
            None => {
                assert(a@[k as int].spec_neg() is None);
                return None;
            },
        }
        k = k + 1;
    }
    assert(!negation_overflows(a@)) by {
        assert forall|j: int| 0 <= j < a@.len() implies (#[trigger] a@[j].spec_neg()) is Some by {
            assert(Some(out@[j]) == a@[j].spec_neg());
        }
    }
    Some(out)
}

fn scale_entries(a: &Vec<Rational>, c: &Rational) -> (r: Option<Vec<Rational>>)
    requires
        c.wf(),
        forall|k: int| 0 <= k < a@.len() ==> (#[trigger] a@[k]).wf(),
    ensures
        match r {
            Some(v) => is_scaled(v@, a@, *c) && (forall|k: int| 0 <= k < v@.len() ==> (#[trigger] v@[k]).wf()) && !scaling_overflows(a@, *c),
            None => scaling_overflows(a@, *c),
        },
{
    let mut out: Vec<Rational> = Vec::new();
    let mut k: usize = 0;
    while k < a.len()
        invariant
            0 <= k <= a@.len(),
            c.wf(),
            forall|l: int| 0 <= l < a@.len() ==> (#[trigger] a@[l]).wf(),
            out@.len() == k,
            forall|l: int| 0 <= l < k ==> Some(#[trigger] out@[l]) == a@[l].spec_mul(*c) && out@[l].wf(),
        decreases a@.len() - k,
    {
        match a[k].checked_mul(c) {
            Some(x) => out.push(x),
            None => {
                assert(a@[k as int].spec_mul(*c) is None);
                return None;
            },
        }
        k = k + 1;
    }
    assert(!scaling_overflows(a@, *c)) by {
        assert forall|j: int| 0 <= j < a@.len() implies (#[trigger] a@[j].spec_mul(*c)) is Some by {
            assert(Some(out@[j]) == a@[j].spec_mul(*c));
        }
    }
    Some(out)
}

fn divide_entries(a: &Vec<Rational>, c: &Rational) -> (r: Option<Vec<Rational>>)
    requires
        c.wf(),
        forall|k: int| 0 <= k < a@.len() ==> (#[trigger] a@[k]).wf(),
    ensures
        match r {
            Some(v) => is_quotient(v@, a@, *c) && (forall|k: int| 0 <= k < v@.len() ==> (#[trigger] v@[k]).wf()) && !quotient_overflows(a@, *c),
            None => quotient_overflows(a@, *c),
        },
{
    let mut out: Vec<Rational> = Vec::new();
    let mut k: usize = 0;
    while k < a.len()
        invariant
            0 <= k <= a@.len(),
            c.wf(),
            forall|l: int| 0 <= l < a@.len() ==> (#[trigger] a@[l]).wf(),
            out@.len() == k,
            forall|l: int| 0 <= l < k ==> Some(#[trigger] out@[l]) == a@[l].spec_div(*c) && out@[l].wf(),
        decreases a@.len() - k,
    {
        match a[k].checked_div(c) {
            Some(x) => {
                out.push(x);
            },
            None => {
                assert(a@[k as int].spec_div(*c) is None);
                return None;
            },
        }
        k = k + 1;
    }
    assert(!quotient_overflows(a@, *c)) by {
        assert forall|j: int| 0 <= j < a@.len() implies (#[trigger] a@[j].spec_div(*c)) is Some by {
            assert(Some(out@[j]) == a@[j].spec_div(*c));
        }
    }
    Some(out)
}

/// A vector of `n` zeros.
fn zeros(n: usize) -> (r: Vec<Rational>)
    ensures
        r@.len() == n,
        forall|k: int| 0 <= k < n ==> (#[trigger] r@[k]).num == 0 && r@[k].den == 1,
{
    let mut v: Vec<Rational> = Vec::new();
    let mut k: usize = 0;
    while k < n
        invariant
            0 <= k <= n,
            v@.len() == k,
            forall|l: int| 0 <= l < k ==> (#[trigger] v@[l]).num == 0 && v@[l].den == 1,
        decreases n - k,
    {
        v.push(Rational::zero());
        k = k + 1;
    }
    v
}

impl PythonMatrix {
    pub open spec fn wf(&self) -> bool {
        self.matrix.wf()
    }

    /// Create a new zeroed matrix with `nrows` rows and `ncols` columns.
    pub fn new(nrows: u32, ncols: u32) -> (r: Result<PythonMatrix, MatrixError>)
        requires
            nrows * ncols <= usize::MAX,
        ensures
            nrows == 0 || ncols == 0 <==> r == Err::<PythonMatrix, MatrixError>(MatrixError::EmptyMatrix),
            nrows != 0 && ncols != 0 ==> r is Ok,
            r matches Ok(m) ==> m.wf() && m.matrix.nrows == nrows && m.matrix.ncols == ncols
                && m.matrix.all_zero(),
    {
        if nrows == 0 || ncols == 0 {
            return Err(MatrixError::EmptyMatrix);
        }
        let n = (nrows as usize) * (ncols as usize);
        let data = zeros(n);
        Ok(PythonMatrix { matrix: Matrix { nrows, ncols, data } })
    }


    /// Create a new column vector from a list of scalars.
    pub fn vec(entries: Vec<Rational>) -> (r: Result<PythonMatrix, MatrixError>)
        requires
            entries@.len() <= u32::MAX,
            forall|k: int| 0 <= k < entries@.len() ==> (#[trigger] entries@[k]).wf(),
        ensures
            entries@.len() == 0 <==> r == Err::<PythonMatrix, MatrixError>(MatrixError::EmptyMatrix),
            entries@.len() != 0 ==> r is Ok,
            r matches Ok(m) ==> m.wf() && m.matrix.nrows == entries@.len() && m.matrix.ncols == 1
                && m.matrix.data@ == entries@,
    {
        if entries.len() == 0 {
            return Err(MatrixError::EmptyMatrix);
        }
        let n = entries.len() as u32;
        Ok(PythonMatrix { matrix: Matrix { nrows: n, ncols: 1, data: entries } })
    }

    /// Create a new zeroed matrix with `nrows` rows and `ncols` columns. The entries must be
    /// given, one per cell; they are checked for their number but not stored.
    pub fn from_linear(nrows: u32, ncols: u32, entries: Vec<Rational>) -> (r: Result<PythonMatrix, MatrixError>)
        requires
            forall|k: int| 0 <= k < entries@.len() ==> (#[trigger] entries@[k]).wf(),
        ensures
            entries@.len() == 0 ==> r == Err::<PythonMatrix, MatrixError>(MatrixError::EmptyMatrix),
            entries@.len() != 0 && entries@.len() != nrows * ncols ==> r == Err::<PythonMatrix, MatrixError>(
                MatrixError::InvalidShape { entries: entries@.len() as usize, nrows, ncols },
            ),
            entries@.len() != 0 && entries@.len() == nrows * ncols ==> (r matches Ok(m) && m.wf()
                && m.matrix.nrows == nrows && m.matrix.ncols == ncols && m.matrix.all_zero()),
    {
        if entries.len() == 0 {
            return Err(MatrixError::EmptyMatrix);
        }
        proof {
            assert((nrows as int) * (ncols as int) <= 0xffff_fffe_0000_0001) by (nonlinear_arith)
                requires
                    nrows <= 0xffff_ffff,
                    ncols <= 0xffff_ffff,
            ;
        }
        let cells = (nrows as u64) * (ncols as u64);
        if entries.len() as u64 != cells {
            return Err(MatrixError::InvalidShape { entries: entries.len(), nrows, ncols });
        }
        let data = zeros(entries.len());
        Ok(PythonMatrix { matrix: Matrix { nrows, ncols, data } })
    }

    /// Create a new matrix from a 2-dimensional vector of scalars.
    pub fn from_nested(entries: Vec<Vec<Rational>>) -> (r: Result<PythonMatrix, MatrixError>)
        requires
            entries@.len() <= u32::MAX,
            forall|i: int| 0 <= i < entries@.len() ==> (#[trigger] entries@[i])@.len() <= u32::MAX,
            forall|i: int, k: int| 0 <= i < entries@.len() && 0 <= k < entries@[i]@.len() ==> (#[trigger] entries@[i]@[k]).wf(),
        ensures
            (entries@.len() == 0 || exists|i: int| 0 <= i < entries@.len() && (#[trigger] entries@[i])@.len() == 0)
                ==> r == Err::<PythonMatrix, MatrixError>(MatrixError::EmptyMatrix),
            (entries@.len() != 0 && forall|i: int| 0 <= i < entries@.len() ==> (#[trigger] entries@[i])@.len() != 0) ==> {
                if exists|i: int| 0 <= i < entries@.len() && (#[trigger] entries@[i])@.len() != entries@[0]@.len() {
                    r == Err::<PythonMatrix, MatrixError>(MatrixError::NotRectangular)
                } else {
                    (r matches Ok(m) && m.wf() && m.matrix.nrows == entries@.len()
                        && m.matrix.ncols == entries@[0]@.len()
                        && forall|i: int, j: int| 0 <= i < m.matrix.nrows && 0 <= j < m.matrix.ncols
                            ==> #[trigger] m.matrix.at(i, j) == entries@[i]@[j])
                }
            },
    {
        let nr = entries.len();
        let mut i: usize = 0;
        while i < nr
            invariant
                0 <= i <= nr,
                nr == entries@.len(),
                forall|l: int| 0 <= l < i ==> (#[trigger] entries@[l])@.len() != 0,
            decreases nr - i,
        {
            if entries[i].len() == 0 {
                return Err(MatrixError::EmptyMatrix);
            }
            i = i + 1;
        }
        if nr == 0 {
            return Err(MatrixError::EmptyMatrix);
        }
        let nrows = nr as u32;
        let ncols = entries[0].len() as u32;
        let mut i: usize = 0;
        while i < nr
            invariant
                0 <= i <= nr,
                nr == entries@.len(),
                ncols == entries@[0]@.len(),
                forall|l: int| 0 <= l < nr ==> (#[trigger] entries@[l])@.len() != 0,
                forall|l: int| 0 <= l < i ==> (#[trigger] entries@[l])@.len() == ncols,
            decreases nr - i,
        {
            if entries[i].len() != ncols as usize {
                return Err(MatrixError::NotRectangular);
            }
            i = i + 1;
        }
        let ghost rows = entries@;
        let mut data: Vec<Rational> = Vec::new();
        let mut i: usize = 0;
        while i < nr
            invariant
                0 <= i <= nr,
                nr == rows.len(),
                rows == entries@,
                ncols == rows[0]@.len(),
                forall|l: int| 0 <= l < nr ==> (#[trigger] rows[l])@.len() == ncols,
                forall|l: int, k: int| 0 <= l < rows.len() && 0 <= k < rows[l]@.len() ==> (#[trigger] rows[l]@[k]).wf(),
                data@.len() == i * ncols,
                forall|k: int| 0 <= k < data@.len() ==> (#[trigger] data@[k]).wf(),
                forall|a: int, b: int| 0 <= a < i && 0 <= b < ncols ==> #[trigger] data@[a * ncols + b] == rows[a]@[b],
            decreases nr - i,
        {
            let ghost start = data@.len();
            let mut j: usize = 0;
            while j < ncols as usize
                invariant
                    0 <= j <= ncols,
                    0 <= i < nr,
                    nr == rows.len(),
                    rows == entries@,
                    rows[i as int]@.len() == ncols,
                    forall|l: int, k: int| 0 <= l < rows.len() && 0 <= k < rows[l]@.len() ==> (#[trigger] rows[l]@[k]).wf(),
                    start == i * ncols,
                    data@.len() == start + j,
                    forall|k: int| 0 <= k < data@.len() ==> (#[trigger] data@[k]).wf(),
                    forall|a: int, b: int| 0 <= a < i && 0 <= b < ncols ==> #[trigger] data@[a * ncols + b] == rows[a]@[b],
                    forall|b: int| 0 <= b < j ==> #[trigger] data@[start + b] == rows[i as int]@[b],
                decreases ncols - j,
            {
                let ghost before = data@;
                data.push(entries[i][j].copy());
                proof {
                    assert forall|a: int, b: int| 0 <= a < i && 0 <= b < ncols implies #[trigger] data@[a * ncols + b] == before[a * ncols + b] by {
                        lemma_index_in_bounds(a, b, i as int, ncols as int);
                    }
                }
                j = j + 1;
            }
            proof {
                assert((i + 1) * ncols == i * ncols + ncols) by (nonlinear_arith);
                assert forall|a: int, b: int| 0 <= a < i + 1 && 0 <= b < ncols implies #[trigger] data@[a * ncols + b] == rows[a]@[b] by {
                    if a == i {
                        assert(a * ncols + b == start + b);
                    }
                }
            }
            i = i + 1;
        }
        Ok(PythonMatrix { matrix: Matrix { nrows, ncols, data } })
    }

    /// Return the number of rows.
    pub fn nrows(&self) -> (r: usize)
        ensures
            r == self.matrix.nrows,
    {
        self.matrix.nrows as usize
    }

    /// Return the number of columns.
    pub fn ncols(&self) -> (r: usize)
        ensures
            r == self.matrix.ncols,
    {
        self.matrix.ncols as usize
    }

    /// Return true iff every entry in the matrix is zero.
    pub fn is_zero(&self) -> (r: bool)
        ensures
            r == self.matrix.all_zero(),
    {
        let mut k: usize = 0;
        while k < self.matrix.data.len()
            invariant
                0 <= k <= self.matrix.data@.len(),
                forall|l: int| 0 <= l < k ==> (#[trigger] self.matrix.data@[l]).num == 0,
            decreases self.matrix.data@.len() - k,
        {
            if !self.matrix.data[k].is_zero() {
                return false;
            }
            k = k + 1;
        }
        true
    }

    /// Return true iff every non- main diagonal entry in the matrix is zero.
    pub fn is_diagonal(&self) -> (r: bool)
        requires
            self.wf(),
        ensures
            r == self.matrix.diagonal(),
    {
        let nr = self.matrix.nrows;
        let nc = self.matrix.ncols;
        let mut i: u32 = 0;
        while i < nr
            invariant
                0 <= i <= nr,
                nr == self.matrix.nrows,
                nc == self.matrix.ncols,
                self.wf(),
                forall|a: int, b: int| 0 <= a < i && 0 <= b < nc && a != b ==> (#[trigger] self.matrix.at(a, b)).num == 0,
            decreases nr - i,
        {
            let mut j: u32 = 0;
            while j < nc
                invariant
                    0 <= j <= nc,
                    0 <= i < nr,
                    nr == self.matrix.nrows,
                    nc == self.matrix.ncols,
                    self.wf(),
                    forall|a: int, b: int| 0 <= a < i && 0 <= b < nc && a != b ==> (#[trigger] self.matrix.at(a, b)).num == 0,
                    forall|b: int| 0 <= b < j && i != b ==> (#[trigger] self.matrix.at(i as int, b)).num == 0,
                decreases nc - j,
            {
                proof {
                    lemma_index_in_bounds(i as int, j as int, nr as int, nc as int);
                    assert((i as int) * (nc as int) <= (i as int) * (nc as int) + j);
                }
                let len = self.matrix.data.len();
                let k = (i as usize) * (nc as usize) + (j as usize);
                if i != j && !self.matrix.data[k].is_zero() {
                    assert(self.matrix.at(i as int, j as int).num != 0);
                    return false;
                }
                j = j + 1;
            }
            i = i + 1;
        }
        true
    }

    /// Return the transpose of the matrix.
    pub fn transpose(&self) -> (r: PythonMatrix)
        requires
            self.wf(),
        ensures
            r.wf(),
            is_transpose(r.matrix, self.matrix),
    {
        let nr = self.matrix.nrows;
        let nc = self.matrix.ncols;
        let mut data: Vec<Rational> = Vec::new();
        let mut i: u32 = 0;
        while i < nc
            invariant
                0 <= i <= nc,
                nr == self.matrix.nrows,
                nc == self.matrix.ncols,
                self.wf(),
                data@.len() == i * nr,
                forall|k: int| 0 <= k < data@.len() ==> (#[trigger] data@[k]).wf(),
                forall|a: int, b: int| 0 <= a < i && 0 <= b < nr ==> #[trigger] data@[a * nr + b] == self.matrix.at(b, a),
            decreases nc - i,
        {
            let ghost start = data@.len();
            let mut j: u32 = 0;
            while j < nr
                invariant
                    0 <= j <= nr,
                    0 <= i < nc,
                    nr == self.matrix.nrows,
                    nc == self.matrix.ncols,
                    self.wf(),
                    start == i * nr,
                    data@.len() == start + j,
                    forall|k: int| 0 <= k < data@.len() ==> (#[trigger] data@[k]).wf(),
                    forall|a: int, b: int| 0 <= a < i && 0 <= b < nr ==> #[trigger] data@[a * nr + b] == self.matrix.at(b, a),
                    forall|b: int| 0 <= b < j ==> #[trigger] data@[start + b] == self.matrix.at(b, i as int),
                decreases nr - j,
            {
                proof {
                    lemma_index_in_bounds(j as int, i as int, nr as int, nc as int);
                }
                let len = self.matrix.data.len();
                let k = (j as usize) * (nc as usize) + (i as usize);
                let ghost before = data@;
                data.push(self.matrix.data[k].copy());
                proof {
                    assert forall|a: int, b: int| 0 <= a < i && 0 <= b < nr implies #[trigger] data@[a * nr + b] == before[a * nr + b] by {
                        lemma_index_in_bounds(a, b, i as int, nr as int);
                    }
                }
                j = j + 1;
            }
            proof {
                assert((i + 1) * nr == i * nr + nr) by (nonlinear_arith);
                assert forall|a: int, b: int| 0 <= a < i + 1 && 0 <= b < nr implies #[trigger] data@[a * nr + b] == self.matrix.at(b, a) by {
                    if a == i {
                        assert(a * nr + b == start + b);
                    }
                }
            }
            i = i + 1;
        }
        proof {
            assert(nc * nr == nr * nc) by (nonlinear_arith);
        }
        PythonMatrix { matrix: Matrix { nrows: nc, ncols: nr, data } }
    }


    /// Swap the entries of rows `row1` and `row2` in the columns from `start` on.
    pub fn swap_rows(&mut self, row1: u32, row2: u32, start: u32) -> (r: Result<(), MatrixError>)
        requires
            old(self).wf(),
        ensures
            ({
                let m = old(self).matrix;
                if row1 >= m.nrows || row2 >= m.nrows {
                    r == Err::<(), MatrixError>(MatrixError::RowIndexOutOfBounds) && final(self).matrix.data@ == m.data@
                } else if start >= m.ncols {
                    r == Err::<(), MatrixError>(MatrixError::StartIndexOutOfBounds) && final(self).matrix.data@ == m.data@
                } else {
                    &&& r == Ok::<(), MatrixError>(())
                    &&& rows_swapped(final(self).matrix, m, row1 as int, row2 as int, start as int)
                }
            }),
            final(self).wf(),
            final(self).matrix.nrows == old(self).matrix.nrows,
            final(self).matrix.ncols == old(self).matrix.ncols,
    {
        let nr = self.matrix.nrows;
        let nc = self.matrix.ncols;
        if row1 >= nr || row2 >= nr {
            return Err(MatrixError::RowIndexOutOfBounds);
        }
        if start >= nc {
            return Err(MatrixError::StartIndexOutOfBounds);
        }
        let ghost m = self.matrix.data@;
        let mut c: u32 = start;
        while c < nc
            invariant
                start <= c <= nc,
                nr == self.matrix.nrows,
                nc == self.matrix.ncols,
                row1 < nr,
                row2 < nr,
                m.len() == nr * nc,
                self.matrix.data@.len() == m.len(),
                forall|k: int| 0 <= k < m.len() ==> (#[trigger] m[k]).wf(),
                forall|i: int, j: int| 0 <= i < nr && 0 <= j < nc ==> #[trigger] self.matrix.data@[i * nc + j] == (
                    if start <= j < c && i == row1 {
                        m[row2 * nc + j]
                    } else if start <= j < c && i == row2 {
                        m[row1 * nc + j]
                    } else {
                        m[i * nc + j]
                    }),
            decreases nc - c,
        {
            proof {
                lemma_index_in_bounds(row1 as int, c as int, nr as int, nc as int);
                lemma_index_in_bounds(row2 as int, c as int, nr as int, nc as int);
            }
            let len = self.matrix.data.len();
            let k1 = (row1 as usize) * (nc as usize) + (c as usize);
            let k2 = (row2 as usize) * (nc as usize) + (c as usize);
            let x = self.matrix.data[k1].copy();
            let y = self.matrix.data[k2].copy();
            self.matrix.data[k1] = y;
            self.matrix.data[k2] = x;
            proof {
                assert forall|i: int, j: int| 0 <= i < nr && 0 <= j < nc implies #[trigger] self.matrix.data@[i * nc + j] == (
                    if start <= j < c + 1 && i == row1 {
                        m[row2 * nc + j]
                    } else if start <= j < c + 1 && i == row2 {
                        m[row1 * nc + j]
                    } else {
                        m[i * nc + j]
                    }) by {
                    lemma_index_in_bounds(i, j, nr as int, nc as int);
                    if i * nc + j == k1 {
                        lemma_index_injective(i, j, row1 as int, c as int, nc as int);
                    }
                    if i * nc + j == k2 {
                        lemma_index_injective(i, j, row2 as int, c as int, nc as int);
                    }
                }
            }
            c = c + 1;
        }
        proof {
            assert forall|k: int| 0 <= k < self.matrix.data@.len() implies (#[trigger] self.matrix.data@[k]).wf() by {
                let i = k / (nc as int);
                let j = k % (nc as int);
                assert(k == i * nc + j) by (nonlinear_arith)
                    requires
                        nc > 0,
                        i == k / (nc as int),
                        j == k % (nc as int),
                ;
                assert(0 <= i < nr) by (nonlinear_arith)
                    requires
                        nc > 0,
                        0 <= k < nr * nc,
                        i == k / (nc as int),
                ;
                lemma_index_in_bounds(row1 as int, j, nr as int, nc as int);
                lemma_index_in_bounds(row2 as int, j, nr as int, nc as int);
            }
        }
        Ok(())
    }

    /// Swap the columns `col1` and `col2`.
    pub fn swap_cols(&mut self, col1: u32, col2: u32) -> (r: Result<(), MatrixError>)
        requires
            old(self).wf(),
        ensures
            ({
                let m = old(self).matrix;
                if col1 >= m.ncols || col2 >= m.ncols {
                    r == Err::<(), MatrixError>(MatrixError::ColumnIndexOutOfBounds) && final(self).matrix.data@ == m.data@
                } else {
                    &&& r == Ok::<(), MatrixError>(())
                    &&& cols_swapped(final(self).matrix, m, col1 as int, col2 as int)
                }
            }),
            final(self).wf(),
            final(self).matrix.nrows == old(self).matrix.nrows,
            final(self).matrix.ncols == old(self).matrix.ncols,
    {
        let nr = self.matrix.nrows;
        let nc = self.matrix.ncols;
        if col1 >= nc || col2 >= nc {
            return Err(MatrixError::ColumnIndexOutOfBounds);
        }
        let ghost m = self.matrix.data@;
        let mut row: u32 = 0;
        while row < nr
            invariant
                0 <= row <= nr,
                nr == self.matrix.nrows,
                nc == self.matrix.ncols,
                col1 < nc,
                col2 < nc,
                m.len() == nr * nc,
                self.matrix.data@.len() == m.len(),
                forall|k: int| 0 <= k < m.len() ==> (#[trigger] m[k]).wf(),
                forall|i: int, j: int| 0 <= i < nr && 0 <= j < nc ==> #[trigger] self.matrix.data@[i * nc + j] == (
                    if i < row && j == col1 {
                        m[i * nc + col2]
                    } else if i < row && j == col2 {
                        m[i * nc + col1]
                    } else {
                        m[i * nc + j]
                    }),
            decreases nr - row,
        {
            proof {
                lemma_index_in_bounds(row as int, col1 as int, nr as int, nc as int);
                lemma_index_in_bounds(row as int, col2 as int, nr as int, nc as int);
            }
            let len = self.matrix.data.len();
            let k1 = (row as usize) * (nc as usize) + (col1 as usize);
            let k2 = (row as usize) * (nc as usize) + (col2 as usize);
            let x = self.matrix.data[k1].copy();
            let y = self.matrix.data[k2].copy();
            self.matrix.data[k1] = y;
            self.matrix.data[k2] = x;
            proof {
                assert forall|i: int, j: int| 0 <= i < nr && 0 <= j < nc implies #[trigger] self.matrix.data@[i * nc + j] == (
                    if i < row + 1 && j == col1 {
                        m[i * nc + col2]
                    } else if i < row + 1 && j == col2 {
                        m[i * nc + col1]
                    } else {
                        m[i * nc + j]
                    }) by {
                    lemma_index_in_bounds(i, j, nr as int, nc as int);
                    if i * nc + j == k1 {
                        lemma_index_injective(i, j, row as int, col1 as int, nc as int);
                    }
                    if i * nc + j == k2 {
                        lemma_index_injective(i, j, row as int, col2 as int, nc as int);
                    }
                }
            }
            row = row + 1;
        }
        proof {
            assert forall|k: int| 0 <= k < self.matrix.data@.len() implies (#[trigger] self.matrix.data@[k]).wf() by {
                let i = k / (nc as int);
                let j = k % (nc as int);
                assert(k == i * nc + j) by (nonlinear_arith)
                    requires
                        nc > 0,
                        i == k / (nc as int),
                        j == k % (nc as int),
                ;
                assert(0 <= i < nr) by (nonlinear_arith)
                    requires
                        nc > 0,
                        0 <= k < nr * nc,
                        i == k / (nc as int),
                ;
                lemma_index_in_bounds(i, col1 as int, nr as int, nc as int);
                lemma_index_in_bounds(i, col2 as int, nr as int, nc as int);
            }
        }
        Ok(())
    }

    /// The entry at `idx`; negative indices count from the end.
    pub fn __getitem__(&self, idx: (isize, isize)) -> (r: Result<Rational, MatrixError>)
        requires
            self.wf(),
            self.matrix.nrows <= isize::MAX,
            self.matrix.ncols <= isize::MAX,
        ensures
            ({
                let i = if idx.0 < 0 { idx.0 + self.matrix.nrows } else { idx.0 as int };
                let j = if idx.1 < 0 { idx.1 + self.matrix.ncols } else { idx.1 as int };
                if 0 <= i < self.matrix.nrows && 0 <= j < self.matrix.ncols {
                    r == Ok::<Rational, MatrixError>(self.matrix.at(i, j))
                } else {
                    r == Err::<Rational, MatrixError>(MatrixError::IndexOutOfBounds)
                }
            }),
    {
        let nr = self.matrix.nrows as isize;
        let nc = self.matrix.ncols as isize;
        let mut i = idx.0;
        let mut j = idx.1;
        if i < 0 {
            i = i + nr;
        }
        if j < 0 {
            j = j + nc;
        }
        if i < 0 || j < 0 || i >= nr || j >= nc {
            return Err(MatrixError::IndexOutOfBounds);
        }
        proof {
            lemma_index_in_bounds(i as int, j as int, nr as int, nc as int);
        }
        let len = self.matrix.data.len();
        let k = (i as usize) * (nc as usize) + (j as usize);
        Ok(self.matrix.data[k].copy())
    }


    /// Bring both matrices to a common set of variables. Rational coefficients use no
    /// variables, so both come back as they are, copied.
    fn unify(&self, rhs: &PythonMatrix) -> (r: (PythonMatrix, PythonMatrix))
        ensures
            r.0.matrix.nrows == self.matrix.nrows,
            r.0.matrix.ncols == self.matrix.ncols,
            r.0.matrix.data@ == self.matrix.data@,
            r.1.matrix.nrows == rhs.matrix.nrows,
            r.1.matrix.ncols == rhs.matrix.ncols,
            r.1.matrix.data@ == rhs.matrix.data@,
    {
        (self.__copy__(), rhs.__copy__())
    }

    /// Bring the matrix and a scalar to a common set of variables; as for `unify`, both come
    /// back as they are.
    fn unify_scalar(&self, rhs: &Rational) -> (r: (PythonMatrix, Rational))
        ensures
            r.0.matrix.nrows == self.matrix.nrows,
            r.0.matrix.ncols == self.matrix.ncols,
            r.0.matrix.data@ == self.matrix.data@,
            r.1 == *rhs,
    {
        (self.__copy__(), rhs.copy())
    }

    /// Add two matrices `self` and `rhs`, returning the result.
    pub fn __add__(&self, rhs: PythonMatrix) -> (r: Result<PythonMatrix, MatrixError>)
        requires
            self.wf(),
            rhs.wf(),
        ensures
            (self.matrix.nrows != rhs.matrix.nrows || self.matrix.ncols != rhs.matrix.ncols) ==> r
                == Err::<PythonMatrix, MatrixError>(MatrixError::AddDimensionMismatch {
                    lhs_rows: self.matrix.nrows as usize,
                    lhs_cols: self.matrix.ncols as usize,
                    rhs_rows: rhs.matrix.nrows as usize,
                    rhs_cols: rhs.matrix.ncols as usize,
                }),
            (self.matrix.nrows == rhs.matrix.nrows && self.matrix.ncols == rhs.matrix.ncols) ==> (
            if sum_overflows(self.matrix.data@, rhs.matrix.data@) {
                r == Err::<PythonMatrix, MatrixError>(MatrixError::Overflow)
            } else {
                r matches Ok(m) && m.wf() && m.matrix.nrows == self.matrix.nrows && m.matrix.ncols
                    == self.matrix.ncols && is_sum(m.matrix.data@, self.matrix.data@, rhs.matrix.data@)
            }),
    {
        if self.matrix.nrows != rhs.matrix.nrows || self.matrix.ncols != rhs.matrix.ncols {
            return Err(MatrixError::AddDimensionMismatch {
                lhs_rows: self.matrix.nrows as usize,
                lhs_cols: self.matrix.ncols as usize,
                rhs_rows: rhs.matrix.nrows as usize,
                rhs_cols: rhs.matrix.ncols as usize,
            });
        }
        let (new_self, new_rhs) = self.unify(&rhs);
        match add_entries(&new_self.matrix.data, &new_rhs.matrix.data) {
            Some(data) => Ok(PythonMatrix { matrix: Matrix { nrows: new_self.matrix.nrows, ncols: new_self.matrix.ncols, data } }),
            None => Err(MatrixError::Overflow),
        }
    }

    /// Negate the matrix, returning the result.
    pub fn __neg__(&self) -> (r: Result<PythonMatrix, MatrixError>)
        requires
            self.wf(),
        ensures
            if negation_overflows(self.matrix.data@) {
                r == Err::<PythonMatrix, MatrixError>(MatrixError::Overflow)
            } else {
                r matches Ok(m) && m.wf() && m.matrix.nrows == self.matrix.nrows && m.matrix.ncols
                    == self.matrix.ncols && is_negation(m.matrix.data@, self.matrix.data@)
            },
    {
        match neg_entries(&self.matrix.data) {
            Some(data) => Ok(PythonMatrix { matrix: Matrix { nrows: self.matrix.nrows, ncols: self.matrix.ncols, data } }),
            None => Err(MatrixError::Overflow),
        }
    }

    /// Subtract matrix `rhs` from `self`, returning the result: `self + (-rhs)`.
    pub fn __sub__(&self, rhs: PythonMatrix) -> (r: Result<PythonMatrix, MatrixError>)
        requires
            self.wf(),
            rhs.wf(),
        ensures
            negation_overflows(rhs.matrix.data@) ==> r == Err::<PythonMatrix, MatrixError>(MatrixError::Overflow),
            !negation_overflows(rhs.matrix.data@) ==> (
                (self.matrix.nrows != rhs.matrix.nrows || self.matrix.ncols != rhs.matrix.ncols) ==> r
                    == Err::<PythonMatrix, MatrixError>(MatrixError::AddDimensionMismatch {
                        lhs_rows: self.matrix.nrows as usize,
                        lhs_cols: self.matrix.ncols as usize,
                        rhs_rows: rhs.matrix.nrows as usize,
                        rhs_cols: rhs.matrix.ncols as usize,
                    })),
            !negation_overflows(rhs.matrix.data@) && self.matrix.nrows == rhs.matrix.nrows && self.matrix.ncols == rhs.matrix.ncols ==> (
                r is Ok || r == Err::<PythonMatrix, MatrixError>(MatrixError::Overflow)),
            r matches Ok(m) ==> m.wf() && m.matrix.nrows == self.matrix.nrows && m.matrix.ncols == self.matrix.ncols
                && exists|n: Seq<Rational>| is_negation(n, rhs.matrix.data@) && is_sum(m.matrix.data@, self.matrix.data@, n),
            r == Err::<PythonMatrix, MatrixError>(MatrixError::Overflow) ==> negation_overflows(rhs.matrix.data@)
                || forall|n: Seq<Rational>| is_negation(n, rhs.matrix.data@) ==> sum_overflows(self.matrix.data@, n),
    {
        let neg = rhs.__neg__()?;
        let r = self.__add__(neg);
        proof {
            assert forall|n: Seq<Rational>| is_negation(n, rhs.matrix.data@) implies n == neg.matrix.data@ by {
                assert(n =~= neg.matrix.data@);
            }
        }
        r
    }

    /// Multiply every entry by the scalar `c`.
    fn mul_scalar(&self, c: &Rational) -> (r: Result<PythonMatrix, MatrixError>)
        requires
            self.wf(),
            c.wf(),
        ensures
            if scaling_overflows(self.matrix.data@, *c) {
                r == Err::<PythonMatrix, MatrixError>(MatrixError::Overflow)
            } else {
                r matches Ok(m) && m.wf() && m.matrix.nrows == self.matrix.nrows && m.matrix.ncols
                    == self.matrix.ncols && is_scaled(m.matrix.data@, self.matrix.data@, *c)
            },
    {
        match scale_entries(&self.matrix.data, c) {
            Some(data) => Ok(PythonMatrix { matrix: Matrix { nrows: self.matrix.nrows, ncols: self.matrix.ncols, data } }),
            None => Err(MatrixError::Overflow),
        }
    }

    /// The matrix product `self * rhs`.
    fn mul_matrix(&self, rhs: &PythonMatrix) -> (r: Result<PythonMatrix, MatrixError>)
        requires
            self.wf(),
            rhs.wf(),
            self.matrix.ncols == rhs.matrix.nrows,
            self.matrix.nrows * rhs.matrix.ncols <= usize::MAX,
        ensures
            (forall|i: int, j: int| 0 <= i < self.matrix.nrows && 0 <= j < rhs.matrix.ncols ==> (#[trigger] dot(self.matrix, rhs.matrix, i, j, self.matrix.ncols as nat)) is Some) ==> (
                r matches Ok(m) && m.wf() && m.matrix.nrows == self.matrix.nrows && m.matrix.ncols == rhs.matrix.ncols
                && forall|i: int, j: int| 0 <= i < self.matrix.nrows && 0 <= j < rhs.matrix.ncols ==> Some(#[trigger] m.matrix.at(i, j)) == dot(self.matrix, rhs.matrix, i, j, self.matrix.ncols as nat)),
            !(forall|i: int, j: int| 0 <= i < self.matrix.nrows && 0 <= j < rhs.matrix.ncols ==> (#[trigger] dot(self.matrix, rhs.matrix, i, j, self.matrix.ncols as nat)) is Some) ==>
                r == Err::<PythonMatrix, MatrixError>(MatrixError::Overflow),
    {
        let nr = self.matrix.nrows;
        let nk = self.matrix.ncols;
        let nc = rhs.matrix.ncols;
        let ghost a = self.matrix;
        let ghost b = rhs.matrix;
        let mut data: Vec<Rational> = Vec::new();
        let mut i: u32 = 0;
        while i < nr
            invariant
                0 <= i <= nr,
                a == self.matrix,
                b == rhs.matrix,
                nr == a.nrows,
                nk == a.ncols,
                nk == b.nrows,
                nc == b.ncols,
                a.wf(),
                b.wf(),
                nr * nc <= usize::MAX,
                data@.len() == i * nc,
                forall|k: int| 0 <= k < data@.len() ==> (#[trigger] data@[k]).wf(),
                forall|x: int, y: int| 0 <= x < i && 0 <= y < nc ==> Some(#[trigger] data@[x * nc + y]) == dot(a, b, x, y, nk as nat),
            decreases nr - i,
        {
            let ghost start = data@.len();
            let mut j: u32 = 0;
            while j < nc
                invariant
                    0 <= j <= nc,
                    0 <= i < nr,
                    a == self.matrix,
                    b == rhs.matrix,
                    nr == a.nrows,
                    nk == a.ncols,
                    nk == b.nrows,
                    nc == b.ncols,
                    a.wf(),
                    b.wf(),
                    start == i * nc,
                    data@.len() == start + j,
                    forall|k: int| 0 <= k < data@.len() ==> (#[trigger] data@[k]).wf(),
                    forall|x: int, y: int| 0 <= x < i && 0 <= y < nc ==> Some(#[trigger] data@[x * nc + y]) == dot(a, b, x, y, nk as nat),
                    forall|y: int| 0 <= y < j ==> Some(#[trigger] data@[start + y]) == dot(a, b, i as int, y, nk as nat),
                decreases nc - j,
            {
                let mut acc = Rational::zero();
                let mut l: u32 = 0;
                while l < nk
                    invariant
                        0 <= l <= nk,
                        0 <= i < nr,
                        0 <= j < nc,
                        a == self.matrix,
                        b == rhs.matrix,
                        nr == a.nrows,
                        nk == a.ncols,
                        nk == b.nrows,
                        nc == b.ncols,
                        a.wf(),
                        b.wf(),
                        acc.wf(),
                        dot(a, b, i as int, j as int, l as nat) == Some(acc),
                    decreases nk - l,
                {
                    proof {
                        lemma_index_in_bounds(i as int, l as int, nr as int, nk as int);
                        lemma_index_in_bounds(l as int, j as int, nk as int, nc as int);
                    }
                    let len_a = self.matrix.data.len();
                    let len_b = rhs.matrix.data.len();
                    let x = &self.matrix.data[(i as usize) * (nk as usize) + (l as usize)];
                    let y = &rhs.matrix.data[(l as usize) * (nc as usize) + (j as usize)];
                    let p = match x.checked_mul(y) {
                        Some(p) => p,
                        None => {
                            proof {
                                lemma_dot_none_stays(a, b, i as int, j as int, (l + 1) as nat, nk as nat);
                            }
                            return Err(MatrixError::Overflow);
                        },
                    };
                    acc = match acc.checked_add(&p) {
                        Some(v) => v,
                        None => {
                            proof {
                                lemma_dot_none_stays(a, b, i as int, j as int, (l + 1) as nat, nk as nat);
                            }
                            return Err(MatrixError::Overflow);
                        },
                    };
                    l = l + 1;
                }
                let ghost before = data@;
                data.push(acc);
                proof {
                    assert forall|x: int, y: int| 0 <= x < i && 0 <= y < nc implies #[trigger] data@[x * nc + y] == before[x * nc + y] by {
                        lemma_index_in_bounds(x, y, i as int, nc as int);
                    }
                }
                j = j + 1;
            }
            proof {
                assert((i + 1) * nc == i * nc + nc) by (nonlinear_arith);
                assert forall|x: int, y: int| 0 <= x < i + 1 && 0 <= y < nc implies Some(#[trigger] data@[x * nc + y]) == dot(a, b, x, y, nk as nat) by {
                    if x == i {
                        assert(x * nc + y == start + y);
                    }
                }
                assert((i as int) * (nc as int) + nc <= (nr as int) * (nc as int)) by (nonlinear_arith)
                    requires
                        i < nr,
                ;
            }
            i = i + 1;
        }
        proof {
            assert forall|x: int, y: int| 0 <= x < nr && 0 <= y < nc implies Some(#[trigger] Matrix { nrows: nr, ncols: nc, data }.at(x, y)) == dot(a, b, x, y, nk as nat) by {}
            assert forall|x: int, y: int| 0 <= x < nr && 0 <= y < nc implies (#[trigger] dot(a, b, x, y, nk as nat)) is Some by {
                assert(Some(Matrix { nrows: nr, ncols: nc, data }.at(x, y)) == dot(a, b, x, y, nk as nat));
            }
        }
        Ok(PythonMatrix { matrix: Matrix { nrows: nr, ncols: nc, data } })
    }

    /// Matrix multiply `self` and `rhs` (a scalar or a matrix), returning the result.
    pub fn __mul__(&self, rhs: ScalarOrMatrix) -> (r: Result<PythonMatrix, MatrixError>)
        requires
            self.wf(),
            match rhs {
                ScalarOrMatrix::Scalar(c) => c.wf(),
                ScalarOrMatrix::Matrix(m) => m.wf() && self.matrix.nrows * m.matrix.ncols <= usize::MAX,
            },
        ensures
            match rhs {
                ScalarOrMatrix::Scalar(c) => if scaling_overflows(self.matrix.data@, c) {
                    r == Err::<PythonMatrix, MatrixError>(MatrixError::Overflow)
                } else {
                    r matches Ok(m) && m.wf() && m.matrix.nrows == self.matrix.nrows && m.matrix.ncols
                        == self.matrix.ncols && is_scaled(m.matrix.data@, self.matrix.data@, c)
                },
                ScalarOrMatrix::Matrix(b) => if self.matrix.ncols != b.matrix.nrows {
                    r == Err::<PythonMatrix, MatrixError>(MatrixError::MulDimensionMismatch {
                        lhs_rows: self.matrix.nrows as usize,
                        lhs_cols: self.matrix.ncols as usize,
                        rhs_rows: b.matrix.nrows as usize,
                        rhs_cols: b.matrix.ncols as usize,
                    })
                } else if forall|i: int, j: int| 0 <= i < self.matrix.nrows && 0 <= j < b.matrix.ncols ==> (#[trigger] dot(self.matrix, b.matrix, i, j, self.matrix.ncols as nat)) is Some {
                    r matches Ok(m) && m.wf() && m.matrix.nrows == self.matrix.nrows && m.matrix.ncols == b.matrix.ncols
                        && forall|i: int, j: int| 0 <= i < self.matrix.nrows && 0 <= j < b.matrix.ncols ==> Some(#[trigger] m.matrix.at(i, j)) == dot(self.matrix, b.matrix, i, j, self.matrix.ncols as nat)
                } else {
                    r == Err::<PythonMatrix, MatrixError>(MatrixError::Overflow)
                },
            },
    {
        match rhs {
            ScalarOrMatrix::Scalar(c) => {
                let (new_self, new_c) = self.unify_scalar(&c);
                new_self.mul_scalar(&new_c)
            },
            ScalarOrMatrix::Matrix(m) => {
                if self.matrix.ncols != m.matrix.nrows {
                    return Err(MatrixError::MulDimensionMismatch {
                        lhs_rows: self.matrix.nrows as usize,
                        lhs_cols: self.matrix.ncols as usize,
                        rhs_rows: m.matrix.nrows as usize,
                        rhs_cols: m.matrix.ncols as usize,
                    });
                }
                let (new_self, new_rhs) = self.unify(&m);
                proof {
                    lemma_dots_congruent(new_self.matrix, self.matrix, new_rhs.matrix, m.matrix);
                }
                new_self.mul_matrix(&new_rhs)
            },
        }
    }

    /// Multiply `rhs` (a scalar) and `self`, returning the result.
    pub fn __rmul__(&self, rhs: Rational) -> (r: Result<PythonMatrix, MatrixError>)
        requires
            self.wf(),
            rhs.wf(),
        ensures
            if scaling_overflows(self.matrix.data@, rhs) {
                r == Err::<PythonMatrix, MatrixError>(MatrixError::Overflow)
            } else {
                r matches Ok(m) && m.wf() && m.matrix.nrows == self.matrix.nrows && m.matrix.ncols
                    == self.matrix.ncols && is_scaled(m.matrix.data@, self.matrix.data@, rhs)
            },
    {
        self.__mul__(ScalarOrMatrix::Scalar(rhs))
    }

    /// Matrix multiply `self` and `rhs`, returning the result (the same as `__mul__`).
    pub fn __matmul__(&self, rhs: ScalarOrMatrix) -> (r: Result<PythonMatrix, MatrixError>)
        requires
            self.wf(),
            match rhs {
                ScalarOrMatrix::Scalar(c) => c.wf(),
                ScalarOrMatrix::Matrix(m) => m.wf() && self.matrix.nrows * m.matrix.ncols <= usize::MAX,
            },
        ensures
            match rhs {
                ScalarOrMatrix::Scalar(c) => if scaling_overflows(self.matrix.data@, c) {
                    r == Err::<PythonMatrix, MatrixError>(MatrixError::Overflow)
                } else {
                    r matches Ok(m) && m.wf() && m.matrix.nrows == self.matrix.nrows && m.matrix.ncols
                        == self.matrix.ncols && is_scaled(m.matrix.data@, self.matrix.data@, c)
                },
                ScalarOrMatrix::Matrix(b) => if self.matrix.ncols != b.matrix.nrows {
                    r == Err::<PythonMatrix, MatrixError>(MatrixError::MulDimensionMismatch {
                        lhs_rows: self.matrix.nrows as usize,
                        lhs_cols: self.matrix.ncols as usize,
                        rhs_rows: b.matrix.nrows as usize,
                        rhs_cols: b.matrix.ncols as usize,
                    })
                } else if forall|i: int, j: int| 0 <= i < self.matrix.nrows && 0 <= j < b.matrix.ncols ==> (#[trigger] dot(self.matrix, b.matrix, i, j, self.matrix.ncols as nat)) is Some {
                    r matches Ok(m) && m.wf() && m.matrix.nrows == self.matrix.nrows && m.matrix.ncols == b.matrix.ncols
                        && forall|i: int, j: int| 0 <= i < self.matrix.nrows && 0 <= j < b.matrix.ncols ==> Some(#[trigger] m.matrix.at(i, j)) == dot(self.matrix, b.matrix, i, j, self.matrix.ncols as nat)
                } else {
                    r == Err::<PythonMatrix, MatrixError>(MatrixError::Overflow)
                },
            },
    {
        self.__mul__(rhs)
    }

    /// Multiply `rhs` (a scalar) and `self`, returning the result.
    pub fn __rmatmul__(&self, rhs: Rational) -> (r: Result<PythonMatrix, MatrixError>)
        requires
            self.wf(),
            rhs.wf(),
        ensures
            if scaling_overflows(self.matrix.data@, rhs) {
                r == Err::<PythonMatrix, MatrixError>(MatrixError::Overflow)
            } else {
                r matches Ok(m) && m.wf() && m.matrix.nrows == self.matrix.nrows && m.matrix.ncols
                    == self.matrix.ncols && is_scaled(m.matrix.data@, self.matrix.data@, rhs)
            },
    {
        self.__mul__(ScalarOrMatrix::Scalar(rhs))
    }

    /// Divide this matrix by scalar `rhs` and return the result.
    pub fn __truediv__(&self, rhs: Rational) -> (r: Result<PythonMatrix, MatrixError>)
        requires
            self.wf(),
            rhs.wf(),
        ensures
            rhs.num == 0 ==> r == Err::<PythonMatrix, MatrixError>(MatrixError::DivisionByZero),
            rhs.num != 0 ==> if quotient_overflows(self.matrix.data@, rhs) {
                r == Err::<PythonMatrix, MatrixError>(MatrixError::Overflow)
            } else {
                r matches Ok(m) && m.wf() && m.matrix.nrows == self.matrix.nrows && m.matrix.ncols
                    == self.matrix.ncols && is_quotient(m.matrix.data@, self.matrix.data@, rhs)
            },
    {
        if rhs.is_zero() {
            return Err(MatrixError::DivisionByZero);
        }
        match divide_entries(&self.matrix.data, &rhs) {
            Some(data) => Ok(PythonMatrix { matrix: Matrix { nrows: self.matrix.nrows, ncols: self.matrix.ncols, data } }),
            None => Err(MatrixError::Overflow),
        }
    }

    /// `^` is not a power: the error points to `**`.
    pub fn __xor__(&self, rhs: &PythonMatrix) -> (r: Result<PythonMatrix, MatrixError>)
        ensures
            r == Err::<PythonMatrix, MatrixError>(MatrixError::XorNotSupported),
    {
        Err(MatrixError::XorNotSupported)
    }

    /// `^` is not a power: the error points to `**`.
    pub fn __rxor__(&self, rhs: &PythonMatrix) -> (r: Result<PythonMatrix, MatrixError>)
        ensures
            r == Err::<PythonMatrix, MatrixError>(MatrixError::XorNotSupported),
    {
        Err(MatrixError::XorNotSupported)
    }

    /// Compare two matrices: `==` and `!=` compare shapes and entry values; other comparisons
    /// are errors.
    pub fn __richcmp__(&self, other: &PythonMatrix, op: CompareOp) -> (r: Result<bool, MatrixError>)
        ensures
            ({
                let same = self.matrix.nrows == other.matrix.nrows && self.matrix.ncols == other.matrix.ncols
                    && self.matrix.data@.len() == other.matrix.data@.len()
                    && forall|k: int| 0 <= k < self.matrix.data@.len() ==> (#[trigger] self.matrix.data@[k]).same_value(other.matrix.data@[k]);
                match op {
                    CompareOp::Eq => r == Ok::<bool, MatrixError>(same),
                    CompareOp::Ne => r == Ok::<bool, MatrixError>(!same),
                    _ => r == Err::<bool, MatrixError>(MatrixError::InequalityNotSupported),
                }
            }),
    {
        match op {
            CompareOp::Eq => Ok(self.matrix.equals(&other.matrix)),
            CompareOp::Ne => Ok(!self.matrix.equals(&other.matrix)),
            _ => Err(MatrixError::InequalityNotSupported),
        }
    }


    /// Augment the matrix with another matrix, e.g. create `[A B]` from matrix `A` and `B`.
    ///
    /// Returns an error when the matrices do not have the same number of rows.
    pub fn augment(&self, b: PythonMatrix) -> (r: Result<PythonMatrix, MatrixError>)
        requires
            self.wf(),
            b.wf(),
            self.matrix.ncols + b.matrix.ncols <= u32::MAX,
            self.matrix.nrows * (self.matrix.ncols + b.matrix.ncols) <= usize::MAX,
        ensures
            self.matrix.nrows != b.matrix.nrows ==> r == Err::<PythonMatrix, MatrixError>(MatrixError::AugmentRowMismatch {
                lhs_rows: self.matrix.nrows as usize,
                rhs_rows: b.matrix.nrows as usize,
            }),
            self.matrix.nrows == b.matrix.nrows ==> (r matches Ok(m) && m.wf() && is_augmented(m.matrix, self.matrix, b.matrix)),
    {
        if self.matrix.nrows != b.matrix.nrows {
            return Err(MatrixError::AugmentRowMismatch {
                lhs_rows: self.matrix.nrows as usize,
                rhs_rows: b.matrix.nrows as usize,
            });
        }
        let (a, b) = self.unify(&b);
        let nr = a.matrix.nrows;
        let na = a.matrix.ncols;
        let nb = b.matrix.ncols;
        let nc = na + nb;
        let ghost am = a.matrix;
        let ghost bm = b.matrix;
        let mut data: Vec<Rational> = Vec::new();
        let mut i: u32 = 0;
        while i < nr
            invariant
                0 <= i <= nr,
                am == a.matrix,
                bm == b.matrix,
                nr == am.nrows,
                nr == bm.nrows,
                na == am.ncols,
                nb == bm.ncols,
                nc == na + nb,
                am.wf(),
                bm.wf(),
                nr * nc <= usize::MAX,
                data@.len() == i * nc,
                forall|k: int| 0 <= k < data@.len() ==> (#[trigger] data@[k]).wf(),
                forall|x: int, y: int| 0 <= x < i && 0 <= y < nc ==> #[trigger] data@[x * nc + y] == (
                    if y < na { am.at(x, y) } else { bm.at(x, y - na) }),
            decreases nr - i,
        {
            let ghost start = data@.len();
            let mut j: u32 = 0;
            while j < nc
                invariant
                    0 <= j <= nc,
                    0 <= i < nr,
                    am == a.matrix,
                    bm == b.matrix,
                    nr == am.nrows,
                    nr == bm.nrows,
                    na == am.ncols,
                    nb == bm.ncols,
                    nc == na + nb,
                    am.wf(),
                    bm.wf(),
                    start == i * nc,
                    data@.len() == start + j,
                    forall|k: int| 0 <= k < data@.len() ==> (#[trigger] data@[k]).wf(),
                    forall|x: int, y: int| 0 <= x < i && 0 <= y < nc ==> #[trigger] data@[x * nc + y] == (
                        if y < na { am.at(x, y) } else { bm.at(x, y - na) }),
                    forall|y: int| 0 <= y < j ==> #[trigger] data@[start + y] == (
                        if y < na { am.at(i as int, y) } else { bm.at(i as int, y - na) }),
                decreases nc - j,
            {
                let ghost before = data@;
                if j < na {
                    proof {
                        lemma_index_in_bounds(i as int, j as int, nr as int, na as int);
                    }
                    let len = a.matrix.data.len();
                    data.push(a.matrix.data[(i as usize) * (na as usize) + (j as usize)].copy());
                } else {
                    proof {
                        lemma_index_in_bounds(i as int, (j - na) as int, nr as int, nb as int);
                    }
                    let len = b.matrix.data.len();
                    data.push(b.matrix.data[(i as usize) * (nb as usize) + ((j - na) as usize)].copy());
                }
                proof {
                    assert forall|x: int, y: int| 0 <= x < i && 0 <= y < nc implies #[trigger] data@[x * nc + y] == before[x * nc + y] by {
                        lemma_index_in_bounds(x, y, i as int, nc as int);
                    }
                }
                j = j + 1;
            }
            proof {
                assert((i + 1) * nc == i * nc + nc) by (nonlinear_arith);
                assert forall|x: int, y: int| 0 <= x < i + 1 && 0 <= y < nc implies #[trigger] data@[x * nc + y] == (
                    if y < na { am.at(x, y) } else { bm.at(x, y - na) }) by {
                    if x == i {
                        assert(x * nc + y == start + y);
                    }
                }
                assert((i as int) * (nc as int) + nc <= (nr as int) * (nc as int)) by (nonlinear_arith)
                    requires
                        i < nr,
                ;
            }
            i = i + 1;
        }
        let m = Matrix { nrows: nr, ncols: nc, data };
        assert forall|x: int, y: int| 0 <= x < nr && 0 <= y < nc implies #[trigger] m.at(x, y) == (
            if y < na { am.at(x, y) } else { bm.at(x, y - na) }) by {}
        Ok(PythonMatrix { matrix: m })
    }

    /// Split the matrix into two matrices at column `index`: the columns before `index` and
    /// the columns from `index` on.
    pub fn split_col(&self, index: u32) -> (r: Result<(PythonMatrix, PythonMatrix), MatrixError>)
        requires
            self.wf(),
        ensures
            (index == 0 || index >= self.matrix.ncols) ==> r == Err::<(PythonMatrix, PythonMatrix), MatrixError>(MatrixError::SplitIndexOutOfBounds { index, ncols: self.matrix.ncols }),
            (0 < index < self.matrix.ncols) ==> (r matches Ok((left, right)) && left.wf() && right.wf()
                && is_left_part(left.matrix, self.matrix, index as int) && is_right_part(right.matrix, self.matrix, index as int)),
    {
        if index == 0 || index >= self.matrix.ncols {
            return Err(MatrixError::SplitIndexOutOfBounds { index, ncols: self.matrix.ncols });
        }
        let left = self.columns(0, index);
        let right = self.columns(index, self.matrix.ncols);
        Ok((left, right))
    }

    /// The columns `from` up to `to` (exclusive).
    fn columns(&self, from: u32, to: u32) -> (r: PythonMatrix)
        requires
            self.wf(),
            from < to <= self.matrix.ncols,
        ensures
            r.wf(),
            r.matrix.nrows == self.matrix.nrows,
            r.matrix.ncols == to - from,
            forall|i: int, j: int| 0 <= i < self.matrix.nrows && 0 <= j < to - from ==> #[trigger] r.matrix.at(i, j) == self.matrix.at(i, j + from),
    {
        let nr = self.matrix.nrows;
        let na = self.matrix.ncols;
        let nc = to - from;
        let ghost am = self.matrix;
        proof {
            assert((nr as int) * (nc as int) <= (nr as int) * (na as int)) by (nonlinear_arith)
                requires
                    nc <= na,
            ;
        }
        let len = self.matrix.data.len();
        let mut data: Vec<Rational> = Vec::new();
        let mut i: u32 = 0;
        while i < nr
            invariant
                0 <= i <= nr,
                am == self.matrix,
                nr == am.nrows,
                na == am.ncols,
                from < to <= na,
                nc == to - from,
                am.wf(),
                nr * nc <= usize::MAX,
                data@.len() == i * nc,
                forall|k: int| 0 <= k < data@.len() ==> (#[trigger] data@[k]).wf(),
                forall|x: int, y: int| 0 <= x < i && 0 <= y < nc ==> #[trigger] data@[x * nc + y] == am.at(x, y + from),
            decreases nr - i,
        {
            let ghost start = data@.len();
            let mut j: u32 = 0;
            while j < nc
                invariant
                    0 <= j <= nc,
                    0 <= i < nr,
                    am == self.matrix,
                    nr == am.nrows,
                    na == am.ncols,
                    from < to <= na,
                    nc == to - from,
                    am.wf(),
                    start == i * nc,
                    data@.len() == start + j,
                    forall|k: int| 0 <= k < data@.len() ==> (#[trigger] data@[k]).wf(),
                    forall|x: int, y: int| 0 <= x < i && 0 <= y < nc ==> #[trigger] data@[x * nc + y] == am.at(x, y + from),
                    forall|y: int| 0 <= y < j ==> #[trigger] data@[start + y] == am.at(i as int, y + from),
                decreases nc - j,
            {
                let ghost before = data@;
                proof {
                    lemma_index_in_bounds(i as int, (j + from) as int, nr as int, na as int);
                }
                let len = self.matrix.data.len();
                data.push(self.matrix.data[(i as usize) * (na as usize) + ((j + from) as usize)].copy());
                proof {
                    assert forall|x: int, y: int| 0 <= x < i && 0 <= y < nc implies #[trigger] data@[x * nc + y] == before[x * nc + y] by {
                        lemma_index_in_bounds(x, y, i as int, nc as int);
                    }
                }
                j = j + 1;
            }
            proof {
                assert((i + 1) * nc == i * nc + nc) by (nonlinear_arith);
                assert forall|x: int, y: int| 0 <= x < i + 1 && 0 <= y < nc implies #[trigger] data@[x * nc + y] == am.at(x, y + from) by {
                    if x == i {
                        assert(x * nc + y == start + y);
                    }
                }
                assert((i as int) * (nc as int) + nc <= (nr as int) * (nc as int)) by (nonlinear_arith)
                    requires
                        i < nr,
                ;
            }
            i = i + 1;
        }
        let m = Matrix { nrows: nr, ncols: nc, data };
        assert forall|x: int, y: int| 0 <= x < nr && 0 <= y < nc implies #[trigger] m.at(x, y) == am.at(x, y + from) by {}
        PythonMatrix { matrix: m }
    }

    /// Apply a function `f` to every entry of the matrix, row by row; the first error of `f`
    /// ends the walk and is the result: `f` succeeded on every entry before it.
    pub fn map<E, F: Fn(&Rational) -> Result<Rational, E>>(&self, f: F) -> (r: Result<PythonMatrix, E>)
        requires
            self.wf(),
            forall|x: &Rational| #[trigger] f.requires((x,)),
            forall|x: &Rational, o: Result<Rational, E>| #[trigger] f.ensures((x,), o) ==> (o matches Ok(v) ==> v.wf()),
        ensures
            r matches Ok(m) ==> m.wf() && m.matrix.nrows == self.matrix.nrows && m.matrix.ncols == self.matrix.ncols
                && forall|k: int| 0 <= k < self.matrix.data@.len() ==> f.ensures((&self.matrix.data@[k],), Ok::<Rational, E>(#[trigger] m.matrix.data@[k])),
            r matches Err(e) ==> exists|vs: Seq<Rational>|
                #[trigger] maps_ok_to(f, self.matrix.data@, vs) && vs.len() < self.matrix.data@.len()
                    && f.ensures((&self.matrix.data@[vs.len() as int],), Err::<Rational, E>(e)),
    {
        let mut data: Vec<Rational> = Vec::new();
        let mut k: usize = 0;
        while k < self.matrix.data.len()
            invariant
                0 <= k <= self.matrix.data@.len(),
                self.wf(),
                forall|x: &Rational| #[trigger] f.requires((x,)),
                forall|x: &Rational, o: Result<Rational, E>| #[trigger] f.ensures((x,), o) ==> (o matches Ok(v) ==> v.wf()),
                data@.len() == k,
                forall|l: int| 0 <= l < k ==> f.ensures((&self.matrix.data@[l],), Ok::<Rational, E>(#[trigger] data@[l])),
                forall|l: int| 0 <= l < k ==> (#[trigger] data@[l]).wf(),
            decreases self.matrix.data@.len() - k,
        {
            let x = &self.matrix.data[k];
            let res = f(x);
            assert(f.ensures((&self.matrix.data@[k as int],), res));
            match res {
                Ok(v) => {
                    data.push(v);
                },
                Err(e) => {
                    assert(f.ensures((&self.matrix.data@[k as int],), Err::<Rational, E>(e)));
                    assert(maps_ok_to(f, self.matrix.data@, data@));
                    return Err(e);
                },
            }
            k = k + 1;
        }
        Ok(PythonMatrix { matrix: Matrix { nrows: self.matrix.nrows, ncols: self.matrix.ncols, data } })
    }

    /// Get the content of the matrix, i.e. the gcd of all entries.
    pub fn content(&self) -> (r: Result<Rational, MatrixError>)
        requires
            self.wf(),
        ensures
            match content_of(self.matrix.data@) {
                Some(c) => r == Ok::<Rational, MatrixError>(c),
                None => r == Err::<Rational, MatrixError>(MatrixError::Overflow),
            },
            r matches Ok(c) ==> c.wf(),
            r matches Ok(c) ==> forall|k: int| 0 <= k < self.matrix.data@.len() ==> (#[trigger] self.matrix.data@[k]).is_multiple_of(c),
            (forall|k: int| 0 <= k < self.matrix.data@.len() ==> (#[trigger] self.matrix.data@[k]).den == 1) ==> (r matches Ok(c)
                ==> c.den == 1 && c.num >= 0 && forall|d: int| #[trigger] divides_all_numerators(self.matrix.data@, d) ==> int_multiple(c.num as int, d)),
    {
        let mut acc = Rational::zero();
        let mut k: usize = 0;
        while k < self.matrix.data.len()
            invariant
                0 <= k <= self.matrix.data@.len(),
                self.wf(),
                acc.wf(),
                content_of(self.matrix.data@.take(k as int)) == Some(acc),
            decreases self.matrix.data@.len() - k,
        {
            assert(self.matrix.data@.take(k + 1).drop_last() =~= self.matrix.data@.take(k as int));
            match acc.checked_gcd(&self.matrix.data[k]) {
                Some(g) => acc = g,
                None => {
                    proof {
                        lemma_content_none_stays(self.matrix.data@, k + 1);
                    }
                    return Err(MatrixError::Overflow);
                },
            }
            k = k + 1;
        }
        assert(self.matrix.data@.take(k as int) =~= self.matrix.data@);
        proof {
            lemma_content_divides(self.matrix.data@);
            if forall|k: int| 0 <= k < self.matrix.data@.len() ==> (#[trigger] self.matrix.data@[k]).den == 1 {
                lemma_content_integers(self.matrix.data@);
            }
        }
        Ok(acc)
    }

    /// Construct the same matrix, but with the content removed (divided out); a matrix whose
    /// content is zero is returned unchanged.
    pub fn primitive_part(&self) -> (r: Result<PythonMatrix, MatrixError>)
        requires
            self.wf(),
        ensures
            match content_of(self.matrix.data@) {
                None => r == Err::<PythonMatrix, MatrixError>(MatrixError::Overflow),
                Some(c) => if c.num == 0 {
                    r matches Ok(m) && m.matrix.nrows == self.matrix.nrows && m.matrix.ncols == self.matrix.ncols && m.matrix.data@ == self.matrix.data@
                } else if quotient_overflows(self.matrix.data@, c) {
                    r == Err::<PythonMatrix, MatrixError>(MatrixError::Overflow)
                } else {
                    r matches Ok(m) && m.wf() && m.matrix.nrows == self.matrix.nrows && m.matrix.ncols
                        == self.matrix.ncols && is_quotient(m.matrix.data@, self.matrix.data@, c)
                },
            },
    {
        let c = self.content()?;
        if c.is_zero() {
            return Ok(self.__copy__());
        }
        self.__truediv__(c)
    }

    /// Copy the matrix.
    pub fn __copy__(&self) -> (r: PythonMatrix)
        ensures
            r.matrix.nrows == self.matrix.nrows,
            r.matrix.ncols == self.matrix.ncols,
            r.matrix.data@ == self.matrix.data@,
    {
        PythonMatrix { matrix: self.matrix.copy() }
    }

    /// Create a new square matrix with `nrows` rows and ones on the main diagonal and zeroes
    /// elsewhere.
    pub fn identity(nrows: u32) -> (r: Result<PythonMatrix, MatrixError>)
        requires
            nrows * nrows <= usize::MAX,
        ensures
            nrows == 0 <==> r == Err::<PythonMatrix, MatrixError>(MatrixError::EmptyMatrix),
            nrows != 0 ==> r is Ok,
            r matches Ok(m) ==> {
                &&& m.wf()
                &&& is_identity(m.matrix, nrows as int)
            },
    {
        if nrows == 0 {
            return Err(MatrixError::EmptyMatrix);
        }
        let mut diag: Vec<Rational> = Vec::new();
        let mut k: u32 = 0;
        while k < nrows
            invariant
                0 <= k <= nrows,
                diag@.len() == k,
                forall|l: int| 0 <= l < k ==> (#[trigger] diag@[l]).num == 1 && diag@[l].den == 1,
            decreases nrows - k,
        {
            diag.push(Rational::one());
            k = k + 1;
        }
        let m = eye_matrix(&diag, nrows);
        Ok(PythonMatrix { matrix: m })
    }

    /// Create a new matrix with the scalars `diag` on the main diagonal and zeroes elsewhere.
    pub fn eye(diag: Vec<Rational>) -> (r: Result<PythonMatrix, MatrixError>)
        requires
            diag@.len() <= u32::MAX,
            diag@.len() * diag@.len() <= usize::MAX,
            forall|k: int| 0 <= k < diag@.len() ==> (#[trigger] diag@[k]).wf(),
        ensures
            diag@.len() == 0 <==> r == Err::<PythonMatrix, MatrixError>(MatrixError::EmptyDiagonal),
            diag@.len() != 0 ==> r is Ok,
            r matches Ok(m) ==> {
                &&& m.wf()
                &&& m.matrix.nrows == diag@.len() && m.matrix.ncols == diag@.len()
                &&& forall|i: int, j: int| 0 <= i < diag@.len() && 0 <= j < diag@.len() ==> #[trigger] m.matrix.at(i, j) == (if i == j { diag@[i] } else { Rational { num: 0, den: 1 } })
            },
    {
        if diag.len() == 0 {
            return Err(MatrixError::EmptyDiagonal);
        }
        let n = diag.len() as u32;
        let m = eye_matrix(&diag, n);
        Ok(PythonMatrix { matrix: m })
    }
}

/// The square matrix with `diag` on the main diagonal and zeros elsewhere.
fn eye_matrix(diag: &Vec<Rational>, n: u32) -> (r: Matrix)
    requires
        diag@.len() == n,
        n * n <= usize::MAX,
        forall|k: int| 0 <= k < diag@.len() ==> (#[trigger] diag@[k]).wf(),
    ensures
        r.wf(),
        r.nrows == n && r.ncols == n,
        forall|i: int, j: int| 0 <= i < n && 0 <= j < n ==> #[trigger] r.at(i, j) == (if i == j { diag@[i] } else { Rational { num: 0, den: 1 } }),
{
    let mut data: Vec<Rational> = Vec::new();
    let mut i: u32 = 0;
    while i < n
        invariant
            0 <= i <= n,
            n * n <= usize::MAX,
            diag@.len() == n,
            data@.len() == i * n,
            forall|k: int| 0 <= k < diag@.len() ==> (#[trigger] diag@[k]).wf(),
            forall|k: int| 0 <= k < data@.len() ==> (#[trigger] data@[k]).wf(),
            forall|a: int, b: int| 0 <= a < i && 0 <= b < n ==> #[trigger] data@[a * n + b] == (if a == b { diag@[a] } else { Rational { num: 0, den: 1 } }),
        decreases n - i,
    {
        let mut j: u32 = 0;
        let ghost start = data@.len();
        assert(start == i * n);
        while j < n
            invariant
                0 <= j <= n,
                0 <= i < n,
                diag@.len() == n,
                data@.len() == start + j,
                start == i * n,
                forall|k: int| 0 <= k < diag@.len() ==> (#[trigger] diag@[k]).wf(),
                forall|k: int| 0 <= k < data@.len() ==> (#[trigger] data@[k]).wf(),
                forall|a: int, b: int| 0 <= a < i && 0 <= b < n ==> #[trigger] data@[a * n + b] == (if a == b { diag@[a] } else { Rational { num: 0, den: 1 } }),
                forall|b: int| 0 <= b < j ==> #[trigger] data@[start + b] == (if i == b { diag@[i as int] } else { Rational { num: 0, den: 1 } }),
            decreases n - j,
        {
            let ghost before = data@;
            if i == j {
                data.push(diag[i as usize].copy());
            } else {
                data.push(Rational::zero());
            }
            proof {
                assert forall|a: int, b: int| 0 <= a < i && 0 <= b < n implies #[trigger] data@[a * n + b] == before[a * n + b] by {
                    lemma_index_in_bounds(a, b, i as int, n as int);
                }
            }
            j = j + 1;
        }
        proof {
            assert((i + 1) * n == i * n + n) by (nonlinear_arith);
            assert forall|a: int, b: int| 0 <= a < i + 1 && 0 <= b < n implies #[trigger] data@[a * n + b] == (if a == b { diag@[a] } else { Rational { num: 0, den: 1 } }) by {
                if a == i {
                    assert(a * n + b == start + b);
                }
            }
        }
        i = i + 1;
    }
    Matrix { nrows: n, ncols: n, data }
}

} // verus!
