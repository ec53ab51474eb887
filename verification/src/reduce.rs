use crate::matrix::{dot, is_identity, lemma_dot_congruent, lemma_index_in_bounds, Matrix, MatrixError, PythonMatrix, ScalarOrMatrix};
use crate::rational::{gcd, one_q, reduced, zero_q, lemma_reduced_value, Rational};
use vstd::prelude::*;

verus! {

/// An elementary row operation: exchanging two rows, or subtracting from a row a multiple of
/// another.
pub enum RowOp {
    Swap(usize, usize),
    SubMul(usize, usize, Rational),
}

/// The rows of a matrix.
pub open spec fn rows_of(m: Matrix) -> Seq<Seq<Rational>> {
    Seq::new(m.nrows as nat, |i: int| Seq::new(m.ncols as nat, |j: int| m.at(i, j)))
}

/// `x - c * y`, computed in checked arithmetic.
pub open spec fn sub_entry(x: Rational, y: Rational, c: Rational) -> Option<Rational> {
    match c.spec_mul(y) {
        Some(t) => match t.spec_neg() {
            Some(nt) => x.spec_add(nt),
            None => None,
        },
        None => None,
    }
}

/// Row `rk` minus `c` times row `ri`, if no coefficient overflows.
pub open spec fn sub_row(rk: Seq<Rational>, ri: Seq<Rational>, c: Rational) -> Option<Seq<Rational>> {
    if rk.len() == ri.len() && forall|l: int| 0 <= l < rk.len() ==> (#[trigger] sub_entry(rk[l], ri[l], c)) is Some {
        Some(Seq::new(rk.len(), |l: int| sub_entry(rk[l], ri[l], c)->0))
    } else {
        None
    }
}

/// The rows after one operation; `None` where it names a row that is not there, subtracts a
/// row from itself, or overflows.
pub open spec fn apply_op(rows: Seq<Seq<Rational>>, op: RowOp) -> Option<Seq<Seq<Rational>>> {
    match op {
        RowOp::Swap(a, b) => if a < rows.len() && b < rows.len() {
            Some(rows.update(a as int, rows[b as int]).update(b as int, rows[a as int]))
        } else {
            None
        },
        RowOp::SubMul(k, i, c) => if k < rows.len() && i < rows.len() && k != i {
            match sub_row(rows[k as int], rows[i as int], c) {
                Some(r) => Some(rows.update(k as int, r)),
                None => None,
            }
        } else {
            None
        },
    }
}

/// The rows after the operations, in order.
pub open spec fn apply_ops(rows: Seq<Seq<Rational>>, ops: Seq<RowOp>) -> Option<Seq<Seq<Rational>>>
    decreases ops.len(),
{
    if ops.len() == 0 {
        Some(rows)
    } else {
        match apply_ops(rows, ops.drop_last()) {
            Some(r) => apply_op(r, ops.last()),
            None => None,
        }
    }
}

/// `row` has its first nonzero coefficient at column `p`.
pub open spec fn leads_at(row: Seq<Rational>, p: int) -> bool {
    &&& 0 <= p < row.len()
    &&& row[p].num != 0
    &&& forall|c: int| 0 <= c < p ==> (#[trigger] row[c]).num == 0
}

/// `piv` are the pivot columns of `rows` in echelon form within the first `max_col` columns:
/// the first `r` rows lead at increasing columns before `max_col`, and the other rows are
/// zero there.
pub open spec fn pivots(rows: Seq<Seq<Rational>>, max_col: int, r: int, piv: Seq<int>) -> bool {
    &&& 0 <= r <= rows.len()
    &&& piv.len() == r
    &&& forall|t: int| 0 <= t < r ==> #[trigger] piv[t] < max_col && leads_at(rows[t], piv[t])
    &&& forall|s: int, t: int| 0 <= s < t < r ==> piv[s] < piv[t]
    &&& forall|t: int, c: int| r <= t < rows.len() && 0 <= c < max_col ==> (#[trigger] rows[t][c]).num == 0
}

/// `rows` is in echelon form within the first `max_col` columns, with `r` nonzero rows there:
/// the rank of those columns is `r`.
pub open spec fn echelon(rows: Seq<Seq<Rational>>, max_col: int, r: int) -> bool {
    exists|piv: Seq<int>| pivots(rows, max_col, r, piv)
}

/// Eliminating the coefficient in row `k`, column `j`, by row `i` overflows.
pub open spec fn elimination_overflows(rows: Seq<Seq<Rational>>, k: int, i: int, j: int) -> bool {
    &&& 0 <= k < rows.len()
    &&& 0 <= i < rows.len()
    &&& 0 <= j < rows[k].len()
    &&& j < rows[i].len()
    &&& match rows[k][j].spec_div(rows[i][j]) {
        None => true,
        Some(c) => sub_row(rows[k], rows[i], c) is None,
    }
}

/// Zero over any positive denominator reduces to `0/1`.
proof fn lemma_zero_reduces(d: int)
    requires
        0 < d,
    ensures
        reduced(0, d) == Some(zero_q()),
{
    assert(0int % d == 0) by (nonlinear_arith)
        requires
            d > 0,
    ;
    assert(gcd(0, d as nat) == gcd(d as nat, 0));
    assert(gcd(d as nat, 0) == d);
    assert(d % d == 0 && d / d == 1 && 0int / d == 0) by (nonlinear_arith)
        requires
            d > 0,
    ;
}

/// Subtracting any multiple of zero from zero gives zero.
proof fn lemma_sub_zero(x: Rational, y: Rational, c: Rational)
    requires
        x.wf(),
        y.wf(),
        c.wf(),
        x.num == 0,
        y.num == 0,
    ensures
        sub_entry(x, y, c) == Some(zero_q()),
{
    assert(c.den * y.den > 0) by (nonlinear_arith)
        requires
            c.den > 0,
            y.den > 0,
    ;
    assert(c.num * y.num == 0) by (nonlinear_arith)
        requires
            y.num == 0,
    ;
    lemma_zero_reduces(c.den * y.den);
    assert(c.spec_mul(y) == Some(zero_q()));
    lemma_zero_reduces(1);
    assert(zero_q().spec_neg() == Some(zero_q()));
    assert(x.num * 1 + 0 * x.den == 0);
    assert(x.den * 1 == x.den);
    lemma_zero_reduces(x.den as int);
}

/// Subtracting `x / p` times `p` from `x` gives zero.
proof fn lemma_sub_eliminates(x: Rational, p: Rational, c: Rational)
    requires
        x.wf(),
        p.wf(),
        p.num != 0,
        x.spec_div(p) == Some(c),
        sub_entry(x, p, c) is Some,
    ensures
        sub_entry(x, p, c)->0.num == 0,
{
    crate::rational::lemma_div_then_mul(x, p);
    crate::rational::lemma_mul_commutative(c, p);
    let t = c.spec_mul(p)->0;
    let nt = t.spec_neg()->0;
    assert(t.den > 0);
    lemma_reduced_value(-t.num, t.den as int);
    let xn = x.num as int;
    let xd = x.den as int;
    let tn = t.num as int;
    let td = t.den as int;
    let nn = nt.num as int;
    let nd = nt.den as int;
    assert(nn * td == -tn * nd);
    assert(tn * xd == xn * td);
    assert(xd * nd > 0) by (nonlinear_arith)
        requires
            xd > 0,
            nd > 0,
    ;
    assert((xn * nd + nn * xd) * td == 0) by (nonlinear_arith)
        requires
            nn * td == -tn * nd,
            tn * xd == xn * td,
    ;
    assert(xn * nd + nn * xd == 0) by (nonlinear_arith)
        requires
            (xn * nd + nn * xd) * td == 0,
            td > 0,
    ;
    lemma_zero_reduces(xd * nd);
}

/// The rows held in a vector of rows.
pub open spec fn rows_view(v: Vec<Vec<Rational>>) -> Seq<Seq<Rational>> {
    Seq::new(v@.len(), |i: int| v@[i]@)
}

/// Every coefficient has a positive denominator.
pub open spec fn rows_wf(rows: Seq<Seq<Rational>>, ncols: int) -> bool {
    forall|t: int| 0 <= t < rows.len() ==> (#[trigger] rows[t]).len() == ncols && forall|c: int|
        0 <= c < ncols ==> (#[trigger] rows[t][c]).wf()
}

proof fn lemma_apply_push(rows: Seq<Seq<Rational>>, ops: Seq<RowOp>, op: RowOp)
    ensures
        apply_ops(rows, ops.push(op)) == match apply_ops(rows, ops) {
            Some(r) => apply_op(r, op),
            None => None,
        },
{
    assert(ops.push(op).drop_last() =~= ops);
}

/// The rows of `m`, one vector each.
fn rows_from(m: &Matrix) -> (r: Vec<Vec<Rational>>)
    requires
        m.wf(),
    ensures
        rows_view(r) == rows_of(*m),
        rows_wf(rows_view(r), m.ncols as int),
{
    let mut rows: Vec<Vec<Rational>> = Vec::new();
    let mut i: usize = 0;
    let nr = m.nrows as usize;
    let nc = m.ncols as usize;
    let dl = m.data.len();
    while i < nr
        invariant
            dl == m.data@.len(),
            m.wf(),
            nr == m.nrows,
            nc == m.ncols,
            0 <= i <= nr,
            rows@.len() == i,
            forall|t: int| 0 <= t < i ==> #[trigger] rows@[t]@ == rows_of(*m)[t],
        decreases nr - i,
    {
        let mut row: Vec<Rational> = Vec::new();
        let mut j: usize = 0;
        while j < nc
            invariant
                dl == m.data@.len(),
                m.wf(),
                nr == m.nrows,
                nc == m.ncols,
                0 <= i < nr,
                0 <= j <= nc,
                row@.len() == j,
                forall|c: int| 0 <= c < j ==> #[trigger] row@[c] == m.at(i as int, c),
            decreases nc - j,
        {
            proof {
                lemma_index_in_bounds(i as int, j as int, nr as int, nc as int);
                assert(i * nc + j < m.data@.len());
                assert(i * nc <= i * nc + j);
            }
            row.push(m.data[i * nc + j].copy());
            j = j + 1;
        }
        assert(row@ =~= rows_of(*m)[i as int]);
        rows.push(row);
        i = i + 1;
    }
    assert(rows_view(rows) =~= rows_of(*m));
    proof {
        assert forall|t: int| 0 <= t < rows_view(rows).len() implies (#[trigger] rows_view(rows)[t]).len() == m.ncols && forall|c: int|
            0 <= c < m.ncols ==> (#[trigger] rows_view(rows)[t][c]).wf() by {
            assert forall|c: int| 0 <= c < m.ncols implies (#[trigger] rows_view(rows)[t][c]).wf() by {
                lemma_index_in_bounds(t, c, nr as int, nc as int);
            }
        }
    }
    rows
}

/// The coefficients of `rows`, row after row.
fn data_from(rows: &Vec<Vec<Rational>>, nrows: u32, ncols: u32) -> (r: Vec<Rational>)
    requires
        rows@.len() == nrows,
        rows_wf(rows_view(*rows), ncols as int),
        nrows * ncols <= usize::MAX,
    ensures
        r@.len() == nrows * ncols,
        forall|i: int, j: int| 0 <= i < nrows && 0 <= j < ncols ==> #[trigger] r@[i * ncols + j] == rows@[i]@[j],
        forall|k: int| 0 <= k < r@.len() ==> (#[trigger] r@[k]).wf(),
{
    let mut data: Vec<Rational> = Vec::new();
    let mut i: usize = 0;
    let nr = nrows as usize;
    let nc = ncols as usize;
    while i < nr
        invariant
            rows@.len() == nrows,
            rows_wf(rows_view(*rows), ncols as int),
            nr == nrows,
            nc == ncols,
            0 <= i <= nr,
            data@.len() == i * nc,
            forall|a: int, b: int| 0 <= a < i && 0 <= b < nc ==> #[trigger] data@[a * nc + b] == rows@[a]@[b],
            forall|k: int| 0 <= k < data@.len() ==> (#[trigger] data@[k]).wf(),
        decreases nr - i,
    {
        let mut j: usize = 0;
        let ghost d0 = data@;
        assert(rows_view(*rows)[i as int] == rows@[i as int]@);
        while j < nc
            invariant
                rows@.len() == nrows,
                rows_wf(rows_view(*rows), ncols as int),
                rows_view(*rows)[i as int] == rows@[i as int]@,
                nr == nrows,
                nc == ncols,
                0 <= i < nr,
                0 <= j <= nc,
                data@.len() == i * nc + j,
                d0.len() == i * nc,
                data@.subrange(0, i * nc) == d0,
                forall|b: int| 0 <= b < j ==> #[trigger] data@[i * nc + b] == rows@[i as int]@[b],
                forall|k: int| 0 <= k < data@.len() ==> (#[trigger] data@[k]).wf(),
            decreases nc - j,
        {
            let ghost before = data@;
            data.push(rows[i][j].copy());
            proof {
                assert(data@.subrange(0, i * nc) =~= before.subrange(0, i * nc));
                assert forall|b: int| 0 <= b < j + 1 implies #[trigger] data@[i * nc + b] == rows@[i as int]@[b] by {
                    if b < j {
                        assert(data@[i * nc + b] == before[i * nc + b]);
                    }
                }
            }
            j = j + 1;
        }
        proof {
            assert((i + 1) * nc == i * nc + nc) by (nonlinear_arith);
            assert forall|a: int, b: int| 0 <= a < i + 1 && 0 <= b < nc implies #[trigger] data@[a * nc + b] == rows@[a]@[b] by {
                if a < i {
                    lemma_index_in_bounds(a, b, i as int, nc as int);
                    assert(data@.subrange(0, i * nc)[a * nc + b] == d0[a * nc + b]);
                }
            }
        }
        i = i + 1;
    }
    data
}

/// Row `rk` minus `c` times row `ri`, or `None` where a coefficient overflows.
fn sub_row_exec(rk: &Vec<Rational>, ri: &Vec<Rational>, c: &Rational) -> (r: Option<Vec<Rational>>)
    requires
        rk@.len() == ri@.len(),
        c.wf(),
        forall|l: int| 0 <= l < rk@.len() ==> (#[trigger] rk@[l]).wf() && ri@[l].wf(),
    ensures
        match r {
            Some(v) => sub_row(rk@, ri@, *c) == Some(v@) && forall|l: int| 0 <= l < v@.len() ==> (#[trigger] v@[l]).wf(),
            None => sub_row(rk@, ri@, *c) is None,
        },
{
    let mut out: Vec<Rational> = Vec::new();
    let mut l: usize = 0;
    while l < rk.len()
        invariant
            rk@.len() == ri@.len(),
            c.wf(),
            forall|l: int| 0 <= l < rk@.len() ==> (#[trigger] rk@[l]).wf() && ri@[l].wf(),
            0 <= l <= rk@.len(),
            out@.len() == l,
            forall|q: int| 0 <= q < l ==> sub_entry(rk@[q], ri@[q], *c) == Some(#[trigger] out@[q]) && out@[q].wf(),
        decreases rk@.len() - l,
    {
        let t = match c.checked_mul(&ri[l]) {
            Some(t) => t,
            None => {
                assert(sub_entry(rk@[l as int], ri@[l as int], *c) is None);
                return None;
            },
        };
        let nt = match t.checked_neg() {
            Some(nt) => nt,
            None => {
                assert(sub_entry(rk@[l as int], ri@[l as int], *c) is None);
                return None;
            },
        };
        let z = match rk[l].checked_add(&nt) {
            Some(z) => z,
            None => {
                assert(sub_entry(rk@[l as int], ri@[l as int], *c) is None);
                return None;
            },
        };
        out.push(z);
        l = l + 1;
    }
    assert forall|q: int| 0 <= q < rk@.len() implies (#[trigger] sub_entry(rk@[q], ri@[q], *c)) is Some by {
        assert(sub_entry(rk@[q], ri@[q], *c) == Some(out@[q]));
    }
    assert(out@ =~= Seq::new(rk@.len(), |q: int| sub_entry(rk@[q], ri@[q], *c)->0));
    Some(out)
}

/// A copy of a row.
fn copy_row(row: &Vec<Rational>) -> (r: Vec<Rational>)
    ensures
        r@ == row@,
{
    let mut out: Vec<Rational> = Vec::new();
    let mut l: usize = 0;
    while l < row.len()
        invariant
            0 <= l <= row@.len(),
            out@ == row@.take(l as int),
        decreases row@.len() - l,
    {
        out.push(row[l].copy());
        assert(out@ =~= row@.take(l + 1));
        l = l + 1;
    }
    assert(out@ =~= row@);
    out
}

/// Results of the checked operations have a positive denominator.
proof fn lemma_reduced_wf(n: int, d: int)
    requires
        reduced(n, d) is Some,
    ensures
        reduced(n, d)->0.wf(),
{
}

/// Gaussian elimination on the first `max_col` columns of `rows`: for each column, the first
/// row at or below the current one with a nonzero coefficient there becomes the pivot row and
/// is moved up, and the coefficients below it are eliminated. Returns the number of pivots.
/// The first `n` columns of the `n` rows are diagonal: zero exactly off the diagonal.
pub open spec fn diagonal_part(rows: Seq<Seq<Rational>>, n: int) -> bool {
    &&& rows.len() == n
    &&& forall|i: int, c: int| 0 <= i < n && 0 <= c < n ==> ((#[trigger] rows[i][c]).num != 0) == (i == c)
}

fn reduce_rows(rows: &mut Vec<Vec<Rational>>, ncols: usize, max_col: usize) -> (r: Result<usize, ()>)
    requires
        rows_wf(rows_view(*old(rows)), ncols as int),
        max_col <= ncols,
    ensures
        final(rows)@.len() == old(rows)@.len(),
        rows_wf(rows_view(*final(rows)), ncols as int),
        exists|ops: Seq<RowOp>| apply_ops(rows_view(*old(rows)), ops) == Some(rows_view(*final(rows))),
        match r {
            Ok(k) => echelon(rows_view(*final(rows)), max_col as int, k as int),
            Err(_) => exists|k: int, i: int, j: int| elimination_overflows(rows_view(*final(rows)), k, i, j),
        },
        diagonal_part(rows_view(*old(rows)), max_col as int) ==> rows_view(*final(rows)) == rows_view(*old(rows)) && r
            == Ok::<usize, ()>(max_col),
{
    let ghost r0 = rows_view(*rows);
    let n = rows.len();
    let mut i: usize = 0;
    let mut j: usize = 0;
    let ghost mut ops: Seq<RowOp> = Seq::empty();
    let ghost mut piv: Seq<int> = Seq::empty();
    assert(apply_ops(r0, ops) == Some(rows_view(*rows)));
    while i < n && j < max_col
        invariant
            rows@.len() == n,
            r0.len() == n,
            r0 == rows_view(*old(rows)),
            rows_wf(rows_view(*rows), ncols as int),
            apply_ops(r0, ops) == Some(rows_view(*rows)),
            0 <= i <= n,
            i <= j <= max_col,
            max_col <= ncols,
            piv.len() == i,
            forall|t: int| 0 <= t < i ==> #[trigger] piv[t] < j && leads_at(rows_view(*rows)[t], piv[t]),
            forall|s: int, t: int| 0 <= s < t < i ==> piv[s] < piv[t],
            forall|t: int, c: int| i <= t < n && 0 <= c < j ==> (#[trigger] rows_view(*rows)[t][c]).num == 0,
            diagonal_part(r0, max_col as int) ==> rows_view(*rows) == r0 && i == j,
        decreases max_col - j,
    {
        let mut p: usize = i;
        assert forall|t: int| 0 <= t < n implies (#[trigger] rows@[t])@.len() == ncols by {
            assert(rows_view(*rows)[t] == rows@[t]@);
        }
        while p < n && rows[p][j].num == 0
            invariant
                forall|t: int| 0 <= t < n ==> (#[trigger] rows@[t])@.len() == ncols,
                rows@.len() == n,
                rows_wf(rows_view(*rows), ncols as int),
                i <= p <= n,
                j < max_col <= ncols,
                forall|t: int| i <= t < p ==> (#[trigger] rows_view(*rows)[t][j as int]).num == 0,
            decreases n - p,
        {
            assert(rows_view(*rows)[p as int] == rows@[p as int]@);
            p = p + 1;
        }
        proof {
            if diagonal_part(r0, max_col as int) {
                assert(rows_view(*rows)[i as int][j as int].num != 0);
                assert(p == i);
            }
        }
        if p == n {
            j = j + 1;
            continue;
        }
        assert(rows_view(*rows)[p as int] == rows@[p as int]@);
        if p != i {
            let ghost before = rows_view(*rows);
            let a = copy_row(&rows[i]);
            let b = copy_row(&rows[p]);
            rows.set(i, b);
            rows.set(p, a);
            proof {
                lemma_apply_push(r0, ops, RowOp::Swap(i, p));
                ops = ops.push(RowOp::Swap(i, p));
                assert(rows_view(*rows) =~= before.update(i as int, before[p as int]).update(p as int, before[i as int]));
            }
        }
        let ghost snap = rows_view(*rows);
        assert(snap[i as int][j as int].num != 0);
        let mut k: usize = i + 1;
        while k < n
            invariant
                rows@.len() == n,
                r0.len() == n,
                r0 == rows_view(*old(rows)),
                rows_wf(rows_view(*rows), ncols as int),
                apply_ops(r0, ops) == Some(rows_view(*rows)),
                i < n,
                i + 1 <= k <= n,
                j < max_col <= ncols,
                snap.len() == n,
                forall|t: int| 0 <= t <= i ==> #[trigger] rows_view(*rows)[t] == snap[t],
                forall|t: int| k <= t < n ==> #[trigger] rows_view(*rows)[t] == snap[t],
                snap[i as int][j as int].num != 0,
                forall|t: int, c: int| i <= t < n && 0 <= c < j ==> (#[trigger] snap[t][c]).num == 0,
                forall|t: int, c: int| i < t < k && 0 <= c <= j ==> (#[trigger] rows_view(*rows)[t][c]).num == 0,
                diagonal_part(r0, max_col as int) ==> rows_view(*rows) == r0 && i == j && snap == r0,
            decreases n - k,
        {
            assert(rows_view(*rows)[k as int] == rows@[k as int]@);
            assert(rows_view(*rows)[i as int] == rows@[i as int]@);
            proof {
                if diagonal_part(r0, max_col as int) {
                    assert(r0[k as int][j as int].num == 0);
                }
            }
            if rows[k][j].num != 0 {
                let ghost cur = rows_view(*rows);
                let c = match rows[k][j].checked_div(&rows[i][j]) {
                    Some(c) => c,
                    None => {
                        assert(elimination_overflows(rows_view(*rows), k as int, i as int, j as int));
                        return Err(());
                    },
                };
                proof {
                    let iv = cur[i as int][j as int].spec_inv()->0;
                    assert(iv.wf());
                    lemma_reduced_wf(cur[k as int][j as int].num * iv.num, cur[k as int][j as int].den * iv.den);
                }
                let nrow = match sub_row_exec(&rows[k], &rows[i], &c) {
                    Some(v) => v,
                    None => {
                        assert(elimination_overflows(rows_view(*rows), k as int, i as int, j as int));
                        return Err(());
                    },
                };
                proof {
                    let x = cur[k as int];
                    let y = cur[i as int];
                    assert(nrow@[j as int] == sub_entry(x[j as int], y[j as int], c)->0);
                    lemma_sub_eliminates(x[j as int], y[j as int], c);
                    assert forall|cc: int| 0 <= cc < j implies (#[trigger] nrow@[cc]).num == 0 by {
                        assert(x[cc] == snap[k as int][cc]);
                        assert(y[cc] == snap[i as int][cc]);
                        lemma_sub_zero(x[cc], y[cc], c);
                    }
                }
                let ghost nv = nrow@;
                rows.set(k, nrow);
                proof {
                    lemma_apply_push(r0, ops, RowOp::SubMul(k, i, c));
                    ops = ops.push(RowOp::SubMul(k, i, c));
                    assert(rows_view(*rows) =~= cur.update(k as int, nv));
                }
            }
            k = k + 1;
        }
        proof {
            let v = rows_view(*rows);
            assert(v[i as int] == snap[i as int]);
            piv = piv.push(j as int);
            assert(leads_at(v[i as int], j as int));
        }
        i = i + 1;
        j = j + 1;
    }
    proof {
        assert(pivots(rows_view(*rows), max_col as int, i as int, piv));
    }
    Ok(i)
}

/// The rows of `[a b]`.
pub open spec fn augmented_rows(a: Matrix, b: Matrix) -> Seq<Seq<Rational>> {
    Seq::new(a.nrows as nat, |i: int| rows_of(a)[i] + rows_of(b)[i])
}

/// `x` solves `a * x = b`: every dot product of a row of `a` with a column of `x` fits and
/// has the value of the coefficient of `b`.
pub open spec fn solves(a: Matrix, x: Matrix, b: Matrix) -> bool {
    &&& x.nrows == a.ncols
    &&& x.ncols == b.ncols
    &&& forall|i: int, j: int|
        0 <= i < a.nrows && 0 <= j < b.ncols ==> ((#[trigger] dot(a, x, i, j, a.ncols as nat)) matches Some(v)
            && v.same_value(b.at(i, j)))
}

/// `[a b]` reduces, by row operations, to `rr`, which is in echelon form with rank `k` in the
/// columns of `a`.
pub open spec fn reduces_to(a: Matrix, b: Matrix, rr: Seq<Seq<Rational>>, k: int) -> bool {
    &&& exists|ops: Seq<RowOp>| apply_ops(augmented_rows(a, b), ops) == Some(rr)
    &&& echelon(rr, a.ncols as int, k)
}

/// The columns of `a` have rank below their number: `a * x = b` has no unique solution.
pub open spec fn rank_deficient(a: Matrix, b: Matrix) -> bool {
    exists|rr: Seq<Seq<Rational>>, k: int| reduces_to(a, b, rr, k) && k < a.ncols
}

/// A row of the reduced `[a b]` is zero in the columns of `a` and not in those of `b`: the
/// system `a * x = b` has no solution.
pub open spec fn inconsistent(a: Matrix, b: Matrix) -> bool {
    exists|rr: Seq<Seq<Rational>>, k: int|
        reduces_to(a, b, rr, k) && exists|t: int, q: int|
            k <= t < rr.len() && 0 <= q < b.ncols && (#[trigger] rr[t][a.ncols + q]).num != 0
}

/// The rows of `[a b]`, one vector each.
fn augmented(a: &Matrix, b: &Matrix) -> (r: Vec<Vec<Rational>>)
    requires
        a.wf(),
        b.wf(),
        a.nrows == b.nrows,
    ensures
        rows_view(r) == augmented_rows(*a, *b),
        rows_wf(rows_view(r), a.ncols + b.ncols),
{
    let ra = rows_from(a);
    let rb = rows_from(b);
    assert(ra@.len() == a.nrows) by {
        assert(rows_view(ra).len() == rows_of(*a).len());
    }
    assert(rb@.len() == b.nrows) by {
        assert(rows_view(rb).len() == rows_of(*b).len());
    }
    let mut out: Vec<Vec<Rational>> = Vec::new();
    let mut i: usize = 0;
    while i < ra.len()
        invariant
            ra@.len() == a.nrows,
            rb@.len() == b.nrows,
            a.nrows == b.nrows,
            rows_view(ra) == rows_of(*a),
            rows_view(rb) == rows_of(*b),
            rows_wf(rows_view(ra), a.ncols as int),
            rows_wf(rows_view(rb), b.ncols as int),
            0 <= i <= ra@.len(),
            out@.len() == i,
            forall|t: int| 0 <= t < i ==> #[trigger] out@[t]@ == rows_of(*a)[t] + rows_of(*b)[t],
        decreases ra@.len() - i,
    {
        assert(rows_view(ra)[i as int] == ra@[i as int]@);
        assert(rows_view(rb)[i as int] == rb@[i as int]@);
        let mut row = copy_row(&ra[i]);
        let mut q: usize = 0;
        while q < rb[i].len()
            invariant
                rows_view(rb)[i as int] == rb@[i as int]@,
                i < rb@.len(),
                0 <= q <= rb@[i as int]@.len(),
                row@ == ra@[i as int]@ + rb@[i as int]@.take(q as int),
            decreases rb@[i as int]@.len() - q,
        {
            row.push(rb[i][q].copy());
            assert(row@ =~= ra@[i as int]@ + rb@[i as int]@.take(q + 1));
            q = q + 1;
        }
        assert(rb@[i as int]@.take(q as int) =~= rb@[i as int]@);
        out.push(row);
        i = i + 1;
    }
    assert(rows_view(out) =~= augmented_rows(*a, *b));
    proof {
        let v = rows_view(out);
        assert forall|t: int| 0 <= t < v.len() implies (#[trigger] v[t]).len() == a.ncols + b.ncols && forall|c: int|
            0 <= c < a.ncols + b.ncols ==> (#[trigger] v[t][c]).wf() by {
            assert(rows_view(ra)[t].len() == a.ncols);
            assert(rows_view(rb)[t].len() == b.ncols);
            assert forall|c: int| 0 <= c < a.ncols + b.ncols implies (#[trigger] v[t][c]).wf() by {
                if c < a.ncols {
                    assert(v[t][c] == rows_view(ra)[t][c]);
                } else {
                    assert(v[t][c] == rows_view(rb)[t][c - a.ncols]);
                }
            }
        }
    }
    out
}

/// `nrows` rows of `ncols` zeros.
fn zero_rows(nrows: usize, ncols: usize) -> (r: Vec<Vec<Rational>>)
    ensures
        r@.len() == nrows,
        rows_wf(rows_view(r), ncols as int),
{
    let mut out: Vec<Vec<Rational>> = Vec::new();
    let mut i: usize = 0;
    while i < nrows
        invariant
            0 <= i <= nrows,
            out@.len() == i,
            rows_wf(rows_view(out), ncols as int),
        decreases nrows - i,
    {
        let mut row: Vec<Rational> = Vec::new();
        let mut q: usize = 0;
        while q < ncols
            invariant
                0 <= q <= ncols,
                row@.len() == q,
                forall|c: int| 0 <= c < q ==> (#[trigger] row@[c]).wf(),
            decreases ncols - q,
        {
            row.push(Rational::zero());
            q = q + 1;
        }
        let ghost before = rows_view(out);
        out.push(row);
        assert(rows_view(out) =~= before.push(row@));
        i = i + 1;
    }
    out
}

/// Back substitution: the unknowns of the pivot columns of the first `k` rows of the echelon
/// rows `aug` (the columns of the matrix come first, `na` of them, then `nb` right-hand
/// sides), the others zero; `None` where a coefficient overflows.
/// The first `na` columns of the rows of `aug` are diagonal, and each right-hand side is in
/// lowest terms and can be divided by the diagonal coefficient of its row.
pub open spec fn diagonal_rhs(aug: Seq<Seq<Rational>>, na: int, nb: int) -> bool {
    &&& diagonal_part(aug, na)
    &&& forall|t: int, q: int| 0 <= t < na && 0 <= q < nb ==> (#[trigger] aug[t][na + q]).lowest() && aug[t][na + q].spec_div(aug[t][t]) is Some
}

fn back_substitute(aug: &Vec<Vec<Rational>>, k: usize, na: usize, nb: usize) -> (r: Option<Vec<Vec<Rational>>>)
    requires
        rows_wf(rows_view(*aug), na + nb),
        k <= aug@.len(),
    ensures
        r matches Some(x) ==> x@.len() == na && rows_wf(rows_view(x), nb as int),
        diagonal_rhs(rows_view(*aug), na as int, nb as int) && k == na ==> (r matches Some(x) && forall|t: int, q: int|
            0 <= t < na && 0 <= q < nb ==> #[trigger] x@[t]@[q] == aug@[t]@[na + q].spec_div(aug@[t]@[t])->0),
{
    let ghost dg = diagonal_rhs(rows_view(*aug), na as int, nb as int) && k == na;
    let ghost v = rows_view(*aug);
    let mut x = zero_rows(na, nb);
    let mut t: usize = k;
    while t > 0
        invariant
            rows_wf(rows_view(*aug), na + nb),
            v == rows_view(*aug),
            dg == (diagonal_rhs(v, na as int, nb as int) && k == na),
            k <= aug@.len(),
            0 <= t <= k,
            x@.len() == na,
            rows_wf(rows_view(x), nb as int),
            dg ==> forall|t2: int, q: int| t <= t2 < k && 0 <= q < nb ==> #[trigger] x@[t2]@[q] == v[t2][na + q].spec_div(v[t2][t2])->0,
        decreases t,
    {
        t = t - 1;
        assert(rows_view(*aug)[t as int] == aug@[t as int]@);
        let mut p: usize = 0;
        while p < na && aug[t][p].num == 0
            invariant
                rows_view(*aug)[t as int] == aug@[t as int]@,
                rows_wf(rows_view(*aug), na + nb),
                t < aug@.len(),
                0 <= p <= na,
                dg ==> p <= t,
                v == rows_view(*aug),
                dg == (diagonal_rhs(v, na as int, nb as int) && k == na),
            decreases na - p,
        {
            proof {
                if dg && p == t {
                    assert(v[t as int][t as int].num != 0);
                }
            }
            p = p + 1;
        }
        proof {
            if dg {
                if p < t {
                    assert(v[t as int][p as int].num == 0);
                }
                assert(p == t);
            }
        }
        if p < na {
            let rowlen = aug[t].len();
            assert(rowlen == na + nb);
            let ghost xb = x@;
            let mut q: usize = 0;
            while q < nb
                invariant
                    rowlen == na + nb,
                    rows_view(*aug)[t as int] == aug@[t as int]@,
                    rows_wf(rows_view(*aug), na + nb),
                    v == rows_view(*aug),
                    dg == (diagonal_rhs(v, na as int, nb as int) && k == na),
                    t < aug@.len(),
                    p < na,
                    aug@[t as int]@[p as int].num != 0,
                    0 <= q <= nb,
                    x@.len() == na,
                    rows_wf(rows_view(x), nb as int),
                    dg ==> p == t,
                    dg ==> forall|t2: int, q2: int| t < t2 < k && 0 <= q2 < nb ==> #[trigger] x@[t2]@[q2] == v[t2][na + q2].spec_div(v[t2][t2])->0,
                    dg ==> forall|q2: int| 0 <= q2 < q ==> #[trigger] x@[t as int]@[q2] == v[t as int][na + q2].spec_div(v[t as int][t as int])->0,
                decreases nb - q,
            {
                let mut s = aug[t][na + q].copy();
                let mut l: usize = p + 1;
                while l < na
                    invariant
                        rows_view(*aug)[t as int] == aug@[t as int]@,
                        rows_wf(rows_view(*aug), na + nb),
                        v == rows_view(*aug),
                        dg == (diagonal_rhs(v, na as int, nb as int) && k == na),
                        t < aug@.len(),
                        p < l <= na,
                        q < nb,
                        x@.len() == na,
                        rows_wf(rows_view(x), nb as int),
                        s.wf(),
                        dg ==> p == t && s == v[t as int][na + q],
                    decreases na - l,
                {
                    assert(rows_view(x)[l as int] == x@[l as int]@);
                    let ghost sb = s;
                    let pr = match aug[t][l].checked_mul(&x[l][q]) {
                        Some(v) => v,
                        None => {
                            proof {
                                if dg {
                                    assert(v[t as int][l as int].num == 0);
                                    lemma_zero_product_some(v[t as int][l as int], x@[l as int]@[q as int]);
                                }
                            }
                            return None;
                        },
                    };
                    proof {
                        lemma_reduced_wf(aug@[t as int]@[l as int].num * x@[l as int]@[q as int].num, aug@[t as int]@[l as int].den * x@[l as int]@[q as int].den);
                        if dg {
                            assert(v[t as int][l as int].num == 0);
                            lemma_term_zero(v[t as int][l as int], x@[l as int]@[q as int], 0);
                            assert(pr.num == 0);
                            lemma_zero_neg(pr);
                        }
                    }
                    let ng = match pr.checked_neg() {
                        Some(v) => v,
                        None => return None,
                    };
                    proof {
                        lemma_reduced_wf(-pr.num, pr.den as int);
                        if dg {
                            assert(ng == zero_q());
                            assert(sb.lowest());
                            assert(sb.den <= i64::MAX);
                            crate::rational::lemma_unit_arithmetic(sb);
                        }
                    }
                    s = match s.checked_add(&ng) {
                        Some(v) => v,
                        None => return None,
                    };
                    l = l + 1;
                }
                let val = match s.checked_div(&aug[t][p]) {
                    Some(v) => v,
                    None => return None,
                };
                proof {
                    let iv = aug@[t as int]@[p as int].spec_inv()->0;
                    assert(iv.wf());
                    lemma_reduced_wf(s.num * iv.num, s.den * iv.den);
                }
                assert(rows_view(x)[p as int] == x@[p as int]@);
                let mut row = copy_row(&x[p]);
                row.set(q, val);
                let ghost before = rows_view(x);
                let ghost xq = x@;
                x.set(p, row);
                proof {
                    assert(rows_view(x) =~= before.update(p as int, row@));
                    if dg {
                        assert forall|t2: int, q2: int| t < t2 < k && 0 <= q2 < nb implies #[trigger] x@[t2]@[q2] == v[t2][na + q2].spec_div(v[t2][t2])->0 by {
                            assert(x@[t2] == xq[t2]);
                        }
                        assert forall|q2: int| 0 <= q2 < q + 1 implies #[trigger] x@[t as int]@[q2] == v[t as int][na + q2].spec_div(v[t as int][t as int])->0 by {
                            if q2 < q {
                                assert(x@[t as int]@[q2] == xq[t as int]@[q2]);
                            }
                        }
                    }
                }
                q = q + 1;
            }
        }
    }
    Some(x)
}

/// Zero times anything fits.
proof fn lemma_zero_product_some(x: Rational, y: Rational)
    requires
        x.wf(),
        y.wf(),
        x.num == 0,
    ensures
        x.spec_mul(y) is Some,
{
    assert(x.num * y.num == 0);
    assert(x.den * y.den > 0) by (nonlinear_arith)
        requires
            x.den > 0,
            y.den > 0,
    ;
    lemma_zero_reduces(x.den * y.den);
}

/// A checked zero negates to `0/1`.
proof fn lemma_zero_neg(p: Rational)
    requires
        p.num == 0,
        p.den > 0,
    ensures
        p.spec_neg() == Some(zero_q()),
{
    assert(-p.num == 0);
    lemma_zero_reduces(p.den as int);
}

/// A fraction whose numerator and denominator fit reduces to one that fits, of the same value.
proof fn lemma_reduce_fits(n: int, d: int)
    requires
        i64::MIN <= n <= i64::MAX,
        0 < d <= i64::MAX,
    ensures
        reduced(n, d) is Some,
        reduced(n, d)->0.num * d == n * reduced(n, d)->0.den,
        reduced(n, d)->0.den > 0,
{
    let an = crate::rational::abs(n);
    let ad = crate::rational::abs(d);
    let g = gcd(an, ad);
    crate::rational::lemma_gcd_divides(an, ad);
    assert(g > 0);
    let k1 = choose|k: int| an as int == #[trigger] crate::rational::times(k, g as int);
    let k2 = choose|k: int| ad as int == #[trigger] crate::rational::times(k, g as int);
    vstd::arithmetic::div_mod::lemma_mod_multiples_basic(k1, g as int);
    vstd::arithmetic::div_mod::lemma_mod_multiples_basic(k2, g as int);
    vstd::arithmetic::div_mod::lemma_div_multiples_vanish(k1, g as int);
    vstd::arithmetic::div_mod::lemma_div_multiples_vanish(k2, g as int);
    assert(an as int == k1 * g);
    assert(ad as int == k2 * g);
    assert(g * k1 == k1 * g) by (nonlinear_arith);
    assert(g * k2 == k2 * g) by (nonlinear_arith);
    assert(0 <= k1 <= an) by (nonlinear_arith)
        requires
            an as int == k1 * g,
            g >= 1,
            an >= 0,
    ;
    assert(1 <= k2 <= ad) by (nonlinear_arith)
        requires
            ad as int == k2 * g,
            g >= 1,
            ad >= 1,
    ;
    lemma_reduced_value(n, d);
}

/// Sameness of value carries over.
proof fn lemma_same_value_trans(a: Rational, b: Rational, c: Rational)
    requires
        a.same_value(b),
        b.same_value(c),
        b.den > 0,
    ensures
        a.same_value(c),
{
    assert(a.num * c.den == c.num * a.den) by (nonlinear_arith)
        requires
            a.num * b.den == b.num * a.den,
            b.num * c.den == c.num * b.den,
            b.den > 0,
    ;
}

/// A row of zeros but for its diagonal coefficient, times a column, gives the product of the
/// diagonal coefficient with the column's coefficient in that row.
proof fn lemma_dot_diagonal(a: Matrix, x: Matrix, i: int, q: int, n: nat, m: nat)
    requires
        0 <= i < n,
        m <= n,
        forall|l: int| 0 <= l < n ==> (#[trigger] a.at(i, l)).wf() && x.at(l, q).wf(),
        forall|l: int| 0 <= l < n && l != i ==> (#[trigger] a.at(i, l)).num == 0,
        a.at(i, i).spec_mul(x.at(i, q)) is Some,
    ensures
        dot(a, x, i, q, m) is Some,
        m <= i ==> dot(a, x, i, q, m) == Some(zero_q()),
        m > i ==> dot(a, x, i, q, m)->0.same_value(a.at(i, i).spec_mul(x.at(i, q))->0) && dot(a, x, i, q, m)->0.den > 0,
    decreases m,
{
    if m > 0 {
        lemma_dot_diagonal(a, x, i, q, n, (m - 1) as nat);
        let l = m - 1;
        let acc = dot(a, x, i, q, (m - 1) as nat)->0;
        let y = a.at(i, l);
        let z = x.at(l, q);
        if l != i {
            lemma_zero_product_some(y, z);
            lemma_term_zero(y, z, 0);
            let t = y.spec_mul(z)->0;
            assert(t.num == 0);
            assert(t.den > 0);
            assert(acc.num * t.den + t.num * acc.den == acc.num * t.den);
            assert(acc.den * t.den > 0) by (nonlinear_arith)
                requires
                    acc.den > 0,
                    t.den > 0,
            ;
            if l < i {
                assert(acc == zero_q());
                assert(acc.num == 0);
                assert(acc.num * t.den + t.num * acc.den == 0) by (nonlinear_arith)
                    requires
                        acc.num == 0,
                        t.num == 0,
                ;
                lemma_zero_reduces(acc.den * t.den);
            } else {
                // acc has the value of the diagonal product; adding zero keeps it
                let p = y.spec_mul(z)->0;
                assert(t == zero_q()) by {
                    lemma_zero_reduces(y.den * z.den);
                    assert(y.num * z.num == 0);
                }
                assert(acc.num * 1 + 0 * acc.den == acc.num) by (nonlinear_arith);
                assert(acc.den * 1 == acc.den) by (nonlinear_arith);
                lemma_reduce_fits(acc.num as int, acc.den as int);
                let r = acc.spec_add(t)->0;
                assert(r.num * acc.den == acc.num * r.den);
                let pd = a.at(i, i).spec_mul(x.at(i, q))->0;
                lemma_same_value_trans(r, acc, pd);
            }
        } else {
            assert(acc == zero_q());
            let p = y.spec_mul(z)->0;
            assert(p.den > 0);
            assert(0 * p.den + p.num * 1 == p.num) by (nonlinear_arith);
            assert(1 * p.den == p.den) by (nonlinear_arith);
            lemma_reduce_fits(p.num as int, p.den as int);
            let r = acc.spec_add(p)->0;
            assert(r.num * p.den == p.num * r.den);
        }
    }
}

/// The identity matrix with its first coefficient replaced by `c`.
pub open spec fn scaled_identity_rows(n: nat, c: Rational) -> Seq<Seq<Rational>> {
    identity_rows(n).update(0, identity_rows(n)[0].update(0, c))
}

/// Scaling the first row of the identity scales its determinant: the determinant of
/// `diag(c, 1, ..., 1)` is `c`.
pub proof fn lemma_det_scaled_identity(n: nat, c: Rational)
    requires
        n > 0,
        c.lowest(),
    ensures
        det_rows(scaled_identity_rows(n, c)) == Some(c),
{
    lemma_unit_arith();
    let rows = scaled_identity_rows(n, c);
    let id = identity_rows(n);
    lemma_det_identity((n - 1) as nat);
    assert(minor(rows, 0) =~= identity_rows((n - 1) as nat)) by {
        assert forall|i: int| 0 <= i < n - 1 implies #[trigger] minor(rows, 0)[i] =~= identity_rows((n - 1) as nat)[i] by {
            assert(rows[i + 1] == id[i + 1]);
        }
    }
    crate::rational::lemma_reduced_lowest(c);
    assert(c.num * 1 == c.num) by (nonlinear_arith);
    assert(c.den * 1 == c.den) by (nonlinear_arith);
    assert(c.spec_mul(one_q()) == Some(c));
    assert(cofactor_term(rows, 0) == Some(c));
    assert(0 * c.den + c.num * 1 == c.num) by (nonlinear_arith);
    assert(1 * c.den == c.den) by (nonlinear_arith);
    assert(cofactor_sum(rows, 0) == Some(zero_q()));
    assert(cofactor_sum(rows, 1) == Some(c));
    lemma_scaled_identity_tail(n, c, 1);
}

proof fn lemma_scaled_identity_tail(n: nat, c: Rational, k: nat)
    requires
        0 < k <= n,
        c.lowest(),
        cofactor_sum(scaled_identity_rows(n, c), k) == Some(c),
    ensures
        cofactor_sum(scaled_identity_rows(n, c), n) == Some(c),
    decreases n - k,
{
    let rows = scaled_identity_rows(n, c);
    let id = identity_rows(n);
    if k < n {
        lemma_unit_arith();
        assert(partial_permutation(id)) by {
            assert forall|i: int, j1: int, j2: int|
                0 <= i < id.len() && 0 <= j1 < id.len() && 0 <= j2 < id.len() && #[trigger] id[i][j1] == one_q()
                    && #[trigger] id[i][j2] == one_q() implies j1 == j2 by {
                if j1 != i {
                    assert(id[i][j1] == zero_q());
                }
                if j2 != i {
                    assert(id[i][j2] == zero_q());
                }
            }
            assert forall|i1: int, i2: int, j: int|
                0 <= i1 < id.len() && 0 <= i2 < id.len() && 0 <= j < id.len() && #[trigger] id[i1][j] == one_q()
                    && #[trigger] id[i2][j] == one_q() implies i1 == i2 by {
                if i1 != j {
                    assert(id[i1][j] == zero_q());
                }
                if i2 != j {
                    assert(id[i2][j] == zero_q());
                }
            }
        }
        assert(minor(rows, k as int) =~= minor(id, k as int)) by {
            assert forall|i: int| 0 <= i < n - 1 implies #[trigger] minor(rows, k as int)[i] == minor(id, k as int)[i] by {
                assert(rows[i + 1] == id[i + 1]);
            }
        }
        lemma_minor_partial(id, k as int);
        lemma_det_partial_permutation(minor(id, k as int));
        let d = det_rows(minor(id, k as int))->0;
        lemma_unit_steps(d);
        assert(rows[0][k as int] == zero_q());
        assert(cofactor_term(rows, k as int) == Some(zero_q()));
        crate::rational::lemma_unit_arithmetic(c);
        lemma_scaled_identity_tail(n, c, k + 1);
    }
}

/// `a` is square and diagonal with a nonzero diagonal, and each coefficient of `b` is in
/// lowest terms, can be divided by the diagonal coefficient of its row, and the quotient
/// multiplied back.
pub open spec fn diagonal_system(a: Matrix, b: Matrix) -> bool {
    &&& a.nrows == a.ncols
    &&& b.nrows == a.nrows
    &&& forall|i: int, c: int| 0 <= i < a.nrows && 0 <= c < a.ncols ==> ((#[trigger] a.at(i, c)).num != 0) == (i == c)
    &&& forall|i: int, q: int|
        0 <= i < a.nrows && 0 <= q < b.ncols ==> (#[trigger] b.at(i, q)).lowest() && b.at(i, q).spec_div(a.at(i, i)) is Some
            && a.at(i, i).spec_mul(b.at(i, q).spec_div(a.at(i, i))->0) is Some
}

/// Solve `a * x = b` by elimination on `[a b]` and back substitution, and keep the result
/// only where multiplying it out gives `b`. With `any`, free unknowns are set to zero;
/// without, a rank below the number of unknowns is an error.
fn solve_core(a: &PythonMatrix, b: &PythonMatrix, any: bool) -> (r: Result<PythonMatrix, MatrixError>)
    requires
        a.wf(),
        b.wf(),
        a.matrix.ncols * b.matrix.ncols <= usize::MAX,
        a.matrix.ncols + b.matrix.ncols <= usize::MAX,
    ensures
        b.matrix.nrows != a.matrix.nrows ==> r == Err::<PythonMatrix, MatrixError>(MatrixError::ShapeMismatch),
        r matches Ok(x) ==> x.wf() && solves(a.matrix, x.matrix, b.matrix),
        r matches Err(e) ==> (e == MatrixError::ShapeMismatch && b.matrix.nrows != a.matrix.nrows) || e
            == MatrixError::Overflow || (e == MatrixError::Underdetermined && !any && rank_deficient(a.matrix, b.matrix))
            || (e == MatrixError::Inconsistent && inconsistent(a.matrix, b.matrix)),
        diagonal_system(a.matrix, b.matrix) ==> (r matches Ok(x) && forall|i: int, q: int|
            0 <= i < a.matrix.nrows && 0 <= q < b.matrix.ncols ==> #[trigger] x.matrix.at(i, q) == b.matrix.at(i, q).spec_div(
                a.matrix.at(i, i),
            )->0),
{
    if b.matrix.nrows != a.matrix.nrows {
        return Err(MatrixError::ShapeMismatch);
    }
    let na = a.matrix.ncols as usize;
    let nb = b.matrix.ncols as usize;
    let mut aug = augmented(&a.matrix, &b.matrix);
    let ghost a0 = rows_view(aug);
    let ghost dg = diagonal_system(a.matrix, b.matrix);
    proof {
        if dg {
            lemma_augmented_at(a.matrix, b.matrix);
            assert(diagonal_part(a0, na as int));
            assert(diagonal_rhs(a0, na as int, nb as int));
        }
    }
    let res = reduce_rows(&mut aug, na + nb, na);
    let k = match res {
        Ok(k) => k,
        Err(_) => return Err(MatrixError::Overflow),
    };
    assert(reduces_to(a.matrix, b.matrix, rows_view(aug), k as int));
    if !any && k < na {
        return Err(MatrixError::Underdetermined);
    }
    let n = aug.len();
    assert(dg ==> k == n);
    let mut t: usize = k;
    while t < n
        invariant
            rows_wf(rows_view(aug), na + nb),
            n == aug@.len(),
            k <= t <= n,
            na == a.matrix.ncols,
            nb == b.matrix.ncols,
            b.matrix.nrows == a.matrix.nrows,
            reduces_to(a.matrix, b.matrix, rows_view(aug), k as int),
            dg == diagonal_system(a.matrix, b.matrix),
            dg ==> k == n,
        decreases n - t,
    {
        assert(rows_view(aug)[t as int] == aug@[t as int]@);
        let rowlen = aug[t].len();
        let mut q: usize = 0;
        while q < nb
            invariant
                rows_wf(rows_view(aug), na + nb),
                rows_view(aug)[t as int] == aug@[t as int]@,
                rowlen == na + nb,
                na == a.matrix.ncols,
                nb == b.matrix.ncols,
                b.matrix.nrows == a.matrix.nrows,
                reduces_to(a.matrix, b.matrix, rows_view(aug), k as int),
                n == aug@.len(),
                k <= t < n,
                dg ==> k == n,
                dg == diagonal_system(a.matrix, b.matrix),
                0 <= q <= nb,
            decreases nb - q,
        {
            if aug[t][na + q].num != 0 {
                let ghost rr = rows_view(aug);
                assert(rr[t as int][na + q] == aug@[t as int]@[na + q]);
                assert(rr[t as int][a.matrix.ncols + q].num != 0);
                assert(k <= t < rr.len() && 0 <= q < b.matrix.ncols);
                assert(reduces_to(a.matrix, b.matrix, rr, k as int));
                assert(inconsistent(a.matrix, b.matrix));
                return Err(MatrixError::Inconsistent);
            }
            q = q + 1;
        }
        t = t + 1;
    }
    assert(dg ==> rows_view(aug) == a0 && k == na && n == na);
    let xrows = match back_substitute(&aug, k, na, nb) {
        Some(x) => x,
        None => return Err(MatrixError::Overflow),
    };
    let data = data_from(&xrows, a.matrix.ncols, b.matrix.ncols);
    let x = PythonMatrix { matrix: Matrix { nrows: a.matrix.ncols, ncols: b.matrix.ncols, data } };
    assert(x.wf());
    proof {
        if dg {
            lemma_augmented_at(a.matrix, b.matrix);
            assert forall|i: int, q: int| 0 <= i < a.matrix.nrows && 0 <= q < b.matrix.ncols implies #[trigger] x.matrix.at(i, q)
                == b.matrix.at(i, q).spec_div(a.matrix.at(i, i))->0 by {
                assert(x.matrix.at(i, q) == xrows@[i]@[q]);
                assert(rows_view(aug)[i] == aug@[i]@);
                assert(aug@[i]@[na + q] == b.matrix.at(i, q));
                assert(aug@[i]@[i] == a.matrix.at(i, i));
            }
        }
    }
    let xc = x.__copy__();
    assert(xc.wf());
    let ghost xcm = xc.matrix;
    let bl = b.matrix.data.len();
    proof {
        assert(b.matrix.data@.len() == a.matrix.nrows * b.matrix.ncols);
        assert(a.matrix.nrows * xc.matrix.ncols <= usize::MAX);
    }
    proof {
        if dg {
            assert forall|i: int, q: int| 0 <= i < a.matrix.nrows && 0 <= q < b.matrix.ncols implies (#[trigger] dot(a.matrix, xcm, i, q, a.matrix.ncols as nat)) is Some
                && dot(a.matrix, xcm, i, q, a.matrix.ncols as nat)->0.same_value(b.matrix.at(i, q)) by {
                lemma_diagonal_dot_value(a.matrix, x.matrix, xcm, b.matrix, i, q);
            }
        }
    }
    let prod = a.__mul__(ScalarOrMatrix::Matrix(xc));
    match prod {
        Ok(p) => {
            assert(a.matrix.ncols == xcm.nrows);
            assert(p.matrix.ncols == b.matrix.ncols);
            assert(forall|i: int, j: int| 0 <= i < a.matrix.nrows && 0 <= j < xcm.ncols ==> Some(#[trigger] p.matrix.at(i, j)) == dot(a.matrix, xcm, i, j, a.matrix.ncols as nat));
            if p.matrix.equals(&b.matrix) {
                proof {
                    assert forall|i: int, j: int| 0 <= i < a.matrix.nrows && 0 <= j < b.matrix.ncols implies ((#[trigger] dot(a.matrix, x.matrix, i, j, a.matrix.ncols as nat)) matches Some(v)
                        && v.same_value(b.matrix.at(i, j))) by {
                        lemma_dot_congruent(a.matrix, a.matrix, xcm, x.matrix, i, j, a.matrix.ncols as nat);
                        lemma_index_in_bounds(i, j, a.matrix.nrows as int, b.matrix.ncols as int);
                        assert(p.matrix.data@[i * b.matrix.ncols + j].same_value(b.matrix.data@[i * b.matrix.ncols + j]));
                        assert(Some(p.matrix.at(i, j)) == dot(a.matrix, xcm, i, j, a.matrix.ncols as nat));
                    }
                }
                Ok(x)
            } else {
                proof {
                    if dg {
                        assert forall|kk: int| 0 <= kk < p.matrix.data@.len() implies (#[trigger] p.matrix.data@[kk]).same_value(
                            b.matrix.data@[kk],
                        ) by {
                            let nbi = b.matrix.ncols as int;
                            assert(nbi > 0) by {
                                assert(p.matrix.data@.len() == p.matrix.nrows * p.matrix.ncols);
                                if nbi == 0 {
                                    assert(p.matrix.nrows * 0 == 0);
                                }
                            }
                            let i = kk / nbi;
                            let q = kk % nbi;
                            vstd::arithmetic::div_mod::lemma_fundamental_div_mod(kk, nbi);
                            assert(0 <= q < nbi);
                            assert(0 <= i < a.matrix.nrows) by (nonlinear_arith)
                                requires
                                    kk == nbi * i + q,
                                    0 <= q < nbi,
                                    0 <= kk < a.matrix.nrows * nbi,
                            ;
                            assert(kk == i * nbi + q) by (nonlinear_arith)
                                requires
                                    kk == nbi * i + q,
                            ;
                            assert(Some(p.matrix.at(i, q)) == dot(a.matrix, xcm, i, q, a.matrix.ncols as nat));
                        }
                        assert(false);
                    }
                }
                Err(MatrixError::Overflow)
            }
        },
        Err(_) => {
            assert(!dg);
            Err(MatrixError::Overflow)
        },
    }
}

/// The coefficients of `[a b]`: those of `a`, then those of `b`.
proof fn lemma_augmented_at(a: Matrix, b: Matrix)
    requires
        a.nrows == b.nrows,
    ensures
        forall|i: int, c: int| 0 <= i < a.nrows && 0 <= c < a.ncols ==> #[trigger] augmented_rows(a, b)[i][c] == a.at(i, c),
        forall|i: int, q: int| 0 <= i < a.nrows && 0 <= q < b.ncols ==> #[trigger] augmented_rows(a, b)[i][a.ncols + q] == b.at(i, q),
{
    assert forall|i: int, q: int| 0 <= i < a.nrows && 0 <= q < b.ncols implies #[trigger] augmented_rows(a, b)[i][a.ncols + q]
        == b.at(i, q) by {
        assert(rows_of(a)[i].len() == a.ncols);
        assert(rows_of(b)[i].len() == b.ncols);
        assert((rows_of(a)[i] + rows_of(b)[i])[a.ncols + q] == rows_of(b)[i][q]);
    }
}

/// In a diagonal system, each row of the matrix times the column of quotients gives back the
/// right-hand side's value.
proof fn lemma_diagonal_dot_value(a: Matrix, x: Matrix, xc: Matrix, b: Matrix, i: int, q: int)
    requires
        a.wf(),
        x.wf(),
        diagonal_system(a, b),
        xc.ncols == x.ncols,
        xc.data@ == x.data@,
        x.nrows == a.ncols,
        x.ncols == b.ncols,
        0 <= i < a.nrows,
        0 <= q < b.ncols,
        forall|i2: int, q2: int| 0 <= i2 < a.nrows && 0 <= q2 < b.ncols ==> #[trigger] x.at(i2, q2) == b.at(i2, q2).spec_div(a.at(i2, i2))->0,
    ensures
        dot(a, xc, i, q, a.ncols as nat) is Some,
        dot(a, xc, i, q, a.ncols as nat)->0.same_value(b.at(i, q)),
{
    let n = a.ncols as nat;
    assert forall|l: int| 0 <= l < n implies (#[trigger] a.at(i, l)).wf() && xc.at(l, q).wf() by {
        lemma_index_in_bounds(i, l, a.nrows as int, a.ncols as int);
        lemma_index_in_bounds(l, q, x.nrows as int, x.ncols as int);
        assert(xc.at(l, q) == x.at(l, q));
    }
    assert(xc.at(i, q) == x.at(i, q));
    lemma_dot_diagonal(a, xc, i, q, n, n);
    let y = b.at(i, q).spec_div(a.at(i, i))->0;
    let aii = a.at(i, i);
    lemma_index_in_bounds(i, i, a.nrows as int, a.ncols as int);
    lemma_index_in_bounds(i, q, b.nrows as int, b.ncols as int);
    assert(b.at(i, q).wf());
    crate::rational::lemma_mul_commutative(aii, y);
    crate::rational::lemma_div_then_mul(b.at(i, q), aii);
    let pr = aii.spec_mul(y)->0;
    assert(pr.den > 0);
    lemma_same_value_trans(dot(a, xc, i, q, n)->0, pr, b.at(i, q));
}

/// The rows below the first, without column `j`.
pub open spec fn minor(rows: Seq<Seq<Rational>>, j: int) -> Seq<Seq<Rational>> {
    Seq::new((rows.len() - 1) as nat, |i: int| rows[i + 1].remove(j))
}

/// The determinant of the square `rows`, by cofactor expansion along the first row, the
/// terms added from the first column on; `None` where a coefficient does not fit.
pub open spec fn det_rows(rows: Seq<Seq<Rational>>) -> Option<Rational>
    decreases rows.len(), 1nat, 0nat,
{
    if rows.len() == 0 {
        Some(Rational { num: 1, den: 1 })
    } else {
        cofactor_sum(rows, rows.len())
    }
}

/// The sum of the first `n` terms of the cofactor expansion along the first row.
pub open spec fn cofactor_sum(rows: Seq<Seq<Rational>>, n: nat) -> Option<Rational>
    decreases rows.len(), 0nat, n,
{
    if n == 0 || rows.len() == 0 {
        Some(Rational { num: 0, den: 1 })
    } else {
        match cofactor_sum(rows, (n - 1) as nat) {
            Some(acc) => match cofactor_term(rows, n - 1) {
                Some(t) => acc.spec_add(t),
                None => None,
            },
            None => None,
        }
    }
}

/// The term of column `j` in the cofactor expansion along the first row: the coefficient
/// times the determinant of its minor, negated for odd `j`.
pub open spec fn cofactor_term(rows: Seq<Seq<Rational>>, j: int) -> Option<Rational>
    decreases rows.len(), 0nat, 0nat,
{
    if rows.len() == 0 || j < 0 || j >= rows[0].len() {
        None
    } else {
        match det_rows(minor(rows, j)) {
            Some(d) => match rows[0][j].spec_mul(d) {
                Some(p) => if j % 2 == 0 {
                    Some(p)
                } else {
                    p.spec_neg()
                },
                None => None,
            },
            None => None,
        }
    }
}

/// Once a partial cofactor sum overflows, so do the longer ones.
proof fn lemma_cofactor_none_stays(rows: Seq<Seq<Rational>>, m: nat, n: nat)
    requires
        cofactor_sum(rows, m) is None,
        m <= n,
    ensures
        cofactor_sum(rows, n) is None,
    decreases n - m,
{
    if m < n {
        lemma_cofactor_none_stays(rows, m, (n - 1) as nat);
    }
}

/// The rows below the first of `rows`, without column `j`.
fn minor_exec(rows: &Vec<Vec<Rational>>, j: usize) -> (r: Vec<Vec<Rational>>)
    requires
        rows@.len() >= 1,
        forall|t: int| 0 <= t < rows@.len() ==> j < (#[trigger] rows@[t])@.len(),
    ensures
        rows_view(r) == minor(rows_view(*rows), j as int),
{
    let mut out: Vec<Vec<Rational>> = Vec::new();
    let mut i: usize = 1;
    while i < rows.len()
        invariant
            rows@.len() >= 1,
            forall|t: int| 0 <= t < rows@.len() ==> j < (#[trigger] rows@[t])@.len(),
            1 <= i <= rows@.len(),
            out@.len() == i - 1,
            forall|t: int| 0 <= t < i - 1 ==> #[trigger] out@[t]@ == rows@[t + 1]@.remove(j as int),
        decreases rows@.len() - i,
    {
        let row = &rows[i];
        let mut nr: Vec<Rational> = Vec::new();
        let mut l: usize = 0;
        while l < row.len()
            invariant
                j < row@.len(),
                0 <= l <= row@.len(),
                nr@ == (if l <= j { row@.take(l as int) } else { row@.take(l as int).remove(j as int) }),
            decreases row@.len() - l,
        {
            if l != j {
                nr.push(row[l].copy());
            }
            proof {
                if l < j {
                    assert(row@.take(l + 1) =~= row@.take(l as int).push(row@[l as int]));
                } else if l == j {
                    assert(row@.take(l + 1).remove(j as int) =~= row@.take(l as int));
                } else {
                    assert(row@.take(l + 1).remove(j as int) =~= row@.take(l as int).remove(j as int).push(row@[l as int]));
                }
            }
            l = l + 1;
        }
        assert(row@.take(row@.len() as int) =~= row@);
        out.push(nr);
        i = i + 1;
    }
    assert(rows_view(out) =~= minor(rows_view(*rows), j as int)) by {
        assert forall|t: int| 0 <= t < rows_view(out).len() implies rows_view(out)[t] == minor(rows_view(*rows), j as int)[t] by {
            assert(rows_view(*rows)[t + 1] == rows@[t + 1]@);
        }
    }
    out
}

/// Every row of `rows` has as many coefficients as there are rows, each with a positive
/// denominator.
pub open spec fn square_wf(rows: Seq<Seq<Rational>>) -> bool {
    rows_wf(rows, rows.len() as int)
}

/// The determinant of the square `rows` by cofactor expansion along the first row.
fn det_exec(rows: &Vec<Vec<Rational>>) -> (r: Option<Rational>)
    requires
        square_wf(rows_view(*rows)),
    ensures
        r == det_rows(rows_view(*rows)),
        r matches Some(d) ==> d.wf(),
    decreases rows@.len(),
{
    let n = rows.len();
    let ghost v = rows_view(*rows);
    if n == 0 {
        return Some(Rational::one());
    }
    assert forall|t: int| 0 <= t < rows@.len() implies (#[trigger] rows@[t])@.len() == n by {
        assert(v[t] == rows@[t]@);
    }
    let mut acc = Rational::zero();
    let mut j: usize = 0;
    while j < n
        invariant
            n == rows@.len(),
            n >= 1,
            v == rows_view(*rows),
            square_wf(v),
            forall|t: int| 0 <= t < rows@.len() ==> (#[trigger] rows@[t])@.len() == n,
            0 <= j <= n,
            cofactor_sum(v, j as nat) == Some(acc),
            acc.wf(),
        decreases n - j,
    {
        let m = minor_exec(rows, j);
        proof {
            let mv = minor(v, j as int);
            assert forall|t: int| 0 <= t < mv.len() implies (#[trigger] mv[t]).len() == mv.len() && forall|c: int|
                0 <= c < mv.len() ==> (#[trigger] mv[t][c]).wf() by {
                assert forall|c: int| 0 <= c < mv.len() implies (#[trigger] mv[t][c]).wf() by {
                    if c < j {
                        assert(mv[t][c] == v[t + 1][c]);
                    } else {
                        assert(mv[t][c] == v[t + 1][c + 1]);
                    }
                }
            }
            assert(rows_view(m).len() == m@.len());
        }
        let d = match det_exec(&m) {
            Some(d) => d,
            None => {
                proof {
                    assert(cofactor_term(v, j as int) is None);
                    lemma_cofactor_none_stays(v, (j + 1) as nat, n as nat);
                }
                return None;
            },
        };
        assert(v[0] == rows@[0]@);
        let p = match rows[0][j].checked_mul(&d) {
            Some(p) => p,
            None => {
                proof {
                    assert(cofactor_term(v, j as int) is None);
                    lemma_cofactor_none_stays(v, (j + 1) as nat, n as nat);
                }
                return None;
            },
        };
        proof {
            lemma_reduced_wf(v[0][j as int].num * d.num, v[0][j as int].den * d.den);
            if p.spec_neg() is Some {
                lemma_reduced_wf(-p.num, p.den as int);
            }
        }
        let ghost pg = p;
        let t = if j % 2 == 0 {
            p
        } else {
            match p.checked_neg() {
                Some(q) => q,
                None => {
                    proof {
                        assert(cofactor_term(v, j as int) is None);
                        lemma_cofactor_none_stays(v, (j + 1) as nat, n as nat);
                    }
                    return None;
                },
            }
        };
        assert(cofactor_term(v, j as int) == Some(t));
        acc = match acc.checked_add(&t) {
            Some(a) => a,
            None => {
                proof {
                    lemma_cofactor_none_stays(v, (j + 1) as nat, n as nat);
                }
                return None;
            },
        };
        proof {
            let a0 = cofactor_sum(v, j as nat)->0;
            lemma_reduced_wf(a0.num * t.den + t.num * a0.den, a0.den * t.den);
        }
        j = j + 1;
    }
    Some(acc)
}

/// Columns `c` and `c + 1` of `rows` are equal.
pub open spec fn equal_adjacent_columns(rows: Seq<Seq<Rational>>, c: int) -> bool {
    forall|i: int| 0 <= i < rows.len() ==> #[trigger] rows[i][c] == rows[i][c + 1]
}

/// A checked result of value zero has a zero numerator.
proof fn lemma_reduced_zero_num(n: int, d: int)
    requires
        d > 0,
        n == 0,
        reduced(n, d) is Some,
    ensures
        reduced(n, d)->0.num == 0,
{
    lemma_reduced_value(n, d);
    let r = reduced(n, d)->0;
    assert(r.num * d == 0);
    assert(r.num == 0) by (nonlinear_arith)
        requires
            r.num * d == 0,
            d > 0,
    ;
}

/// Adding two zeros gives zero.
proof fn lemma_add_zeros(a: Rational, t: Rational)
    requires
        a.wf(),
        t.wf(),
        a.num == 0,
        t.num == 0,
        a.spec_add(t) is Some,
    ensures
        a.spec_add(t)->0.num == 0,
{
    assert(a.num * t.den + t.num * a.den == 0);
    assert(a.den * t.den > 0) by (nonlinear_arith)
        requires
            a.den > 0,
            t.den > 0,
    ;
    lemma_reduced_zero_num(a.num * t.den + t.num * a.den, a.den * t.den);
}

/// Every term of the cofactor expansion is zero where the coefficient or the minor's
/// determinant is.
proof fn lemma_term_zero(x: Rational, d: Rational, j: int)
    requires
        x.wf(),
        d.wf(),
        x.num == 0 || d.num == 0,
        x.spec_mul(d) is Some,
    ensures
        x.spec_mul(d)->0.num == 0,
        x.spec_mul(d)->0.spec_neg() is Some ==> x.spec_mul(d)->0.spec_neg()->0.num == 0,
{
    assert(x.num * d.num == 0) by (nonlinear_arith)
        requires
            x.num == 0 || d.num == 0,
    ;
    assert(x.den * d.den > 0) by (nonlinear_arith)
        requires
            x.den > 0,
            d.den > 0,
    ;
    lemma_reduced_zero_num(x.num * d.num, x.den * d.den);
    let p = x.spec_mul(d)->0;
    if p.spec_neg() is Some {
        lemma_reduced_value(x.num * d.num, x.den * d.den);
        lemma_reduced_zero_num(-p.num, p.den as int);
    }
}

/// The minors of a matrix with two equal adjacent columns, away from those columns, have two
/// equal adjacent columns too.
proof fn lemma_minor_square(rows: Seq<Seq<Rational>>, j: int)
    requires
        square_wf(rows),
        0 <= j < rows.len(),
    ensures
        square_wf(minor(rows, j)),
        minor(rows, j).len() == rows.len() - 1,
{
    let mv = minor(rows, j);
    assert forall|t: int| 0 <= t < mv.len() implies (#[trigger] mv[t]).len() == mv.len() && forall|c: int|
        0 <= c < mv.len() ==> (#[trigger] mv[t][c]).wf() by {
        assert forall|c: int| 0 <= c < mv.len() implies (#[trigger] mv[t][c]).wf() by {
            if c < j {
                assert(mv[t][c] == rows[t + 1][c]);
            } else {
                assert(mv[t][c] == rows[t + 1][c + 1]);
            }
        }
    }
}

/// A matrix with two equal adjacent columns has determinant zero: the determinant is
/// alternating.
#[verifier::rlimit(30)]
pub proof fn lemma_det_equal_columns(rows: Seq<Seq<Rational>>, c: int)
    requires
        square_wf(rows),
        0 <= c,
        c + 1 < rows.len(),
        equal_adjacent_columns(rows, c),
        det_rows(rows) is Some,
    ensures
        det_rows(rows)->0.num == 0,
    decreases rows.len(),
{
    let n = rows.len();
    assert(rows[0].len() == n);
    // every partial sum is Some
    assert forall|k: nat| k <= n implies #[trigger] cofactor_sum(rows, k) is Some by {
        if cofactor_sum(rows, k) is None {
            lemma_cofactor_none_stays(rows, k, n as nat);
        }
    }
    // the terms away from the two columns are zero
    assert forall|j: int| 0 <= j < n && j != c && j != c + 1 && #[trigger] cofactor_term(rows, j) is Some implies cofactor_term(
        rows,
        j,
    )->0.num == 0 by {
        lemma_minor_square(rows, j);
        let mv = minor(rows, j);
        let c2 = if j < c { c - 1 } else { c };
        assert(equal_adjacent_columns(mv, c2)) by {
            assert forall|i: int| 0 <= i < mv.len() implies #[trigger] mv[i][c2] == mv[i][c2 + 1] by {
                assert(rows[i + 1][c] == rows[i + 1][c + 1]);
                if j < c {
                    assert(mv[i][c2] == rows[i + 1][c]);
                    assert(mv[i][c2 + 1] == rows[i + 1][c + 1]);
                } else {
                    assert(mv[i][c2] == rows[i + 1][c]);
                    assert(mv[i][c2 + 1] == rows[i + 1][c + 1]);
                }
            }
        }
        lemma_det_equal_columns(mv, c2);
        let d = det_rows(mv)->0;
        lemma_det_wf(mv);
        lemma_term_zero(rows[0][j], d, j);
    }
    // the two terms of the equal columns cancel
    lemma_minor_square(rows, c);
    assert(minor(rows, c) =~= minor(rows, c + 1)) by {
        assert forall|i: int| 0 <= i < n - 1 implies #[trigger] minor(rows, c)[i] == minor(rows, c + 1)[i] by {
            assert(rows[i + 1].remove(c) =~= rows[i + 1].remove(c + 1)) by {
                assert(rows[i + 1][c] == rows[i + 1][c + 1]);
            }
        }
    }
    assert(rows[0][c] == rows[0][c + 1]);
    lemma_zero_sums(rows, c);
    let s0 = cofactor_sum(rows, c as nat)->0;
    let t0 = cofactor_term(rows, c)->0;
    let t1 = cofactor_term(rows, c + 1)->0;
    let s1 = cofactor_sum(rows, (c + 1) as nat)->0;
    let s2 = cofactor_sum(rows, (c + 2) as nat)->0;
    assert(s1 == s0.spec_add(t0)->0);
    assert(s2 == s1.spec_add(t1)->0);
    lemma_det_wf(minor(rows, c));
    let dm = det_rows(minor(rows, c))->0;
    let p = rows[0][c].spec_mul(dm)->0;
    assert(p.den > 0);
    lemma_reduced_value(rows[0][c].num * dm.num, rows[0][c].den * dm.den);
    if p.spec_neg() is Some {
        lemma_reduced_value(-p.num, p.den as int);
    }
    lemma_cancel(s0, t0, t1, p);
    lemma_zero_tail(rows, c + 2);
}

/// The partial sums before column `c` are zero where every term before it is.
proof fn lemma_zero_sums(rows: Seq<Seq<Rational>>, c: int)
    requires
        square_wf(rows),
        0 <= c < rows.len(),
        forall|k: nat| k <= rows.len() ==> #[trigger] cofactor_sum(rows, k) is Some,
        forall|j: int| 0 <= j < c && #[trigger] cofactor_term(rows, j) is Some ==> cofactor_term(rows, j)->0.num == 0,
    ensures
        forall|k: nat| k <= c ==> (#[trigger] cofactor_sum(rows, k))->0.num == 0 && cofactor_sum(rows, k)->0.wf(),
    decreases c,
{
    if c > 0 {
        lemma_zero_sums(rows, c - 1);
        assert forall|k: nat| k <= c implies (#[trigger] cofactor_sum(rows, k))->0.num == 0 && cofactor_sum(rows, k)->0.wf() by {
            if k == c {
                let a = cofactor_sum(rows, (c - 1) as nat)->0;
                assert(cofactor_sum(rows, (c - 1) as nat) is Some);
                assert(cofactor_term(rows, c - 1) is Some);
                let t = cofactor_term(rows, c - 1)->0;
                lemma_term_wf(rows, c - 1);
                lemma_add_zeros(a, t);
                lemma_sum_wf(a, t);
            }
        }
    } else {
        assert(cofactor_sum(rows, 0) == Some(Rational { num: 0, den: 1 }));
    }
}

/// After the two equal columns, the remaining terms are zero and keep the sum zero.
proof fn lemma_zero_tail(rows: Seq<Seq<Rational>>, k: int)
    requires
        square_wf(rows),
        0 < k <= rows.len(),
        forall|m: nat| m <= rows.len() ==> #[trigger] cofactor_sum(rows, m) is Some,
        forall|j: int| k <= j < rows.len() && #[trigger] cofactor_term(rows, j) is Some ==> cofactor_term(rows, j)->0.num == 0,
        cofactor_sum(rows, k as nat)->0.num == 0,
        cofactor_sum(rows, k as nat)->0.wf(),
    ensures
        cofactor_sum(rows, rows.len())->0.num == 0,
    decreases rows.len() - k,
{
    if k < rows.len() {
        let a = cofactor_sum(rows, k as nat)->0;
        assert(cofactor_sum(rows, (k + 1) as nat) is Some);
        assert(cofactor_term(rows, k) is Some);
        let t = cofactor_term(rows, k)->0;
        lemma_term_wf(rows, k);
        lemma_add_zeros(a, t);
        lemma_sum_wf(a, t);
        lemma_zero_tail(rows, k + 1);
    }
}

/// Checked sums have a positive denominator.
proof fn lemma_sum_wf(a: Rational, t: Rational)
    requires
        a.spec_add(t) is Some,
    ensures
        a.spec_add(t)->0.wf(),
{
}

/// Determinants have a positive denominator.
proof fn lemma_det_wf(rows: Seq<Seq<Rational>>)
    requires
        det_rows(rows) is Some,
    ensures
        det_rows(rows)->0.wf(),
{
    if rows.len() > 0 {
        lemma_cofactor_sum_wf(rows, rows.len());
    }
}

proof fn lemma_cofactor_sum_wf(rows: Seq<Seq<Rational>>, n: nat)
    requires
        cofactor_sum(rows, n) is Some,
    ensures
        cofactor_sum(rows, n)->0.wf(),
    decreases n,
{
    if n > 0 && rows.len() > 0 {
        lemma_cofactor_sum_wf(rows, (n - 1) as nat);
    }
}

proof fn lemma_term_wf(rows: Seq<Seq<Rational>>, j: int)
    requires
        cofactor_term(rows, j) is Some,
    ensures
        cofactor_term(rows, j)->0.wf(),
{
}

/// `s0 + t0 + t1` is zero where `s0` is zero and `t0`, `t1` are `p` and `-p` in some order.
proof fn lemma_cancel(s0: Rational, t0: Rational, t1: Rational, p: Rational)
    requires
        s0.wf(),
        s0.num == 0,
        p.den > 0,
        (t0 == p && p.spec_neg() == Some(t1)) || (t1 == p && p.spec_neg() == Some(t0)),
        p.spec_neg() is Some ==> p.spec_neg()->0.num * p.den == -p.num * p.spec_neg()->0.den,
        s0.spec_add(t0) is Some,
        s0.spec_add(t0)->0.spec_add(t1) is Some,
    ensures
        s0.spec_add(t0)->0.spec_add(t1)->0.num == 0,
{
    let s1 = s0.spec_add(t0)->0;
    let q = p.spec_neg()->0;
    assert(q.den > 0);
    assert(t0.den > 0 && t1.den > 0);
    assert(s0.den * t0.den > 0) by (nonlinear_arith)
        requires
            s0.den > 0,
            t0.den > 0,
    ;
    lemma_reduced_value(s0.num * t0.den + t0.num * s0.den, s0.den * t0.den);
    // s1 has the value of t0
    let s1n = s1.num as int;
    let s1d = s1.den as int;
    let s0d = s0.den as int;
    let t0n = t0.num as int;
    let t0d = t0.den as int;
    let t1n = t1.num as int;
    let t1d = t1.den as int;
    assert(s1n * (s0d * t0d) == (t0n * s0d) * s1d);
    assert(s1n * t0d == t0n * s1d) by (nonlinear_arith)
        requires
            s1n * (s0d * t0d) == (t0n * s0d) * s1d,
            s0d > 0,
    ;
    // t1 has the value of -t0
    assert(t1n * t0d == -t0n * t1d) by (nonlinear_arith)
        requires
            (t0n == p.num && t1n == q.num && t0d == p.den && t1d == q.den) || (t1n == p.num && t0n == q.num && t1d == p.den
                && t0d == q.den),
            q.num * p.den == -p.num * q.den,
    ;
    let nn = s1n * t1d + t1n * s1d;
    assert(nn * t0d == 0) by (nonlinear_arith)
        requires
            nn == s1n * t1d + t1n * s1d,
            s1n * t0d == t0n * s1d,
            t1n * t0d == -t0n * t1d,
    ;
    assert(nn == 0) by (nonlinear_arith)
        requires
            nn * t0d == 0,
            t0d > 0,
    ;
    assert(s1d * t1d > 0) by (nonlinear_arith)
        requires
            s1d > 0,
            t1d > 0,
    ;
    lemma_reduced_zero_num(nn, s1d * t1d);
}

/// The rows of the identity matrix with `n` rows.
pub open spec fn identity_rows(n: nat) -> Seq<Seq<Rational>> {
    Seq::new(n, |i: int| Seq::new(n, |j: int| if i == j { one_q() } else { zero_q() }))
}

/// `-1`.
pub open spec fn minus_one_q() -> Rational {
    Rational { num: -1i64, den: 1 }
}

pub open spec fn is_unit_or_zero(x: Rational) -> bool {
    x == zero_q() || x == one_q() || x == minus_one_q()
}

/// A square matrix of zeros and ones with at most one one in each row and in each column.
pub open spec fn partial_permutation(rows: Seq<Seq<Rational>>) -> bool {
    &&& forall|i: int| 0 <= i < rows.len() ==> (#[trigger] rows[i]).len() == rows.len()
    &&& forall|i: int, j: int| 0 <= i < rows.len() && 0 <= j < rows.len() ==> #[trigger] rows[i][j] == zero_q() || rows[i][j] == one_q()
    &&& forall|i: int, j1: int, j2: int|
        0 <= i < rows.len() && 0 <= j1 < rows.len() && 0 <= j2 < rows.len() && #[trigger] rows[i][j1] == one_q()
            && #[trigger] rows[i][j2] == one_q() ==> j1 == j2
    &&& forall|i1: int, i2: int, j: int|
        0 <= i1 < rows.len() && 0 <= i2 < rows.len() && 0 <= j < rows.len() && #[trigger] rows[i1][j] == one_q()
            && #[trigger] rows[i2][j] == one_q() ==> i1 == i2
}

proof fn lemma_unit_arith()
    ensures
        reduced(0, 1) == Some(zero_q()),
        reduced(1, 1) == Some(one_q()),
        reduced(-1, 1) == Some(minus_one_q()),
{
    assert(gcd(0, 1) == gcd(1, 0));
    assert(gcd(1, 0) == 1);
    assert(gcd(1, 1) == gcd(1, 0));
    crate::reduce::lemma_zero_reduces(1);
}

/// Multiplying by zero or one, negating, and adding zero keep units and zero where they are.
proof fn lemma_unit_steps(u: Rational)
    requires
        is_unit_or_zero(u),
    ensures
        zero_q().spec_mul(u) == Some(zero_q()),
        one_q().spec_mul(u) == Some(u),
        u.spec_neg() is Some && is_unit_or_zero(u.spec_neg()->0),
        u.spec_neg()->0.num == -u.num,
        u.spec_add(zero_q()) == Some(u),
        zero_q().spec_add(u) == Some(u),
{
    lemma_unit_arith();
    assert(u.den == 1);
    assert(0 * u.num == 0);
    assert(1 * u.den == 1);
    assert(1 * u.num == u.num);
    assert(u.num * 1 + 0 * u.den == u.num);
    assert(0 * u.den + u.num * 1 == u.num);
    assert(u.den * 1 == 1);
    if u == zero_q() {
        assert(reduced(u.num as int, 1) == Some(u));
        assert(reduced(-u.num, 1) == Some(zero_q()));
    } else if u == one_q() {
        assert(reduced(u.num as int, 1) == Some(u));
        assert(reduced(-u.num, 1) == Some(minus_one_q()));
    } else {
        assert(reduced(u.num as int, 1) == Some(u));
        assert(reduced(-u.num, 1) == Some(one_q()));
    }
}

/// The determinant of a partial permutation matrix is zero, one or minus one.
proof fn lemma_det_partial_permutation(rows: Seq<Seq<Rational>>)
    requires
        partial_permutation(rows),
    ensures
        det_rows(rows) is Some,
        is_unit_or_zero(det_rows(rows)->0),
    decreases rows.len(), 1nat,
{
    if rows.len() > 0 {
        lemma_cofactor_partial(rows, rows.len());
    } else {
        assert(det_rows(rows) == Some(one_q()));
    }
}

proof fn lemma_minor_partial(rows: Seq<Seq<Rational>>, j: int)
    requires
        partial_permutation(rows),
        0 <= j < rows.len(),
    ensures
        partial_permutation(minor(rows, j)),
{
    let mv = minor(rows, j);
    let n = rows.len();
    let col = |c: int| if c < j { c } else { c + 1 };
    assert forall|i: int, c: int| 0 <= i < mv.len() && 0 <= c < mv.len() implies #[trigger] mv[i][c] == rows[i + 1][col(c)] by {
        assert(rows[i + 1].len() == n);
    }
    assert forall|i: int| 0 <= i < mv.len() implies (#[trigger] mv[i]).len() == mv.len() by {
        assert(rows[i + 1].len() == n);
    }
    assert forall|i: int, j1: int, j2: int|
        0 <= i < mv.len() && 0 <= j1 < mv.len() && 0 <= j2 < mv.len() && #[trigger] mv[i][j1] == one_q()
            && #[trigger] mv[i][j2] == one_q() implies j1 == j2 by {
        assert(rows[i + 1][col(j1)] == one_q());
        assert(rows[i + 1][col(j2)] == one_q());
    }
    assert forall|i1: int, i2: int, c: int|
        0 <= i1 < mv.len() && 0 <= i2 < mv.len() && 0 <= c < mv.len() && #[trigger] mv[i1][c] == one_q()
            && #[trigger] mv[i2][c] == one_q() implies i1 == i2 by {
        assert(rows[i1 + 1][col(c)] == one_q());
        assert(rows[i2 + 1][col(c)] == one_q());
    }
    assert forall|i: int, c: int| 0 <= i < mv.len() && 0 <= c < mv.len() implies #[trigger] mv[i][c] == zero_q() || mv[i][c] == one_q() by {
        assert(mv[i][c] == rows[i + 1][col(c)]);
    }
}

proof fn lemma_cofactor_partial(rows: Seq<Seq<Rational>>, k: nat)
    requires
        partial_permutation(rows),
        0 < rows.len(),
        k <= rows.len(),
    ensures
        cofactor_sum(rows, k) is Some,
        is_unit_or_zero(cofactor_sum(rows, k)->0),
        cofactor_sum(rows, k)->0 != zero_q() ==> exists|j: int| 0 <= j < k && #[trigger] rows[0][j] == one_q(),
    decreases rows.len(), 0nat, k,
{
    lemma_unit_arith();
    if k > 0 {
        lemma_cofactor_partial(rows, (k - 1) as nat);
        let j = k - 1;
        let u = cofactor_sum(rows, j as nat)->0;
        lemma_minor_partial(rows, j);
        lemma_det_partial_permutation(minor(rows, j));
        let d = det_rows(minor(rows, j))->0;
        lemma_unit_steps(d);
        lemma_unit_steps(u);
        assert(rows[0].len() == rows.len());
        let x = rows[0][j];
        assert(x == zero_q() || x == one_q());
        if x == zero_q() {
            assert(cofactor_term(rows, j) == Some(zero_q()));
        } else {
            let p = d;
            assert(x.spec_mul(d) == Some(d));
            let t = cofactor_term(rows, j)->0;
            assert(is_unit_or_zero(t));
            if u != zero_q() {
                let j0 = choose|j0: int| 0 <= j0 < j && #[trigger] rows[0][j0] == one_q();
                assert(rows[0][j] == one_q());
            }
            lemma_unit_steps(t);
        }
    }
}

/// The identity matrix has determinant one.
pub proof fn lemma_det_identity(n: nat)
    ensures
        det_rows(identity_rows(n)) == Some(one_q()),
    decreases n,
{
    lemma_unit_arith();
    let rows = identity_rows(n);
    if n > 0 {
        lemma_det_identity((n - 1) as nat);
        assert(minor(rows, 0) =~= identity_rows((n - 1) as nat)) by {
            assert forall|i: int| 0 <= i < n - 1 implies #[trigger] minor(rows, 0)[i] =~= identity_rows((n - 1) as nat)[i] by {}
        }
        assert(partial_permutation(rows)) by {
            assert forall|i: int, j1: int, j2: int|
                0 <= i < rows.len() && 0 <= j1 < rows.len() && 0 <= j2 < rows.len() && #[trigger] rows[i][j1] == one_q()
                    && #[trigger] rows[i][j2] == one_q() implies j1 == j2 by {
                if j1 != i {
                    assert(rows[i][j1] == zero_q());
                }
                if j2 != i {
                    assert(rows[i][j2] == zero_q());
                }
            }
            assert forall|i1: int, i2: int, j: int|
                0 <= i1 < rows.len() && 0 <= i2 < rows.len() && 0 <= j < rows.len() && #[trigger] rows[i1][j] == one_q()
                    && #[trigger] rows[i2][j] == one_q() implies i1 == i2 by {
                if i1 != j {
                    assert(rows[i1][j] == zero_q());
                }
                if i2 != j {
                    assert(rows[i2][j] == zero_q());
                }
            }
        }
        lemma_unit_steps(one_q());
        assert(cofactor_term(rows, 0) == Some(one_q()));
        assert(cofactor_sum(rows, 0) == Some(zero_q()));
        assert(cofactor_sum(rows, 1) == zero_q().spec_add(one_q()));
        assert(cofactor_sum(rows, 1) == Some(one_q()));
        lemma_identity_tail(n, 1);
    }
}

proof fn lemma_identity_tail(n: nat, k: nat)
    requires
        0 < k <= n,
        partial_permutation(identity_rows(n)),
        cofactor_sum(identity_rows(n), k) == Some(one_q()),
    ensures
        cofactor_sum(identity_rows(n), n) == Some(one_q()),
    decreases n - k,
{
    let rows = identity_rows(n);
    if k < n {
        lemma_unit_arith();
        lemma_minor_partial(rows, k as int);
        lemma_det_partial_permutation(minor(rows, k as int));
        let d = det_rows(minor(rows, k as int))->0;
        lemma_unit_steps(d);
        lemma_unit_steps(one_q());
        assert(rows[0][k as int] == zero_q());
        assert(cofactor_term(rows, k as int) == Some(zero_q()));
        lemma_identity_tail(n, k + 1);
    }
}

/// `a` is square and diagonal with a nonzero diagonal, each diagonal coefficient has a
/// reciprocal that fits, and the reciprocal times the coefficient fits in either order.
pub open spec fn invertible_diagonal(a: Matrix) -> bool {
    &&& a.nrows == a.ncols
    &&& a.nrows > 0
    &&& forall|i: int, c: int| 0 <= i < a.nrows && 0 <= c < a.ncols ==> ((#[trigger] a.at(i, c)).num != 0) == (i == c)
    &&& forall|i: int|
        0 <= i < a.nrows ==> (#[trigger] one_q().spec_div(a.at(i, i))) is Some && a.at(i, i).spec_mul(
            one_q().spec_div(a.at(i, i))->0,
        ) is Some && one_q().spec_div(a.at(i, i))->0.spec_mul(a.at(i, i)) is Some
}

/// The inverse of a diagonal matrix: the reciprocals on the diagonal, zero elsewhere.
pub open spec fn diagonal_inverse_at(a: Matrix, i: int, j: int) -> Rational {
    if i == j {
        one_q().spec_div(a.at(i, i))->0
    } else {
        zero_q()
    }
}

/// Coefficients that agree in value at every row and column agree in value everywhere.
proof fn lemma_same_entries_value(p: Matrix, b: Matrix)
    requires
        p.wf(),
        b.wf(),
        p.nrows == b.nrows,
        p.ncols == b.ncols,
        forall|i: int, j: int| 0 <= i < p.nrows && 0 <= j < p.ncols ==> (#[trigger] p.at(i, j)).same_value(b.at(i, j)),
    ensures
        forall|kk: int| 0 <= kk < p.data@.len() ==> (#[trigger] p.data@[kk]).same_value(b.data@[kk]),
{
    assert forall|kk: int| 0 <= kk < p.data@.len() implies (#[trigger] p.data@[kk]).same_value(b.data@[kk]) by {
        let nbi = p.ncols as int;
        assert(nbi > 0) by {
            if nbi == 0 {
                assert(p.nrows * 0 == 0);
            }
        }
        let i = kk / nbi;
        let q = kk % nbi;
        vstd::arithmetic::div_mod::lemma_fundamental_div_mod(kk, nbi);
        assert(0 <= i < p.nrows) by (nonlinear_arith)
            requires
                kk == nbi * i + q,
                0 <= q < nbi,
                0 <= kk < p.nrows * nbi,
        ;
        assert(kk == i * nbi + q) by (nonlinear_arith)
            requires
                kk == nbi * i + q,
        ;
        assert(p.at(i, q).same_value(b.at(i, q)));
    }
}

/// The identity matrix and an invertible diagonal matrix form a diagonal system.
proof fn lemma_identity_system(a: Matrix, id: Matrix)
    requires
        a.wf(),
        id.wf(),
        invertible_diagonal(a),
        is_identity(id, a.nrows as int),
    ensures
        diagonal_system(a, id),
        forall|i: int, j: int| 0 <= i < a.nrows && 0 <= j < a.nrows ==> #[trigger] id.at(i, j).spec_div(a.at(i, i))->0 == diagonal_inverse_at(a, i, j),
{
    lemma_unit_arith();
    assert(gcd(1, 1) == gcd(1, 0));
    assert(gcd(0, 1) == gcd(1, 0));
    assert(one_q().lowest());
    assert(zero_q().lowest());
    assert forall|i: int, q: int| 0 <= i < a.nrows && 0 <= q < id.ncols implies (#[trigger] id.at(i, q)).lowest() && id.at(i, q).spec_div(a.at(i, i)) is Some
        && a.at(i, i).spec_mul(id.at(i, q).spec_div(a.at(i, i))->0) is Some && id.at(i, q).spec_div(a.at(i, i))->0 == diagonal_inverse_at(a, i, q) by {
        assert(one_q().spec_div(a.at(i, i)) is Some);
        if i != q {
            let iv = a.at(i, i).spec_inv()->0;
            assert(iv.den > 0);
            assert(0 * iv.num == 0);
            assert(1 * iv.den == iv.den);
            lemma_zero_reduces(iv.den as int);
            assert(zero_q().spec_mul(iv) == Some(zero_q()));
            lemma_index_in_bounds(i, i, a.nrows as int, a.ncols as int);
            crate::rational::lemma_mul_commutative(a.at(i, i), zero_q());
            lemma_zero_product_some(zero_q(), a.at(i, i));
        }
    }
}

/// In an invertible diagonal matrix, the inverse times the matrix gives the identity's values.
proof fn lemma_inverse_dot(m: Matrix, mc: Matrix, a: Matrix, id: Matrix, i: int, j: int)
    requires
        a.wf(),
        m.wf(),
        invertible_diagonal(a),
        is_identity(id, a.nrows as int),
        m.nrows == a.nrows,
        m.ncols == a.nrows,
        mc.ncols == a.ncols,
        mc.data@ == a.data@,
        forall|i2: int, j2: int| 0 <= i2 < a.nrows && 0 <= j2 < a.nrows ==> #[trigger] m.at(i2, j2) == diagonal_inverse_at(a, i2, j2),
        0 <= i < a.nrows,
        0 <= j < a.nrows,
    ensures
        dot(m, mc, i, j, m.ncols as nat) is Some,
        dot(m, mc, i, j, m.ncols as nat)->0.same_value(id.at(i, j)),
{
    let n = m.ncols as nat;
    lemma_unit_arith();
    assert forall|l: int| 0 <= l < n implies (#[trigger] m.at(i, l)).wf() && mc.at(l, j).wf() by {
        lemma_index_in_bounds(i, l, m.nrows as int, m.ncols as int);
        lemma_index_in_bounds(l, j, a.nrows as int, a.ncols as int);
        assert(mc.at(l, j) == a.at(l, j));
    }
    assert forall|l: int| 0 <= l < n && l != i implies (#[trigger] m.at(i, l)).num == 0 by {
        assert(m.at(i, l) == diagonal_inverse_at(a, i, l));
    }
    let y = one_q().spec_div(a.at(i, i))->0;
    assert(m.at(i, i) == y);
    assert(mc.at(i, j) == a.at(i, j));
    lemma_index_in_bounds(i, j, a.nrows as int, a.ncols as int);
    lemma_index_in_bounds(i, i, a.nrows as int, a.ncols as int);
    assert(y.wf());
    if i == j {
        lemma_dot_diagonal(m, mc, i, j, n, n);
        crate::rational::lemma_div_then_mul(one_q(), a.at(i, i));
        let pr = y.spec_mul(a.at(i, i))->0;
        assert(pr.den > 0);
        assert(id.at(i, j) == one_q());
        lemma_same_value_trans(dot(m, mc, i, j, n)->0, pr, one_q());
    } else {
        assert(a.at(i, j).num == 0);
        crate::rational::lemma_mul_commutative(y, a.at(i, j));
        lemma_zero_product_some(a.at(i, j), y);
        lemma_dot_diagonal(m, mc, i, j, n, n);
        lemma_term_zero(a.at(i, j), y, 0);
        let pr = y.spec_mul(a.at(i, j))->0;
        assert(pr.num == 0);
        assert(id.at(i, j) == zero_q());
        let d = dot(m, mc, i, j, n)->0;
        assert(d.num * pr.den == pr.num * d.den);
        assert(d.num == 0) by (nonlinear_arith)
            requires
                d.num * pr.den == pr.num * d.den,
                pr.num == 0,
                pr.den > 0,
        ;
    }
}

impl PythonMatrix {
    /// Return the determinant of the matrix, by cofactor expansion along the first row; a
    /// matrix that is not square has none.
    pub fn det(&self) -> (r: Result<Rational, MatrixError>)
        requires
            self.wf(),
        ensures
            self.matrix.nrows != self.matrix.ncols ==> r == Err::<Rational, MatrixError>(MatrixError::NotSquare),
            self.matrix.nrows == self.matrix.ncols ==> match det_rows(rows_of(self.matrix)) {
                Some(d) => r == Ok::<Rational, MatrixError>(d),
                None => r == Err::<Rational, MatrixError>(MatrixError::Overflow),
            },
    {
        if self.matrix.nrows != self.matrix.ncols {
            return Err(MatrixError::NotSquare);
        }
        let rows = rows_from(&self.matrix);
        assert(rows_view(rows).len() == self.matrix.nrows) by {
            assert(rows_view(rows).len() == rows_of(self.matrix).len());
        }
        match det_exec(&rows) {
            Some(d) => Ok(d),
            None => Err(MatrixError::Overflow),
        }
    }

    /// Solve `A * x = b` for `x`, where `A` is the current matrix. The result multiplies out
    /// to `b`. When the columns of `A` have a rank below their number (the solution is not
    /// unique, or there is none) the system is underdetermined; when a row of the reduced
    /// system asks a nonzero right-hand side of zero coefficients it is inconsistent.
    pub fn solve(&self, b: PythonMatrix) -> (r: Result<PythonMatrix, MatrixError>)
        requires
            self.wf(),
            b.wf(),
            self.matrix.ncols * b.matrix.ncols <= usize::MAX,
            self.matrix.ncols + b.matrix.ncols <= usize::MAX,
        ensures
            b.matrix.nrows != self.matrix.nrows ==> r == Err::<PythonMatrix, MatrixError>(MatrixError::ShapeMismatch),
            r matches Ok(x) ==> x.wf() && solves(self.matrix, x.matrix, b.matrix),
            r matches Err(e) ==> (e == MatrixError::ShapeMismatch && b.matrix.nrows != self.matrix.nrows) || e
                == MatrixError::Overflow || (e == MatrixError::Underdetermined && rank_deficient(self.matrix, b.matrix))
                || (e == MatrixError::Inconsistent && inconsistent(self.matrix, b.matrix)),
            diagonal_system(self.matrix, b.matrix) ==> (r matches Ok(x) && forall|i: int, q: int|
                0 <= i < self.matrix.nrows && 0 <= q < b.matrix.ncols ==> #[trigger] x.matrix.at(i, q) == b.matrix.at(i, q).spec_div(
                    self.matrix.at(i, i),
                )->0),
    {
        solve_core(self, &b, false)
    }

    /// Solve `A * x = b` for `x`, where `A` is the current matrix, and return any solution if
    /// the system is underdetermined (the unknowns of columns without a pivot are zero). The
    /// result multiplies out to `b`; an inconsistent system has none.
    pub fn solve_any(&self, b: PythonMatrix) -> (r: Result<PythonMatrix, MatrixError>)
        requires
            self.wf(),
            b.wf(),
            self.matrix.ncols * b.matrix.ncols <= usize::MAX,
            self.matrix.ncols + b.matrix.ncols <= usize::MAX,
        ensures
            b.matrix.nrows != self.matrix.nrows ==> r == Err::<PythonMatrix, MatrixError>(MatrixError::ShapeMismatch),
            r matches Ok(x) ==> x.wf() && solves(self.matrix, x.matrix, b.matrix),
            r matches Err(e) ==> (e == MatrixError::ShapeMismatch && b.matrix.nrows != self.matrix.nrows) || e
                == MatrixError::Overflow || (e == MatrixError::Inconsistent && inconsistent(self.matrix, b.matrix)),
            diagonal_system(self.matrix, b.matrix) ==> (r matches Ok(x) && forall|i: int, q: int|
                0 <= i < self.matrix.nrows && 0 <= q < b.matrix.ncols ==> #[trigger] x.matrix.at(i, q) == b.matrix.at(i, q).spec_div(
                    self.matrix.at(i, i),
                )->0),
    {
        solve_core(self, &b, true)
    }

    /// Return the inverse of the matrix, if it exists: multiplied with the matrix from either
    /// side it gives the identity. A matrix that is not square has none, nor one whose columns
    /// have a rank below their number.
    pub fn inv(&self) -> (r: Result<PythonMatrix, MatrixError>)
        requires
            self.wf(),
            self.matrix.ncols + self.matrix.ncols <= usize::MAX,
        ensures
            self.matrix.nrows != self.matrix.ncols ==> r == Err::<PythonMatrix, MatrixError>(MatrixError::NotSquare),
            r matches Ok(m) ==> m.wf() && m.matrix.nrows == self.matrix.nrows && m.matrix.ncols == self.matrix.nrows
                && exists|id: Matrix| is_identity(id, self.matrix.nrows as int) && solves(self.matrix, m.matrix, id)
                    && solves(m.matrix, self.matrix, id),
            r matches Err(e) ==> (e == MatrixError::NotSquare && self.matrix.nrows != self.matrix.ncols) || (e
                == MatrixError::EmptyMatrix && self.matrix.nrows == 0) || e == MatrixError::Overflow || (e
                == MatrixError::Singular && exists|id: Matrix| is_identity(id, self.matrix.nrows as int) && (rank_deficient(
                self.matrix,
                id,
            ) || inconsistent(self.matrix, id))),
            invertible_diagonal(self.matrix) ==> (r matches Ok(m) && forall|i: int, j: int|
                0 <= i < self.matrix.nrows && 0 <= j < self.matrix.nrows ==> #[trigger] m.matrix.at(i, j) == diagonal_inverse_at(
                    self.matrix,
                    i,
                    j,
                )),
    {
        if self.matrix.nrows != self.matrix.ncols {
            return Err(MatrixError::NotSquare);
        }
        let n = self.matrix.nrows;
        let dl = self.matrix.data.len();
        proof {
            assert(dl == n * n);
        }
        let id = match PythonMatrix::identity(n) {
            Ok(id) => id,
            Err(e) => return Err(e),
        };
        let ghost idm = id.matrix;
        let ghost dg = invertible_diagonal(self.matrix);
        proof {
            if dg {
                lemma_identity_system(self.matrix, idm);
            }
        }
        match solve_core(self, &id, false) {
            Ok(m) => {
                proof {
                    if dg {
                        assert forall|i2: int, j2: int| 0 <= i2 < n && 0 <= j2 < n implies #[trigger] m.matrix.at(i2, j2) == diagonal_inverse_at(self.matrix, i2, j2) by {
                            assert(m.matrix.at(i2, j2) == idm.at(i2, j2).spec_div(self.matrix.at(i2, i2))->0);
                        }
                    }
                }
                let sc = self.__copy__();
                let ghost scm = sc.matrix;
                assert(sc.wf());
                assert(m.matrix.nrows * sc.matrix.ncols <= usize::MAX);
                proof {
                    if dg {
                        assert forall|i: int, j: int| 0 <= i < m.matrix.nrows && 0 <= j < scm.ncols implies (#[trigger] dot(m.matrix, scm, i, j, m.matrix.ncols as nat)) is Some by {
                            lemma_inverse_dot(m.matrix, scm, self.matrix, idm, i, j);
                        }
                    }
                }
                let prod = m.__mul__(ScalarOrMatrix::Matrix(sc));
                match prod {
                    Ok(p) => {
                        assert(m.matrix.ncols == scm.nrows);
                        assert(forall|i: int, j: int| 0 <= i < m.matrix.nrows && 0 <= j < scm.ncols ==> Some(#[trigger] p.matrix.at(i, j)) == dot(m.matrix, scm, i, j, m.matrix.ncols as nat));
                        if p.matrix.equals(&id.matrix) {
                            proof {
                                assert forall|i: int, j: int| 0 <= i < m.matrix.nrows && 0 <= j < idm.ncols implies ((#[trigger] dot(m.matrix, self.matrix, i, j, m.matrix.ncols as nat)) matches Some(v)
                                    && v.same_value(idm.at(i, j))) by {
                                    lemma_dot_congruent(m.matrix, m.matrix, scm, self.matrix, i, j, m.matrix.ncols as nat);
                                    lemma_index_in_bounds(i, j, n as int, n as int);
                                    assert(p.matrix.data@[i * n + j].same_value(idm.data@[i * n + j]));
                                    assert(Some(p.matrix.at(i, j)) == dot(m.matrix, scm, i, j, m.matrix.ncols as nat));
                                }
                                assert(solves(m.matrix, self.matrix, idm));
                            }
                            Ok(m)
                        } else {
                            proof {
                                if dg {
                                    assert forall|i: int, j: int| 0 <= i < p.matrix.nrows && 0 <= j < p.matrix.ncols implies (#[trigger] p.matrix.at(i, j)).same_value(idm.at(i, j)) by {
                                        lemma_inverse_dot(m.matrix, scm, self.matrix, idm, i, j);
                                    }
                                    lemma_same_entries_value(p.matrix, idm);
                                    assert(false);
                                }
                            }
                            Err(MatrixError::Overflow)
                        }
                    },
                    Err(_) => {
                        assert(!dg);
                        Err(MatrixError::Overflow)
                    },
                }
            },
            Err(MatrixError::Overflow) => {
                assert(!dg);
                Err(MatrixError::Overflow)
            },
            Err(_) => {
                assert(!dg);
                Err(MatrixError::Singular)
            },
        }
    }

    /// Row-reduce the first `max_col` columns of the matrix in place using Gaussian elimination
    /// and return the rank: the matrix becomes a row-equivalent one (reached by exchanging rows
    /// and subtracting multiples of rows from others) in echelon form in those columns, and the
    /// rank is its number of pivots. A coefficient that does not fit in 64 bits stops the
    /// elimination with the matrix as far as it got.
    pub fn row_reduce(&mut self, max_col: u32) -> (r: Result<usize, MatrixError>)
        requires
            old(self).wf(),
            max_col <= old(self).matrix.ncols,
        ensures
            final(self).wf(),
            final(self).matrix.nrows == old(self).matrix.nrows,
            final(self).matrix.ncols == old(self).matrix.ncols,
            exists|ops: Seq<RowOp>| apply_ops(rows_of(old(self).matrix), ops) == Some(rows_of(final(self).matrix)),
            match r {
                Ok(k) => echelon(rows_of(final(self).matrix), max_col as int, k as int),
                Err(e) => e == MatrixError::Overflow && exists|k: int, i: int, j: int|
                    elimination_overflows(rows_of(final(self).matrix), k, i, j),
            },
    {
        let dl = self.matrix.data.len();
        let mut rows = rows_from(&self.matrix);
        let ghost r0 = rows_view(rows);
        assert(rows@.len() == self.matrix.nrows) by {
            assert(rows_view(rows).len() == rows_of(self.matrix).len());
        }
        let res = reduce_rows(&mut rows, self.matrix.ncols as usize, max_col as usize);
        let nrows = self.matrix.nrows;
        let ncols = self.matrix.ncols;
        proof {
            assert(self.matrix.data@.len() == nrows * ncols);
            assert(dl == nrows * ncols);
        }
        let data = data_from(&rows, nrows, ncols);
        self.matrix.data = data;
        proof {
            let m = self.matrix;
            assert forall|i: int| 0 <= i < nrows implies #[trigger] rows_of(m)[i] == rows_view(rows)[i] by {
                assert(rows_view(rows)[i].len() == ncols);
                assert(rows_of(m)[i] =~= rows_view(rows)[i]);
            }
            assert(rows_of(m) =~= rows_view(rows));
        }
        match res {
            Ok(k) => Ok(k),
            Err(_) => Err(MatrixError::Overflow),
        }
    }
}

} // verus!
