//! Matrices in reduced row-echelon form: their pivots, the solutions that
//! their free columns give, and why a matrix has only one such form.
use crate::linear::dot;
use crate::linear::in_kernel;
use crate::linear::is_leading;
use crate::linear::is_matrix;
use crate::linear::is_residue_row;
use crate::linear::is_rref;
use crate::linear::leading;
use crate::linear::lemma_dot_two_terms;
use crate::linear::lemma_leading_is;
use crate::linear::lemma_same_kernel_sym;
use crate::linear::lemma_same_kernel_trans;
use crate::linear::same_kernel;
use crate::linear::zero_before;
use crate::modular::lemma_distinct_residues;
use vstd::arithmetic::div_mod::lemma_small_mod;
use vstd::prelude::*;

verus! {

/// `red` is the reduced row-echelon form of `a`.
pub open spec fn is_reduction(a: Seq<Seq<int>>, red: Seq<Seq<int>>, cols: int, m: int) -> bool {
    &&& is_matrix(red, a.len() as int, cols, m)
    &&& is_rref(red)
    &&& same_kernel(a, red, m)
}

/// Row `row` has its first nonzero entry in column `c`, and that entry is 1.
pub open spec fn is_pivot_row(a: Seq<Seq<int>>, row: int, c: int) -> bool {
    0 <= row < a.len() && zero_before(a[row], c) && a[row][c] == 1
}

/// Column `c` has a pivot row.
pub open spec fn has_pivot(a: Seq<Seq<int>>, c: int) -> bool {
    exists|row: int| is_pivot_row(a, row, c)
}

/// `row` is the first pivot row of column `c`.
pub open spec fn is_first_pivot_row(a: Seq<Seq<int>>, row: int, c: int) -> bool {
    is_pivot_row(a, row, c) && forall|other: int| 0 <= other < row ==> !is_pivot_row(a, other, c)
}

/// The first pivot row of column `c`.
pub open spec fn pivot_row(a: Seq<Seq<int>>, c: int) -> int {
    choose|row: int| is_first_pivot_row(a, row, c)
}

/// A column has only one first pivot row.
pub proof fn lemma_pivot_row_is(a: Seq<Seq<int>>, row: int, c: int)
    requires
        is_first_pivot_row(a, row, c),
    ensures
        has_pivot(a, c),
        pivot_row(a, c) == row,
{
    let other = pivot_row(a, c);
    assert(is_first_pivot_row(a, other, c));
    if other < row {
        assert(!is_pivot_row(a, other, c));
    } else if row < other {
        assert(!is_pivot_row(a, row, c));
    }
}

/// From column `t` on, a row has a first nonzero entry or none.
proof fn lemma_leading_from(row: Seq<int>, t: int)
    requires
        0 <= t <= row.len(),
        zero_before(row, t),
    ensures
        exists|c: int| is_leading(row, c),
    decreases row.len() - t,
{
    if t == row.len() {
        assert(is_leading(row, t));
    } else if row[t] != 0 {
        assert(is_leading(row, t));
    } else {
        lemma_leading_from(row, t + 1);
    }
}

/// Every row has a leading column: that of its first nonzero entry, or its
/// length.
pub proof fn lemma_leading_exists(row: Seq<int>)
    ensures
        is_leading(row, leading(row)),
{
    lemma_leading_from(row, 0);
}

/// A pivot row of a column has that column as its leading column.
pub proof fn lemma_pivot_is_leading(a: Seq<Seq<int>>, row: int, c: int)
    requires
        is_pivot_row(a, row, c),
        0 <= c < a[row].len(),
    ensures
        leading(a[row]) == c,
{
    assert(is_leading(a[row], c));
    lemma_leading_is(a[row], c);
}

/// In reduced row-echelon form, a nonzero row is the one pivot row of its
/// leading column.
pub proof fn lemma_rref_pivot(a: Seq<Seq<int>>, row: int)
    requires
        is_rref(a),
        0 <= row < a.len(),
        leading(a[row]) < a[row].len(),
    ensures
        is_first_pivot_row(a, row, leading(a[row])),
        has_pivot(a, leading(a[row])),
        pivot_row(a, leading(a[row])) == row,
{
    let c = leading(a[row]);
    lemma_leading_exists(a[row]);
    assert(is_pivot_row(a, row, c));
    assert forall|other: int| 0 <= other < row implies !is_pivot_row(a, other, c) by {
        if is_pivot_row(a, other, c) {
            lemma_pivot_is_leading(a, other, c);
            assert(leading(a[other]) < leading(a[row]));
        }
    }
    lemma_pivot_row_is(a, row, c);
}

/// In reduced row-echelon form, the pivot row of a column with a pivot leads
/// with that column, and no other row does.
pub proof fn lemma_rref_pivot_row(a: Seq<Seq<int>>, c: int, cols: int)
    requires
        is_rref(a),
        forall|i: int| 0 <= i < a.len() ==> (#[trigger] a[i]).len() == cols,
        0 <= c < cols,
        has_pivot(a, c),
    ensures
        0 <= pivot_row(a, c) < a.len(),
        leading(a[pivot_row(a, c)]) == c,
        a[pivot_row(a, c)][c] == 1,
        forall|i: int| 0 <= i < a.len() && leading(#[trigger] a[i]) == c ==> i == pivot_row(a, c),
{
    let w = choose|w: int| is_pivot_row(a, w, c);
    lemma_pivot_is_leading(a, w, c);
    lemma_rref_pivot(a, w);
    let row = pivot_row(a, c);
    assert forall|i: int| 0 <= i < a.len() && leading(#[trigger] a[i]) == c implies i == row by {
        lemma_rref_pivot(a, i);
    }
}

/// For a free column `c`, the solution of the homogeneous system with 1 for
/// that unknown and 0 for every other free unknown.
pub open spec fn free_vector(a: Seq<Seq<int>>, c: int, cols: int) -> Seq<int> {
    Seq::new(
        cols as nat,
        |j: int|
            if j == c {
                1
            } else if has_pivot(a, j) {
                -a[pivot_row(a, j)][c]
            } else {
                0
            },
    )
}

/// The vector of a free column solves the homogeneous system, and is zero
/// after that column.
pub proof fn lemma_free_vector(a: Seq<Seq<int>>, c: int, cols: int, m: int)
    requires
        m > 1,
        is_rref(a),
        is_matrix(a, a.len() as int, cols, m),
        0 <= c < cols,
        !has_pivot(a, c),
    ensures
        in_kernel(a, free_vector(a, c, cols), m),
        forall|j: int| c < j < cols ==> free_vector(a, c, cols)[j] == 0,
{
    let v = free_vector(a, c, cols);
    assert forall|j: int| c < j < cols implies v[j] == 0 by {
        if has_pivot(a, j) {
            lemma_rref_pivot_row(a, j, cols);
            let other = pivot_row(a, j);
            lemma_leading_exists(a[other]);
            assert(a[other][c] == 0);
        }
    }
    assert forall|i: int| 0 <= i < a.len() implies #[trigger] dot(a[i], v) % m == 0 by {
        let row = a[i];
        let ci = leading(row);
        lemma_leading_exists(row);
        lemma_small_mod(0, m as nat);
        if ci == cols {
            assert forall|j: int| 0 <= j < row.len() && j != -1 && j != -2 implies #[trigger] row[j]
                * v[j] == 0 by {
                assert(row[j] == 0);
                assert(0 * v[j] == 0);
            }
            lemma_dot_two_terms(row, v, -1, -2);
        } else {
            lemma_rref_pivot(a, i);
            assert(ci != c);
            assert forall|j: int| 0 <= j < row.len() && j != c && j != ci implies #[trigger] row[j]
                * v[j] == 0 by {
                if has_pivot(a, j) {
                    lemma_rref_pivot_row(a, j, cols);
                    let other = pivot_row(a, j);
                    assert(other != i);
                    assert(a[i][leading(a[other])] == 0);
                    assert(0 * v[j] == 0);
                } else {
                    assert(v[j] == 0);
                    assert(row[j] * 0 == 0);
                }
            }
            lemma_dot_two_terms(row, v, c, ci);
            assert(v[ci] == -row[c]);
            assert(row[ci] == 1);
            assert(row[c] * 1 + 1 * (-row[c]) == 0) by (nonlinear_arith);
        }
    }
}

/// Column `c` of `a` holds only zeros.
pub open spec fn is_zero_column(a: Seq<Seq<int>>, c: int) -> bool {
    forall|i: int| 0 <= i < a.len() ==> (#[trigger] a[i])[c] == 0
}

/// The vector with 1 in place `c` and 0 elsewhere.
pub open spec fn unit_vector(c: int, cols: int) -> Seq<int> {
    Seq::new(cols as nat, |j: int| if j == c { 1int } else { 0int })
}

/// Matrices with the same solutions have the same zero columns: a column of
/// zeros stays one under row reduction, and so gets no pivot.
pub proof fn lemma_zero_column_kept(a: Seq<Seq<int>>, b: Seq<Seq<int>>, cols: int, c: int, m: int)
    requires
        m > 1,
        is_matrix(a, a.len() as int, cols, m),
        is_matrix(b, b.len() as int, cols, m),
        same_kernel(a, b, m),
        0 <= c < cols,
        is_zero_column(a, c),
    ensures
        is_zero_column(b, c),
        !has_pivot(b, c),
{
    let e = unit_vector(c, cols);
    assert forall|i: int| 0 <= i < a.len() implies #[trigger] dot(a[i], e) % m == 0 by {
        lemma_dot_unit(a[i], c, cols);
        assert(a[i][c] == 0);
        lemma_small_mod(0, m as nat);
    }
    assert(in_kernel(a, e, m));
    assert(in_kernel(b, e, m));
    assert forall|i: int| 0 <= i < b.len() implies (#[trigger] b[i])[c] == 0 by {
        lemma_dot_unit(b[i], c, cols);
        assert(dot(b[i], e) % m == 0);
        assert(is_residue_row(b[i], m));
        lemma_small_mod(b[i][c] as nat, m as nat);
    }
    if has_pivot(b, c) {
        let w = choose|w: int| is_pivot_row(b, w, c);
        assert(b[w][c] == 0);
    }
}

/// The dot product with a unit vector picks one entry of the row.
proof fn lemma_dot_unit(row: Seq<int>, c: int, cols: int)
    requires
        0 <= c < cols,
        row.len() == cols,
    ensures
        dot(row, unit_vector(c, cols)) == row[c],
{
    let e = unit_vector(c, cols);
    assert forall|j: int| 0 <= j < row.len() && j != c && j != -1 implies #[trigger] row[j] * e[j]
        == 0 by {
        assert(row[j] * 0 == 0);
    }
    lemma_dot_two_terms(row, e, c, -1);
    assert(row[c] * 1 == row[c]);
}

/// Two matrices in reduced row-echelon form with the same solutions have their
/// pivots in the same columns.
pub proof fn lemma_same_pivot_columns(a: Seq<Seq<int>>, b: Seq<Seq<int>>, cols: int, c: int, m: int)
    requires
        m > 1,
        is_rref(a),
        is_rref(b),
        is_matrix(a, a.len() as int, cols, m),
        is_matrix(b, b.len() as int, cols, m),
        same_kernel(a, b, m),
        0 <= c < cols,
        has_pivot(b, c),
    ensures
        has_pivot(a, c),
{
    if !has_pivot(a, c) {
        lemma_free_vector(a, c, cols, m);
        let v = free_vector(a, c, cols);
        assert(in_kernel(b, v, m));
        lemma_rref_pivot_row(b, c, cols);
        let i = pivot_row(b, c);
        let row = b[i];
        lemma_leading_exists(row);
        assert forall|j: int| 0 <= j < row.len() && j != c && j != -1 implies #[trigger] row[j]
            * v[j] == 0 by {
            if j < c {
                assert(row[j] == 0);
                assert(0 * v[j] == 0);
            } else {
                assert(v[j] == 0);
                assert(row[j] * 0 == 0);
            }
        }
        lemma_dot_two_terms(row, v, c, -1);
        assert(1 * 1 == 1);
        assert(dot(row, v) % m == 0);
        lemma_small_mod(1, m as nat);
    }
}

/// Two matrices in reduced row-echelon form with the same solutions have, row
/// by row, the same leading columns.
pub proof fn lemma_same_leading(a: Seq<Seq<int>>, b: Seq<Seq<int>>, cols: int, i: int, m: int)
    requires
        m > 1,
        is_rref(a),
        is_rref(b),
        a.len() == b.len(),
        is_matrix(a, a.len() as int, cols, m),
        is_matrix(b, b.len() as int, cols, m),
        same_kernel(a, b, m),
        0 <= i < a.len(),
    ensures
        leading(a[i]) == leading(b[i]),
    decreases i,
{
    assert forall|j: int| 0 <= j < i implies leading(#[trigger] a[j]) == leading(b[j]) by {
        lemma_same_leading(a, b, cols, j, m);
    }
    lemma_leading_exists(a[i]);
    lemma_leading_exists(b[i]);
    if leading(a[i]) < leading(b[i]) {
        lemma_leading_order(a, b, cols, i, m);
    } else if leading(b[i]) < leading(a[i]) {
        lemma_same_kernel_sym(a, b, m);
        lemma_leading_order(b, a, cols, i, m);
    }
}

/// Where the rows before row `i` lead with the same columns in both matrices,
/// row `i` of the first cannot lead with an earlier column than row `i` of the
/// second.
proof fn lemma_leading_order(a: Seq<Seq<int>>, b: Seq<Seq<int>>, cols: int, i: int, m: int)
    requires
        m > 1,
        is_rref(a),
        is_rref(b),
        a.len() == b.len(),
        is_matrix(a, a.len() as int, cols, m),
        is_matrix(b, b.len() as int, cols, m),
        same_kernel(a, b, m),
        0 <= i < a.len(),
        forall|j: int| 0 <= j < i ==> leading(#[trigger] a[j]) == leading(b[j]),
        is_leading(a[i], leading(a[i])),
        is_leading(b[i], leading(b[i])),
    ensures
        leading(a[i]) >= leading(b[i]),
{
    let c = leading(a[i]);
    if c < leading(b[i]) {
        lemma_rref_pivot(a, i);
        lemma_same_kernel_sym(a, b, m);
        lemma_same_pivot_columns(b, a, cols, c, m);
        lemma_rref_pivot_row(b, c, cols);
        let other = pivot_row(b, c);
        if other < i {
            assert(leading(a[other]) == leading(b[other]));
            assert(leading(a[other]) < leading(a[i]));
        } else if other > i {
            assert(leading(b[i]) < leading(b[other]));
        }
    }
}

/// A matrix has only one reduced row-echelon form: two matrices of the same
/// shape in that form with the same solutions are equal.
pub proof fn lemma_rref_unique(a: Seq<Seq<int>>, b: Seq<Seq<int>>, cols: int, m: int)
    requires
        m > 1,
        is_rref(a),
        is_rref(b),
        a.len() == b.len(),
        is_matrix(a, a.len() as int, cols, m),
        is_matrix(b, b.len() as int, cols, m),
        same_kernel(a, b, m),
    ensures
        a == b,
{
    assert forall|i: int| 0 <= i < a.len() implies a[i] =~= b[i] by {
        lemma_same_leading(a, b, cols, i, m);
        lemma_leading_exists(a[i]);
        lemma_leading_exists(b[i]);
        let ci = leading(a[i]);
        assert forall|j: int| 0 <= j < cols implies a[i][j] == b[i][j] by {
            assert(is_residue_row(a[i], m));
            assert(is_residue_row(b[i], m));
            if ci == cols {
                assert(a[i][j] == 0 && b[i][j] == 0);
            } else if has_pivot(a, j) {
                lemma_rref_pivot_row(a, j, cols);
                let other = pivot_row(a, j);
                lemma_same_leading(a, b, cols, other, m);
                if other != i {
                    assert(a[i][leading(a[other])] == 0);
                    assert(b[i][leading(b[other])] == 0);
                }
            } else {
                lemma_rref_pivot(a, i);
                lemma_rref_pivot(b, i);
                lemma_free_vector(a, j, cols, m);
                let v = free_vector(a, j, cols);
                assert(in_kernel(b, v, m));
                let row = b[i];
                assert forall|t: int| 0 <= t < row.len() && t != j && t != ci implies #[trigger] row[t]
                    * v[t] == 0 by {
                    if has_pivot(a, t) {
                        lemma_rref_pivot_row(a, t, cols);
                        let other = pivot_row(a, t);
                        lemma_same_leading(a, b, cols, other, m);
                        assert(other != i);
                        assert(b[i][leading(b[other])] == 0);
                        assert(0 * v[t] == 0);
                    } else {
                        assert(v[t] == 0);
                        assert(row[t] * 0 == 0);
                    }
                }
                lemma_dot_two_terms(row, v, j, ci);
                assert(v[ci] == -a[i][j]);
                assert(row[j] * 1 + 1 * (-a[i][j]) == b[i][j] - a[i][j]) by (nonlinear_arith)
                    requires
                        row[j] == b[i][j],
                ;
                assert(dot(row, v) % m == 0);
                if b[i][j] != a[i][j] {
                    lemma_distinct_residues(b[i][j], a[i][j], m);
                }
            }
        }
    }
    assert(a =~= b);
}

/// A matrix has only one reduction.
pub proof fn lemma_reduction_unique(
    a: Seq<Seq<int>>,
    r1: Seq<Seq<int>>,
    r2: Seq<Seq<int>>,
    cols: int,
    m: int,
)
    requires
        m > 1,
        is_reduction(a, r1, cols, m),
        is_reduction(a, r2, cols, m),
    ensures
        r1 == r2,
{
    lemma_same_kernel_sym(a, r1, m);
    lemma_same_kernel_trans(r1, a, r2, m);
    lemma_rref_unique(r1, r2, cols, m);
}

} // verus!
