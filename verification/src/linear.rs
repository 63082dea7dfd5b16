//! Matrices over the integers modulo `m` as sequences of rows: the row
//! operations, reduced row-echelon form, and the solution space that the row
//! operations keep.
use crate::modular::is_prime;
use crate::modular::lemma_add_congruent;
use crate::modular::lemma_mul_congruent;
use crate::modular::lemma_no_zero_divisors;
use vstd::arithmetic::div_mod::lemma_mod_twice;
use vstd::arithmetic::div_mod::lemma_small_mod;
use vstd::prelude::*;

verus! {

/// Every entry of `row` is a residue in `[0, m)`.
pub open spec fn is_residue_row(row: Seq<int>, m: int) -> bool {
    forall|j: int| 0 <= j < row.len() ==> 0 <= #[trigger] row[j] < m
}

/// `a` has `rows` rows of `cols` residues each.
pub open spec fn is_matrix(a: Seq<Seq<int>>, rows: int, cols: int, m: int) -> bool {
    &&& a.len() == rows
    &&& forall|i: int| 0 <= i < rows ==> (#[trigger] a[i]).len() == cols
    &&& forall|i: int| 0 <= i < rows ==> is_residue_row(#[trigger] a[i], m)
}

/// `row` with every entry multiplied by `c`.
pub open spec fn scale_row(row: Seq<int>, c: int, m: int) -> Seq<int> {
    Seq::new(row.len(), |j: int| (row[j] * c) % m)
}

/// `dst` plus `c` times `src`, entry by entry.
pub open spec fn add_scaled_row(dst: Seq<int>, src: Seq<int>, c: int, m: int) -> Seq<int> {
    Seq::new(dst.len(), |j: int| (dst[j] + (src[j] * c) % m) % m)
}

/// The matrix `a` with rows `i1` and `i2` exchanged.
pub open spec fn swap_rows(a: Seq<Seq<int>>, i1: int, i2: int) -> Seq<Seq<int>> {
    a.update(i1, a[i2]).update(i2, a[i1])
}

/// The sum of the products `a[j] * b[j]`, not reduced.
pub open spec fn dot(a: Seq<int>, b: Seq<int>) -> int
    decreases a.len(),
{
    if a.len() == 0 {
        0
    } else {
        dot(a.drop_last(), b) + a.last() * b[a.len() - 1]
    }
}

/// `x` solves the homogeneous system whose coefficient rows are those of `a`.
pub open spec fn in_kernel(a: Seq<Seq<int>>, x: Seq<int>, m: int) -> bool {
    forall|i: int| 0 <= i < a.len() ==> #[trigger] dot(a[i], x) % m == 0
}

/// `a` and `b` have the same solutions: they are row equivalent.
pub open spec fn same_kernel(a: Seq<Seq<int>>, b: Seq<Seq<int>>, m: int) -> bool {
    forall|x: Seq<int>| #[trigger] in_kernel(a, x, m) <==> in_kernel(b, x, m)
}

/// The entries of `row` before column `c` are all zero.
pub open spec fn zero_before(row: Seq<int>, c: int) -> bool {
    forall|j: int| 0 <= j < c ==> #[trigger] row[j] == 0
}

/// `c` is the column of the first nonzero entry of `row`, or its length if the
/// row is zero.
pub open spec fn is_leading(row: Seq<int>, c: int) -> bool {
    &&& 0 <= c <= row.len()
    &&& zero_before(row, c)
    &&& c < row.len() ==> row[c] != 0
}

/// The column of the first nonzero entry of `row`, or its length if there is none.
pub open spec fn leading(row: Seq<int>) -> int {
    choose|c: int| is_leading(row, c)
}

/// Reduced row-echelon form: the first nonzero entry of each nonzero row is a 1,
/// it is the only nonzero entry of its column, these pivots move strictly to the
/// right from one row to the next, and the zero rows come last.
pub open spec fn is_rref(a: Seq<Seq<int>>) -> bool {
    &&& forall|i: int|
        0 <= i < a.len() && #[trigger] leading(a[i]) < a[i].len() ==> a[i][leading(a[i])] == 1
    &&& forall|i: int, k: int|
        0 <= i < a.len() && 0 <= k < a.len() && k != i && #[trigger] leading(a[i]) < a[i].len()
            ==> (#[trigger] a[k])[leading(a[i])] == 0
    &&& forall|i: int, k: int|
        0 <= i < k < a.len() && #[trigger] leading(a[k]) < a[k].len() ==> #[trigger] leading(
            a[i],
        ) < leading(a[k])
}

/// A row has only one leading column.
pub proof fn lemma_leading_is(row: Seq<int>, c: int)
    requires
        is_leading(row, c),
    ensures
        leading(row) == c,
{
    let d = leading(row);
    assert(is_leading(row, d));
    if d < c {
        assert(row[d] == 0);
    } else if c < d {
        assert(row[c] == 0);
    }
}

/// The dot product with a scaled row is the scaled dot product, modulo `m`.
pub proof fn lemma_dot_scale(row: Seq<int>, c: int, x: Seq<int>, m: int)
    requires
        m > 0,
    ensures
        dot(scale_row(row, c, m), x) % m == (c * dot(row, x)) % m,
    decreases row.len(),
{
    let s = scale_row(row, c, m);
    if row.len() == 0 {
        assert(c * 0 == 0);
    } else {
        let l = row.len() - 1;
        assert(s.drop_last() =~= scale_row(row.drop_last(), c, m));
        lemma_dot_scale(row.drop_last(), c, x, m);
        let d = dot(row.drop_last(), x);
        // s.last() * x[l] is congruent to c * (row.last() * x[l])
        lemma_mod_twice(row[l] * c, m);
        lemma_mul_congruent((row[l] * c) % m, row[l] * c, x[l], x[l], m);
        assert((row[l] * c) * x[l] == c * (row[l] * x[l])) by (nonlinear_arith);
        lemma_add_congruent(dot(s.drop_last(), x), c * d, s[l] * x[l], c * (row[l] * x[l]), m);
        assert(c * d + c * (row[l] * x[l]) == c * (d + row[l] * x[l])) by (nonlinear_arith);
    }
}

/// The dot product with `dst + c * src` is the matching combination of dot
/// products, modulo `m`.
pub proof fn lemma_dot_add_scaled(dst: Seq<int>, src: Seq<int>, c: int, x: Seq<int>, m: int)
    requires
        m > 0,
        dst.len() == src.len(),
    ensures
        dot(add_scaled_row(dst, src, c, m), x) % m == (dot(dst, x) + c * dot(src, x)) % m,
    decreases dst.len(),
{
    let s = add_scaled_row(dst, src, c, m);
    if dst.len() == 0 {
        assert(c * 0 == 0);
    } else {
        let l = dst.len() - 1;
        assert(s.drop_last() =~= add_scaled_row(dst.drop_last(), src.drop_last(), c, m));
        lemma_dot_add_scaled(dst.drop_last(), src.drop_last(), c, x, m);
        let dd = dot(dst.drop_last(), x);
        let ds = dot(src.drop_last(), x);
        // s[l] is congruent to dst[l] + src[l] * c
        lemma_mod_twice(src[l] * c, m);
        lemma_add_congruent(dst[l], dst[l], (src[l] * c) % m, src[l] * c, m);
        lemma_mod_twice(dst[l] + (src[l] * c) % m, m);
        lemma_mul_congruent(s[l], dst[l] + src[l] * c, x[l], x[l], m);
        lemma_add_congruent(dot(s.drop_last(), x), dd + c * ds, s[l] * x[l], (dst[l] + src[l] * c) * x[l], m);
        assert(dd + c * ds + (dst[l] + src[l] * c) * x[l] == (dd + dst[l] * x[l]) + c * (ds + src[l]
            * x[l])) by (nonlinear_arith);
    }
}

/// The dot product reads only as many entries of `x` as `a` has.
pub proof fn lemma_dot_prefix(a: Seq<int>, x: Seq<int>, y: Seq<int>)
    requires
        forall|j: int| 0 <= j < a.len() ==> x[j] == y[j],
    ensures
        dot(a, x) == dot(a, y),
    decreases a.len(),
{
    if a.len() > 0 {
        lemma_dot_prefix(a.drop_last(), x, y);
    }
}

/// Rows with congruent entries have congruent dot products.
pub proof fn lemma_dot_congruent(a: Seq<int>, b: Seq<int>, x: Seq<int>, m: int)
    requires
        m > 0,
        a.len() == b.len(),
        forall|j: int| 0 <= j < a.len() ==> #[trigger] a[j] % m == b[j] % m,
    ensures
        dot(a, x) % m == dot(b, x) % m,
    decreases a.len(),
{
    if a.len() > 0 {
        lemma_dot_congruent(a.drop_last(), b.drop_last(), x, m);
        let l = a.len() - 1;
        assert(a[l] % m == b[l] % m);
        lemma_mul_congruent(a[l], b[l], x[l], x[l], m);
        lemma_add_congruent(dot(a.drop_last(), x), dot(b.drop_last(), x), a[l] * x[l], b[l] * x[l], m);
    }
}

/// The dot product is the sum of the dot products of the two parts into which
/// column `t` cuts the row and the vector.
pub proof fn lemma_dot_split(a: Seq<int>, x: Seq<int>, t: int)
    requires
        0 <= t <= a.len(),
        a.len() <= x.len(),
    ensures
        dot(a, x) == dot(a.subrange(0, t), x.subrange(0, t)) + dot(
            a.subrange(t, a.len() as int),
            x.subrange(t, x.len() as int),
        ),
    decreases a.len() - t,
{
    let n = a.len() as int;
    if t == n {
        assert(a.subrange(0, t) =~= a);
        assert(a.subrange(t, n).len() == 0);
        lemma_dot_prefix(a, x, x.subrange(0, t));
    } else {
        let b = a.drop_last();
        lemma_dot_split(b, x, t);
        assert(b.subrange(0, t) =~= a.subrange(0, t));
        assert(a.subrange(t, n).drop_last() =~= b.subrange(t, n - 1));
        assert(a.subrange(t, n).last() == a.last());
        assert(x.subrange(t, x.len() as int)[n - 1 - t] == x[n - 1]);
    }
}

/// The product of entry `c` of the row and of the vector, or zero where the row
/// has no such entry.
pub open spec fn dot_term(a: Seq<int>, x: Seq<int>, c: int) -> int {
    if 0 <= c < a.len() {
        a[c] * x[c]
    } else {
        0
    }
}

/// Where all products but those of the columns `c1` and `c2` vanish, the dot
/// product is the sum of these two.
pub proof fn lemma_dot_two_terms(a: Seq<int>, x: Seq<int>, c1: int, c2: int)
    requires
        c1 != c2,
        forall|j: int| 0 <= j < a.len() && j != c1 && j != c2 ==> #[trigger] a[j] * x[j] == 0,
    ensures
        dot(a, x) == dot_term(a, x, c1) + dot_term(a, x, c2),
    decreases a.len(),
{
    if a.len() > 0 {
        let b = a.drop_last();
        let l = a.len() - 1;
        assert forall|j: int| 0 <= j < b.len() && j != c1 && j != c2 implies #[trigger] b[j] * x[j]
            == 0 by {
            assert(a[j] * x[j] == 0);
        }
        lemma_dot_two_terms(b, x, c1, c2);
        if l != c1 && l != c2 {
            assert(a[l] * x[l] == 0);
        }
    }
}

/// Having the same solutions is symmetric.
pub proof fn lemma_same_kernel_sym(a: Seq<Seq<int>>, b: Seq<Seq<int>>, m: int)
    requires
        same_kernel(a, b, m),
    ensures
        same_kernel(b, a, m),
{
    assert forall|x: Seq<int>| #[trigger] in_kernel(b, x, m) <==> in_kernel(a, x, m) by {
        assert(in_kernel(a, x, m) <==> in_kernel(b, x, m));
    }
}

/// Having the same solutions is transitive.
pub proof fn lemma_same_kernel_trans(a: Seq<Seq<int>>, b: Seq<Seq<int>>, c: Seq<Seq<int>>, m: int)
    requires
        same_kernel(a, b, m),
        same_kernel(b, c, m),
    ensures
        same_kernel(a, c, m),
{
    assert forall|x: Seq<int>| #[trigger] in_kernel(a, x, m) <==> in_kernel(c, x, m) by {
        assert(in_kernel(a, x, m) <==> in_kernel(b, x, m));
        assert(in_kernel(b, x, m) <==> in_kernel(c, x, m));
    }
}

/// Exchanging two rows keeps the solutions.
pub proof fn lemma_kernel_swap(a: Seq<Seq<int>>, i1: int, i2: int, m: int)
    requires
        0 <= i1 < a.len(),
        0 <= i2 < a.len(),
    ensures
        same_kernel(a, swap_rows(a, i1, i2), m),
{
    let b = swap_rows(a, i1, i2);
    assert forall|x: Seq<int>| #[trigger] in_kernel(a, x, m) <==> in_kernel(b, x, m) by {
        if in_kernel(a, x, m) {
            assert forall|i: int| 0 <= i < b.len() implies #[trigger] dot(b[i], x) % m == 0 by {
                if i == i1 {
                    assert(dot(a[i2], x) % m == 0);
                } else if i == i2 {
                    assert(dot(a[i1], x) % m == 0);
                } else {
                    assert(dot(a[i], x) % m == 0);
                }
            }
        }
        if in_kernel(b, x, m) {
            assert forall|i: int| 0 <= i < a.len() implies #[trigger] dot(a[i], x) % m == 0 by {
                if i == i1 {
                    assert(dot(b[i2], x) % m == 0);
                } else if i == i2 {
                    assert(dot(b[i1], x) % m == 0);
                } else {
                    assert(dot(b[i], x) % m == 0);
                }
            }
        }
    }
}

/// Multiplying a row by a nonzero scalar keeps the solutions.
pub proof fn lemma_kernel_scale(a: Seq<Seq<int>>, i: int, c: int, m: int)
    requires
        is_prime(m),
        0 <= i < a.len(),
        c % m != 0,
    ensures
        same_kernel(a, a.update(i, scale_row(a[i], c, m)), m),
{
    let b = a.update(i, scale_row(a[i], c, m));
    assert forall|x: Seq<int>| #[trigger] in_kernel(a, x, m) <==> in_kernel(b, x, m) by {
        lemma_dot_scale(a[i], c, x, m);
        let d = dot(a[i], x);
        if in_kernel(a, x, m) {
            assert forall|k: int| 0 <= k < b.len() implies #[trigger] dot(b[k], x) % m == 0 by {
                assert(dot(a[k], x) % m == 0);
                if k == i {
                    lemma_small_mod(0, m as nat);
                    lemma_mul_congruent(c, c, d, 0, m);
                    assert(c * 0 == 0);
                }
            }
        }
        if in_kernel(b, x, m) {
            assert forall|k: int| 0 <= k < a.len() implies #[trigger] dot(a[k], x) % m == 0 by {
                assert(dot(b[k], x) % m == 0);
                if k == i {
                    lemma_no_zero_divisors(c, d, m);
                }
            }
        }
    }
}

/// Adding a multiple of one row to another keeps the solutions.
pub proof fn lemma_kernel_add_scaled(a: Seq<Seq<int>>, src: int, dst: int, c: int, m: int)
    requires
        m > 0,
        0 <= src < a.len(),
        0 <= dst < a.len(),
        src != dst,
        a[src].len() == a[dst].len(),
    ensures
        same_kernel(a, a.update(dst, add_scaled_row(a[dst], a[src], c, m)), m),
{
    let b = a.update(dst, add_scaled_row(a[dst], a[src], c, m));
    assert forall|x: Seq<int>| #[trigger] in_kernel(a, x, m) <==> in_kernel(b, x, m) by {
        lemma_dot_add_scaled(a[dst], a[src], c, x, m);
        let dd = dot(a[dst], x);
        let ds = dot(a[src], x);
        lemma_small_mod(0, m as nat);
        assert(c * 0 == 0);
        if in_kernel(a, x, m) {
            assert forall|k: int| 0 <= k < b.len() implies #[trigger] dot(b[k], x) % m == 0 by {
                assert(dot(a[k], x) % m == 0);
                if k == dst {
                    assert(ds % m == 0);
                    lemma_mul_congruent(c, c, ds, 0, m);
                    lemma_add_congruent(dd, 0, c * ds, 0, m);
                }
            }
        }
        if in_kernel(b, x, m) {
            assert forall|k: int| 0 <= k < a.len() implies #[trigger] dot(a[k], x) % m == 0 by {
                assert(dot(b[k], x) % m == 0);
                if k == dst {
                    assert(dot(b[src], x) % m == 0);
                    assert(ds % m == 0);
                    lemma_mul_congruent(c, c, ds, 0, m);
                    lemma_add_congruent(dd, dd, c * ds, 0, m);
                }
            }
        }
    }
}

/// The state of a row reduction that has dealt with the columns before `col`:
/// the first `piv.len()` rows are pivot rows with their pivots in the columns
/// `piv`, which are cleared in every other row, and the remaining rows are zero
/// before `col`.
pub open spec fn partial_rref(a: Seq<Seq<int>>, piv: Seq<int>, col: int) -> bool {
    &&& piv.len() <= a.len()
    &&& forall|i: int| 0 <= i < piv.len() ==> 0 <= #[trigger] piv[i] < col
    &&& forall|i: int, k: int| 0 <= i < k < piv.len() ==> #[trigger] piv[i] < #[trigger] piv[k]
    &&& forall|i: int|
        0 <= i < piv.len() ==> zero_before(#[trigger] a[i], piv[i]) && a[i][piv[i]] == 1
    &&& forall|i: int, k: int|
        0 <= i < piv.len() && 0 <= k < a.len() && k != i ==> (#[trigger] a[k])[#[trigger] piv[i]]
            == 0
    &&& forall|k: int| piv.len() <= k < a.len() ==> zero_before(#[trigger] a[k], col)
}

/// `b` has the entries of `a` in all columns before `col`.
pub open spec fn agree_before(a: Seq<Seq<int>>, b: Seq<Seq<int>>, col: int) -> bool {
    &&& a.len() == b.len()
    &&& forall|k: int, j: int| 0 <= k < a.len() && 0 <= j < col ==> #[trigger] b[k][j] == a[k][j]
}

/// The state of a row reduction depends only on the columns already dealt with.
pub proof fn lemma_partial_rref_agrees(a: Seq<Seq<int>>, b: Seq<Seq<int>>, piv: Seq<int>, col: int)
    requires
        partial_rref(a, piv, col),
        agree_before(a, b, col),
    ensures
        partial_rref(b, piv, col),
{
    assert forall|i: int| 0 <= i < piv.len() implies zero_before(#[trigger] b[i], piv[i])
        && b[i][piv[i]] == 1 by {
        assert(zero_before(a[i], piv[i]));
        assert(b[i][piv[i]] == a[i][piv[i]]);
        assert forall|j: int| 0 <= j < piv[i] implies #[trigger] b[i][j] == 0 by {
            assert(b[i][j] == a[i][j]);
        }
    }
    assert forall|i: int, k: int|
        0 <= i < piv.len() && 0 <= k < b.len() && k != i implies (#[trigger] b[k])[#[trigger] piv[i]]
        == 0 by {
        assert(b[k][piv[i]] == a[k][piv[i]]);
    }
    assert forall|k: int| piv.len() <= k < b.len() implies zero_before(#[trigger] b[k], col) by {
        assert(zero_before(a[k], col));
        assert forall|j: int| 0 <= j < col implies #[trigger] b[k][j] == 0 by {
            assert(b[k][j] == a[k][j]);
        }
    }
}

/// A column in which no remaining row has an entry gets no pivot.
pub proof fn lemma_partial_rref_skip(a: Seq<Seq<int>>, piv: Seq<int>, col: int)
    requires
        partial_rref(a, piv, col),
        forall|k: int| piv.len() <= k < a.len() ==> (#[trigger] a[k])[col] == 0,
    ensures
        partial_rref(a, piv, col + 1),
{
    assert forall|k: int| piv.len() <= k < a.len() implies zero_before(#[trigger] a[k], col + 1) by {
        assert(zero_before(a[k], col));
        assert(a[k][col] == 0);
    }
}

/// A column whose pivot has been set to 1 in the next free row and cleared
/// everywhere else is dealt with.
pub proof fn lemma_partial_rref_pivot(a: Seq<Seq<int>>, piv: Seq<int>, col: int)
    requires
        partial_rref(a, piv, col),
        0 <= col,
        piv.len() < a.len(),
        a[piv.len() as int][col] == 1,
        forall|k: int| 0 <= k < a.len() && k != piv.len() ==> (#[trigger] a[k])[col] == 0,
    ensures
        partial_rref(a, piv.push(col), col + 1),
{
    let p = piv.len() as int;
    let q = piv.push(col);
    assert(zero_before(a[p], col));
    assert forall|i: int| 0 <= i < q.len() implies zero_before(#[trigger] a[i], q[i]) && a[i][q[i]]
        == 1 by {
        if i < p {
            assert(zero_before(a[i], piv[i]));
        }
    }
    assert forall|i: int, k: int|
        0 <= i < q.len() && 0 <= k < a.len() && k != i implies (#[trigger] a[k])[#[trigger] q[i]]
        == 0 by {
        if i < p {
            assert(a[k][piv[i]] == 0);
        }
    }
    assert forall|k: int| q.len() <= k < a.len() implies zero_before(#[trigger] a[k], col + 1) by {
        assert(zero_before(a[k], col));
        assert(a[k][col] == 0);
    }
    assert forall|i: int, k: int| 0 <= i < k < q.len() implies #[trigger] q[i] < #[trigger] q[k] by {
        if k < p {
            assert(piv[i] < piv[k]);
        }
    }
}

/// Once every column is dealt with, the matrix is in reduced row-echelon form.
pub proof fn lemma_partial_rref_done(a: Seq<Seq<int>>, piv: Seq<int>, cols: int)
    requires
        partial_rref(a, piv, cols),
        forall|i: int| 0 <= i < a.len() ==> (#[trigger] a[i]).len() == cols,
    ensures
        is_rref(a),
        forall|i: int| 0 <= i < piv.len() ==> leading(#[trigger] a[i]) == piv[i],
        forall|i: int| piv.len() <= i < a.len() ==> leading(#[trigger] a[i]) == cols,
{
    assert forall|i: int| 0 <= i < piv.len() implies leading(#[trigger] a[i]) == piv[i] by {
        assert(zero_before(a[i], piv[i]));
        lemma_leading_is(a[i], piv[i]);
    }
    assert forall|i: int| piv.len() <= i < a.len() implies leading(#[trigger] a[i]) == cols by {
        assert(zero_before(a[i], cols));
        lemma_leading_is(a[i], cols);
    }
    assert forall|i: int, k: int|
        0 <= i < a.len() && 0 <= k < a.len() && k != i && #[trigger] leading(a[i])
            < a[i].len() implies (#[trigger] a[k])[leading(a[i])] == 0 by {
        assert(a[k][piv[i]] == 0);
    }
    assert forall|i: int, k: int|
        0 <= i < k < a.len() && #[trigger] leading(a[k]) < a[k].len() implies #[trigger] leading(
        a[i],
    ) < leading(a[k]) by {
        assert(piv[i] < piv[k]);
    }
}

} // verus!
