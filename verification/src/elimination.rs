//! Gaussian elimination, step by step: what each step of a row reduction does,
//! and that every matrix over a prime field has a reduced row-echelon form.
use crate::echelon::is_reduction;
use crate::echelon::lemma_reduction_unique;
use crate::linear::add_scaled_row;
use crate::linear::agree_before;
use crate::linear::is_matrix;
use crate::linear::is_residue_row;
use crate::linear::lemma_kernel_add_scaled;
use crate::linear::lemma_kernel_scale;
use crate::linear::lemma_kernel_swap;
use crate::linear::lemma_partial_rref_agrees;
use crate::linear::lemma_partial_rref_done;
use crate::linear::lemma_partial_rref_pivot;
use crate::linear::lemma_partial_rref_skip;
use crate::linear::lemma_same_kernel_trans;
use crate::linear::partial_rref;
use crate::linear::same_kernel;
use crate::linear::scale_row;
use crate::linear::swap_rows;
use crate::linear::zero_before;
use crate::modular::inverse_mod;
use crate::modular::is_prime;
use crate::modular::lemma_mul_inverse;
use crate::modular::neg_mod;
use vstd::arithmetic::div_mod::lemma_mod_self_0;
use vstd::arithmetic::div_mod::lemma_small_mod;
use vstd::prelude::*;

verus! {

/// The matrix `a` after row `f`, with a nonzero entry in column `col`, has been
/// moved to row `p` and scaled to make that entry 1.
pub open spec fn place_pivot(a: Seq<Seq<int>>, p: int, f: int, col: int, m: int) -> Seq<Seq<int>> {
    let b = swap_rows(a, f, p);
    b.update(p, scale_row(b[p], inverse_mod(b[p][col], m), m))
}

/// The matrix `a` after the multiple of row `p` that cancels the entry of row
/// `k` in column `col` has been added to row `k`.
pub open spec fn clear_entry(a: Seq<Seq<int>>, p: int, k: int, col: int, m: int) -> Seq<Seq<int>> {
    a.update(k, add_scaled_row(a[k], a[p], neg_mod(a[k][col], m), m))
}

/// Placing a pivot keeps the solutions and what the reduction has reached, and
/// puts a 1 in the pivot's place.
pub proof fn lemma_place_pivot(a: Seq<Seq<int>>, piv: Seq<int>, f: int, col: int, cols: int, m: int)
    requires
        is_prime(m),
        is_matrix(a, a.len() as int, cols, m),
        partial_rref(a, piv, col),
        0 <= col < cols,
        piv.len() <= f < a.len(),
        a[f][col] != 0,
    ensures
        is_matrix(place_pivot(a, piv.len() as int, f, col, m), a.len() as int, cols, m),
        partial_rref(place_pivot(a, piv.len() as int, f, col, m), piv, col),
        same_kernel(a, place_pivot(a, piv.len() as int, f, col, m), m),
        place_pivot(a, piv.len() as int, f, col, m)[piv.len() as int][col] == 1,
{
    let p = piv.len() as int;
    let b = swap_rows(a, f, p);
    let v = b[p][col];
    assert(is_residue_row(a[f], m));
    lemma_mul_inverse(v, m);
    let c = inverse_mod(v, m);
    let r = place_pivot(a, p, f, col, m);
    lemma_small_mod(c as nat, m as nat);
    lemma_small_mod(0, m as nat);
    lemma_kernel_swap(a, f, p, m);
    lemma_kernel_scale(b, p, c, m);
    lemma_same_kernel_trans(a, b, r, m);
    assert(zero_before(a[f], col));
    assert(zero_before(a[p], col));
    assert forall|k: int, j: int| 0 <= k < a.len() && 0 <= j < col implies #[trigger] r[k][j]
        == a[k][j] by {
        if k == p {
            assert(a[f][j] == 0);
            assert(a[p][j] == 0);
            assert(0 * c == 0);
        } else if k == f {
            assert(a[f][j] == 0);
            assert(a[p][j] == 0);
        }
    }
    assert(agree_before(a, r, col));
    lemma_partial_rref_agrees(a, r, piv, col);
    assert forall|i: int| 0 <= i < a.len() implies is_residue_row(#[trigger] r[i], m) by {
        if i == f && i != p {
            assert(is_residue_row(a[p], m));
        } else if i != p {
            assert(is_residue_row(a[i], m));
        }
    }
}

/// Clearing an entry with the pivot row keeps the solutions and what the
/// reduction has reached, leaves every other row as it was, and makes the entry
/// zero.
pub proof fn lemma_clear_entry(
    a: Seq<Seq<int>>,
    piv: Seq<int>,
    k: int,
    col: int,
    cols: int,
    m: int,
)
    requires
        m > 1,
        is_matrix(a, a.len() as int, cols, m),
        partial_rref(a, piv, col),
        0 <= col < cols,
        piv.len() < a.len(),
        a[piv.len() as int][col] == 1,
        0 <= k < a.len(),
        k != piv.len(),
    ensures
        is_matrix(clear_entry(a, piv.len() as int, k, col, m), a.len() as int, cols, m),
        partial_rref(clear_entry(a, piv.len() as int, k, col, m), piv, col),
        same_kernel(a, clear_entry(a, piv.len() as int, k, col, m), m),
        clear_entry(a, piv.len() as int, k, col, m)[k][col] == 0,
        forall|t: int|
            0 <= t < a.len() && t != k ==> #[trigger] clear_entry(a, piv.len() as int, k, col, m)[t]
                == a[t],
{
    let p = piv.len() as int;
    let e = a[k][col];
    let c = neg_mod(e, m);
    let r = clear_entry(a, p, k, col, m);
    assert(is_residue_row(a[k], m));
    assert(is_residue_row(a[p], m));
    lemma_kernel_add_scaled(a, p, k, c, m);
    assert(zero_before(a[p], col));
    lemma_small_mod(0, m as nat);
    assert forall|t: int, j: int| 0 <= t < a.len() && 0 <= j < col implies #[trigger] r[t][j]
        == a[t][j] by {
        if t == k {
            assert(a[p][j] == 0);
            assert(0 * c == 0);
            lemma_small_mod(a[t][j] as nat, m as nat);
        }
    }
    assert(agree_before(a, r, col));
    lemma_partial_rref_agrees(a, r, piv, col);
    // the entry in the pivot column is cancelled
    assert(1 * c == c);
    lemma_small_mod(c as nat, m as nat);
    lemma_mod_self_0(m);
    if e != 0 {
        lemma_small_mod((m - e) as nat, m as nat);
    }
    assert(r[k][col] == 0);
    assert forall|i: int| 0 <= i < a.len() implies is_residue_row(#[trigger] r[i], m) by {
        if i != k {
            assert(is_residue_row(a[i], m));
        }
    }
}

/// The reduced row-echelon form of `a`.
pub open spec fn reduced(a: Seq<Seq<int>>, cols: int, m: int) -> Seq<Seq<int>> {
    choose|r: Seq<Seq<int>>| is_reduction(a, r, cols, m)
}

/// Clears column `col` in the rows from `k` on.
proof fn lemma_clear_column(
    a: Seq<Seq<int>>,
    piv: Seq<int>,
    k: int,
    col: int,
    cols: int,
    m: int,
) -> (r: Seq<Seq<int>>)
    requires
        m > 1,
        is_matrix(a, a.len() as int, cols, m),
        partial_rref(a, piv, col),
        0 <= col < cols,
        piv.len() < a.len(),
        a[piv.len() as int][col] == 1,
        0 <= k <= a.len(),
        forall|t: int| 0 <= t < k && t != piv.len() ==> (#[trigger] a[t])[col] == 0,
    ensures
        r.len() == a.len(),
        is_matrix(r, a.len() as int, cols, m),
        partial_rref(r, piv, col),
        same_kernel(a, r, m),
        r[piv.len() as int][col] == 1,
        forall|t: int| 0 <= t < a.len() && t != piv.len() ==> (#[trigger] r[t])[col] == 0,
    decreases a.len() - k,
{
    if k == a.len() {
        a
    } else if k == piv.len() {
        lemma_clear_column(a, piv, k + 1, col, cols, m)
    } else {
        lemma_clear_entry(a, piv, k, col, cols, m);
        let b = clear_entry(a, piv.len() as int, k, col, m);
        assert forall|t: int| 0 <= t < k + 1 && t != piv.len() implies (#[trigger] b[t])[col]
            == 0 by {
            if t != k {
                assert(b[t] == a[t]);
            }
        }
        assert(b[piv.len() as int] == a[piv.len() as int]);
        let r = lemma_clear_column(b, piv, k + 1, col, cols, m);
        lemma_same_kernel_trans(a, b, r, m);
        r
    }
}

/// Carries a row reduction on from column `col`.
proof fn lemma_reduce_from(a: Seq<Seq<int>>, piv: Seq<int>, col: int, cols: int, m: int) -> (r: Seq<
    Seq<int>,
>)
    requires
        is_prime(m),
        is_matrix(a, a.len() as int, cols, m),
        partial_rref(a, piv, col),
        0 <= col <= cols,
    ensures
        is_reduction(a, r, cols, m),
    decreases cols - col,
{
    if col == cols {
        lemma_partial_rref_done(a, piv, cols);
        a
    } else if exists|f: int| piv.len() <= f < a.len() && (#[trigger] a[f])[col] != 0 {
        let f = choose|f: int| piv.len() <= f < a.len() && (#[trigger] a[f])[col] != 0;
        lemma_place_pivot(a, piv, f, col, cols, m);
        let b = place_pivot(a, piv.len() as int, f, col, m);
        let c = lemma_clear_column(b, piv, 0, col, cols, m);
        lemma_partial_rref_pivot(c, piv, col);
        let r = lemma_reduce_from(c, piv.push(col), col + 1, cols, m);
        lemma_same_kernel_trans(a, b, c, m);
        lemma_same_kernel_trans(a, c, r, m);
        r
    } else {
        lemma_partial_rref_skip(a, piv, col);
        lemma_reduce_from(a, piv, col + 1, cols, m)
    }
}

/// Every matrix over a prime field has a reduced row-echelon form, and
/// `reduced` names it.
pub proof fn lemma_reduced(a: Seq<Seq<int>>, cols: int, m: int)
    requires
        is_prime(m),
        0 <= cols,
        is_matrix(a, a.len() as int, cols, m),
    ensures
        is_reduction(a, reduced(a, cols, m), cols, m),
{
    let piv = Seq::<int>::empty();
    assert(partial_rref(a, piv, 0)) by {
        assert forall|k: int| 0 <= k < a.len() implies zero_before(#[trigger] a[k], 0) by {}
    }
    let r = lemma_reduce_from(a, piv, 0, cols, m);
}

/// Any reduction found for a matrix is the one that `reduced` names.
pub proof fn lemma_reduced_is(a: Seq<Seq<int>>, r: Seq<Seq<int>>, cols: int, m: int)
    requires
        m > 1,
        is_reduction(a, r, cols, m),
    ensures
        reduced(a, cols, m) == r,
{
    lemma_reduction_unique(a, r, reduced(a, cols, m), cols, m);
}

} // verus!
