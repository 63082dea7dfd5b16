//! Dense matrices over a prime field, with the elementary row operations and
//! full row reduction.
use crate::elimination::clear_entry;
use crate::elimination::lemma_clear_entry;
use crate::elimination::lemma_place_pivot;
use crate::elimination::lemma_reduced_is;
use crate::elimination::place_pivot;
use crate::elimination::reduced;
use crate::field::Gfe;
use crate::linear::add_scaled_row;
use crate::linear::is_matrix;
use crate::linear::is_rref;
use crate::linear::lemma_partial_rref_done;
use crate::linear::lemma_partial_rref_pivot;
use crate::linear::lemma_partial_rref_skip;
use crate::linear::lemma_same_kernel_trans;
use crate::linear::partial_rref;
use crate::linear::same_kernel;
use crate::linear::scale_row;
use crate::linear::swap_rows;
use crate::modular::is_prime;
use vstd::prelude::*;

verus! {

/// A matrix with `m` rows and `n` columns, stored row by row in `elems`.
#[derive(Debug, Clone)]
pub struct Matrix<const M: u32> {
    pub m: usize,
    pub n: usize,
    pub elems: Vec<Gfe<M>>,
}

/// Row `i` of an `m` by `n` matrix occupies the stretch `[i * n, i * n + n)` of
/// the row-major buffer, inside its `m * n` places.
pub proof fn lemma_row_base(i: int, m: int, n: int)
    requires
        0 <= i < m,
        0 <= n,
    ensures
        0 <= i * n,
        i * n + n <= m * n,
{
    assert(i * n + n <= m * n && 0 <= i * n) by (nonlinear_arith)
        requires
            0 <= i < m,
            0 <= n,
    ;
}

/// Distinct rows occupy disjoint stretches of the buffer.
pub proof fn lemma_rows_apart(i: int, k: int, n: int)
    requires
        0 <= i,
        0 <= k,
        i != k,
        0 <= n,
    ensures
        k * n + n <= i * n || i * n + n <= k * n,
{
    if k < i {
        assert(k * n + n <= i * n) by (nonlinear_arith)
            requires
                k < i,
                0 <= n,
        ;
    } else {
        assert(i * n + n <= k * n) by (nonlinear_arith)
            requires
                i < k,
                0 <= n,
        ;
    }
}

impl<const M: u32> View for Matrix<M> {
    type V = Seq<Seq<int>>;

    /// The rows, each a sequence of residues.
    open spec fn view(&self) -> Seq<Seq<int>> {
        Seq::new(
            self.m as nat,
            |i: int| Seq::new(self.n as nat, |j: int| self.elems@[i * (self.n as int) + j]@),
        )
    }
}

impl<const M: u32> Matrix<M> {
    /// The buffer holds exactly `m * n` field elements.
    pub open spec fn wf(&self) -> bool {
        &&& self.elems.len() == self.m * self.n
        &&& forall|t: int| 0 <= t < self.elems@.len() ==> (#[trigger] self.elems@[t]).wf()
    }

    /// The rows of a well-formed matrix all have `n` entries, each a residue.
    pub proof fn lemma_view_is_matrix(&self)
        requires
            self.wf(),
        ensures
            is_matrix(self@, self.m as int, self.n as int, M as int),
    {
        assert forall|i: int| 0 <= i < self.m implies crate::linear::is_residue_row(
            #[trigger] self@[i],
            M as int,
        ) by {
            assert forall|j: int| 0 <= j < self@[i].len() implies 0 <= #[trigger] self@[i][j] < M by {
                lemma_row_base(i, self.m as int, self.n as int);
                assert(self.elems@[i * (self.n as int) + j].wf());
            }
        }
    }

    /// Multiplies row `i` by the scalar `c`.
    pub fn mul_row(&mut self, i: usize, c: Gfe<M>)
        requires
            old(self).wf(),
            i < old(self).m,
            c.wf(),
        ensures
            final(self).wf(),
            final(self).m == old(self).m,
            final(self).n == old(self).n,
            final(self)@ == old(self)@.update(
                i as int,
                scale_row(old(self)@[i as int], c@, M as int),
            ),
    {
        let n = self.n;
        let ghost base = i * n;
        proof {
            lemma_row_base(i as int, self.m as int, n as int);
        }
        let mut j: usize = 0;
        while j < n
            invariant
                0 <= j <= n,
                self.m == old(self).m,
                self.n == old(self).n,
                n == self.n,
                i < self.m,
                c.wf(),
                base == i * n,
                base + n <= self.m * n,
                self.elems.len() == self.m * self.n,
                forall|t: int| 0 <= t < self.elems@.len() ==> (#[trigger] self.elems@[t]).wf(),
                forall|t: int|
                    0 <= t < self.elems@.len() && !(base <= t < base + j) ==> self.elems@[t]
                        == old(self).elems@[t],
                forall|t: int|
                    base <= t < base + j ==> (#[trigger] self.elems@[t])@ == (old(self).elems@[t]@
                        * c@) % (M as int),
            decreases n - j,
        {
            let v = self.elems[i * n + j] * c;
            self.elems[i * n + j] = v;
            j += 1;
        }
        proof {
            let target = old(self)@.update(i as int, scale_row(old(self)@[i as int], c@, M as int));
            assert forall|r: int| 0 <= r < self.m implies self@[r] =~= target[r] by {
                assert forall|q: int| 0 <= q < n implies self@[r][q] == target[r][q] by {
                    lemma_row_base(r, self.m as int, n as int);
                    if r != i {
                        lemma_rows_apart(i as int, r, n as int);
                    }
                }
            }
            assert(self@ =~= target);
        }
    }

    /// Adds `c` times row `i1` to row `i2`.
    pub fn add_c_row_to(&mut self, i1: usize, i2: usize, c: Gfe<M>)
        requires
            old(self).wf(),
            i1 < old(self).m,
            i2 < old(self).m,
            c.wf(),
        ensures
            final(self).wf(),
            final(self).m == old(self).m,
            final(self).n == old(self).n,
            final(self)@ == old(self)@.update(
                i2 as int,
                add_scaled_row(old(self)@[i2 as int], old(self)@[i1 as int], c@, M as int),
            ),
    {
        let n = self.n;
        let ghost base = i2 * n;
        let ghost src = i1 * n;
        proof {
            lemma_row_base(i1 as int, self.m as int, n as int);
            lemma_row_base(i2 as int, self.m as int, n as int);
            if i1 != i2 {
                lemma_rows_apart(i2 as int, i1 as int, n as int);
            }
        }
        let mut j: usize = 0;
        while j < n
            invariant
                0 <= j <= n,
                self.m == old(self).m,
                self.n == old(self).n,
                n == self.n,
                i1 < self.m,
                i2 < self.m,
                c.wf(),
                base == i2 * n,
                src == i1 * n,
                base + n <= self.m * n,
                src + n <= self.m * n,
                i1 == i2 ==> src == base,
                i1 != i2 ==> src + n <= base || base + n <= src,
                self.elems.len() == self.m * self.n,
                forall|t: int| 0 <= t < self.elems@.len() ==> (#[trigger] self.elems@[t]).wf(),
                forall|t: int|
                    0 <= t < self.elems@.len() && !(base <= t < base + j) ==> self.elems@[t]
                        == old(self).elems@[t],
                forall|t: int|
                    base <= t < base + j ==> (#[trigger] self.elems@[t])@ == (old(self).elems@[t]@
                        + (old(self).elems@[t - base + src]@ * c@) % (M as int)) % (M as int),
            decreases n - j,
        {
            let v = self.elems[i2 * n + j] + self.elems[i1 * n + j] * c;
            self.elems[i2 * n + j] = v;
            j += 1;
        }
        proof {
            let target = old(self)@.update(
                i2 as int,
                add_scaled_row(old(self)@[i2 as int], old(self)@[i1 as int], c@, M as int),
            );
            assert forall|r: int| 0 <= r < self.m implies self@[r] =~= target[r] by {
                assert forall|q: int| 0 <= q < n implies self@[r][q] == target[r][q] by {
                    lemma_row_base(r, self.m as int, n as int);
                    if r != i2 {
                        lemma_rows_apart(i2 as int, r, n as int);
                    }
                }
            }
            assert(self@ =~= target);
        }
    }

    /// Exchanges rows `i1` and `i2`.
    pub fn swap_rows(&mut self, i1: usize, i2: usize)
        requires
            old(self).wf(),
            i1 < old(self).m,
            i2 < old(self).m,
        ensures
            final(self).wf(),
            final(self).m == old(self).m,
            final(self).n == old(self).n,
            final(self)@ == swap_rows(old(self)@, i1 as int, i2 as int),
    {
        let n = self.n;
        let ghost b1 = i1 * n;
        let ghost b2 = i2 * n;
        proof {
            lemma_row_base(i1 as int, self.m as int, n as int);
            lemma_row_base(i2 as int, self.m as int, n as int);
            if i1 != i2 {
                lemma_rows_apart(i2 as int, i1 as int, n as int);
            }
        }
        let mut j: usize = 0;
        while j < n
            invariant
                0 <= j <= n,
                self.m == old(self).m,
                self.n == old(self).n,
                n == self.n,
                i1 < self.m,
                i2 < self.m,
                b1 == i1 * n,
                b2 == i2 * n,
                b1 + n <= self.m * n,
                b2 + n <= self.m * n,
                0 <= b1,
                0 <= b2,
                i1 == i2 ==> b1 == b2,
                i1 != i2 ==> b1 + n <= b2 || b2 + n <= b1,
                self.elems.len() == self.m * self.n,
                forall|t: int| 0 <= t < self.elems@.len() ==> (#[trigger] self.elems@[t]).wf(),
                forall|t: int|
                    0 <= t < self.elems@.len() && !(b1 <= t < b1 + j) && !(b2 <= t < b2 + j)
                        ==> self.elems@[t] == old(self).elems@[t],
                forall|t: int|
                    b1 <= t < b1 + j ==> #[trigger] self.elems@[t] == old(self).elems@[t - b1 + b2],
                forall|t: int|
                    b2 <= t < b2 + j ==> #[trigger] self.elems@[t] == old(self).elems@[t - b2 + b1],
            decreases n - j,
        {
            let tmp = self.elems[i1 * n + j];
            let other = self.elems[i2 * n + j];
            self.elems[i1 * n + j] = other;
            self.elems[i2 * n + j] = tmp;
            j += 1;
        }
        proof {
            let target = swap_rows(old(self)@, i1 as int, i2 as int);
            assert forall|r: int| 0 <= r < self.m implies self@[r] =~= target[r] by {
                assert forall|q: int| 0 <= q < n implies self@[r][q] == target[r][q] by {
                    lemma_row_base(r, self.m as int, n as int);
                    if r != i1 {
                        lemma_rows_apart(i1 as int, r, n as int);
                    }
                    if r != i2 {
                        lemma_rows_apart(i2 as int, r, n as int);
                    }
                }
            }
            assert(self@ =~= target);
        }
    }

    /// The entry in row `i`, column `j`.
    pub fn elem(&self, i: usize, j: usize) -> (r: Gfe<M>)
        requires
            self.wf(),
            i < self.m,
            j < self.n,
        ensures
            r.wf(),
            r@ == self@[i as int][j as int],
    {
        proof {
            lemma_row_base(i as int, self.m as int, self.n as int);
        }
        self.elems[i * self.n + j]
    }

    /// A mutable reference to the entry in row `i`, column `j`.
    pub fn elem_mut(&mut self, i: usize, j: usize) -> (r: &mut Gfe<M>)
        requires
            old(self).elems.len() == old(self).m * old(self).n,
            i < old(self).m,
            j < old(self).n,
        ensures
            *r == old(self).elems@[i * old(self).n + j],
            final(self).m == old(self).m,
            final(self).n == old(self).n,
            final(self).elems@ == old(self).elems@.update(i * old(self).n + j, *final(r)),
    {
        proof {
            lemma_row_base(i as int, self.m as int, self.n as int);
        }
        &mut self.elems[i * self.n + j]
    }

    /// Brings the matrix into reduced row-echelon form by elementary row
    /// operations. The columns are taken from left to right. In each, the first
    /// row without a pivot that has a nonzero entry there is moved up to follow
    /// the pivot rows, scaled to make that entry 1, and used to clear the column
    /// in every other row; a column with no such row is left as a free column.
    pub fn row_reduce(&mut self)
        requires
            old(self).wf(),
            is_prime(M as int),
        ensures
            final(self).wf(),
            final(self).m == old(self).m,
            final(self).n == old(self).n,
            is_rref(final(self)@),
            same_kernel(old(self)@, final(self)@, M as int),
            final(self)@ == reduced(old(self)@, old(self).n as int, M as int),
    {
        let m = self.m;
        let n = self.n;
        let mut p: usize = 0;
        let mut col: usize = 0;
        let ghost mut piv: Seq<int> = Seq::empty();
        proof {
            self.lemma_view_is_matrix();
        }
        while col < n
            invariant
                self.wf(),
                self.m == m,
                self.n == n,
                m == old(self).m,
                n == old(self).n,
                is_prime(M as int),
                p <= m,
                col <= n,
                piv.len() == p,
                partial_rref(self@, piv, col as int),
                same_kernel(old(self)@, self@, M as int),
            decreases n - col,
        {
            if p < m {
                let found = self.find_pivot(p, col);
                if found < m {
                    self.make_pivot(p, col, found, Ghost(piv));
                    proof {
                        piv = piv.push(col as int);
                    }
                    p += 1;
                } else {
                    proof {
                        lemma_partial_rref_skip(self@, piv, col as int);
                    }
                }
            } else {
                proof {
                    lemma_partial_rref_skip(self@, piv, col as int);
                }
            }
            col += 1;
        }
        proof {
            self.lemma_view_is_matrix();
            lemma_partial_rref_done(self@, piv, n as int);
            lemma_reduced_is(old(self)@, self@, n as int, M as int);
        }
    }

    /// The first row from `start` on with a nonzero entry in column `col`, or
    /// `m` if there is none.
    fn find_pivot(&self, start: usize, col: usize) -> (f: usize)
        requires
            self.wf(),
            start <= self.m,
            col < self.n,
        ensures
            start <= f <= self.m,
            forall|k: int| start <= k < f ==> (#[trigger] self@[k])[col as int] == 0,
            f < self.m ==> self@[f as int][col as int] != 0,
    {
        let mut f = start;
        while f < self.m
            invariant
                self.wf(),
                col < self.n,
                start <= f <= self.m,
                forall|k: int| start <= k < f ==> (#[trigger] self@[k])[col as int] == 0,
            decreases self.m - f,
        {
            if self.elem(f, col) != Gfe::zero() {
                return f;
            }
            f += 1;
        }
        f
    }

    /// Makes column `col` a pivot column with its pivot in row `p`, given a row
    /// `found` at or below `p` with a nonzero entry in that column.
    fn make_pivot(&mut self, p: usize, col: usize, found: usize, Ghost(piv): Ghost<Seq<int>>)
        requires
            old(self).wf(),
            is_prime(M as int),
            p <= found < old(self).m,
            col < old(self).n,
            piv.len() == p,
            partial_rref(old(self)@, piv, col as int),
            old(self)@[found as int][col as int] != 0,
        ensures
            final(self).wf(),
            final(self).m == old(self).m,
            final(self).n == old(self).n,
            partial_rref(final(self)@, piv.push(col as int), col + 1),
            same_kernel(old(self)@, final(self)@, M as int),
    {
        let m = self.m;
        let ghost cols = self.n as int;
        proof {
            self.lemma_view_is_matrix();
            lemma_place_pivot(old(self)@, piv, found as int, col as int, cols, M as int);
        }
        if found != p {
            self.swap_rows(found, p);
        }
        assert(self@ =~= swap_rows(old(self)@, found as int, p as int));
        let v = self.elem(p, col);
        let c = v.inverse();
        self.mul_row(p, c);
        assert(self@ == place_pivot(old(self)@, p as int, found as int, col as int, M as int));
        let mut k: usize = 0;
        while k < m
            invariant
                self.wf(),
                self.m == m,
                m == old(self).m,
                self.n == old(self).n,
                cols == self.n,
                is_prime(M as int),
                p < m,
                col < self.n,
                k <= m,
                piv.len() == p,
                is_matrix(self@, m as int, cols, M as int),
                partial_rref(self@, piv, col as int),
                same_kernel(old(self)@, self@, M as int),
                self@[p as int][col as int] == 1,
                forall|t: int| 0 <= t < k && t != p ==> (#[trigger] self@[t])[col as int] == 0,
            decreases m - k,
        {
            if k != p {
                let e = self.elem(k, col);
                let ghost before = self@;
                proof {
                    lemma_clear_entry(before, piv, k as int, col as int, cols, M as int);
                }
                self.add_c_row_to(p, k, e.negation());
                proof {
                    assert(self@ == clear_entry(before, p as int, k as int, col as int, M as int));
                    lemma_same_kernel_trans(old(self)@, before, self@, M as int);
                    assert forall|t: int| 0 <= t < k + 1 && t != p implies (#[trigger] self@[t])[col as int]
                        == 0 by {
                        if t != k {
                            assert(self@[t] == before[t]);
                        }
                    }
                    assert(self@[p as int] == before[p as int]);
                }
            }
            k += 1;
        }
        proof {
            lemma_partial_rref_pivot(self@, piv, col as int);
        }
    }
}

} // verus!
