//! The Berlekamp-Welch linear system and what a decoder reads off its reduced
//! form, over the integers modulo `m`.
use crate::division::poly_divmod;
use crate::echelon::has_pivot;
use crate::echelon::pivot_row;
use crate::elimination::reduced;
use crate::linear::dot;
use crate::linear::is_matrix;
use crate::linear::lemma_dot_congruent;
use crate::linear::lemma_dot_prefix;
use crate::linear::lemma_dot_split;
use crate::modular::lemma_add_congruent;
use crate::modular::lemma_mul_congruent;
use crate::poly::canon;
use crate::poly::eval_int;
use crate::poly::poly_eval;
use crate::poly::zero_poly;
use vstd::arithmetic::div_mod::lemma_mod_multiples_vanish;
use vstd::arithmetic::div_mod::lemma_mod_twice;
use vstd::arithmetic::div_mod::lemma_sub_mod_noop_right;
use vstd::arithmetic::power::pow;
use vstd::prelude::*;

verus! {

/// The values of `p` at the positions `0, 1, ..., z - 1`, each taken as a field
/// element.
pub open spec fn samples(p: Seq<int>, z: nat, m: int) -> Seq<int> {
    Seq::new(z, |i: int| poly_eval(p, i % m, m))
}

/// The entry in row `i`, column `j` of the system for the received word `recv`
/// and `k` errors. With `z = recv.len()`, the first `z - k` columns hold the
/// powers of `i` and stand for the coefficients of `Q`, the next `k` hold
/// `-recv[i] * i^b` and stand for the lower coefficients of the monic error
/// locator `E`, and the last holds the right-hand side `recv[i] * i^k`. Row `i`
/// says `Q(i) = recv[i] * E(i)`.
pub open spec fn bw_entry(recv: Seq<int>, k: int, i: int, j: int, m: int) -> int {
    let z = recv.len() as int;
    let x = i % m;
    if j < z - k {
        pow(x, j as nat) % m
    } else if j < z {
        (m - (recv[i] * (pow(x, (j - (z - k)) as nat) % m)) % m) % m
    } else {
        (recv[i] * (pow(x, k as nat) % m)) % m
    }
}

/// The augmented matrix of the system, with `recv.len()` rows and one column
/// more.
pub open spec fn bw_matrix(recv: Seq<int>, k: int, m: int) -> Seq<Seq<int>> {
    Seq::new(recv.len(), |i: int| Seq::new(recv.len() + 1, |j: int| bw_entry(recv, k, i, j, m)))
}

/// The value that the reduced system gives the unknown of column `c`: the
/// right-hand side of its pivot row, or zero for a free column.
pub open spec fn unknown(a: Seq<Seq<int>>, c: int, rhs: int) -> int {
    if has_pivot(a, c) {
        a[pivot_row(a, c)][rhs]
    } else {
        0
    }
}

/// The coefficients of `Q` read off the reduced system.
pub open spec fn q_coeffs(a: Seq<Seq<int>>, k: int, z: int) -> Seq<int> {
    Seq::new((z - k) as nat, |c: int| unknown(a, c, z))
}

/// The coefficients of the monic error locator `E` read off the reduced system.
pub open spec fn e_coeffs(a: Seq<Seq<int>>, k: int, z: int) -> Seq<int> {
    Seq::new(k as nat, |b: int| unknown(a, z - k + b, z)).push(1)
}

/// Every unknown coefficient of `Q` is determined by the reduced system.
pub open spec fn q_determined(a: Seq<Seq<int>>, k: int, z: int) -> bool {
    forall|c: int| 0 <= c < z - k ==> has_pivot(a, c)
}

/// What decoding yields from the reduced system `a` of a received word of
/// length `z`: the corrected word, or nothing if a coefficient of `Q` is not
/// determined or `E` does not divide `Q`.
pub open spec fn decode_from(a: Seq<Seq<int>>, k: int, z: int, m: int) -> Option<Seq<int>> {
    if q_determined(a, k, z) {
        let qr = poly_divmod(canon(q_coeffs(a, k, z)), canon(e_coeffs(a, k, z)), m);
        if qr.1 == zero_poly() {
            Some(samples(qr.0, z as nat, m))
        } else {
            None
        }
    } else {
        None
    }
}

/// What decoding the received word `recv` with room for `k` errors yields: the
/// result read off the reduced row-echelon form of its system.
pub open spec fn decode_spec(recv: Seq<int>, k: int, m: int) -> Option<Seq<int>> {
    decode_from(
        reduced(bw_matrix(recv, k, m), recv.len() as int + 1, m),
        k,
        recv.len() as int,
        m,
    )
}

/// The system of a received word is a matrix of residues with one column more
/// than rows.
pub proof fn lemma_bw_is_matrix(recv: Seq<int>, k: int, m: int)
    requires
        m > 0,
    ensures
        is_matrix(bw_matrix(recv, k, m), recv.len() as int, recv.len() as int + 1, m),
{
    let bw = bw_matrix(recv, k, m);
    assert forall|i: int| 0 <= i < recv.len() implies crate::linear::is_residue_row(
        #[trigger] bw[i],
        m,
    ) by {
        assert forall|j: int| 0 <= j < bw[i].len() implies 0 <= #[trigger] bw[i][j] < m by {
            assert(bw[i][j] == bw_entry(recv, k, i, j, m));
        }
    }
}

/// The powers `x^0, x^1, ...` of `x`, reduced modulo `m`.
pub open spec fn power_row(x: int, n: nat, m: int) -> Seq<int> {
    Seq::new(n, |j: int| pow(x, j as nat) % m)
}

/// The dot product of the powers of `x` with the coefficients of a polynomial
/// is its value at `x`.
pub proof fn lemma_dot_powers(x: int, q: Seq<int>, m: int)
    requires
        m > 0,
    ensures
        dot(power_row(x, q.len(), m), q) % m == eval_int(q, x) % m,
    decreases q.len(),
{
    let n = q.len();
    let row = power_row(x, n, m);
    if n > 0 {
        let b = q.drop_last();
        lemma_dot_powers(x, b, m);
        assert(row.drop_last() =~= power_row(x, b.len(), m));
        lemma_dot_prefix(row.drop_last(), q, b);
        let l = n - 1;
        let pw = pow(x, l as nat);
        lemma_mod_twice(pw, m);
        lemma_mul_congruent(row[l], pw, q[l], q[l], m);
        assert(pw * q[l] == q[l] * pw) by (nonlinear_arith);
        lemma_add_congruent(dot(row.drop_last(), q), eval_int(b, x), row[l] * q[l], q[l] * pw, m);
    }
}

/// What row `i` of the system says of a vector `s` of coefficients: with `q`
/// its first `z - k` entries, `e` its next `k` and `t` its last,
/// the dot product is `q(x) - recv[i] * e(x) + recv[i] * x^k * t`.
pub proof fn lemma_bw_row(recv: Seq<int>, k: int, i: int, s: Seq<int>, m: int)
    requires
        m > 0,
        0 <= k,
        2 * k <= recv.len(),
        0 <= i < recv.len(),
        s.len() == recv.len() + 1,
    ensures
        ({
            let z = recv.len() as int;
            let x = i % m;
            dot(bw_matrix(recv, k, m)[i], s) % m == (eval_int(s.subrange(0, z - k), x) - recv[i]
                * eval_int(s.subrange(z - k, z), x) + recv[i] * pow(x, k as nat) * s[z]) % m
        }),
{
    let z = recv.len() as int;
    let x = i % m;
    let ri = recv[i];
    let row = bw_matrix(recv, k, m)[i];
    let q = s.subrange(0, z - k);
    let e = s.subrange(z - k, z);
    // the three blocks of the row
    lemma_dot_split(row, s, z - k);
    let rest = row.subrange(z - k, z + 1);
    let srest = s.subrange(z - k, z + 1);
    lemma_dot_split(rest, srest, k);
    let qrow = row.subrange(0, z - k);
    let erow = rest.subrange(0, k);
    let arow = rest.subrange(k, k + 1);
    assert(srest.subrange(0, k) =~= e);
    // the block of Q
    assert(qrow =~= power_row(x, (z - k) as nat, m));
    lemma_dot_powers(x, q, m);
    // the block of E
    let prow = power_row(x, k as nat, m);
    let nrow = Seq::new(k as nat, |b: int| (-ri) * prow[b]);
    assert forall|b: int| 0 <= b < k implies #[trigger] erow[b] % m == nrow[b] % m by {
        let w = ri * prow[b];
        assert(erow[b] == (m - w % m) % m);
        lemma_mod_twice(m - w % m, m);
        lemma_sub_mod_noop_right(m, w, m);
        lemma_mod_multiples_vanish(1, -w, m);
        assert((-ri) * prow[b] == -w) by (nonlinear_arith)
            requires
                w == ri * prow[b],
        ;
    }
    lemma_dot_congruent(erow, nrow, e, m);
    lemma_dot_scaled_row(prow, -ri, e);
    lemma_dot_powers(x, e, m);
    let ev = eval_int(e, x);
    lemma_mul_congruent(-ri, -ri, dot(prow, e), ev, m);
    // the right-hand side
    let a = arow[0];
    let sa = srest.subrange(k, k + 1);
    assert(arow.drop_last().len() == 0);
    assert(dot(arow, sa) == dot(arow.drop_last(), sa) + arow.last() * sa[0]);
    assert(dot(arow.drop_last(), sa) == 0);
    assert(sa[0] == s[z]);
    assert(a == (ri * (pow(x, k as nat) % m)) % m);
    lemma_mod_twice(ri * (pow(x, k as nat) % m), m);
    lemma_mod_twice(pow(x, k as nat), m);
    lemma_mul_congruent(ri, ri, pow(x, k as nat) % m, pow(x, k as nat), m);
    lemma_mul_congruent(a, ri * pow(x, k as nat), s[z], s[z], m);
    // together
    let qv = eval_int(q, x);
    lemma_add_congruent(dot(erow, e), (-ri) * ev, dot(arow, sa), ri * pow(x, k as nat) * s[z], m);
    lemma_add_congruent(
        dot(qrow, q),
        qv,
        dot(erow, e) + dot(arow, sa),
        (-ri) * ev + ri * pow(x, k as nat) * s[z],
        m,
    );
    assert((-ri) * ev == -(ri * ev)) by (nonlinear_arith);
}

/// The dot product with a multiple of a row is the multiple of the dot product.
pub proof fn lemma_dot_scaled_row(a: Seq<int>, c: int, x: Seq<int>)
    ensures
        dot(Seq::new(a.len(), |j: int| c * a[j]), x) == c * dot(a, x),
    decreases a.len(),
{
    let s = Seq::new(a.len(), |j: int| c * a[j]);
    if a.len() == 0 {
        assert(c * 0 == 0);
    } else {
        lemma_dot_scaled_row(a.drop_last(), c, x);
        assert(s.drop_last() =~= Seq::new(a.drop_last().len(), |j: int| c * a.drop_last()[j]));
        let l = a.len() - 1;
        assert(c * dot(a.drop_last(), x) + (c * a[l]) * x[l] == c * (dot(a.drop_last(), x) + a[l]
            * x[l])) by (nonlinear_arith);
    }
}

} // verus!
