//! Division of polynomials with remainder: what a step of long division keeps,
//! and that quotient and remainder exist and are unique.
use crate::modular::inverse_mod;
use crate::modular::is_prime;
use crate::modular::lemma_add_congruent;
use crate::modular::lemma_distinct_residues;
use crate::modular::lemma_inverse_cancels;
use crate::modular::lemma_inverse_exists;
use crate::modular::lemma_no_zero_divisors;
use crate::poly::add_coeffs;
use crate::poly::canon;
use crate::poly::coeff;
use crate::poly::conv_sum;
use crate::poly::is_canonical;
use crate::poly::is_residues;
use crate::poly::lemma_canon;
use crate::poly::lemma_canon_short;
use crate::poly::lemma_canonical_equal;
use crate::poly::lemma_conv_add;
use crate::poly::lemma_conv_beyond;
use crate::poly::lemma_conv_high;
use crate::poly::lemma_conv_same;
use crate::poly::lemma_conv_term;
use crate::poly::lemma_ops_residues;
use crate::poly::lemma_poly_add_coeff;
use crate::poly::lemma_poly_mul_coeff;
use crate::poly::lemma_poly_neg_coeff;
use crate::poly::poly_add;
use crate::poly::poly_mul;
use crate::poly::poly_neg;
use crate::poly::term_coeffs;
use crate::poly::zero_poly;
use vstd::arithmetic::div_mod::lemma_mod_multiples_vanish;
use vstd::arithmetic::div_mod::lemma_mod_self_0;
use vstd::arithmetic::div_mod::lemma_mod_twice;
use vstd::arithmetic::div_mod::lemma_small_mod;
use vstd::arithmetic::div_mod::lemma_sub_mod_noop;
use vstd::arithmetic::div_mod::lemma_sub_mod_noop_right;
use vstd::prelude::*;

verus! {

/// `p = q * d + r`, stated over canonical polynomials.
pub open spec fn is_division(p: Seq<int>, d: Seq<int>, q: Seq<int>, r: Seq<int>, m: int) -> bool {
    p == poly_add(poly_mul(q, d, m), r, m)
}

/// `r` is a remainder on division by `d`: zero, or of lower degree.
pub open spec fn is_remainder(r: Seq<int>, d: Seq<int>) -> bool {
    r == zero_poly() || r.len() < d.len()
}

/// `(q, r)` is a quotient and remainder of `p` by `d`, both canonical with
/// residue coefficients.
pub open spec fn is_quotient_remainder(
    p: Seq<int>,
    d: Seq<int>,
    q: Seq<int>,
    r: Seq<int>,
    m: int,
) -> bool {
    &&& is_canonical(q) && is_residues(q, m)
    &&& is_canonical(r) && is_residues(r, m)
    &&& is_division(p, d, q, r, m)
    &&& is_remainder(r, d)
}

/// The quotient and the remainder of `p` by `d`.
pub open spec fn poly_divmod(p: Seq<int>, d: Seq<int>, m: int) -> (Seq<int>, Seq<int>) {
    choose|qr: (Seq<int>, Seq<int>)| is_quotient_remainder(p, d, qr.0, qr.1, m)
}

/// Before the first step of a long division the quotient is zero and the
/// remainder is the dividend.
pub proof fn lemma_division_start(p: Seq<int>, d: Seq<int>, m: int)
    requires
        m > 0,
        is_canonical(p),
        is_residues(p, m),
    ensures
        is_division(p, d, zero_poly(), p, m),
{
    let rhs = poly_add(poly_mul(zero_poly(), d, m), p, m);
    lemma_ops_residues(poly_mul(zero_poly(), d, m), p, m);
    assert forall|i: int| 0 <= i implies coeff(p, i) == coeff(rhs, i) by {
        lemma_poly_add_coeff(poly_mul(zero_poly(), d, m), p, m, i);
        lemma_poly_mul_coeff(zero_poly(), d, m, i);
        assert(conv_sum(zero_poly(), d, i, 1) == conv_sum(zero_poly(), d, i, 0) + coeff(
            zero_poly(),
            0,
        ) * coeff(d, i));
        assert(0 * coeff(d, i) == 0);
        lemma_small_mod(0, m as nat);
        lemma_small_mod(coeff(p, i) as nat, m as nat);
    }
    lemma_canonical_equal(p, rhs);
}

/// One step of long division keeps `p = q * d + r`: the term that is added to
/// the quotient is taken, times the divisor, from the remainder.
pub proof fn lemma_division_step(
    p: Seq<int>,
    d: Seq<int>,
    q: Seq<int>,
    r: Seq<int>,
    piece: Seq<int>,
    m: int,
)
    requires
        m > 0,
        is_division(p, d, q, r, m),
    ensures
        is_division(p, d, poly_add(q, piece, m), poly_add(r, poly_neg(poly_mul(piece, d, m), m), m), m),
{
    let q2 = poly_add(q, piece, m);
    let pd = poly_mul(piece, d, m);
    let r2 = poly_add(r, poly_neg(pd, m), m);
    let rhs = poly_add(poly_mul(q2, d, m), r2, m);
    lemma_ops_residues(poly_mul(q, d, m), r, m);
    lemma_ops_residues(poly_mul(q2, d, m), r2, m);
    assert forall|i: int| 0 <= i implies coeff(p, i) == coeff(rhs, i) by {
        let n = if q2.len() >= q.len() && q2.len() >= piece.len() {
            q2.len() as int
        } else if q.len() >= piece.len() {
            q.len() as int
        } else {
            piece.len() as int
        };
        let a = conv_sum(q, d, i, n);
        let b = conv_sum(piece, d, i, n);
        let a2 = conv_sum(q2, d, i, n);
        lemma_conv_beyond(q, d, i, n);
        lemma_conv_beyond(piece, d, i, n);
        lemma_conv_beyond(q2, d, i, n);
        assert forall|j: int| 0 <= j < n implies #[trigger] coeff(q2, j) % m == (coeff(q, j)
            + coeff(piece, j)) % m by {
            lemma_poly_add_coeff(q, piece, m, j);
            lemma_mod_twice(coeff(q, j) + coeff(piece, j), m);
        }
        lemma_conv_add(q2, q, piece, d, i, n, m);
        // the coefficients of both sides
        lemma_poly_add_coeff(poly_mul(q, d, m), r, m, i);
        lemma_poly_mul_coeff(q, d, m, i);
        lemma_poly_add_coeff(poly_mul(q2, d, m), r2, m, i);
        lemma_poly_mul_coeff(q2, d, m, i);
        lemma_poly_add_coeff(r, poly_neg(pd, m), m, i);
        lemma_poly_neg_coeff(pd, m, i);
        lemma_poly_mul_coeff(piece, d, m, i);
        let ri = coeff(r, i);
        // coeff(r2, i) is congruent to ri - b
        lemma_mod_twice(b, m);
        lemma_mod_twice(m - b % m, m);
        lemma_sub_mod_noop_right(m, b, m);
        lemma_mod_multiples_vanish(1, -b, m);
        assert(((m - b % m) % m) % m == (-b) % m);
        lemma_add_congruent(ri, ri, (m - b % m) % m, -b, m);
        lemma_mod_twice(ri + (m - b % m) % m, m);
        assert(coeff(r2, i) % m == (ri - b) % m);
        // coeff(rhs, i) is congruent to (a + b) + (ri - b)
        lemma_mod_twice(a2, m);
        lemma_add_congruent(a2 % m, a + b, coeff(r2, i), ri - b, m);
        lemma_mod_twice(a, m);
        lemma_add_congruent(a % m, a, ri, ri, m);
    }
    lemma_canonical_equal(p, rhs);
}

/// A step of long division that cancels the leading coefficient of the
/// remainder leaves a shorter remainder, or none.
pub proof fn lemma_division_shortens(r: Seq<int>, d: Seq<int>, c: int, m: int)
    requires
        m > 0,
        is_residues(r, m),
        d.len() >= 1,
        r.len() >= d.len(),
        (c * d.last()) % m == r.last(),
    ensures
        ({
            let piece = canon(term_coeffs(c, (r.len() - d.len()) as nat));
            let r2 = poly_add(r, poly_neg(poly_mul(piece, d, m), m), m);
            r2 == zero_poly() || r2.len() < r.len()
        }),
{
    let k = (r.len() - d.len()) as nat;
    let t = term_coeffs(c, k);
    let piece = canon(t);
    let pd = poly_mul(piece, d, m);
    let s = add_coeffs(r, poly_neg(pd, m), m);
    let top = r.len() - 1;
    lemma_canon(t);
    assert forall|i: int| top <= i implies coeff(s, i) == 0 by {
        lemma_canon(s);
        lemma_poly_add_coeff(r, poly_neg(pd, m), m, i);
        lemma_poly_neg_coeff(pd, m, i);
        lemma_poly_mul_coeff(piece, d, m, i);
        lemma_conv_same(piece, t, d, i);
        lemma_conv_term(c, k, d, i, t.len() as int);
        let b = c * coeff(d, i - k);
        assert(coeff(pd, i) == b % m);
        lemma_small_mod(0, m as nat);
        if i == top {
            assert(coeff(d, i - k) == d.last());
            assert(b % m == r.last());
            if r.last() == 0 {
                lemma_mod_self_0(m);
            } else {
                lemma_small_mod((m - r.last()) as nat, m as nat);
                lemma_mod_self_0(m);
            }
        } else {
            assert(coeff(d, i - k) == 0);
            assert(c * 0 == 0);
            lemma_mod_self_0(m);
        }
    }
    lemma_canon_short(s, top);
}

/// Two polynomials that agree from coefficient `t + 1` on have convolution
/// sums with `d` that differ, at the power `t + deg d`, by the difference of
/// their coefficients `t` times the leading coefficient of `d`.
proof fn lemma_conv_top_difference(q1: Seq<int>, q2: Seq<int>, d: Seq<int>, t: int, n: int)
    requires
        d.len() >= 1,
        0 <= t < n,
        forall|j: int| t < j ==> coeff(q1, j) == coeff(q2, j),
    ensures
        conv_sum(q1, d, t + d.len() - 1, n) - conv_sum(q2, d, t + d.len() - 1, n) == (coeff(q1, t)
            - coeff(q2, t)) * d.last(),
    decreases n,
{
    let k = t + d.len() - 1;
    if n == t + 1 {
        lemma_conv_high(q1, d, k, t);
        lemma_conv_high(q2, d, k, t);
        assert(coeff(d, k - t) == d.last());
        assert((coeff(q1, t) - coeff(q2, t)) * d.last() == coeff(q1, t) * d.last() - coeff(q2, t)
            * d.last()) by (nonlinear_arith);
    } else {
        lemma_conv_top_difference(q1, q2, d, t, n - 1);
        assert(coeff(q1, n - 1) == coeff(q2, n - 1));
    }
}

/// Two quotients of the same division agree from coefficient `t` on.
proof fn lemma_quotients_agree_from(
    p: Seq<int>,
    d: Seq<int>,
    q1: Seq<int>,
    r1: Seq<int>,
    q2: Seq<int>,
    r2: Seq<int>,
    m: int,
    t: int,
)
    requires
        is_prime(m),
        is_canonical(d),
        is_residues(d, m),
        d != zero_poly(),
        is_quotient_remainder(p, d, q1, r1, m),
        is_quotient_remainder(p, d, q2, r2, m),
        0 <= t,
    ensures
        forall|j: int| t <= j ==> coeff(q1, j) == coeff(q2, j),
    decreases q1.len() + q2.len() - t,
{
    if t >= q1.len() + q2.len() {
    } else {
        lemma_quotients_agree_from(p, d, q1, r1, q2, r2, m, t + 1);
        let k = t + d.len() - 1;
        let n = q1.len() + q2.len();
        lemma_conv_top_difference(q1, q2, d, t, n as int);
        lemma_conv_beyond(q1, d, k, n as int);
        lemma_conv_beyond(q2, d, k, n as int);
        let a1 = conv_sum(q1, d, k, q1.len() as int);
        let a2 = conv_sum(q2, d, k, q2.len() as int);
        // the coefficient k of p, computed from either division
        lemma_poly_add_coeff(poly_mul(q1, d, m), r1, m, k);
        lemma_poly_mul_coeff(q1, d, m, k);
        lemma_poly_add_coeff(poly_mul(q2, d, m), r2, m, k);
        lemma_poly_mul_coeff(q2, d, m, k);
        assert(coeff(r1, k) == 0);
        assert(coeff(r2, k) == 0);
        lemma_mod_twice(a1, m);
        lemma_mod_twice(a2, m);
        assert(a1 % m == a2 % m);
        let x = coeff(q1, t);
        let y = coeff(q2, t);
        assert(d.last() != 0) by {
            if d.len() == 1 {
                assert(d =~= seq![d[0]]);
            }
        }
        if x != y {
            assert(0 <= x < m && 0 <= y < m);
            lemma_distinct_residues(x, y, m);
            // (x - y) * d.last() is a1 - a2, a multiple of m
            lemma_sub_mod_noop(a1, a2, m);
            lemma_small_mod(0, m as nat);
            assert((a1 - a2) % m == 0);
            lemma_no_zero_divisors(x - y, d.last(), m);
            lemma_small_mod(d.last() as nat, m as nat);
        }
    }
}

/// Division with remainder has one result.
pub proof fn lemma_division_unique(
    p: Seq<int>,
    d: Seq<int>,
    q1: Seq<int>,
    r1: Seq<int>,
    q2: Seq<int>,
    r2: Seq<int>,
    m: int,
)
    requires
        is_prime(m),
        is_canonical(d),
        is_residues(d, m),
        d != zero_poly(),
        is_quotient_remainder(p, d, q1, r1, m),
        is_quotient_remainder(p, d, q2, r2, m),
    ensures
        q1 == q2,
        r1 == r2,
{
    lemma_quotients_agree_from(p, d, q1, r1, q2, r2, m, 0);
    lemma_canonical_equal(q1, q2);
    assert forall|i: int| 0 <= i implies coeff(r1, i) == coeff(r2, i) by {
        let a = conv_sum(q1, d, i, q1.len() as int);
        lemma_poly_add_coeff(poly_mul(q1, d, m), r1, m, i);
        lemma_poly_add_coeff(poly_mul(q2, d, m), r2, m, i);
        lemma_poly_mul_coeff(q1, d, m, i);
        // (a % m + r1[i]) % m == (a % m + r2[i]) % m
        let x = coeff(r1, i);
        let y = coeff(r2, i);
        if x != y {
            lemma_distinct_residues(x, y, m);
            lemma_sub_mod_noop(a % m + x, a % m + y, m);
            lemma_small_mod(0, m as nat);
        }
    }
    lemma_canonical_equal(r1, r2);
}

/// Any quotient and remainder found for a division are the ones that
/// `poly_divmod` names.
pub proof fn lemma_divmod_is(p: Seq<int>, d: Seq<int>, q: Seq<int>, r: Seq<int>, m: int)
    requires
        is_prime(m),
        is_canonical(d),
        is_residues(d, m),
        d != zero_poly(),
        is_quotient_remainder(p, d, q, r, m),
    ensures
        poly_divmod(p, d, m) == (q, r),
{
    let qr = poly_divmod(p, d, m);
    assert(is_quotient_remainder(p, d, (q, r).0, (q, r).1, m));
    lemma_division_unique(p, d, q, r, qr.0, qr.1, m);
}

/// Carries a long division on from a quotient and remainder reached so far.
proof fn lemma_divide_from(p: Seq<int>, d: Seq<int>, q: Seq<int>, r: Seq<int>, m: int) -> (qr: (
    Seq<int>,
    Seq<int>,
))
    requires
        is_prime(m),
        is_canonical(d),
        is_residues(d, m),
        d != zero_poly(),
        is_canonical(q),
        is_residues(q, m),
        is_canonical(r),
        is_residues(r, m),
        is_division(p, d, q, r, m),
    ensures
        is_quotient_remainder(p, d, qr.0, qr.1, m),
    decreases
            (if r == zero_poly() {
                0
            } else {
                r.len()
            }),
{
    if r == zero_poly() || r.len() < d.len() {
        (q, r)
    } else {
        assert(d.last() != 0) by {
            if d.len() == 1 {
                assert(d =~= seq![d[0]]);
            }
        }
        lemma_inverse_exists(d.last(), m);
        let c = (inverse_mod(d.last(), m) * r.last()) % m;
        let piece = canon(term_coeffs(c, (r.len() - d.len()) as nat));
        let q2 = poly_add(q, piece, m);
        let r2 = poly_add(r, poly_neg(poly_mul(piece, d, m), m), m);
        lemma_small_mod(r.last() as nat, m as nat);
        lemma_inverse_cancels(d.last(), inverse_mod(d.last(), m), r.last(), m);
        lemma_division_step(p, d, q, r, piece, m);
        lemma_division_shortens(r, d, c, m);
        lemma_ops_residues(q, piece, m);
        lemma_ops_residues(r, poly_neg(poly_mul(piece, d, m), m), m);
        lemma_divide_from(p, d, q2, r2, m)
    }
}

/// Division with remainder by a nonzero polynomial has a result, and
/// `poly_divmod` names it.
pub proof fn lemma_divmod(p: Seq<int>, d: Seq<int>, m: int)
    requires
        is_prime(m),
        is_canonical(p),
        is_residues(p, m),
        is_canonical(d),
        is_residues(d, m),
        d != zero_poly(),
    ensures
        is_quotient_remainder(p, d, poly_divmod(p, d, m).0, poly_divmod(p, d, m).1, m),
{
    lemma_division_start(p, d, m);
    let qr = lemma_divide_from(p, d, zero_poly(), p, m);
}

} // verus!
