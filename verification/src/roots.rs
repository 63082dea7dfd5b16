//! A polynomial over a prime field has no more roots than its degree, and what
//! follows from that: two polynomials of degree below `n` that agree at `n`
//! points are the same.
use crate::modular::inverse_mod;
use crate::modular::is_prime;
use crate::modular::lemma_add_congruent;
use crate::modular::lemma_distinct_residues;
use crate::modular::lemma_interpolation_step;
use crate::modular::lemma_inverse_exists;
use crate::modular::lemma_mul_congruent;
use crate::modular::lemma_no_zero_divisors;
use crate::poly::add_coeffs;
use crate::poly::coeff;
use crate::poly::eval_int;
use crate::poly::is_canonical;
use crate::poly::is_residues;
use crate::poly::lemma_canon;
use crate::poly::lemma_canonical_equal;
use crate::poly::lemma_eval_add;
use crate::poly::lemma_eval_constant;
use crate::poly::lemma_eval_front;
use crate::poly::lemma_eval_mul;
use crate::poly::lemma_eval_pad;
use crate::poly::lemma_eval_zeros;
use crate::poly::lemma_ops_residues;
use crate::poly::lemma_roots_eval_nonzero;
use crate::poly::lemma_roots_eval_zero;
use crate::poly::lemma_roots_poly_shape;
use crate::poly::mul_coeffs;
use crate::poly::pad;
use crate::poly::poly_add;
use crate::poly::poly_eval;
use crate::poly::poly_mul;
use crate::poly::roots_poly;
use vstd::arithmetic::div_mod::lemma_mod_twice;
use vstd::arithmetic::div_mod::lemma_small_mod;
use vstd::arithmetic::div_mod::lemma_sub_mod_noop;
use vstd::arithmetic::power::pow;
use vstd::prelude::*;

verus! {

/// The entries of `s` are residues in `[0, m)`, no two of them equal.
pub open spec fn distinct_residues(s: Seq<int>, m: int) -> bool {
    &&& forall|i: int| 0 <= i < s.len() ==> 0 <= #[trigger] s[i] < m
    &&& forall|i: int, j: int| 0 <= i < j < s.len() ==> s[i] != s[j]
}

/// `u + c * w`, coefficient by coefficient over the integers.
pub open spec fn combine(u: Seq<int>, w: Seq<int>, c: int) -> Seq<int> {
    Seq::new(u.len(), |j: int| u[j] + c * coeff(w, j))
}

/// The quotient of `p` by `x - r` over the integers.
pub open spec fn deflate(p: Seq<int>, r: int) -> Seq<int>
    decreases p.len(),
{
    if p.len() <= 1 {
        Seq::empty()
    } else {
        combine(p.drop_first(), deflate(p.drop_first(), r), r)
    }
}

/// The value of `u + c * w` is the matching combination of the values.
pub proof fn lemma_eval_combine(u: Seq<int>, w: Seq<int>, c: int, x: int)
    requires
        w.len() <= u.len(),
    ensures
        eval_int(combine(u, w, c), x) == eval_int(u, x) + c * eval_int(w, x),
{
    lemma_eval_pad(w, u.len(), x);
    lemma_eval_combine_same(u, pad(w, u.len()), c, x);
    assert(combine(u, pad(w, u.len()), c) =~= combine(u, w, c));
}

/// The same for polynomials with equally many coefficients.
proof fn lemma_eval_combine_same(u: Seq<int>, w: Seq<int>, c: int, x: int)
    requires
        w.len() == u.len(),
    ensures
        eval_int(combine(u, w, c), x) == eval_int(u, x) + c * eval_int(w, x),
    decreases u.len(),
{
    let s = combine(u, w, c);
    if u.len() == 0 {
        assert(c * 0 == 0);
    } else {
        lemma_eval_combine_same(u.drop_last(), w.drop_last(), c, x);
        assert(s.drop_last() =~= combine(u.drop_last(), w.drop_last(), c));
        let pw = pow(x, (u.len() - 1) as nat);
        let eu = eval_int(u.drop_last(), x);
        let ew = eval_int(w.drop_last(), x);
        assert(s.last() == u.last() + c * w.last());
        assert(eu + c * ew + (u.last() + c * w.last()) * pw == (eu + u.last() * pw) + c * (ew
            + w.last() * pw)) by (nonlinear_arith);
    }
}

/// The quotient by `x - r` has one coefficient less.
pub proof fn lemma_deflate_len(p: Seq<int>, r: int)
    ensures
        deflate(p, r).len() == if p.len() >= 1 {
            p.len() - 1
        } else {
            0
        },
    decreases p.len(),
{
    if p.len() > 1 {
        lemma_deflate_len(p.drop_first(), r);
    }
}

/// Division by `x - r` leaves the value at `r` as the remainder:
/// `p(x) = (x - r) * q(x) + p(r)`.
pub proof fn lemma_deflate_eval(p: Seq<int>, r: int, x: int)
    ensures
        eval_int(p, x) == (x - r) * eval_int(deflate(p, r), x) + eval_int(p, r),
    decreases p.len(),
{
    if p.len() == 0 {
        assert((x - r) * 0 == 0);
    } else if p.len() == 1 {
        lemma_eval_front(p, x);
        lemma_eval_front(p, r);
        assert(eval_int(p.drop_first(), x) == 0);
        assert(eval_int(p.drop_first(), r) == 0);
        assert(x * 0 == 0 && r * 0 == 0);
        assert((x - r) * 0 == 0);
    } else {
        let t = p.drop_first();
        let qt = deflate(t, r);
        lemma_deflate_len(t, r);
        lemma_deflate_eval(t, r, x);
        lemma_eval_front(p, x);
        lemma_eval_front(p, r);
        lemma_eval_combine(t, qt, r, x);
        let et = eval_int(t, x);
        let er = eval_int(t, r);
        let eq = eval_int(qt, x);
        assert(p[0] + x * et == (x - r) * (et + r * eq) + (p[0] + r * er)) by (nonlinear_arith)
            requires
                et == (x - r) * eq + er,
        ;
    }
}

/// The coefficients of the quotient by `x - r` follow Horner's rule: each is
/// the next coefficient of `p` plus `r` times the quotient's next one.
pub proof fn lemma_deflate_shift(p: Seq<int>, r: int, j: int)
    requires
        0 <= j,
        p.len() >= 1,
    ensures
        coeff(deflate(p, r), j + 1) == coeff(deflate(p.drop_first(), r), j),
    decreases p.len(),
{
    let t = p.drop_first();
    lemma_deflate_len(p, r);
    lemma_deflate_len(t, r);
    if p.len() >= 2 && j + 1 < p.len() - 1 {
        // deflate(p)[j + 1] = t[j + 1] + r * coeff(deflate(t), j + 1)
        lemma_deflate_shift(t, r, j);
        let u = t.drop_first();
        lemma_deflate_len(u, r);
        assert(deflate(t, r)[j] == u[j] + r * coeff(deflate(u, r), j));
        assert(u[j] == t[j + 1]);
    }
}

/// A polynomial over a prime field that vanishes at as many distinct points as
/// it has coefficients is zero: all its coefficients are multiples of `m`.
pub proof fn lemma_too_many_roots(p: Seq<int>, roots: Seq<int>, m: int)
    requires
        is_prime(m),
        roots.len() >= p.len(),
        distinct_residues(roots, m),
        forall|i: int| 0 <= i < roots.len() ==> poly_eval(p, #[trigger] roots[i], m) == 0,
    ensures
        forall|j: int| 0 <= j < p.len() ==> #[trigger] p[j] % m == 0,
    decreases p.len(),
{
    if p.len() > 0 {
        let r = roots[0];
        let q = deflate(p, r);
        let rest = roots.drop_first();
        lemma_deflate_len(p, r);
        lemma_small_mod(0, m as nat);
        assert(poly_eval(p, roots[0], m) == 0);
        assert forall|i: int| 0 <= i < rest.len() implies poly_eval(q, #[trigger] rest[i], m)
            == 0 by {
            let x = rest[i];
            assert(x == roots[i + 1]);
            assert(poly_eval(p, roots[i + 1], m) == 0);
            lemma_deflate_eval(p, r, x);
            lemma_distinct_residues(x, r, m);
            // (x - r) * q(x) = p(x) - p(r), a multiple of m
            lemma_sub_mod_noop(eval_int(p, x), eval_int(p, r), m);
            assert(((x - r) * eval_int(q, x)) % m == 0);
            lemma_no_zero_divisors(x - r, eval_int(q, x), m);
        }
        lemma_too_many_roots(q, rest, m);
        // from the quotient back to p
        let t = p.drop_first();
        assert forall|j: int| 1 <= j < p.len() implies #[trigger] p[j] % m == 0 by {
            lemma_deflate_shift(p, r, j - 1);
            let qn = coeff(q, j);
            assert(qn % m == 0);
            if p.len() >= 2 {
                assert(q[j - 1] == t[j - 1] + r * coeff(deflate(t, r), j - 1));
                assert(q[j - 1] % m == 0);
                assert(p[j] == q[j - 1] - r * qn);
                lemma_mul_congruent(r, r, qn, 0, m);
                assert(r * 0 == 0);
                lemma_sub_mod_noop(q[j - 1], r * qn, m);
            }
        }
        assert forall|j: int| 0 <= j < t.len() implies #[trigger] t[j] % m == 0 by {
            assert(t[j] == p[j + 1]);
        }
        lemma_eval_zeros(t, r, m);
        lemma_eval_front(p, r);
        lemma_mul_congruent(r, r, eval_int(t, r), 0, m);
        assert(r * 0 == 0);
        lemma_sub_mod_noop(eval_int(p, r), r * eval_int(t, r), m);
    }
}

/// Two polynomials of degree below `n` that take the same values at `n`
/// distinct points are the same polynomial.
pub proof fn lemma_interpolation_unique(p: Seq<int>, q: Seq<int>, xs: Seq<int>, m: int)
    requires
        is_prime(m),
        is_canonical(p),
        is_residues(p, m),
        is_canonical(q),
        is_residues(q, m),
        p.len() <= xs.len(),
        q.len() <= xs.len(),
        distinct_residues(xs, m),
        forall|i: int| 0 <= i < xs.len() ==> poly_eval(p, #[trigger] xs[i], m) == poly_eval(q, xs[i], m),
    ensures
        p == q,
{
    let n = xs.len();
    let d = combine(pad(p, n), pad(q, n), -1);
    assert forall|i: int| 0 <= i < n implies poly_eval(d, #[trigger] xs[i], m) == 0 by {
        let x = xs[i];
        lemma_eval_combine(pad(p, n), pad(q, n), -1, x);
        lemma_eval_pad(p, n, x);
        lemma_eval_pad(q, n, x);
        lemma_sub_mod_noop(eval_int(p, x), eval_int(q, x), m);
        lemma_small_mod(0, m as nat);
    }
    lemma_too_many_roots(d, xs, m);
    assert forall|j: int| 0 <= j implies coeff(p, j) == coeff(q, j) by {
        if j < n {
            assert(d[j] % m == 0);
            assert(d[j] == coeff(p, j) - coeff(q, j));
            if coeff(p, j) != coeff(q, j) {
                lemma_distinct_residues(coeff(p, j), coeff(q, j), m);
            }
        }
    }
    lemma_canonical_equal(p, q);
}

/// `p` takes the value `ys[i]` at `xs[i]`, for each `i`.
pub open spec fn passes_through(p: Seq<int>, xs: Seq<int>, ys: Seq<int>, m: int) -> bool {
    forall|i: int| 0 <= i < xs.len() ==> poly_eval(p, #[trigger] xs[i], m) == ys[i]
}

/// `p` is a polynomial of degree below the number of points that passes
/// through the points `(xs[i], ys[i])`.
pub open spec fn is_interpolant(p: Seq<int>, xs: Seq<int>, ys: Seq<int>, m: int) -> bool {
    &&& is_canonical(p)
    &&& is_residues(p, m)
    &&& p.len() <= xs.len()
    &&& passes_through(p, xs, ys, m)
}

/// The polynomial of degree below the number of points that passes through the
/// points `(xs[i], ys[i])`.
pub open spec fn interpolant(xs: Seq<int>, ys: Seq<int>, m: int) -> Seq<int> {
    choose|p: Seq<int>| is_interpolant(p, xs, ys, m)
}

/// Any interpolating polynomial found is the one that `interpolant` names.
pub proof fn lemma_interpolant_is(p: Seq<int>, xs: Seq<int>, ys: Seq<int>, m: int)
    requires
        is_prime(m),
        distinct_residues(xs, m),
        is_interpolant(p, xs, ys, m),
    ensures
        interpolant(xs, ys, m) == p,
{
    let q = interpolant(xs, ys, m);
    assert(is_interpolant(q, xs, ys, m));
    lemma_interpolation_unique(p, q, xs, m);
}

/// Through points with distinct first coordinates there is an interpolating
/// polynomial: the one for all but the first point, corrected by a multiple of
/// the polynomial whose roots are the other first coordinates.
pub proof fn lemma_interpolate(xs: Seq<int>, ys: Seq<int>, m: int) -> (p: Seq<int>)
    requires
        is_prime(m),
        1 <= xs.len(),
        xs.len() == ys.len(),
        distinct_residues(xs, m),
        is_residues(ys, m),
    ensures
        is_interpolant(p, xs, ys, m),
    decreases xs.len(),
{
    if xs.len() == 1 {
        let p = seq![ys[0]];
        lemma_eval_constant(ys[0], xs[0]);
        lemma_small_mod(ys[0] as nat, m as nat);
        p
    } else {
        let xr = xs.drop_first();
        let yr = ys.drop_first();
        let rest = lemma_interpolate(xr, yr, m);
        let h = roots_poly(xr, m);
        let x0 = xs[0];
        let y0 = ys[0];
        let p0 = poly_eval(rest, x0, m);
        let z0 = poly_eval(h, x0, m);
        assert forall|t: int| 0 <= t < xr.len() implies (x0 - #[trigger] xr[t]) % m != 0 by {
            assert(xr[t] == xs[t + 1]);
            lemma_distinct_residues(x0, xs[t + 1], m);
        }
        lemma_roots_eval_nonzero(xr, x0, m);
        lemma_inverse_exists(z0, m);
        let zi = inverse_mod(z0, m);
        let c = (((y0 + (m - p0) % m) % m) * zi) % m;
        let scaled = poly_mul(seq![c], h, m);
        let p = poly_add(rest, scaled, m);
        lemma_roots_poly_shape(xr, m);
        lemma_ops_residues(rest, scaled, m);
        lemma_canon(mul_coeffs(seq![c], h, m));
        lemma_canon(add_coeffs(rest, scaled, m));
        assert forall|t: int| 0 <= t < xs.len() implies poly_eval(p, #[trigger] xs[t], m)
            == ys[t] by {
            let x = xs[t];
            lemma_eval_add(rest, scaled, x, m);
            lemma_eval_mul(seq![c], h, x, m);
            lemma_eval_constant(c, x);
            lemma_small_mod(c as nat, m as nat);
            lemma_small_mod(ys[t] as nat, m as nat);
            if t == 0 {
                lemma_interpolation_step(y0, p0, z0, zi, m);
                lemma_mod_twice(c * z0, m);
                lemma_add_congruent(p0, p0, (c * z0) % m, c * z0, m);
            } else {
                assert(xr[t - 1] == x);
                assert(yr[t - 1] == ys[t]);
                lemma_small_mod(0, m as nat);
                lemma_roots_eval_zero(xr, t - 1, x, m);
                assert(c * 0 == 0);
            }
        }
        p
    }
}

/// Interpolating the values of a polynomial at more points than its degree
/// gives the polynomial back.
pub proof fn lemma_interpolant_of_values(p: Seq<int>, xs: Seq<int>, m: int)
    requires
        is_prime(m),
        is_canonical(p),
        is_residues(p, m),
        p.len() <= xs.len(),
        distinct_residues(xs, m),
    ensures
        interpolant(xs, Seq::new(xs.len(), |i: int| poly_eval(p, xs[i], m)), m) == p,
{
    let ys = Seq::new(xs.len(), |i: int| poly_eval(p, xs[i], m));
    assert(is_interpolant(p, xs, ys, m));
    lemma_interpolant_is(p, xs, ys, m);
}

} // verus!
