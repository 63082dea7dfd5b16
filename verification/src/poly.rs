//! Polynomials over the integers modulo `m` as coefficient sequences, lowest
//! power first: the operations on them and how each acts on coefficients and on
//! values.
use crate::modular::is_prime;
use crate::modular::lemma_add_congruent;
use crate::modular::lemma_mul_congruent;
use crate::modular::lemma_no_zero_divisors;
use vstd::arithmetic::div_mod::lemma_add_mod_noop;
use vstd::arithmetic::div_mod::lemma_mod_multiples_vanish;
use vstd::arithmetic::div_mod::lemma_mod_self_0;
use vstd::arithmetic::div_mod::lemma_mod_twice;
use vstd::arithmetic::div_mod::lemma_mul_mod_noop_general;
use vstd::arithmetic::div_mod::lemma_small_mod;
use vstd::arithmetic::power::lemma_pow0;
use vstd::arithmetic::power::lemma_pow_adds;
use vstd::arithmetic::power::pow;
use vstd::prelude::*;

verus! {

/// The coefficient of the power `i`, which is zero beyond the stored ones.
pub open spec fn coeff(p: Seq<int>, i: int) -> int {
    if 0 <= i < p.len() {
        p[i]
    } else {
        0
    }
}

/// Every coefficient is a residue in `[0, m)`.
pub open spec fn is_residues(p: Seq<int>, m: int) -> bool {
    forall|i: int| 0 <= i < p.len() ==> 0 <= #[trigger] p[i] < m
}

/// Canonical form: at least one coefficient, and no trailing zero unless the
/// polynomial is the single coefficient zero.
pub open spec fn is_canonical(p: Seq<int>) -> bool {
    p.len() >= 1 && (p.len() == 1 || p.last() != 0)
}

/// The canonical form of `p`: trailing zeros removed, and the zero polynomial
/// written as one zero coefficient.
pub open spec fn canon(p: Seq<int>) -> Seq<int>
    decreases p.len(),
{
    if p.len() == 0 {
        seq![0int]
    } else if p.len() == 1 {
        p
    } else if p.last() == 0 {
        canon(p.drop_last())
    } else {
        p
    }
}

/// The zero polynomial in canonical form.
pub open spec fn zero_poly() -> Seq<int> {
    seq![0int]
}

/// The value of `p` at `x` over the integers: the sum of `p[i] * x^i`.
pub open spec fn eval_int(p: Seq<int>, x: int) -> int
    decreases p.len(),
{
    if p.len() == 0 {
        0
    } else {
        eval_int(p.drop_last(), x) + p.last() * pow(x, (p.len() - 1) as nat)
    }
}

/// The value of `p` at `x` modulo `m`.
pub open spec fn poly_eval(p: Seq<int>, x: int, m: int) -> int {
    eval_int(p, x) % m
}

/// The coefficientwise sum of `a` and `b`, before trailing zeros are removed.
pub open spec fn add_coeffs(a: Seq<int>, b: Seq<int>, m: int) -> Seq<int> {
    Seq::new(
        if a.len() >= b.len() {
            a.len()
        } else {
            b.len()
        },
        |i: int| (coeff(a, i) + coeff(b, i)) % m,
    )
}

/// The sum of `a` and `b`.
pub open spec fn poly_add(a: Seq<int>, b: Seq<int>, m: int) -> Seq<int> {
    canon(add_coeffs(a, b, m))
}

/// The additive inverse of `a`.
pub open spec fn poly_neg(a: Seq<int>, m: int) -> Seq<int> {
    Seq::new(a.len(), |i: int| (m - a[i]) % m)
}

/// The sum of `a[i] * b[k - i]` over the first `n` coefficients of `a`.
pub open spec fn conv_sum(a: Seq<int>, b: Seq<int>, k: int, n: int) -> int
    decreases n,
{
    if n <= 0 {
        0
    } else {
        conv_sum(a, b, k, n - 1) + coeff(a, n - 1) * coeff(b, k - (n - 1))
    }
}

/// The coefficientwise product (convolution) of `a` and `b`, before trailing
/// zeros are removed.
pub open spec fn mul_coeffs(a: Seq<int>, b: Seq<int>, m: int) -> Seq<int> {
    Seq::new(
        if a.len() + b.len() >= 1 {
            (a.len() + b.len() - 1) as nat
        } else {
            0
        },
        |k: int| conv_sum(a, b, k, a.len() as int) % m,
    )
}

/// The product of `a` and `b`.
pub open spec fn poly_mul(a: Seq<int>, b: Seq<int>, m: int) -> Seq<int> {
    canon(mul_coeffs(a, b, m))
}

/// The single term `c * x^d`, before trailing zeros are removed.
pub open spec fn term_coeffs(c: int, d: nat) -> Seq<int> {
    Seq::new(d + 1, |i: int| if i == d { c } else { 0 })
}

/// The polynomial `x - r`.
pub open spec fn linear_factor(r: int, m: int) -> Seq<int> {
    canon(seq![(m - r) % m, 1int])
}

/// The monic polynomial whose roots are `roots`, with multiplicity: the product
/// of the factors `x - r`.
pub open spec fn roots_poly(roots: Seq<int>, m: int) -> Seq<int>
    decreases roots.len(),
{
    if roots.len() == 0 {
        seq![1int]
    } else if roots.len() == 1 {
        linear_factor(roots[0], m)
    } else {
        poly_mul(linear_factor(roots[0], m), roots_poly(roots.drop_first(), m), m)
    }
}

/// Canonical form keeps every coefficient.
pub proof fn lemma_canon(p: Seq<int>)
    ensures
        is_canonical(canon(p)),
        canon(p).len() <= p.len() || canon(p).len() == 1,
        forall|i: int| coeff(canon(p), i) == #[trigger] coeff(p, i),
        is_canonical(p) ==> canon(p) == p,
    decreases p.len(),
{
    if p.len() >= 2 && p.last() == 0 {
        lemma_canon(p.drop_last());
        assert forall|i: int| coeff(canon(p), i) == #[trigger] coeff(p, i) by {
            assert(coeff(canon(p.drop_last()), i) == coeff(p.drop_last(), i));
        }
    }
}

/// Canonical form keeps residues residues.
pub proof fn lemma_canon_residues(p: Seq<int>, m: int)
    requires
        m > 0,
        is_residues(p, m),
    ensures
        is_residues(canon(p), m),
    decreases p.len(),
{
    if p.len() >= 2 && p.last() == 0 {
        lemma_canon_residues(p.drop_last(), m);
    }
}

/// Two canonical polynomials with the same coefficients are the same sequence.
pub proof fn lemma_canonical_equal(a: Seq<int>, b: Seq<int>)
    requires
        is_canonical(a),
        is_canonical(b),
        forall|i: int| 0 <= i ==> coeff(a, i) == coeff(b, i),
    ensures
        a == b,
{
    if a.len() < b.len() {
        assert(coeff(a, b.len() - 1) == coeff(b, b.len() - 1));
    } else if b.len() < a.len() {
        assert(coeff(a, a.len() - 1) == coeff(b, a.len() - 1));
    }
    assert forall|i: int| 0 <= i < a.len() implies a[i] == b[i] by {
        assert(coeff(a, i) == coeff(b, i));
    }
    assert(a =~= b);
}

/// The value of a polynomial is its constant term plus `x` times the value of
/// the polynomial of the remaining coefficients.
pub proof fn lemma_eval_front(p: Seq<int>, x: int)
    requires
        p.len() > 0,
    ensures
        eval_int(p, x) == p[0] + x * eval_int(p.drop_first(), x),
    decreases p.len(),
{
    let n = p.len();
    if n == 1 {
        lemma_pow0(x);
        assert(eval_int(p.drop_last(), x) == 0);
        assert(eval_int(p.drop_first(), x) == 0);
        assert(x * 0 == 0);
        assert(p.last() * 1 == p[0]);
    } else {
        let a = p.drop_last();
        let b = p.drop_first();
        lemma_eval_front(a, x);
        assert(a.drop_first() =~= b.drop_last());
        let e = eval_int(b.drop_last(), x);
        let l = p.last();
        assert(b.last() == l);
        assert(eval_int(b, x) == e + l * pow(x, (n - 2) as nat));
        assert(eval_int(p, x) == eval_int(a, x) + l * pow(x, (n - 1) as nat));
        assert(pow(x, (n - 1) as nat) == x * pow(x, (n - 2) as nat)) by {
            reveal(pow);
        }
        assert(x * (e + l * pow(x, (n - 2) as nat)) == x * e + l * (x * pow(x, (n - 2) as nat)))
            by (nonlinear_arith);
    }
}

/// `a` continued with zero coefficients, or cut, to `n` coefficients.
pub open spec fn pad(a: Seq<int>, n: nat) -> Seq<int> {
    Seq::new(n, |i: int| coeff(a, i))
}

/// `b` multiplied by `x^s`, as `n` coefficients.
pub open spec fn shifted(b: Seq<int>, s: int, n: nat) -> Seq<int> {
    Seq::new(n, |k: int| coeff(b, k - s))
}

/// A polynomial whose coefficients are all multiples of `m` has value zero
/// modulo `m` everywhere.
pub proof fn lemma_eval_zeros(p: Seq<int>, x: int, m: int)
    requires
        m > 0,
        forall|i: int| 0 <= i < p.len() ==> #[trigger] p[i] % m == 0,
    ensures
        eval_int(p, x) % m == 0,
    decreases p.len(),
{
    lemma_small_mod(0, m as nat);
    if p.len() > 0 {
        lemma_eval_zeros(p.drop_last(), x, m);
        let w = pow(x, (p.len() - 1) as nat);
        lemma_mul_congruent(p.last(), 0, w, w, m);
        assert(0 * w == 0);
        lemma_add_congruent(eval_int(p.drop_last(), x), 0, p.last() * w, 0, m);
    }
}

/// Where the coefficients of `s` are congruent to the sums of those of `u` and
/// `v`, so are the values.
pub proof fn lemma_eval_sum(s: Seq<int>, u: Seq<int>, v: Seq<int>, x: int, m: int)
    requires
        m > 0,
        s.len() == u.len(),
        s.len() == v.len(),
        forall|i: int| 0 <= i < s.len() ==> #[trigger] s[i] % m == (u[i] + v[i]) % m,
    ensures
        eval_int(s, x) % m == (eval_int(u, x) + eval_int(v, x)) % m,
    decreases s.len(),
{
    if s.len() > 0 {
        lemma_eval_sum(s.drop_last(), u.drop_last(), v.drop_last(), x, m);
        let w = pow(x, (s.len() - 1) as nat);
        let l = s.len() - 1;
        assert(s[l] % m == (u[l] + v[l]) % m);
        lemma_mul_congruent(s[l], u[l] + v[l], w, w, m);
        lemma_add_congruent(
            eval_int(s.drop_last(), x),
            eval_int(u.drop_last(), x) + eval_int(v.drop_last(), x),
            s[l] * w,
            (u[l] + v[l]) * w,
            m,
        );
        assert((u[l] + v[l]) * w == u[l] * w + v[l] * w) by (nonlinear_arith);
    }
}

/// Where the coefficients of `s` are congruent to `c` times those of `u`, so
/// are the values.
pub proof fn lemma_eval_scaled(s: Seq<int>, u: Seq<int>, c: int, x: int, m: int)
    requires
        m > 0,
        s.len() == u.len(),
        forall|i: int| 0 <= i < s.len() ==> #[trigger] s[i] % m == (c * u[i]) % m,
    ensures
        eval_int(s, x) % m == (c * eval_int(u, x)) % m,
    decreases s.len(),
{
    if s.len() > 0 {
        lemma_eval_scaled(s.drop_last(), u.drop_last(), c, x, m);
        let w = pow(x, (s.len() - 1) as nat);
        let l = s.len() - 1;
        assert(s[l] % m == (c * u[l]) % m);
        lemma_mul_congruent(s[l], c * u[l], w, w, m);
        lemma_add_congruent(
            eval_int(s.drop_last(), x),
            c * eval_int(u.drop_last(), x),
            s[l] * w,
            (c * u[l]) * w,
            m,
        );
        assert(c * eval_int(u.drop_last(), x) + (c * u[l]) * w == c * (eval_int(u.drop_last(), x)
            + u[l] * w)) by (nonlinear_arith);
    } else {
        assert(c * 0 == 0);
    }
}

/// Zero coefficients at the end do not change the value.
pub proof fn lemma_eval_pad(a: Seq<int>, n: nat, x: int)
    requires
        n >= a.len(),
    ensures
        eval_int(pad(a, n), x) == eval_int(a, x),
    decreases n,
{
    if n == a.len() {
        assert(pad(a, n) =~= a);
    } else {
        lemma_eval_pad(a, (n - 1) as nat, x);
        assert(pad(a, n).drop_last() =~= pad(a, (n - 1) as nat));
        assert(pad(a, n).last() == 0);
        assert(0 * pow(x, (n - 1) as nat) == 0);
    }
}

/// Canonical form does not change the value.
pub proof fn lemma_eval_canon(p: Seq<int>, x: int)
    ensures
        eval_int(canon(p), x) == eval_int(p, x),
    decreases p.len(),
{
    if p.len() == 0 {
        let z = seq![0int];
        assert(eval_int(z.drop_last(), x) == 0);
        assert(0 * pow(x, 0) == 0);
    } else if p.len() >= 2 && p.last() == 0 {
        lemma_eval_canon(p.drop_last(), x);
        assert(0 * pow(x, (p.len() - 1) as nat) == 0);
    }
}

/// Multiplying by `x^s` multiplies the value by the power.
pub proof fn lemma_eval_shifted(b: Seq<int>, s: nat, n: nat, x: int)
    requires
        n >= s,
    ensures
        eval_int(shifted(b, s as int, n), x) == pow(x, s) * eval_int(pad(b, (n - s) as nat), x),
    decreases n,
{
    let sh = shifted(b, s as int, n);
    if n == s {
        assert(pad(b, 0).len() == 0);
        assert(pow(x, s) * 0 == 0);
        assert forall|i: int| 0 <= i < sh.len() implies #[trigger] sh[i] % 1 == 0 by {}
        lemma_eval_all_zero(sh, x);
    } else {
        lemma_eval_shifted(b, s, (n - 1) as nat, x);
        assert(sh.drop_last() =~= shifted(b, s as int, (n - 1) as nat));
        let pd = pad(b, (n - s) as nat);
        assert(pd.drop_last() =~= pad(b, (n - 1 - s) as nat));
        let c = coeff(b, n - 1 - s);
        assert(sh.last() == c);
        assert(pd.last() == c);
        lemma_pow_adds(x, s, (n - 1 - s) as nat);
        let e = eval_int(pd.drop_last(), x);
        assert(pow(x, s) * e + c * (pow(x, s) * pow(x, (n - 1 - s) as nat)) == pow(x, s) * (e + c
            * pow(x, (n - 1 - s) as nat))) by (nonlinear_arith);
    }
}

/// A polynomial whose coefficients are all zero has value zero.
pub proof fn lemma_eval_all_zero(p: Seq<int>, x: int)
    requires
        forall|i: int| 0 <= i < p.len() ==> #[trigger] p[i] == 0,
    ensures
        eval_int(p, x) == 0,
    decreases p.len(),
{
    if p.len() > 0 {
        lemma_eval_all_zero(p.drop_last(), x);
        assert(0 * pow(x, (p.len() - 1) as nat) == 0);
    }
}

/// The convolution sum does not depend on coefficients of `a` from `n` on.
pub proof fn lemma_conv_prefix(a: Seq<int>, a2: Seq<int>, b: Seq<int>, k: int, n: int)
    requires
        forall|i: int| 0 <= i < n ==> coeff(a, i) == coeff(a2, i),
    ensures
        conv_sum(a, b, k, n) == conv_sum(a2, b, k, n),
    decreases n,
{
    if n > 0 {
        lemma_conv_prefix(a, a2, b, k, n - 1);
        assert(coeff(a, n - 1) == coeff(a2, n - 1));
    }
}

/// Terms beyond the coefficients of `a` add nothing to the convolution sum.
pub proof fn lemma_conv_beyond(a: Seq<int>, b: Seq<int>, k: int, n: int)
    requires
        n >= a.len(),
    ensures
        conv_sum(a, b, k, n) == conv_sum(a, b, k, a.len() as int),
    decreases n,
{
    if n > a.len() {
        lemma_conv_beyond(a, b, k, n - 1);
        assert(coeff(a, n - 1) == 0);
        assert(0 * coeff(b, k - (n - 1)) == 0);
    }
}

/// Above the degree of the product the convolution sum is zero.
pub proof fn lemma_conv_high(a: Seq<int>, b: Seq<int>, k: int, n: int)
    requires
        k - (n - 1) >= b.len(),
    ensures
        conv_sum(a, b, k, n) == 0,
    decreases n,
{
    if n > 0 {
        lemma_conv_high(a, b, k, n - 1);
        assert(coeff(b, k - (n - 1)) == 0);
        assert(coeff(a, n - 1) * 0 == 0);
    }
}

/// The convolution sum is additive in its first polynomial, modulo `m`.
pub proof fn lemma_conv_add(
    s: Seq<int>,
    u: Seq<int>,
    v: Seq<int>,
    d: Seq<int>,
    k: int,
    n: int,
    m: int,
)
    requires
        m > 0,
        forall|j: int| 0 <= j < n ==> #[trigger] coeff(s, j) % m == (coeff(u, j) + coeff(v, j)) % m,
    ensures
        conv_sum(s, d, k, n) % m == (conv_sum(u, d, k, n) + conv_sum(v, d, k, n)) % m,
    decreases n,
{
    if n > 0 {
        lemma_conv_add(s, u, v, d, k, n - 1, m);
        let j = n - 1;
        let e = coeff(d, k - j);
        assert(coeff(s, j) % m == (coeff(u, j) + coeff(v, j)) % m);
        lemma_mul_congruent(coeff(s, j), coeff(u, j) + coeff(v, j), e, e, m);
        lemma_add_congruent(
            conv_sum(s, d, k, j),
            conv_sum(u, d, k, j) + conv_sum(v, d, k, j),
            coeff(s, j) * e,
            (coeff(u, j) + coeff(v, j)) * e,
            m,
        );
        assert((coeff(u, j) + coeff(v, j)) * e == coeff(u, j) * e + coeff(v, j) * e)
            by (nonlinear_arith);
    }
}

/// The convolution sum of a single term picks one coefficient of the other
/// polynomial.
pub proof fn lemma_conv_term(c: int, deg: nat, d: Seq<int>, k: int, n: int)
    ensures
        conv_sum(term_coeffs(c, deg), d, k, n) == if n > deg {
            c * coeff(d, k - deg)
        } else {
            0
        },
    decreases n,
{
    if n > 0 {
        lemma_conv_term(c, deg, d, k, n - 1);
        let t = term_coeffs(c, deg);
        if n - 1 != deg {
            assert(coeff(t, n - 1) == 0);
            assert(0 * coeff(d, k - (n - 1)) == 0);
        }
    }
}

/// The coefficients of a sum are the sums of the coefficients.
pub proof fn lemma_poly_add_coeff(a: Seq<int>, b: Seq<int>, m: int, i: int)
    requires
        m > 0,
    ensures
        coeff(poly_add(a, b, m), i) == (coeff(a, i) + coeff(b, i)) % m,
{
    lemma_canon(add_coeffs(a, b, m));
    assert(coeff(poly_add(a, b, m), i) == coeff(add_coeffs(a, b, m), i));
    lemma_small_mod(0, m as nat);
}

/// The coefficients of a product are the convolution sums.
pub proof fn lemma_poly_mul_coeff(a: Seq<int>, b: Seq<int>, m: int, k: int)
    requires
        m > 0,
        0 <= k,
    ensures
        coeff(poly_mul(a, b, m), k) == conv_sum(a, b, k, a.len() as int) % m,
{
    lemma_canon(mul_coeffs(a, b, m));
    assert(coeff(poly_mul(a, b, m), k) == coeff(mul_coeffs(a, b, m), k));
    lemma_small_mod(0, m as nat);
    if k >= mul_coeffs(a, b, m).len() {
        lemma_conv_high(a, b, k, a.len() as int);
    }
}

/// The coefficients of the additive inverse.
pub proof fn lemma_poly_neg_coeff(a: Seq<int>, m: int, i: int)
    requires
        m > 0,
    ensures
        coeff(poly_neg(a, m), i) == (m - coeff(a, i)) % m,
{
    vstd::arithmetic::div_mod::lemma_mod_self_0(m);
}

/// The sum, the product and the additive inverse of polynomials with residue
/// coefficients have residue coefficients, and the first two are canonical.
pub proof fn lemma_ops_residues(a: Seq<int>, b: Seq<int>, m: int)
    requires
        m > 0,
    ensures
        is_residues(poly_add(a, b, m), m),
        is_residues(poly_mul(a, b, m), m),
        is_residues(poly_neg(a, m), m),
        is_canonical(poly_add(a, b, m)),
        is_canonical(poly_mul(a, b, m)),
{
    lemma_canon(add_coeffs(a, b, m));
    lemma_canon(mul_coeffs(a, b, m));
    lemma_canon_residues(add_coeffs(a, b, m), m);
    lemma_canon_residues(mul_coeffs(a, b, m), m);
}

/// The value of a sum is the sum of the values.
pub proof fn lemma_eval_add(a: Seq<int>, b: Seq<int>, x: int, m: int)
    requires
        m > 0,
    ensures
        poly_eval(poly_add(a, b, m), x, m) == (poly_eval(a, x, m) + poly_eval(b, x, m)) % m,
{
    let s = add_coeffs(a, b, m);
    let n = s.len();
    lemma_eval_canon(s, x);
    lemma_eval_pad(a, n, x);
    lemma_eval_pad(b, n, x);
    assert forall|i: int| 0 <= i < n implies #[trigger] s[i] % m == (pad(a, n)[i] + pad(b, n)[i])
        % m by {
        lemma_mod_twice(coeff(a, i) + coeff(b, i), m);
    }
    lemma_eval_sum(s, pad(a, n), pad(b, n), x, m);
    lemma_add_mod_noop(eval_int(a, x), eval_int(b, x), m);
}

/// The value of a product is the product of the values.
pub proof fn lemma_eval_mul(a: Seq<int>, b: Seq<int>, x: int, m: int)
    requires
        m > 0,
        b.len() >= 1,
    ensures
        poly_eval(poly_mul(a, b, m), x, m) == (poly_eval(a, x, m) * poly_eval(b, x, m)) % m,
{
    lemma_eval_canon(mul_coeffs(a, b, m), x);
    lemma_eval_mul_coeffs(a, b, x, m);
    lemma_mul_mod_noop_general(eval_int(a, x), eval_int(b, x), m);
}

/// The value of the convolution is the product of the values, modulo `m`.
pub proof fn lemma_eval_mul_coeffs(a: Seq<int>, b: Seq<int>, x: int, m: int)
    requires
        m > 0,
        b.len() >= 1,
    ensures
        eval_int(mul_coeffs(a, b, m), x) % m == (eval_int(a, x) * eval_int(b, x)) % m,
    decreases a.len(),
{
    let c = mul_coeffs(a, b, m);
    let n = a.len();
    if n == 0 {
        assert forall|k: int| 0 <= k < c.len() implies #[trigger] c[k] % m == 0 by {
            lemma_small_mod(0, m as nat);
        }
        lemma_eval_zeros(c, x, m);
        assert(0 * eval_int(b, x) == 0);
        lemma_small_mod(0, m as nat);
    } else {
        let a1 = a.drop_last();
        let last = a.last();
        let c1 = mul_coeffs(a1, b, m);
        let len = c.len();
        lemma_eval_mul_coeffs(a1, b, x, m);
        // c splits into the convolution with a1 and the last term's share
        let u = pad(c1, len);
        let v = shifted(b, n - 1, len);
        lemma_eval_pad(c1, len, x);
        lemma_eval_shifted(b, (n - 1) as nat, len, x);
        lemma_eval_pad(b, (len - (n - 1)) as nat, x);
        let w = Seq::new(len, |k: int| last * v[k]);
        assert forall|k: int| 0 <= k < len implies #[trigger] w[k] % m == (last * v[k]) % m by {}
        lemma_eval_scaled(w, v, last, x, m);
        assert forall|k: int| 0 <= k < len implies #[trigger] c[k] % m == (u[k] + w[k]) % m by {
            lemma_conv_prefix(a, a1, b, k, n - 1);
            lemma_mod_twice(conv_sum(a, b, k, n as int), m);
            if k < c1.len() {
                lemma_mod_twice(conv_sum(a1, b, k, n - 1), m);
            } else {
                lemma_conv_high(a1, b, k, n - 1);
                lemma_small_mod(0, m as nat);
            }
            lemma_add_congruent(u[k], conv_sum(a1, b, k, n - 1), w[k], w[k], m);
        }
        lemma_eval_sum(c, u, w, x, m);
        let ea1 = eval_int(a1, x);
        let eb = eval_int(b, x);
        let pw = pow(x, (n - 1) as nat);
        lemma_add_congruent(eval_int(u, x), ea1 * eb, eval_int(w, x), last * (pw * eb), m);
        assert(ea1 * eb + last * (pw * eb) == (ea1 + last * pw) * eb) by (nonlinear_arith);
    }
}

/// The value of a constant polynomial is the constant.
pub proof fn lemma_eval_constant(c: int, x: int)
    ensures
        eval_int(seq![c], x) == c,
{
    let p = seq![c];
    lemma_pow0(x);
    assert(eval_int(p.drop_last(), x) == 0);
    assert(p.last() * 1 == c);
}

/// The polynomial `x - r` is canonical with at most two residue coefficients,
/// and its value at `x` is `x - r`.
pub proof fn lemma_linear_factor(r: int, x: int, m: int)
    requires
        m > 1,
    ensures
        is_canonical(linear_factor(r, m)),
        is_residues(linear_factor(r, m), m),
        linear_factor(r, m).len() <= 2,
        poly_eval(linear_factor(r, m), x, m) == (x - r) % m,
{
    let a = (m - r) % m;
    let p = seq![a, 1int];
    lemma_canon(p);
    assert(is_residues(p, m));
    lemma_canon_residues(p, m);
    lemma_eval_canon(p, x);
    lemma_eval_front(p, x);
    assert(p.drop_first() =~= seq![1int]);
    lemma_eval_constant(1, x);
    assert(x * 1 == x);
    lemma_mod_twice(m - r, m);
    lemma_add_congruent(a, m - r, x, x, m);
    lemma_mod_multiples_vanish(1, x - r, m);
}

/// The polynomial with the given roots is canonical, has residue coefficients,
/// and its degree is at most the number of roots.
pub proof fn lemma_roots_poly_shape(roots: Seq<int>, m: int)
    requires
        m > 1,
    ensures
        is_canonical(roots_poly(roots, m)),
        is_residues(roots_poly(roots, m), m),
        1 <= roots_poly(roots, m).len() <= roots.len() + 1,
    decreases roots.len(),
{
    if roots.len() == 0 {
    } else if roots.len() == 1 {
        lemma_linear_factor(roots[0], 0, m);
    } else {
        lemma_linear_factor(roots[0], 0, m);
        lemma_roots_poly_shape(roots.drop_first(), m);
        let f = linear_factor(roots[0], m);
        let rest = roots_poly(roots.drop_first(), m);
        lemma_ops_residues(f, rest, m);
        lemma_canon(mul_coeffs(f, rest, m));
    }
}

/// The value of the polynomial with the given roots is the value of its first
/// factor times the value of the product of the others.
pub proof fn lemma_roots_eval(roots: Seq<int>, x: int, m: int)
    requires
        m > 1,
        roots.len() >= 1,
    ensures
        poly_eval(roots_poly(roots, m), x, m) == ((x - roots[0]) * poly_eval(
            roots_poly(roots.drop_first(), m),
            x,
            m,
        )) % m,
{
    let rest = roots_poly(roots.drop_first(), m);
    lemma_linear_factor(roots[0], x, m);
    lemma_roots_poly_shape(roots.drop_first(), m);
    if roots.len() == 1 {
        lemma_eval_constant(1, x);
        lemma_small_mod(1, m as nat);
        assert((x - roots[0]) * 1 == x - roots[0]);
    } else {
        lemma_eval_mul(linear_factor(roots[0], m), rest, x, m);
        lemma_mod_twice(x - roots[0], m);
        lemma_mul_congruent((x - roots[0]) % m, x - roots[0], poly_eval(rest, x, m), poly_eval(rest, x, m), m);
    }
}

/// The polynomial with the given roots vanishes at each of them.
pub proof fn lemma_roots_eval_zero(roots: Seq<int>, i: int, x: int, m: int)
    requires
        m > 1,
        0 <= i < roots.len(),
        (x - roots[i]) % m == 0,
    ensures
        poly_eval(roots_poly(roots, m), x, m) == 0,
    decreases roots.len(),
{
    lemma_roots_eval(roots, x, m);
    let e = poly_eval(roots_poly(roots.drop_first(), m), x, m);
    lemma_small_mod(0, m as nat);
    if i == 0 {
        lemma_mul_congruent(x - roots[0], 0, e, e, m);
        assert(0 * e == 0);
    } else {
        lemma_roots_eval_zero(roots.drop_first(), i - 1, x, m);
        assert((x - roots[0]) * 0 == 0);
    }
}

/// Modulo a prime, the polynomial with the given roots vanishes nowhere else.
pub proof fn lemma_roots_eval_nonzero(roots: Seq<int>, x: int, m: int)
    requires
        is_prime(m),
        forall|i: int| 0 <= i < roots.len() ==> (x - #[trigger] roots[i]) % m != 0,
    ensures
        poly_eval(roots_poly(roots, m), x, m) != 0,
    decreases roots.len(),
{
    if roots.len() == 0 {
        lemma_eval_constant(1, x);
        lemma_small_mod(1, m as nat);
    } else {
        lemma_roots_eval(roots, x, m);
        let rest = roots.drop_first();
        assert forall|i: int| 0 <= i < rest.len() implies (x - #[trigger] rest[i]) % m != 0 by {
            assert(rest[i] == roots[i + 1]);
        }
        lemma_roots_eval_nonzero(rest, x, m);
        let e = poly_eval(roots_poly(rest, m), x, m);
        assert((x - roots[0]) % m != 0);
        if ((x - roots[0]) * e) % m == 0 {
            lemma_no_zero_divisors(x - roots[0], e, m);
            lemma_mod_twice(eval_int(roots_poly(rest, m), x), m);
        }
    }
}

/// The polynomial with the given roots is monic, of degree the number of roots.
pub proof fn lemma_roots_poly_monic(roots: Seq<int>, m: int)
    requires
        m > 1,
    ensures
        roots_poly(roots, m).len() == roots.len() + 1,
        roots_poly(roots, m).last() == 1,
    decreases roots.len(),
{
    if roots.len() >= 1 {
        let lin = seq![(m - roots[0]) % m, 1int];
        lemma_canon(lin);
        assert(linear_factor(roots[0], m) == lin);
        if roots.len() >= 2 {
            let rest = roots_poly(roots.drop_first(), m);
            lemma_roots_poly_monic(roots.drop_first(), m);
            let c = mul_coeffs(lin, rest, m);
            let top = rest.len() as int;
            assert(c.len() == top + 1);
            assert(conv_sum(lin, rest, top, 2) == conv_sum(lin, rest, top, 1) + coeff(lin, 1)
                * coeff(rest, top - 1));
            assert(conv_sum(lin, rest, top, 1) == conv_sum(lin, rest, top, 0) + coeff(lin, 0)
                * coeff(rest, top));
            assert(coeff(lin, 0) * 0 == 0);
            assert(1 * 1 == 1);
            lemma_small_mod(1, m as nat);
            assert(c.last() == 1);
            lemma_canon(c);
        }
    }
}

/// Adding the zero polynomial changes nothing.
pub proof fn lemma_poly_add_zero(a: Seq<int>, m: int)
    requires
        m > 0,
        is_canonical(a),
        is_residues(a, m),
    ensures
        poly_add(a, zero_poly(), m) == a,
{
    let s = poly_add(a, zero_poly(), m);
    lemma_ops_residues(a, zero_poly(), m);
    assert forall|i: int| 0 <= i implies coeff(s, i) == coeff(a, i) by {
        lemma_poly_add_coeff(a, zero_poly(), m, i);
        lemma_small_mod(coeff(a, i) as nat, m as nat);
    }
    lemma_canonical_equal(s, a);
}

/// The convolution sum over all of its first polynomial depends only on that
/// polynomial's coefficients, not on how many zeros it ends with.
pub proof fn lemma_conv_same(a: Seq<int>, a2: Seq<int>, b: Seq<int>, k: int)
    requires
        forall|i: int| 0 <= i ==> coeff(a, i) == coeff(a2, i),
    ensures
        conv_sum(a, b, k, a.len() as int) == conv_sum(a2, b, k, a2.len() as int),
{
    let n = if a.len() >= a2.len() {
        a.len() as int
    } else {
        a2.len() as int
    };
    lemma_conv_beyond(a, b, k, n);
    lemma_conv_beyond(a2, b, k, n);
    lemma_conv_prefix(a, a2, b, k, n);
}

/// A polynomial whose coefficients vanish from `bound` on has a canonical form
/// of at most `bound` coefficients, or is zero.
pub proof fn lemma_canon_short(p: Seq<int>, bound: int)
    requires
        0 <= bound,
        forall|i: int| bound <= i ==> coeff(p, i) == 0,
    ensures
        canon(p).len() <= bound || canon(p) == zero_poly(),
    decreases p.len(),
{
    if p.len() == 0 {
    } else if p.len() == 1 {
        if bound == 0 {
            assert(coeff(p, 0) == 0);
            assert(p =~= zero_poly());
        }
    } else if p.last() == 0 {
        assert forall|i: int| bound <= i implies coeff(p.drop_last(), i) == 0 by {
            assert(coeff(p, i) == 0);
        }
        lemma_canon_short(p.drop_last(), bound);
    } else {
        assert(coeff(p, p.len() - 1) != 0);
    }
}

/// The product of a nonzero polynomial and a monic one has the sum of their
/// degrees as its degree.
pub proof fn lemma_mul_monic_len(a: Seq<int>, e: Seq<int>, m: int)
    requires
        m > 1,
        is_canonical(a),
        is_residues(a, m),
        a != zero_poly(),
        e.len() >= 1,
        e.last() == 1,
    ensures
        poly_mul(a, e, m).len() == a.len() + e.len() - 1,
{
    let c = mul_coeffs(a, e, m);
    let top = a.len() + e.len() - 2;
    let n = a.len() as int;
    assert(a.last() != 0) by {
        if a.len() == 1 {
            assert(a =~= seq![a[0]]);
        }
    }
    lemma_conv_high(a, e, top, n - 1);
    assert(conv_sum(a, e, top, n) == conv_sum(a, e, top, n - 1) + coeff(a, n - 1) * coeff(
        e,
        top - (n - 1),
    ));
    assert(a.last() * 1 == a.last());
    lemma_small_mod(a.last() as nat, m as nat);
    assert(c.last() == a.last());
    lemma_canon(c);
}

} // verus!
