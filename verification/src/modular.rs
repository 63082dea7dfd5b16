//! Integer-level definitions of arithmetic modulo `m`, and the facts about them
//! that the field type relies on.
use vstd::arithmetic::div_mod::lemma_add_mod_noop;
use vstd::arithmetic::div_mod::lemma_fundamental_div_mod;
use vstd::arithmetic::div_mod::lemma_mod_multiples_vanish;
use vstd::arithmetic::div_mod::lemma_mod_self_0;
use vstd::arithmetic::div_mod::lemma_mod_twice;
use vstd::arithmetic::div_mod::lemma_mul_mod_noop_general;
use vstd::arithmetic::div_mod::lemma_small_mod;
use vstd::arithmetic::power::lemma_pow_adds;
use vstd::arithmetic::power::pow;
use vstd::prelude::*;

verus! {

/// `m` is a prime number.
pub open spec fn is_prime(m: int) -> bool {
    m >= 2 && forall|d: int| 2 <= d < m ==> #[trigger] (m % d) != 0
}

/// 19 is prime.
pub proof fn lemma_prime_19()
    ensures
        is_prime(19),
{
    assert forall|d: int| 2 <= d < 19 implies #[trigger] (19int % d) != 0 by {
        assert(19int % d != 0) by (nonlinear_arith)
            requires
                2 <= d < 19,
        ;
    }
}

/// 29 is prime.
pub proof fn lemma_prime_29()
    ensures
        is_prime(29),
{
    assert forall|d: int| 2 <= d < 29 implies #[trigger] (29int % d) != 0 by {
        assert(29int % d != 0) by (nonlinear_arith)
            requires
                2 <= d < 29,
        ;
    }
}

/// The sum of two residues.
pub open spec fn add_mod(a: int, b: int, m: int) -> int {
    (a + b) % m
}

/// The product of two residues.
pub open spec fn mul_mod(a: int, b: int, m: int) -> int {
    (a * b) % m
}

/// The additive inverse of a residue.
pub open spec fn neg_mod(a: int, m: int) -> int {
    (m - a) % m
}

/// `b` is the representative in `[0, m)` of the multiplicative inverse of `a` modulo `m`.
pub open spec fn is_inverse(a: int, b: int, m: int) -> bool {
    0 <= b < m && (a * b) % m == 1
}

/// The multiplicative inverse of `a` modulo `m`, where one exists.
pub open spec fn inverse_mod(a: int, m: int) -> int {
    choose|b: int| is_inverse(a, b, m)
}

/// `a` raised to the integer power `e` modulo `m`; a negative exponent inverts.
pub open spec fn power_mod(a: int, e: int, m: int) -> int {
    if e >= 0 {
        pow(a, e as nat) % m
    } else {
        inverse_mod(pow(a, (-e) as nat) % m, m)
    }
}

/// The absolute value.
pub open spec fn magnitude(v: int) -> int {
    if v >= 0 {
        v
    } else {
        -v
    }
}

/// The quotient of `x` by `y`, rounded toward zero.
pub open spec fn trunc_div(x: int, y: int) -> int {
    if x >= 0 {
        if y > 0 {
            x / y
        } else {
            -(x / (-y))
        }
    } else {
        if y > 0 {
            -((-x) / y)
        } else {
            (-x) / (-y)
        }
    }
}

/// The remainder that goes with `trunc_div`; it has the sign of `x`.
pub open spec fn trunc_rem(x: int, y: int) -> int {
    if x >= 0 {
        x % magnitude(y)
    } else {
        -((-x) % magnitude(y))
    }
}

/// The extended Euclidean algorithm: the triple `(d, s, t)` with
/// `d = s * x + t * y` that the classical recursion on `(y, x rem y)` produces.
/// For non-negative `x` and `y`, `d` is their greatest common divisor.
pub open spec fn egcd(x: int, y: int) -> (int, int, int)
    decreases magnitude(y),
{
    if y == 0 {
        (x, 1, 0)
    } else {
        let r = egcd(y, trunc_rem(x, y));
        (r.0, r.2, r.1 - r.2 * trunc_div(x, y))
    }
}

/// `v` is at most `b` in absolute value, or at most 1.
pub open spec fn abs_bound(v: int, b: int) -> bool {
    -b <= v <= b || -1 <= v <= 1
}

/// Division rounded toward zero: quotient times divisor plus remainder gives
/// the dividend back, also in absolute values, and the remainder is smaller
/// than the divisor.
pub proof fn lemma_trunc(x: int, y: int)
    requires
        y != 0,
    ensures
        x == trunc_div(x, y) * y + trunc_rem(x, y),
        magnitude(x) == magnitude(trunc_div(x, y)) * magnitude(y) + magnitude(trunc_rem(x, y)),
        magnitude(trunc_rem(x, y)) < magnitude(y),
        x >= 0 && y > 0 ==> trunc_div(x, y) == x / y && trunc_rem(x, y) == x % y,
        x >= 0 ==> trunc_rem(x, y) >= 0,
{
    let ax = magnitude(x);
    let ay = magnitude(y);
    let q = ax / ay;
    let r = ax % ay;
    lemma_fundamental_div_mod(ax, ay);
    assert(q >= 0) by (nonlinear_arith)
        requires
            ax >= 0,
            ay > 0,
            q == ax / ay,
    ;
    assert(ax == q * ay + r) by (nonlinear_arith)
        requires
            ax == ay * q + r,
    ;
    if x >= 0 && y > 0 {
    } else if x >= 0 {
        assert((-q) * y == q * ay) by (nonlinear_arith)
            requires
                ay == -y,
        ;
    } else if y > 0 {
        assert((-q) * y + (-r) == -(q * ay + r)) by (nonlinear_arith)
            requires
                ay == y,
        ;
    } else {
        assert(q * y + (-r) == -(q * ay + r)) by (nonlinear_arith)
            requires
                ay == -y,
        ;
    }
}

/// What the extended Euclidean algorithm guarantees: the Bezout identity and
/// small coefficients, and for non-negative arguments that the result is not
/// negative and divides both.
pub proof fn lemma_egcd(x: int, y: int)
    ensures
        egcd(x, y).0 == egcd(x, y).1 * x + egcd(x, y).2 * y,
        abs_bound(egcd(x, y).1, magnitude(y)),
        abs_bound(egcd(x, y).2, magnitude(x)),
        0 <= x && 0 <= y ==> egcd(x, y).0 >= 0 && (egcd(x, y).0 == 0 <==> (x == 0 && y == 0)),
        0 <= x && 0 <= y && egcd(x, y).0 > 0 ==> x % egcd(x, y).0 == 0 && y % egcd(x, y).0 == 0,
    decreases magnitude(y),
{
    if y != 0 {
        let r = trunc_rem(x, y);
        let q = trunc_div(x, y);
        lemma_trunc(x, y);
        lemma_egcd(y, r);
        let (d, sp, tp) = egcd(y, r);
        assert(d == tp * x + (sp - tp * q) * y) by (nonlinear_arith)
            requires
                d == sp * y + tp * r,
                x == q * y + r,
        ;
        let ay = magnitude(y);
        let aq = magnitude(q);
        assert(-(ay * aq) <= tp * q <= ay * aq) by (nonlinear_arith)
            requires
                -ay <= tp <= ay,
                -aq <= q <= aq,
                aq >= 0,
                ay >= 0,
        ;
        assert(ay * aq == aq * ay) by (nonlinear_arith);
        if r == 0 {
            assert(egcd(y, 0) == (y, 1int, 0int));
            assert(tp * q == 0) by (nonlinear_arith)
                requires
                    tp == 0,
            ;
        }
        if 0 <= x && 0 <= y {
            assert(d > 0);
            assert(x % d == 0) by {
                lemma_fundamental_div_mod(y, d);
                lemma_fundamental_div_mod(r, d);
                let k = (y / d) * q + r / d;
                assert(x == d * k) by (nonlinear_arith)
                    requires
                        x == q * y + r,
                        y == d * (y / d),
                        r == d * (r / d),
                        k == (y / d) * q + r / d,
                ;
                lemma_mod_multiples_vanish(k, 0, d);
                lemma_small_mod(0, d as nat);
            }
        }
    }
}

/// Modulo a prime, the Bezout coefficient of a nonzero residue is its inverse.
pub proof fn lemma_bezout_inverse(a: int, m: int)
    requires
        is_prime(m),
        0 < a < m,
    ensures
        egcd(a, m).0 == 1,
        is_inverse(a, egcd(a, m).1 % m, m),
{
    lemma_egcd(a, m);
    let (d, s, t) = egcd(a, m);
    assert(d <= a) by {
        if d > a {
            lemma_small_mod(a as nat, d as nat);
        }
    }
    assert(d == 1);
    assert((s * a) % m == 1) by {
        lemma_mod_multiples_vanish(-t, s * a + t * m, m);
        assert(m * (-t) + (s * a + t * m) == s * a) by (nonlinear_arith);
        lemma_small_mod(1, m as nat);
    }
    lemma_mul_mod_noop_general(a, s, m);
    assert(a * s == s * a) by (nonlinear_arith);
}

/// A residue has at most one inverse.
pub proof fn lemma_inverse_unique(a: int, b: int, c: int, m: int)
    requires
        is_inverse(a, b, m),
        is_inverse(a, c, m),
    ensures
        b == c,
{
    // b = b * (a * c) = (b * a) * c = c, all modulo m
    assert(m > 1);
    lemma_mul_mod_noop_general(b, a * c, m);
    lemma_mul_mod_noop_general(a * b, c, m);
    assert(b * (a * c) == (a * b) * c) by (nonlinear_arith);
    lemma_small_mod(b as nat, m as nat);
    lemma_small_mod(c as nat, m as nat);
    assert((b * 1) % m == b);
    assert((1 * c) % m == c);
}

/// Whatever inverse a computation finds is the one that `inverse_mod` names.
pub proof fn lemma_inverse_mod_is(a: int, b: int, m: int)
    requires
        is_inverse(a, b, m),
    ensures
        inverse_mod(a, m) == b,
{
    lemma_inverse_unique(a, b, inverse_mod(a, m), m);
}

/// Sums of congruent numbers are congruent.
pub proof fn lemma_add_congruent(a1: int, a2: int, b1: int, b2: int, m: int)
    requires
        m > 0,
        a1 % m == a2 % m,
        b1 % m == b2 % m,
    ensures
        (a1 + b1) % m == (a2 + b2) % m,
{
    lemma_add_mod_noop(a1, b1, m);
    lemma_add_mod_noop(a2, b2, m);
}

/// Products of congruent numbers are congruent.
pub proof fn lemma_mul_congruent(a1: int, a2: int, b1: int, b2: int, m: int)
    requires
        m > 0,
        a1 % m == a2 % m,
        b1 % m == b2 % m,
    ensures
        (a1 * b1) % m == (a2 * b2) % m,
{
    lemma_mul_mod_noop_general(a1, b1, m);
    lemma_mul_mod_noop_general(a2, b2, m);
}

/// Distinct residues differ modulo `m`.
pub proof fn lemma_distinct_residues(a: int, b: int, m: int)
    requires
        0 <= a < m,
        0 <= b < m,
        a != b,
    ensures
        (a - b) % m != 0,
{
    if a > b {
        lemma_small_mod((a - b) as nat, m as nat);
    } else {
        lemma_small_mod((a - b + m) as nat, m as nat);
        lemma_mod_multiples_vanish(1, a - b, m);
    }
}

/// The correction that makes an interpolant pass through one more point: with
/// `p0` the value so far, `z0` the value of the helper polynomial and `zi` its
/// inverse, adding `c` times the helper yields `y0`.
pub proof fn lemma_interpolation_step(y0: int, p0: int, z0: int, zi: int, m: int)
    requires
        m > 0,
        (z0 * zi) % m == 1,
    ensures
        (p0 + ((((y0 + (m - p0) % m) % m) * zi) % m) * z0) % m == y0 % m,
{
    let diff = (y0 + (m - p0) % m) % m;
    let c = (diff * zi) % m;
    // diff is congruent to y0 - p0
    lemma_mod_twice(m - p0, m);
    lemma_add_congruent(y0, y0, (m - p0) % m, m - p0, m);
    lemma_mod_multiples_vanish(1, y0 - p0, m);
    lemma_mod_twice(y0 + (m - p0) % m, m);
    assert(diff % m == (y0 - p0) % m);
    // c * z0 is congruent to diff * (zi * z0), that is to diff
    lemma_mod_twice(diff * zi, m);
    lemma_mul_congruent(c, diff * zi, z0, z0, m);
    assert((diff * zi) * z0 == diff * (z0 * zi)) by (nonlinear_arith);
    lemma_mod_twice(z0 * zi, m);
    assert(m > 1) by {
        if m == 1 {
            assert((z0 * zi) % 1 == 0);
        }
    }
    lemma_small_mod(1, m as nat);
    lemma_mul_congruent(diff, y0 - p0, z0 * zi, 1, m);
    assert((y0 - p0) * 1 == y0 - p0);
    lemma_add_congruent(p0, p0, c * z0, y0 - p0, m);
}

/// Scaling by the inverse of `d` and then by `d` gives the value back.
pub proof fn lemma_inverse_cancels(d: int, di: int, r: int, m: int)
    requires
        m > 0,
        (d * di) % m == 1,
    ensures
        (((di * r) % m) * d) % m == r % m,
{
    lemma_mod_twice(di * r, m);
    lemma_mul_congruent((di * r) % m, di * r, d, d, m);
    assert((di * r) * d == (d * di) * r) by (nonlinear_arith);
    assert(m > 1) by {
        if m == 1 {
            assert((d * di) % 1 == 0);
        }
    }
    lemma_small_mod(1, m as nat);
    lemma_mul_congruent(d * di, 1, r, r, m);
    assert(1 * r == r);
}

/// Modulo a prime every nonzero residue has an inverse, and `inverse_mod` names it.
pub proof fn lemma_inverse_exists(a: int, m: int)
    requires
        is_prime(m),
        0 < a < m,
    ensures
        is_inverse(a, inverse_mod(a, m), m),
{
    lemma_bezout_inverse(a, m);
}

/// Modulo a prime a product vanishes only if a factor does.
pub proof fn lemma_no_zero_divisors(x: int, y: int, m: int)
    requires
        is_prime(m),
        (x * y) % m == 0,
    ensures
        x % m == 0 || y % m == 0,
{
    let a = x % m;
    if a != 0 {
        lemma_inverse_exists(a, m);
        let b = inverse_mod(a, m);
        // y = (b * a) * y = b * (x * y) = 0, all modulo m
        lemma_mul_mod_noop_general(a * b, y, m);
        lemma_mul_mod_noop_general(x, b, m);
        assert(a * b == b * a && x * b == b * x) by (nonlinear_arith);
        lemma_mul_mod_noop_general(b * x, y, m);
        lemma_mul_mod_noop_general(b, x * y, m);
        assert((b * x) * y == b * (x * y)) by (nonlinear_arith);
        assert((b * 0) % m == 0) by {
            lemma_small_mod(0, m as nat);
        }
        assert(1 * (y % m) == y % m);
        lemma_mod_twice(y, m);
    }
}

/// Modulo a prime the powers of a nonzero residue are nonzero.
pub proof fn lemma_pow_mod_nonzero(a: int, n: nat, m: int)
    requires
        is_prime(m),
        a % m != 0,
    ensures
        pow(a, n) % m != 0,
    decreases n,
{
    reveal(pow);
    if n == 0 {
        lemma_small_mod(1, m as nat);
    } else {
        lemma_pow_mod_nonzero(a, (n - 1) as nat, m);
        if (a * pow(a, (n - 1) as nat)) % m == 0 {
            lemma_no_zero_divisors(a, pow(a, (n - 1) as nat), m);
        }
    }
}

/// Addition in the field is commutative.
pub proof fn lemma_add_commutative(a: int, b: int, m: int)
    ensures
        add_mod(a, b, m) == add_mod(b, a, m),
{
}

/// Addition in the field is associative.
pub proof fn lemma_add_associative(a: int, b: int, c: int, m: int)
    requires
        m > 0,
    ensures
        add_mod(add_mod(a, b, m), c, m) == add_mod(a, add_mod(b, c, m), m),
{
    lemma_mod_twice(a + b, m);
    lemma_mod_twice(b + c, m);
    lemma_add_congruent((a + b) % m, a + b, c, c, m);
    lemma_add_congruent(a, a, (b + c) % m, b + c, m);
}

/// Multiplication in the field is commutative.
pub proof fn lemma_mul_commutative(a: int, b: int, m: int)
    ensures
        mul_mod(a, b, m) == mul_mod(b, a, m),
{
    assert(a * b == b * a) by (nonlinear_arith);
}

/// Multiplication in the field is associative.
pub proof fn lemma_mul_associative(a: int, b: int, c: int, m: int)
    requires
        m > 0,
    ensures
        mul_mod(mul_mod(a, b, m), c, m) == mul_mod(a, mul_mod(b, c, m), m),
{
    lemma_mod_twice(a * b, m);
    lemma_mod_twice(b * c, m);
    lemma_mul_congruent((a * b) % m, a * b, c, c, m);
    lemma_mul_congruent(a, a, (b * c) % m, b * c, m);
    assert((a * b) * c == a * (b * c)) by (nonlinear_arith);
}

/// A field element plus its negation is zero.
pub proof fn lemma_add_negation(a: int, m: int)
    requires
        0 <= a < m,
    ensures
        add_mod(a, neg_mod(a, m), m) == 0,
{
    if a == 0 {
        lemma_mod_self_0(m);
        lemma_small_mod(0, m as nat);
    } else {
        lemma_small_mod((m - a) as nat, m as nat);
        lemma_mod_self_0(m);
    }
}

/// Modulo a prime, a nonzero field element times its inverse is one.
pub proof fn lemma_mul_inverse(a: int, m: int)
    requires
        is_prime(m),
        0 < a < m,
    ensures
        mul_mod(a, inverse_mod(a, m), m) == 1,
        0 < inverse_mod(a, m) < m,
{
    lemma_inverse_exists(a, m);
    if inverse_mod(a, m) == 0 {
        assert(a * 0 == 0);
        lemma_small_mod(0, m as nat);
    }
}

/// The inverse of a product is the product of the inverses.
pub proof fn lemma_inverse_of_product(x: int, y: int, m: int)
    requires
        is_prime(m),
        0 < x < m,
        0 < y < m,
    ensures
        mul_mod(x, y, m) != 0,
        inverse_mod(mul_mod(x, y, m), m) == mul_mod(inverse_mod(x, m), inverse_mod(y, m), m),
{
    let xi = inverse_mod(x, m);
    let yi = inverse_mod(y, m);
    lemma_mul_inverse(x, m);
    lemma_mul_inverse(y, m);
    lemma_small_mod(x as nat, m as nat);
    lemma_small_mod(y as nat, m as nat);
    if (x * y) % m == 0 {
        lemma_no_zero_divisors(x, y, m);
    }
    // (x * y) * (xi * yi) = (x * xi) * (y * yi) = 1
    lemma_mod_twice(x * y, m);
    lemma_mod_twice(xi * yi, m);
    lemma_mul_congruent((x * y) % m, x * y, (xi * yi) % m, xi * yi, m);
    assert((x * y) * (xi * yi) == (x * xi) * (y * yi)) by (nonlinear_arith);
    lemma_small_mod(1, m as nat);
    lemma_mul_congruent(x * xi, 1, y * yi, 1, m);
    assert(1 * 1 == 1);
    lemma_inverse_mod_is((x * y) % m, (xi * yi) % m, m);
}

/// The residue of a power, for a non-negative exponent.
pub open spec fn pow_mod(a: int, e: nat, m: int) -> int {
    pow(a, e) % m
}

/// The powers of a residue multiply as the exponents add.
proof fn lemma_pow_mod_adds(a: int, e1: nat, e2: nat, m: int)
    requires
        m > 0,
    ensures
        pow_mod(a, e1 + e2, m) == mul_mod(pow_mod(a, e1, m), pow_mod(a, e2, m), m),
{
    lemma_pow_adds(a, e1, e2);
    lemma_mul_mod_noop_general(pow(a, e1), pow(a, e2), m);
}

/// The power law where the first exponent is non-negative and the second is
/// negative.
proof fn lemma_power_adds_mixed(a: int, e1: int, e2: int, m: int)
    requires
        is_prime(m),
        0 < a < m,
        e1 >= 0,
        e2 < 0,
    ensures
        power_mod(a, e1 + e2, m) == mul_mod(power_mod(a, e1, m), power_mod(a, e2, m), m),
{
    lemma_small_mod(a as nat, m as nat);
    let p1 = pow_mod(a, e1 as nat, m);
    let p2 = pow_mod(a, (-e2) as nat, m);
    lemma_pow_mod_nonzero(a, e1 as nat, m);
    lemma_pow_mod_nonzero(a, (-e2) as nat, m);
    lemma_mul_inverse(p2, m);
    let i2 = inverse_mod(p2, m);
    let x = mul_mod(p1, i2, m);
    if e1 + e2 >= 0 {
        // p1 = p3 * p2, so p1 * i2 = p3 * (p2 * i2) = p3
        let p3 = pow_mod(a, (e1 + e2) as nat, m);
        lemma_pow_mod_adds(a, (e1 + e2) as nat, (-e2) as nat, m);
        assert(p1 == mul_mod(p3, p2, m));
        lemma_mul_associative(p3, p2, i2, m);
        lemma_small_mod(p3 as nat, m as nat);
        assert(p3 * 1 == p3);
    } else {
        // p2 = p1 * p3, so p3 * (p1 * i2) = (p3 * p1) * i2 = p2 * i2 = 1
        let p3 = pow_mod(a, (-(e1 + e2)) as nat, m);
        lemma_pow_mod_nonzero(a, (-(e1 + e2)) as nat, m);
        lemma_pow_mod_adds(a, (-(e1 + e2)) as nat, e1 as nat, m);
        assert(p2 == mul_mod(p3, p1, m));
        lemma_mul_associative(p3, p1, i2, m);
        lemma_inverse_mod_is(p3, x, m);
    }
}

/// The powers of a field element multiply as the exponents add. A negative
/// exponent asks for a nonzero element.
pub proof fn lemma_power_adds(a: int, e1: int, e2: int, m: int)
    requires
        is_prime(m),
        0 <= a < m,
        a != 0 || (e1 >= 0 && e2 >= 0),
    ensures
        power_mod(a, e1 + e2, m) == mul_mod(power_mod(a, e1, m), power_mod(a, e2, m), m),
{
    if e1 >= 0 && e2 >= 0 {
        lemma_pow_mod_adds(a, e1 as nat, e2 as nat, m);
    } else if e1 >= 0 {
        lemma_power_adds_mixed(a, e1, e2, m);
    } else if e2 >= 0 {
        lemma_power_adds_mixed(a, e2, e1, m);
        lemma_mul_commutative(power_mod(a, e1, m), power_mod(a, e2, m), m);
    } else {
        lemma_small_mod(a as nat, m as nat);
        let p1 = pow_mod(a, (-e1) as nat, m);
        let p2 = pow_mod(a, (-e2) as nat, m);
        lemma_pow_mod_nonzero(a, (-e1) as nat, m);
        lemma_pow_mod_nonzero(a, (-e2) as nat, m);
        lemma_pow_mod_adds(a, (-e1) as nat, (-e2) as nat, m);
        lemma_inverse_of_product(p1, p2, m);
    }
}

} // verus!
