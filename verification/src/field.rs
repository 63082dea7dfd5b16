//! Elements of the field of integers modulo a prime `M`.
use core::cmp::Ordering;
use crate::modular::add_mod;
use crate::modular::egcd;
use crate::modular::inverse_mod;
use crate::modular::is_inverse;
use crate::modular::is_prime;
use crate::modular::lemma_bezout_inverse;
use crate::modular::lemma_egcd;
use crate::modular::lemma_inverse_mod_is;
use crate::modular::lemma_pow_mod_nonzero;
use crate::modular::lemma_trunc;
use crate::modular::magnitude;
use crate::modular::mul_mod;
use crate::modular::neg_mod;
use crate::modular::power_mod;
use vstd::arithmetic::div_mod::lemma_fundamental_div_mod;
use vstd::arithmetic::div_mod::lemma_mod_multiples_vanish;
use vstd::arithmetic::div_mod::lemma_mul_mod_noop_general;
use vstd::arithmetic::div_mod::lemma_small_mod;
use vstd::arithmetic::power::lemma_pow0;
use vstd::arithmetic::power::lemma_pow1;
use vstd::arithmetic::power::lemma_pow_adds;
use vstd::arithmetic::power::pow;
use vstd::prelude::*;
use vstd::std_specs::cmp::PartialEqSpecImpl;
use vstd::std_specs::cmp::PartialOrdSpecImpl;
use vstd::std_specs::convert::FromSpecImpl;
use vstd::std_specs::ops::AddSpecImpl;
use vstd::std_specs::ops::MulSpecImpl;

verus! {

/// The field of 19 elements.
pub type Gfe19 = Gfe<19>;

/// The field of 29 elements.
pub type Gfe29 = Gfe<29>;

/// The field of the Mersenne prime `2^31 - 1`.
pub type Gfe2_31 = Gfe<0x7fffffff>;

/// An element of the field of integers modulo `M`, held as its representative in
/// `[0, M)`. `M` must be prime for `inverse` and everything built on it.
#[derive(Clone, Copy, Debug, Eq, Ord)]
pub struct Gfe<const M: u32>(u32);

impl<const M: u32> View for Gfe<M> {
    type V = int;

    /// The representative, as a mathematical integer.
    closed spec fn view(&self) -> int {
        self.0 as int
    }
}

impl<const M: u32> Gfe<M> {
    /// The representative lies in `[0, M)`.
    pub open spec fn wf(&self) -> bool {
        0 <= self@ < M
    }

    /// The element congruent to the integer `x`.
    pub closed spec fn from_int(x: int) -> Self {
        if M == 0 {
            Gfe(0)
        } else {
            Gfe((x % (M as int)) as u32)
        }
    }

    /// `from_int(x)` is the element whose representative is `x mod M`.
    pub proof fn lemma_from_int(x: int)
        requires
            M > 0,
        ensures
            Self::from_int(x).wf(),
            Self::from_int(x)@ == x % (M as int),
    {
    }

    /// Two elements with the same representative are the same element.
    pub proof fn lemma_view_injective(a: Self, b: Self)
        requires
            a@ == b@,
        ensures
            a == b,
    {
    }

    /// A representative always fits the machine word that holds it.
    pub proof fn lemma_view_range(a: Self)
        ensures
            0 <= a@ <= u32::MAX,
    {
    }

    /// The element congruent to `x`.
    pub fn new(x: u32) -> (r: Self)
        requires
            M > 0,
        ensures
            r.wf(),
            r@ == x % M,
    {
        Gfe(x % M)
    }

    /// The additive identity.
    pub fn zero() -> (r: Self)
        requires
            M > 0,
        ensures
            r.wf(),
            r@ == 0,
    {
        Gfe(0)
    }

    /// The multiplicative identity.
    pub fn one() -> (r: Self)
        requires
            M > 1,
        ensures
            r.wf(),
            r@ == 1,
    {
        Gfe(1)
    }

    /// The multiplicative inverse, by the extended Euclidean algorithm on `(self, M)`.
    pub fn inverse(self) -> (r: Self)
        requires
            self.wf(),
            self@ != 0,
            is_prime(M as int),
        ensures
            r.wf(),
            is_inverse(self@, r@, M as int),
            r@ == inverse_mod(self@, M as int),
    {
        let (_d, a, _b) = gcde(self.0 as i64, M as i64);
        proof {
            lemma_bezout_inverse(self@, M as int);
            lemma_inverse_mod_is(self@, (a as int) % (M as int), M as int);
        }
        Self::from(a)
    }

    /// The additive inverse.
    pub fn negation(self) -> (r: Self)
        requires
            self.wf(),
        ensures
            r.wf(),
            r@ == neg_mod(self@, M as int),
    {
        Gfe((M - self.0) % M)
    }

    /// `self` raised to the power `e`; a negative `e` gives the inverse of the
    /// power with exponent `-e`.
    pub fn power(self, e: i32) -> (r: Self)
        requires
            self.wf(),
            M > 1,
            e < 0 ==> self@ != 0 && is_prime(M as int),
        ensures
            r.wf(),
            r@ == power_mod(self@, e as int, M as int),
    {
        if e < 0 {
            let n: u32 = (-(e as i64)) as u32;
            let p = self.power_unsigned(n);
            proof {
                lemma_small_mod(self@ as nat, M as nat);
                lemma_pow_mod_nonzero(self@, n as nat, M as int);
            }
            p.inverse()
        } else {
            self.power_unsigned(e as u32)
        }
    }

    /// Binary exponentiation with a non-negative exponent.
    fn power_unsigned(self, e: u32) -> (r: Self)
        requires
            self.wf(),
            M > 1,
        ensures
            r.wf(),
            r@ == pow(self@, e as nat) % (M as int),
        decreases e,
    {
        if e == 0 {
            proof {
                lemma_pow0(self@);
                lemma_small_mod(1, M as nat);
            }
            return Gfe(1);
        }
        if e == 1 {
            proof {
                lemma_pow1(self@);
                lemma_small_mod(self@ as nat, M as nat);
            }
            return self;
        }
        let h: u32 = e / 2;
        let mut r = self.power_unsigned(h);
        let ghost half = pow(self@, h as nat);
        r = r * r;
        proof {
            lemma_mul_mod_noop_general(half, half, M as int);
            lemma_pow_adds(self@, h as nat, h as nat);
        }
        if e % 2 == 1 {
            r = r * self;
            proof {
                lemma_mul_mod_noop_general(half * half, self@, M as int);
                lemma_pow_adds(self@, (h + h) as nat, 1);
                lemma_pow1(self@);
            }
        }
        r
    }
}

impl<const M: u32> core::ops::Deref for Gfe<M> {
    type Target = u32;

    /// The representative.
    fn deref(&self) -> (r: &u32)
        ensures
            *r == self@,
    {
        &self.0
    }
}

impl<const M: u32> PartialEq for Gfe<M> {
    /// Equality of the representatives.
    fn eq(&self, other: &Self) -> (r: bool) {
        self.0 == other.0
    }
}

impl<const M: u32> PartialEqSpecImpl for Gfe<M> {
    open spec fn obeys_eq_spec() -> bool {
        true
    }

    open spec fn eq_spec(&self, other: &Self) -> bool {
        self@ == other@
    }
}

impl<const M: u32> PartialOrd for Gfe<M> {
    /// The order of the representatives as integers.
    fn partial_cmp(&self, other: &Self) -> (r: Option<Ordering>) {
        if self.0 < other.0 {
            Some(Ordering::Less)
        } else if self.0 == other.0 {
            Some(Ordering::Equal)
        } else {
            Some(Ordering::Greater)
        }
    }
}

impl<const M: u32> PartialOrdSpecImpl for Gfe<M> {
    open spec fn obeys_partial_cmp_spec() -> bool {
        true
    }

    open spec fn partial_cmp_spec(&self, other: &Self) -> Option<Ordering> {
        if self@ < other@ {
            Some(Ordering::Less)
        } else if self@ == other@ {
            Some(Ordering::Equal)
        } else {
            Some(Ordering::Greater)
        }
    }
}

impl<const M: u32> core::ops::Add for Gfe<M> {
    type Output = Gfe<M>;

    /// The sum, computed in 64 bits and reduced.
    fn add(self, rhs: Self) -> (r: Self)
        ensures
            r.wf(),
            r@ == add_mod(self@, rhs@, M as int),
    {
        Gfe(((self.0 as u64 + rhs.0 as u64) % (M as u64)) as u32)
    }
}

impl<const M: u32> AddSpecImpl for Gfe<M> {
    open spec fn obeys_add_spec() -> bool {
        true
    }

    open spec fn add_req(self, rhs: Self) -> bool {
        self.wf() && rhs.wf()
    }

    open spec fn add_spec(self, rhs: Self) -> Self {
        Self::from_int(self@ + rhs@)
    }
}

impl<const M: u32> core::ops::Mul for Gfe<M> {
    type Output = Gfe<M>;

    /// The product, computed in 64 bits and reduced.
    fn mul(self, rhs: Self) -> (r: Self)
        ensures
            r.wf(),
            r@ == mul_mod(self@, rhs@, M as int),
    {
        assert(self.0 * rhs.0 <= u64::MAX) by (nonlinear_arith)
            requires
                self.0 <= u32::MAX,
                rhs.0 <= u32::MAX,
        ;
        Gfe(((self.0 as u64 * rhs.0 as u64) % (M as u64)) as u32)
    }
}

impl<const M: u32> MulSpecImpl for Gfe<M> {
    open spec fn obeys_mul_spec() -> bool {
        true
    }

    open spec fn mul_req(self, rhs: Self) -> bool {
        self.wf() && rhs.wf()
    }

    open spec fn mul_spec(self, rhs: Self) -> Self {
        Self::from_int(self@ * rhs@)
    }
}

impl<const M: u32> From<i64> for Gfe<M> {
    /// Reduces any signed integer into `[0, M)`. A negative `x` first gets the
    /// smallest multiple of `M` added that makes it non-negative. With `M` zero
    /// there are no field elements, and the representative 0 is returned.
    fn from(x: i64) -> (r: Self)
        ensures
            M > 0 ==> r.wf() && r@ == (x as int) % (M as int),
    {
        if M == 0 {
            Gfe(0)
        } else if x < 0 {
            let m: u64 = M as u64;
            // y = -x - 1, which cannot overflow
            let y: u64 = (-(x + 1)) as u64;
            let k: u64 = y / m + 1;
            proof {
                lemma_fundamental_div_mod(y as int, m as int);
                assert(k * m == m * (y / m) + m && k * m == m * k) by (nonlinear_arith)
                    requires
                        k == y / m + 1,
                ;
                assert(0 <= k * m - y - 1 < m);
                assert(k * m - y - 1 == m * k + x);
                lemma_mod_multiples_vanish(k as int, x as int, m as int);
                lemma_small_mod((k * m - y - 1) as nat, m as nat);
            }
            Gfe((k * m - y - 1) as u32)
        } else {
            Gfe((x as u64 % M as u64) as u32)
        }
    }
}

impl<const M: u32> FromSpecImpl<i64> for Gfe<M> {
    open spec fn obeys_from_spec() -> bool {
        true
    }

    open spec fn from_spec(x: i64) -> Self {
        Self::from_int(x as int)
    }
}

/// The extended Euclidean algorithm: returns `(d, s, t)` with
/// `d = s * x + t * y`, where `d` is the greatest common divisor of `x` and `y`
/// if neither is negative. Division rounds toward zero.
pub fn gcde(x: i64, y: i64) -> (r: (i64, i64, i64))
    requires
        i64::MIN < x,
        i64::MIN < y,
    ensures
        (r.0 as int, r.1 as int, r.2 as int) == egcd(x as int, y as int),
        r.0 == r.1 * x + r.2 * y,
        0 <= x && 0 <= y ==> r.0 >= 0,
        0 <= x && 0 <= y && r.0 > 0 ==> x % r.0 == 0 && y % r.0 == 0,
    decreases magnitude(y as int),
{
    proof {
        lemma_egcd(x as int, y as int);
    }
    if y == 0 {
        return (x, 1, 0);
    }
    proof {
        lemma_trunc(x as int, y as int);
    }
    let (q, r) = if y > 0 {
        (x / y, x % y)
    } else {
        (-(x / (-y)), x % (-y))
    };
    let (d, ap, bp) = gcde(y, r);
    proof {
        lemma_egcd(y as int, r as int);
        let ay = magnitude(y as int);
        let aq = magnitude(q as int);
        assert(-(ay * aq) <= bp * q <= ay * aq) by (nonlinear_arith)
            requires
                -ay <= bp <= ay,
                -aq <= q <= aq,
                aq >= 0,
                ay >= 0,
        ;
        assert(ay * aq == aq * ay) by (nonlinear_arith);
        if r == 0 {
            assert(bp * q == 0) by (nonlinear_arith)
                requires
                    bp == 0,
            ;
        }
    }
    (d, bp, ap - bp * q)
}

} // verus!
