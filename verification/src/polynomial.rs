//! Dense polynomials over a prime field.
use crate::division::is_division;
use crate::division::is_remainder;
use crate::division::lemma_division_shortens;
use crate::division::lemma_division_start;
use crate::division::lemma_division_step;
use crate::division::lemma_divmod_is;
use crate::division::poly_divmod;
use crate::field::Gfe;
use crate::modular::is_prime;
use crate::modular::lemma_add_congruent;
use crate::modular::lemma_distinct_residues;
use crate::modular::lemma_interpolation_step;
use crate::modular::lemma_inverse_cancels;
use crate::modular::lemma_mul_congruent;
use crate::poly::add_coeffs;
use crate::poly::canon;
use crate::poly::coeff;
use crate::poly::conv_sum;
use crate::poly::eval_int;
use crate::poly::is_canonical;
use crate::poly::is_residues;
use crate::poly::lemma_canon;
use crate::poly::lemma_eval_add;
use crate::poly::lemma_eval_constant;
use crate::poly::lemma_eval_front;
use crate::poly::lemma_eval_mul;
use crate::poly::lemma_linear_factor;
use crate::poly::lemma_roots_eval_nonzero;
use crate::poly::lemma_roots_eval_zero;
use crate::poly::lemma_roots_poly_shape;
use crate::poly::linear_factor;
use crate::poly::mul_coeffs;
use crate::poly::poly_add;
use crate::poly::poly_eval;
use crate::poly::poly_mul;
use crate::poly::poly_neg;
use crate::poly::roots_poly;
use crate::poly::term_coeffs;
use crate::poly::zero_poly;
use crate::roots::interpolant;
use crate::roots::lemma_interpolant_is;
use crate::roots::passes_through;
use vstd::arithmetic::div_mod::lemma_mod_twice;
use vstd::arithmetic::div_mod::lemma_small_mod;
use vstd::prelude::*;
use vstd::std_specs::cmp::PartialEqSpecImpl;
use vstd::std_specs::ops::AddSpecImpl;
use vstd::std_specs::ops::MulSpecImpl;

verus! {

/// The residues that a sequence of field elements holds.
pub open spec fn values<const M: u32>(s: Seq<Gfe<M>>) -> Seq<int> {
    Seq::new(s.len(), |i: int| s[i]@)
}

/// Every element of the sequence is a residue below the modulus.
pub open spec fn all_wf<const M: u32>(s: Seq<Gfe<M>>) -> bool {
    forall|i: int| 0 <= i < s.len() ==> (#[trigger] s[i]).wf()
}

/// The first coordinates of a sequence of points.
pub open spec fn xs_of<const M: u32>(points: Seq<(Gfe<M>, Gfe<M>)>) -> Seq<int> {
    Seq::new(points.len(), |i: int| points[i].0@)
}

/// The second coordinates of a sequence of points.
pub open spec fn ys_of<const M: u32>(points: Seq<(Gfe<M>, Gfe<M>)>) -> Seq<int> {
    Seq::new(points.len(), |i: int| points[i].1@)
}

/// No two entries of the sequence are equal.
pub open spec fn pairwise_distinct(s: Seq<int>) -> bool {
    forall|i: int, j: int| 0 <= i < j < s.len() ==> s[i] != s[j]
}

/// A polynomial by its coefficients, lowest power first, in canonical form.
#[derive(Debug, Clone)]
pub struct Polynomial<const M: u32> {
    pub coeffs: Vec<Gfe<M>>,
}

impl<const M: u32> View for Polynomial<M> {
    type V = Seq<int>;

    /// The coefficients as residues.
    open spec fn view(&self) -> Seq<int> {
        values(self.coeffs@)
    }
}

impl<const M: u32> Polynomial<M> {
    /// The coefficients are field elements and in canonical form.
    pub open spec fn wf(&self) -> bool {
        &&& all_wf(self.coeffs@)
        &&& is_canonical(self@)
    }

    /// The constant polynomial `c`.
    pub fn constant(c: Gfe<M>) -> (r: Self)
        requires
            c.wf(),
        ensures
            r.wf(),
            r@ == seq![c@],
    {
        let mut coeffs = Vec::new();
        coeffs.push(c);
        let r = Self { coeffs };
        assert(r@ =~= seq![c@]);
        r
    }

    /// The zero polynomial.
    pub fn zero() -> (r: Self)
        requires
            M > 0,
        ensures
            r.wf(),
            r@ == zero_poly(),
    {
        Self::constant(Gfe::zero())
    }

    /// The polynomial with the given coefficients, brought into canonical form.
    pub fn new(coeffs: Vec<Gfe<M>>) -> (r: Self)
        requires
            M > 0,
            all_wf(coeffs@),
        ensures
            r.wf(),
            r@ == canon(values(coeffs@)),
    {
        let mut coeffs = coeffs;
        let ghost orig = values(coeffs@);
        while coeffs.len() > 1 && coeffs[coeffs.len() - 1] == Gfe::zero()
            invariant
                M > 0,
                all_wf(coeffs@),
                canon(values(coeffs@)) == canon(orig),
            decreases coeffs.len(),
        {
            let ghost before = values(coeffs@);
            coeffs.pop();
            assert(values(coeffs@) =~= before.drop_last());
        }
        if coeffs.len() == 0 {
            coeffs.push(Gfe::zero());
            assert(values(coeffs@) =~= seq![0int]);
        }
        Self { coeffs }
    }

    /// The single term `c * x^d`.
    pub fn single(c: Gfe<M>, d: usize) -> (r: Self)
        requires
            c.wf(),
            d < usize::MAX,
        ensures
            r.wf(),
            r@ == canon(term_coeffs(c@, d as nat)),
    {
        let mut coeffs: Vec<Gfe<M>> = Vec::new();
        let mut i: usize = 0;
        while i < d
            invariant
                c.wf(),
                i <= d,
                coeffs@.len() == i,
                forall|t: int| 0 <= t < i ==> (#[trigger] coeffs@[t])@ == 0,
            decreases d - i,
        {
            coeffs.push(Gfe::zero());
            i += 1;
        }
        coeffs.push(c);
        assert(values(coeffs@) =~= term_coeffs(c@, d as nat));
        Self::new(coeffs)
    }

    /// The value at `x`, by Horner's rule.
    pub fn eval(&self, x: Gfe<M>) -> (y: Gfe<M>)
        requires
            self.wf(),
            x.wf(),
        ensures
            y.wf(),
            y@ == poly_eval(self@, x@, M as int),
    {
        let n = self.coeffs.len();
        let mut y = Gfe::zero();
        let mut i: usize = n;
        proof {
            lemma_small_mod(0, M as nat);
            assert(self@.subrange(n as int, n as int).len() == 0);
        }
        while i > 0
            invariant
                self.wf(),
                x.wf(),
                y.wf(),
                n == self.coeffs@.len(),
                i <= n,
                y@ == eval_int(self@.subrange(i as int, n as int), x@) % (M as int),
            decreases i,
        {
            let ghost tail = self@.subrange(i as int, n as int);
            i -= 1;
            let c = self.coeffs[i];
            proof {
                let cur = self@.subrange(i as int, n as int);
                assert(cur.drop_first() =~= tail);
                lemma_eval_front(cur, x@);
                let e = eval_int(tail, x@);
                // ((y * x) % M + c) % M is congruent to c + x * e
                lemma_mod_twice(e, M as int);
                lemma_mul_congruent(y@, e, x@, x@, M as int);
                lemma_mod_twice(y@ * x@, M as int);
                lemma_add_congruent((y@ * x@) % (M as int), e * x@, c@, c@, M as int);
                assert(e * x@ + c@ == c@ + x@ * e) by (nonlinear_arith);
            }
            y = y * x + c;
        }
        assert(self@.subrange(0, n as int) =~= self@);
        y
    }

    /// The residues of a well-formed polynomial's coefficients are below the
    /// modulus.
    pub proof fn lemma_residues(&self)
        requires
            self.wf(),
        ensures
            is_residues(self@, M as int),
            M > 0,
    {
        assert(self.coeffs@[0].wf());
        assert forall|i: int| 0 <= i < self@.len() implies 0 <= #[trigger] self@[i] < M by {
            assert(self.coeffs@[i].wf());
        }
    }

    /// The polynomial `x - root`.
    fn linear(root: Gfe<M>) -> (r: Self)
        requires
            M > 1,
            root.wf(),
        ensures
            r.wf(),
            r@ == linear_factor(root@, M as int),
    {
        let mut coeffs: Vec<Gfe<M>> = Vec::new();
        coeffs.push(root.negation());
        coeffs.push(Gfe::one());
        assert(values(coeffs@) =~= seq![(M - root@) % (M as int), 1int]);
        Self::new(coeffs)
    }

    /// The monic polynomial `(x - p[0]) (x - p[1]) ...` with the given roots.
    /// A root given several times becomes a root of that multiplicity.
    pub fn from_roots(p: &[Gfe<M>]) -> (r: Self)
        requires
            M > 1,
            1 <= p@.len() < usize::MAX,
            all_wf(p@),
        ensures
            r.wf(),
            r@ == roots_poly(values(p@), M as int),
    {
        let n = p.len();
        let ghost roots = values(p@);
        let mut i: usize = n - 1;
        let mut acc = Self::linear(p[i]);
        assert(roots.subrange(i as int, n as int).len() == 1);
        while i > 0
            invariant
                M > 1,
                n == p@.len(),
                n < usize::MAX,
                all_wf(p@),
                roots == values(p@),
                i < n,
                acc.wf(),
                acc@ == roots_poly(roots.subrange(i as int, n as int), M as int),
            decreases i,
        {
            let ghost tail = roots.subrange(i as int, n as int);
            i -= 1;
            let base = Self::linear(p[i]);
            proof {
                let cur = roots.subrange(i as int, n as int);
                assert(cur.drop_first() =~= tail);
                assert(cur[0] == p@[i as int]@);
                lemma_roots_poly_shape(tail, M as int);
                lemma_linear_factor(p@[i as int]@, 0, M as int);
            }
            acc = &base * &acc;
        }
        assert(roots.subrange(0, n as int) =~= roots);
        acc
    }

    /// The polynomial of degree below `points.len()` that takes the value
    /// `points[i].1` at `points[i].0` for each `i`. The first coordinates must
    /// differ from each other.
    pub fn from_points(points: &[(Gfe<M>, Gfe<M>)]) -> (r: Self)
        requires
            is_prime(M as int),
            1 <= points@.len(),
            forall|i: int|
                0 <= i < points@.len() ==> (#[trigger] points@[i]).0.wf() && points@[i].1.wf(),
            pairwise_distinct(xs_of(points@)),
        ensures
            r.wf(),
            r@.len() <= points@.len(),
            passes_through(r@, xs_of(points@), ys_of(points@), M as int),
            r@ == interpolant(xs_of(points@), ys_of(points@), M as int),
    {
        let n = points.len();
        let ghost xs = xs_of(points@);
        let ghost ys = ys_of(points@);
        let mut i: usize = n - 1;
        let mut acc = Self::constant(points[i].1);
        proof {
            lemma_eval_constant(ys[i as int], xs[i as int]);
            lemma_small_mod(ys[i as int] as nat, M as nat);
        }
        while i > 0
            invariant
                is_prime(M as int),
                n == points@.len(),
                forall|t: int|
                    0 <= t < points@.len() ==> (#[trigger] points@[t]).0.wf() && points@[t].1.wf(),
                xs == xs_of(points@),
                ys == ys_of(points@),
                pairwise_distinct(xs),
                i < n,
                acc.wf(),
                acc@.len() <= n - i,
                forall|t: int| i <= t < n ==> poly_eval(acc@, #[trigger] xs[t], M as int) == ys[t],
            decreases i,
        {
            i -= 1;
            let rest = Self::first_coordinates(points, i + 1);
            let helper = Self::from_roots(rest.as_slice());
            let x0 = points[i].0;
            let y0 = points[i].1;
            let p0 = acc.eval(x0);
            let z0 = helper.eval(x0);
            proof {
                assert(points@[i as int].0.wf());
                assert forall|t: int| 0 <= t < rest@.len() implies (x0@ - #[trigger] values(
                    rest@,
                )[t]) % (M as int) != 0 by {
                    assert(values(rest@)[t] == xs[i + 1 + t]);
                    assert(points@[i + 1 + t].0.wf());
                    assert(xs[i as int] != xs[i + 1 + t]);
                    lemma_distinct_residues(x0@, xs[i + 1 + t], M as int);
                }
                lemma_roots_eval_nonzero(values(rest@), x0@, M as int);
            }
            let zi = z0.inverse();
            let c = (y0 + p0.negation()) * zi;
            proof {
                lemma_roots_poly_shape(values(rest@), M as int);
            }
            let scaled = &Self::constant(c) * &helper;
            let ghost prev = acc@;
            proof {
                crate::poly::lemma_canon(crate::poly::mul_coeffs(seq![c@], helper@, M as int));
                crate::poly::lemma_canon(add_coeffs(prev, scaled@, M as int));
            }
            acc = &acc + &scaled;
            proof {
                assert forall|t: int| i <= t < n implies poly_eval(acc@, #[trigger] xs[t], M as int)
                    == ys[t] by {
                    let x = xs[t];
                    lemma_eval_add(prev, scaled@, x, M as int);
                    lemma_eval_mul(seq![c@], helper@, x, M as int);
                    lemma_eval_constant(c@, x);
                    lemma_small_mod(c@ as nat, M as nat);
                    let h = poly_eval(helper@, x, M as int);
                    if t == i {
                        lemma_interpolation_step(y0@, p0@, z0@, zi@, M as int);
                        lemma_mod_twice(c@ * z0@, M as int);
                        lemma_add_congruent(p0@, p0@, (c@ * z0@) % (M as int), c@ * z0@, M as int);
                        assert(points@[t].1.wf());
                        lemma_small_mod(y0@ as nat, M as nat);
                    } else {
                        assert(values(rest@)[t - i - 1] == x);
                        lemma_small_mod(0, M as nat);
                        lemma_roots_eval_zero(values(rest@), t - i - 1, x, M as int);
                        assert(c@ * 0 == 0);
                        assert(points@[t].1.wf());
                        lemma_small_mod(ys[t] as nat, M as nat);
                    }
                }
            }
        }
        proof {
            acc.lemma_residues();
            assert forall|t: int| 0 <= t < xs.len() implies 0 <= #[trigger] xs[t] < M by {
                assert(points@[t].0.wf());
            }
            lemma_interpolant_is(acc@, xs, ys, M as int);
        }
        acc
    }

    /// The first coordinates of the points from `start` on.
    fn first_coordinates(points: &[(Gfe<M>, Gfe<M>)], start: usize) -> (r: Vec<Gfe<M>>)
        requires
            start <= points@.len(),
            forall|i: int| 0 <= i < points@.len() ==> (#[trigger] points@[i]).0.wf(),
        ensures
            r@.len() == points@.len() - start,
            all_wf(r@),
            forall|t: int| 0 <= t < r@.len() ==> (#[trigger] r@[t]) == points@[start + t].0,
    {
        let mut r: Vec<Gfe<M>> = Vec::new();
        let mut i: usize = start;
        while i < points.len()
            invariant
                start <= i <= points@.len(),
                forall|t: int| 0 <= t < points@.len() ==> (#[trigger] points@[t]).0.wf(),
                r@.len() == i - start,
                all_wf(r@),
                forall|t: int| 0 <= t < r@.len() ==> (#[trigger] r@[t]) == points@[start + t].0,
            decreases points@.len() - i,
        {
            r.push(points[i].0);
            i += 1;
        }
        r
    }

    /// A copy of the polynomial.
    fn duplicate(&self) -> (r: Self)
        ensures
            r@ == self@,
            self.wf() ==> r.wf(),
    {
        let mut coeffs: Vec<Gfe<M>> = Vec::new();
        let mut i: usize = 0;
        while i < self.coeffs.len()
            invariant
                i <= self.coeffs@.len(),
                coeffs@.len() == i,
                forall|t: int| 0 <= t < i ==> #[trigger] coeffs@[t] == self.coeffs@[t],
            decreases self.coeffs@.len() - i,
        {
            coeffs.push(self.coeffs[i]);
            i += 1;
        }
        let r = Self { coeffs };
        assert(r@ =~= self@);
        assert(r.coeffs@ =~= self.coeffs@);
        r
    }

    /// Whether this is the zero polynomial.
    fn is_zero(&self) -> (r: bool)
        requires
            self.wf(),
        ensures
            r == (self@ == zero_poly()),
    {
        if self.coeffs.len() == 1 && self.coeffs[0] == Gfe::zero() {
            assert(self@ =~= zero_poly());
            true
        } else {
            assert(self@[self@.len() - 1] != 0);
            false
        }
    }

    /// Polynomial long division: the quotient and the remainder of `self` by
    /// `divisor`, which must not be the zero polynomial. The remainder is zero
    /// or of lower degree than the divisor.
    pub fn divide(&self, divisor: &Self) -> (r: (Self, Self))
        requires
            is_prime(M as int),
            self.wf(),
            divisor.wf(),
            divisor@ != zero_poly(),
        ensures
            r.0.wf(),
            r.1.wf(),
            is_division(self@, divisor@, r.0@, r.1@, M as int),
            is_remainder(r.1@, divisor@),
            (r.0@, r.1@) == poly_divmod(self@, divisor@, M as int),
    {
        let mut quotient = Self::constant(Gfe::zero());
        let mut dividend = self.duplicate();
        proof {
            self.lemma_residues();
            divisor.lemma_residues();
            lemma_division_start(self@, divisor@, M as int);
            assert(quotient@ =~= zero_poly());
        }
        let divisor_leading_coeff = divisor.coeffs[divisor.coeffs.len() - 1];
        assert(divisor_leading_coeff@ != 0) by {
            assert(divisor@.last() == divisor_leading_coeff@);
            if divisor@.len() == 1 {
                assert(divisor@ =~= seq![divisor@[0]]);
            }
        }
        let inverse = divisor_leading_coeff.inverse();
        while dividend.coeffs.len() >= divisor.coeffs.len() && !dividend.is_zero()
            invariant
                is_prime(M as int),
                self.wf(),
                divisor.wf(),
                quotient.wf(),
                dividend.wf(),
                divisor_leading_coeff@ == divisor@.last(),
                inverse.wf(),
                (divisor_leading_coeff@ * inverse@) % (M as int) == 1,
                is_division(self@, divisor@, quotient@, dividend@, M as int),
            decreases
                    (if dividend@ == zero_poly() {
                        0
                    } else {
                        dividend@.len()
                    }),
        {
            let dividend_leading_coeff = dividend.coeffs[dividend.coeffs.len() - 1];
            let c = inverse * dividend_leading_coeff;
            let piece = Self::single(c, dividend.degree() - divisor.degree());
            proof {
                dividend.lemma_residues();
                lemma_small_mod(dividend_leading_coeff@ as nat, M as nat);
                lemma_inverse_cancels(
                    divisor_leading_coeff@,
                    inverse@,
                    dividend_leading_coeff@,
                    M as int,
                );
                lemma_division_step(self@, divisor@, quotient@, dividend@, piece@, M as int);
                lemma_division_shortens(dividend@, divisor@, c@, M as int);
                crate::poly::lemma_canon(term_coeffs(c@, (dividend@.len() - divisor@.len()) as nat));
            }
            dividend = &dividend + &(&piece * divisor).negation();
            quotient = &quotient + &piece;
        }
        proof {
            quotient.lemma_residues();
            dividend.lemma_residues();
            lemma_divmod_is(self@, divisor@, quotient@, dividend@, M as int);
        }
        (quotient, dividend)
    }

    /// The degree; that of the zero polynomial counts as 0.
    pub fn degree(&self) -> (r: usize)
        requires
            self.wf(),
        ensures
            r == self@.len() - 1,
    {
        self.coeffs.len() - 1
    }

    /// The additive inverse.
    pub fn negation(&self) -> (r: Self)
        requires
            self.wf(),
        ensures
            r.wf(),
            r@ == poly_neg(self@, M as int),
    {
        let mut coeffs: Vec<Gfe<M>> = Vec::new();
        let mut i: usize = 0;
        while i < self.coeffs.len()
            invariant
                self.wf(),
                i <= self.coeffs@.len(),
                coeffs@.len() == i,
                all_wf(coeffs@),
                forall|t: int|
                    0 <= t < i ==> (#[trigger] coeffs@[t])@ == (M - self.coeffs@[t]@) % (M as int),
            decreases self.coeffs@.len() - i,
        {
            coeffs.push(self.coeffs[i].negation());
            i += 1;
        }
        let r = Self { coeffs };
        proof {
            assert(r@ =~= poly_neg(self@, M as int));
            let l = self@.len() - 1;
            if l > 0 {
                assert(self.coeffs@[l].wf());
                lemma_small_mod((M - self@[l]) as nat, M as nat);
            }
        }
        r
    }
}


impl<const M: u32> Polynomial<M> {
    /// The coefficientwise sum, in canonical form.
    fn sum(&self, rhs: &Self) -> (r: Self)
        requires
            self.wf(),
            rhs.wf(),
        ensures
            r.wf(),
            r@ == poly_add(self@, rhs@, M as int),
    {
        let la = self.coeffs.len();
        let lb = rhs.coeffs.len();
        let n = if la >= lb {
            la
        } else {
            lb
        };
        let mut coeffs: Vec<Gfe<M>> = Vec::new();
        let mut i: usize = 0;
        while i < n
            invariant
                self.wf(),
                rhs.wf(),
                la == self.coeffs@.len(),
                lb == rhs.coeffs@.len(),
                n == add_coeffs(self@, rhs@, M as int).len(),
                i <= n,
                coeffs@.len() == i,
                all_wf(coeffs@),
                forall|t: int|
                    0 <= t < i ==> (#[trigger] coeffs@[t])@ == add_coeffs(self@, rhs@, M as int)[t],
            decreases n - i,
        {
            let mut c = Gfe::zero();
            if i < la {
                c = c + self.coeffs[i];
            }
            if i < lb {
                c = c + rhs.coeffs[i];
            }
            proof {
                let a = coeff(self@, i as int);
                let b = coeff(rhs@, i as int);
                if i < la {
                    assert(self.coeffs@[i as int].wf());
                }
                if i < lb {
                    assert(rhs.coeffs@[i as int].wf());
                }
                lemma_small_mod(a as nat, M as nat);
                lemma_small_mod(0, M as nat);
                lemma_small_mod(b as nat, M as nat);
            }
            coeffs.push(c);
            i += 1;
        }
        assert(values(coeffs@) =~= add_coeffs(self@, rhs@, M as int));
        Polynomial::new(coeffs)
    }

    /// The full convolution of the coefficients, in canonical form.
    fn product(&self, rhs: &Self) -> (r: Self)
        requires
            self.wf(),
            rhs.wf(),
            self@.len() + rhs@.len() - 1 <= usize::MAX,
        ensures
            r.wf(),
            r@ == poly_mul(self@, rhs@, M as int),
    {
        let la = self.coeffs.len();
        let lb = rhs.coeffs.len();
        let n = la + (lb - 1);
        let mut coeffs: Vec<Gfe<M>> = Vec::new();
        let mut t: usize = 0;
        while t < n
            invariant
                M > 0,
                t <= n,
                coeffs@.len() == t,
                all_wf(coeffs@),
                forall|k: int| 0 <= k < t ==> (#[trigger] coeffs@[k])@ == 0,
            decreases n - t,
        {
            coeffs.push(Gfe::zero());
            t += 1;
        }
        proof {
            lemma_small_mod(0, M as nat);
        }
        let mut i: usize = 0;
        while i < la
            invariant
                self.wf(),
                rhs.wf(),
                la == self.coeffs@.len(),
                lb == rhs.coeffs@.len(),
                n == la + lb - 1,
                i <= la,
                coeffs@.len() == n,
                all_wf(coeffs@),
                forall|k: int|
                    0 <= k < n ==> (#[trigger] coeffs@[k])@ == conv_sum(self@, rhs@, k, i as int) % (
                    M as int),
            decreases la - i,
        {
            let mut j: usize = 0;
            while j < lb
                invariant
                    self.wf(),
                    rhs.wf(),
                    la == self.coeffs@.len(),
                    lb == rhs.coeffs@.len(),
                    n == la + lb - 1,
                    i < la,
                    j <= lb,
                    coeffs@.len() == n,
                    all_wf(coeffs@),
                    forall|k: int|
                        0 <= k < n && !(i <= k < i + j) ==> (#[trigger] coeffs@[k])@ == conv_sum(
                            self@,
                            rhs@,
                            k,
                            i as int,
                        ) % (M as int),
                    forall|k: int|
                        i <= k < i + j ==> (#[trigger] coeffs@[k])@ == conv_sum(
                            self@,
                            rhs@,
                            k,
                            i + 1,
                        ) % (M as int),
                decreases lb - j,
            {
                let a = self.coeffs[i];
                let b = rhs.coeffs[j];
                let old_c = coeffs[i + j];
                proof {
                    let s = conv_sum(self@, rhs@, i + j, i as int);
                    lemma_mod_twice(s, M as int);
                    lemma_mod_twice(a@ * b@, M as int);
                    lemma_add_congruent(old_c@, s, (a@ * b@) % (M as int), a@ * b@, M as int);
                    assert(coeff(self@, i as int) == a@);
                    assert(coeff(rhs@, (i + j) - i) == b@);
                }
                coeffs[i + j] = old_c + a * b;
                j += 1;
            }
            proof {
                assert forall|k: int| 0 <= k < n implies (#[trigger] coeffs@[k])@ == conv_sum(
                    self@,
                    rhs@,
                    k,
                    i + 1,
                ) % (M as int) by {
                    if !(i <= k < i + lb) {
                        assert(coeff(rhs@, k - i) == 0);
                        assert(coeff(self@, i as int) * 0 == 0);
                    }
                }
            }
            i += 1;
        }
        assert(values(coeffs@) =~= mul_coeffs(self@, rhs@, M as int));
        Polynomial::new(coeffs)
    }
}

impl<const M: u32> core::ops::Add for &Polynomial<M> {
    type Output = Polynomial<M>;

    /// The coefficientwise sum, in canonical form.
    fn add(self, rhs: Self) -> (r: Polynomial<M>)
        ensures
            r.wf(),
            r@ == poly_add(self@, rhs@, M as int),
    {
        self.sum(rhs)
    }
}

impl<const M: u32> AddSpecImpl for &Polynomial<M> {
    /// A polynomial cannot be built in a specification, so the sum is stated
    /// by `add` itself, over the coefficients.
    open spec fn obeys_add_spec() -> bool {
        false
    }

    open spec fn add_req(self, rhs: Self) -> bool {
        self.wf() && rhs.wf()
    }

    open spec fn add_spec(self, rhs: Self) -> Polynomial<M> {
        *self
    }
}

impl<const M: u32> core::ops::Add for Polynomial<M> {
    type Output = Polynomial<M>;

    /// The coefficientwise sum, in canonical form.
    fn add(self, rhs: Self) -> (r: Polynomial<M>)
        ensures
            r.wf(),
            r@ == poly_add(self@, rhs@, M as int),
    {
        self.sum(&rhs)
    }
}

impl<const M: u32> AddSpecImpl for Polynomial<M> {
    /// A polynomial cannot be built in a specification, so the sum is stated
    /// by `add` itself, over the coefficients.
    open spec fn obeys_add_spec() -> bool {
        false
    }

    open spec fn add_req(self, rhs: Self) -> bool {
        self.wf() && rhs.wf()
    }

    open spec fn add_spec(self, rhs: Self) -> Polynomial<M> {
        self
    }
}

impl<const M: u32> core::ops::Mul for &Polynomial<M> {
    type Output = Polynomial<M>;

    /// The full convolution of the coefficients, in canonical form.
    fn mul(self, rhs: Self) -> (r: Polynomial<M>)
        ensures
            r.wf(),
            r@ == poly_mul(self@, rhs@, M as int),
    {
        self.product(rhs)
    }
}

impl<const M: u32> MulSpecImpl for &Polynomial<M> {
    /// A polynomial cannot be built in a specification, so the product is
    /// stated by `mul` itself, over the coefficients.
    open spec fn obeys_mul_spec() -> bool {
        false
    }

    open spec fn mul_req(self, rhs: Self) -> bool {
        self.wf() && rhs.wf() && self@.len() + rhs@.len() - 1 <= usize::MAX
    }

    open spec fn mul_spec(self, rhs: Self) -> Polynomial<M> {
        *self
    }
}

impl<const M: u32> core::ops::Mul for Polynomial<M> {
    type Output = Polynomial<M>;

    /// The full convolution of the coefficients, in canonical form.
    fn mul(self, rhs: Self) -> (r: Polynomial<M>)
        ensures
            r.wf(),
            r@ == poly_mul(self@, rhs@, M as int),
    {
        self.product(&rhs)
    }
}

impl<const M: u32> MulSpecImpl for Polynomial<M> {
    /// A polynomial cannot be built in a specification, so the product is
    /// stated by `mul` itself, over the coefficients.
    open spec fn obeys_mul_spec() -> bool {
        false
    }

    open spec fn mul_req(self, rhs: Self) -> bool {
        self.wf() && rhs.wf() && self@.len() + rhs@.len() - 1 <= usize::MAX
    }

    open spec fn mul_spec(self, rhs: Self) -> Polynomial<M> {
        self
    }
}

impl<const M: u32> PartialEq for Polynomial<M> {
    /// Equality of the coefficient sequences.
    fn eq(&self, other: &Self) -> (r: bool) {
        if self.coeffs.len() != other.coeffs.len() {
            assert(self@.len() != other@.len());
            return false;
        }
        let mut i: usize = 0;
        while i < self.coeffs.len()
            invariant
                self.coeffs@.len() == other.coeffs@.len(),
                i <= self.coeffs@.len(),
                forall|t: int| 0 <= t < i ==> self@[t] == other@[t],
            decreases self.coeffs@.len() - i,
        {
            if self.coeffs[i] != other.coeffs[i] {
                assert(self@[i as int] != other@[i as int]);
                return false;
            }
            i += 1;
        }
        assert(self@ =~= other@);
        true
    }
}

impl<const M: u32> PartialEqSpecImpl for Polynomial<M> {
    open spec fn obeys_eq_spec() -> bool {
        true
    }

    open spec fn eq_spec(&self, other: &Self) -> bool {
        self@ == other@
    }
}

} // verus!
