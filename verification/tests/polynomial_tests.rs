use berlewelch::field::Gfe;
use berlewelch::polynomial::Polynomial;

fn gfe_poly<const M: u32>(coeffs: &[i64]) -> Polynomial<M> {
    Polynomial::new(coeffs.iter().map(|&x| Gfe::from(x)).collect())
}

fn gfe_poly_const<const M: u32>(constant: i64) -> Polynomial<M> {
    Polynomial::constant(Gfe::from(constant))
}

fn gfe_poly_roots<const M: u32>(roots: &[i64]) -> Polynomial<M> {
    Polynomial::from_roots(&roots.iter().map(|&x| Gfe::from(x)).collect::<Vec<_>>())
}

#[test]
fn add_test() {
    let a = gfe_poly(&[1, 3, 3]);
    let b = gfe_poly(&[2, 5, 3, 2]);
    assert_eq!(a + b, gfe_poly::<19>(&[3, 8, 6, 2]));
}

#[test]
fn multiply_test() {
    let a = Polynomial::from_roots(&[Gfe::from(1), Gfe::from(-3)]);
    let b = Polynomial::from_roots(&[Gfe::from(-2), Gfe::from(-1)]);
    let y = &a * &b;
    let c1 = Polynomial::new(vec![
        Gfe::from(-6),
        Gfe::from(-5),
        Gfe::from(5),
        Gfe::from(5),
        Gfe::from(1),
    ]);
    let c2 = Polynomial::from_roots(&[
        Gfe::<19>::from(1),
        Gfe::from(-3),
        Gfe::from(-2),
        Gfe::from(-1),
    ]);
    assert_eq!(y.coeffs, c1.coeffs);
    assert_eq!(y.coeffs, c2.coeffs);
}

#[test]
fn divide_test() {
    let c = Polynomial::new(vec![
        Gfe::from(-6),
        Gfe::from(-5),
        Gfe::from(5),
        Gfe::from(5),
        Gfe::from(1),
    ]);
    let b = Polynomial::from_roots(&[Gfe::from(-2), Gfe::from(-1)]);
    let y = c.divide(&b);
    let a = Polynomial::from_roots(&[Gfe::from(1), Gfe::from(-3)]);
    assert_eq!(y.0.coeffs, a.coeffs);
    assert_eq!(y.1.coeffs, Polynomial::constant(Gfe::<19>::zero()).coeffs);
}

#[test]
fn divide_test_non_one_leading_coeff() {
    let a = gfe_poly_roots(&[1, 3, 5]);
    let b = gfe_poly_roots(&[3, 5]);
    assert_eq!(a.divide(&b), (gfe_poly_roots(&[1]), Polynomial::<19>::zero()));

    let a = gfe_poly_roots(&[1, 5, 3]) * gfe_poly_const(4);
    let b = gfe_poly_roots(&[1, 5]) * gfe_poly_const(2);
    assert_eq!(
        a.divide(&b),
        (gfe_poly_roots(&[3]) * gfe_poly_const(2), Polynomial::<19>::zero())
    );
}

#[test]
fn new_strips_trailing_zeros() {
    let p = gfe_poly::<19>(&[4, 0, 7, 0, 0]);
    assert_eq!(p.coeffs, vec![Gfe::new(4), Gfe::new(0), Gfe::new(7)]);
    assert_eq!(p.degree(), 2);
}

#[test]
fn new_of_zeros_is_the_single_zero() {
    let p = gfe_poly::<19>(&[0, 0, 0]);
    assert_eq!(p, Polynomial::zero());
    assert_eq!(p.coeffs.len(), 1);
    assert_eq!(p.degree(), 0);
}

#[test]
fn new_of_nothing_is_the_single_zero() {
    let p = Polynomial::<19>::new(Vec::new());
    assert_eq!(p.coeffs, vec![Gfe::zero()]);
}

#[test]
fn single_term() {
    let p = Polynomial::<19>::single(Gfe::new(5), 3);
    assert_eq!(p, gfe_poly(&[0, 0, 0, 5]));
    assert_eq!(Polynomial::<19>::single(Gfe::new(0), 3), Polynomial::zero());
    assert_eq!(Polynomial::<19>::single(Gfe::new(7), 0), gfe_poly_const(7));
}

#[test]
fn eval_is_the_sum_of_terms() {
    // 3 + 2x + x^3 at x = 4: 3 + 8 + 64 = 75 = 18 mod 19
    let p = gfe_poly::<19>(&[3, 2, 0, 1]);
    assert_eq!(p.eval(Gfe::new(4)), Gfe::new(18));
    assert_eq!(p.eval(Gfe::new(0)), Gfe::new(3));
    assert_eq!(Polynomial::<19>::zero().eval(Gfe::new(11)), Gfe::new(0));
}

#[test]
fn negation_negates_each_coefficient() {
    let p = gfe_poly::<19>(&[3, 0, 18]);
    assert_eq!(p.negation(), gfe_poly(&[16, 0, 1]));
    assert_eq!(&p + &p.negation(), Polynomial::zero());
}

#[test]
fn add_cancels_leading_terms() {
    let a = gfe_poly::<19>(&[1, 2, 3]);
    let b = gfe_poly::<19>(&[1, 2, 16]);
    assert_eq!(&a + &b, gfe_poly(&[2, 4]));
}

#[test]
fn from_roots_single_root() {
    assert_eq!(gfe_poly_roots::<19>(&[4]), gfe_poly(&[15, 1]));
}

#[test]
fn from_roots_with_multiplicity() {
    // (x - 2)^2 = x^2 - 4x + 4
    let p = gfe_poly_roots::<19>(&[2, 2]);
    assert_eq!(p, gfe_poly(&[4, 15, 1]));
    assert_eq!(p.eval(Gfe::new(2)), Gfe::new(0));
    assert_eq!(p.eval(Gfe::new(3)), Gfe::new(1));
}

#[test]
fn from_points_single_point_is_constant() {
    let p = Polynomial::<19>::from_points(&[(Gfe::new(7), Gfe::new(11))]);
    assert_eq!(p, gfe_poly_const(11));
}

#[test]
fn from_points_passes_through_the_points() {
    let points: Vec<(Gfe<19>, Gfe<19>)> = vec![
        (Gfe::new(0), Gfe::new(1)),
        (Gfe::new(1), Gfe::new(5)),
        (Gfe::new(2), Gfe::new(3)),
        (Gfe::new(3), Gfe::new(4)),
    ];
    let p = Polynomial::from_points(&points);
    assert!(p.degree() <= 3);
    for (x, y) in &points {
        assert_eq!(p.eval(*x), *y);
    }
    assert_eq!(p, gfe_poly(&[1, 10, 2, 11]));
}

#[test]
fn from_points_reproduces_a_sampled_polynomial() {
    let p = gfe_poly::<29>(&[5, 0, 28, 3]);
    let xs = [2u32, 7, 11, 20];
    let points: Vec<(Gfe<29>, Gfe<29>)> =
        xs.iter().map(|&x| (Gfe::new(x), p.eval(Gfe::new(x)))).collect();
    assert_eq!(Polynomial::from_points(&points), p);
}

#[test]
fn divide_with_remainder() {
    // x^3 + 2x + 5 = (x^2 + 18x + 3)(x + 1) + 2 over GF(19)
    let p = gfe_poly::<19>(&[5, 2, 0, 1]);
    let d = gfe_poly::<19>(&[1, 1]);
    let (q, r) = p.divide(&d);
    assert_eq!(q, gfe_poly(&[3, 18, 1]));
    assert_eq!(r, gfe_poly(&[2]));
    assert_eq!(&(&q * &d) + &r, p);
    assert!(r.degree() < d.degree());
}

#[test]
fn divide_by_a_constant() {
    let p = gfe_poly::<19>(&[4, 6, 10]);
    let d = gfe_poly_const::<19>(2);
    let (q, r) = p.divide(&d);
    assert_eq!(q, gfe_poly(&[2, 3, 5]));
    assert_eq!(r, Polynomial::zero());
}

#[test]
fn divide_a_shorter_dividend() {
    let p = gfe_poly::<19>(&[4, 6]);
    let d = gfe_poly::<19>(&[1, 0, 1]);
    let (q, r) = p.divide(&d);
    assert_eq!(q, Polynomial::zero());
    assert_eq!(r, p);
}

#[test]
fn divide_zero() {
    let d = gfe_poly::<19>(&[1, 1]);
    let (q, r) = Polynomial::<19>::zero().divide(&d);
    assert_eq!(q, Polynomial::zero());
    assert_eq!(r, Polynomial::zero());
}

#[test]
fn equality_is_on_coefficients() {
    assert!(gfe_poly::<19>(&[1, 2]) == gfe_poly::<19>(&[20, 2, 0]));
    assert!(gfe_poly::<19>(&[1, 2]) != gfe_poly::<19>(&[1, 3]));
    assert!(gfe_poly::<19>(&[1, 2]) != gfe_poly::<19>(&[1, 2, 1]));
}
