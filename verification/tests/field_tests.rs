use berlewelch::field::gcde;
use berlewelch::field::Gfe;
use berlewelch::field::Gfe2_31;

type F = Gfe<19>;

#[test]
fn from_reduces_non_negative_integers() {
    assert_eq!(*F::from(0), 0);
    assert_eq!(*F::from(18), 18);
    assert_eq!(*F::from(19), 0);
    assert_eq!(*F::from(40), 2);
    assert_eq!(*F::from(i64::MAX), (i64::MAX % 19) as u32);
}

#[test]
fn from_reduces_negative_integers_into_range() {
    assert_eq!(*F::from(-1), 18);
    assert_eq!(*F::from(-3), 16);
    assert_eq!(*F::from(-19), 0);
    assert_eq!(*F::from(-20), 18);
    assert_eq!(*F::from(-38), 0);
    // -2^63 = 1 mod 19
    assert_eq!(*F::from(i64::MIN), 1);
    assert_eq!(*F::from(i64::MIN + 1), 2);
}

#[test]
fn new_reduces() {
    assert_eq!(F::new(6), F::from(6));
    assert_eq!(F::new(25), F::from(6));
    assert_eq!(*F::new(u32::MAX), u32::MAX % 19);
}

#[test]
fn zero_and_one() {
    assert_eq!(*F::zero(), 0);
    assert_eq!(*F::one(), 1);
}

#[test]
fn add_and_multiply_reduce() {
    assert_eq!(F::new(12) + F::new(11), F::new(4));
    assert_eq!(F::new(12) * F::new(11), F::new(18));
    let a = Gfe2_31::new(0x7ffffffe);
    assert_eq!(a + a, Gfe2_31::new(0x7ffffffd));
    assert_eq!(a * a, Gfe2_31::new(1));
}

#[test]
fn add_and_multiply_are_commutative_and_associative() {
    for a in 0..19 {
        for b in 0..19 {
            let (x, y) = (F::new(a), F::new(b));
            assert_eq!(x + y, y + x);
            assert_eq!(x * y, y * x);
            for c in 0..19 {
                let z = F::new(c);
                assert_eq!((x + y) + z, x + (y + z));
                assert_eq!((x * y) * z, x * (y * z));
            }
        }
    }
}

#[test]
fn negation_is_the_additive_inverse() {
    assert_eq!(F::new(0).negation(), F::new(0));
    assert_eq!(F::new(5).negation(), F::new(14));
    for a in 0..19 {
        assert_eq!(F::new(a) + F::new(a).negation(), F::zero());
    }
}

#[test]
fn inverse_is_the_multiplicative_inverse() {
    assert_eq!(F::new(1).inverse(), F::new(1));
    assert_eq!(F::new(2).inverse(), F::new(10));
    assert_eq!(F::new(7).inverse(), F::new(11));
    assert_eq!(F::new(18).inverse(), F::new(18));
    for a in 1..19 {
        assert_eq!(F::new(a) * F::new(a).inverse(), F::one());
    }
    assert_eq!(Gfe2_31::new(5).inverse(), Gfe2_31::new(858993459));
}

#[test]
fn power_by_squaring() {
    assert_eq!(F::new(3).power(5), F::new(15));
    assert_eq!(F::new(2).power(10), F::new(17));
    assert_eq!(F::new(7).power(1), F::new(7));
    assert_eq!(F::new(7).power(18), F::new(1));
}

#[test]
fn power_zero_is_one() {
    assert_eq!(F::new(0).power(0), F::one());
    assert_eq!(F::new(5).power(0), F::one());
    assert_eq!(F::new(0).power(3), F::zero());
}

#[test]
fn power_with_negative_exponent_inverts() {
    assert_eq!(F::new(3).power(-1), F::new(13));
    assert_eq!(F::new(3).power(-4), F::new(4));
    assert_eq!(F::new(3).power(-4), F::new(3).power(4).inverse());
    // the order of the multiplicative group is 18, and 2^31 = 2 mod 18
    assert_eq!(F::new(3).power(i32::MIN), F::new(3).power(2).inverse());
}

#[test]
fn power_of_a_sum_of_exponents() {
    for a in 1..19 {
        for e1 in -5..6 {
            for e2 in -5..6 {
                let x = F::new(a);
                assert_eq!(x.power(e1 + e2), x.power(e1) * x.power(e2));
            }
        }
    }
}

#[test]
fn ordering_is_on_representatives() {
    assert!(F::new(3) < F::new(4));
    assert!(F::new(18) > F::new(0));
    assert!(F::new(22) == F::new(3));
    assert_eq!(F::new(3).max(F::new(17)), F::new(17));
    assert_eq!(F::new(3).partial_cmp(&F::new(3)), Some(std::cmp::Ordering::Equal));
}

#[test]
fn gcde_gives_bezout_coefficients() {
    assert_eq!(gcde(240, 46), (2, -9, 47));
    assert_eq!(gcde(7, 19), (1, -8, 3));
    assert_eq!(gcde(12, 18), (6, -1, 1));
    let (d, a, b) = gcde(1071, 462);
    assert_eq!(d, 21);
    assert_eq!(a * 1071 + b * 462, 21);
}

#[test]
fn gcde_with_a_zero_argument() {
    assert_eq!(gcde(5, 0), (5, 1, 0));
    assert_eq!(gcde(0, 5), (5, 0, 1));
    assert_eq!(gcde(0, 0), (0, 1, 0));
}

#[test]
fn gcde_with_negative_arguments() {
    assert_eq!(gcde(-240, 46), (2, 9, 47));
    assert_eq!(gcde(240, -46), (-2, 9, 47));
    assert_eq!(gcde(-240, -46), (-2, -9, 47));
    assert_eq!(gcde(-7, 0), (-7, 1, 0));
    assert_eq!(gcde(0, -7), (-7, 0, 1));
    for (x, y) in [(-5, 3), (i64::MAX, -i64::MAX), (-i64::MAX, 2), (1071, -462)] {
        let (d, a, b) = gcde(x, y);
        assert_eq!(d as i128, a as i128 * x as i128 + b as i128 * y as i128);
    }
}
