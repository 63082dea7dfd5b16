//! Why decoding corrects: a received word with at most `k` errors decodes to the
//! codeword it came from, and no word decodes to anything but a codeword.
use crate::berlekamp_welch::bw_matrix;
use crate::berlekamp_welch::decode_from;
use crate::berlekamp_welch::e_coeffs;
use crate::berlekamp_welch::lemma_bw_row;
use crate::berlekamp_welch::q_coeffs;
use crate::berlekamp_welch::q_determined;
use crate::berlekamp_welch::samples;
use crate::berlekamp_welch::unknown;
use crate::division::lemma_divmod;
use crate::division::lemma_divmod_is;
use crate::division::poly_divmod;
use crate::echelon::free_vector;
use crate::echelon::has_pivot;
use crate::echelon::is_reduction;
use crate::echelon::lemma_free_vector;
use crate::echelon::lemma_leading_exists;
use crate::echelon::lemma_rref_pivot;
use crate::echelon::lemma_rref_pivot_row;
use crate::echelon::pivot_row;
use crate::linear::dot;
use crate::linear::in_kernel;
use crate::linear::is_matrix;
use crate::linear::is_residue_row;
use crate::linear::is_rref;
use crate::linear::leading;
use crate::linear::lemma_dot_two_terms;
use crate::modular::is_prime;
use crate::modular::lemma_distinct_residues;
use crate::modular::lemma_mul_congruent;
use crate::poly::canon;
use crate::poly::coeff;
use crate::poly::eval_int;
use crate::poly::is_canonical;
use crate::poly::is_residues;
use crate::poly::lemma_canon;
use crate::poly::lemma_canon_residues;
use crate::poly::lemma_canonical_equal;
use crate::poly::lemma_eval_mul;
use crate::poly::lemma_eval_pad;
use crate::poly::lemma_mul_monic_len;
use crate::poly::lemma_ops_residues;
use crate::poly::lemma_poly_add_zero;
use crate::poly::lemma_roots_eval_zero;
use crate::poly::lemma_roots_poly_monic;
use crate::poly::mul_coeffs;
use crate::poly::pad;
use crate::poly::poly_eval;
use crate::poly::poly_mul;
use crate::poly::roots_poly;
use crate::poly::zero_poly;
use crate::roots::combine;
use crate::roots::distinct_residues;
use crate::roots::lemma_eval_combine;
use crate::roots::lemma_too_many_roots;
use vstd::arithmetic::div_mod::lemma_mod_twice;
use vstd::arithmetic::div_mod::lemma_mul_mod_noop_general;
use vstd::arithmetic::div_mod::lemma_small_mod;
use vstd::arithmetic::div_mod::lemma_sub_mod_noop;
use vstd::arithmetic::power::pow;
use vstd::prelude::*;

verus! {

/// The vector of unknowns that a decoder reads off the reduced system: the
/// value of each unknown, and -1 for the right-hand side.
pub open spec fn solution(a: Seq<Seq<int>>, z: int) -> Seq<int> {
    Seq::new((z + 1) as nat, |c: int| if c < z { unknown(a, c, z) } else { -1 })
}

/// The last column of a reduced system that has a solution holds no pivot.
pub proof fn lemma_consistent(a: Seq<Seq<int>>, z: int, w: Seq<int>, m: int, i: int)
    requires
        m > 1,
        0 <= z,
        is_rref(a),
        is_matrix(a, a.len() as int, z + 1, m),
        w.len() == z + 1,
        w[z] == -1,
        in_kernel(a, w, m),
        0 <= i < a.len(),
    ensures
        leading(a[i]) != z,
{
    let row = a[i];
    lemma_leading_exists(row);
    if leading(row) == z {
        assert forall|j: int| 0 <= j < row.len() && j != z && j != -1 implies #[trigger] row[j]
            * w[j] == 0 by {
            assert(row[j] == 0);
            assert(0 * w[j] == 0);
        }
        lemma_dot_two_terms(row, w, z, -1);
        assert(row[z] == 1);
        assert(1 * w[z] == -1);
        assert(dot(row, w) % m == 0);
        lemma_small_mod((m - 1) as nat, m as nat);
        vstd::arithmetic::div_mod::lemma_mod_multiples_vanish(1, -1, m);
    }
}

/// If the reduced system has a solution at all, the vector that the decoder
/// reads off is one.
pub proof fn lemma_solution_in_kernel(a: Seq<Seq<int>>, z: int, w: Seq<int>, m: int)
    requires
        m > 1,
        0 <= z,
        is_rref(a),
        is_matrix(a, a.len() as int, z + 1, m),
        w.len() == z + 1,
        w[z] == -1,
        in_kernel(a, w, m),
    ensures
        in_kernel(a, solution(a, z), m),
{
    let s = solution(a, z);
    assert forall|i: int| 0 <= i < a.len() implies #[trigger] dot(a[i], s) % m == 0 by {
        let row = a[i];
        let c = leading(row);
        lemma_leading_exists(row);
        lemma_consistent(a, z, w, m, i);
        lemma_small_mod(0, m as nat);
        if c == z + 1 {
            assert forall|j: int| 0 <= j < row.len() && j != -1 && j != -2 implies #[trigger] row[j]
                * s[j] == 0 by {
                assert(row[j] == 0);
                assert(0 * s[j] == 0);
            }
            lemma_dot_two_terms(row, s, -1, -2);
        } else {
            lemma_rref_pivot(a, i);
            assert forall|j: int| 0 <= j < row.len() && j != c && j != z implies #[trigger] row[j]
                * s[j] == 0 by {
                if has_pivot(a, j) {
                    lemma_rref_pivot_row(a, j, z + 1);
                    let other = pivot_row(a, j);
                    assert(other != i);
                    assert(a[i][leading(a[other])] == 0);
                    assert(0 * s[j] == 0);
                } else {
                    assert(s[j] == 0);
                    assert(row[j] * 0 == 0);
                }
            }
            lemma_dot_two_terms(row, s, c, z);
            assert(s[c] == row[z]);
            assert(row[c] == 1);
            assert(1 * row[z] + row[z] * (-1) == 0) by (nonlinear_arith);
        }
    }
}

/// The positions `0, 1, ..., z - 1` as field elements.
pub open spec fn positions(z: int) -> Seq<int> {
    Seq::new(z as nat, |i: int| i)
}

/// If the system has a solution at all, its reduced form determines every
/// coefficient of `Q`: a free coefficient would give a nonzero polynomial of
/// degree below `z - k` that vanishes at all `z` positions.
pub proof fn lemma_q_determined(recv: Seq<int>, k: int, red: Seq<Seq<int>>, w: Seq<int>, m: int)
    requires
        is_prime(m),
        0 <= k,
        2 * k <= recv.len(),
        recv.len() <= m,
        is_reduction(bw_matrix(recv, k, m), red, recv.len() as int + 1, m),
        w.len() == recv.len() + 1,
        w[recv.len() as int] == -1,
        in_kernel(bw_matrix(recv, k, m), w, m),
    ensures
        q_determined(red, k, recv.len() as int),
{
    let z = recv.len() as int;
    let bw = bw_matrix(recv, k, m);
    assert(in_kernel(red, w, m));
    assert forall|c: int| 0 <= c < z - k implies has_pivot(red, c) by {
        if !has_pivot(red, c) {
            lemma_free_vector(red, c, z + 1, m);
            let v = free_vector(red, c, z + 1);
            assert(in_kernel(bw, v, m));
            let vq = v.subrange(0, z - k);
            let ve = v.subrange(z - k, z);
            let pts = positions(z);
            assert forall|i: int| 0 <= i < pts.len() implies poly_eval(vq, #[trigger] pts[i], m)
                == 0 by {
                lemma_small_mod(i as nat, m as nat);
                lemma_bw_row(recv, k, i, v, m);
                assert(dot(bw[i], v) % m == 0);
                crate::poly::lemma_eval_all_zero(ve, i);
                assert(recv[i] * 0 == 0);
                assert(recv[i] * vstd::arithmetic::power::pow(i, k as nat) * 0 == 0);
            }
            lemma_too_many_roots(vq, pts, m);
            assert(vq[c] % m == 0);
            lemma_small_mod(1, m as nat);
        }
    }
}

/// The positions below `z` that are not among `errs`, in rising order.
pub open spec fn sound_positions(z: int, errs: Seq<int>) -> Seq<int>
    decreases z,
{
    if z <= 0 {
        Seq::empty()
    } else if errs.contains(z - 1) {
        sound_positions(z - 1, errs)
    } else {
        sound_positions(z - 1, errs).push(z - 1)
    }
}

/// The sound positions are distinct positions below `z`, none of them among
/// `errs`.
pub proof fn lemma_sound_positions(z: int, errs: Seq<int>)
    ensures
        forall|i: int|
            0 <= i < sound_positions(z, errs).len() ==> 0 <= #[trigger] sound_positions(z, errs)[i]
                < z && !errs.contains(sound_positions(z, errs)[i]),
        forall|i: int, j: int|
            0 <= i < j < sound_positions(z, errs).len() ==> sound_positions(z, errs)[i]
                < sound_positions(z, errs)[j],
    decreases z,
{
    let s = sound_positions(z, errs);
    if z > 0 {
        lemma_sound_positions(z - 1, errs);
        let t = sound_positions(z - 1, errs);
        assert forall|i: int| 0 <= i < s.len() implies 0 <= #[trigger] s[i] < z && !errs.contains(
            s[i],
        ) by {
            if i < t.len() {
                assert(s[i] == t[i]);
            }
        }
        assert forall|i: int, j: int| 0 <= i < j < s.len() implies s[i] < s[j] by {
            assert(s[i] == t[i]);
            if j < t.len() {
                assert(s[j] == t[j]);
            }
        }
    }
}

/// One more error costs at most one sound position.
proof fn lemma_sound_positions_push(z: int, errs: Seq<int>, e: int)
    ensures
        sound_positions(z, errs.push(e)).len() + 1 >= sound_positions(z, errs).len(),
        e < 0 || e >= z ==> sound_positions(z, errs.push(e)).len() == sound_positions(z, errs).len(),
    decreases z,
{
    if z > 0 {
        lemma_sound_positions_push(z - 1, errs, e);
        let more = errs.push(e);
        assert(more.contains(z - 1) <==> (errs.contains(z - 1) || e == z - 1)) by {
            if errs.contains(z - 1) {
                let t = choose|t: int| 0 <= t < errs.len() && errs[t] == z - 1;
                assert(more[t] == z - 1);
            }
            if e == z - 1 {
                assert(more[errs.len() as int] == e);
            }
            if more.contains(z - 1) {
                let t = choose|t: int| 0 <= t < more.len() && more[t] == z - 1;
                if t < errs.len() {
                    assert(errs[t] == z - 1);
                }
            }
        }
        if e == z - 1 && !errs.contains(z - 1) {
            // the positions below z - 1 are not touched by this error
            lemma_sound_positions_push(z - 1, errs, e);
        }
    }
}

/// All but at most `errs.len()` of the positions below `z` are sound.
pub proof fn lemma_sound_positions_len(z: int, errs: Seq<int>)
    requires
        0 <= z,
    ensures
        sound_positions(z, errs).len() + errs.len() >= z,
    decreases errs.len(),
{
    if errs.len() == 0 {
        lemma_sound_positions_all(z);
        assert(errs =~= Seq::<int>::empty());
    } else {
        let fewer = errs.drop_last();
        lemma_sound_positions_len(z, fewer);
        lemma_sound_positions_push(z, fewer, errs.last());
        assert(fewer.push(errs.last()) =~= errs);
    }
}

/// With no errors every position is sound.
proof fn lemma_sound_positions_all(z: int)
    requires
        0 <= z,
    ensures
        sound_positions(z, Seq::<int>::empty()).len() == z,
    decreases z,
{
    if z > 0 {
        lemma_sound_positions_all(z - 1);
        assert(!Seq::<int>::empty().contains(z - 1));
    }
}

/// `k` roots: those of `errs`, and zero as often as it takes.
pub open spec fn locator_roots(errs: Seq<int>, k: int) -> Seq<int> {
    Seq::new(k as nat, |j: int| if j < errs.len() { errs[j] } else { 0 })
}

/// A monic polynomial of degree `k` that vanishes at the positions `errs`.
pub open spec fn locator(errs: Seq<int>, k: int, m: int) -> Seq<int> {
    roots_poly(locator_roots(errs, k), m)
}

/// The solution of the system that belongs to the message polynomial `p` and
/// the error locator `loc`: the coefficients of `p * loc`, those of `loc`
/// without the leading one, and -1 for the right-hand side.
pub open spec fn true_vector(p: Seq<int>, loc: Seq<int>, z: int, k: int, m: int) -> Seq<int> {
    Seq::new(
        (z + 1) as nat,
        |j: int|
            if j < z - k {
                coeff(poly_mul(p, loc, m), j)
            } else if j < z {
                loc[j - (z - k)]
            } else {
                -1
            },
    )
}

/// The received word `recv` differs from the values of `p` only at positions
/// among `errs`.
pub open spec fn errors_within(recv: Seq<int>, p: Seq<int>, errs: Seq<int>, m: int) -> bool {
    forall|i: int| 0 <= i < recv.len() && recv[i] != poly_eval(p, i, m) ==> errs.contains(i)
}

/// The message polynomial times the error locator solves the system of a
/// received word with at most `k` errors.
pub proof fn lemma_true_vector_in_kernel(
    p: Seq<int>,
    n: int,
    k: int,
    recv: Seq<int>,
    errs: Seq<int>,
    m: int,
)
    requires
        is_prime(m),
        1 <= n,
        0 <= k,
        n + 2 * k <= m,
        is_canonical(p),
        p.len() <= n,
        recv.len() == n + 2 * k,
        errs.len() <= k,
        errors_within(recv, p, errs, m),
    ensures
        in_kernel(bw_matrix(recv, k, m), true_vector(p, locator(errs, k, m), n + 2 * k, k, m), m),
{
    let z = n + 2 * k;
    let roots = locator_roots(errs, k);
    let loc = locator(errs, k, m);
    let prod = poly_mul(p, loc, m);
    let w = true_vector(p, loc, z, k, m);
    let bw = bw_matrix(recv, k, m);
    lemma_roots_poly_monic(roots, m);
    lemma_canon(mul_coeffs(p, loc, m));
    assert forall|i: int| 0 <= i < bw.len() implies #[trigger] dot(bw[i], w) % m == 0 by {
        let ri = recv[i];
        lemma_small_mod(i as nat, m as nat);
        lemma_bw_row(recv, k, i, w, m);
        let wq = w.subrange(0, z - k);
        let we = w.subrange(z - k, z);
        assert(wq =~= pad(prod, (z - k) as nat));
        lemma_eval_pad(prod, (z - k) as nat, i);
        assert(we =~= loc.drop_last());
        let el = eval_int(loc, i);
        let ep = eval_int(prod, i);
        let pw = pow(i, k as nat);
        assert(el == eval_int(we, i) + loc.last() * pw);
        assert(eval_int(wq, i) - ri * eval_int(we, i) + ri * pw * w[z] == ep - ri * el)
            by (nonlinear_arith)
            requires
                el == eval_int(we, i) + 1 * pw,
                w[z] == -1,
                eval_int(wq, i) == ep,
        ;
        lemma_eval_mul(p, loc, i, m);
        let pv = poly_eval(p, i, m);
        let lv = poly_eval(loc, i, m);
        lemma_mod_twice(el, m);
        lemma_mul_congruent(ri, ri, el, lv, m);
        lemma_small_mod(0, m as nat);
        if ri == pv {
            lemma_sub_mod_noop(ep, ri * el, m);
        } else {
            assert(errs.contains(i));
            let t = choose|t: int| 0 <= t < errs.len() && errs[t] == i;
            assert(roots[t] == i);
            lemma_roots_eval_zero(roots, t, i, m);
            assert(pv * 0 == 0 && ri * 0 == 0);
            lemma_sub_mod_noop(ep, ri * el, m);
        }
    }
}

/// The coefficients that the decoder reads off are residues, and those of the
/// error locator are in canonical form.
pub proof fn lemma_coeffs_shape(red: Seq<Seq<int>>, k: int, z: int, m: int)
    requires
        m > 1,
        0 <= k <= z,
        is_rref(red),
        is_matrix(red, red.len() as int, z + 1, m),
    ensures
        is_residues(q_coeffs(red, k, z), m),
        is_residues(e_coeffs(red, k, z), m),
        is_canonical(e_coeffs(red, k, z)),
        canon(e_coeffs(red, k, z)) == e_coeffs(red, k, z),
        e_coeffs(red, k, z) != zero_poly(),
{
    assert forall|c: int| 0 <= c < z implies 0 <= #[trigger] unknown(red, c, z) < m by {
        if has_pivot(red, c) {
            lemma_rref_pivot_row(red, c, z + 1);
            assert(is_residue_row(red[pivot_row(red, c)], m));
        }
    }
    let e = e_coeffs(red, k, z);
    assert(e.last() == 1);
    lemma_canon(e);
    assert(e[e.len() - 1] != zero_poly()[0]);
}

/// For a received word with at most `k` errors, the polynomials that the
/// decoder reads off divide without remainder, and the quotient is the message
/// polynomial.
pub proof fn lemma_quotient_is_message(
    p: Seq<int>,
    n: int,
    k: int,
    recv: Seq<int>,
    errs: Seq<int>,
    red: Seq<Seq<int>>,
    m: int,
)
    requires
        is_prime(m),
        1 <= n,
        0 <= k,
        n + 2 * k <= m,
        is_canonical(p),
        is_residues(p, m),
        p.len() <= n,
        recv.len() == n + 2 * k,
        errs.len() <= k,
        errors_within(recv, p, errs, m),
        is_rref(red),
        is_matrix(red, red.len() as int, n + 2 * k + 1, m),
        in_kernel(bw_matrix(recv, k, m), solution(red, n + 2 * k), m),
    ensures
        poly_divmod(canon(q_coeffs(red, k, n + 2 * k)), canon(e_coeffs(red, k, n + 2 * k)), m) == (
            p,
            zero_poly(),
        ),
{
    let z = n + 2 * k;
    let s = solution(red, z);
    let qs = q_coeffs(red, k, z);
    let e = e_coeffs(red, k, z);
    let bw = bw_matrix(recv, k, m);
    let prod = poly_mul(p, e, m);
    lemma_coeffs_shape(red, k, z, m);
    lemma_ops_residues(p, e, m);
    lemma_canon(mul_coeffs(p, e, m));
    let d = combine(qs, pad(prod, (z - k) as nat), -1);
    let sound = sound_positions(z, errs);
    lemma_sound_positions(z, errs);
    lemma_sound_positions_len(z, errs);
    assert forall|t: int| 0 <= t < sound.len() implies poly_eval(d, #[trigger] sound[t], m) == 0 by {
        let i = sound[t];
        let ri = recv[i];
        lemma_small_mod(i as nat, m as nat);
        assert(dot(bw[i], s) % m == 0);
        lemma_bw_row(recv, k, i, s, m);
        let sq = s.subrange(0, z - k);
        let se = s.subrange(z - k, z);
        assert(sq =~= qs);
        assert(e.drop_last() =~= se);
        let ee = eval_int(e, i);
        let pw = pow(i, k as nat);
        assert(ee == eval_int(se, i) + e.last() * pw);
        assert(eval_int(sq, i) - ri * eval_int(se, i) + ri * pw * s[z] == eval_int(qs, i) - ri * ee)
            by (nonlinear_arith)
            requires
                ee == eval_int(se, i) + 1 * pw,
                s[z] == -1,
                eval_int(sq, i) == eval_int(qs, i),
        ;
        // at a sound position the received value is the value of p
        assert(ri == poly_eval(p, i, m));
        lemma_eval_mul(p, e, i, m);
        lemma_mod_twice(eval_int(p, i), m);
        lemma_mul_congruent(ri, eval_int(p, i), ee, ee, m);
        lemma_mul_mod_noop_general(eval_int(p, i), ee, m);
        lemma_eval_combine(qs, pad(prod, (z - k) as nat), -1, i);
        lemma_eval_pad(prod, (z - k) as nat, i);
        lemma_sub_mod_noop(eval_int(qs, i), ri * ee, m);
        lemma_sub_mod_noop(eval_int(qs, i), eval_int(prod, i), m);
    }
    assert(distinct_residues(sound, m));
    lemma_too_many_roots(d, sound, m);
    lemma_canon(qs);
    lemma_canon_residues(qs, m);
    assert forall|j: int| 0 <= j implies coeff(canon(qs), j) == coeff(prod, j) by {
        assert(coeff(canon(qs), j) == coeff(qs, j));
        if j < z - k {
            assert(d[j] % m == 0);
            assert(d[j] == qs[j] + (-1) * coeff(prod, j));
            if qs[j] != coeff(prod, j) {
                lemma_distinct_residues(qs[j], coeff(prod, j), m);
            }
        }
    }
    lemma_canonical_equal(canon(qs), prod);
    lemma_poly_add_zero(prod, m);
    lemma_divmod_is(canon(qs), e, p, zero_poly(), m);
}

/// A received word that differs from a codeword in at most `k` places decodes
/// to that codeword: whatever the reduced row-echelon form `red` of its system,
/// the decoder reads the codeword off it.
pub proof fn lemma_decode_corrects(
    p: Seq<int>,
    n: int,
    k: int,
    recv: Seq<int>,
    errs: Seq<int>,
    red: Seq<Seq<int>>,
    m: int,
)
    requires
        is_prime(m),
        1 <= n,
        0 <= k,
        n + 2 * k <= m,
        is_canonical(p),
        is_residues(p, m),
        p.len() <= n,
        recv.len() == n + 2 * k,
        errs.len() <= k,
        errors_within(recv, p, errs, m),
        is_reduction(bw_matrix(recv, k, m), red, n + 2 * k + 1, m),
    ensures
        decode_from(red, k, n + 2 * k, m) == Some(samples(p, (n + 2 * k) as nat, m)),
{
    let z = n + 2 * k;
    let bw = bw_matrix(recv, k, m);
    let w = true_vector(p, locator(errs, k, m), z, k, m);
    lemma_true_vector_in_kernel(p, n, k, recv, errs, m);
    assert(in_kernel(red, w, m));
    lemma_q_determined(recv, k, red, w, m);
    lemma_solution_in_kernel(red, z, w, m);
    assert(in_kernel(bw, solution(red, z), m));
    lemma_quotient_is_message(p, n, k, recv, errs, red, m);
}

/// Whatever the decoder reads off a reduced system with every coefficient of
/// `Q` determined and `E` dividing `Q`, the quotient has degree below
/// `z - 2 * k`: the decoder only ever yields values of such a polynomial.
pub proof fn lemma_decoded_degree(red: Seq<Seq<int>>, k: int, z: int, m: int)
    requires
        is_prime(m),
        0 <= k,
        2 * k < z,
        is_rref(red),
        is_matrix(red, red.len() as int, z + 1, m),
        decode_from(red, k, z, m) is Some,
    ensures
        ({
            let quo = poly_divmod(canon(q_coeffs(red, k, z)), canon(e_coeffs(red, k, z)), m).0;
            &&& is_canonical(quo)
            &&& is_residues(quo, m)
            &&& quo.len() <= z - 2 * k
            &&& decode_from(red, k, z, m) == Some(samples(quo, z as nat, m))
        }),
{
    let qs = q_coeffs(red, k, z);
    let e = e_coeffs(red, k, z);
    lemma_coeffs_shape(red, k, z, m);
    lemma_canon(qs);
    lemma_canon_residues(qs, m);
    lemma_divmod(canon(qs), e, m);
    let quo = poly_divmod(canon(qs), e, m).0;
    let prod = poly_mul(quo, e, m);
    lemma_ops_residues(quo, e, m);
    lemma_poly_add_zero(prod, m);
    if quo != zero_poly() {
        lemma_mul_monic_len(quo, e, m);
    }
}

} // verus!
