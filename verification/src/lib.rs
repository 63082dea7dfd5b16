//! A Reed-Solomon style error-correcting code over a prime field, decoded with
//! the Berlekamp-Welch algorithm.
use crate::berlekamp_welch::bw_entry;
use crate::berlekamp_welch::bw_matrix;
use crate::berlekamp_welch::decode_spec;
use crate::berlekamp_welch::e_coeffs;
use crate::berlekamp_welch::lemma_bw_is_matrix;
use crate::berlekamp_welch::q_coeffs;
use crate::berlekamp_welch::q_determined;
use crate::berlekamp_welch::samples;
use crate::berlekamp_welch::unknown;
use crate::correction::lemma_decode_corrects;
use crate::correction::lemma_decoded_degree;
use crate::correction::positions;
use crate::division::poly_divmod;
use crate::echelon::has_pivot;
use crate::echelon::is_first_pivot_row;
use crate::echelon::is_pivot_row;
use crate::echelon::lemma_pivot_row_is;
use crate::elimination::lemma_reduced;
use crate::elimination::reduced;
use crate::matrix::Matrix;
use crate::modular::is_prime;
use crate::modular::lemma_mul_congruent;
use crate::poly::canon;
use crate::poly::is_residues;
use crate::poly::lemma_canon;
use crate::poly::poly_eval;
use crate::polynomial::Polynomial;
use crate::polynomial::all_wf;
use crate::polynomial::values;
use crate::polynomial::xs_of;
use crate::polynomial::ys_of;
use crate::roots::interpolant;
use crate::roots::is_interpolant;
use crate::roots::lemma_interpolant_is;
use crate::roots::lemma_interpolate;
use vstd::arithmetic::div_mod::lemma_mod_twice;
use vstd::arithmetic::div_mod::lemma_small_mod;
use vstd::arithmetic::power::lemma_pow0;
use vstd::arithmetic::power::pow;
use vstd::prelude::*;

pub mod berlekamp_welch;
pub mod correction;
pub mod division;
pub mod echelon;
pub mod elimination;
pub mod field;
pub mod linear;
pub mod matrix;
pub mod modular;
pub mod poly;
pub mod polynomial;
pub mod roots;

pub use crate::field::Gfe;

verus! {

/// The polynomial of a message: the one of degree below its length that takes
/// the value `msg[i]` at position `i`.
pub open spec fn message_polynomial(msg: Seq<int>, m: int) -> Seq<int> {
    interpolant(positions(msg.len() as int), msg, m)
}

/// The codeword of the message `msg` with room for `k` errors: the values of
/// the message polynomial at the first `msg.len() + 2 * k` positions.
pub open spec fn encode_spec(k: int, msg: Seq<int>, m: int) -> Seq<int> {
    samples(message_polynomial(msg, m), (msg.len() + 2 * k) as nat, m)
}

/// The message polynomial exists, and a codeword starts with its message.
pub proof fn lemma_codeword_starts_with_message(k: int, msg: Seq<int>, m: int)
    requires
        is_prime(m),
        0 <= k,
        1 <= msg.len() <= m,
        is_residues(msg, m),
    ensures
        is_interpolant(message_polynomial(msg, m), positions(msg.len() as int), msg, m),
        encode_spec(k, msg, m).subrange(0, msg.len() as int) == msg,
{
    let n = msg.len() as int;
    let xs = positions(n);
    let p = lemma_interpolate(xs, msg, m);
    lemma_interpolant_is(p, xs, msg, m);
    let code = encode_spec(k, msg, m);
    assert forall|i: int| 0 <= i < n implies code[i] == msg[i] by {
        lemma_small_mod(i as nat, m as nat);
        assert(poly_eval(p, xs[i], m) == msg[i]);
    }
    assert(code.subrange(0, n) =~= msg);
}

/// Decoding an uncorrupted codeword succeeds and gives the codeword back, which
/// starts with the message.
pub proof fn lemma_round_trip(k: int, msg: Seq<int>, m: int)
    requires
        is_prime(m),
        0 <= k,
        1 <= msg.len(),
        msg.len() + 2 * k <= m,
        is_residues(msg, m),
    ensures
        decode_spec(encode_spec(k, msg, m), k, m) == Some(encode_spec(k, msg, m)),
        encode_spec(k, msg, m).subrange(0, msg.len() as int) == msg,
{
    lemma_codeword_starts_with_message(k, msg, m);
    lemma_corrects_up_to_capacity(k, msg, encode_spec(k, msg, m), Seq::empty(), m);
}

/// Decoding a word that differs from a codeword in at most `k` entries, all at
/// positions among `errs`, succeeds and gives the whole codeword back.
pub proof fn lemma_corrects_up_to_capacity(
    k: int,
    msg: Seq<int>,
    recv: Seq<int>,
    errs: Seq<int>,
    m: int,
)
    requires
        is_prime(m),
        0 <= k,
        1 <= msg.len(),
        msg.len() + 2 * k <= m,
        is_residues(msg, m),
        recv.len() == msg.len() + 2 * k,
        errs.len() <= k,
        forall|i: int| 0 <= i < recv.len() && recv[i] != encode_spec(k, msg, m)[i] ==> errs.contains(i),
    ensures
        decode_spec(recv, k, m) == Some(encode_spec(k, msg, m)),
{
    let n = msg.len() as int;
    let p = message_polynomial(msg, m);
    lemma_codeword_starts_with_message(k, msg, m);
    let bw = bw_matrix(recv, k, m);
    lemma_bw_is_matrix(recv, k, m);
    lemma_reduced(bw, recv.len() as int + 1, m);
    assert forall|i: int| 0 <= i < recv.len() && recv[i] != poly_eval(p, i, m) implies errs.contains(
        i,
    ) by {
        lemma_small_mod(i as nat, m as nat);
        assert(encode_spec(k, msg, m)[i] == poly_eval(p, i, m));
    }
    lemma_decode_corrects(p, n, k, recv, errs, reduced(bw, recv.len() as int + 1, m), m);
}

/// Decoding never yields anything but a codeword: where it succeeds, the result
/// is the codeword of its own first entries. So a word with more than `k`
/// errors either fails to decode or decodes to some codeword.
pub proof fn lemma_decoded_is_codeword(k: int, recv: Seq<int>, m: int)
    requires
        is_prime(m),
        0 <= k,
        2 * k < recv.len(),
        recv.len() - 2 * k <= m,
        decode_spec(recv, k, m) is Some,
    ensures
        ({
            let out = decode_spec(recv, k, m).unwrap();
            out == encode_spec(k, out.subrange(0, recv.len() - 2 * k), m)
        }),
{
    let z = recv.len() as int;
    let n = z - 2 * k;
    let bw = bw_matrix(recv, k, m);
    lemma_bw_is_matrix(recv, k, m);
    lemma_reduced(bw, z + 1, m);
    let red = reduced(bw, z + 1, m);
    lemma_decoded_degree(red, k, z, m);
    let quo = poly_divmod(canon(q_coeffs(red, k, z)), canon(e_coeffs(red, k, z)), m).0;
    let out = decode_spec(recv, k, m).unwrap();
    let msg = out.subrange(0, n);
    let xs = positions(n);
    assert forall|i: int| 0 <= i < n implies poly_eval(quo, #[trigger] xs[i], m) == msg[i] by {
        lemma_small_mod(i as nat, m as nat);
        assert(out[i] == poly_eval(quo, i % m, m));
    }
    lemma_interpolant_is(quo, xs, msg, m);
    assert(encode_spec(k, msg, m) =~= out);
}

/// Encodes the message `r` so that `k` corrupted entries can be corrected: the
/// message followed by `2 * k` further values of the polynomial of degree below
/// `r.len()` that takes the value `r[i]` at position `i`.
pub fn encode<const M: u32>(k: usize, r: &[Gfe<M>]) -> (code: Vec<Gfe<M>>)
    requires
        is_prime(M as int),
        1 <= r@.len() <= M,
        r@.len() + 2 * k <= usize::MAX,
        all_wf(r@),
    ensures
        code@.len() == r@.len() + 2 * k,
        all_wf(code@),
        values(code@) == encode_spec(k as int, values(r@), M as int),
        values(code@).subrange(0, r@.len() as int) == values(r@),
{
    let n = r.len();
    let mut points: Vec<(Gfe<M>, Gfe<M>)> = Vec::new();
    let mut i: usize = 0;
    while i < n
        invariant
            M > 1,
            n == r@.len(),
            n <= M,
            all_wf(r@),
            i <= n,
            points@.len() == i,
            forall|t: int|
                0 <= t < i ==> (#[trigger] points@[t]).0.wf() && points@[t].0@ == t && points@[t].1
                    == r@[t],
        decreases n - i,
    {
        let x = position(i);
        proof {
            lemma_small_mod(i as nat, M as nat);
        }
        points.push((x, r[i]));
        i += 1;
    }
    let poly = Polynomial::from_points(points.as_slice());
    let total = n + 2 * k;
    let mut code: Vec<Gfe<M>> = Vec::new();
    let mut j: usize = 0;
    while j < total
        invariant
            M > 1,
            poly.wf(),
            j <= total,
            code@.len() == j,
            all_wf(code@),
            forall|t: int|
                0 <= t < j ==> (#[trigger] code@[t])@ == poly_eval(poly@, t % (M as int), M as int),
        decreases total - j,
    {
        let x = position(j);
        code.push(poly.eval(x));
        j += 1;
    }
    proof {
        poly.lemma_residues();
        assert(xs_of(points@) =~= positions(n as int));
        assert(ys_of(points@) =~= values(r@));
        assert(values(code@) =~= samples(poly@, total as nat, M as int));
        assert forall|t: int| 0 <= t < n implies values(code@)[t] == values(r@)[t] by {
            lemma_small_mod(t as nat, M as nat);
            assert(xs_of(points@)[t] == t);
        }
        assert(values(code@).subrange(0, n as int) =~= values(r@));
    }
    code
}

/// Corrects up to `k` corrupted entries of the codeword `r` in place. The system
/// `Q(i) = r[i] * E(i)` for a polynomial `Q` of degree below `r.len() - k` and a
/// monic error locator `E` of degree `k` is row-reduced; the coefficients are
/// read off, with zero for a free coefficient of `E`; and `r` is replaced by the
/// values of `Q / E`. Fails, leaving `r` as it was, if a coefficient of `Q` is
/// not determined or the division leaves a remainder.
pub fn decode<const M: u32>(k: usize, r: &mut [Gfe<M>]) -> (res: Result<(), ()>)
    requires
        is_prime(M as int),
        2 * k <= old(r)@.len(),
        old(r)@.len() * (old(r)@.len() + 1) <= usize::MAX,
        all_wf(old(r)@),
    ensures
        final(r)@.len() == old(r)@.len(),
        all_wf(final(r)@),
        res is Err ==> final(r)@ == old(r)@,
        decode_spec(values(old(r)@), k as int, M as int) == (match res {
            Ok(_) => Some(values(final(r)@)),
            Err(_) => None,
        }),
{
    let z = r.len();
    let n = z - 2 * k;
    let mut mat = system(k, r);
    let ghost bw = mat@;
    mat.row_reduce();
    let ghost red = mat@;
    proof {
        mat.lemma_view_is_matrix();
        assert(red == reduced(bw, z + 1, M as int));
    }
    let mut q_vals: Vec<Gfe<M>> = Vec::new();
    let mut c: usize = 0;
    while c < n + k
        invariant
            M > 1,
            mat.wf(),
            mat@ == red,
            mat.m == z,
            mat.n == z + 1,
            n + k + k == z,
            r@ == old(r)@,
            z == r@.len(),
            all_wf(r@),
            bw == bw_matrix(values(old(r)@), k as int, M as int),
            red == reduced(bw, z + 1, M as int),
            c <= n + k,
            q_vals@.len() == c,
            all_wf(q_vals@),
            forall|t: int| 0 <= t < c ==> has_pivot(red, t),
            forall|t: int| 0 <= t < c ==> (#[trigger] q_vals@[t])@ == unknown(red, t, z as int),
        decreases n + k - c,
    {
        match find_pivot_row(&mat, c) {
            Some(row) => {
                q_vals.push(mat.elem(row, z));
            },
            None => {
                return Err(());
            },
        }
        c += 1;
    }
    let mut e_vals: Vec<Gfe<M>> = Vec::new();
    let mut b: usize = 0;
    while b < k
        invariant
            M > 1,
            mat.wf(),
            mat@ == red,
            mat.m == z,
            mat.n == z + 1,
            n + k + k == z,
            b <= k,
            e_vals@.len() == b,
            all_wf(e_vals@),
            forall|t: int|
                0 <= t < b ==> (#[trigger] e_vals@[t])@ == unknown(red, n + k + t, z as int),
        decreases k - b,
    {
        match find_pivot_row(&mat, n + k + b) {
            Some(row) => {
                e_vals.push(mat.elem(row, z));
            },
            None => {
                e_vals.push(Gfe::zero());
            },
        }
        b += 1;
    }
    e_vals.push(Gfe::one());
    proof {
        assert(values(q_vals@) =~= q_coeffs(red, k as int, z as int));
        assert(values(e_vals@) =~= e_coeffs(red, k as int, z as int));
        let e = values(e_vals@);
        assert(e.last() == 1);
        lemma_canon(e);
    }
    let q = Polynomial::new(q_vals);
    let e = Polynomial::new(e_vals);
    let (p, rem) = q.divide(&e);
    assert(q_determined(red, k as int, z as int));
    if rem != Polynomial::zero() {
        return Err(());
    }
    let mut i: usize = 0;
    while i < z
        invariant
            M > 1,
            p.wf(),
            z == r@.len(),
            i <= z,
            forall|t: int| 0 <= t < i ==> (#[trigger] r@[t]).wf(),
            forall|t: int| 0 <= t < i ==> (#[trigger] r@[t])@ == poly_eval(p@, t % (M as int), M as int),
            forall|t: int| i <= t < z ==> (#[trigger] r@[t]) == old(r)@[t],
        decreases z - i,
    {
        r[i] = p.eval(position(i));
        i += 1;
    }
    proof {
        assert(values(r@) =~= samples(p@, z as nat, M as int));
    }
    Ok(())
}

/// Sets the entry in row `i`, column `j` to `v`.
fn set_entry<const M: u32>(mat: &mut Matrix<M>, i: usize, j: usize, v: Gfe<M>)
    requires
        old(mat).wf(),
        i < old(mat).m,
        j < old(mat).n,
        v.wf(),
    ensures
        final(mat).wf(),
        final(mat).m == old(mat).m,
        final(mat).n == old(mat).n,
        final(mat)@ == old(mat)@.update(i as int, old(mat)@[i as int].update(j as int, v@)),
{
    *mat.elem_mut(i, j) = v;
    proof {
        let n = mat.n as int;
        let target = old(mat)@.update(i as int, old(mat)@[i as int].update(j as int, v@));
        crate::matrix::lemma_row_base(i as int, mat.m as int, n);
        assert forall|a: int| 0 <= a < mat.m implies mat@[a] =~= target[a] by {
            crate::matrix::lemma_row_base(a, mat.m as int, n);
            if a != i {
                crate::matrix::lemma_rows_apart(i as int, a, n);
            }
        }
        assert(mat@ =~= target);
    }
}

/// The augmented matrix of the Berlekamp-Welch system for the received word `r`.
fn system<const M: u32>(k: usize, r: &[Gfe<M>]) -> (mat: Matrix<M>)
    requires
        M > 1,
        2 * k <= r@.len(),
        r@.len() * (r@.len() + 1) <= usize::MAX,
        all_wf(r@),
    ensures
        mat.wf(),
        mat.m == r@.len(),
        mat.n == r@.len() + 1,
        mat@ == bw_matrix(values(r@), k as int, M as int),
{
    let z = r.len();
    let nk = z - k;
    let ghost recv = values(r@);
    let mut elems: Vec<Gfe<M>> = Vec::new();
    assert(z + 1 <= usize::MAX) by (nonlinear_arith)
        requires
            z * (z + 1) <= usize::MAX,
            0 <= z,
    ;
    let size = z * (z + 1);
    let mut t: usize = 0;
    while t < size
        invariant
            M > 1,
            t <= size,
            elems@.len() == t,
            all_wf(elems@),
        decreases size - t,
    {
        elems.push(Gfe::zero());
        t += 1;
    }
    let mut mat = Matrix { m: z, n: z + 1, elems };
    let mut i: usize = 0;
    while i < z
        invariant
            M > 1,
            z == r@.len(),
            nk == z - k,
            2 * k <= z,
            all_wf(r@),
            recv == values(r@),
            mat.wf(),
            mat.m == z,
            mat.n == z + 1,
            i <= z,
            forall|a: int, j: int|
                0 <= a < i && 0 <= j <= z ==> #[trigger] mat@[a][j] == bw_entry(
                    recv,
                    k as int,
                    a,
                    j,
                    M as int,
                ),
        decreases z - i,
    {
        let x = position::<M>(i);
        let ri = r[i];
        let mut pw = Gfe::<M>::one();
        let mut a: usize = 0;
        proof {
            lemma_pow0(x@);
            lemma_small_mod(1, M as nat);
        }
        while a < nk
            invariant
                M > 1,
                z == r@.len(),
                nk == z - k,
                2 * k <= z,
                recv == values(r@),
                mat.wf(),
                mat.m == z,
                mat.n == z + 1,
                i < z,
                a <= nk,
                x.wf(),
                x@ == (i as int) % (M as int),
                pw.wf(),
                pw@ == pow(x@, a as nat) % (M as int),
                forall|u: int, j: int|
                    0 <= u < i && 0 <= j <= z ==> #[trigger] mat@[u][j] == bw_entry(
                        recv,
                        k as int,
                        u,
                        j,
                        M as int,
                    ),
                forall|j: int|
                    0 <= j < a ==> #[trigger] mat@[i as int][j] == bw_entry(
                        recv,
                        k as int,
                        i as int,
                        j,
                        M as int,
                    ),
            decreases nk - a,
        {
            set_entry(&mut mat, i, a, pw);
            proof {
                lemma_next_power(x@, a as nat, M as int);
            }
            pw = pw * x;
            a += 1;
        }
        pw = Gfe::one();
        let mut b: usize = 0;
        while b < k
            invariant
                M > 1,
                z == r@.len(),
                nk == z - k,
                2 * k <= z,
                all_wf(r@),
                recv == values(r@),
                ri == r@[i as int],
                mat.wf(),
                mat.m == z,
                mat.n == z + 1,
                i < z,
                b <= k,
                x.wf(),
                x@ == (i as int) % (M as int),
                pw.wf(),
                pw@ == pow(x@, b as nat) % (M as int),
                forall|u: int, j: int|
                    0 <= u < i && 0 <= j <= z ==> #[trigger] mat@[u][j] == bw_entry(
                        recv,
                        k as int,
                        u,
                        j,
                        M as int,
                    ),
                forall|j: int|
                    0 <= j < nk + b ==> #[trigger] mat@[i as int][j] == bw_entry(
                        recv,
                        k as int,
                        i as int,
                        j,
                        M as int,
                    ),
            decreases k - b,
        {
            set_entry(&mut mat, i, nk + b, (ri * pw).negation());
            proof {
                lemma_next_power(x@, b as nat, M as int);
            }
            pw = pw * x;
            b += 1;
        }
        set_entry(&mut mat, i, z, ri * pw);
        i += 1;
    }
    proof {
        let target = bw_matrix(recv, k as int, M as int);
        mat.lemma_view_is_matrix();
        assert forall|a: int| 0 <= a < z implies mat@[a] =~= target[a] by {
            assert forall|j: int| 0 <= j <= z implies mat@[a][j] == target[a][j] by {}
        }
        assert(mat@ =~= target);
    }
    mat
}

/// From one power of `x` to the next, modulo `m`.
proof fn lemma_next_power(x: int, a: nat, m: int)
    requires
        m > 0,
    ensures
        ((pow(x, a) % m) * x) % m == pow(x, a + 1) % m,
{
    lemma_mod_twice(pow(x, a), m);
    lemma_mul_congruent(pow(x, a) % m, pow(x, a), x, x, m);
    assert(pow(x, a + 1) == x * pow(x, a)) by {
        reveal(pow);
    }
    assert(pow(x, a) * x == x * pow(x, a)) by (nonlinear_arith);
}

/// The first row whose first nonzero entry is a 1 in column `c`, if there is one.
fn find_pivot_row<const M: u32>(mat: &Matrix<M>, c: usize) -> (r: Option<usize>)
    requires
        mat.wf(),
        c < mat.n,
        M > 1,
    ensures
        match r {
            Some(row) => is_first_pivot_row(mat@, row as int, c as int) && row < mat.m
                && has_pivot(mat@, c as int) && crate::echelon::pivot_row(mat@, c as int)
                == row,
            None => !has_pivot(mat@, c as int),
        },
{
    let mut row: usize = 0;
    while row < mat.m
        invariant
            mat.wf(),
            c < mat.n,
            M > 1,
            row <= mat.m,
            forall|other: int| 0 <= other < row ==> !is_pivot_row(mat@, other, c as int),
        decreases mat.m - row,
    {
        let mut j: usize = 0;
        let mut zeros = true;
        while j < c
            invariant
                mat.wf(),
                c < mat.n,
                row < mat.m,
                j <= c,
                zeros ==> forall|t: int| 0 <= t < j ==> #[trigger] mat@[row as int][t] == 0,
                !zeros ==> exists|t: int| 0 <= t < c && #[trigger] mat@[row as int][t] != 0,
            decreases c - j,
        {
            if mat.elem(row, j) != Gfe::zero() {
                zeros = false;
            }
            j += 1;
        }
        if zeros && mat.elem(row, c) == Gfe::one() {
            proof {
                lemma_pivot_row_is(mat@, row as int, c as int);
            }
            return Some(row);
        }
        row += 1;
    }
    assert(!has_pivot(mat@, c as int)) by {
        if has_pivot(mat@, c as int) {
            let w = choose|w: int| is_pivot_row(mat@, w, c as int);
            assert(!is_pivot_row(mat@, w, c as int));
        }
    }
    None
}

/// The field element that stands for position `i` of a word.
fn position<const M: u32>(i: usize) -> (x: Gfe<M>)
    requires
        M > 0,
    ensures
        x.wf(),
        x@ == (i as int) % (M as int),
{
    let m = M as usize;
    proof {
        lemma_small_mod((i % m) as nat, M as nat);
    }
    Gfe::new((i % m) as u32)
}

} // verus!
