//! What the transforms compute, where arithmetic does not round.

use crate::complex::Complex;
use crate::scalar::Real;
use vstd::prelude::*;

verus! {

use crate::complex::ctimes_of;
use crate::exact::{lemma_rsum_same, rsum};
use crate::mace::convolution::lemma_psum_parts;
use crate::mace::circle::{
    angle, exact_circle, lemma_angle_add, lemma_angle_half, lemma_angle_whole, lemma_cancel,
    lemma_circle_add, lemma_circle_marks, lemma_half_turn, lemma_part, lemma_term, lemma_turn, on_circle, part, val,
};
use crate::mace::fft::{evens, fft_of, lemma_bits, lemma_fft_len, odds, turn};
use crate::mace::points::{
    lemma_pmul_simple, lemma_psum_halves, lemma_psum_same, lemma_psum_scale, padd, pmul, psum, pt,
};
use crate::mace::spectrum::spectrum;
use crate::scalar::pi_of;
use vstd::arithmetic::power2::{is_pow2, lemma2_to64, lemma_pow2_pos, lemma_pow2_unfold, pow2};

/// The powers of the root that turns backwards by one of `n` parts of a turn.
pub open spec fn waves(
    p: real,
    co: spec_fn(real) -> real,
    si: spec_fn(real) -> real,
    n: int,
) -> spec_fn(int) -> (real, real) {
    |t: int| on_circle(co, si, angle(p, t, n))
}

/// The points for which the numbers of a row stand.
pub open spec fn vals<S: Real>(
    v: spec_fn(S) -> real,
    s: Seq<Complex<S>>,
) -> spec_fn(int) -> (real, real) {
    |j: int| val(v, s[j])
}

/// Number `k` of the discrete Fourier transform of a row.
pub open spec fn dft<S: Real>(
    v: spec_fn(S) -> real,
    co: spec_fn(real) -> real,
    si: spec_fn(real) -> real,
    s: Seq<Complex<S>>,
    k: int,
) -> (real, real) {
    spectrum(waves(v(pi_of::<S>()), co, si, s.len() as int), vals(v, s), s.len(), k)
}

/// The transform by halves is the discrete Fourier transform.
proof fn lemma_fft_dft<S: Real>(
    v: spec_fn(S) -> real,
    co: spec_fn(real) -> real,
    si: spec_fn(real) -> real,
    s: Seq<Complex<S>>,
    bits: nat,
    k: int,
)
    requires
        exact_circle(v, co, si),
        s.len() == pow2(bits),
        s.len() <= usize::MAX,
        0 <= k < s.len(),
    ensures
        val(v, fft_of(s)[k]) == dft(v, co, si, s, k),
    decreases bits,
{
    let p = v(pi_of::<S>());
    let x = vals(v, s);
    let n = s.len();
    let wn = waves(p, co, si, n as int);
    lemma2_to64();
    if bits == 0 {
        let f = |j: int| pmul(x(j), on_circle(co, si, angle(p, j * k, 1)));
        let u = part(p, 1);
        assert(0real * u == 0real) by (nonlinear_arith);
        assert(0 * k == 0);
        lemma_circle_marks(v, co, si, 0real);
        lemma_pmul_simple(x(0));
        assert(f(0) == x(0));
        assert(psum(f, 1) == padd(psum(f, 0), f(0)));
        lemma_psum_same(
            f,
            |j: int| pmul(x(j), wn(j * k)),
            1,
        );
    } else {
        lemma_pow2_unfold(bits);
        let half_bits = (bits - 1) as nat;
        lemma_pow2_pos(half_bits);
        let m = pow2(half_bits);
        let mi = m as int;
        let es = evens(s);
        let os = odds(s);
        lemma_fft_len(es, half_bits);
        lemma_fft_len(os, half_bits);
        let k2 = if k < m {
            k
        } else {
            k - m
        };
        lemma_fft_dft(v, co, si, es, half_bits, k2);
        lemma_fft_dft(v, co, si, os, half_bits, k2);
        lemma_turn(v, co, si, m, k2);
        let w = on_circle(co, si, angle(p, k2, 2 * mi));
        let e = val(v, fft_of(es)[k2]);
        let o = val(v, fft_of(os)[k2]);
        let ow = pmul(o, w);
        lemma_circle_marks(v, co, si, 0real);
        assert(val(v, ctimes_of(fft_of(os)[k2], turn::<S>(m, k2))) == ow) by {
            reveal(pmul);
        }
        let term = |j: int| pmul(x(j), wn(j * k));
        let wm = waves(p, co, si, mi);
        let xe = vals(v, es);
        let xo = vals(v, os);
        let even_terms = |j: int| term(2 * j);
        let odd_terms = |j: int| term(2 * j + 1);
        lemma_psum_halves(term, m);
        // Even places.
        let fe = |j: int| pmul(val(v, es[j]), on_circle(co, si, angle(p, j * k2, mi)));
        assert forall|j: int| 0 <= j < m implies #[trigger] fe(j) == even_terms(j) by {
            lemma_even_term(v, co, si, x(2 * j), j, k, k2, mi);
        }
        lemma_psum_same(fe, even_terms, m);
        lemma_psum_same(
            |j: int| pmul(xe(j), wm(j * k2)),
            fe,
            m,
        );
        assert(e == psum(even_terms, m));
        // Odd places.
        let fo = |j: int| pmul(val(v, os[j]), on_circle(co, si, angle(p, j * k2, mi)));
        lemma_psum_same(
            |j: int| pmul(xo(j), wm(j * k2)),
            fo,
            m,
        );
        assert(o == psum(fo, m));
        lemma_psum_scale(fo, w, m);
        let fw = |j: int| pmul(fo(j), w);
        if k < m {
            assert forall|j: int| 0 <= j < m implies #[trigger] fw(j) == odd_terms(j) by {
                lemma_odd_term(v, co, si, x(2 * j + 1), j, k, k2, mi);
            }
            lemma_psum_same(fw, odd_terms, m);
            assert(val(v, fft_of(s)[k]) == padd(e, ow));
        } else {
            let minus = pt(-1real);
            let fm = |j: int| pmul(fw(j), minus);
            lemma_psum_scale(fw, minus, m);
            assert forall|j: int| 0 <= j < m implies #[trigger] fm(j) == odd_terms(j) by {
                lemma_odd_term(v, co, si, x(2 * j + 1), j, k, k2, mi);
            }
            lemma_psum_same(fm, odd_terms, m);
            lemma_pmul_simple(ow);
            assert(val(v, fft_of(s)[k]) == (e.0 - ow.0, e.1 - ow.1));
        }
    }
}

/// A term at an even place is a term of the transform of the even places.
proof fn lemma_even_term<S: Real>(
    v: spec_fn(S) -> real,
    co: spec_fn(real) -> real,
    si: spec_fn(real) -> real,
    x: (real, real),
    j: int,
    k: int,
    k2: int,
    m: int,
)
    requires
        exact_circle(v, co, si),
        m > 0,
        k == k2 || k == k2 + m,
    ensures
        pmul(x, on_circle(co, si, angle(v(pi_of::<S>()), j * k2, m))) == pmul(
            x,
            on_circle(co, si, angle(v(pi_of::<S>()), (2 * j) * k, 2 * m)),
        ),
{
    let p = v(pi_of::<S>());
    let t = j * k2;
    lemma_angle_half(p, t, m);
    if k == k2 {
        assert((2 * j) * k == 2 * t) by (nonlinear_arith)
            requires
                k == k2,
                t == j * k2,
        ;
    } else {
        assert((2 * j) * k == 2 * t + j * (2 * m)) by (nonlinear_arith)
            requires
                k == k2 + m,
                t == j * k2,
        ;
        lemma_angle_add(p, 2 * t, j * (2 * m), 2 * m);
        lemma_circle_add(
            v,
            co,
            si,
            angle(p, 2 * t, 2 * m),
            angle(p, j * (2 * m), 2 * m),
        );
        lemma_angle_whole(v, co, si, j, 2 * m);
        lemma_pmul_simple(on_circle(co, si, angle(p, 2 * t, 2 * m)));
    }
}

/// A term at an odd place is a term of the transform of the odd places, turned; in the
/// second half of the transform it is the opposite.
proof fn lemma_odd_term<S: Real>(
    v: spec_fn(S) -> real,
    co: spec_fn(real) -> real,
    si: spec_fn(real) -> real,
    x: (real, real),
    j: int,
    k: int,
    k2: int,
    m: int,
)
    requires
        exact_circle(v, co, si),
        m > 0,
        k == k2 || k == k2 + m,
    ensures
        ({
            let p = v(pi_of::<S>());
            let turned = pmul(
                pmul(x, on_circle(co, si, angle(p, j * k2, m))),
                on_circle(co, si, angle(p, k2, 2 * m)),
            );
            let want = pmul(x, on_circle(co, si, angle(p, (2 * j + 1) * k, 2 * m)));
            &&& k == k2 ==> turned == want
            &&& k == k2 + m ==> pmul(turned, pt(-1real)) == want
        }),
{
    let p = v(pi_of::<S>());
    let t = j * k2;
    let u = (2 * j + 1) * k2;
    lemma_angle_half(p, t, m);
    lemma_term(v, co, si, x, 2 * t, k2, 2 * m);
    assert(2 * t + k2 == u) by (nonlinear_arith)
        requires
            t == j * k2,
            u == (2 * j + 1) * k2,
    ;
    let turned = pmul(
        pmul(x, on_circle(co, si, angle(p, j * k2, m))),
        on_circle(co, si, angle(p, k2, 2 * m)),
    );
    assert(turned == pmul(x, on_circle(co, si, angle(p, u, 2 * m))));
    if k == k2 + m {
        let z = (2 * j + 1) * k;
        let c = j * (2 * m);
        assert(z == (u + m) + c) by (nonlinear_arith)
            requires
                z == (2 * j + 1) * k,
                u == (2 * j + 1) * k2,
                c == j * (2 * m),
                k == k2 + m,
        ;
        lemma_half_turn(v, co, si, m);
        lemma_angle_whole(v, co, si, j, 2 * m);
        lemma_term(v, co, si, x, u, m, 2 * m);
        lemma_term(v, co, si, x, u + m, c, 2 * m);
        let last = pmul(x, on_circle(co, si, angle(p, u + m, 2 * m)));
        lemma_pmul_simple(last);
    }
}

/// The transform of a row is its discrete Fourier transform, wherever arithmetic does not
/// round: number `k` is the sum of all numbers of the row, number `j` turned backwards by
/// `j * k` of as many parts of a turn as the row has numbers.
pub proof fn law_fft_is_dft<S: Real>(
    v: spec_fn(S) -> real,
    co: spec_fn(real) -> real,
    si: spec_fn(real) -> real,
    s: Seq<Complex<S>>,
    k: int,
)
    requires
        exact_circle(v, co, si),
        is_pow2(s.len() as int),
        s.len() <= usize::MAX,
        0 <= k < s.len(),
    ensures
        val(v, fft_of(s)[k]) == dft(v, co, si, s, k),
{
    let bits = lemma_bits(s.len());
    lemma_fft_dft(v, co, si, s, bits, k);
}

/// The transform of a row, in full: number `k` is the sum of all numbers of the row, number `j`
/// turned clockwise by `j * k` of as many parts of a turn as the row has numbers. `turn(j)` is
/// that angle, and pi stands for half a turn.
pub proof fn law_fft_turns_clockwise<S: Real>(
    v: spec_fn(S) -> real,
    co: spec_fn(real) -> real,
    si: spec_fn(real) -> real,
    s: Seq<Complex<S>>,
    k: int,
    turn: spec_fn(int) -> real,
)
    requires
        exact_circle(v, co, si),
        is_pow2(s.len() as int),
        s.len() <= usize::MAX,
        0 <= k < s.len(),
        forall|j: int|
            0 <= j < s.len() ==> #[trigger] turn(j) * (s.len() as real) == 2real * v(pi_of::<S>())
                * ((j * k) as real),
    ensures
        v(fft_of(s)[k].re) == rsum(
            |j: int| v(s[j].re) * co(turn(j)) + v(s[j].im) * si(turn(j)),
            s.len(),
        ),
        v(fft_of(s)[k].im) == rsum(
            |j: int| v(s[j].im) * co(turn(j)) - v(s[j].re) * si(turn(j)),
            s.len(),
        ),
{
    law_fft_is_dft(v, co, si, s, k);
    let n = s.len();
    let m = n as int;
    let p = v(pi_of::<S>());
    let w = waves(p, co, si, m);
    let x = vals(v, s);
    let f = |j: int| pmul(x(j), w(j * k));
    lemma_psum_parts(f, n);
    let re = |j: int| v(s[j].re) * co(turn(j)) + v(s[j].im) * si(turn(j));
    let im = |j: int| v(s[j].im) * co(turn(j)) - v(s[j].re) * si(turn(j));
    let fr = |j: int| f(j).0;
    let fi = |j: int| f(j).1;
    assert forall|j: int| 0 <= j < n implies #[trigger] fr(j) == re(j) && fi(j) == im(j) by {
        let c = n as real;
        let t = (j * k) as real;
        let u = part(p, m);
        lemma_part(p, m);
        let a = angle(p, j * k, m);
        assert(a * c == -(2real * p * t)) by (nonlinear_arith)
            requires
                a == t * u,
                u * c == -(2real * p),
        ;
        let b = turn(j);
        assert((-a) * c == b * c) by (nonlinear_arith)
            requires
                a * c == -(b * c),
        ;
        lemma_cancel(-a, b, c);
        lemma_circle_marks(v, co, si, b);
        assert(a == -b);
        assert(w(j * k) == (co(b), -si(b)));
        let xr = v(s[j].re);
        let xi = v(s[j].im);
        let cb = co(b);
        let sb = si(b);
        assert(f(j) == (xr * cb - xi * (-sb), xr * (-sb) + xi * cb)) by {
            reveal(pmul);
        }
        assert(xi * (-sb) == -(xi * sb)) by (nonlinear_arith);
        assert(xr * (-sb) == -(xr * sb)) by (nonlinear_arith);
    }
    lemma_rsum_same(fr, re, n);
    assert forall|j: int| 0 <= j < n implies #[trigger] fi(j) == im(j) by {
        assert(fr(j) == re(j));
    }
    lemma_rsum_same(fi, im, n);
}

} // verus!
