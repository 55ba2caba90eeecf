//! The inverse transforms undo the forward ones, where arithmetic does not round.

use crate::complex::Complex;
use crate::scalar::Real;
use vstd::prelude::*;

verus! {

use crate::complex::conj_of;
use crate::mace::circle::{
    angle, exact_circle, lemma_angle_add, lemma_angle_whole, lemma_circle_add, lemma_circle_marks,
    lemma_short, part, val,
};
use crate::mace::fft::{
    conj_all, fft_of, ifft_of, lemma_bits, lemma_fft_len, plane_of, rows_of,
};
use crate::mace::fourier::{law_fft_is_dft, vals, waves};
use crate::mace::points::{
    lemma_pconj_pmul, lemma_pmul_assoc, lemma_pmul_simple, lemma_psum_conj, lemma_psum_same, pconj,
    pmul, psum, pt,
};
use crate::mace::spectrum::{
    backwards, lemma_backwards, lemma_backwards_twice, lemma_rows_back, lemma_spectrum_same,
    lemma_spectrum_scale, lemma_there_and_back, roots, spectra, spectrum, square_spectrum,
};
use crate::scalar::{count_of, pi_of};
use vstd::arithmetic::power2::is_pow2;

/// Parts of a turn are powers of a root of unity.
pub proof fn lemma_waves_are_roots<S: Real>(
    v: spec_fn(S) -> real,
    co: spec_fn(real) -> real,
    si: spec_fn(real) -> real,
    n: nat,
)
    requires
        exact_circle(v, co, si),
        n > 0,
    ensures
        roots(waves(v(pi_of::<S>()), co, si, n as int), n),
{
    reveal(roots);
    let p = v(pi_of::<S>());
    let m = n as int;
    let w = waves(p, co, si, m);
    let u = part(p, m);
    lemma_circle_marks(v, co, si, 0real);
    assert(0real * u == 0real) by (nonlinear_arith);
    lemma_angle_whole(v, co, si, 1, m);
    assert(1 * m == m);
    assert forall|a: int, b: int| #[trigger] pmul(w(a), w(b)) == w(a + b) by {
        lemma_angle_add(p, a, b, m);
        lemma_circle_add(v, co, si, angle(p, a, m), angle(p, b, m));
    }
    assert forall|a: int| #[trigger] pconj(w(a)) == w(-a) by {
        let x = a as real;
        assert((-a) as real == -x);
        assert(-x * u == -(x * u)) by (nonlinear_arith);
        lemma_circle_marks(v, co, si, angle(p, a, m));
    }
    assert forall|a: int| 0 < a < n implies (#[trigger] w(a)).0 != 1real by {
        lemma_short(v, co, si, a, m);
    }
}

/// One of `n` equal shares.
pub open spec fn share(n: nat) -> (real, real) {
    pt(1real / (n as real))
}

/// As many shares as there are make the whole.
proof fn lemma_shares(z: (real, real), n: nat)
    requires
        n > 0,
    ensures
        pmul(pmul(z, pt(n as real)), share(n)) == z,
{
    let c = n as real;
    let d = 1real / c;
    assert(c * d == 1real) by (nonlinear_arith)
        requires
            c > 0real,
            d == 1real / c,
    ;
    lemma_pmul_assoc(z, pt(c), share(n));
    assert(pmul(pt(c), pt(d)) == pt(1real)) by {
        reveal(pmul);
    }
    lemma_pmul_simple(z);
}

/// The inverse transform of a row is the spectrum by the opposite root, shared out.
pub proof fn lemma_ifft_val<S: Real>(
    v: spec_fn(S) -> real,
    co: spec_fn(real) -> real,
    si: spec_fn(real) -> real,
    s: Seq<Complex<S>>,
    j: int,
)
    requires
        exact_circle(v, co, si),
        is_pow2(s.len() as int),
        s.len() <= usize::MAX,
        0 <= j < s.len(),
    ensures
        val(v, ifft_of(s)[j]) == pmul(
            spectrum(
                backwards(waves(v(pi_of::<S>()), co, si, s.len() as int)),
                vals(v, s),
                s.len(),
                j,
            ),
            share(s.len()),
        ),
{
    let n = s.len();
    let p = v(pi_of::<S>());
    let w = waves(p, co, si, n as int);
    let bw = backwards(w);
    let x = vals(v, s);
    let t = conj_all(s);
    let y = vals(v, t);
    law_fft_is_dft(v, co, si, t, j);
    lemma_circle_marks(v, co, si, 0real);
    lemma_waves_are_roots(v, co, si, n);
    let there = |k: int| pmul(y(k), w(k * j));
    let mirrored = |k: int| pconj(there(k));
    let back = |k: int| pmul(x(k), bw(k * j));
    lemma_psum_conj(there, n);
    assert forall|k: int| 0 <= k < n implies #[trigger] mirrored(k) == back(k) by {
        reveal(roots);
        lemma_pconj_pmul(y(k), w(k * j));
        lemma_pconj_pmul(x(k), x(k));
        assert(t[k] == conj_of(s[k]));
        assert(y(k) == pconj(x(k)));
        assert(pconj(w(k * j)) == w(-(k * j)));
    }
    lemma_psum_same(mirrored, back, n);
    let a = psum(there, n);
    let b = psum(back, n);
    assert(b == pconj(a));
    let c = n as real;
    assert(v(count_of::<S>(n as usize)) == c);
    let d = 1real / c;
    lemma_over(a.0, c);
    lemma_over(-a.1, c);
    assert(pmul(b, share(n)) == (b.0 * d, b.1 * d)) by {
        reveal(pmul);
    }
}

/// Dividing is multiplying by a share.
proof fn lemma_over(x: real, c: real)
    requires
        c > 0real,
    ensures
        x / c == x * (1real / c),
{
    assert(x / c == x * (1real / c)) by (nonlinear_arith)
        requires
            c > 0real,
    ;
}

/// The inverse transform of the transform of a row gives every number back, wherever
/// arithmetic does not round.
pub proof fn law_ifft_undoes_fft<S: Real>(
    v: spec_fn(S) -> real,
    co: spec_fn(real) -> real,
    si: spec_fn(real) -> real,
    s: Seq<Complex<S>>,
    j: int,
)
    requires
        exact_circle(v, co, si),
        is_pow2(s.len() as int),
        s.len() <= usize::MAX,
        0 <= j < s.len(),
    ensures
        ifft_of(fft_of(s)).len() == s.len(),
        val(v, ifft_of(fft_of(s))[j]) == val(v, s[j]),
{
    let n = s.len();
    let bits = lemma_bits(n);
    lemma_fft_len(s, bits);
    let w = waves(v(pi_of::<S>()), co, si, n as int);
    let t = fft_of(s);
    let x = vals(v, s);
    lemma_ifft_val(v, co, si, t, j);
    assert forall|k: int| 0 <= k < n implies #[trigger] vals(v, t)(k) == spectra(w, x, n)(k) by {
        law_fft_is_dft(v, co, si, s, k);
    }
    lemma_spectrum_same(backwards(w), vals(v, t), spectra(w, x, n), n, j);
    lemma_waves_are_roots(v, co, si, n);
    lemma_there_and_back(w, x, n, j);
    lemma_shares(x(j), n);
}

/// The transform of the inverse transform of a row gives every number back, wherever
/// arithmetic does not round.
pub proof fn law_fft_undoes_ifft<S: Real>(
    v: spec_fn(S) -> real,
    co: spec_fn(real) -> real,
    si: spec_fn(real) -> real,
    s: Seq<Complex<S>>,
    k: int,
)
    requires
        exact_circle(v, co, si),
        is_pow2(s.len() as int),
        s.len() <= usize::MAX,
        0 <= k < s.len(),
    ensures
        fft_of(ifft_of(s)).len() == s.len(),
        val(v, fft_of(ifft_of(s))[k]) == val(v, s[k]),
{
    let n = s.len();
    let bits = lemma_bits(n);
    lemma_fft_len(conj_all(s), bits);
    let t = ifft_of(s);
    lemma_fft_len(t, bits);
    let w = waves(v(pi_of::<S>()), co, si, n as int);
    let bw = backwards(w);
    let x = vals(v, s);
    let there = spectra(bw, x, n);
    let shared = |j: int| pmul(there(j), share(n));
    law_fft_is_dft(v, co, si, t, k);
    assert forall|j: int| 0 <= j < n implies #[trigger] vals(v, t)(j) == shared(j) by {
        lemma_ifft_val(v, co, si, s, j);
    }
    lemma_spectrum_same(w, vals(v, t), shared, n, k);
    lemma_spectrum_scale(w, there, n, k, share(n));
    lemma_waves_are_roots(v, co, si, n);
    lemma_backwards(w, n);
    lemma_backwards_twice(w, there, n, k);
    lemma_there_and_back(bw, x, n, k);
    lemma_shares(x(k), n);
}

/// The points for which the numbers of a plane stand.
pub open spec fn plane_vals<S: Real>(
    v: spec_fn(S) -> real,
    f: spec_fn(int, int) -> Complex<S>,
) -> spec_fn(int, int) -> (real, real) {
    |i: int, j: int| val(v, f(i, j))
}

/// The transform of a square plane is its spectrum.
pub proof fn lemma_plane_forward<S: Real>(
    v: spec_fn(S) -> real,
    co: spec_fn(real) -> real,
    si: spec_fn(real) -> real,
    f: spec_fn(int, int) -> Complex<S>,
    n: nat,
    k: int,
    l: int,
)
    requires
        exact_circle(v, co, si),
        is_pow2(n as int),
        n <= usize::MAX,
        0 <= k < n,
        0 <= l < n,
    ensures
        val(v, plane_of(false, f, n)(k, l)) == square_spectrum(
            waves(v(pi_of::<S>()), co, si, n as int),
            plane_vals(v, f),
            n,
            k,
            l,
        ),
{
    let w = waves(v(pi_of::<S>()), co, si, n as int);
    let x = plane_vals(v, f);
    let column = Seq::new(n, |r: int| rows_of(false, f, n)(r, l));
    law_fft_is_dft(v, co, si, column, k);
    let want = |i: int| spectrum(w, |j: int| x(i, j), n, l);
    assert forall|i: int| 0 <= i < n implies #[trigger] vals(v, column)(i) == want(i) by {
        let row = Seq::new(n, |c: int| f(i, c));
        law_fft_is_dft(v, co, si, row, l);
        lemma_spectrum_same(w, vals(v, row), |j: int| x(i, j), n, l);
    }
    lemma_spectrum_same(w, vals(v, column), want, n, k);
}

/// The inverse transform of a square plane is its spectrum by the opposite root, shared
/// out.
pub proof fn lemma_plane_back<S: Real>(
    v: spec_fn(S) -> real,
    co: spec_fn(real) -> real,
    si: spec_fn(real) -> real,
    f: spec_fn(int, int) -> Complex<S>,
    n: nat,
    a: int,
    b: int,
)
    requires
        exact_circle(v, co, si),
        is_pow2(n as int),
        n <= usize::MAX,
        0 <= a < n,
        0 <= b < n,
    ensures
        ({
            let bw = backwards(waves(v(pi_of::<S>()), co, si, n as int));
            let x = plane_vals(v, f);
            val(v, plane_of(true, f, n)(a, b)) == pmul(
                spectrum(
                    bw,
                    |k: int| pmul(spectrum(bw, |l: int| x(k, l), n, b), share(n)),
                    n,
                    a,
                ),
                share(n),
            )
        }),
{
    let bw = backwards(waves(v(pi_of::<S>()), co, si, n as int));
    let x = plane_vals(v, f);
    let column = Seq::new(n, |r: int| rows_of(true, f, n)(r, b));
    lemma_ifft_val(v, co, si, column, a);
    let want = |k: int| pmul(spectrum(bw, |l: int| x(k, l), n, b), share(n));
    assert forall|k: int| 0 <= k < n implies #[trigger] vals(v, column)(k) == want(k) by {
        let row = Seq::new(n, |c: int| f(k, c));
        lemma_ifft_val(v, co, si, row, b);
        lemma_spectrum_same(bw, vals(v, row), |l: int| x(k, l), n, b);
    }
    lemma_spectrum_same(bw, vals(v, column), want, n, a);
}

/// A square plane whose spectrum is given is brought back by the inverse transform.
pub proof fn lemma_plane_of_spectrum<S: Real>(
    v: spec_fn(S) -> real,
    co: spec_fn(real) -> real,
    si: spec_fn(real) -> real,
    f: spec_fn(int, int) -> Complex<S>,
    x: spec_fn(int, int) -> (real, real),
    n: nat,
    a: int,
    b: int,
)
    requires
        exact_circle(v, co, si),
        is_pow2(n as int),
        n <= usize::MAX,
        0 <= a < n,
        0 <= b < n,
        forall|k: int, l: int|
            0 <= k < n && 0 <= l < n ==> #[trigger] plane_vals(v, f)(k, l) == square_spectrum(
                waves(v(pi_of::<S>()), co, si, n as int),
                x,
                n,
                k,
                l,
            ),
    ensures
        val(v, plane_of(true, f, n)(a, b)) == x(a, b),
{
    let w = waves(v(pi_of::<S>()), co, si, n as int);
    let bw = backwards(w);
    let y = plane_vals(v, f);
    lemma_waves_are_roots(v, co, si, n);
    lemma_plane_back(v, co, si, f, n, a, b);
    let rows = |k: int| pmul(spectrum(bw, |l: int| y(k, l), n, b), share(n));
    let column = |i: int| x(i, b);
    let there = spectra(w, column, n);
    assert forall|k: int| 0 <= k < n implies #[trigger] rows(k) == there(k) by {
        let given = |l: int| square_spectrum(w, x, n, k, l);
        let found = |l: int| y(k, l);
        assert forall|l: int| 0 <= l < n implies #[trigger] found(l) == given(l) by {
            assert(y(k, l) == square_spectrum(w, x, n, k, l));
        }
        lemma_spectrum_same(bw, found, given, n, b);
        lemma_rows_back(w, x, n, k, b);
        lemma_shares(there(k), n);
    }
    lemma_spectrum_same(bw, rows, there, n, a);
    lemma_there_and_back(w, column, n, a);
    lemma_shares(x(a, b), n);
}

/// The inverse transform of the transform of a square plane gives every number back,
/// wherever arithmetic does not round.
pub proof fn law_ifft_2d_undoes_fft_2d<S: Real>(
    v: spec_fn(S) -> real,
    co: spec_fn(real) -> real,
    si: spec_fn(real) -> real,
    f: spec_fn(int, int) -> Complex<S>,
    n: nat,
    a: int,
    b: int,
)
    requires
        exact_circle(v, co, si),
        is_pow2(n as int),
        n <= usize::MAX,
        0 <= a < n,
        0 <= b < n,
    ensures
        val(v, plane_of(true, plane_of(false, f, n), n)(a, b)) == val(v, f(a, b)),
{
    let there = plane_of(false, f, n);
    let x = plane_vals(v, f);
    assert forall|k: int, l: int|
        0 <= k < n && 0 <= l < n implies #[trigger] plane_vals(v, there)(k, l) == square_spectrum(
        waves(v(pi_of::<S>()), co, si, n as int),
        x,
        n,
        k,
        l,
    ) by {
        lemma_plane_forward(v, co, si, f, n, k, l);
    }
    lemma_plane_of_spectrum(v, co, si, there, x, n, a, b);
}

/// The transform of the inverse transform of a square plane gives every number back,
/// wherever arithmetic does not round.
pub proof fn law_fft_2d_undoes_ifft_2d<S: Real>(
    v: spec_fn(S) -> real,
    co: spec_fn(real) -> real,
    si: spec_fn(real) -> real,
    f: spec_fn(int, int) -> Complex<S>,
    n: nat,
    k: int,
    l: int,
)
    requires
        exact_circle(v, co, si),
        is_pow2(n as int),
        n <= usize::MAX,
        0 <= k < n,
        0 <= l < n,
    ensures
        val(v, plane_of(false, plane_of(true, f, n), n)(k, l)) == val(v, f(k, l)),
{
    let w = waves(v(pi_of::<S>()), co, si, n as int);
    let bw = backwards(w);
    let x = plane_vals(v, f);
    let g = plane_of(true, f, n);
    let y = plane_vals(v, g);
    lemma_waves_are_roots(v, co, si, n);
    lemma_backwards(w, n);
    lemma_plane_forward(v, co, si, g, n, k, l);
    let column = |i: int| x(i, l);
    let there = spectra(bw, column, n);
    let shared = |a: int| pmul(there(a), share(n));
    let rows = |a: int| spectrum(w, |b: int| y(a, b), n, l);
    assert forall|a: int| 0 <= a < n implies #[trigger] rows(a) == shared(a) by {
        let square = |b: int| square_spectrum(bw, x, n, a, b);
        let once = |b: int| pmul(square(b), share(n));
        let twice = |b: int| pmul(once(b), share(n));
        let found = |b: int| y(a, b);
        assert forall|b: int| 0 <= b < n implies #[trigger] found(b) == twice(b) by {
            lemma_plane_back(v, co, si, f, n, a, b);
            let inner = |c: int| spectrum(bw, |d: int| x(c, d), n, b);
            lemma_spectrum_scale(bw, inner, n, a, share(n));
            lemma_spectrum_same(
                bw,
                |c: int| pmul(spectrum(bw, |d: int| x(c, d), n, b), share(n)),
                |c: int| pmul(inner(c), share(n)),
                n,
                a,
            );
        }
        lemma_spectrum_same(w, found, twice, n, l);
        lemma_spectrum_scale(w, once, n, l, share(n));
        lemma_spectrum_scale(w, square, n, l, share(n));
        lemma_backwards_twice(w, square, n, l);
        lemma_rows_back(bw, x, n, a, l);
        lemma_shares(there(a), n);
    }
    lemma_spectrum_same(w, rows, shared, n, k);
    lemma_spectrum_scale(w, there, n, k, share(n));
    lemma_backwards_twice(w, there, n, k);
    lemma_there_and_back(bw, column, n, k);
    lemma_shares(x(k, l), n);
}

} // verus!
