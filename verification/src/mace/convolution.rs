//! Products of spectra are convolutions, where arithmetic does not round.

use crate::complex::Complex;
use crate::scalar::Real;
use vstd::prelude::*;

verus! {

use crate::exact::{lemma_rsum2_same, lemma_rsum_cycle, lemma_rsum_same, rsum, rsum2};
use crate::mace::circle::{exact_circle, lemma_circle_marks};
use crate::mace::fft::plane_of;
use crate::mace::fourier::waves;
use crate::mace::inverse::{
    lemma_plane_forward, lemma_plane_of_spectrum, lemma_waves_are_roots, plane_vals,
};
use crate::mace::points::{
    lemma_pmul_assoc, lemma_pmul_comm, lemma_pmul_simple, lemma_psum_exchange, lemma_psum_same,
    lemma_psum_scale, pmul, psum,
};
use crate::mace::spectrum::{
    lemma_every_power, lemma_powers, lemma_spectrum_same, lemma_swap, roots, spectrum,
    square_spectrum,
};
use crate::mace::step::{conv_of, filtered, lifted};
use crate::scalar::pi_of;
use vstd::arithmetic::div_mod::lemma_fundamental_div_mod;
use vstd::arithmetic::power2::is_pow2;

/// A sum of points is the sum of its parts.
pub proof fn lemma_psum_parts(f: spec_fn(int) -> (real, real), n: nat)
    ensures
        psum(f, n) == (rsum(|i: int| f(i).0, n), rsum(|i: int| f(i).1, n)),
    decreases n,
{
    if n > 0 {
        lemma_psum_parts(f, (n - 1) as nat);
    }
}

/// A sum over a circle can start anywhere.
proof fn lemma_psum_cycle(f: spec_fn(int) -> (real, real), n: nat, d: int)
    requires
        n > 0,
    ensures
        psum(|i: int| f((i - d) % (n as int)), n) == psum(f, n),
{
    let g = |i: int| f((i - d) % (n as int));
    lemma_psum_parts(f, n);
    lemma_psum_parts(g, n);
    let f0 = |i: int| f(i).0;
    let f1 = |i: int| f(i).1;
    lemma_rsum_cycle(f0, n, d);
    lemma_rsum_cycle(f1, n, d);
    lemma_rsum_same(|i: int| g(i).0, |i: int| f0((i - d) % (n as int)), n);
    lemma_rsum_same(|i: int| g(i).1, |i: int| f1((i - d) % (n as int)), n);
}

/// The convolution of two circles of points.
pub open spec fn circled(
    x: spec_fn(int) -> (real, real),
    y: spec_fn(int) -> (real, real),
    n: nat,
) -> spec_fn(int) -> (real, real) {
    |a: int| psum(|i: int| pmul(y((a - i) % (n as int)), x(i)), n)
}

/// The spectrum of a convolution is the product of the spectra.
proof fn lemma_spectrum_circled(
    w: spec_fn(int) -> (real, real),
    x: spec_fn(int) -> (real, real),
    y: spec_fn(int) -> (real, real),
    n: nat,
    k: int,
)
    requires
        roots(w, n),
        n > 0,
    ensures
        spectrum(w, circled(x, y, n), n, k) == pmul(spectrum(w, x, n, k), spectrum(w, y, n, k)),
{
    let m = n as int;
    let a = |i: int, l: int| y((l - i) % m);
    let t = |l: int| w(l * k);
    lemma_swap(a, x, t, n, n);
    let z = circled(x, y, n);
    let given = |l: int| pmul(z(l), w(l * k));
    let left = |l: int| pmul(psum(|i: int| pmul(a(i, l), x(i)), n), t(l));
    assert forall|l: int| 0 <= l < n implies #[trigger] given(l) == left(l) by {
        lemma_psum_same(
            |i: int| pmul(y((l - i) % (n as int)), x(i)),
            |i: int| pmul(a(i, l), x(i)),
            n,
        );
    }
    lemma_psum_same(given, left, n);
    let whole = spectrum(w, y, n, k);
    let right = |i: int| pmul(psum(|l: int| pmul(a(i, l), t(l)), n), x(i));
    let terms = |i: int| pmul(x(i), w(i * k));
    let scaled = |i: int| pmul(terms(i), whole);
    assert forall|i: int| 0 <= i < n implies #[trigger] right(i) == scaled(i) by {
        let f = |l: int| pmul(y(l), w(l * k));
        let g = |l: int| pmul(f(l), w(i * k));
        let h = |l: int| pmul(a(i, l), t(l));
        lemma_psum_scale(f, w(i * k), n);
        lemma_psum_cycle(g, n, i);
        let turned = |l: int| g((l - i) % m);
        assert forall|l: int| 0 <= l < n implies #[trigger] h(l) == turned(l) by {
            let r = (l - i) % m;
            lemma_pmul_assoc(y(r), w(r * k), w(i * k));
            lemma_powers(w, n, r * k, i * k);
            lemma_around(w, n, l, i, k);
        }
        lemma_psum_same(h, turned, n);
        let c = w(i * k);
        lemma_pmul_comm(pmul(whole, c), x(i));
        lemma_pmul_comm(whole, c);
        lemma_pmul_assoc(x(i), c, whole);
    }
    lemma_psum_same(right, scaled, n);
    lemma_psum_scale(terms, whole, n);
}

/// Powers go round with their places.
proof fn lemma_around(w: spec_fn(int) -> (real, real), n: nat, l: int, i: int, k: int)
    requires
        roots(w, n),
        n > 0,
    ensures
        w(((l - i) % (n as int)) * k + i * k) == w(l * k),
{
    let m = n as int;
    let q = (l - i) / m;
    let r = (l - i) % m;
    lemma_fundamental_div_mod(l - i, m);
    assert(l * k == (r * k + i * k) + (q * k) * m) by (nonlinear_arith)
        requires
            l - i == m * q + r,
    ;
    lemma_every_power(w, n, q * k);
    lemma_powers(w, n, r * k + i * k, (q * k) * m);
    lemma_pmul_simple(w(r * k + i * k));
}

/// The spectrum of a sum is the sum of the spectra.
proof fn lemma_spectrum_sum(
    w: spec_fn(int) -> (real, real),
    c: spec_fn(int, int) -> (real, real),
    n: nat,
    l: int,
)
    ensures
        spectrum(w, |b: int| psum(|i: int| c(i, b), n), n, l) == psum(
            |i: int| spectrum(w, |b: int| c(i, b), n, l),
            n,
        ),
{
    let f = |b: int, i: int| pmul(c(i, b), w(b * l));
    let sums = |b: int| psum(|i: int| c(i, b), n);
    let left = |b: int| pmul(sums(b), w(b * l));
    let rows = |b: int| psum(|i: int| f(b, i), n);
    assert forall|b: int| 0 <= b < n implies #[trigger] left(b) == rows(b) by {
        let inner = |i: int| c(i, b);
        lemma_psum_scale(inner, w(b * l), n);
        lemma_psum_same(|i: int| pmul(inner(i), w(b * l)), |i: int| f(b, i), n);
    }
    lemma_psum_same(left, rows, n);
    lemma_psum_exchange(f, n, n);
    let columns = |i: int| psum(|b: int| f(b, i), n);
    let right = |i: int| spectrum(w, |b: int| c(i, b), n, l);
    assert forall|i: int| 0 <= i < n implies #[trigger] columns(i) == right(i) by {
        let line = |b: int| c(i, b);
        lemma_psum_same(|b: int| f(b, i), |b: int| pmul(line(b), w(b * l)), n);
    }
    lemma_psum_same(columns, right, n);
}

/// The convolution of two squares of points whose opposite edges touch.
pub open spec fn torus_circled(
    x: spec_fn(int, int) -> (real, real),
    y: spec_fn(int, int) -> (real, real),
    n: nat,
) -> spec_fn(int, int) -> (real, real) {
    |a: int, b: int|
        psum(
            |i: int|
                circled(|j: int| x(i, j), |j: int| y((a - i) % (n as int), j), n)(b),
            n,
        )
}

/// The spectrum of a convolution of squares is the product of the spectra.
pub proof fn lemma_square_circled(
    w: spec_fn(int) -> (real, real),
    x: spec_fn(int, int) -> (real, real),
    y: spec_fn(int, int) -> (real, real),
    n: nat,
    k: int,
    l: int,
)
    requires
        roots(w, n),
        n > 0,
    ensures
        square_spectrum(w, torus_circled(x, y, n), n, k, l) == pmul(
            square_spectrum(w, x, n, k, l),
            square_spectrum(w, y, n, k, l),
        ),
{
    let m = n as int;
    let z = torus_circled(x, y, n);
    let xs = |i: int| spectrum(w, |j: int| x(i, j), n, l);
    let ys = |i: int| spectrum(w, |j: int| y(i, j), n, l);
    let zs = |a: int| spectrum(w, |b: int| z(a, b), n, l);
    let want = circled(xs, ys, n);
    assert forall|a: int| 0 <= a < n implies #[trigger] zs(a) == want(a) by {
        let c = |i: int, b: int|
            circled(|j: int| x(i, j), |j: int| y((a - i) % m, j), n)(b);
        let line = |b: int| z(a, b);
        lemma_spectrum_sum(w, c, n, l);
        let sums = |b: int| psum(|i: int| c(i, b), n);
        assert forall|b: int| 0 <= b < n implies #[trigger] line(b) == sums(b) by {
            lemma_psum_same(
                |i: int| circled(|j: int| x(i, j), |j: int| y((a - i) % m, j), n)(b),
                |i: int| c(i, b),
                n,
            );
        }
        lemma_spectrum_same(w, line, sums, n, l);
        let parts = |i: int| spectrum(w, |b: int| c(i, b), n, l);
        let products = |i: int| pmul(ys((a - i) % m), xs(i));
        assert forall|i: int| 0 <= i < n implies #[trigger] parts(i) == products(i) by {
            let xi = |j: int| x(i, j);
            let yi = |j: int| y((a - i) % m, j);
            lemma_spectrum_circled(w, xi, yi, n, l);
            lemma_spectrum_same(w, |b: int| c(i, b), circled(xi, yi, n), n, l);
            lemma_spectrum_same(w, yi, |j: int| y((a - i) % m, j), n, l);
            lemma_pmul_comm(xs(i), ys((a - i) % m));
        }
        lemma_psum_same(parts, products, n);
    }
    lemma_spectrum_same(w, zs, want, n, k);
    lemma_spectrum_circled(w, xs, ys, n, k);
}

/// The sum of a channel's values, each times the kernel's value at the offset that leads
/// from its cell to `(a, b)` around the edges.
pub open spec fn convolved<S: Real>(
    v: spec_fn(S) -> real,
    channel: spec_fn(int, int) -> S,
    kernel: spec_fn(int, int) -> Complex<S>,
    n: nat,
    a: int,
    b: int,
) -> real {
    rsum2(
        |i: int, j: int|
            v(channel(i, j)) * v(kernel((a - i) % (n as int), (b - j) % (n as int)).re),
        n,
    )
}

/// What a step calls the convolution of a kernel with its channel is their convolution
/// around the edges of the plane, wherever arithmetic does not round.
pub proof fn law_conv_is_convolution<S: Real>(
    v: spec_fn(S) -> real,
    co: spec_fn(real) -> real,
    si: spec_fn(real) -> real,
    channels: spec_fn(int, int, int) -> S,
    kernels: spec_fn(int, int, int) -> Complex<S>,
    kernel: spec_fn(int, int) -> Complex<S>,
    c0: Seq<usize>,
    n: nat,
    k: int,
    a: int,
    b: int,
)
    requires
        exact_circle(v, co, si),
        is_pow2(n as int),
        n <= usize::MAX,
        0 <= a < n,
        0 <= b < n,
        forall|i: int, j: int|
            0 <= i < n && 0 <= j < n ==> #[trigger] kernels(k, i, j) == plane_of(false, kernel, n)(
                i,
                j,
            ),
    ensures
        v(conv_of(channels, kernels, c0, n)(k, a, b)) == convolved(
            v,
            |i: int, j: int| channels(c0[k] as int, i, j),
            kernel,
            n,
            a,
            b,
        ),
{
    let w = waves(v(pi_of::<S>()), co, si, n as int);
    let m = n as int;
    let f = lifted(channels, c0[k] as int);
    let x = plane_vals(v, f);
    let y = plane_vals(v, kernel);
    let z = torus_circled(x, y, n);
    let product = filtered(channels, kernels, c0, n, k);
    lemma_circle_marks(v, co, si, 0real);
    lemma_waves_are_roots(v, co, si, n);
    assert forall|p: int, q: int|
        0 <= p < n && 0 <= q < n implies #[trigger] plane_vals(v, product)(p, q)
        == square_spectrum(w, z, n, p, q) by {
        lemma_plane_forward(v, co, si, f, n, p, q);
        lemma_plane_forward(v, co, si, kernel, n, p, q);
        lemma_square_circled(w, x, y, n, p, q);
        assert(kernels(k, p, q) == plane_of(false, kernel, n)(p, q));
        reveal(pmul);
    }
    lemma_plane_of_spectrum(v, co, si, product, z, n, a, b);
    let channel = |i: int, j: int| channels(c0[k] as int, i, j);
    lemma_circled_real(x, y, n, a, b);
    lemma_rsum2_same(
        |i: int, j: int| x(i, j).0 * y((a - i) % m, (b - j) % m).0,
        |i: int, j: int|
            v(channel(i, j)) * v(kernel((a - i) % (n as int), (b - j) % (n as int)).re),
        n,
    );
    lemma_rsum2_same(
        |i: int, j: int|
            v(channel(i, j)) * v(kernel((a - i) % (n as int), (b - j) % (n as int)).re),
        |i: int, j: int|
            v(channels(c0[k] as int, i, j)) * v(
                kernel((a - i) % (n as int), (b - j) % (n as int)).re,
            ),
        n,
    );
}

/// The real part of a convolution with points of the real axis.
pub proof fn lemma_circled_real(
    x: spec_fn(int, int) -> (real, real),
    y: spec_fn(int, int) -> (real, real),
    n: nat,
    a: int,
    b: int,
)
    requires
        forall|i: int, j: int| 0 <= i < n && 0 <= j < n ==> (#[trigger] x(i, j)).1 == 0real,
    ensures
        torus_circled(x, y, n)(a, b).0 == rsum2(
            |i: int, j: int| x(i, j).0 * y((a - i) % (n as int), (b - j) % (n as int)).0,
            n,
        ),
{
    let m = n as int;
    let flat = |i: int, j: int| x(i, j).0 * y((a - i) % m, (b - j) % m).0;
    let rows = |i: int| circled(|j: int| x(i, j), |j: int| y((a - i) % m, j), n)(b);
    lemma_psum_parts(rows, n);
    let firsts = |i: int| rows(i).0;
    let sums = |i: int| rsum(|j: int| flat(i, j), n);
    assert forall|i: int| 0 <= i < n implies #[trigger] firsts(i) == sums(i) by {
        let xi = |j: int| x(i, j);
        let yi = |j: int| y((a - i) % m, j);
        let line = |j: int| pmul(yi((b - j) % m), xi(j));
        lemma_psum_parts(line, n);
        let reals = |j: int| line(j).0;
        let wanted = |j: int| flat(i, j);
        assert forall|j: int| 0 <= j < n implies #[trigger] reals(j) == wanted(j) by {
            reveal(pmul);
            assert(x(i, j).1 == 0real);
            lemma_real_product(xi(j).0, yi((b - j) % m).0, yi((b - j) % m).1);
        }
        lemma_rsum_same(reals, wanted, n);
    }
    lemma_rsum_same(firsts, sums, n);
}

/// A product with a number of the real axis.
proof fn lemma_real_product(x: real, y: real, z: real)
    ensures
        y * x - z * 0real == x * y,
{
    assert(y * x == x * y) by (nonlinear_arith);
    assert(z * 0real == 0real) by (nonlinear_arith);
}

} // verus!
