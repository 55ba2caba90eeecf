//! What a Diffusion Lenia world starts from, where arithmetic does not round: round rings,
//! round blobs, graded growth.

use crate::complex::Complex;
use crate::field::Plane;
use crate::mace::setup::{
    generate_growth_params, generate_kernels_fft, generate_seed, radii, sigmoid, widths,
    GrowthParams, C, K,
};
use crate::scalar::Real;
use vstd::prelude::*;

verus! {

use crate::analysis::{
    exact_decimals, exact_exp, exact_order, exact_root, exact_tanh, lemma_assoc, lemma_cancel,
    lemma_exponent, lemma_quotient, lemma_root, lemma_scaled, lemma_square, lemma_tens, tens,
};
use crate::exact::{lemma_rsum_same, rsum, rsum2};
use crate::mace::circle::{exact_circle, val};
use crate::mace::conservation::lemma_rsum_positive;
use crate::mace::fft::swapped;
use crate::mace::fourier::waves;
use crate::mace::inverse::{lemma_plane_forward, plane_vals};
use crate::mace::points::{lemma_psum_same, pmul, psum, pt};
use crate::mace::setup::{
    blob_of, blob_sigmas, blob_xs, blob_ys, centred, kernel_fft_of, radii_of, ring_of, sigmoid_of,
    widths_of,
};
use crate::mace::spectrum::{lemma_spectrum_same, lemma_swap, spectrum, square_spectrum};
use crate::mace::sums::{lemma_plane_exact, plane_total};
use crate::scalar::{
    count_of, decimal_of, functional, integer_of, minus_of, neg_of, over_of, pi_of, plus_of,
    sqrt_of, times_of,
};
use vstd::arithmetic::div_mod::{lemma_fundamental_div_mod_converse, lemma_small_mod};
use vstd::arithmetic::power2::is_pow2;

/// The smooth step of kernel envelopes rises from zero to one, is a half at zero, and the two
/// sides of zero add up to one.
pub proof fn law_sigmoid_is_a_step<S: Real>(
    v: spec_fn(S) -> real,
    th: spec_fn(real) -> real,
    x: S,
    y: S,
    a: S,
    b: S,
)
    requires
        exact_tanh(v, th),
        functional::<S>(),
        call_ensures(sigmoid::<S>, (x,), a),
        call_ensures(sigmoid::<S>, (y,), b),
    ensures
        0real < v(a) < 1real,
        2real * v(a) == 1real + th(v(x) / 2real),
        v(x) == 0real ==> 2real * v(a) == 1real,
        v(x) < v(y) ==> v(a) < v(b),
        v(x) == -v(y) ==> v(a) + v(b) == 1real,
{
    let p = v(x) / 2real;
    let q = v(y) / 2real;
    assert(v(x) * (1real / 2real) == p);
    assert(v(y) * (1real / 2real) == q);
    assert(th(-q) == -th(q));
}

/// The square of a difference of places.
pub proof fn lemma_apart(i: int, mid: int)
    ensures
        (i as real - mid as real) * (i as real - mid as real) == ((i - mid) * (i - mid)) as real,
{
    let d = i - mid;
    let x = d as real;
    assert(i as real - mid as real == x);
    assert(x * x == (d * d) as real) by (nonlinear_arith)
        requires
            x == d as real,
    ;
}

/// A ring is round: its value at a place depends on nothing but the distance `d` from the
/// middle in units of ten radii. It is a bump at half that distance, as wide as the width,
/// under a smooth step down at one; `g` is the exponent of the bump.
pub proof fn law_ring_is_round<S: Real>(
    v: spec_fn(S) -> real,
    ex: spec_fn(real) -> real,
    th: spec_fn(real) -> real,
    n: usize,
    radius: S,
    width: S,
    i: int,
    j: int,
    d: real,
    g: real,
)
    requires
        exact_root(v),
        exact_exp(v, ex),
        exact_tanh(v, th),
        v(radius) > 0real,
        v(width) != 0real,
        0 <= i < n,
        0 <= j < n,
        d >= 0real,
        (10real * v(radius) * d) * (10real * v(radius) * d) == ((i - n / 2) * (i - n / 2) + (j - n
            / 2) * (j - n / 2)) as real,
        g * (2real * (v(width) * v(width))) == -((d - 1real / 2real) * (d - 1real / 2real)),
    ensures
        v(ring_of(n, radius, width)(i, j)) == ((1real + th(5real * (1real - d))) / 2real) * ex(g),
{
    let mid = (n / 2) as int;
    let di = minus_of(count_of::<S>(i as usize), count_of::<S>((n / 2) as usize));
    let dj = minus_of(count_of::<S>(j as usize), count_of::<S>((n / 2) as usize));
    lemma_apart(i, mid);
    lemma_apart(j, mid);
    let x = plus_of(times_of(di, di), times_of(dj, dj));
    let r = 10real * v(radius);
    let h = r * d;
    assert(h >= 0real) by (nonlinear_arith)
        requires
            r > 0real,
            d >= 0real,
            h == r * d,
    ;
    assert(v(x) == h * h);
    lemma_root(v, x, h);
    lemma_scaled(d, r, h);
    assert(v(integer_of::<S>(10i64)) == 10real);
    assert(v(integer_of::<S>(1i64)) == 1real);
    assert(v(integer_of::<S>(2i64)) == 2real);
    let ds = over_of(sqrt_of(x), times_of(integer_of::<S>(10i64), radius));
    assert(v(ds) == d);
    let arg = times_of(
        neg_of(minus_of(ds, integer_of::<S>(1i64))),
        integer_of::<S>(10i64),
    );
    assert(v(arg) == -(d - 1real) * 10real);
    assert(v(times_of(arg, decimal_of::<S>(5i64, 1u32))) == 5real * (1real - d));
    assert(v(sigmoid_of(arg)) == (1real + th(5real * (1real - d))) / 2real);
    let diff = minus_of(ds, decimal_of::<S>(5i64, 1u32));
    let e = d - 1real / 2real;
    assert(v(diff) == e);
    lemma_exponent(-(e * e), v(width), g);
    let w2 = times_of(times_of(integer_of::<S>(2i64), width), width);
    assert(v(w2) == (2real * v(width)) * v(width));
    lemma_square(v(width));
    lemma_assoc(2real, v(width), v(width));
    assert(v(w2) != 0real);
}

/// Two places of a ring that are as far from its middle hold the same: the ring is the same
/// along rows and columns and on all sides.
pub proof fn law_ring_is_symmetric<S: Real>(
    v: spec_fn(S) -> real,
    ex: spec_fn(real) -> real,
    th: spec_fn(real) -> real,
    n: usize,
    radius: S,
    width: S,
    i: int,
    j: int,
    k: int,
    l: int,
)
    requires
        exact_root(v),
        exact_exp(v, ex),
        exact_tanh(v, th),
        v(radius) > 0real,
        v(width) != 0real,
        0 <= i < n,
        0 <= j < n,
        0 <= k < n,
        0 <= l < n,
        (i - n / 2) * (i - n / 2) + (j - n / 2) * (j - n / 2) == (k - n / 2) * (k - n / 2) + (l - n
            / 2) * (l - n / 2),
    ensures
        v(ring_of(n, radius, width)(i, j)) == v(ring_of(n, radius, width)(k, l)),
{
    let mid = (n / 2) as int;
    let a = i - mid;
    let b = j - mid;
    let whole = a * a + b * b;
    assert(a * a >= 0 && b * b >= 0) by (nonlinear_arith);
    let x = lemma_some_root(v, n, i, j);
    let r = 10real * v(radius);
    let d = x / r;
    lemma_quotient(x, r);
    lemma_assoc(d, r, 1real);
    assert(d >= 0real) by (nonlinear_arith)
        requires
            d * r == x,
            x >= 0real,
            r > 0real,
    ;
    let e = d - 1real / 2real;
    let c = 2real * (v(width) * v(width));
    lemma_square(v(width));
    let g = -(e * e) / c;
    lemma_quotient(-(e * e), c);
    law_ring_is_round(v, ex, th, n, radius, width, i, j, d, g);
    law_ring_is_round(v, ex, th, n, radius, width, k, l, d, g);
}

/// There is a distance.
proof fn lemma_some_root<S: Real>(v: spec_fn(S) -> real, n: usize, i: int, j: int) -> (x: real)
    requires
        exact_root(v),
        0 <= i < n,
        0 <= j < n,
    ensures
        x >= 0real,
        x * x == ((i - n / 2) * (i - n / 2) + (j - n / 2) * (j - n / 2)) as real,
{
    let mid = (n / 2) as int;
    let di = minus_of(count_of::<S>(i as usize), count_of::<S>((n / 2) as usize));
    let dj = minus_of(count_of::<S>(j as usize), count_of::<S>((n / 2) as usize));
    lemma_apart(i, mid);
    lemma_apart(j, mid);
    let s = plus_of(times_of(di, di), times_of(dj, dj));
    lemma_square(v(di));
    lemma_square(v(dj));
    v(sqrt_of(s))
}

/// The radii grow from a quarter to 0.85, all but the last in steps of a fifteenth, and the
/// widths from 0.03 to 0.13, all but the last in steps of a ninetieth, both to four places.
pub proof fn law_rings_widen<S: Real>(v: spec_fn(S) -> real, rs: Vec<S>, ws: Vec<S>, k: int)
    requires
        exact_decimals(v),
        functional::<S>(),
        call_ensures(radii::<S>, (), rs),
        call_ensures(widths::<S>, (), ws),
        0 <= k < K - 1,
    ensures
        100real * v(rs@[0]) == 25real,
        100real * v(rs@[8]) == 85real,
        100real * v(ws@[0]) == 3real,
        100real * v(ws@[8]) == 13real,
        v(rs@[k]) < v(rs@[k + 1]),
        v(ws@[k]) < v(ws@[k + 1]),
        k < 7 ==> 666real <= 10000real * (v(rs@[k + 1]) - v(rs@[k])) <= 667real,
        k < 7 ==> 111real <= 10000real * (v(ws@[k + 1]) - v(ws@[k])) <= 112real,
{
    lemma_tens();
    lemma_ring_numbers(v);
}

/// The numbers of the rings.
proof fn lemma_ring_numbers<S: Real>(v: spec_fn(S) -> real)
    requires
        exact_decimals(v),
    ensures
        radii_of::<S>().len() == 9,
        widths_of::<S>().len() == 9,
        10000real * v(radii_of::<S>()[0]) == 2500real,
        10000real * v(radii_of::<S>()[1]) == 3167real,
        10000real * v(radii_of::<S>()[2]) == 3833real,
        10000real * v(radii_of::<S>()[3]) == 4500real,
        10000real * v(radii_of::<S>()[4]) == 5167real,
        10000real * v(radii_of::<S>()[5]) == 5833real,
        10000real * v(radii_of::<S>()[6]) == 6500real,
        10000real * v(radii_of::<S>()[7]) == 7167real,
        10000real * v(radii_of::<S>()[8]) == 8500real,
        10000real * v(widths_of::<S>()[0]) == 300real,
        10000real * v(widths_of::<S>()[1]) == 411real,
        10000real * v(widths_of::<S>()[2]) == 522real,
        10000real * v(widths_of::<S>()[3]) == 633real,
        10000real * v(widths_of::<S>()[4]) == 744real,
        10000real * v(widths_of::<S>()[5]) == 856real,
        10000real * v(widths_of::<S>()[6]) == 967real,
        10000real * v(widths_of::<S>()[7]) == 1078real,
        10000real * v(widths_of::<S>()[8]) == 1300real,
{
    lemma_tens();
    assert(v(decimal_of::<S>(25i64, 2u32)) * tens(2) == 25real);
    assert(v(decimal_of::<S>(3167i64, 4u32)) * tens(4) == 3167real);
    assert(v(decimal_of::<S>(3833i64, 4u32)) * tens(4) == 3833real);
    assert(v(decimal_of::<S>(45i64, 2u32)) * tens(2) == 45real);
    assert(v(decimal_of::<S>(5167i64, 4u32)) * tens(4) == 5167real);
    assert(v(decimal_of::<S>(5833i64, 4u32)) * tens(4) == 5833real);
    assert(v(decimal_of::<S>(65i64, 2u32)) * tens(2) == 65real);
    assert(v(decimal_of::<S>(7167i64, 4u32)) * tens(4) == 7167real);
    assert(v(decimal_of::<S>(85i64, 2u32)) * tens(2) == 85real);
    assert(v(decimal_of::<S>(3i64, 2u32)) * tens(2) == 3real);
    assert(v(decimal_of::<S>(411i64, 4u32)) * tens(4) == 411real);
    assert(v(decimal_of::<S>(522i64, 4u32)) * tens(4) == 522real);
    assert(v(decimal_of::<S>(633i64, 4u32)) * tens(4) == 633real);
    assert(v(decimal_of::<S>(744i64, 4u32)) * tens(4) == 744real);
    assert(v(decimal_of::<S>(856i64, 4u32)) * tens(4) == 856real);
    assert(v(decimal_of::<S>(967i64, 4u32)) * tens(4) == 967real);
    assert(v(decimal_of::<S>(1078i64, 4u32)) * tens(4) == 1078real);
    assert(v(decimal_of::<S>(13i64, 2u32)) * tens(2) == 13real);
}

/// Rings have a radius and a width.
proof fn lemma_ring_positive<S: Real>(v: spec_fn(S) -> real, k: int)
    requires
        exact_decimals(v),
        0 <= k < 9,
    ensures
        v(radii_of::<S>()[k]) > 0real,
        v(widths_of::<S>()[k]) > 0real,
{
    lemma_ring_numbers(v);
}

/// A kernel's spectrum is that of a round ring scaled to a sum of one, with its middle in the
/// corner. `d` gives the distance of each place from the middle in units of ten radii, `g` the
/// exponent of the bump there.
pub proof fn law_kernel_spectra_are_those_of_rings<S: Real>(
    v: spec_fn(S) -> real,
    co: spec_fn(real) -> real,
    si: spec_fn(real) -> real,
    ex: spec_fn(real) -> real,
    th: spec_fn(real) -> real,
    n: usize,
    kernels: Vec<Plane<Complex<S>>>,
    rs: Vec<S>,
    ws: Vec<S>,
    k: int,
    d: spec_fn(int, int) -> real,
    g: spec_fn(int, int) -> real,
    p: int,
    q: int,
)
    requires
        exact_circle(v, co, si),
        exact_decimals(v),
        exact_order(v),
        exact_root(v),
        exact_exp(v, ex),
        exact_tanh(v, th),
        functional::<S>(),
        n >= 2,
        is_pow2(n as int),
        call_ensures(generate_kernels_fft::<S>, (n,), kernels),
        call_ensures(radii::<S>, (), rs),
        call_ensures(widths::<S>, (), ws),
        0 <= k < K,
        0 <= p < n,
        0 <= q < n,
        forall|i: int, j: int|
            0 <= i < n && 0 <= j < n ==> {
                let r = v(rs@[k]);
                let w = v(ws@[k]);
                &&& #[trigger] d(i, j) >= 0real
                &&& (10real * r * d(i, j)) * (10real * r * d(i, j)) == ((i - n / 2) * (i - n / 2)
                    + (j - n / 2) * (j - n / 2)) as real
                &&& g(i, j) * (2real * (w * w)) == -((d(i, j) - 1real / 2real) * (d(i, j) - 1real
                    / 2real))
            },
    ensures
        ({
            let m = n as int;
            let ring = |i: int, j: int|
                ((1real + th(5real * (1real - d(i, j)))) / 2real) * ex(g(i, j));
            val(v, kernels@[k].at(p, q)) == square_spectrum(
                waves(v(pi_of::<S>()), co, si, m),
                |i: int, j: int|
                    pt(ring((i + m / 2) % m, (j + m / 2) % m) / rsum2(ring, n as nat)),
                n as nat,
                p,
                q,
            )
        }),
{
    let m = n as int;
    let nn = n as nat;
    let radius = radii_of::<S>()[k];
    let width = widths_of::<S>()[k];
    assert(rs@[k] == radius && ws@[k] == width);
    lemma_ring_positive(v, k);
    reveal_with_fuel(is_pow2, 2);
    let ring = |i: int, j: int| ((1real + th(5real * (1real - d(i, j)))) / 2real) * ex(g(i, j));
    let f = ring_of(n, radius, width);
    let zero = integer_of::<S>(0i64);
    assert(v(zero) == 0real);
    assert forall|i: int, j: int| 0 <= i < n && 0 <= j < n implies v(#[trigger] f(i, j)) == ring(
        i,
        j,
    ) && ring(i, j) > 0real by {
        assert(d(i, j) >= 0real);
        law_ring_is_round(v, ex, th, n, radius, width, i, j, d(i, j), g(i, j));
        let a = (1real + th(5real * (1real - d(i, j)))) / 2real;
        let b = ex(g(i, j));
        assert(a > 0real && b > 0real);
        assert(a * b > 0real) by (nonlinear_arith)
            requires
                a > 0real,
                b > 0real,
        ;
    }
    lemma_plane_exact(v, zero, f, nn, nn);
    let rows_f = |i: int| rsum(|j: int| v(f(i, j)), nn);
    let rows = |i: int| rsum(|j: int| ring(i, j), nn);
    assert forall|i: int| 0 <= i < n implies #[trigger] rows_f(i) == rows(i) && rows(i) > 0real by {
        lemma_rsum_same(|j: int| v(f(i, j)), |j: int| ring(i, j), nn);
        let line = |j: int| ring(i, j);
        assert forall|j: int| 0 <= j < nn implies #[trigger] line(j) > 0real by {
            assert(v(f(i, j)) == ring(i, j));
        }
        lemma_rsum_positive(line, nn);
    }
    lemma_rsum_same(rows_f, rows, nn);
    assert forall|i: int| 0 <= i < nn implies #[trigger] rows(i) > 0real by {
        assert(rows_f(i) == rows(i));
    }
    lemma_rsum_positive(rows, nn);
    let whole = rsum2(ring, nn);
    assert(v(plane_total(zero, f, nn, nn)) == whole);
    let c = centred(n, radius, width);
    lemma_plane_forward(v, co, si, c, nn, p, q);
    let w = waves(v(pi_of::<S>()), co, si, m);
    let x = plane_vals(v, c);
    let want = |i: int, j: int|
        pt(ring((i + m / 2) % m, (j + m / 2) % m) / rsum2(ring, n as nat));
    let xs = |i: int| spectrum(w, |j: int| x(i, j), nn, q);
    let ys = |i: int| spectrum(w, |j: int| want(i, j), nn, q);
    assert forall|i: int| 0 <= i < n implies #[trigger] xs(i) == ys(i) by {
        let xi = |j: int| x(i, j);
        let yi = |j: int| want(i, j);
        assert forall|j: int| 0 <= j < n implies #[trigger] xi(j) == yi(j) by {
            lemma_swapped(m, i);
            lemma_swapped(m, j);
            let a = swapped(m, i);
            let b = swapped(m, j);
            assert(v(f(a, b)) == ring(a, b));
        }
        lemma_spectrum_same(w, xi, yi, nn, q);
    }
    lemma_spectrum_same(w, xs, ys, nn, p);
    assert(kernels@[k].at(p, q) == kernel_fft_of(n, radius, width)(p, q));
}

/// Quadrants are swapped around the edges.
proof fn lemma_swapped(n: int, i: int)
    requires
        n > 0,
        n % 2 == 0,
        0 <= i < n,
    ensures
        swapped(n, i) == (i + n / 2) % n,
        0 <= swapped(n, i) < n,
{
    if i < n / 2 {
        lemma_small_mod((i + n / 2) as nat, n as nat);
    } else {
        lemma_fundamental_div_mod_converse(i + n / 2, n, 1, i - n / 2);
    }
}

/// The spectrum of points that are the same along rows and columns is the same along rows and
/// columns.
pub proof fn law_spectrum_keeps_symmetry(
    w: spec_fn(int) -> (real, real),
    x: spec_fn(int, int) -> (real, real),
    n: nat,
    k: int,
    l: int,
)
    requires
        forall|i: int, j: int| 0 <= i < n && 0 <= j < n ==> #[trigger] x(i, j) == x(j, i),
    ensures
        square_spectrum(w, x, n, k, l) == square_spectrum(w, x, n, l, k),
{
    let u = |i: int| w(i * k);
    let t = |j: int| w(j * l);
    lemma_swap(x, u, t, n, n);
    // By columns first.
    let left = |j: int| pmul(psum(|i: int| pmul(x(i, j), u(i)), n), t(j));
    let right = |i: int| pmul(psum(|j: int| pmul(x(i, j), t(j)), n), u(i));
    let rows_l = |i: int| spectrum(w, |j: int| x(i, j), n, l);
    let rows_k = |i: int| spectrum(w, |j: int| x(i, j), n, k);
    let a = |i: int| pmul(rows_l(i), w(i * k));
    let b = |i: int| pmul(rows_k(i), w(i * l));
    assert forall|i: int| 0 <= i < n implies #[trigger] a(i) == right(i) by {
        let line = |j: int| x(i, j);
        lemma_psum_same(|j: int| pmul(line(j), w(j * l)), |j: int| pmul(x(i, j), t(j)), n);
    }
    lemma_psum_same(a, right, n);
    assert forall|i: int| 0 <= i < n implies #[trigger] b(i) == left(i) by {
        let line = |j: int| x(i, j);
        let f = |j: int| pmul(line(j), w(j * k));
        let g = |j: int| pmul(x(j, i), u(j));
        assert forall|j: int| 0 <= j < n implies #[trigger] f(j) == g(j) by {
            assert(x(i, j) == x(j, i));
        }
        lemma_psum_same(f, g, n);
    }
    lemma_psum_same(b, left, n);
}

/// The mass that a world starts with is a round blob for each channel: the exponent `g` of
/// a place, times twice the squared width of the blob, makes the squared distance from its
/// middle negative, in coordinates that run from minus one to one over the world. The first
/// blob is in the middle, the second a little to the right, the third a little below; their
/// widths are 0.25, 0.22 and 0.28.
pub proof fn law_seeds_are_round_blobs<S: Real>(
    v: spec_fn(S) -> real,
    ex: spec_fn(real) -> real,
    n: usize,
    channels: Vec<Plane<S>>,
    c: int,
    i: int,
    j: int,
    g: real,
)
    requires
        exact_exp(v, ex),
        exact_decimals(v),
        functional::<S>(),
        n > 0,
        call_ensures(generate_seed::<S>, (n,), channels),
        0 <= c < C,
        0 <= i < n,
        0 <= j < n,
        ({
            let h = n as real / 2real;
            let s = if c == 0 {
                25real / 100real
            } else if c == 1 {
                22real / 100real
            } else {
                28real / 100real
            };
            let x = (j as real - h) / h - (if c == 1 {
                4real / 100real
            } else {
                0real
            });
            let y = (i as real - h) / h - (if c == 2 {
                4real / 100real
            } else {
                0real
            });
            g * (2real * (s * s)) == -(x * x + y * y)
        }),
    ensures
        v(channels@[c].at(i, j)) == ex(g),
{
    let h = n as real / 2real;
    lemma_tens();
    assert(v(decimal_of::<S>(25i64, 2u32)) * tens(2) == 25real);
    assert(v(decimal_of::<S>(22i64, 2u32)) * tens(2) == 22real);
    assert(v(decimal_of::<S>(28i64, 2u32)) * tens(2) == 28real);
    assert(v(decimal_of::<S>(4i64, 2u32)) * tens(2) == 4real);
    assert(v(decimal_of::<S>(0i64, 1u32)) * tens(1) == 0real);
    assert(v(integer_of::<S>(1i64)) == 1real);
    assert(v(integer_of::<S>(2i64)) == 2real);
    let sigma = blob_sigmas::<S>()[c];
    let ox = blob_xs::<S>()[c];
    let oy = blob_ys::<S>()[c];
    let s = v(sigma);
    assert(s > 0real);
    let half = over_of(count_of::<S>(n), integer_of::<S>(2i64));
    assert(v(half) == h && h > 0real);
    let dx = minus_of(over_of(minus_of(count_of::<S>(j as usize), half), half), ox);
    let dy = minus_of(over_of(minus_of(count_of::<S>(i as usize), half), half), oy);
    let z = v(dx) * v(dx) + v(dy) * v(dy);
    let w2 = times_of(times_of(integer_of::<S>(2i64), sigma), sigma);
    let ss = s * s;
    lemma_square(s);
    lemma_assoc(2real, s, s);
    assert(v(w2) == 2real * ss);
    let inv = over_of(integer_of::<S>(1i64), w2);
    let u = v(inv);
    lemma_quotient(1real, 2real * ss);
    assert(u * (2real * ss) == 1real);
    let f = -z * u;
    lemma_assoc(-z, u, 2real * ss);
    assert(-z * 1real == -z) by (nonlinear_arith);
    lemma_cancel(f, g, 2real * ss);
    assert(v(times_of(neg_of(plus_of(times_of(dx, dx), times_of(dy, dy))), inv)) == g);
    assert(channels@[c].at(i, j) == blob_of(n, sigma, ox, oy)(i, j));
}

/// Growth is graded: middles grow from 0.05 by 0.2 over the kernels, widths from 0.03 by 0.12,
/// kernels counted by the channel that they read and then by the one that they feed; a kernel
/// that feeds the channel it reads weighs a half, another a quarter.
pub proof fn law_growth_is_graded<S: Real>(
    v: spec_fn(S) -> real,
    p: GrowthParams<S>,
    from: int,
    to: int,
    k: int,
)
    requires
        exact_decimals(v),
        functional::<S>(),
        call_ensures(generate_growth_params::<S>, (), p),
        0 <= from < C,
        0 <= to < C,
        0 <= k < K,
        p.c0@[k] == from,
        p.c1@[k] == to,
    ensures
        900real * v(p.mu@[k]) == 45real + 20real * ((3 * from + to) as real),
        900real * v(p.sigma@[k]) == 27real + 12real * ((3 * from + to) as real),
        4real * v(p.weights@[k]) == (if from == to {
            2real
        } else {
            1real
        }),
{
    lemma_tens();
    let place = 3 * from + to;
    assert(k % 3 == from && k / 3 == to);
    let c = count_of::<S>(((k % 3) * 3 + k / 3) as usize);
    assert(v(c) == place as real);
    assert(v(count_of::<S>(9usize)) == 9real);
    assert(v(decimal_of::<S>(5i64, 2u32)) * tens(2) == 5real);
    assert(v(decimal_of::<S>(20i64, 2u32)) * tens(2) == 20real);
    assert(v(decimal_of::<S>(3i64, 2u32)) * tens(2) == 3real);
    assert(v(decimal_of::<S>(12i64, 2u32)) * tens(2) == 12real);
    assert(v(decimal_of::<S>(25i64, 2u32)) * tens(2) == 25real);
    let x = place as real;
    assert(v(times_of(decimal_of::<S>(20i64, 2u32), c)) == 20real / 100real * x);
    assert(v(times_of(decimal_of::<S>(12i64, 2u32), c)) == 12real / 100real * x);
}

} // verus!
