//! What sample worlds look like, where arithmetic does not round.

use crate::complex::Complex;
use crate::field::Field;
use crate::flow::spectrum::{Fft2DPlanner, Transform};
use crate::sample::{
    blob_field, flow_h, flow_kernels_fft, flow_m, flow_radii, flow_s, generate_seed, mace_growth,
    mace_kernels_fft, SampleGrowth,
};
use crate::scalar::Real;
use vstd::prelude::*;

verus! {

use crate::analysis::{
    exact_decimals, exact_exp, exact_order, exact_root, exact_tanh, lemma_assoc, lemma_cancel,
    lemma_exponent, lemma_quotient, lemma_root, lemma_scaled, lemma_square, lemma_tens, tens,
};
use crate::exact::{exact_as, lemma_rsum_same, rsum, rsum2};
use crate::flow::inversion::{is_fourier, lemma_plane_spectrum};
use crate::flow::shapes::lemma_bumps;
use crate::flow::spectrum::steady;
use crate::mace::circle::val;
use crate::mace::inverse::plane_vals;
use crate::mace::points::pt;
use crate::mace::spectrum::{lemma_spectrum_same, spectrum, square_spectrum};
use crate::mace::sums::{lemma_plane_exact, plane_total};
use crate::sample::{
    blob_of, brightness_of, cornered, distance_of, envelope_of, flow_radii_of, flow_ring, graded_of,
    mace_ring, permuted, ring_a_of, ring_b_of, ring_w_of, spectrum_of, unshifted,
};
use crate::scalar::{
    count_of, decimal_of, functional, integer_of, minus_of, neg_of, over_of, plus_of, sqrt_of,
    times_of,
};
use vstd::arithmetic::div_mod::{
    lemma_fundamental_div_mod_converse, lemma_mod_add_multiples_vanish, lemma_mod_bound,
};

/// The distance of a place from the middle.
proof fn lemma_distance<S: Real>(v: spec_fn(S) -> real, n: int, i: int, j: int, h: real)
    requires
        exact_root(v),
        h >= 0real,
        h * h == ((i - n / 2) * (i - n / 2) + (j - n / 2) * (j - n / 2)) as real,
        (i - n / 2) * (i - n / 2) + (j - n / 2) * (j - n / 2) <= i64::MAX,
    ensures
        v(distance_of::<S>(n, i, j)) == h,
{
    let a = i - n / 2;
    let b = j - n / 2;
    assert(a * a >= 0 && b * b >= 0) by (nonlinear_arith);
    let x = integer_of::<S>((a * a + b * b) as i64);
    lemma_root(v, x, h);
}

/// The step under which kernels lie.
proof fn lemma_envelope<S: Real>(v: spec_fn(S) -> real, th: spec_fn(real) -> real, d: S)
    requires
        exact_tanh(v, th),
    ensures
        v(envelope_of(d)) == (1real + th(5real * (1real - v(d)))) / 2real,
{
    assert(v(integer_of::<S>(1i64)) == 1real);
    assert(v(integer_of::<S>(2i64)) == 2real);
    assert(v(integer_of::<S>(10i64)) == 10real);
    let arg = times_of(neg_of(minus_of(d, integer_of::<S>(1i64))), integer_of::<S>(10i64));
    assert(v(arg) == -(v(d) - 1real) * 10real);
    assert(v(over_of(arg, integer_of::<S>(2i64))) == 5real * (1real - v(d)));
}

/// The numbers of the flow sample.
proof fn lemma_flow_numbers<S: Real>(v: spec_fn(S) -> real)
    requires
        exact_decimals(v),
    ensures
        v(decimal_of::<S>(0i64, 1u32)) == 0real,
        v(decimal_of::<S>(1i64, 1u32)) == 1real / 10real,
        v(decimal_of::<S>(2i64, 1u32)) == 2real / 10real,
        v(decimal_of::<S>(3i64, 1u32)) == 3real / 10real,
        v(decimal_of::<S>(4i64, 1u32)) == 4real / 10real,
        v(decimal_of::<S>(6i64, 1u32)) == 6real / 10real,
        v(decimal_of::<S>(7i64, 1u32)) == 7real / 10real,
        v(decimal_of::<S>(8i64, 1u32)) == 8real / 10real,
        v(decimal_of::<S>(1i64, 2u32)) == 1real / 100real,
        v(decimal_of::<S>(3i64, 2u32)) == 3real / 100real,
        v(decimal_of::<S>(5i64, 2u32)) == 5real / 100real,
        v(decimal_of::<S>(6i64, 2u32)) == 6real / 100real,
        v(decimal_of::<S>(8i64, 2u32)) == 8real / 100real,
        v(decimal_of::<S>(9i64, 2u32)) == 9real / 100real,
        v(decimal_of::<S>(12i64, 2u32)) == 12real / 100real,
        v(decimal_of::<S>(15i64, 2u32)) == 15real / 100real,
        v(decimal_of::<S>(25i64, 2u32)) == 25real / 100real,
        v(decimal_of::<S>(45i64, 2u32)) == 45real / 100real,
        v(decimal_of::<S>(65i64, 2u32)) == 65real / 100real,
        v(decimal_of::<S>(55i64, 3u32)) == 55real / 1000real,
        v(decimal_of::<S>(65i64, 3u32)) == 65real / 1000real,
{
    lemma_tens();
    assert(v(decimal_of::<S>(0i64, 1u32)) * tens(1) == 0real);
    assert(v(decimal_of::<S>(1i64, 1u32)) * tens(1) == 1real);
    assert(v(decimal_of::<S>(2i64, 1u32)) * tens(1) == 2real);
    assert(v(decimal_of::<S>(3i64, 1u32)) * tens(1) == 3real);
    assert(v(decimal_of::<S>(4i64, 1u32)) * tens(1) == 4real);
    assert(v(decimal_of::<S>(6i64, 1u32)) * tens(1) == 6real);
    assert(v(decimal_of::<S>(7i64, 1u32)) * tens(1) == 7real);
    assert(v(decimal_of::<S>(8i64, 1u32)) * tens(1) == 8real);
    assert(v(decimal_of::<S>(1i64, 2u32)) * tens(2) == 1real);
    assert(v(decimal_of::<S>(3i64, 2u32)) * tens(2) == 3real);
    assert(v(decimal_of::<S>(5i64, 2u32)) * tens(2) == 5real);
    assert(v(decimal_of::<S>(6i64, 2u32)) * tens(2) == 6real);
    assert(v(decimal_of::<S>(8i64, 2u32)) * tens(2) == 8real);
    assert(v(decimal_of::<S>(9i64, 2u32)) * tens(2) == 9real);
    assert(v(decimal_of::<S>(12i64, 2u32)) * tens(2) == 12real);
    assert(v(decimal_of::<S>(15i64, 2u32)) * tens(2) == 15real);
    assert(v(decimal_of::<S>(25i64, 2u32)) * tens(2) == 25real);
    assert(v(decimal_of::<S>(45i64, 2u32)) * tens(2) == 45real);
    assert(v(decimal_of::<S>(65i64, 2u32)) * tens(2) == 65real);
    assert(v(decimal_of::<S>(55i64, 3u32)) * tens(3) == 55real);
    assert(v(decimal_of::<S>(65i64, 3u32)) * tens(3) == 65real);
}

/// A kernel of the flow sample is round: at distance `d` from the middle, in units of 25 times
/// its radius (0.5, 0.8 and 0.65), it is the sum of a bump at the middle and a ring farther out,
/// under a smooth step down at one; `g` and `h` are their exponents.
pub proof fn law_flow_sample_kernels_are_round<S: Real>(
    v: spec_fn(S) -> real,
    ex: spec_fn(real) -> real,
    th: spec_fn(real) -> real,
    n: int,
    i: int,
    j: int,
    k: int,
    d: real,
    g: real,
    h: real,
)
    requires
        exact_decimals(v),
        exact_root(v),
        exact_exp(v, ex),
        exact_tanh(v, th),
        0 <= k < 3,
        (i - n / 2) * (i - n / 2) + (j - n / 2) * (j - n / 2) <= i64::MAX,
        d >= 0real,
        ({
            let r = if k == 0 {
                50real / 100real
            } else if k == 1 {
                80real / 100real
            } else {
                65real / 100real
            };
            (25real * r * d) * (25real * r * d) == ((i - n / 2) * (i - n / 2) + (j - n / 2) * (j - n
                / 2)) as real
        }),
        g * (if k == 0 {
            10real / 100real
        } else if k == 1 {
            8real / 100real
        } else {
            9real / 100real
        }) == -(d * d),
        ({
            let a = if k == 0 {
                50real / 100real
            } else if k == 1 {
                40real / 100real
            } else {
                45real / 100real
            };
            h * (if k == 0 {
                50real / 1000real
            } else if k == 1 {
                60real / 1000real
            } else {
                55real / 1000real
            }) == -((d - a) * (d - a))
        }),
    ensures
        100real * v(flow_ring::<S>(n)(i, j, k)) == ((1real + th(5real * (1real - d))) / 2real) * ((
        if k == 0 {
            50real
        } else if k == 1 {
            70real
        } else {
            60real
        }) * ex(g) + (if k == 0 {
            30real
        } else if k == 1 {
            20real
        } else {
            25real
        }) * ex(h)),
{
    lemma_flow_numbers(v);
    assert(v(decimal_of::<S>(5i64, 1u32)) == 1real / 2real);
    assert(v(integer_of::<S>(10i64)) == 10real);
    assert(v(integer_of::<S>(15i64)) == 15real);
    let rad = flow_radii_of::<S>()[k];
    let r = 25real * v(rad);
    let x = r * d;
    assert(x >= 0real) by (nonlinear_arith)
        requires
            r > 0real,
            d >= 0real,
            x == r * d,
    ;
    lemma_distance(v, n, i, j, x);
    lemma_scaled(d, r, x);
    let ds = over_of(
        distance_of::<S>(n, i, j),
        times_of(plus_of(integer_of::<S>(10i64), integer_of::<S>(15i64)), rad),
    );
    assert(v(ds) == d);
    lemma_envelope(v, th, ds);
    let a = ring_a_of::<S>(k);
    let w = ring_w_of::<S>(k);
    let b = ring_b_of::<S>(k);
    assert(v(w[0]) != 0real && v(w[1]) != 0real && v(w[2]) != 0real);
    let z = -(d * d) / v(w[2]);
    lemma_quotient(-(d * d), v(w[2]));
    let e = |p: int|
        if p == 0 {
            g
        } else if p == 1 {
            h
        } else {
            z
        };
    assert(d - 0real == d);
    assert forall|p: int| 0 <= p < 3 implies #[trigger] e(p) * v(w[p]) == -((v(ds) - v(a[p])) * (v(
        ds,
    ) - v(a[p]))) by {
        assert(p == 0 || p == 1 || p == 2);
    }
    assert forall|p: int| 0 <= p < 3 implies v(#[trigger] w[p]) != 0real by {
        assert(p == 0 || p == 1 || p == 2);
    }
    lemma_bumps(v, ex, ds, a, w, b, e, 3);
    let f = |p: int| v(b[p]) * ex(e(p));
    assert(rsum(f, 0) == 0real);
    assert(rsum(f, 1) == rsum(f, 0) + f(0));
    assert(rsum(f, 2) == rsum(f, 1) + f(1));
    assert(rsum(f, 3) == rsum(f, 2) + f(2));
    assert(v(b[2]) == 0real);
    let y = ex(z);
    assert(0real * y == 0real) by (nonlinear_arith);
    let s = (1real + th(5real * (1real - d))) / 2real;
    let q = f(0) + f(1);
    assert(rsum(f, 3) == q);
    assert(100real * (s * q) == s * (100real * q)) by (nonlinear_arith);
}

/// A kernel of the diffusion sample is a round ring: at distance `d` from the middle, in units
/// of ten times its radius, it is a bump at a half under a smooth step down at one. Radii grow
/// from 0.5 by 0.3 over the kernels, widths from 0.05 by 0.03; `g` is the exponent of the bump.
pub proof fn law_mace_sample_kernels_are_round<S: Real>(
    v: spec_fn(S) -> real,
    ex: spec_fn(real) -> real,
    th: spec_fn(real) -> real,
    n: int,
    kernels: usize,
    i: int,
    j: int,
    k: int,
    r: real,
    w: real,
    d: real,
    g: real,
)
    requires
        exact_decimals(v),
        exact_root(v),
        exact_exp(v, ex),
        exact_tanh(v, th),
        0 <= k < kernels,
        (i - n / 2) * (i - n / 2) + (j - n / 2) * (j - n / 2) <= i64::MAX,
        (10real * r - 5real) * (kernels as int as real) == 3real * (k as real),
        (100real * w - 5real) * (kernels as int as real) == 3real * (k as real),
        d >= 0real,
        (10real * r * d) * (10real * r * d) == ((i - n / 2) * (i - n / 2) + (j - n / 2) * (j - n
            / 2)) as real,
        g * (2real * (w * w)) == -((d - 1real / 2real) * (d - 1real / 2real)),
    ensures
        v(mace_ring::<S>(n, kernels)(i, j, k)) == ((1real + th(5real * (1real - d))) / 2real) * ex(
            g,
        ),
{
    lemma_flow_numbers(v);
    assert(v(decimal_of::<S>(5i64, 1u32)) == 1real / 2real);
    assert(v(integer_of::<S>(10i64)) == 10real);
    assert(v(integer_of::<S>(2i64)) == 2real);
    let radius = graded_of(
        decimal_of::<S>(5i64, 1u32),
        decimal_of::<S>(3i64, 1u32),
        k as usize,
        kernels,
    );
    let width = graded_of(
        decimal_of::<S>(5i64, 2u32),
        decimal_of::<S>(3i64, 2u32),
        k as usize,
        kernels,
    );
    lemma_graded(v, decimal_of::<S>(5i64, 1u32), decimal_of::<S>(3i64, 1u32), k, kernels);
    lemma_graded(v, decimal_of::<S>(5i64, 2u32), decimal_of::<S>(3i64, 2u32), k, kernels);
    let c = kernels as int as real;
    let kr = k as real;
    let u = 10real * v(radius) - 5real;
    assert(u * c == 3real * kr) by (nonlinear_arith)
        requires
            (v(radius) - 1real / 2real) * c == (3real / 10real) * kr,
            u == 10real * v(radius) - 5real,
    ;
    lemma_cancel(u, 10real * r - 5real, c);
    let y = 100real * v(width) - 5real;
    assert(y * c == 3real * kr) by (nonlinear_arith)
        requires
            (v(width) - 5real / 100real) * c == (3real / 100real) * kr,
            y == 100real * v(width) - 5real,
    ;
    lemma_cancel(y, 100real * w - 5real, c);
    assert(v(radius) == r && v(width) == w);
    assert(u >= 0real) by (nonlinear_arith)
        requires
            u * c == 3real * kr,
            c > 0real,
            kr >= 0real,
    ;
    assert(y >= 0real) by (nonlinear_arith)
        requires
            y * c == 3real * kr,
            c > 0real,
            kr >= 0real,
    ;
    let rr = 10real * r;
    let x = rr * d;
    assert(x >= 0real) by (nonlinear_arith)
        requires
            rr > 0real,
            d >= 0real,
            x == rr * d,
    ;
    lemma_distance(v, n, i, j, x);
    lemma_scaled(d, rr, x);
    let ds = over_of(distance_of::<S>(n, i, j), times_of(integer_of::<S>(10i64), radius));
    assert(v(ds) == d);
    lemma_envelope(v, th, ds);
    let diff = minus_of(ds, decimal_of::<S>(5i64, 1u32));
    let e = d - 1real / 2real;
    assert(v(diff) == e);
    lemma_exponent(-(e * e), w, g);
    let w2 = times_of(times_of(integer_of::<S>(2i64), width), width);
    assert(v(w2) == (2real * w) * w);
    lemma_square(w);
    lemma_assoc(2real, w, w);
    assert(v(w2) != 0real);
}

/// A graded number.
proof fn lemma_graded<S: Real>(v: spec_fn(S) -> real, base: S, span: S, k: int, n: usize)
    requires
        exact_as(v),
        0 < n,
        0 <= k <= usize::MAX,
    ensures
        (v(graded_of(base, span, k as usize, n)) - v(base)) * (n as int as real) == v(span) * (
        k as real),
{
    let c = n as int as real;
    let x = k as real;
    assert(v(count_of::<S>(n)) == c);
    assert(v(count_of::<S>(k as usize)) == x);
    let q = x / c;
    lemma_quotient(x, c);
    let s = v(span);
    lemma_assoc(s, q, c);
}

/// The spectra of the samples' kernels are those of the kernels scaled to a sum of one, moved by
/// half their extent, row by row: `ring` gives a kernel in space.
proof fn lemma_sample_spectra<S: Real, T: Transform<S>>(
    v: spec_fn(S) -> real,
    t: &T,
    w: spec_fn(int) -> (real, real),
    spatial: spec_fn(int, int, int) -> S,
    ring: spec_fn(int, int) -> real,
    n: nat,
    k: int,
    p: int,
    q: int,
)
    requires
        exact_order(v),
        is_fourier(t, v, w, n),
        0 <= p < n,
        0 <= q < n,
        forall|i: int, j: int|
            0 <= i < n && 0 <= j < n ==> v(#[trigger] spatial(i, j, k)) == ring(i, j),
        rsum2(ring, n) > 0real,
    ensures
        ({
            let m = n as int;
            val(v, spectrum_of(t, spatial, n, k)(p, q)) == square_spectrum(
                w,
                |i: int, j: int|
                    pt(ring((i - m / 2) % m, (j - m / 2) % m) / rsum2(ring, n)),
                n,
                p,
                q,
            )
        }),
{
    let m = n as int;
    let f = |i: int, j: int| spatial(i, j, k);
    let zero = integer_of::<S>(0i64);
    assert(v(zero) == 0real);
    lemma_plane_exact(v, zero, f, n, n);
    let rows_f = |i: int| rsum(|j: int| v(f(i, j)), n);
    let rows = |i: int| rsum(|j: int| ring(i, j), n);
    assert forall|i: int| 0 <= i < n implies #[trigger] rows_f(i) == rows(i) by {
        let a = |j: int| v(f(i, j));
        let b = |j: int| ring(i, j);
        assert forall|j: int| 0 <= j < n implies #[trigger] a(j) == b(j) by {
            assert(v(spatial(i, j, k)) == ring(i, j));
        }
        lemma_rsum_same(a, b, n);
    }
    lemma_rsum_same(rows_f, rows, n);
    let whole = rsum2(ring, n);
    assert(v(plane_total(zero, f, n, n)) == whole);
    let c = cornered(spatial, n, k);
    lemma_plane_spectrum(t, v, w, w, false, c, n, n, p, q);
    let x = plane_vals(v, c);
    let want = |i: int, j: int| pt(ring((i - m / 2) % m, (j - m / 2) % m) / rsum2(ring, n));
    let xs = |i: int| spectrum(w, |j: int| x(i, j), n, q);
    let ys = |i: int| spectrum(w, |j: int| want(i, j), n, q);
    assert forall|i: int| 0 <= i < n implies #[trigger] xs(i) == ys(i) by {
        let xi = |j: int| x(i, j);
        let yi = |j: int| want(i, j);
        assert forall|j: int| 0 <= j < n implies #[trigger] xi(j) == yi(j) by {
            lemma_unshifted(m, i);
            lemma_unshifted(m, j);
            let a = unshifted(m, i);
            let b = unshifted(m, j);
            assert(v(spatial(a, b, k)) == ring(a, b));
            assert(f(a, b) == spatial(a, b, k));
        }
        lemma_spectrum_same(w, xi, yi, n, q);
    }
    lemma_spectrum_same(w, xs, ys, n, p);
}

/// A place half the extent away.
proof fn lemma_unshifted(n: int, i: int)
    requires
        n > 0,
    ensures
        unshifted(n, i) == (i - n / 2) % n,
        0 <= unshifted(n, i) < n,
{
    lemma_mod_add_multiples_vanish(i - n / 2, n);
    lemma_mod_bound(i + n - n / 2, n);
    assert(i + n - n / 2 == n + (i - n / 2));
}

/// The spectra of the flow sample's kernels, on a Fourier host: those of the kernels in space,
/// scaled to a sum of one and moved by half their extent. `ring` gives kernel `k` in space.
pub proof fn law_flow_sample_spectra<S: Real, T: Transform<S>>(
    v: spec_fn(S) -> real,
    size: usize,
    planner: &Fft2DPlanner<T>,
    w: spec_fn(int) -> (real, real),
    out: Vec<Vec<Complex<S>>>,
    ring: spec_fn(int, int) -> real,
    k: int,
    p: int,
    q: int,
)
    requires
        exact_order(v),
        functional::<S>(),
        steady(&planner.planner),
        is_fourier(&planner.planner, v, w, size as nat),
        size * size <= usize::MAX,
        call_ensures(flow_kernels_fft::<S, T>, (size, planner), out),
        0 <= k < 3,
        0 <= p < size,
        0 <= q < size,
        forall|i: int, j: int|
            0 <= i < size && 0 <= j < size ==> v(#[trigger] flow_ring::<S>(size as int)(i, j, k))
                == ring(i, j),
        rsum2(ring, size as nat) > 0real,
    ensures
        ({
            let m = size as int;
            val(v, out@[k]@[p * m + q]) == square_spectrum(
                w,
                |i: int, j: int|
                    pt(ring((i - m / 2) % m, (j - m / 2) % m) / rsum2(ring, size as nat)),
                size as nat,
                p,
                q,
            )
        }),
{
    let m = size as int;
    lemma_row_place(m, p, q);
    lemma_sample_spectra(
        v,
        &planner.planner,
        w,
        flow_ring::<S>(m),
        ring,
        size as nat,
        k,
        p,
        q,
    );
}

/// The spectra of the diffusion sample's kernels, on a Fourier host: those of the kernels in
/// space, scaled to a sum of one and moved by half their extent. `ring` gives kernel `k` in
/// space.
pub proof fn law_mace_sample_spectra<S: Real, T: Transform<S>>(
    v: spec_fn(S) -> real,
    size: usize,
    num_kernels: usize,
    planner: &Fft2DPlanner<T>,
    w: spec_fn(int) -> (real, real),
    out: Vec<Vec<Complex<S>>>,
    ring: spec_fn(int, int) -> real,
    k: int,
    p: int,
    q: int,
)
    requires
        exact_order(v),
        functional::<S>(),
        steady(&planner.planner),
        is_fourier(&planner.planner, v, w, size as nat),
        size * size <= usize::MAX,
        call_ensures(mace_kernels_fft::<S, T>, (size, num_kernels, planner), out),
        0 <= k < num_kernels,
        0 <= p < size,
        0 <= q < size,
        forall|i: int, j: int|
            0 <= i < size && 0 <= j < size ==> v(
                #[trigger] mace_ring::<S>(size as int, num_kernels)(i, j, k),
            ) == ring(i, j),
        rsum2(ring, size as nat) > 0real,
    ensures
        ({
            let m = size as int;
            val(v, out@[k]@[p * m + q]) == square_spectrum(
                w,
                |i: int, j: int|
                    pt(ring((i - m / 2) % m, (j - m / 2) % m) / rsum2(ring, size as nat)),
                size as nat,
                p,
                q,
            )
        }),
{
    let m = size as int;
    lemma_row_place(m, p, q);
    lemma_sample_spectra(
        v,
        &planner.planner,
        w,
        mace_ring::<S>(m, num_kernels),
        ring,
        size as nat,
        k,
        p,
        q,
    );
}

/// A place, counted row by row.
proof fn lemma_row_place(m: int, p: int, q: int)
    requires
        0 <= p < m,
        0 <= q < m,
    ensures
        0 <= p * m + q < m * m,
        (p * m + q) / m == p,
        (p * m + q) % m == q,
{
    let x = p * m + q;
    assert(0 <= x < m * m) by (nonlinear_arith)
        requires
            0 <= p < m,
            0 <= q < m,
            x == p * m + q,
    ;
    lemma_fundamental_div_mod_converse(x, m, p, q);
}

/// A sample world is a round blob in every channel, the brighter the later the channel, from a
/// half on: `g` is the exponent of the place, which times the variance makes the squared distance
/// from the middle negative.
pub proof fn law_sample_worlds_are_round_blobs<S: Real>(
    v: spec_fn(S) -> real,
    ex: spec_fn(real) -> real,
    rows: usize,
    cols: usize,
    channels: usize,
    variance: S,
    half_first: bool,
    f: Field<S>,
    i: int,
    j: int,
    c: int,
    g: real,
)
    requires
        exact_exp(v, ex),
        exact_root(v),
        functional::<S>(),
        v(variance) != 0real,
        call_ensures(blob_field::<S>, (rows, cols, channels, variance, half_first), f),
        f.has(i, j, c),
        f.rows == rows,
        f.cols == cols,
        f.depth == channels,
        ({
            let y = i as real - rows as int as real / 2real;
            let x = j as real - cols as int as real / 2real;
            g * v(variance) == -(x * x + y * y)
        }),
    ensures
        v(f.at(i, j, c)) * (2real * (channels as int as real)) == ex(g) * (channels as int as real
            + c as real),
{
    let y = i as real - rows as int as real / 2real;
    let x = j as real - cols as int as real / 2real;
    assert(v(integer_of::<S>(2i64)) == 2real);
    let dx = minus_of(
        count_of::<S>(i as usize),
        over_of(count_of::<S>(rows), integer_of::<S>(2i64)),
    );
    let dy = minus_of(
        count_of::<S>(j as usize),
        over_of(count_of::<S>(cols), integer_of::<S>(2i64)),
    );
    assert(v(dx) == y && v(dy) == x);
    let s = plus_of(times_of(dx, dx), times_of(dy, dy));
    lemma_square(x);
    lemma_square(y);
    let r = v(sqrt_of(s));
    assert(r * r == x * x + y * y);
    assert((-r) * r == -(r * r)) by (nonlinear_arith);
    let e = over_of(times_of(neg_of(sqrt_of(s)), sqrt_of(s)), variance);
    lemma_quotient(-(r * r), v(variance));
    lemma_cancel(v(e), g, v(variance));
    assert(v(blob_of(rows, cols, variance, i, j)) == ex(g));
    let n = channels as int as real;
    let k = c as real;
    assert(v(count_of::<S>(channels)) == n && v(count_of::<S>(c as usize)) == k);
    let half = 1real / 2real;
    let b = v(brightness_of::<S>(c as usize, channels, half_first));
    lemma_quotient(k, n);
    lemma_quotient(half * k, n);
    let share = k / n;
    let other = (half * k) / n;
    assert((half * share) * n == half * k) by (nonlinear_arith)
        requires
            share * n == k,
    ;
    let part = if half_first {
        other
    } else {
        half * share
    };
    assert(b == half + part);
    assert(part * n == half * k);
    assert((half + part) * (2real * n) == n + k) by (nonlinear_arith)
        requires
            part * n == half * k,
            half == 1real / 2real,
    ;
    let z = ex(g);
    lemma_assoc(z, b, 2real * n);
}

/// The channels of a square sample world, row by row, are such blobs whose variance is a
/// sixty-fourth of the cells.
pub proof fn law_sample_seeds_are_round_blobs<S: Real>(
    v: spec_fn(S) -> real,
    ex: spec_fn(real) -> real,
    size: usize,
    num_channels: usize,
    channels: Vec<Vec<S>>,
    i: int,
    j: int,
    c: int,
    g: real,
)
    requires
        exact_exp(v, ex),
        exact_root(v),
        functional::<S>(),
        size * size <= usize::MAX,
        call_ensures(generate_seed::<S>, (size, num_channels), channels),
        0 <= i < size,
        0 <= j < size,
        0 <= c < num_channels,
        ({
            let h = size as int as real / 2real;
            let y = i as real - h;
            let x = j as real - h;
            g * ((size * size) as real) == -64real * (x * x + y * y)
        }),
    ensures
        v(channels@[c]@[i * size + j]) * (2real * (num_channels as int as real)) == ex(g) * (
        num_channels as int as real + c as real),
{
    let m = size as int;
    lemma_row_place(m, i, j);
    let area = size * size;
    assert(area > 0) by (nonlinear_arith)
        requires
            area == m * m,
            m > 0,
    ;
    let variance = over_of(count_of::<S>((size * size) as usize), integer_of::<S>(64i64));
    assert(v(integer_of::<S>(64i64)) == 64real);
    assert(v(variance) == (area as real) / 64real);
    let h = size as int as real / 2real;
    let y = i as real - h;
    let x = j as real - h;
    assert(v(integer_of::<S>(2i64)) == 2real);
    let dx = minus_of(
        count_of::<S>(i as usize),
        over_of(count_of::<S>(size), integer_of::<S>(2i64)),
    );
    let dy = minus_of(
        count_of::<S>(j as usize),
        over_of(count_of::<S>(size), integer_of::<S>(2i64)),
    );
    assert(v(dx) == y && v(dy) == x);
    let s = plus_of(times_of(dx, dx), times_of(dy, dy));
    lemma_square(x);
    lemma_square(y);
    let r = v(sqrt_of(s));
    assert(r * r == x * x + y * y);
    assert((-r) * r == -(r * r)) by (nonlinear_arith);
    let e = over_of(times_of(neg_of(sqrt_of(s)), sqrt_of(s)), variance);
    lemma_quotient(-(r * r), v(variance));
    let a = area as real;
    let u = v(variance);
    assert(64real * u == a);
    assert(64real * (g * u) == g * a) by (nonlinear_arith)
        requires
            64real * u == a,
    ;
    assert(g * u == -(r * r));
    lemma_cancel(v(e), g, u);
    assert(v(blob_of(size, size, variance, i, j)) == ex(g));
    let n = num_channels as int as real;
    let k = c as real;
    assert(v(count_of::<S>(num_channels)) == n && v(count_of::<S>(c as usize)) == k);
    let half = 1real / 2real;
    let b = v(brightness_of::<S>(c as usize, num_channels, true));
    lemma_quotient(half * k, n);
    let part = (half * k) / n;
    assert(b == half + part);
    assert((half + part) * (2real * n) == n + k) by (nonlinear_arith)
        requires
            part * n == half * k,
            half == 1real / 2real,
    ;
    let z = ex(g);
    lemma_assoc(z, b, 2real * n);
}

/// The growth of the diffusion sample is graded: middles from 0.1 by 0.05 over the kernels,
/// widths from 0.05 by 0.03, in order or counted by the channel that is read; weights are equal
/// and as many as there are channels make one.
pub proof fn law_sample_growth_is_graded<S: Real>(
    v: spec_fn(S) -> real,
    num_kernels: usize,
    num_channels: usize,
    permute: bool,
    g: SampleGrowth<S>,
    k: int,
)
    requires
        exact_decimals(v),
        functional::<S>(),
        num_channels > 0,
        num_channels * num_channels + num_kernels <= usize::MAX,
        call_ensures(mace_growth::<S>, (num_kernels, num_channels, permute), g),
        0 <= k < num_kernels,
        num_kernels <= num_channels * num_channels,
    ensures
        ({
            let c = num_channels as int;
            let place = if permute {
                (k % c) * c + k / c
            } else {
                k
            };
            let n = num_kernels as int as real;
            &&& (100real * v(g.mu@[k]) - 10real) * n == 5real * (place as real)
            &&& (100real * v(g.sigma@[k]) - 5real) * n == 3real * (place as real)
            &&& v(g.weights@[k]) * (num_channels as int as real) == 1real
        }),
{
    lemma_flow_numbers(v);
    let c = num_channels as int;
    let place = if permute {
        permuted(k, c)
    } else {
        k
    };
    assert(0 <= place <= usize::MAX) by {
        let r = k % c;
        let q = k / c;
        lemma_mod_bound(k, c);
        assert(0 <= q <= k) by (nonlinear_arith)
            requires
                q == k / c,
                c > 0,
                k >= 0,
        ;
        assert(0 <= r * c <= c * c) by (nonlinear_arith)
            requires
                0 <= r < c,
        ;
    }
    let tenth = decimal_of::<S>(1i64, 1u32);
    let twentieth = decimal_of::<S>(5i64, 2u32);
    let three = decimal_of::<S>(3i64, 2u32);
    lemma_graded(v, tenth, twentieth, place, num_kernels);
    lemma_graded(v, twentieth, three, place, num_kernels);
    let n = num_kernels as int as real;
    let x = place as real;
    let a = v(g.mu@[k]);
    let b = v(g.sigma@[k]);
    assert((100real * a - 10real) * n == 5real * x) by (nonlinear_arith)
        requires
            (a - 1real / 10real) * n == (5real / 100real) * x,
    ;
    assert((100real * b - 5real) * n == 3real * x) by (nonlinear_arith)
        requires
            (b - 5real / 100real) * n == (3real / 100real) * x,
    ;
    assert(v(integer_of::<S>(1i64)) == 1real);
    assert(v(count_of::<S>(num_channels)) == c as real);
    lemma_quotient(1real, c as real);
}

/// The growth of the flow sample's three kernels: middles 0.1, 0.15 and 0.12, a tenth of their
/// radii (0.5, 0.8 and 0.65) wide, as heavy as their radii.
pub proof fn law_flow_sample_growth<S: Real>(
    v: spec_fn(S) -> real,
    r: Vec<S>,
    m: Vec<S>,
    s: Vec<S>,
    h: Vec<S>,
    k: int,
)
    requires
        exact_decimals(v),
        functional::<S>(),
        call_ensures(flow_radii::<S>, (), r),
        call_ensures(flow_m::<S>, (), m),
        call_ensures(flow_s::<S>, (), s),
        call_ensures(flow_h::<S>, (), h),
        0 <= k < 3,
    ensures
        v(h@[k]) == v(r@[k]),
        10real * v(s@[k]) == v(r@[k]),
        100real * v(r@[k]) == (if k == 0 {
            50real
        } else if k == 1 {
            80real
        } else {
            65real
        }),
        100real * v(m@[k]) == (if k == 0 {
            10real
        } else if k == 1 {
            15real
        } else {
            12real
        }),
{
    lemma_flow_numbers(v);
    assert(v(decimal_of::<S>(5i64, 1u32)) == 1real / 2real);
}

} // verus!
