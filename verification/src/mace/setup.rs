//! What a Diffusion Lenia world starts from: kernels, blobs of mass, growth.

use crate::complex::Complex;
use crate::field::Plane;
use crate::mace::fft::{fft_2d, ifftshift_2d};
use crate::mace::sums::add_plane;
use crate::scalar::Real;
use vstd::prelude::*;

verus! {

use crate::exact::{exact_as, lemma_rsum_same, lemma_rsum_scale, rsum, rsum2};
use crate::mace::fft::{is_grid, plane_fn, plane_of, swapped};
use crate::mace::step::{are_squares, lemma_plane_of_same};
use crate::mace::sums::{lemma_plane_exact, lemma_plane_total_same, plane_total};
use crate::scalar::{
    below_of, count_of, decimal_of, exp_of, functional, integer_of, minus_of, neg_of, over_of,
    plus_of, sqrt_of, tanh_of, times_of,
};
use vstd::arithmetic::power2::is_pow2;

/// The side of the world.
pub const N: usize = 1024;

/// The number of channels.
pub const C: usize = 3;

/// The number of kernels: one from each channel to each channel.
pub const K: usize = 9;

/// The smooth step of kernel envelopes.
pub open spec fn sigmoid_of<S: Real>(x: S) -> S {
    plus_of(
        times_of(
            decimal_of::<S>(5i64, 1u32),
            tanh_of(times_of(x, decimal_of::<S>(5i64, 1u32))),
        ),
        decimal_of::<S>(5i64, 1u32),
    )
}

/// The smooth step of kernel envelopes.
pub fn sigmoid<S: Real>(x: S) -> (y: S)
    ensures
        functional::<S>() ==> y == sigmoid_of(x),
{
    S::decimal(5, 1).times(x.times(S::decimal(5, 1)).tanh()).plus(S::decimal(5, 1))
}

/// How far from the centre each ring sits.
pub open spec fn radii_of<S: Real>() -> Seq<S> {
    seq![
        decimal_of::<S>(25i64, 2u32),
        decimal_of::<S>(3167i64, 4u32),
        decimal_of::<S>(3833i64, 4u32),
        decimal_of::<S>(45i64, 2u32),
        decimal_of::<S>(5167i64, 4u32),
        decimal_of::<S>(5833i64, 4u32),
        decimal_of::<S>(65i64, 2u32),
        decimal_of::<S>(7167i64, 4u32),
        decimal_of::<S>(85i64, 2u32),
    ]
}

/// How far from the centre each ring sits.
pub fn radii<S: Real>() -> (v: Vec<S>)
    ensures
        v@.len() == K,
        functional::<S>() ==> v@ == radii_of::<S>(),
{
    let mut v: Vec<S> = Vec::new();
    v.push(S::decimal(25, 2));
    v.push(S::decimal(3167, 4));
    v.push(S::decimal(3833, 4));
    v.push(S::decimal(45, 2));
    v.push(S::decimal(5167, 4));
    v.push(S::decimal(5833, 4));
    v.push(S::decimal(65, 2));
    v.push(S::decimal(7167, 4));
    v.push(S::decimal(85, 2));
    assert(functional::<S>() ==> v@ =~= radii_of::<S>());
    v
}

/// How thick each ring is.
pub open spec fn widths_of<S: Real>() -> Seq<S> {
    seq![
        decimal_of::<S>(3i64, 2u32),
        decimal_of::<S>(411i64, 4u32),
        decimal_of::<S>(522i64, 4u32),
        decimal_of::<S>(633i64, 4u32),
        decimal_of::<S>(744i64, 4u32),
        decimal_of::<S>(856i64, 4u32),
        decimal_of::<S>(967i64, 4u32),
        decimal_of::<S>(1078i64, 4u32),
        decimal_of::<S>(13i64, 2u32),
    ]
}

/// How thick each ring is.
pub fn widths<S: Real>() -> (v: Vec<S>)
    ensures
        v@.len() == K,
        functional::<S>() ==> v@ == widths_of::<S>(),
{
    let mut v: Vec<S> = Vec::new();
    v.push(S::decimal(3, 2));
    v.push(S::decimal(411, 4));
    v.push(S::decimal(522, 4));
    v.push(S::decimal(633, 4));
    v.push(S::decimal(744, 4));
    v.push(S::decimal(856, 4));
    v.push(S::decimal(967, 4));
    v.push(S::decimal(1078, 4));
    v.push(S::decimal(13, 2));
    assert(functional::<S>() ==> v@ =~= widths_of::<S>());
    v
}

/// A ring around the middle of a square of side `n`: a bump at half its radius, cut off
/// beyond the radius.
pub open spec fn ring_of<S: Real>(n: usize, radius: S, width: S) -> spec_fn(int, int) -> S {
    |i: int, j: int|
        {
            let mid = count_of::<S>((n / 2) as usize);
            let di = minus_of(count_of::<S>(i as usize), mid);
            let dj = minus_of(count_of::<S>(j as usize), mid);
            let dist = sqrt_of(plus_of(times_of(di, di), times_of(dj, dj)));
            let d = over_of(dist, times_of(integer_of::<S>(10i64), radius));
            let sig = sigmoid_of(
                times_of(
                    neg_of(minus_of(d, integer_of::<S>(1i64))),
                    integer_of::<S>(10i64),
                ),
            );
            let diff = minus_of(d, decimal_of::<S>(5i64, 1u32));
            let ker = exp_of(
                over_of(
                    neg_of(times_of(diff, diff)),
                    times_of(times_of(integer_of::<S>(2i64), width), width),
                ),
            );
            times_of(sig, ker)
        }
}

/// One place of a ring.
fn ring_at<S: Real>(n: usize, radius: S, width: S, i: usize, j: usize) -> (x: S)
    ensures
        functional::<S>() ==> x == ring_of(n, radius, width)(i as int, j as int),
{
    let mid = S::count(n / 2);
    let di = S::count(i).minus(mid);
    let dj = S::count(j).minus(mid);
    let dist = di.times(di).plus(dj.times(dj)).sqrt();
    let d_scaled = dist.over(S::integer(10).times(radius));
    let sig = sigmoid(d_scaled.minus(S::integer(1)).neg().times(S::integer(10)));
    let diff = d_scaled.minus(S::decimal(5, 1));
    let ker_val = diff.times(diff).neg().over(
        S::integer(2).times(width).times(width),
    ).exp();
    sig.times(ker_val)
}

/// A plane divided by its sum, where that is above zero.
pub open spec fn normalised<S: Real>(f: spec_fn(int, int) -> S, n: nat) -> spec_fn(
    int,
    int,
) -> S {
    let whole = plane_total(integer_of::<S>(0i64), f, n, n);
    |i: int, j: int|
        if below_of(integer_of::<S>(0i64), whole) {
            over_of(f(i, j), whole)
        } else {
            f(i, j)
        }
}

/// A plane whose sum is above zero sums to one once it is normalised, wherever arithmetic
/// does not round.
pub proof fn law_normalised_sums_to_one<S: Real>(
    v: spec_fn(S) -> real,
    f: spec_fn(int, int) -> S,
    n: nat,
)
    requires
        exact_as(v),
        below_of(integer_of::<S>(0i64), plane_total(integer_of::<S>(0i64), f, n, n)),
        v(plane_total(integer_of::<S>(0i64), f, n, n)) > 0real,
    ensures
        rsum2(|i: int, j: int| v(normalised(f, n)(i, j)), n) == 1real,
{
    let zero = integer_of::<S>(0i64);
    let whole = v(plane_total(zero, f, n, n));
    let part = 1real / whole;
    assert(v(zero) == 0real);
    lemma_plane_exact(v, zero, f, n, n);
    let rows = |i: int| rsum(|j: int| v(f(i, j)), n);
    let value = |i: int, j: int| v(normalised(f, n)(i, j));
    let scaled = |i: int| rsum(|j: int| value(i, j), n);
    assert forall|i: int| 0 <= i < n implies #[trigger] scaled(i) == part * rows(i) by {
        let line = |j: int| v(f(i, j));
        let shares = |j: int| value(i, j);
        lemma_rsum_scale(part, line, n);
        assert forall|j: int| 0 <= j < n implies #[trigger] shares(j) == part * line(j) by {
            let x = line(j);
            assert(x / whole == (1real / whole) * x) by (nonlinear_arith)
                requires
                    whole > 0real,
            ;
        }
        lemma_rsum_same(shares, |j: int| part * line(j), n);
    }
    lemma_rsum_same(scaled, |i: int| part * rows(i), n);
    lemma_rsum_scale(part, rows, n);
    assert((1real / whole) * whole == 1real) by (nonlinear_arith)
        requires
            whole > 0real,
    ;
}

/// The kernel with the given ring, with its centre in the corner.
pub open spec fn centred<S: Real>(n: usize, radius: S, width: S) -> spec_fn(int, int) -> Complex<S> {
    |i: int, j: int|
        Complex {
            re: normalised(ring_of(n, radius, width), n as nat)(
                swapped(n as int, i),
                swapped(n as int, j),
            ),
            im: integer_of::<S>(0i64),
        }
}

/// The spectrum of the kernel with the given ring.
pub open spec fn kernel_fft_of<S: Real>(n: usize, radius: S, width: S) -> spec_fn(
    int,
    int,
) -> Complex<S> {
    plane_of(false, centred(n, radius, width), n as nat)
}

/// Makes the spectrum of one kernel: a ring, normalised, moved to the corner, transformed.
fn generate_kernel_fft<S: Real>(n: usize, radius: S, width: S) -> (grid: Plane<Complex<S>>)
    requires
        n >= 2,
        is_pow2(n as int),
        n % 2 == 0,
    ensures
        is_grid(&grid, n as int),
        functional::<S>() ==> forall|i: int, j: int|
            grid.has(i, j) ==> #[trigger] grid.at(i, j) == kernel_fft_of(n, radius, width)(i, j),
{
    let spatial_at = |i: usize, j: usize| -> (x: S)
        ensures
            functional::<S>() ==> x == ring_of(n, radius, width)(i as int, j as int),
        { ring_at(n, radius, width, i, j) };
    let spatial = Plane::from(n, n, spatial_at);
    let total = add_plane(S::integer(0), &spatial);
    let positive = S::integer(0).below(total);
    let sp = &spatial;
    let norm_at = |i: usize, j: usize| -> (x: Complex<S>)
        requires
            sp.wf(),
            sp.has(i as int, j as int),
        ensures
            functional::<S>() ==> x == (Complex {
                re: if positive {
                    over_of(sp.at(i as int, j as int), total)
                } else {
                    sp.at(i as int, j as int)
                },
                im: integer_of::<S>(0i64),
            }),
        {
            if positive {
                Complex::from_re(sp.get(i, j).over(total))
            } else {
                Complex::from_re(sp.get(i, j))
            }
        };
    let mut grid = Plane::from(n, n, norm_at);
    let ghost norm_plane = grid;
    ifftshift_2d(&mut grid);
    let ghost shifted = grid;
    fft_2d(&mut grid);
    proof {
        if functional::<S>() {
            let ring = ring_of(n, radius, width);
            assert forall|p: int, q: int| 0 <= p < n && 0 <= q < n implies #[trigger] plane_fn(sp)(
                p,
                q,
            ) == ring(p, q) by {
                assert(call_ensures(spatial_at, (p as usize, q as usize), sp.at(p, q)));
            }
            lemma_plane_total_same(
                integer_of::<S>(0i64),
                plane_fn(sp),
                ring,
                n as nat,
                n as nat,
            );
            let want = centred(n, radius, width);
            assert forall|p: int, q: int| 0 <= p < n && 0 <= q < n implies #[trigger] plane_fn(
                &shifted,
            )(p, q) == want(p, q) by {
                let a = swapped(n as int, p);
                let b = swapped(n as int, q);
                assert(shifted.at(p, q) == norm_plane.at(a, b));
                assert(call_ensures(norm_at, (a as usize, b as usize), norm_plane.at(a, b)));
                assert(plane_fn(sp)(a, b) == ring(a, b));
            }
            assert forall|i: int, j: int| grid.has(i, j) implies #[trigger] grid.at(i, j)
                == kernel_fft_of(n, radius, width)(i, j) by {
                lemma_plane_of_same(false, plane_fn(&shifted), want, n as nat, i, j);
            }
        }
    }
    grid
}

/// The spectra of all ring kernels of a world of side `n`.
pub fn generate_kernels_fft<S: Real>(n: usize) -> (kernels: Vec<Plane<Complex<S>>>)
    requires
        n >= 2,
        is_pow2(n as int),
    ensures
        kernels@.len() == K,
        are_squares(kernels@, n as int),
        functional::<S>() ==> forall|k: int, i: int, j: int|
            0 <= k < K && 0 <= i < n && 0 <= j < n ==> #[trigger] kernels@[k].at(i, j)
                == kernel_fft_of(n, radii_of::<S>()[k], widths_of::<S>()[k])(i, j),
{
    proof {
        reveal_with_fuel(is_pow2, 2);
    }
    let rs = radii::<S>();
    let ws = widths::<S>();
    let mut kernels: Vec<Plane<Complex<S>>> = Vec::new();
    let mut k: usize = 0;
    while k < K
        invariant
            k <= K,
            n >= 2,
            is_pow2(n as int),
            n % 2 == 0,
            rs@.len() == K,
            ws@.len() == K,
            functional::<S>() ==> rs@ == radii_of::<S>() && ws@ == widths_of::<S>(),
            kernels@.len() == k,
            are_squares(kernels@, n as int),
            functional::<S>() ==> forall|l: int, i: int, j: int|
                0 <= l < k && 0 <= i < n && 0 <= j < n ==> #[trigger] kernels@[l].at(i, j)
                    == kernel_fft_of(n, radii_of::<S>()[l], widths_of::<S>()[l])(i, j),
        decreases K - k,
    {
        let grid = generate_kernel_fft(n, rs[k], ws[k]);
        let ghost had = kernels@;
        kernels.push(grid);
        proof {
            if functional::<S>() {
                assert forall|l: int, i: int, j: int|
                    0 <= l < k + 1 && 0 <= i < n && 0 <= j < n implies #[trigger] kernels@[l].at(
                    i,
                    j,
                ) == kernel_fft_of(n, radii_of::<S>()[l], widths_of::<S>()[l])(i, j) by {
                    if l < k {
                        assert(had[l].at(i, j) == kernel_fft_of(
                            n,
                            radii_of::<S>()[l],
                            widths_of::<S>()[l],
                        )(i, j));
                    } else {
                        assert(grid.has(i, j));
                        assert(grid.at(i, j) == kernels@[l].at(i, j));
                    }
                }
            }
        }
        k = k + 1;
    }
    kernels
}

/// The widths of the blobs of mass of the channels.
pub open spec fn blob_sigmas<S: Real>() -> Seq<S> {
    seq![
        decimal_of::<S>(25i64, 2u32),
        decimal_of::<S>(22i64, 2u32),
        decimal_of::<S>(28i64, 2u32),
    ]
}

/// How far the blobs sit to the right of the middle.
pub open spec fn blob_xs<S: Real>() -> Seq<S> {
    seq![decimal_of::<S>(0i64, 1u32), decimal_of::<S>(4i64, 2u32), decimal_of::<S>(0i64, 1u32)]
}

/// How far the blobs sit below the middle.
pub open spec fn blob_ys<S: Real>() -> Seq<S> {
    seq![decimal_of::<S>(0i64, 1u32), decimal_of::<S>(0i64, 1u32), decimal_of::<S>(4i64, 2u32)]
}

/// A blob of mass in a square of side `n` whose coordinates run from -1 to 1.
pub open spec fn blob_of<S: Real>(n: usize, sigma: S, ox: S, oy: S) -> spec_fn(int, int) -> S {
    |i: int, j: int|
        {
            let half = over_of(count_of::<S>(n), integer_of::<S>(2i64));
            let inv_sigma2 = over_of(
                integer_of::<S>(1i64),
                times_of(times_of(integer_of::<S>(2i64), sigma), sigma),
            );
            let dx = minus_of(over_of(minus_of(count_of::<S>(j as usize), half), half), ox);
            let dy = minus_of(over_of(minus_of(count_of::<S>(i as usize), half), half), oy);
            exp_of(
                times_of(neg_of(plus_of(times_of(dx, dx), times_of(dy, dy))), inv_sigma2),
            )
        }
}

/// One place of a blob.
fn blob_at<S: Real>(n: usize, sigma: S, ox: S, oy: S, i: usize, j: usize) -> (v: S)
    ensures
        functional::<S>() ==> v == blob_of(n, sigma, ox, oy)(i as int, j as int),
{
    let half = S::count(n).over(S::integer(2));
    let inv_sigma2 = S::integer(1).over(S::integer(2).times(sigma).times(sigma));
    let x = S::count(j).minus(half).over(half);
    let y = S::count(i).minus(half).over(half);
    let dx = x.minus(ox);
    let dy = y.minus(oy);
    dx.times(dx).plus(dy.times(dy)).neg().times(inv_sigma2).exp()
}

/// Makes one blob of mass.
fn generate_blob<S: Real>(n: usize, sigma: S, ox: S, oy: S) -> (p: Plane<S>)
    ensures
        p.wf(),
        p.rows == n,
        p.cols == n,
        functional::<S>() ==> forall|i: int, j: int|
            p.has(i, j) ==> #[trigger] p.at(i, j) == blob_of(n, sigma, ox, oy)(i, j),
{
    let at = |i: usize, j: usize| -> (v: S)
        ensures
            functional::<S>() ==> v == blob_of(n, sigma, ox, oy)(i as int, j as int),
        { blob_at(n, sigma, ox, oy, i, j) };
    let p = Plane::from(n, n, at);
    proof {
        assert forall|i: int, j: int| p.has(i, j) implies call_ensures(
            at,
            (i as usize, j as usize),
            #[trigger] p.at(i, j),
        ) by {}
    }
    p
}

/// The mass that a world of side `n` starts with: a blob for each channel.
pub fn generate_seed<S: Real>(n: usize) -> (channels: Vec<Plane<S>>)
    ensures
        channels@.len() == C,
        are_squares(channels@, n as int),
        functional::<S>() ==> forall|c: int, i: int, j: int|
            0 <= c < C && 0 <= i < n && 0 <= j < n ==> #[trigger] channels@[c].at(i, j)
                == blob_of(n, blob_sigmas::<S>()[c], blob_xs::<S>()[c], blob_ys::<S>()[c])(i, j),
{
    let zero = S::decimal(0, 1);
    let a = generate_blob(n, S::decimal(25, 2), zero, zero);
    let b = generate_blob(n, S::decimal(22, 2), S::decimal(4, 2), zero);
    let c = generate_blob(n, S::decimal(28, 2), zero, S::decimal(4, 2));
    let mut channels: Vec<Plane<S>> = Vec::new();
    channels.push(a);
    channels.push(b);
    channels.push(c);
    proof {
        if functional::<S>() {
            assert forall|k: int, i: int, j: int|
                0 <= k < C && 0 <= i < n && 0 <= j < n implies #[trigger] channels@[k].at(i, j)
                == blob_of(n, blob_sigmas::<S>()[k], blob_xs::<S>()[k], blob_ys::<S>()[k])(i, j) by {
                if k == 0 {
                    assert(a.has(i, j) && channels@[k].at(i, j) == a.at(i, j));
                } else if k == 1 {
                    assert(b.has(i, j) && channels@[k].at(i, j) == b.at(i, j));
                } else {
                    assert(c.has(i, j) && channels@[k].at(i, j) == c.at(i, j));
                }
            }
        }
    }
    channels
}

/// The growth of all kernels, and the channels that they read and feed.
pub struct GrowthParams<S> {
    pub mu: Vec<S>,
    pub sigma: Vec<S>,
    pub weights: Vec<S>,
    pub c0: Vec<usize>,
    pub c1: Vec<usize>,
}

/// A base, and a span taken in proportion to a kernel's place among the kernels.
pub open spec fn graded_of<S: Real>(base: S, span: S, k: int) -> S {
    plus_of(
        base,
        over_of(
            times_of(span, count_of::<S>(((k % 3) * 3 + k / 3) as usize)),
            count_of::<S>(9usize),
        ),
    )
}

/// The growth of kernels that lead from each channel to each channel.
pub fn generate_growth_params<S: Real>() -> (p: GrowthParams<S>)
    ensures
        p.mu@.len() == K,
        p.sigma@.len() == K,
        p.weights@.len() == K,
        p.c0@.len() == K,
        p.c1@.len() == K,
        forall|k: int| 0 <= k < K ==> #[trigger] p.c0@[k] == k % 3,
        forall|k: int| 0 <= k < K ==> #[trigger] p.c1@[k] == k / 3,
        functional::<S>() ==> forall|k: int|
            0 <= k < K ==> #[trigger] p.mu@[k] == graded_of(
                decimal_of::<S>(5i64, 2u32),
                decimal_of::<S>(20i64, 2u32),
                k,
            ),
        functional::<S>() ==> forall|k: int|
            0 <= k < K ==> #[trigger] p.sigma@[k] == graded_of(
                decimal_of::<S>(3i64, 2u32),
                decimal_of::<S>(12i64, 2u32),
                k,
            ),
        functional::<S>() ==> forall|k: int|
            0 <= k < K ==> #[trigger] p.weights@[k] == (if k % 3 == k / 3 {
                decimal_of::<S>(5i64, 1u32)
            } else {
                decimal_of::<S>(25i64, 2u32)
            }),
{
    let mut mu: Vec<S> = Vec::new();
    let mut sigma: Vec<S> = Vec::new();
    let mut weights: Vec<S> = Vec::new();
    let mut c0: Vec<usize> = Vec::new();
    let mut c1: Vec<usize> = Vec::new();
    let mut k: usize = 0;
    while k < K
        invariant
            k <= K,
            mu@.len() == k,
            sigma@.len() == k,
            weights@.len() == k,
            c0@.len() == k,
            c1@.len() == k,
            forall|l: int| 0 <= l < k ==> #[trigger] c0@[l] == l % 3,
            forall|l: int| 0 <= l < k ==> #[trigger] c1@[l] == l / 3,
            functional::<S>() ==> forall|l: int|
                0 <= l < k ==> #[trigger] mu@[l] == graded_of(
                    decimal_of::<S>(5i64, 2u32),
                    decimal_of::<S>(20i64, 2u32),
                    l,
                ),
            functional::<S>() ==> forall|l: int|
                0 <= l < k ==> #[trigger] sigma@[l] == graded_of(
                    decimal_of::<S>(3i64, 2u32),
                    decimal_of::<S>(12i64, 2u32),
                    l,
                ),
            functional::<S>() ==> forall|l: int|
                0 <= l < k ==> #[trigger] weights@[l] == (if l % 3 == l / 3 {
                    decimal_of::<S>(5i64, 1u32)
                } else {
                    decimal_of::<S>(25i64, 2u32)
                }),
        decreases K - k,
    {
        let in_ch: usize = k % C;
        let out_ch: usize = k / C;
        c0.push(in_ch);
        c1.push(out_ch);
        let perm = S::count(in_ch * C + out_ch);
        mu.push(S::decimal(5, 2).plus(S::decimal(20, 2).times(perm).over(S::count(K))));
        sigma.push(S::decimal(3, 2).plus(S::decimal(12, 2).times(perm).over(S::count(K))));
        if in_ch == out_ch {
            weights.push(S::decimal(5, 1));
        } else {
            weights.push(S::decimal(25, 2));
        }
        k = k + 1;
    }
    GrowthParams { mu, sigma, weights, c0, c1 }
}

/// Every channel feeds every channel through exactly one kernel.
pub proof fn law_one_kernel_for_each_pair(c0: Seq<usize>, c1: Seq<usize>, from: int, to: int)
    requires
        c0.len() == K,
        c1.len() == K,
        forall|k: int| 0 <= k < K ==> #[trigger] c0[k] == k % 3,
        forall|k: int| 0 <= k < K ==> #[trigger] c1[k] == k / 3,
        0 <= from < C,
        0 <= to < C,
    ensures
        0 <= 3 * to + from < K,
        c0[3 * to + from] == from,
        c1[3 * to + from] == to,
        forall|k: int|
            0 <= k < K && #[trigger] c0[k] == from && c1[k] == to ==> k == 3 * to + from,
{
}

/// Of the kernels of a Diffusion Lenia world, exactly one leads from any channel to any channel.
pub proof fn law_every_pair_of_channels_has_one_kernel<S: Real>(
    p: GrowthParams<S>,
    from: int,
    to: int,
    k: int,
    l: int,
)
    requires
        call_ensures(generate_growth_params::<S>, (), p),
        0 <= from < C,
        0 <= to < C,
        0 <= k < K,
        0 <= l < K,
        p.c0@[k] == from && p.c1@[k] == to,
        p.c0@[l] == from && p.c1@[l] == to,
    ensures
        p.c0@[3 * to + from] == from,
        p.c1@[3 * to + from] == to,
        k == l,
{
    law_one_kernel_for_each_pair(p.c0@, p.c1@, from, to);
}

} // verus!
