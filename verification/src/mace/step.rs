//! One step of Diffusion Lenia: convolution, growth, diffusion.

use crate::complex::Complex;
use crate::field::Plane;
use crate::mace::fft::{cmul, fft_2d, ifft_2d};
use crate::scalar::Real;
use vstd::prelude::*;

verus! {

use crate::complex::ctimes_of;
use crate::mace::fft::{is_grid, plane_fn, plane_of, rows_of};
use crate::mace::sums::{lemma_line_same, total};
use vstd::arithmetic::power2::is_pow2;
use crate::scalar::{
    decimal_of, exp_of, functional, integer_of, minus_of, over_of, plus_of, times_of,
};

/// The bump growth of a potential: 2 exp(-((u - m) / s)^2 / 2) - 1.
pub open spec fn bump_growth_of<S: Real>(u: S, m: S, s: S) -> S {
    let d = minus_of(u, m);
    let inv_s2 = over_of(integer_of::<S>(1i64), times_of(s, s));
    minus_of(
        times_of(
            integer_of::<S>(2i64),
            exp_of(times_of(times_of(times_of(decimal_of::<S>(-5i64, 1u32), d), d), inv_s2)),
        ),
        integer_of::<S>(1i64),
    )
}

/// The bump growth of a potential.
fn bump_growth<S: Real>(u: S, m: S, s: S) -> (g: S)
    ensures
        functional::<S>() ==> g == bump_growth_of(u, m, s),
{
    let inv_s2 = S::integer(1).over(s.times(s));
    let d = u.minus(m);
    S::integer(2).times(S::decimal(-5, 1).times(d).times(d).times(inv_s2).exp()).minus(
        S::integer(1),
    )
}

/// The weighted growth that the first `n` kernels bring to a cell of a channel.
pub open spec fn wsum_of<S: Real>(
    conv: spec_fn(int, int, int) -> S,
    c1: Seq<usize>,
    mu: Seq<S>,
    sigma: Seq<S>,
    weight: Seq<S>,
    out_ch: int,
    i: int,
    j: int,
    n: nat,
) -> S
    decreases n,
{
    if n == 0 {
        integer_of::<S>(0i64)
    } else {
        let k = n - 1;
        let before = wsum_of(conv, c1, mu, sigma, weight, out_ch, i, j, k as nat);
        if c1[k] == out_ch {
            plus_of(
                before,
                times_of(bump_growth_of(conv(k, i, j), mu[k], sigma[k]), weight[k]),
            )
        } else {
            before
        }
    }
}

/// The temperature by which growth is multiplied.
pub open spec fn temp_of<S: Real>() -> S {
    integer_of::<S>(1i64)
}

/// The affinity of the cells of a channel: the exponential of the growth that all kernels
/// bring to it.
pub open spec fn affinity_of<S: Real>(
    conv: spec_fn(int, int, int) -> S,
    c1: Seq<usize>,
    mu: Seq<S>,
    sigma: Seq<S>,
    weight: Seq<S>,
    out_ch: int,
) -> spec_fn(int, int) -> S {
    |i: int, j: int|
        exp_of(
            times_of(
                temp_of::<S>(),
                wsum_of(conv, c1, mu, sigma, weight, out_ch, i, j, c1.len()),
            ),
        )
}

/// The real parts of a list of planes.
pub open spec fn real_fn<S>(planes: Seq<Plane<Complex<S>>>) -> spec_fn(int, int, int) -> S {
    |k: int, i: int, j: int| planes[k].at(i, j).re
}

/// Whether planes are squares of side `n`.
pub open spec fn are_squares<T>(planes: Seq<Plane<T>>, n: int) -> bool {
    forall|k: int|
        0 <= k < planes.len() ==> (#[trigger] planes[k]).wf() && planes[k].rows == n
            && planes[k].cols == n
}

/// The affinity of one cell.
fn affinity_at<S: Real>(
    conv_result: &Vec<Plane<Complex<S>>>,
    c1: &[usize],
    mu: &[S],
    sigma: &[S],
    weight: &[S],
    out_ch: usize,
    i: usize,
    j: usize,
    Ghost(n): Ghost<int>,
) -> (a: S)
    requires
        are_squares(conv_result@, n),
        conv_result@.len() == c1@.len(),
        mu@.len() == c1@.len(),
        sigma@.len() == c1@.len(),
        weight@.len() == c1@.len(),
        i < n,
        j < n,
    ensures
        functional::<S>() ==> a == affinity_of(
            real_fn(conv_result@),
            c1@,
            mu@,
            sigma@,
            weight@,
            out_ch as int,
        )(i as int, j as int),
{
    let mut wsum = S::integer(0);
    let mut k: usize = 0;
    while k < c1.len()
        invariant
            k <= c1@.len(),
            are_squares(conv_result@, n),
            conv_result@.len() == c1@.len(),
            mu@.len() == c1@.len(),
            sigma@.len() == c1@.len(),
            weight@.len() == c1@.len(),
            i < n,
            j < n,
            functional::<S>() ==> wsum == wsum_of(
                real_fn(conv_result@),
                c1@,
                mu@,
                sigma@,
                weight@,
                out_ch as int,
                i as int,
                j as int,
                k as nat,
            ),
        decreases c1@.len() - k,
    {
        if c1[k] == out_ch {
            assert(conv_result@[k as int].wf());
            let u = conv_result[k].get(i, j).re;
            let g = bump_growth(u, mu[k], sigma[k]);
            wsum = wsum.plus(g.times(weight[k]));
        }
        k = k + 1;
    }
    S::integer(1).times(wsum).exp()
}

/// Growth: the affinity of a channel, from the convolutions of all kernels.
pub fn growth_phase<S: Real>(
    conv_result: &Vec<Plane<Complex<S>>>,
    c1: &[usize],
    mu: &[S],
    sigma: &[S],
    weight: &[S],
    out_ch: usize,
    affinity: &mut Plane<S>,
)
    requires
        old(affinity).wf(),
        old(affinity).rows == old(affinity).cols,
        are_squares(conv_result@, old(affinity).rows as int),
        conv_result@.len() == c1@.len(),
        mu@.len() == c1@.len(),
        sigma@.len() == c1@.len(),
        weight@.len() == c1@.len(),
    ensures
        final(affinity).wf(),
        final(affinity).rows == old(affinity).rows,
        final(affinity).cols == old(affinity).cols,
        functional::<S>() ==> forall|i: int, j: int|
            final(affinity).has(i, j) ==> #[trigger] final(affinity).at(i, j) == affinity_of(
                real_fn(conv_result@),
                c1@,
                mu@,
                sigma@,
                weight@,
                out_ch as int,
            )(i, j),
{
    let n: usize = affinity.rows;
    let at = |i: usize, j: usize| -> (a: S)
        requires
            are_squares(conv_result@, n as int),
            conv_result@.len() == c1@.len(),
            mu@.len() == c1@.len(),
            sigma@.len() == c1@.len(),
            weight@.len() == c1@.len(),
            i < n,
            j < n,
        ensures
            functional::<S>() ==> a == affinity_of(
                real_fn(conv_result@),
                c1@,
                mu@,
                sigma@,
                weight@,
                out_ch as int,
            )(i as int, j as int),
        { affinity_at(conv_result, c1, mu, sigma, weight, out_ch, i, j, Ghost(n as int)) };
    let out = Plane::from(n, n, at);
    proof {
        assert forall|i: int, j: int| out.has(i, j) implies call_ensures(
            at,
            (i as usize, j as usize),
            #[trigger] out.at(i, j),
        ) by {}
    }
    *affinity = out;
}

/// Neighbour `d` of three around place `i` of a cycle.
pub open spec fn around(n: int, i: int, d: int) -> int {
    (i + d + n - 1) % n
}

/// Neighbour `t` of nine around a cell of a torus, row by row.
pub open spec fn neighbour<S>(f: spec_fn(int, int) -> S, n: int, i: int, j: int) -> spec_fn(
    int,
) -> S {
    |t: int| f(around(n, i, t / 3), around(n, j, t % 3))
}

/// The sum over the nine neighbours of a cell.
pub open spec fn stencil_of<S: Real>(f: spec_fn(int, int) -> S, n: int, i: int, j: int) -> S {
    total(neighbour(f, n, i, j), 9)
}

/// The affinity around each cell.
pub open spec fn z_of<S: Real>(a: spec_fn(int, int) -> S, n: int) -> spec_fn(int, int) -> S {
    |i: int, j: int| stencil_of(a, n, i, j)
}

/// The share of each cell's mass that one unit of affinity around it draws.
pub open spec fn shares<S: Real>(
    a: spec_fn(int, int) -> S,
    ch: spec_fn(int, int) -> S,
    n: int,
) -> spec_fn(int, int) -> S {
    |i: int, j: int| over_of(ch(i, j), z_of(a, n)(i, j))
}

/// Mass after it was spread: each cell hands its mass to its neighbours in proportion to
/// their affinity.
pub open spec fn diffused<S: Real>(
    a: spec_fn(int, int) -> S,
    ch: spec_fn(int, int) -> S,
    n: int,
) -> spec_fn(int, int) -> S {
    |i: int, j: int| times_of(a(i, j), stencil_of(shares(a, ch, n), n, i, j))
}

/// The sum over the nine neighbours of a cell.
fn stencil<S: Real>(f: &Plane<S>, n: usize, i: usize, j: usize) -> (s: S)
    requires
        f.wf(),
        f.rows == n,
        f.cols == n,
        i < n,
        j < n,
        2 * n + 2 <= usize::MAX,
    ensures
        functional::<S>() ==> s == stencil_of(plane_fn(f), n as int, i as int, j as int),
{
    let mut s = S::integer(0);
    let mut t: usize = 0;
    while t < 9
        invariant
            t <= 9,
            f.wf(),
            f.rows == n,
            f.cols == n,
            i < n,
            j < n,
            2 * n + 2 <= usize::MAX,
            functional::<S>() ==> s == total(
                neighbour(plane_fn(f), n as int, i as int, j as int),
                t as nat,
            ),
        decreases 9 - t,
    {
        let di: usize = t / 3;
        let dj: usize = t % 3;
        let ni: usize = (i + di + n - 1) % n;
        let nj: usize = (j + dj + n - 1) % n;
        s = s.plus(f.get(ni, nj));
        t = t + 1;
    }
    s
}

/// Sums over neighbours depend on nothing but the cells of the torus.
pub proof fn lemma_stencil_same<S: Real>(
    f: spec_fn(int, int) -> S,
    g: spec_fn(int, int) -> S,
    n: int,
    i: int,
    j: int,
)
    requires
        n > 0,
        forall|p: int, q: int| 0 <= p < n && 0 <= q < n ==> #[trigger] f(p, q) == g(p, q),
    ensures
        stencil_of(f, n, i, j) == stencil_of(g, n, i, j),
{
    let a = neighbour(f, n, i, j);
    let b = neighbour(g, n, i, j);
    assert forall|t: int| 0 <= t < 9 implies #[trigger] a(t) == b(t) by {
        let p = around(n, i, t / 3);
        let q = around(n, j, t % 3);
        vstd::arithmetic::div_mod::lemma_mod_bound(i + t / 3 + n - 1, n);
        vstd::arithmetic::div_mod::lemma_mod_bound(j + t % 3 + n - 1, n);
        assert(f(p, q) == g(p, q));
    }
    lemma_line_same(integer_of::<S>(0i64), a, b, 9);
}

/// Diffusion: mass handed to neighbours in proportion to their affinity.
pub fn diffusion_phase<S: Real>(affinity: &Plane<S>, channel: &Plane<S>, out: &mut Plane<S>)
    requires
        affinity.wf(),
        affinity.rows == affinity.cols,
        2 * affinity.rows + 2 <= usize::MAX,
        channel.wf(),
        channel.rows == affinity.rows,
        channel.cols == affinity.rows,
        old(out).wf(),
        old(out).rows == affinity.rows,
        old(out).cols == affinity.rows,
    ensures
        final(out).wf(),
        final(out).rows == affinity.rows,
        final(out).cols == affinity.rows,
        functional::<S>() ==> forall|i: int, j: int|
            final(out).has(i, j) ==> #[trigger] final(out).at(i, j) == diffused(
                plane_fn(affinity),
                plane_fn(channel),
                affinity.rows as int,
            )(i, j),
{
    let n: usize = affinity.rows;
    let ghost a = plane_fn(affinity);
    let z_at = |i: usize, j: usize| -> (z: S)
        requires
            affinity.wf(),
            affinity.rows == n,
            affinity.cols == n,
            i < n,
            j < n,
            2 * n + 2 <= usize::MAX,
        ensures
            functional::<S>() ==> z == z_of(plane_fn(affinity), n as int)(i as int, j as int),
        { stencil(affinity, n, i, j) };
    let z_sum = Plane::from(n, n, z_at);
    let z = &z_sum;
    let share_at = |i: usize, j: usize| -> (s: S)
        requires
            channel.wf(),
            z.wf(),
            channel.has(i as int, j as int),
            z.has(i as int, j as int),
        ensures
            functional::<S>() ==> s == over_of(
                channel.at(i as int, j as int),
                z.at(i as int, j as int),
            ),
        { channel.get(i, j).over(z.get(i, j)) };
    let share_plane = Plane::from(n, n, share_at);
    let sh = &share_plane;
    let new_at = |i: usize, j: usize| -> (x: S)
        requires
            affinity.wf(),
            affinity.rows == n,
            affinity.cols == n,
            sh.wf(),
            sh.rows == n,
            sh.cols == n,
            i < n,
            j < n,
            2 * n + 2 <= usize::MAX,
        ensures
            functional::<S>() ==> x == times_of(
                affinity.at(i as int, j as int),
                stencil_of(plane_fn(sh), n as int, i as int, j as int),
            ),
        { affinity.get(i, j).times(stencil(sh, n, i, j)) };
    let spread = Plane::from(n, n, new_at);
    proof {
        if functional::<S>() {
            let s = shares(a, plane_fn(channel), n as int);
            assert forall|p: int, q: int| 0 <= p < n && 0 <= q < n implies #[trigger] plane_fn(sh)(
                p,
                q,
            ) == s(p, q) by {
                assert(call_ensures(share_at, (p as usize, q as usize), sh.at(p, q)));
                assert(call_ensures(z_at, (p as usize, q as usize), z.at(p, q)));
            }
            assert forall|i: int, j: int| spread.has(i, j) implies #[trigger] spread.at(i, j)
                == diffused(a, plane_fn(channel), n as int)(i, j) by {
                assert(call_ensures(new_at, (i as usize, j as usize), spread.at(i, j)));
                lemma_stencil_same(plane_fn(sh), s, n as int, i, j);
            }
        }
    }
    *out = spread;
}

/// A channel as a complex plane.
pub open spec fn lifted<S: Real>(channels: spec_fn(int, int, int) -> S, c: int) -> spec_fn(
    int,
    int,
) -> Complex<S> {
    |i: int, j: int| Complex { re: channels(c, i, j), im: integer_of::<S>(0i64) }
}

/// The spectrum of a kernel's channel times the spectrum of the kernel.
pub open spec fn filtered<S: Real>(
    channels: spec_fn(int, int, int) -> S,
    kernels: spec_fn(int, int, int) -> Complex<S>,
    c0: Seq<usize>,
    n: nat,
    k: int,
) -> spec_fn(int, int) -> Complex<S> {
    |i: int, j: int|
        ctimes_of(plane_of(false, lifted(channels, c0[k] as int), n)(i, j), kernels(k, i, j))
}

/// The convolution of each kernel with its channel.
pub open spec fn conv_of<S: Real>(
    channels: spec_fn(int, int, int) -> S,
    kernels: spec_fn(int, int, int) -> Complex<S>,
    c0: Seq<usize>,
    n: nat,
) -> spec_fn(int, int, int) -> S {
    |k: int, i: int, j: int| plane_of(true, filtered(channels, kernels, c0, n, k), n)(i, j).re
}

/// The entries of a list of planes.
pub open spec fn planes_fn<T>(planes: Seq<Plane<T>>) -> spec_fn(int, int, int) -> T {
    |k: int, i: int, j: int| planes[k].at(i, j)
}

/// A channel one step on.
pub open spec fn stepped<S: Real>(
    channels: spec_fn(int, int, int) -> S,
    kernels: spec_fn(int, int, int) -> Complex<S>,
    c0: Seq<usize>,
    c1: Seq<usize>,
    mu: Seq<S>,
    sigma: Seq<S>,
    weight: Seq<S>,
    n: nat,
    c: int,
) -> spec_fn(int, int) -> S {
    diffused(
        affinity_of(conv_of(channels, kernels, c0, n), c1, mu, sigma, weight, c),
        |i: int, j: int| channels(c, i, j),
        n as int,
    )
}

/// Plane transforms depend on nothing but the cells of the plane.
pub proof fn lemma_plane_of_same<S: Real>(
    inverse: bool,
    f: spec_fn(int, int) -> Complex<S>,
    g: spec_fn(int, int) -> Complex<S>,
    n: nat,
    i: int,
    j: int,
)
    requires
        forall|p: int, q: int| 0 <= p < n && 0 <= q < n ==> #[trigger] f(p, q) == g(p, q),
    ensures
        plane_of(inverse, f, n)(i, j) == plane_of(inverse, g, n)(i, j),
{
    assert forall|r: int| 0 <= r < n implies #[trigger] rows_of(inverse, f, n)(r, j) == rows_of(
        inverse,
        g,
        n,
    )(r, j) by {
        assert(Seq::new(n, |c: int| f(r, c)) =~= Seq::new(n, |c: int| g(r, c)));
    }
    assert(Seq::new(n, |r: int| rows_of(inverse, f, n)(r, j)) =~= Seq::new(
        n,
        |r: int| rows_of(inverse, g, n)(r, j),
    ));
}

/// Growth depends on nothing but the convolutions of the kernels.
proof fn lemma_wsum_same<S: Real>(
    f: spec_fn(int, int, int) -> S,
    g: spec_fn(int, int, int) -> S,
    c1: Seq<usize>,
    mu: Seq<S>,
    sigma: Seq<S>,
    weight: Seq<S>,
    out_ch: int,
    i: int,
    j: int,
    n: nat,
)
    requires
        forall|k: int| 0 <= k < n ==> #[trigger] f(k, i, j) == g(k, i, j),
    ensures
        wsum_of(f, c1, mu, sigma, weight, out_ch, i, j, n) == wsum_of(
            g,
            c1,
            mu,
            sigma,
            weight,
            out_ch,
            i,
            j,
            n,
        ),
    decreases n,
{
    if n > 0 {
        lemma_wsum_same(f, g, c1, mu, sigma, weight, out_ch, i, j, (n - 1) as nat);
        assert(f(n - 1, i, j) == g(n - 1, i, j));
    }
}

/// Convolves one kernel with a channel.
fn convolve<S: Real>(channel: &Plane<S>, kernel: &Plane<Complex<S>>) -> (grid: Plane<Complex<S>>)
    requires
        is_grid(channel, channel.rows as int),
        kernel.wf(),
        kernel.rows == channel.rows,
        kernel.cols == channel.rows,
    ensures
        is_grid(&grid, channel.rows as int),
        functional::<S>() ==> forall|i: int, j: int|
            grid.has(i, j) ==> #[trigger] grid.at(i, j) == plane_of(
                true,
                |p: int, q: int|
                    ctimes_of(
                        plane_of(
                            false,
                            |x: int, y: int|
                                Complex { re: channel.at(x, y), im: integer_of::<S>(0i64) },
                            channel.rows as nat,
                        )(p, q),
                        kernel.at(p, q),
                    ),
                channel.rows as nat,
            )(i, j),
{
    let n: usize = channel.rows;
    let lift_at = |i: usize, j: usize| -> (x: Complex<S>)
        requires
            channel.wf(),
            channel.has(i as int, j as int),
        ensures
            functional::<S>() ==> x == (Complex {
                re: channel.at(i as int, j as int),
                im: integer_of::<S>(0i64),
            }),
        { Complex::from_re(channel.get(i, j)) };
    let mut spectrum = Plane::from(n, n, lift_at);
    let ghost lift_plane = spectrum;
    fft_2d(&mut spectrum);
    let sp = &spectrum;
    let product_at = |i: usize, j: usize| -> (x: Complex<S>)
        requires
            sp.wf(),
            kernel.wf(),
            sp.has(i as int, j as int),
            kernel.has(i as int, j as int),
        ensures
            functional::<S>() ==> x == ctimes_of(
                sp.at(i as int, j as int),
                kernel.at(i as int, j as int),
            ),
        { cmul(sp.get(i, j), kernel.get(i, j)) };
    let mut grid = Plane::from(n, n, product_at);
    let ghost product_plane = grid;
    ifft_2d(&mut grid);
    proof {
        if functional::<S>() {
            let lift = |x: int, y: int| Complex { re: channel.at(x, y), im: integer_of::<S>(0i64) };
            let product = |p: int, q: int|
                ctimes_of(plane_of(false, lift, n as nat)(p, q), kernel.at(p, q));
            assert forall|p: int, q: int| 0 <= p < n && 0 <= q < n implies #[trigger] plane_fn(
                &lift_plane,
            )(p, q) == lift(p, q) by {
                assert(call_ensures(lift_at, (p as usize, q as usize), lift_plane.at(p, q)));
            }
            assert forall|p: int, q: int| 0 <= p < n && 0 <= q < n implies #[trigger] plane_fn(
                &product_plane,
            )(p, q) == product(p, q) by {
                assert(call_ensures(product_at, (p as usize, q as usize), product_plane.at(p, q)));
                assert(sp.at(p, q) == plane_of(false, plane_fn(&lift_plane), n as nat)(p, q));
                lemma_plane_of_same(false, plane_fn(&lift_plane), lift, n as nat, p, q);
            }
            assert forall|i: int, j: int| grid.has(i, j) implies #[trigger] grid.at(i, j)
                == plane_of(true, product, n as nat)(i, j) by {
                lemma_plane_of_same(true, plane_fn(&product_plane), product, n as nat, i, j);
            }
        }
    }
    grid
}

/// Convolves every kernel with its channel.
fn convolve_all<S: Real>(
    channels: &Vec<Plane<S>>,
    kernels_fft: &Vec<Plane<Complex<S>>>,
    c0: &[usize],
    n: usize,
) -> (conv: Vec<Plane<Complex<S>>>)
    requires
        n >= 1,
        is_pow2(n as int),
        are_squares(channels@, n as int),
        are_squares(kernels_fft@, n as int),
        kernels_fft@.len() == c0@.len(),
        forall|k: int| 0 <= k < c0@.len() ==> #[trigger] c0@[k] < channels@.len(),
    ensures
        are_squares(conv@, n as int),
        conv@.len() == c0@.len(),
        functional::<S>() ==> forall|k: int, i: int, j: int|
            0 <= k < c0@.len() && 0 <= i < n && 0 <= j < n ==> #[trigger] real_fn(conv@)(k, i, j)
                == conv_of(planes_fn(channels@), planes_fn(kernels_fft@), c0@, n as nat)(k, i, j),
{
    let mut conv: Vec<Plane<Complex<S>>> = Vec::new();
    let mut k: usize = 0;
    while k < c0.len()
        invariant
            k <= c0@.len(),
            n >= 1,
            is_pow2(n as int),
            are_squares(channels@, n as int),
            are_squares(kernels_fft@, n as int),
            kernels_fft@.len() == c0@.len(),
            forall|k: int| 0 <= k < c0@.len() ==> #[trigger] c0@[k] < channels@.len(),
            conv@.len() == k,
            are_squares(conv@, n as int),
            functional::<S>() ==> forall|l: int, i: int, j: int|
                0 <= l < k && 0 <= i < n && 0 <= j < n ==> #[trigger] real_fn(conv@)(l, i, j)
                    == conv_of(planes_fn(channels@), planes_fn(kernels_fft@), c0@, n as nat)(
                    l,
                    i,
                    j,
                ),
        decreases c0@.len() - k,
    {
        assert(c0@[k as int] < channels@.len());
        let in_ch: usize = c0[k];
        assert(channels@[in_ch as int].wf());
        assert(kernels_fft@[k as int].wf());
        let grid = convolve(&channels[in_ch], &kernels_fft[k]);
        let ghost had = conv@;
        conv.push(grid);
        proof {
            if functional::<S>() {
                let f = planes_fn(channels@);
                let g = planes_fn(kernels_fft@);
                let whole = conv_of(f, g, c0@, n as nat);
                assert forall|l: int, i: int, j: int|
                    0 <= l < k + 1 && 0 <= i < n && 0 <= j < n implies #[trigger] real_fn(conv@)(
                    l,
                    i,
                    j,
                ) == whole(l, i, j) by {
                    if l < k {
                        assert(real_fn(had)(l, i, j) == whole(l, i, j));
                    } else {
                        let channel = channels@[in_ch as int];
                        let kernel = kernels_fft@[k as int];
                        let lift = |x: int, y: int|
                            Complex { re: channel.at(x, y), im: integer_of::<S>(0i64) };
                        let product = |p: int, q: int|
                            ctimes_of(plane_of(false, lift, n as nat)(p, q), kernel.at(p, q));
                        let wanted = filtered(f, g, c0@, n as nat, k as int);
                        assert forall|p: int, q: int| 0 <= p < n && 0 <= q < n implies
                            #[trigger] product(p, q) == wanted(p, q) by {
                            lemma_plane_of_same(
                                false,
                                lift,
                                lifted(f, in_ch as int),
                                n as nat,
                                p,
                                q,
                            );
                        }
                        lemma_plane_of_same(true, product, wanted, n as nat, i, j);
                        assert(grid.at(i, j) == plane_of(true, product, n as nat)(i, j));
                    }
                }
            }
        }
        k = k + 1;
    }
    conv
}

/// A square of zeros.
fn zeros<S: Real>(n: usize) -> (z: Plane<S>)
    ensures
        z.wf(),
        z.rows == n,
        z.cols == n,
{
    let zero_at = |i: usize, j: usize| -> (x: S) { S::integer(0) };
    Plane::from(n, n, zero_at)
}

/// One whole step, in place.
///
/// `channels[c]` is the mass of channel `c`; `kernels_fft[k]` is the spectrum of kernel
/// `k`, which reads channel `c0[k]` and feeds channel `c1[k]`; `mu[k]`, `sigma[k]` and
/// `weight[k]` are its growth.
pub fn step_ml<S: Real>(
    channels: &mut Vec<Plane<S>>,
    kernels_fft: &Vec<Plane<Complex<S>>>,
    c0: &[usize],
    c1: &[usize],
    mu: &[S],
    sigma: &[S],
    weight: &[S],
)
    requires
        old(channels)@.len() > 0,
        is_grid(&old(channels)@[0], old(channels)@[0].rows as int),
        2 * old(channels)@[0].rows + 2 <= usize::MAX,
        are_squares(old(channels)@, old(channels)@[0].rows as int),
        are_squares(kernels_fft@, old(channels)@[0].rows as int),
        kernels_fft@.len() == c0@.len(),
        c1@.len() == c0@.len(),
        mu@.len() == c0@.len(),
        sigma@.len() == c0@.len(),
        weight@.len() == c0@.len(),
        forall|k: int| 0 <= k < c0@.len() ==> #[trigger] c0@[k] < old(channels)@.len(),
    ensures
        final(channels)@.len() == old(channels)@.len(),
        are_squares(final(channels)@, old(channels)@[0].rows as int),
        functional::<S>() ==> forall|c: int, i: int, j: int|
            0 <= c < final(channels)@.len() && 0 <= i < old(channels)@[0].rows && 0 <= j < old(
                channels,
            )@[0].rows ==> #[trigger] final(channels)@[c].at(i, j) == stepped(
                planes_fn(old(channels)@),
                planes_fn(kernels_fft@),
                c0@,
                c1@,
                mu@,
                sigma@,
                weight@,
                old(channels)@[0].rows as nat,
                c,
            )(i, j),
{
    let n: usize = channels[0].rows;
    let ghost s = channels@;
    proof {
        reveal_with_fuel(is_pow2, 2);
    }
    let conv_result = convolve_all(channels, kernels_fft, c0, n);
    let mut affinity = zeros(n);
    let count: usize = channels.len();
    let mut out_ch: usize = 0;
    while out_ch < count
        invariant
            out_ch <= count,
            n >= 1,
            n == s[0].rows,
            2 * n + 2 <= usize::MAX,
            count == s.len(),
            channels@.len() == s.len(),
            are_squares(s, n as int),
            are_squares(channels@, n as int),
            are_squares(conv_result@, n as int),
            conv_result@.len() == c0@.len(),
            c1@.len() == c0@.len(),
            mu@.len() == c0@.len(),
            sigma@.len() == c0@.len(),
            weight@.len() == c0@.len(),
            affinity.wf(),
            affinity.rows == n,
            affinity.cols == n,
            functional::<S>() ==> forall|k: int, i: int, j: int|
                0 <= k < c0@.len() && 0 <= i < n && 0 <= j < n ==> #[trigger] real_fn(
                    conv_result@,
                )(k, i, j) == conv_of(planes_fn(s), planes_fn(kernels_fft@), c0@, n as nat)(
                    k,
                    i,
                    j,
                ),
            forall|c: int| out_ch <= c < count ==> #[trigger] channels@[c] == s[c],
            functional::<S>() ==> forall|c: int, i: int, j: int|
                0 <= c < out_ch && 0 <= i < n && 0 <= j < n ==> #[trigger] channels@[c].at(i, j)
                    == stepped(
                    planes_fn(s),
                    planes_fn(kernels_fft@),
                    c0@,
                    c1@,
                    mu@,
                    sigma@,
                    weight@,
                    n as nat,
                    c,
                )(i, j),
        decreases count - out_ch,
    {
        growth_phase(&conv_result, c1, mu, sigma, weight, out_ch, &mut affinity);
        assert(channels@[out_ch as int].wf());
        let mut next = zeros(n);
        diffusion_phase(&affinity, &channels[out_ch], &mut next);
        let ghost had = channels@;
        proof {
            if functional::<S>() {
                let conv = conv_of(planes_fn(s), planes_fn(kernels_fft@), c0@, n as nat);
                let c = out_ch as int;
                let a = affinity_of(conv, c1@, mu@, sigma@, weight@, c);
                let ch = |i: int, j: int| planes_fn(s)(c, i, j);
                assert forall|i: int, j: int| 0 <= i < n && 0 <= j < n implies #[trigger] plane_fn(
                    &affinity,
                )(i, j) == a(i, j) by {
                    assert(affinity.has(i, j));
                    assert forall|k: int| 0 <= k < c1@.len() implies #[trigger] real_fn(
                        conv_result@,
                    )(k, i, j) == conv(k, i, j) by {}
                    lemma_wsum_same(
                        real_fn(conv_result@),
                        conv,
                        c1@,
                        mu@,
                        sigma@,
                        weight@,
                        c,
                        i,
                        j,
                        c1@.len(),
                    );
                    assert(affinity.at(i, j) == affinity_of(
                        real_fn(conv_result@),
                        c1@,
                        mu@,
                        sigma@,
                        weight@,
                        c,
                    )(i, j));
                }
                assert forall|i: int, j: int| 0 <= i < n && 0 <= j < n implies #[trigger] next.at(
                    i,
                    j,
                ) == diffused(a, ch, n as int)(i, j) by {
                    assert(next.has(i, j));
                    lemma_diffused_same(
                        plane_fn(&affinity),
                        a,
                        plane_fn(&had[c]),
                        ch,
                        n as int,
                        i,
                        j,
                    );
                }
            }
        }
        channels.set(out_ch, next);
        proof {
            if functional::<S>() {
                assert forall|c: int, i: int, j: int|
                    0 <= c < out_ch + 1 && 0 <= i < n && 0 <= j < n implies
                    #[trigger] channels@[c].at(i, j) == stepped(
                    planes_fn(s),
                    planes_fn(kernels_fft@),
                    c0@,
                    c1@,
                    mu@,
                    sigma@,
                    weight@,
                    n as nat,
                    c,
                )(i, j) by {
                    if c < out_ch {
                        assert(channels@[c] == had[c]);
                        assert(had[c].at(i, j) == stepped(
                            planes_fn(s),
                            planes_fn(kernels_fft@),
                            c0@,
                            c1@,
                            mu@,
                            sigma@,
                            weight@,
                            n as nat,
                            c,
                        )(i, j));
                    } else {
                        assert(next.at(i, j) == channels@[c].at(i, j));
                    }
                }
            }
        }
        out_ch = out_ch + 1;
    }
}

/// Diffusion depends on nothing but the cells of the torus.
pub proof fn lemma_diffused_same<S: Real>(
    a: spec_fn(int, int) -> S,
    b: spec_fn(int, int) -> S,
    ch: spec_fn(int, int) -> S,
    dh: spec_fn(int, int) -> S,
    n: int,
    i: int,
    j: int,
)
    requires
        n > 0,
        0 <= i < n,
        0 <= j < n,
        forall|p: int, q: int| 0 <= p < n && 0 <= q < n ==> #[trigger] a(p, q) == b(p, q),
        forall|p: int, q: int| 0 <= p < n && 0 <= q < n ==> #[trigger] ch(p, q) == dh(p, q),
    ensures
        diffused(a, ch, n)(i, j) == diffused(b, dh, n)(i, j),
{
    let s = shares(a, ch, n);
    let t = shares(b, dh, n);
    assert forall|p: int, q: int| 0 <= p < n && 0 <= q < n implies #[trigger] s(p, q) == t(p, q) by {
        lemma_stencil_same(a, b, n, p, q);
        assert(ch(p, q) == dh(p, q));
    }
    lemma_stencil_same(s, t, n, i, j);
    assert(a(i, j) == b(i, j));
}

} // verus!
