//! Sample worlds: kernels, growth and mass to measure and to draw with.

use crate::complex::Complex;
use crate::field::{Field, Plane};
use crate::flow::ker_f_at;
use crate::flow::sigmoid;
use crate::flow::spectrum::{Fft2DPlanner, Transform};
use crate::mace::sums::add_plane;
use crate::scalar::Real;
use vstd::prelude::*;

verus! {

use crate::flow::spectrum::{
    channel_of, lemma_plane_transformed_same, plane_transformed, steady,
};
use crate::flow::{bumps, sigmoid_of};
use crate::mace::fft::plane_fn;
use crate::mace::setup::normalised;
use crate::mace::sums::{lemma_plane_total_same, plane_total};
use crate::scalar::{
    below_of, count_of, decimal_of, exp_of, functional, integer_of, minus_of, neg_of, over_of,
    plus_of, sqrt_of, times_of,
};

/// The radii of the kernels of the flow sample.
pub open spec fn flow_radii_of<S: Real>() -> Seq<S> {
    seq![decimal_of::<S>(5i64, 1u32), decimal_of::<S>(8i64, 1u32), decimal_of::<S>(65i64, 2u32)]
}

/// The radii of the kernels of the flow sample.
pub fn flow_radii<S: Real>() -> (v: Vec<S>)
    ensures
        v@.len() == 3,
        functional::<S>() ==> v@ == flow_radii_of::<S>(),
{
    let mut v: Vec<S> = Vec::new();
    v.push(S::decimal(5, 1));
    v.push(S::decimal(8, 1));
    v.push(S::decimal(65, 2));
    assert(functional::<S>() ==> v@ =~= flow_radii_of::<S>());
    v
}

/// The growth centres of the flow sample.
pub open spec fn flow_m_of<S: Real>() -> Seq<S> {
    seq![decimal_of::<S>(1i64, 1u32), decimal_of::<S>(15i64, 2u32), decimal_of::<S>(12i64, 2u32)]
}

/// The growth centres of the flow sample.
pub fn flow_m<S: Real>() -> (v: Vec<S>)
    ensures
        v@.len() == 3,
        functional::<S>() ==> v@ == flow_m_of::<S>(),
{
    let mut v: Vec<S> = Vec::new();
    v.push(S::decimal(1, 1));
    v.push(S::decimal(15, 2));
    v.push(S::decimal(12, 2));
    assert(functional::<S>() ==> v@ =~= flow_m_of::<S>());
    v
}

/// The growth widths of the flow sample.
pub open spec fn flow_s_of<S: Real>() -> Seq<S> {
    seq![decimal_of::<S>(5i64, 2u32), decimal_of::<S>(8i64, 2u32), decimal_of::<S>(65i64, 3u32)]
}

/// The growth widths of the flow sample.
pub fn flow_s<S: Real>() -> (v: Vec<S>)
    ensures
        v@.len() == 3,
        functional::<S>() ==> v@ == flow_s_of::<S>(),
{
    let mut v: Vec<S> = Vec::new();
    v.push(S::decimal(5, 2));
    v.push(S::decimal(8, 2));
    v.push(S::decimal(65, 3));
    assert(functional::<S>() ==> v@ =~= flow_s_of::<S>());
    v
}

/// The growth weights of the flow sample.
pub open spec fn flow_h_of<S: Real>() -> Seq<S> {
    seq![decimal_of::<S>(5i64, 1u32), decimal_of::<S>(8i64, 1u32), decimal_of::<S>(65i64, 2u32)]
}

/// The growth weights of the flow sample.
pub fn flow_h<S: Real>() -> (v: Vec<S>)
    ensures
        v@.len() == 3,
        functional::<S>() ==> v@ == flow_h_of::<S>(),
{
    let mut v: Vec<S> = Vec::new();
    v.push(S::decimal(5, 1));
    v.push(S::decimal(8, 1));
    v.push(S::decimal(65, 2));
    assert(functional::<S>() ==> v@ =~= flow_h_of::<S>());
    v
}

/// Where the bumps of a kernel of the flow sample sit.
pub open spec fn ring_a_of<S: Real>(k: int) -> Seq<S> {
    if k == 0 {
        seq![decimal_of::<S>(0i64, 1u32), decimal_of::<S>(5i64, 1u32), decimal_of::<S>(0i64, 1u32)]
    } else if k == 1 {
        seq![decimal_of::<S>(0i64, 1u32), decimal_of::<S>(4i64, 1u32), decimal_of::<S>(0i64, 1u32)]
    } else {
        seq![decimal_of::<S>(0i64, 1u32), decimal_of::<S>(45i64, 2u32), decimal_of::<S>(0i64, 1u32)]
    }
}

/// Where the bumps of a kernel of the flow sample sit.
fn ring_a<S: Real>(k: usize) -> (v: Vec<S>)
    ensures
        v@.len() == 3,
        functional::<S>() ==> v@ == ring_a_of::<S>(k as int),
{
    let mut v: Vec<S> = Vec::new();
    if k == 0 {
        v.push(S::decimal(0, 1));
        v.push(S::decimal(5, 1));
        v.push(S::decimal(0, 1));
    } else if k == 1 {
        v.push(S::decimal(0, 1));
        v.push(S::decimal(4, 1));
        v.push(S::decimal(0, 1));
    } else {
        v.push(S::decimal(0, 1));
        v.push(S::decimal(45, 2));
        v.push(S::decimal(0, 1));
    }
    assert(functional::<S>() ==> v@ =~= ring_a_of::<S>(k as int));
    v
}

/// How wide the bumps of a kernel of the flow sample are.
pub open spec fn ring_w_of<S: Real>(k: int) -> Seq<S> {
    if k == 0 {
        seq![decimal_of::<S>(1i64, 1u32), decimal_of::<S>(5i64, 2u32), decimal_of::<S>(1i64, 2u32)]
    } else if k == 1 {
        seq![decimal_of::<S>(8i64, 2u32), decimal_of::<S>(6i64, 2u32), decimal_of::<S>(1i64, 2u32)]
    } else {
        seq![decimal_of::<S>(9i64, 2u32), decimal_of::<S>(55i64, 3u32), decimal_of::<S>(1i64, 2u32)]
    }
}

/// How wide the bumps of a kernel of the flow sample are.
fn ring_w<S: Real>(k: usize) -> (v: Vec<S>)
    ensures
        v@.len() == 3,
        functional::<S>() ==> v@ == ring_w_of::<S>(k as int),
{
    let mut v: Vec<S> = Vec::new();
    if k == 0 {
        v.push(S::decimal(1, 1));
        v.push(S::decimal(5, 2));
        v.push(S::decimal(1, 2));
    } else if k == 1 {
        v.push(S::decimal(8, 2));
        v.push(S::decimal(6, 2));
        v.push(S::decimal(1, 2));
    } else {
        v.push(S::decimal(9, 2));
        v.push(S::decimal(55, 3));
        v.push(S::decimal(1, 2));
    }
    assert(functional::<S>() ==> v@ =~= ring_w_of::<S>(k as int));
    v
}

/// How high the bumps of a kernel of the flow sample are.
pub open spec fn ring_b_of<S: Real>(k: int) -> Seq<S> {
    if k == 0 {
        seq![decimal_of::<S>(5i64, 1u32), decimal_of::<S>(3i64, 1u32), decimal_of::<S>(0i64, 1u32)]
    } else if k == 1 {
        seq![decimal_of::<S>(7i64, 1u32), decimal_of::<S>(2i64, 1u32), decimal_of::<S>(0i64, 1u32)]
    } else {
        seq![decimal_of::<S>(6i64, 1u32), decimal_of::<S>(25i64, 2u32), decimal_of::<S>(0i64, 1u32)]
    }
}

/// How high the bumps of a kernel of the flow sample are.
fn ring_b<S: Real>(k: usize) -> (v: Vec<S>)
    ensures
        v@.len() == 3,
        functional::<S>() ==> v@ == ring_b_of::<S>(k as int),
{
    let mut v: Vec<S> = Vec::new();
    if k == 0 {
        v.push(S::decimal(5, 1));
        v.push(S::decimal(3, 1));
        v.push(S::decimal(0, 1));
    } else if k == 1 {
        v.push(S::decimal(7, 1));
        v.push(S::decimal(2, 1));
        v.push(S::decimal(0, 1));
    } else {
        v.push(S::decimal(6, 1));
        v.push(S::decimal(25, 2));
        v.push(S::decimal(0, 1));
    }
    assert(functional::<S>() ==> v@ =~= ring_b_of::<S>(k as int));
    v
}

/// The distance of a place from the middle of a square of side `n`.
pub open spec fn distance_of<S: Real>(n: int, i: int, j: int) -> S {
    let di = i - n / 2;
    let dj = j - n / 2;
    sqrt_of(integer_of::<S>((di * di + dj * dj) as i64))
}

/// How long the side of a square can be whose cells can be counted.
proof fn lemma_side(n: usize)
    requires
        n * n <= usize::MAX,
    ensures
        n <= 0xffff_ffff,
        2 * n <= usize::MAX,
{
    let side = n as int;
    if side > 0xffff_ffff {
        assert(side * side >= 0x1_0000_0000 * 0x1_0000_0000) by (nonlinear_arith)
            requires
                side >= 0x1_0000_0000,
        ;
    }
    if side >= 2 {
        assert(2 * side <= side * side) by (nonlinear_arith)
            requires
                side >= 2,
        ;
    }
}

/// The square of a distance along one side.
proof fn lemma_offset(d: int)
    requires
        -0x7fff_ffff <= d <= 0x7fff_ffff,
    ensures
        0 <= d * d <= 0x7fff_ffff * 0x7fff_ffff,
{
    assert(0 <= d * d <= 0x7fff_ffff * 0x7fff_ffff) by (nonlinear_arith)
        requires
            -0x7fff_ffff <= d <= 0x7fff_ffff,
    ;
}

/// The distance of a place from the middle of a square.
fn distance<S: Real>(n: usize, i: usize, j: usize) -> (d: S)
    requires
        n * n <= usize::MAX,
        i < n,
        j < n,
    ensures
        functional::<S>() ==> d == distance_of::<S>(n as int, i as int, j as int),
{
    proof {
        lemma_side(n);
    }
    let mid: i64 = (n / 2) as i64;
    let di: i64 = i as i64 - mid;
    let dj: i64 = j as i64 - mid;
    proof {
        lemma_offset(di as int);
        lemma_offset(dj as int);
    }
    S::integer(di * di + dj * dj).sqrt()
}

/// The envelope of a kernel at a scaled distance: full within one, then cut off.
pub open spec fn envelope_of<S: Real>(d: S) -> S {
    sigmoid_of(
        times_of(neg_of(minus_of(d, integer_of::<S>(1i64))), integer_of::<S>(10i64)),
    )
}

/// The envelope of a kernel.
fn envelope<S: Real>(d: S) -> (e: S)
    ensures
        functional::<S>() ==> e == envelope_of(d),
{
    sigmoid(d.minus(S::integer(1)).neg().times(S::integer(10)))
}

/// Kernel `k` of the flow sample.
pub open spec fn flow_ring<S: Real>(n: int) -> spec_fn(int, int, int) -> S {
    |i: int, j: int, k: int|
        {
            let d = over_of(
                distance_of::<S>(n, i, j),
                times_of(
                    plus_of(integer_of::<S>(10i64), integer_of::<S>(15i64)),
                    flow_radii_of::<S>()[k],
                ),
            );
            times_of(
                envelope_of(d),
                bumps(d, ring_a_of::<S>(k), ring_w_of::<S>(k), ring_b_of::<S>(k), 3),
            )
        }
}

/// A number that grows from `base` by a share of `span`.
pub open spec fn graded_of<S: Real>(base: S, span: S, k: usize, n: usize) -> S {
    plus_of(base, times_of(span, over_of(count_of::<S>(k), count_of::<S>(n))))
}

/// A number that grows from `base` by a share of `span`.
fn graded<S: Real>(base: S, span: S, k: usize, n: usize) -> (x: S)
    ensures
        functional::<S>() ==> x == graded_of(base, span, k, n),
{
    base.plus(span.times(S::count(k).over(S::count(n))))
}

/// Kernel `k` of the diffusion sample: a bump at half its radius.
pub open spec fn mace_ring<S: Real>(n: int, kernels: usize) -> spec_fn(int, int, int) -> S {
    |i: int, j: int, k: int|
        {
            let radius = graded_of(
                decimal_of::<S>(5i64, 1u32),
                decimal_of::<S>(3i64, 1u32),
                k as usize,
                kernels,
            );
            let width = graded_of(
                decimal_of::<S>(5i64, 2u32),
                decimal_of::<S>(3i64, 2u32),
                k as usize,
                kernels,
            );
            let d = over_of(
                distance_of::<S>(n, i, j),
                times_of(integer_of::<S>(10i64), radius),
            );
            let diff = minus_of(d, decimal_of::<S>(5i64, 1u32));
            times_of(
                envelope_of(d),
                exp_of(
                    over_of(
                        neg_of(times_of(diff, diff)),
                        times_of(times_of(integer_of::<S>(2i64), width), width),
                    ),
                ),
            )
        }
}

/// Where a place of a cyclic axis comes from when the middle moves to the start.
pub open spec fn unshifted(n: int, i: int) -> int {
    (i + n - n / 2) % n
}

/// A kernel, normalised, with its middle in the corner.
pub open spec fn cornered<S: Real>(
    spatial: spec_fn(int, int, int) -> S,
    n: nat,
    k: int,
) -> spec_fn(int, int) -> Complex<S> {
    |i: int, j: int|
        Complex {
            re: normalised(|p: int, q: int| spatial(p, q, k), n)(
                unshifted(n as int, i),
                unshifted(n as int, j),
            ),
            im: integer_of::<S>(0i64),
        }
}

/// The spectrum of a kernel.
pub open spec fn spectrum_of<S: Real, T: Transform<S>>(
    t: &T,
    spatial: spec_fn(int, int, int) -> S,
    n: nat,
    k: int,
) -> spec_fn(int, int) -> Complex<S> {
    plane_transformed(t, false, cornered(spatial, n, k), n, n)
}

/// Whether spectra of kernels stand row by row in lists.
pub open spec fn are_spectra<S: Real, T: Transform<S>>(
    out: Seq<Vec<Complex<S>>>,
    t: &T,
    spatial: spec_fn(int, int, int) -> S,
    n: int,
) -> bool {
    forall|k: int, p: int|
        0 <= k < out.len() && 0 <= p < n * n ==> #[trigger] out[k]@[p] == spectrum_of(
            t,
            spatial,
            n as nat,
            k,
        )(p / n, p % n)
}

/// One kernel and its sum.
fn kernel_plane<S: Real, F: Copy + Fn(usize, usize, usize) -> S>(
    size: usize,
    k: usize,
    at: F,
    Ghost(spatial): Ghost<spec_fn(int, int, int) -> S>,
) -> (out: (Plane<S>, S))
    requires
        forall|i: usize, j: usize| i < size && j < size ==> call_requires(at, (i, j, k)),
        forall|i: usize, j: usize, r: S|
            functional::<S>() && #[trigger] call_ensures(at, (i, j, k), r) ==> r == spatial(
                i as int,
                j as int,
                k as int,
            ),
    ensures
        out.0.wf(),
        out.0.rows == size,
        out.0.cols == size,
        functional::<S>() ==> forall|i: int, j: int|
            0 <= i < size && 0 <= j < size ==> #[trigger] out.0.at(i, j) == spatial(
                i,
                j,
                k as int,
            ),
        functional::<S>() ==> out.1 == plane_total(
            integer_of::<S>(0i64),
            |p: int, q: int| spatial(p, q, k as int),
            size as nat,
            size as nat,
        ),
{
    let f = |i: usize, j: usize| -> (x: S)
        requires
            call_requires(at, (i, j, k)),
        ensures
            call_ensures(at, (i, j, k), x),
        { at(i, j, k) };
    let plane = Plane::from(size, size, f);
    let total = add_plane(S::integer(0), &plane);
    proof {
        if functional::<S>() {
            let want = |p: int, q: int| spatial(p, q, k as int);
            assert forall|i: int, j: int| 0 <= i < size && 0 <= j < size implies #[trigger] plane.at(
                i,
                j,
            ) == spatial(i, j, k as int) by {
                assert(plane.has(i, j));
                assert(call_ensures(f, (i as usize, j as usize), plane.at(i, j)));
            }
            assert forall|i: int, j: int| 0 <= i < size && 0 <= j < size implies
                #[trigger] plane_fn(&plane)(i, j) == want(i, j) by {
                assert(plane.at(i, j) == spatial(i, j, k as int));
            }
            lemma_plane_total_same(
                integer_of::<S>(0i64),
                plane_fn(&plane),
                want,
                size as nat,
                size as nat,
            );
        }
    }
    (plane, total)
}

/// The spectra of kernels: normalised, moved to the corner, transformed.
fn kernel_spectra<S: Real, T: Transform<S>, F: Copy + Fn(usize, usize, usize) -> S>(
    size: usize,
    num_kernels: usize,
    at: F,
    planner: &Fft2DPlanner<T>,
    Ghost(spatial): Ghost<spec_fn(int, int, int) -> S>,
) -> (out: Vec<Vec<Complex<S>>>)
    requires
        size > 0,
        size * size <= usize::MAX,
        forall|i: usize, j: usize, k: usize|
            i < size && j < size && k < num_kernels ==> call_requires(at, (i, j, k)),
        forall|i: usize, j: usize, k: usize, r: S|
            functional::<S>() && #[trigger] call_ensures(at, (i, j, k), r) ==> r == spatial(
                i as int,
                j as int,
                k as int,
            ),
    ensures
        out@.len() == num_kernels,
        forall|k: int| 0 <= k < num_kernels ==> (#[trigger] out@[k])@.len() == size * size,
        functional::<S>() && steady(&planner.planner) ==> are_spectra(
            out@,
            &planner.planner,
            spatial,
            size as int,
        ),
{
    let mut planes: Vec<Plane<S>> = Vec::new();
    let mut totals: Vec<S> = Vec::new();
    let mut k: usize = 0;
    while k < num_kernels
        invariant
            k <= num_kernels,
            forall|i: usize, j: usize, k: usize|
                i < size && j < size && k < num_kernels ==> call_requires(at, (i, j, k)),
            forall|i: usize, j: usize, k: usize, r: S|
                functional::<S>() && #[trigger] call_ensures(at, (i, j, k), r) ==> r == spatial(
                    i as int,
                    j as int,
                    k as int,
                ),
            planes@.len() == k,
            totals@.len() == k,
            forall|l: int|
                0 <= l < k ==> (#[trigger] planes@[l]).wf() && planes@[l].rows == size
                    && planes@[l].cols == size,
            functional::<S>() ==> forall|l: int, i: int, j: int|
                0 <= l < k && 0 <= i < size && 0 <= j < size ==> #[trigger] planes@[l].at(i, j)
                    == spatial(i, j, l),
            functional::<S>() ==> forall|l: int|
                0 <= l < k ==> #[trigger] totals@[l] == plane_total(
                    integer_of::<S>(0i64),
                    |p: int, q: int| spatial(p, q, l),
                    size as nat,
                    size as nat,
                ),
        decreases num_kernels - k,
    {
        let made = kernel_plane(size, k, at, Ghost(spatial));
        let ghost had = planes@;
        let ghost plane = made.0;
        planes.push(made.0);
        totals.push(made.1);
        proof {
            if functional::<S>() {
                assert forall|l: int, i: int, j: int|
                    0 <= l < k + 1 && 0 <= i < size && 0 <= j < size implies
                    #[trigger] planes@[l].at(i, j) == spatial(i, j, l) by {
                    if l < k {
                        assert(had[l].at(i, j) == spatial(i, j, l));
                    } else {
                        assert(plane.at(i, j) == spatial(i, j, k as int));
                    }
                }
            }
        }
        k = k + 1;
    }
    let ps = &planes;
    let ts = &totals;
    let half: usize = size / 2;
    let entry = |i: usize, j: usize, k: usize| -> (x: Complex<S>)
        requires
            size > 0,
            size * size <= usize::MAX,
            half == size / 2,
            i < size,
            j < size,
            k < num_kernels,
            ps@.len() == num_kernels,
            ts@.len() == num_kernels,
            ps@[k as int].wf(),
            ps@[k as int].rows == size,
            ps@[k as int].cols == size,
        ensures
            functional::<S>() ==> x == (Complex {
                re: if below_of(integer_of::<S>(0i64), ts@[k as int]) {
                    over_of(
                        ps@[k as int].at(
                            unshifted(size as int, i as int),
                            unshifted(size as int, j as int),
                        ),
                        ts@[k as int],
                    )
                } else {
                    ps@[k as int].at(
                        unshifted(size as int, i as int),
                        unshifted(size as int, j as int),
                    )
                },
                im: integer_of::<S>(0i64),
            }),
        {
            proof {
                lemma_side(size);
            }
            let p: usize = (i + size - half) % size;
            let q: usize = (j + size - half) % size;
            let v = ps[k].get(p, q);
            if S::integer(0).below(ts[k]) {
                Complex::from_re(v.over(ts[k]))
            } else {
                Complex::from_re(v)
            }
        };
    let field = Field::from(size, size, num_kernels, entry);
    let spectra = planner.fft2(&field);
    let mut out: Vec<Vec<Complex<S>>> = Vec::new();
    let area: usize = area_of(size);
    k = 0;
    while k < num_kernels
        invariant
            k <= num_kernels,
            size > 0,
            size * size <= usize::MAX,
            area == size * size,
            spectra.of(size as int, size as int, num_kernels as int),
            out@.len() == k,
            forall|l: int| 0 <= l < k ==> (#[trigger] out@[l])@.len() == area,
            forall|l: int, p: int|
                0 <= l < k && 0 <= p < area ==> #[trigger] out@[l]@[p] == spectra.at(
                    p / (size as int),
                    p % (size as int),
                    l,
                ),
        decreases num_kernels - k,
    {
        let flat = flat_channel(&spectra, size, k);
        let ghost had = out@;
        out.push(flat);
        proof {
            assert forall|l: int, p: int| 0 <= l < k + 1 && 0 <= p < area implies
                #[trigger] out@[l]@[p] == spectra.at(p / (size as int), p % (size as int), l) by {
                if l < k {
                    assert(had[l]@[p] == spectra.at(p / (size as int), p % (size as int), l));
                } else {
                    assert(flat@[p] == spectra.at(
                        p / (size as int),
                        p % (size as int),
                        k as int,
                    ));
                }
            }
        }
        k = k + 1;
    }
    proof {
        if functional::<S>() && steady(&planner.planner) {
            let t = &planner.planner;
            let n = size as int;
            assert forall|k: int, p: int| 0 <= k < out@.len() && 0 <= p < n * n implies
                #[trigger] out@[k]@[p] == spectrum_of(t, spatial, n as nat, k)(p / n, p % n) by {
                let i = p / n;
                let j = p % n;
                assert(0 <= i < n && 0 <= j < n) by (nonlinear_arith)
                    requires
                        0 <= p < n * n,
                        n > 0,
                        i == p / n,
                        j == p % n,
                ;
                assert(out@[k]@[p] == spectra.at(i, j, k));
                assert(spectra.has(i, j, k));
                let a = channel_of(&field, k);
                let b = cornered(spatial, n as nat, k);
                assert forall|x: int, y: int| 0 <= x < n && 0 <= y < n implies #[trigger] a(x, y)
                    == b(x, y) by {
                    assert(field.has(x, y, k));
                    assert(call_ensures(
                        entry,
                        (x as usize, y as usize, k as usize),
                        field.at(x, y, k),
                    ));
                    let ux = unshifted(n, x);
                    let uy = unshifted(n, y);
                    vstd::arithmetic::div_mod::lemma_mod_bound(x + n - n / 2, n);
                    vstd::arithmetic::div_mod::lemma_mod_bound(y + n - n / 2, n);
                    assert(ps@[k].at(ux, uy) == spatial(ux, uy, k));
                    assert(ts@[k] == plane_total(
                        integer_of::<S>(0i64),
                        |p: int, q: int| spatial(p, q, k),
                        n as nat,
                        n as nat,
                    ));
                }
                lemma_plane_transformed_same(t, false, a, b, n as nat, n as nat, i, j);
            }
        }
    }
    out
}

/// The cells of a square that is not too large.
fn area_of(size: usize) -> (area: usize)
    requires
        size * size <= usize::MAX,
    ensures
        area == size * size,
{
    size * size
}

/// One channel of a field, row by row.
fn flat_channel<T: Copy>(f: &Field<T>, size: usize, k: usize) -> (flat: Vec<T>)
    requires
        size * size <= usize::MAX,
        f.wf(),
        f.rows == size,
        f.cols == size,
        k < f.depth,
    ensures
        flat@.len() == size * size,
        forall|p: int|
            0 <= p < size * size ==> #[trigger] flat@[p] == f.at(
                p / (size as int),
                p % (size as int),
                k as int,
            ),
{
    let area: usize = area_of(size);
    let mut flat: Vec<T> = Vec::new();
    let mut p: usize = 0;
    while p < area
        invariant
            p <= area,
            area == size * size,
            area > 0 ==> size > 0,
            f.wf(),
            f.rows == size,
            f.cols == size,
            k < f.depth,
            flat@.len() == p,
            forall|q: int|
                0 <= q < p ==> #[trigger] flat@[q] == f.at(
                    q / (size as int),
                    q % (size as int),
                    k as int,
                ),
        decreases area - p,
    {
        proof {
            let n = size as int;
            assert(p as int / n < n) by (nonlinear_arith)
                requires
                    0 <= p < n * n,
                    n > 0,
            ;
        }
        flat.push(f.get(p / size, p % size, k));
        p = p + 1;
    }
    flat
}

/// The spectra of the three kernels of the flow sample, each row by row.
pub fn flow_kernels_fft<S: Real, T: Transform<S>>(size: usize, planner: &Fft2DPlanner<T>) -> (out: Vec<
    Vec<Complex<S>>,
>)
    requires
        size > 0,
        size * size <= usize::MAX,
    ensures
        out@.len() == 3,
        forall|k: int| 0 <= k < 3 ==> (#[trigger] out@[k])@.len() == size * size,
        functional::<S>() && steady(&planner.planner) ==> are_spectra(
            out@,
            &planner.planner,
            flow_ring::<S>(size as int),
            size as int,
        ),
{
    let at = |i: usize, j: usize, k: usize| -> (x: S)
        requires
            size * size <= usize::MAX,
            i < size,
            j < size,
            k < 3,
        ensures
            functional::<S>() ==> x == flow_ring::<S>(size as int)(i as int, j as int, k as int),
        {
            let radii = flow_radii::<S>();
            let d = distance::<S>(size, i, j).over(
                S::integer(10).plus(S::integer(15)).times(radii[k]),
            );
            let a = ring_a::<S>(k);
            let w = ring_w::<S>(k);
            let b = ring_b::<S>(k);
            envelope(d).times(ker_f_at(d, a.as_slice(), w.as_slice(), b.as_slice()))
        };
    kernel_spectra(size, 3, at, planner, Ghost(flow_ring::<S>(size as int)))
}

/// The spectra of the kernels of the diffusion sample, each row by row.
pub fn mace_kernels_fft<S: Real, T: Transform<S>>(
    size: usize,
    num_kernels: usize,
    planner: &Fft2DPlanner<T>,
) -> (out: Vec<Vec<Complex<S>>>)
    requires
        size > 0,
        size * size <= usize::MAX,
    ensures
        out@.len() == num_kernels,
        forall|k: int| 0 <= k < num_kernels ==> (#[trigger] out@[k])@.len() == size * size,
        functional::<S>() && steady(&planner.planner) ==> are_spectra(
            out@,
            &planner.planner,
            mace_ring::<S>(size as int, num_kernels),
            size as int,
        ),
{
    let at = |i: usize, j: usize, k: usize| -> (x: S)
        requires
            size * size <= usize::MAX,
            i < size,
            j < size,
        ensures
            functional::<S>() ==> x == mace_ring::<S>(size as int, num_kernels)(
                i as int,
                j as int,
                k as int,
            ),
        {
            let radius = graded(S::decimal(5, 1), S::decimal(3, 1), k, num_kernels);
            let width = graded(S::decimal(5, 2), S::decimal(3, 2), k, num_kernels);
            let d = distance::<S>(size, i, j).over(S::integer(10).times(radius));
            let diff = d.minus(S::decimal(5, 1));
            let ker = diff.times(diff).neg().over(
                S::integer(2).times(width).times(width),
            ).exp();
            envelope(d).times(ker)
        };
    kernel_spectra(size, num_kernels, at, planner, Ghost(mace_ring::<S>(size as int, num_kernels)))
}

/// A blob in the middle of a rectangle.
pub open spec fn blob_of<S: Real>(rows: usize, cols: usize, variance: S, i: int, j: int) -> S {
    let dx = minus_of(
        count_of::<S>(i as usize),
        over_of(count_of::<S>(rows), integer_of::<S>(2i64)),
    );
    let dy = minus_of(
        count_of::<S>(j as usize),
        over_of(count_of::<S>(cols), integer_of::<S>(2i64)),
    );
    let dist = sqrt_of(plus_of(times_of(dx, dx), times_of(dy, dy)));
    exp_of(over_of(times_of(neg_of(dist), dist), variance))
}

/// One place of a blob.
fn blob<S: Real>(rows: usize, cols: usize, variance: S, i: usize, j: usize) -> (x: S)
    ensures
        functional::<S>() ==> x == blob_of(rows, cols, variance, i as int, j as int),
{
    let dx = S::count(i).minus(S::count(rows).over(S::integer(2)));
    let dy = S::count(j).minus(S::count(cols).over(S::integer(2)));
    let dist = dx.times(dx).plus(dy.times(dy)).sqrt();
    dist.neg().times(dist).over(variance).exp()
}

/// How bright a channel is: from a half up, channel by channel. The half is multiplied
/// before or after the share is taken.
pub open spec fn brightness_of<S: Real>(c: usize, channels: usize, half_first: bool) -> S {
    let half = decimal_of::<S>(5i64, 1u32);
    plus_of(
        half,
        if half_first {
            over_of(times_of(half, count_of::<S>(c)), count_of::<S>(channels))
        } else {
            times_of(half, over_of(count_of::<S>(c), count_of::<S>(channels)))
        },
    )
}

/// How bright a channel is.
fn brightness<S: Real>(c: usize, channels: usize, half_first: bool) -> (x: S)
    ensures
        functional::<S>() ==> x == brightness_of::<S>(c, channels, half_first),
{
    let half = S::decimal(5, 1);
    if half_first {
        half.plus(half.times(S::count(c)).over(S::count(channels)))
    } else {
        half.plus(half.times(S::count(c).over(S::count(channels))))
    }
}

/// The mass of a sample world: a blob in the middle of every channel.
pub fn blob_field<S: Real>(
    rows: usize,
    cols: usize,
    channels: usize,
    variance: S,
    half_first: bool,
) -> (f: Field<S>)
    ensures
        f.of(rows as int, cols as int, channels as int),
        functional::<S>() ==> forall|i: int, j: int, c: int|
            f.has(i, j, c) ==> #[trigger] f.at(i, j, c) == times_of(
                blob_of(rows, cols, variance, i, j),
                brightness_of::<S>(c as usize, channels, half_first),
            ),
{
    let at = |i: usize, j: usize, c: usize| -> (x: S)
        ensures
            functional::<S>() ==> x == times_of(
                blob_of(rows, cols, variance, i as int, j as int),
                brightness_of::<S>(c, channels, half_first),
            ),
        { blob(rows, cols, variance, i, j).times(brightness(c, channels, half_first)) };
    let f = Field::from(rows, cols, channels, at);
    proof {
        assert forall|i: int, j: int, c: int| f.has(i, j, c) implies call_ensures(
            at,
            (i as usize, j as usize, c as usize),
            #[trigger] f.at(i, j, c),
        ) by {}
    }
    f
}

/// The channels of a square sample world, each row by row.
pub fn generate_seed<S: Real>(size: usize, num_channels: usize) -> (channels: Vec<Vec<S>>)
    requires
        size * size <= usize::MAX,
    ensures
        channels@.len() == num_channels,
        forall|c: int| 0 <= c < num_channels ==> (#[trigger] channels@[c])@.len() == size * size,
        functional::<S>() ==> forall|c: int, p: int|
            0 <= c < num_channels && 0 <= p < size * size ==> #[trigger] channels@[c]@[p]
                == times_of(
                blob_of(
                    size,
                    size,
                    over_of(count_of::<S>((size * size) as usize), integer_of::<S>(64i64)),
                    p / (size as int),
                    p % (size as int),
                ),
                brightness_of::<S>(c as usize, num_channels, true),
            ),
{
    let area: usize = area_of(size);
    let variance = S::count(area).over(S::integer(64));
    let field = blob_field(size, size, num_channels, variance, true);
    let mut channels: Vec<Vec<S>> = Vec::new();
    let mut c: usize = 0;
    while c < num_channels
        invariant
            c <= num_channels,
            size * size <= usize::MAX,
            area == size * size,
            field.of(size as int, size as int, num_channels as int),
            channels@.len() == c,
            forall|d: int| 0 <= d < c ==> (#[trigger] channels@[d])@.len() == area,
            forall|d: int, p: int|
                0 <= d < c && 0 <= p < area ==> #[trigger] channels@[d]@[p] == field.at(
                    p / (size as int),
                    p % (size as int),
                    d,
                ),
        decreases num_channels - c,
    {
        let flat = flat_channel(&field, size, c);
        let ghost had = channels@;
        channels.push(flat);
        proof {
            assert forall|d: int, p: int| 0 <= d < c + 1 && 0 <= p < area implies
                #[trigger] channels@[d]@[p] == field.at(
                p / (size as int),
                p % (size as int),
                d,
            ) by {
                if d < c {
                    assert(had[d]@[p] == field.at(p / (size as int), p % (size as int), d));
                } else {
                    assert(flat@[p] == field.at(p / (size as int), p % (size as int), c as int));
                }
            }
        }
        c = c + 1;
    }
    proof {
        if functional::<S>() {
            assert forall|c: int, p: int| 0 <= c < num_channels && 0 <= p < size * size implies
                #[trigger] channels@[c]@[p] == times_of(
                blob_of(size, size, variance, p / (size as int), p % (size as int)),
                brightness_of::<S>(c as usize, num_channels, true),
            ) by {
                let n = size as int;
                let i = p / n;
                let j = p % n;
                assert(n > 0) by {
                    if n == 0 {
                        assert(size * size == 0) by (nonlinear_arith)
                            requires
                                size == 0,
                        ;
                    }
                }
                assert(0 <= i < n && 0 <= j < n) by (nonlinear_arith)
                    requires
                        0 <= p < n * n,
                        n > 0,
                        i == p / n,
                        j == p % n,
                ;
                assert(field.has(i, j, c));
                assert(channels@[c]@[p] == field.at(i, j, c));
            }
        }
    }
    channels
}

/// The growth of the diffusion sample: centres, widths and weights of its kernels.
pub struct SampleGrowth<S> {
    pub mu: Vec<S>,
    pub sigma: Vec<S>,
    pub weights: Vec<S>,
}

/// The place of kernel `k` among kernels counted channel by channel.
pub open spec fn permuted(k: int, channels: int) -> int {
    (k % channels) * channels + k / channels
}

/// The channel that each kernel of the diffusion sample feeds: as many kernels in a row feed
/// one channel as there are channels.
pub fn mace_outputs(num_kernels: u32, num_channels: u32) -> (c1: Vec<u32>)
    requires
        num_channels > 0,
    ensures
        c1@.len() == num_kernels,
        forall|k: int|
            0 <= k < num_kernels ==> #[trigger] c1@[k] == (k / (num_channels as int)) % (
            num_channels as int),
{
    let mut c1: Vec<u32> = Vec::new();
    let mut k: u32 = 0;
    while k < num_kernels
        invariant
            k <= num_kernels,
            num_channels > 0,
            c1@.len() == k,
            forall|l: int|
                0 <= l < k ==> #[trigger] c1@[l] == (l / (num_channels as int)) % (
                num_channels as int),
        decreases num_kernels - k,
    {
        c1.push((k / num_channels) % num_channels);
        k = k + 1;
    }
    c1
}

/// The growth of the diffusion sample, graded by kernel or by the kernel's place.
pub fn mace_growth<S: Real>(num_kernels: usize, num_channels: usize, permute: bool) -> (g: SampleGrowth<
    S,
>)
    requires
        num_channels > 0,
        num_channels * num_channels + num_kernels <= usize::MAX,
    ensures
        g.mu@.len() == num_kernels,
        g.sigma@.len() == num_kernels,
        g.weights@.len() == num_kernels,
        functional::<S>() ==> forall|k: int|
            0 <= k < num_kernels ==> #[trigger] g.mu@[k] == graded_of(
                decimal_of::<S>(1i64, 1u32),
                decimal_of::<S>(5i64, 2u32),
                (if permute {
                    permuted(k, num_channels as int)
                } else {
                    k
                }) as usize,
                num_kernels,
            ),
        functional::<S>() ==> forall|k: int|
            0 <= k < num_kernels ==> #[trigger] g.sigma@[k] == graded_of(
                decimal_of::<S>(5i64, 2u32),
                decimal_of::<S>(3i64, 2u32),
                (if permute {
                    permuted(k, num_channels as int)
                } else {
                    k
                }) as usize,
                num_kernels,
            ),
        functional::<S>() ==> forall|k: int|
            0 <= k < num_kernels ==> #[trigger] g.weights@[k] == over_of(
                integer_of::<S>(1i64),
                count_of::<S>(num_channels),
            ),
{
    let mut mu: Vec<S> = Vec::new();
    let mut sigma: Vec<S> = Vec::new();
    let mut weights: Vec<S> = Vec::new();
    let mut k: usize = 0;
    while k < num_kernels
        invariant
            k <= num_kernels,
            num_channels > 0,
            num_channels * num_channels + num_kernels <= usize::MAX,
            mu@.len() == k,
            sigma@.len() == k,
            weights@.len() == k,
            functional::<S>() ==> forall|l: int|
                0 <= l < k ==> #[trigger] mu@[l] == graded_of(
                    decimal_of::<S>(1i64, 1u32),
                    decimal_of::<S>(5i64, 2u32),
                    (if permute {
                        permuted(l, num_channels as int)
                    } else {
                        l
                    }) as usize,
                    num_kernels,
                ),
            functional::<S>() ==> forall|l: int|
                0 <= l < k ==> #[trigger] sigma@[l] == graded_of(
                    decimal_of::<S>(5i64, 2u32),
                    decimal_of::<S>(3i64, 2u32),
                    (if permute {
                        permuted(l, num_channels as int)
                    } else {
                        l
                    }) as usize,
                    num_kernels,
                ),
            functional::<S>() ==> forall|l: int|
                0 <= l < k ==> #[trigger] weights@[l] == over_of(
                    integer_of::<S>(1i64),
                    count_of::<S>(num_channels),
                ),
        decreases num_kernels - k,
    {
        let place: usize = if permute {
            permute_kernel(k, num_channels)
        } else {
            k
        };
        mu.push(graded(S::decimal(1, 1), S::decimal(5, 2), place, num_kernels));
        sigma.push(graded(S::decimal(5, 2), S::decimal(3, 2), place, num_kernels));
        weights.push(S::integer(1).over(S::count(num_channels)));
        k = k + 1;
    }
    SampleGrowth { mu, sigma, weights }
}

/// The place of kernel `k` among kernels counted channel by channel.
pub fn permute_kernel(k: usize, num_channels: usize) -> (p: usize)
    requires
        num_channels > 0,
        num_channels * num_channels + k <= usize::MAX,
    ensures
        p == permuted(k as int, num_channels as int),
{
    proof {
        let c = num_channels as int;
        let r = k as int % c;
        assert(0 <= r * c <= c * c) by (nonlinear_arith)
            requires
                0 <= r < c,
        ;
        assert(k as int / c <= k) by (nonlinear_arith)
            requires
                c > 0,
                k >= 0,
        ;
    }
    (k % num_channels) * num_channels + k / num_channels
}

/// Counting kernels channel by channel twice counts them as before.
pub proof fn law_permuting_twice_is_nothing(k: int, channels: int)
    requires
        channels > 0,
        0 <= k < channels * channels,
    ensures
        0 <= permuted(k, channels) < channels * channels,
        permuted(permuted(k, channels), channels) == k,
{
    let r = k % channels;
    let q = k / channels;
    vstd::arithmetic::div_mod::lemma_fundamental_div_mod(k, channels);
    vstd::arithmetic::div_mod::lemma_mod_bound(k, channels);
    assert(0 <= q < channels) by (nonlinear_arith)
        requires
            0 <= k < channels * channels,
            channels > 0,
            q == k / channels,
    ;
    let p = r * channels + q;
    assert(0 <= p < channels * channels) by (nonlinear_arith)
        requires
            0 <= r < channels,
            0 <= q < channels,
            p == r * channels + q,
    ;
    vstd::arithmetic::div_mod::lemma_fundamental_div_mod_converse(p, channels, r, q);
    assert(q * channels + r == k) by (nonlinear_arith)
        requires
            k == channels * q + r,
    ;
}

/// Counting kernels channel by channel exchanges the two channels of a kernel: kernel `b` of row
/// `a` becomes kernel `a` of row `b`; the kernels of one row feed one channel.
pub proof fn law_kernels_are_counted_channel_by_channel(
    channels: u32,
    a: int,
    b: int,
    k: usize,
    place: usize,
    num_kernels: u32,
    c1: Vec<u32>,
)
    requires
        channels > 0,
        0 <= a < channels,
        0 <= b < channels,
        k == a * channels + b,
        channels * channels + k <= usize::MAX,
        call_ensures(permute_kernel, (k, channels as usize), place),
        call_ensures(mace_outputs, (num_kernels, channels), c1),
        k < num_kernels,
    ensures
        place == b * channels + a,
        c1@[k as int] == a,
{
    let c = channels as int;
    vstd::arithmetic::div_mod::lemma_fundamental_div_mod_converse(k as int, c, a, b);
    vstd::arithmetic::div_mod::lemma_small_mod(a as nat, c as nat);
}

} // verus!
