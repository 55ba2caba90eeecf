//! Kernels: their parameters, their shape in space and their spectra.

use crate::complex::Complex;
use crate::field::{flatten, list_from, sum, Field, Plane};
use crate::flow::shift::fftshift_3d;
use crate::flow::spectrum::{Fft2DPlanner, Transform};
use crate::flow::{ker_f, sigmoid};
use crate::scalar::Real;
use vstd::prelude::*;

verus! {

use crate::field::{lemma_raster, raster, unrolled_sum};
use crate::flow::shift::source;
use crate::flow::spectrum::{
    channel_of, lemma_plane_transformed_same, plane_transformed, steady,
};
use crate::flow::{bumps, sigmoid_of};
use crate::scalar::{
    below_of, decimal_of, functional, integer_of, minus_of, neg_of, over_of, plus_of, sqrt_of, times_of,
};

/// The parameters of the kernels and of their growth.
#[allow(non_snake_case)]
pub struct Params<S> {
    /// The radius of each kernel, relative to the common radius.
    pub r: Vec<S>,
    /// The heights of each kernel's rings.
    pub b: Plane<S>,
    /// The widths of each kernel's rings.
    pub w: Plane<S>,
    /// The places of each kernel's rings.
    pub a: Plane<S>,
    /// The mean of each kernel's growth.
    pub m: Vec<S>,
    /// The width of each kernel's growth.
    pub s: Vec<S>,
    /// The height of each kernel's growth.
    pub h: Vec<S>,
    /// The common radius.
    pub R: S,
}

/// Parameters ready for simulation: the spectra of the kernels, and their growth.
#[allow(non_snake_case)]
pub struct CompiledParams<S> {
    pub fK: Field<Complex<S>>,
    pub m: Vec<S>,
    pub s: Vec<S>,
    pub h: Vec<S>,
}

impl<S> Params<S> {
    /// Whether there are parameters for `nb_k` kernels, with as many rings in each list.
    pub open spec fn wf(&self, nb_k: int) -> bool {
        &&& self.r@.len() >= nb_k
        &&& self.a.wf()
        &&& self.w.wf()
        &&& self.b.wf()
        &&& self.a.rows >= nb_k
        &&& self.w.rows >= nb_k
        &&& self.b.rows >= nb_k
        &&& self.w.cols >= self.a.cols
        &&& self.b.cols >= self.a.cols
    }
}

/// The square of the distance from the middle of a grid whose width is `sx`.
pub open spec fn distance2(sx: int, i: int, j: int) -> int {
    (i - sx / 2) * (i - sx / 2) + (j - sx / 2) * (j - sx / 2)
}

/// Whether no squared distance on the grid exceeds the range of 32-bit integers.
pub open spec fn distances_fit(sx: int, sy: int) -> bool {
    &&& sx <= i32::MAX
    &&& sy <= i32::MAX
    &&& forall|i: int, j: int|
        0 <= i < sy && 0 <= j < sx ==> #[trigger] distance2(sx, i, j) <= i32::MAX
}

/// The distance from the middle, in units of kernel `k`'s radius.
pub open spec fn distance_of<S: Real>(p: &Params<S>, sx: int, i: int, j: int, k: int) -> S {
    over_of(
        sqrt_of(integer_of::<S>(distance2(sx, i, j) as i64)),
        times_of(plus_of(p.R, integer_of::<S>(15i64)), p.r@[k]),
    )
}

/// The height of kernel `k` before scaling: its rings, cut off smoothly at its radius.
pub open spec fn kernel_raw<S: Real>(p: &Params<S>, sx: int, i: int, j: int, k: int) -> S {
    let d = distance_of(p, sx, i, j, k);
    times_of(
        sigmoid_of(
            times_of(neg_of(minus_of(d, integer_of::<S>(1i64))), integer_of::<S>(10i64)),
        ),
        bumps(d, p.a.cells@[k]@, p.w.cells@[k]@, p.b.cells@[k]@, p.a.cols as nat),
    )
}

/// The sum of a kernel before scaling.
pub open spec fn kernel_total<S: Real>(p: &Params<S>, sx: nat, sy: nat, k: int) -> S {
    unrolled_sum(raster(sy, sx, |i: int, j: int| kernel_raw(p, sx as int, i, j, k)))
}

/// A kernel scaled to a sum of one where its sum is positive.
pub open spec fn kernel_at<S: Real>(p: &Params<S>, sx: nat, sy: nat, i: int, j: int, k: int) -> S {
    let raw = kernel_raw(p, sx as int, i, j, k);
    let total = kernel_total(p, sx, sy, k);
    if below_of(integer_of::<S>(0i64), total) {
        over_of(raw, total)
    } else {
        raw
    }
}

/// The distances from the middle, in units of kernel `k`'s radius.
fn distances<S: Real>(p: &Params<S>, sx: usize, sy: usize, k: usize) -> (dist: Plane<S>)
    requires
        k < p.r@.len(),
        distances_fit(sx as int, sy as int),
    ensures
        dist.wf(),
        dist.rows == sy,
        dist.cols == sx,
        functional::<S>() ==> forall|i: int, j: int|
            dist.has(i, j) ==> #[trigger] dist.at(i, j) == distance_of(
                p,
                sx as int,
                i,
                j,
                k as int,
            ),
{
    let f = |i: usize, j: usize| -> (d: S)
        requires
            i < sy,
            j < sx,
        ensures
            functional::<S>() ==> d == distance_of(p, sx as int, i as int, j as int, k as int),
        {
            let mid: i64 = (sx / 2) as i64;
            let di: i64 = i as i64 - mid;
            let dj: i64 = j as i64 - mid;
            proof {
                assert(distance2(sx as int, i as int, j as int) <= i32::MAX);
                assert(0 <= di * di && 0 <= dj * dj) by (nonlinear_arith);
            }
            let square: i64 = di * di + dj * dj;
            S::integer(square).sqrt().over(p.R.plus(S::integer(15)).times(p.r[k]))
        };
    Plane::from(sy, sx, f)
}

/// One kernel, scaled.
fn kernel_plane<S: Real>(p: &Params<S>, sx: usize, sy: usize, nb_k: usize, k: usize) -> (out: Plane<S>)
    requires
        p.wf(nb_k as int),
        k < nb_k,
        distances_fit(sx as int, sy as int),
    ensures
        out.wf(),
        out.rows == sy,
        out.cols == sx,
        functional::<S>() ==> forall|i: int, j: int|
            out.has(i, j) ==> #[trigger] out.at(i, j) == kernel_at(
                p,
                sx as nat,
                sy as nat,
                i,
                j,
                k as int,
            ),
{
    let dist = distances(p, sx, sy, k);
    let kf = ker_f(
        &dist,
        p.a.cells[k].as_slice(),
        p.w.cells[k].as_slice(),
        p.b.cells[k].as_slice(),
    );
    let d = &dist;
    let b = &kf;
    let raw_at = |i: usize, j: usize| -> (x: S)
        requires
            i < sy,
            j < sx,
        ensures
            functional::<S>() ==> x == kernel_raw(p, sx as int, i as int, j as int, k as int),
        {
            let sig = sigmoid(
                d.get(i, j).minus(S::integer(1)).neg().times(S::integer(10)),
            );
            sig.times(b.get(i, j))
        };
    let raw = Plane::from(sy, sx, raw_at);
    let total = sum(flatten(&raw.cells).as_slice());
    proof {
        if functional::<S>() {
            let f = |i: int, j: int| kernel_raw(p, sx as int, i, j, k as int);
            assert forall|i: int, j: int| 0 <= i < sy && 0 <= j < sx implies
                #[trigger] raw.cells@[i]@[j] == f(i, j) by {
                assert(raw.has(i, j));
                assert(raw.at(i, j) == raw.cells@[i]@[j]);
            }
            lemma_raster(raw.cells@, sy as nat, sx as nat, f);
        }
    }
    if S::integer(0).below(total) {
        let r = &raw;
        let scaled_at = |i: usize, j: usize| -> (x: S)
            requires
                i < sy,
                j < sx,
            ensures
                functional::<S>() ==> x == over_of(r.at(i as int, j as int), total),
            { r.get(i, j).over(total) };
        Plane::from(sy, sx, scaled_at)
    } else {
        raw
    }
}

/// All kernels in space.
pub fn get_kernels<S: Real>(sx: usize, sy: usize, nb_k: usize, params: &Params<S>) -> (out: Field<S>)
    requires
        params.wf(nb_k as int),
        distances_fit(sx as int, sy as int),
    ensures
        out.of(sy as int, sx as int, nb_k as int),
        functional::<S>() ==> forall|i: int, j: int, k: int|
            out.has(i, j, k) ==> #[trigger] out.at(i, j, k) == kernel_at(
                params,
                sx as nat,
                sy as nat,
                i,
                j,
                k,
            ),
{
    let plane_of = |k: usize| -> (p: Plane<S>)
        requires
            k < nb_k,
        ensures
            p.wf(),
            p.rows == sy,
            p.cols == sx,
            functional::<S>() ==> forall|i: int, j: int|
                p.has(i, j) ==> #[trigger] p.at(i, j) == kernel_at(
                    params,
                    sx as nat,
                    sy as nat,
                    i,
                    j,
                    k as int,
                ),
        { kernel_plane(params, sx, sy, nb_k, k) };
    let planes = list_from(nb_k, plane_of);
    let ps = &planes;
    let f = |i: usize, j: usize, k: usize| -> (x: S)
        requires
            i < sy,
            j < sx,
            k < nb_k,
        ensures
            functional::<S>() ==> x == kernel_at(
                params,
                sx as nat,
                sy as nat,
                i as int,
                j as int,
                k as int,
            ),
        {
            assert(call_ensures(plane_of, (k,), ps@[k as int]));
            ps[k].get(i, j)
        };
    Field::from(sy, sx, nb_k, f)
}

/// A kernel as a complex plane with its middle at the origin.
pub open spec fn kernel_shifted<S: Real>(
    p: &Params<S>,
    sx: nat,
    sy: nat,
    k: int,
) -> spec_fn(int, int) -> Complex<S> {
    |i: int, j: int|
        Complex {
            re: kernel_at(
                p,
                sx,
                sy,
                source(sy as int, (sy / 2) as int, i),
                source(sx as int, (sx / 2) as int, j),
                k,
            ),
            im: integer_of::<S>(0i64),
        }
}

/// A copy of a list of numbers.
fn copy_numbers<S: Copy>(list: &Vec<S>) -> (copy: Vec<S>)
    ensures
        copy@ == list@,
{
    let f = |i: usize| -> (x: S)
        requires
            i < list@.len(),
        ensures
            x == list@[i as int],
        { list[i] };
    let copy = list_from(list.len(), f);
    assert(copy@ =~= list@);
    copy
}

/// What turns parameters into spectra, for a grid and a number of kernels.
pub struct KernelComputer {
    pub sx: usize,
    pub sy: usize,
    pub nb_k: usize,
}

/// Prepares to turn parameters into spectra.
pub fn build_kernel_computer(sx: usize, sy: usize, nb_k: usize) -> (c: KernelComputer)
    ensures
        c.sx == sx,
        c.sy == sy,
        c.nb_k == nb_k,
{
    KernelComputer { sx, sy, nb_k }
}

impl KernelComputer {
    /// The spectra of all kernels.
    pub fn compute<S: Real, T: Transform<S>>(
        &self,
        params: &Params<S>,
        planner: &Fft2DPlanner<T>,
    ) -> (c: CompiledParams<S>)
        requires
            params.wf(self.nb_k as int),
            distances_fit(self.sx as int, self.sy as int),
        ensures
            c.fK.of(self.sy as int, self.sx as int, self.nb_k as int),
            functional::<S>() && steady(&planner.planner) ==> forall|i: int, j: int, k: int|
                c.fK.has(i, j, k) ==> #[trigger] c.fK.at(i, j, k) == plane_transformed(
                    &planner.planner,
                    false,
                    kernel_shifted(params, self.sx as nat, self.sy as nat, k),
                    self.sy as nat,
                    self.sx as nat,
                )(i, j),
            c.m@ == params.m@,
            c.s@ == params.s@,
            c.h@ == params.h@,
    {
        let kernels = get_kernels(self.sx, self.sy, self.nb_k, params);
        let ks = &kernels;
        let f = |i: usize, j: usize, k: usize| -> (x: Complex<S>)
            requires
                ks.has(i as int, j as int, k as int),
            ensures
                functional::<S>() ==> x == (Complex {
                    re: ks.at(i as int, j as int, k as int),
                    im: integer_of::<S>(0i64),
                }),
            { Complex::from_re(ks.get(i, j, k)) };
        let complex = Field::from(self.sy, self.sx, self.nb_k, f);
        let shifted = fftshift_3d(&complex);
        let spectra = planner.fft2(&shifted);
        proof {
            if functional::<S>() && steady(&planner.planner) {
                let sx = self.sx as int;
                let sy = self.sy as int;
                assert forall|i: int, j: int, k: int| spectra.has(i, j, k) implies
                    #[trigger] spectra.at(i, j, k) == plane_transformed(
                    &planner.planner,
                    false,
                    kernel_shifted(params, self.sx as nat, self.sy as nat, k),
                    self.sy as nat,
                    self.sx as nat,
                )(i, j) by {
                    let a = channel_of(&shifted, k);
                    let b = kernel_shifted(params, self.sx as nat, self.sy as nat, k);
                    assert forall|p: int, q: int| 0 <= p < sy && 0 <= q < sx implies #[trigger] a(
                        p,
                        q,
                    ) == b(p, q) by {
                        let sp = source(sy, sy / 2, p);
                        let sq = source(sx, sx / 2, q);
                        vstd::arithmetic::div_mod::lemma_mod_bound(p - sy / 2, sy);
                        vstd::arithmetic::div_mod::lemma_mod_bound(q - sx / 2, sx);
                        assert(shifted.has(p, q, k));
                        assert(shifted.at(p, q, k) == complex.at(sp, sq, k));
                        assert(complex.has(sp, sq, k));
                        assert(kernels.has(sp, sq, k));
                        assert(call_ensures(
                            f,
                            (sp as usize, sq as usize, k as usize),
                            complex.at(sp, sq, k),
                        ));
                    }
                    lemma_plane_transformed_same(
                        &planner.planner,
                        false,
                        a,
                        b,
                        self.sy as nat,
                        self.sx as nat,
                        i,
                        j,
                    );
                }
            }
        }
        CompiledParams {
            fK: spectra,
            m: copy_numbers(&params.m),
            s: copy_numbers(&params.s),
            h: copy_numbers(&params.h),
        }
    }
}

/// The range of each draw, in the order in which parameters are drawn: radii, growth
/// means, growth widths, growth heights, ring places, ring widths, ring heights, common
/// radius.
pub open spec fn sample_range_of<S: Real>(nb_k: int, i: int) -> (S, S) {
    if i < nb_k {
        (decimal_of::<S>(2i64, 1u32), integer_of::<S>(1i64))
    } else if i < 2 * nb_k {
        (decimal_of::<S>(5i64, 2u32), decimal_of::<S>(5i64, 1u32))
    } else if i < 3 * nb_k {
        (decimal_of::<S>(1i64, 3u32), decimal_of::<S>(18i64, 2u32))
    } else if i < 4 * nb_k {
        (decimal_of::<S>(1i64, 2u32), integer_of::<S>(1i64))
    } else if i < 7 * nb_k {
        (integer_of::<S>(0i64), integer_of::<S>(1i64))
    } else if i < 10 * nb_k {
        (decimal_of::<S>(1i64, 2u32), decimal_of::<S>(5i64, 1u32))
    } else if i < 13 * nb_k {
        (decimal_of::<S>(1i64, 3u32), integer_of::<S>(1i64))
    } else {
        (integer_of::<S>(2i64), integer_of::<S>(25i64))
    }
}

/// The half-open ranges from which the host draws the parameters of `nb_k` kernels, in
/// order.
pub fn sample_ranges<S: Real>(nb_k: usize) -> (ranges: Vec<(S, S)>)
    requires
        13 * nb_k + 1 <= usize::MAX,
    ensures
        ranges@.len() == 13 * nb_k + 1,
        functional::<S>() ==> forall|i: int|
            0 <= i < ranges@.len() ==> #[trigger] ranges@[i] == sample_range_of::<S>(
                nb_k as int,
                i,
            ),
{
    let f = |i: usize| -> (r: (S, S))
        requires
            i < 13 * nb_k + 1,
            13 * nb_k + 1 <= usize::MAX,
        ensures
            functional::<S>() ==> r == sample_range_of::<S>(nb_k as int, i as int),
        {
            if i < nb_k {
                (S::decimal(2, 1), S::integer(1))
            } else if i < 2 * nb_k {
                (S::decimal(5, 2), S::decimal(5, 1))
            } else if i < 3 * nb_k {
                (S::decimal(1, 3), S::decimal(18, 2))
            } else if i < 4 * nb_k {
                (S::decimal(1, 2), S::integer(1))
            } else if i < 7 * nb_k {
                (S::integer(0), S::integer(1))
            } else if i < 10 * nb_k {
                (S::decimal(1, 2), S::decimal(5, 1))
            } else if i < 13 * nb_k {
                (S::decimal(1, 3), S::integer(1))
            } else {
                (S::integer(2), S::integer(25))
            }
        };
    list_from(13 * nb_k + 1, f)
}

/// `n` of the draws from `from` on.
fn drawn<S: Copy>(draws: &[S], from: usize, n: usize) -> (list: Vec<S>)
    requires
        from + n <= draws@.len(),
    ensures
        list@ == draws@.subrange(from as int, from + n),
{
    let len: usize = draws.len();
    let f = |i: usize| -> (x: S)
        requires
            i < n,
            from + n <= len,
            len == draws@.len(),
        ensures
            x == draws@[from + i],
        { draws[from + i] };
    let list = list_from(n, f);
    assert(list@ =~= draws@.subrange(from as int, from + n));
    list
}

/// A plane of three columns of the draws from `from` on, row by row.
fn drawn_plane<S: Copy>(draws: &[S], from: usize, rows: usize) -> (p: Plane<S>)
    requires
        from + 3 * rows <= draws@.len(),
    ensures
        p.wf(),
        p.rows == rows,
        p.cols == 3,
        forall|i: int, j: int| p.has(i, j) ==> #[trigger] p.at(i, j) == draws@[from + 3 * i + j],
{
    let len: usize = draws.len();
    let f = |i: usize, j: usize| -> (x: S)
        requires
            i < rows,
            j < 3,
            from + 3 * rows <= len,
            len == draws@.len(),
        ensures
            x == draws@[from + 3 * i + j],
        { draws[from + 3 * i + j] };
    Plane::from(rows, 3, f)
}

/// The parameters of `nb_k` kernels from what the host drew.
pub fn sample_params<S: Real>(draws: &[S], nb_k: usize) -> (p: Params<S>)
    requires
        draws@.len() == 13 * nb_k + 1,
    ensures
        p.wf(nb_k as int),
        p.r@ == draws@.subrange(0, nb_k as int),
        p.m@ == draws@.subrange(nb_k as int, 2 * nb_k),
        p.s@ == draws@.subrange(2 * nb_k as int, 3 * nb_k),
        p.h@ == draws@.subrange(3 * nb_k as int, 4 * nb_k),
        p.a.rows == nb_k,
        p.a.cols == 3,
        forall|i: int, j: int|
            p.a.has(i, j) ==> #[trigger] p.a.at(i, j) == draws@[4 * nb_k + 3 * i + j],
        p.w.rows == nb_k,
        p.w.cols == 3,
        forall|i: int, j: int|
            p.w.has(i, j) ==> #[trigger] p.w.at(i, j) == draws@[7 * nb_k + 3 * i + j],
        p.b.rows == nb_k,
        p.b.cols == 3,
        forall|i: int, j: int|
            p.b.has(i, j) ==> #[trigger] p.b.at(i, j) == draws@[10 * nb_k + 3 * i + j],
        p.R == draws@[13 * nb_k as int],
{
    let len: usize = draws.len();
    Params {
        r: drawn(draws, 0, nb_k),
        b: drawn_plane(draws, 10 * nb_k, nb_k),
        w: drawn_plane(draws, 7 * nb_k, nb_k),
        a: drawn_plane(draws, 4 * nb_k, nb_k),
        m: drawn(draws, nb_k, nb_k),
        s: drawn(draws, 2 * nb_k, nb_k),
        h: drawn(draws, 3 * nb_k, nb_k),
        R: draws[len - 1],
    }
}

/// The spectra that are computed are those of the kernels in space, each moved by half the
/// extent of the world so that its middle is at the origin.
pub proof fn law_spectra_are_those_of_the_kernels<S: Real, T: Transform<S>>(
    computer: &KernelComputer,
    params: &Params<S>,
    planner: &Fft2DPlanner<T>,
    kernels: Field<S>,
    compiled: CompiledParams<S>,
    i: int,
    j: int,
    k: int,
)
    requires
        functional::<S>(),
        steady(&planner.planner),
        call_ensures(get_kernels::<S>, (computer.sx, computer.sy, computer.nb_k, params), kernels),
        call_ensures(KernelComputer::compute::<S, T>, (computer, params, planner), compiled),
        compiled.fK.has(i, j, k),
    ensures
        compiled.fK.at(i, j, k) == plane_transformed(
            &planner.planner,
            false,
            centred_kernel(&kernels, k),
            computer.sy as nat,
            computer.sx as nat,
        )(i, j),
{
    let sx = computer.sx as int;
    let sy = computer.sy as int;
    let a = kernel_shifted(params, sx as nat, sy as nat, k);
    let b = centred_kernel(&kernels, k);
    assert forall|p: int, q: int| 0 <= p < sy && 0 <= q < sx implies #[trigger] a(p, q) == b(
        p,
        q,
    ) by {
        vstd::arithmetic::div_mod::lemma_mod_bound(p - sy / 2, sy);
        vstd::arithmetic::div_mod::lemma_mod_bound(q - sx / 2, sx);
        assert(kernels.has(source(sy, sy / 2, p), source(sx, sx / 2, q), k));
    }
    lemma_plane_transformed_same(
        &planner.planner,
        false,
        a,
        b,
        sy as nat,
        sx as nat,
        i,
        j,
    );
}

/// A channel of a field as a complex plane, moved by half its extent.
pub open spec fn centred_kernel<S: Real>(kernels: &Field<S>, k: int) -> spec_fn(
    int,
    int,
) -> Complex<S> {
    |i: int, j: int|
        Complex {
            re: kernels.at(
                source(kernels.rows as int, kernels.rows as int / 2, i),
                source(kernels.cols as int, kernels.cols as int / 2, j),
                k,
            ),
            im: integer_of::<S>(0i64),
        }
}

} // verus!
