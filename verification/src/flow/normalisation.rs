//! Kernels sum to one, where arithmetic does not round.

use crate::flow::kernels::{CompiledParams, KernelComputer, Params};
use crate::flow::spectrum::{Fft2DPlanner, Transform};
use crate::scalar::Real;
use vstd::prelude::*;

verus! {

use crate::exact::{
    exact_as, lemma_rsum_cycle, lemma_rsum_same, lemma_rsum_scale, lemma_rsum_zero, rsum,
};
use crate::field::{lane_sum, raster, tail_sum, unrolled_sum};
use crate::flow::inversion::{is_fourier, lemma_plane_spectrum};
use crate::flow::kernels::{kernel_at, kernel_raw, kernel_shifted, kernel_total};
use crate::flow::shift::source;
use crate::flow::spectrum::steady;
use crate::mace::circle::val;
use crate::mace::inverse::plane_vals;
use crate::mace::points::{lemma_pmul_simple, lemma_psum_same, pmul, psum, pt};
use crate::mace::spectrum::{lemma_powers, plane_spectrum, spectrum};
use crate::scalar::{below_of, functional, integer_of, plus_of};
use vstd::arithmetic::div_mod::lemma_fundamental_div_mod_converse;

/// The numbers of a list as a function of their place.
pub open spec fn list_vals<S: Real>(v: spec_fn(S) -> real, s: Seq<S>) -> spec_fn(int) -> real {
    |t: int| v(s[t])
}

/// The eight lanes of whole blocks together hold every number of the blocks.
proof fn lemma_lanes<S: Real>(v: spec_fn(S) -> real, s: Seq<S>, n: nat)
    requires
        exact_as(v),
    ensures
        v(lane_sum(s, 0, n)) + v(lane_sum(s, 1, n)) + v(lane_sum(s, 2, n)) + v(
            lane_sum(s, 3, n),
        ) + v(lane_sum(s, 4, n)) + v(lane_sum(s, 5, n)) + v(lane_sum(s, 6, n)) + v(
            lane_sum(s, 7, n),
        ) == rsum(list_vals(v, s), 8 * n),
    decreases n,
{
    let f = list_vals(v, s);
    if n == 0 {
        assert(v(integer_of::<S>(0i64)) == 0real);
    } else {
        let m = (n - 1) as nat;
        let b = 8 * m;
        lemma_lanes(v, s, m);
        assert(rsum(f, b + 1) == rsum(f, b) + f(b as int));
        assert(rsum(f, b + 2) == rsum(f, b + 1) + f((b + 1) as int));
        assert(rsum(f, b + 3) == rsum(f, b + 2) + f((b + 2) as int));
        assert(rsum(f, b + 4) == rsum(f, b + 3) + f((b + 3) as int));
        assert(rsum(f, b + 5) == rsum(f, b + 4) + f((b + 4) as int));
        assert(rsum(f, b + 6) == rsum(f, b + 5) + f((b + 5) as int));
        assert(rsum(f, b + 7) == rsum(f, b + 6) + f((b + 6) as int));
        assert(rsum(f, b + 8) == rsum(f, b + 7) + f((b + 7) as int));
        assert(8 * n == b + 8);
    }
}

/// What is left behind the blocks is added to them.
proof fn lemma_tail<S: Real>(v: spec_fn(S) -> real, start: S, s: Seq<S>, from: nat, n: nat)
    requires
        exact_as(v),
    ensures
        v(tail_sum(start, s, from as int, n)) == v(start) + rsum(list_vals(v, s), from + n)
            - rsum(list_vals(v, s), from),
    decreases n,
{
    if n > 0 {
        let m = (n - 1) as nat;
        lemma_tail(v, start, s, from, m);
        let f = list_vals(v, s);
        assert(rsum(f, from + n) == rsum(f, from + m) + f((from + m) as int));
    }
}

/// A sum by lanes is the sum, wherever arithmetic does not round: the order in which
/// numbers are added does not matter.
pub proof fn law_sum_by_lanes_is_the_sum<S: Real>(v: spec_fn(S) -> real, s: Seq<S>)
    requires
        exact_as(v),
    ensures
        v(unrolled_sum(s)) == rsum(list_vals(v, s), s.len()),
{
    let n = s.len() / 8;
    lemma_lanes(v, s, n);
    assert(v(integer_of::<S>(0i64)) == 0real);
    let a0 = plus_of(
        integer_of::<S>(0i64),
        plus_of(lane_sum(s, 0, n), lane_sum(s, 4, n)),
    );
    let a1 = plus_of(
        a0,
        plus_of(lane_sum(s, 1, n), lane_sum(s, 5, n)),
    );
    let a2 = plus_of(
        a1,
        plus_of(lane_sum(s, 2, n), lane_sum(s, 6, n)),
    );
    let a3 = plus_of(
        a2,
        plus_of(lane_sum(s, 3, n), lane_sum(s, 7, n)),
    );
    lemma_tail(v, a3, s, 8 * n, s.len() % 8);
    assert(8 * n + s.len() % 8 == s.len());
    assert(unrolled_sum(s) == tail_sum(a3, s, 8 * n as int, (s.len() % 8) as nat));
}

/// A row of a raster, added up to a column.
proof fn lemma_raster_row(f: spec_fn(int, int) -> real, w: nat, k: nat, part: nat)
    requires
        part <= w,
        w > 0,
    ensures
        rsum(|t: int| f(t / (w as int), t % (w as int)), k * w + part) == rsum(
            |t: int| f(t / (w as int), t % (w as int)),
            k * w,
        ) + rsum(|j: int| f(k as int, j), part),
    decreases part,
{
    let z = w as int;
    let g = |t: int| f(t / z, t % z);
    let row = |j: int| f(k as int, j);
    if part > 0 {
        let p = (part - 1) as nat;
        lemma_raster_row(f, w, k, p);
        let t = k * w + p;
        lemma_fundamental_div_mod_converse(t as int, z, k as int, p as int);
        assert(rsum(g, t + 1) == rsum(g, t) + g(t as int));
        assert(rsum(row, part) == rsum(row, p) + row(p as int));
    }
}

/// A raster is added up row by row.
pub proof fn lemma_raster_sum(f: spec_fn(int, int) -> real, h: nat, w: nat)
    requires
        w > 0,
    ensures
        rsum(|t: int| f(t / (w as int), t % (w as int)), h * w) == rsum(
            |i: int| rsum(|j: int| f(i, j), w),
            h,
        ),
    decreases h,
{
    let z = w as int;
    let g = |t: int| f(t / z, t % z);
    let rows = |i: int| rsum(|j: int| f(i, j), w);
    if h == 0 {
        assert(h * w == 0) by (nonlinear_arith)
            requires
                h == 0,
        ;
    } else {
        let k = (h - 1) as nat;
        lemma_raster_sum(f, k, w);
        lemma_raster_row(f, w, k, w);
        assert(h * w == k * w + w) by (nonlinear_arith)
            requires
                h == k + 1,
        ;
        assert(rsum(rows, h) == rsum(rows, k) + rows(k as int));
    }
}

/// The sum of a kernel before scaling, row by row.
pub proof fn lemma_kernel_total<S: Real>(
    v: spec_fn(S) -> real,
    p: &Params<S>,
    sx: nat,
    sy: nat,
    k: int,
)
    requires
        exact_as(v),
    ensures
        v(kernel_total(p, sx, sy, k)) == rsum(
            |i: int| rsum(|j: int| v(kernel_raw(p, sx as int, i, j, k)), sx),
            sy,
        ),
{
    let raw = |i: int, j: int| kernel_raw(p, sx as int, i, j, k);
    let s = raster(sy, sx, raw);
    law_sum_by_lanes_is_the_sum(v, s);
    let f = |i: int, j: int| v(kernel_raw(p, sx as int, i, j, k));
    let z = sx as int;
    let rows = |i: int| rsum(|j: int| f(i, j), sx);
    let want = |i: int| rsum(|j: int| v(kernel_raw(p, sx as int, i, j, k)), sx);
    assert forall|i: int| 0 <= i < sy implies #[trigger] rows(i) == want(i) by {
        lemma_rsum_same(
            |j: int| f(i, j),
            |j: int| v(kernel_raw(p, sx as int, i, j, k)),
            sx,
        );
    }
    lemma_rsum_same(rows, want, sy);
    lemma_rsum_same(list_vals(v, s), |t: int| f(t / z, t % z), s.len());
    if sx == 0 {
        assert(sy * sx == 0) by (nonlinear_arith)
            requires
                sx == 0,
        ;
        assert(s.len() == 0);
        lemma_rsum_zero(want, sy);
    } else {
        lemma_raster_sum(f, sy, sx);
    }
}

/// Kernel `k` as real numbers.
pub open spec fn kernel_vals<S: Real>(
    v: spec_fn(S) -> real,
    p: &Params<S>,
    sx: nat,
    sy: nat,
    k: int,
) -> spec_fn(int, int) -> real {
    |i: int, j: int| v(kernel_at(p, sx, sy, i, j, k))
}

/// Whether a kernel has something to be scaled: its sum is above zero, and a host finds so.
pub open spec fn has_weight<S: Real>(
    v: spec_fn(S) -> real,
    p: &Params<S>,
    sx: nat,
    sy: nat,
    k: int,
) -> bool {
    &&& below_of(integer_of::<S>(0i64), kernel_total(p, sx, sy, k))
    &&& v(kernel_total(p, sx, sy, k)) > 0real
}

/// A kernel whose sum is above zero sums to one once it is scaled, wherever arithmetic does
/// not round.
pub proof fn law_kernel_sums_to_one<S: Real>(
    v: spec_fn(S) -> real,
    p: &Params<S>,
    sx: nat,
    sy: nat,
    k: int,
)
    requires
        exact_as(v),
        has_weight(v, p, sx, sy, k),
    ensures
        rsum(|i: int| rsum(|j: int| kernel_vals(v, p, sx, sy, k)(i, j), sx), sy) == 1real,
{
    let raw = |i: int, j: int| kernel_raw(p, sx as int, i, j, k);
    let s = raster(sy, sx, raw);
    let whole = v(kernel_total(p, sx, sy, k));
    law_sum_by_lanes_is_the_sum(v, s);
    let f = |i: int, j: int| v(kernel_raw(p, sx as int, i, j, k));
    let z = sx as int;
    if sx == 0 {
        assert(sy * sx == 0) by (nonlinear_arith)
            requires
                sx == 0,
        ;
        assert(s.len() == 0);
    }
    lemma_rsum_same(list_vals(v, s), |t: int| f(t / z, t % z), s.len());
    lemma_raster_sum(f, sy, sx);
    let rows = |i: int| rsum(|j: int| f(i, j), sx);
    assert(rsum(rows, sy) == whole);
    let part = 1real / whole;
    let value = kernel_vals(v, p, sx, sy, k);
    let scaled = |i: int| rsum(|j: int| value(i, j), sx);
    assert forall|i: int| 0 <= i < sy implies #[trigger] scaled(i) == part * rows(i) by {
        let line = |j: int| f(i, j);
        let shares = |j: int| value(i, j);
        lemma_rsum_scale(part, line, sx);
        assert forall|j: int| 0 <= j < sx implies #[trigger] shares(j) == part * line(j) by {
            let x = line(j);
            assert(x / whole == (1real / whole) * x) by (nonlinear_arith)
                requires
                    whole > 0real,
            ;
        }
        lemma_rsum_same(shares, |j: int| part * line(j), sx);
    }
    lemma_rsum_same(scaled, |i: int| part * rows(i), sy);
    lemma_rsum_scale(part, rows, sy);
    assert((1real / whole) * whole == 1real) by (nonlinear_arith)
        requires
            whole > 0real,
    ;
    lemma_rsum_same(
        |i: int| rsum(|j: int| kernel_vals(v, p, sx, sy, k)(i, j), sx),
        scaled,
        sy,
    );
}

/// A sum of points on the real line is the sum of their places there.
proof fn lemma_psum_real(f: spec_fn(int) -> real, n: nat)
    ensures
        psum(|i: int| pt(f(i)), n) == pt(rsum(f, n)),
    decreases n,
{
    if n > 0 {
        lemma_psum_real(f, (n - 1) as nat);
    }
}

/// The zero frequency of points is their sum.
proof fn lemma_zero_frequency(
    w: spec_fn(int) -> (real, real),
    x: spec_fn(int) -> (real, real),
    f: spec_fn(int) -> real,
    n: nat,
)
    requires
        w(0) == pt(1real),
        forall|i: int| 0 <= i < n ==> #[trigger] x(i) == pt(f(i)),
    ensures
        spectrum(w, x, n, 0) == pt(rsum(f, n)),
{
    let a = |j: int| pmul(x(j), w(j * 0));
    let b = |j: int| pt(f(j));
    assert forall|j: int| 0 <= j < n implies #[trigger] a(j) == b(j) by {
        assert(j * 0 == 0);
        lemma_pmul_simple(x(j));
    }
    lemma_psum_same(a, b, n);
    lemma_psum_real(f, n);
}

/// The zero frequency of the spectrum of a kernel whose sum is above zero is one, where the
/// host's transforms are Fourier transforms and arithmetic does not round.
pub proof fn law_zero_frequency_is_one<S: Real, T: Transform<S>>(
    computer: &KernelComputer,
    params: &Params<S>,
    planner: &Fft2DPlanner<T>,
    compiled: CompiledParams<S>,
    v: spec_fn(S) -> real,
    w: spec_fn(int) -> (real, real),
    u: spec_fn(int) -> (real, real),
    k: int,
)
    requires
        functional::<S>(),
        steady(&planner.planner),
        call_ensures(KernelComputer::compute::<S, T>, (computer, params, planner), compiled),
        exact_as(v),
        is_fourier(&planner.planner, v, w, computer.sy as nat),
        is_fourier(&planner.planner, v, u, computer.sx as nat),
        compiled.fK.has(0, 0, k),
        has_weight(v, params, computer.sx as nat, computer.sy as nat, k),
    ensures
        val(v, compiled.fK.at(0, 0, k)) == (1real, 0real),
{
    let sx = computer.sx as nat;
    let sy = computer.sy as nat;
    let zx = sx as int;
    let zy = sy as int;
    let dx = (sx / 2) as int;
    let dy = (sy / 2) as int;
    let g = kernel_shifted(params, sx, sy, k);
    let x = plane_vals(v, g);
    lemma_plane_spectrum(&planner.planner, v, w, u, false, g, sy, sx, 0, 0);
    lemma_powers(w, sy, 0, 0);
    lemma_powers(u, sx, 0, 0);
    let f = kernel_vals(v, params, sx, sy, k);
    let moved = |i: int, j: int| f(source(zy, dy, i), source(zx, dx, j));
    let moved_rows = |i: int| rsum(|j: int| moved(i, j), sx);
    let rows = |i: int| rsum(|j: int| f(i, j), sx);
    let across = |i: int| spectrum(u, |j: int| x(i, j), sx, 0);
    assert(v(integer_of::<S>(0i64)) == 0real);
    assert forall|i: int| 0 <= i < sy implies #[trigger] across(i) == pt(moved_rows(i)) by {
        lemma_zero_frequency(u, |j: int| x(i, j), |j: int| moved(i, j), sx);
    }
    lemma_zero_frequency(w, across, moved_rows, sy);
    assert(plane_spectrum(w, u, x, sy, sx, 0, 0) == spectrum(w, across, sy, 0));
    assert forall|i: int| 0 <= i < sy implies #[trigger] moved_rows(i) == rows(
        (i - dy) % zy,
    ) by {
        let row = |q: int| f((i - dy) % zy, q);
        lemma_rsum_cycle(row, sx, dx);
        lemma_rsum_same(|j: int| moved(i, j), |j: int| row((j - dx) % zx), sx);
    }
    lemma_rsum_same(moved_rows, |i: int| rows((i - dy) % zy), sy);
    lemma_rsum_cycle(rows, sy, dy);
    law_kernel_sums_to_one(v, params, sx, sy, k);
    lemma_rsum_same(
        |i: int| rsum(|j: int| kernel_vals(v, params, sx, sy, k)(i, j), sx),
        rows,
        sy,
    );
}

} // verus!
