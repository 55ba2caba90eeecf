//! What the kernels of a Flow Lenia world look like, where arithmetic does not round.

use crate::field::Field;
use crate::flow::kernels::{get_kernels, sample_params, sample_ranges, Params};
use crate::flow::ker_f_at;
use crate::scalar::Real;
use vstd::prelude::*;

verus! {

use crate::analysis::{
    exact_decimals, exact_exp, exact_order, exact_root, exact_tanh, lemma_cancel, lemma_quotient,
    lemma_root, lemma_scaled, lemma_tens, tens,
};
use crate::exact::{lemma_rsum_same, rsum};
use crate::flow::kernels::{distance2, distances_fit, kernel_at, kernel_raw, kernel_total};
use crate::flow::normalisation::lemma_kernel_total;
use crate::flow::{bump, bumps, sigmoid_of};
use crate::scalar::{
    decimal_of, functional, integer_of, minus_of, neg_of, over_of, plus_of, sqrt_of, times_of,
};

/// Bumps are added up, each as high as its height: `g(p)` is the exponent of bump `p`.
pub proof fn lemma_bumps<S: Real>(
    v: spec_fn(S) -> real,
    ex: spec_fn(real) -> real,
    x: S,
    a: Seq<S>,
    w: Seq<S>,
    b: Seq<S>,
    g: spec_fn(int) -> real,
    n: nat,
)
    requires
        exact_exp(v, ex),
        forall|p: int| 0 <= p < n ==> v(#[trigger] w[p]) != 0real,
        forall|p: int|
            0 <= p < n ==> #[trigger] g(p) * v(w[p]) == -((v(x) - v(a[p])) * (v(x) - v(a[p]))),
    ensures
        v(bumps(x, a, w, b, n)) == rsum(|p: int| v(b[p]) * ex(g(p)), n),
    decreases n,
{
    assert(v(integer_of::<S>(0i64)) == 0real);
    if n > 0 {
        let p = n - 1;
        lemma_bumps(v, ex, x, a, w, b, g, p as nat);
        assert(v(w[p]) != 0real);
        let d = v(x) - v(a[p]);
        lemma_quotient(-(d * d), v(w[p]));
        lemma_cancel(-(d * d) / v(w[p]), g(p), v(w[p]));
        assert(v(bump(x, a[p], w[p], b[p])) == v(b[p]) * ex(g(p)));
    }
}

/// A sum of bumps at a point is the sum of their heights, each times the exponential of its
/// exponent: the exponent, times the width of the bump, makes the squared distance from its
/// place negative.
pub proof fn law_bumps_fall_with_distance<S: Real>(
    v: spec_fn(S) -> real,
    ex: spec_fn(real) -> real,
    x: S,
    a: &[S],
    w: &[S],
    b: &[S],
    y: S,
    g: spec_fn(int) -> real,
)
    requires
        exact_exp(v, ex),
        functional::<S>(),
        call_ensures(ker_f_at::<S>, (x, a, w, b), y),
        forall|p: int| 0 <= p < a@.len() ==> v(#[trigger] w@[p]) != 0real,
        forall|p: int|
            0 <= p < a@.len() ==> #[trigger] g(p) * v(w@[p]) == -((v(x) - v(a@[p])) * (v(x) - v(
                a@[p],
            ))),
    ensures
        v(y) == rsum(|p: int| v(b@[p]) * ex(g(p)), a@.len()),
{
    lemma_bumps(v, ex, x, a@, w@, b@, g, a@.len());
}

/// What a kernel is before scaling.
proof fn lemma_raw<S: Real>(
    v: spec_fn(S) -> real,
    ex: spec_fn(real) -> real,
    th: spec_fn(real) -> real,
    p: &Params<S>,
    sx: int,
    i: int,
    j: int,
    k: int,
    d: real,
    g: spec_fn(int) -> real,
)
    requires
        exact_root(v),
        exact_exp(v, ex),
        exact_tanh(v, th),
        (v(p.R) + 15real) * v(p.r@[k]) > 0real,
        0 <= distance2(sx, i, j) <= i64::MAX,
        d >= 0real,
        ((v(p.R) + 15real) * v(p.r@[k]) * d) * ((v(p.R) + 15real) * v(p.r@[k]) * d) == ((i - sx
            / 2) * (i - sx / 2) + (j - sx / 2) * (j - sx / 2)) as real,
        forall|t: int| 0 <= t < p.a.cols ==> v(#[trigger] p.w.cells@[k]@[t]) != 0real,
        forall|t: int|
            0 <= t < p.a.cols ==> #[trigger] g(t) * v(p.w.cells@[k]@[t]) == -((d - v(
                p.a.cells@[k]@[t],
            )) * (d - v(p.a.cells@[k]@[t]))),
    ensures
        v(kernel_raw(p, sx, i, j, k)) == ((1real + th(5real * (1real - d))) / 2real) * rsum(
            |t: int| v(p.b.cells@[k]@[t]) * ex(g(t)),
            p.a.cols as nat,
        ),
{
    let x = integer_of::<S>(distance2(sx, i, j) as i64);
    let r = (v(p.R) + 15real) * v(p.r@[k]);
    let h = r * d;
    assert(h >= 0real) by (nonlinear_arith)
        requires
            r > 0real,
            d >= 0real,
            h == r * d,
    ;
    assert(v(x) == h * h);
    lemma_root(v, x, h);
    lemma_scaled(d, r, h);
    assert(v(integer_of::<S>(15i64)) == 15real);
    assert(v(integer_of::<S>(10i64)) == 10real);
    assert(v(integer_of::<S>(2i64)) == 2real);
    assert(v(integer_of::<S>(1i64)) == 1real);
    let ds = over_of(sqrt_of(x), times_of(plus_of(p.R, integer_of::<S>(15i64)), p.r@[k]));
    assert(v(ds) == d);
    let arg = times_of(
        neg_of(minus_of(ds, integer_of::<S>(1i64))),
        integer_of::<S>(10i64),
    );
    assert(v(arg) == -(d - 1real) * 10real);
    assert(v(over_of(arg, integer_of::<S>(2i64))) == 5real * (1real - d));
    assert(v(sigmoid_of(arg)) == (1real + th(5real * (1real - d))) / 2real);
    lemma_bumps(
        v,
        ex,
        ds,
        p.a.cells@[k]@,
        p.w.cells@[k]@,
        p.b.cells@[k]@,
        g,
        p.a.cols as nat,
    );
}

/// Kernels are round: the value of a kernel at a place depends on nothing but the distance `d`
/// from the middle in units of the kernel's radius, which is its own share of the common radius
/// and fifteen. It is the sum of its rings, each a bump at its place, as high and as wide as
/// given, under a smooth step down at one; `g` gives the exponents of the bumps. Where these
/// values have a positive sum, the kernel is scaled to a sum of one.
pub proof fn law_kernels_are_round_rings<S: Real>(
    v: spec_fn(S) -> real,
    ex: spec_fn(real) -> real,
    th: spec_fn(real) -> real,
    sx: usize,
    sy: usize,
    nb_k: usize,
    params: &Params<S>,
    out: Field<S>,
    d: spec_fn(int, int) -> real,
    g: spec_fn(int, int, int) -> real,
    i: int,
    j: int,
    k: int,
)
    requires
        exact_root(v),
        exact_exp(v, ex),
        exact_tanh(v, th),
        exact_order(v),
        functional::<S>(),
        params.wf(nb_k as int),
        distances_fit(sx as int, sy as int),
        call_ensures(get_kernels::<S>, (sx, sy, nb_k, params), out),
        out.has(i, j, k),
        (v(params.R) + 15real) * v(params.r@[k]) > 0real,
        forall|t: int| 0 <= t < params.a.cols ==> v(#[trigger] params.w.cells@[k]@[t]) != 0real,
        forall|p: int, q: int|
            0 <= p < sy && 0 <= q < sx ==> {
                let r = (v(params.R) + 15real) * v(params.r@[k]);
                &&& #[trigger] d(p, q) >= 0real
                &&& (r * d(p, q)) * (r * d(p, q)) == ((p - sx / 2) * (p - sx / 2) + (q - sx / 2) * (
                q - sx / 2)) as real
            },
        forall|p: int, q: int, t: int|
            0 <= p < sy && 0 <= q < sx && 0 <= t < params.a.cols ==> #[trigger] g(p, q, t) * v(
                params.w.cells@[k]@[t],
            ) == -((d(p, q) - v(params.a.cells@[k]@[t])) * (d(p, q) - v(params.a.cells@[k]@[t]))),
    ensures
        ({
            let ring = |p: int, q: int|
                ((1real + th(5real * (1real - d(p, q)))) / 2real) * rsum(
                    |t: int| v(params.b.cells@[k]@[t]) * ex(g(p, q, t)),
                    params.a.cols as nat,
                );
            let total = rsum(|p: int| rsum(|q: int| ring(p, q), sx as nat), sy as nat);
            &&& total > 0real ==> v(out.at(i, j, k)) * total == ring(i, j)
            &&& total <= 0real ==> v(out.at(i, j, k)) == ring(i, j)
        }),
{
    let ring = |p: int, q: int|
        ((1real + th(5real * (1real - d(p, q)))) / 2real) * rsum(
            |t: int| v(params.b.cells@[k]@[t]) * ex(g(p, q, t)),
            params.a.cols as nat,
        );
    let x = sx as int;
    assert forall|p: int, q: int| 0 <= p < sy && 0 <= q < sx implies v(
        #[trigger] kernel_raw(params, x, p, q, k),
    ) == ring(p, q) by {
        assert(d(p, q) >= 0real);
        assert(distance2(x, p, q) <= i32::MAX);
        let a = p - x / 2;
        let b = q - x / 2;
        assert(a * a >= 0 && b * b >= 0) by (nonlinear_arith);
        let gk = |t: int| g(p, q, t);
        lemma_raw(v, ex, th, params, x, p, q, k, d(p, q), gk);
        lemma_rsum_same(
            |t: int| v(params.b.cells@[k]@[t]) * ex(gk(t)),
            |t: int| v(params.b.cells@[k]@[t]) * ex(g(p, q, t)),
            params.a.cols as nat,
        );
    }
    lemma_kernel_total(v, params, sx as nat, sy as nat, k);
    let rows_raw = |p: int| rsum(|q: int| v(kernel_raw(params, x, p, q, k)), sx as nat);
    let rows = |p: int| rsum(|q: int| ring(p, q), sx as nat);
    assert forall|p: int| 0 <= p < sy implies #[trigger] rows_raw(p) == rows(p) by {
        lemma_rsum_same(
            |q: int| v(kernel_raw(params, x, p, q, k)),
            |q: int| ring(p, q),
            sx as nat,
        );
    }
    lemma_rsum_same(rows_raw, rows, sy as nat);
    let total = rsum(rows, sy as nat);
    assert(v(kernel_total(params, sx as nat, sy as nat, k)) == total);
    assert(v(integer_of::<S>(0i64)) == 0real);
    assert(v(kernel_raw(params, x, i, j, k)) == ring(i, j));
    assert(out.at(i, j, k) == kernel_at(params, sx as nat, sy as nat, i, j, k));
    if total > 0real {
        lemma_quotient(ring(i, j), total);
    }
}

/// Whatever a host draws from the ranges, each parameter lies where it should: radii between
/// 0.2 and 1, growth around 0.05 to 0.5, as wide as 0.001 to 0.18 and as heavy as 0.01 to 1,
/// rings at 0 to 1, as wide as 0.01 to 0.5 and as high as 0.001 to 1, the common radius between
/// 2 and 25.
pub proof fn law_drawn_parameters_lie_in_their_ranges<S: Real>(
    v: spec_fn(S) -> real,
    ranges: Vec<(S, S)>,
    draws: &[S],
    nb_k: usize,
    p: Params<S>,
    k: int,
    t: int,
)
    requires
        exact_decimals(v),
        functional::<S>(),
        13 * nb_k + 1 <= usize::MAX,
        call_ensures(sample_ranges::<S>, (nb_k,), ranges),
        draws@.len() == ranges@.len(),
        forall|i: int|
            0 <= i < draws@.len() ==> v(ranges@[i].0) <= v(#[trigger] draws@[i]) <= v(
                ranges@[i].1,
            ),
        call_ensures(sample_params::<S>, (draws, nb_k), p),
        0 <= k < nb_k,
        0 <= t < 3,
    ensures
        2real <= 10real * v(p.r@[k]) <= 10real,
        5real <= 100real * v(p.m@[k]) <= 50real,
        1real <= 1000real * v(p.s@[k]) <= 180real,
        1real <= 100real * v(p.h@[k]) <= 100real,
        0real <= v(p.a.at(k, t)) <= 1real,
        1real <= 100real * v(p.w.at(k, t)) <= 50real,
        1real <= 1000real * v(p.b.at(k, t)) <= 1000real,
        2real <= v(p.R) <= 25real,
{
    lemma_tens();
    assert(v(decimal_of::<S>(2i64, 1u32)) * tens(1) == 2real);
    assert(v(decimal_of::<S>(5i64, 2u32)) * tens(2) == 5real);
    assert(v(decimal_of::<S>(5i64, 1u32)) * tens(1) == 5real);
    assert(v(decimal_of::<S>(1i64, 3u32)) * tens(3) == 1real);
    assert(v(decimal_of::<S>(18i64, 2u32)) * tens(2) == 18real);
    assert(v(decimal_of::<S>(1i64, 2u32)) * tens(2) == 1real);
    assert(v(integer_of::<S>(0i64)) == 0real);
    assert(v(integer_of::<S>(1i64)) == 1real);
    assert(v(integer_of::<S>(2i64)) == 2real);
    assert(v(integer_of::<S>(25i64)) == 25real);
    assert(p.a.has(k, t) && p.w.has(k, t) && p.b.has(k, t));
    let n = nb_k as int;
    assert(p.r@[k] == draws@[k]);
    assert(p.m@[k] == draws@[n + k]);
    assert(p.s@[k] == draws@[2 * n + k]);
    assert(p.h@[k] == draws@[3 * n + k]);
    assert(p.a.at(k, t) == draws@[4 * n + 3 * k + t]);
    assert(p.w.at(k, t) == draws@[7 * n + 3 * k + t]);
    assert(p.b.at(k, t) == draws@[10 * n + 3 * k + t]);
    assert(p.R == draws@[13 * n]);
    assert(v(ranges@[k].0) <= v(draws@[k]));
    assert(v(ranges@[n + k].0) <= v(draws@[n + k]));
    assert(v(ranges@[2 * n + k].0) <= v(draws@[2 * n + k]));
    assert(v(ranges@[3 * n + k].0) <= v(draws@[3 * n + k]));
    assert(v(ranges@[4 * n + 3 * k + t].0) <= v(draws@[4 * n + 3 * k + t]));
    assert(v(ranges@[7 * n + 3 * k + t].0) <= v(draws@[7 * n + 3 * k + t]));
    assert(v(ranges@[10 * n + 3 * k + t].0) <= v(draws@[10 * n + 3 * k + t]));
    assert(v(ranges@[13 * n].0) <= v(draws@[13 * n]));
}

} // verus!
