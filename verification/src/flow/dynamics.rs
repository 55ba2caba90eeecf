//! What drives a world, where arithmetic does not round: growth, affinity and flow.

use crate::flow::kernels::CompiledParams;
use crate::flow::spectrum::Transform;
use crate::flow::step::Config;
use crate::flow::{bell, growth_at, sigmoid};
use crate::scalar::Real;
use vstd::prelude::*;

verus! {

use crate::analysis::{
    exact_exp, exact_powf, exact_square, exact_tanh, lemma_cancel, lemma_quotient, lemma_square,
    lemma_square_order, lemma_times_order,
};
use crate::exact::{exact_as, held, lemma_rsum_same, rsum};
use crate::flow::gradient_laws::{lemma_nabla, padded, rise};
use crate::flow::growth_of;
use crate::flow::normalisation::{law_sum_by_lanes_is_the_sum, list_vals};
use crate::flow::step::{
    affinity, crowding, crowding_p, fed, flow_of, flow_p_of, grown, mass, potential, weights_fn,
};
use crate::scalar::{functional, integer_of, minus_of, neg_of, over_of, powf_of, powi_of};

/// The exponent of a bell: half the square of the distance in units of the width.
proof fn lemma_bell_exponent(d: real, s: real, e: real)
    requires
        s != 0real,
        e * (2real * (s * s)) == -(d * d),
    ensures
        -((d / s) * (d / s)) / 2real == e,
{
    let q = d / s;
    lemma_quotient(d, s);
    lemma_square(s);
    let f = -(q * q) / 2real;
    let ss = s * s;
    assert((q * s) * (q * s) == (q * q) * ss) by (nonlinear_arith)
        requires
            ss == s * s,
    ;
    let qq = q * q;
    assert(f * (2real * ss) == -(qq * ss)) by (nonlinear_arith)
        requires
            f == -qq / 2real,
    ;
    lemma_cancel(f, e, 2real * ss);
}

/// A bell is one at its middle and falls with the distance from it in units of its width: it
/// is the exponential of the number that, times twice the squared width, makes the squared
/// distance negative.
pub proof fn law_bell_falls_with_distance<S: Real>(
    v: spec_fn(S) -> real,
    ex: spec_fn(real) -> real,
    x: S,
    m: S,
    s: S,
    y: S,
    e: real,
)
    requires
        exact_exp(v, ex),
        exact_square(v),
        functional::<S>(),
        v(s) != 0real,
        call_ensures(bell::<S>, (x, m, s), y),
        e * (2real * (v(s) * v(s))) == -((v(x) - v(m)) * (v(x) - v(m))),
    ensures
        v(y) == ex(e),
        v(x) == v(m) ==> v(y) == 1real,
        v(y) <= 1real,
{
    let d = v(x) - v(m);
    lemma_bell_exponent(d, v(s), e);
    assert(v(over_of(minus_of(x, m), s)) == d / v(s));
    assert(v(integer_of::<S>(2i64)) == 2real);
    lemma_sign(d, v(s), e);
}

/// The exponent of a bell is never positive, and zero at its middle.
proof fn lemma_sign(d: real, s: real, e: real)
    requires
        s != 0real,
        e * (2real * (s * s)) == -(d * d),
    ensures
        e <= 0real,
        d == 0real ==> e == 0real,
{
    lemma_square(s);
    lemma_square(d);
    let c = 2real * (s * s);
    assert(0real * c == 0real) by (nonlinear_arith);
    lemma_times_order(0real, e, c);
    if d == 0real {
        assert(d * d == 0real) by (nonlinear_arith)
            requires
                d == 0real,
        ;
        lemma_cancel(e, 0real, c);
    }
}

/// Growth is a bell spread from minus one to one: it is one where a potential is at the
/// middle, and depends on nothing but the squared distance in units of the width.
pub proof fn law_growth_is_a_bell<S: Real>(
    v: spec_fn(S) -> real,
    ex: spec_fn(real) -> real,
    u: S,
    m: S,
    s: S,
    g: S,
    e: real,
)
    requires
        exact_exp(v, ex),
        exact_square(v),
        functional::<S>(),
        v(s) != 0real,
        call_ensures(growth_at::<S>, (u, m, s), g),
        e * (2real * (v(s) * v(s))) == -((v(u) - v(m)) * (v(u) - v(m))),
    ensures
        v(g) == 2real * ex(e) - 1real,
        v(u) == v(m) ==> v(g) == 1real,
        -1real < v(g) <= 1real,
{
    lemma_growth(v, ex, u, m, s, e);
    lemma_sign(v(u) - v(m), v(s), e);
}

/// What growth is, as a real number.
proof fn lemma_growth<S: Real>(
    v: spec_fn(S) -> real,
    ex: spec_fn(real) -> real,
    u: S,
    m: S,
    s: S,
    e: real,
)
    requires
        exact_exp(v, ex),
        exact_square(v),
        v(s) != 0real,
        e * (2real * (v(s) * v(s))) == -((v(u) - v(m)) * (v(u) - v(m))),
    ensures
        v(growth_of(u, m, s)) == 2real * ex(e) - 1real,
{
    let d = v(u) - v(m);
    lemma_bell_exponent(d, v(s), e);
    assert(v(over_of(minus_of(u, m), s)) == d / v(s));
    assert(v(integer_of::<S>(2i64)) == 2real);
    assert(v(integer_of::<S>(1i64)) == 1real);
    assert(v(powi_of(over_of(minus_of(u, m), s), 2i32)) == (d / v(s)) * (d / v(s)));
}

/// The nearer a potential is to the middle, the more it grows; two that are as far from it,
/// on either side, grow alike.
pub proof fn law_growth_falls_with_distance<S: Real>(
    v: spec_fn(S) -> real,
    ex: spec_fn(real) -> real,
    near: S,
    far: S,
    m: S,
    s: S,
    g: S,
    h: S,
)
    requires
        exact_exp(v, ex),
        exact_square(v),
        functional::<S>(),
        v(s) != 0real,
        call_ensures(growth_at::<S>, (near, m, s), g),
        call_ensures(growth_at::<S>, (far, m, s), h),
    ensures
        (v(near) - v(m)) * (v(near) - v(m)) < (v(far) - v(m)) * (v(far) - v(m)) ==> v(g) > v(h),
        (v(near) - v(m)) * (v(near) - v(m)) == (v(far) - v(m)) * (v(far) - v(m)) ==> v(g) == v(h),
{
    lemma_square(v(s));
    let c = 2real * (v(s) * v(s));
    let a = (v(near) - v(m)) * (v(near) - v(m));
    let b = (v(far) - v(m)) * (v(far) - v(m));
    let e = -a / c;
    let f = -b / c;
    lemma_quotient(-a, c);
    lemma_quotient(-b, c);
    lemma_growth(v, ex, near, m, s, e);
    lemma_growth(v, ex, far, m, s, f);
    lemma_times_order(f, e, c);
}

/// The smooth step rises from zero to one, is a half at zero, and the two sides of zero add
/// up to one.
pub proof fn law_sigmoid_is_a_step<S: Real>(
    v: spec_fn(S) -> real,
    th: spec_fn(real) -> real,
    x: S,
    y: S,
    a: S,
    b: S,
)
    requires
        exact_tanh(v, th),
        functional::<S>(),
        call_ensures(sigmoid::<S>, (x,), a),
        call_ensures(sigmoid::<S>, (y,), b),
    ensures
        0real < v(a) < 1real,
        2real * v(a) == 1real + th(v(x) / 2real),
        v(x) == 0real ==> 2real * v(a) == 1real,
        v(x) < v(y) ==> v(a) < v(b),
        v(x) == -v(y) ==> v(a) + v(b) == 1real,
{
    assert(v(integer_of::<S>(2i64)) == 2real);
    assert(v(integer_of::<S>(1i64)) == 1real);
    let p = v(x) / 2real;
    let q = v(y) / 2real;
    assert(v(x) < v(y) ==> p < q);
    assert(v(x) == -v(y) ==> p == -q);
    assert(th(-q) == -th(q));
}

/// The mass of all channels of a cell is their sum.
pub proof fn lemma_mass<S: Real>(
    v: spec_fn(S) -> real,
    a: spec_fn(int, int, int) -> S,
    channels: nat,
    i: int,
    j: int,
)
    requires
        exact_as(v),
    ensures
        v(mass(a, channels)(i, j)) == rsum(|c: int| v(a(i, j, c)), channels),
{
    let s = Seq::new(channels, |c: int| a(i, j, c));
    law_sum_by_lanes_is_the_sum(v, s);
    lemma_rsum_same(list_vals(v, s), |c: int| v(a(i, j, c)), channels);
}

/// The mass of all channels at a place, nothing outside the world.
pub open spec fn total_at<S: Real>(
    v: spec_fn(S) -> real,
    a: spec_fn(int, int, int) -> S,
    side: int,
    channels: nat,
) -> spec_fn(int, int) -> real {
    |p: int, q: int|
        if 0 <= p < side && 0 <= q < side {
            rsum(|k: int| v(a(p, q, k)), channels)
        } else {
            0real
        }
}

/// The gradient of the mass of all channels.
proof fn lemma_down<S: Real>(
    v: spec_fn(S) -> real,
    a: spec_fn(int, int, int) -> S,
    h: int,
    channels: nat,
    i: int,
    j: int,
    axis: int,
)
    requires
        exact_as(v),
    ensures
        rise(padded(v, mass(a, channels), h, h), i, j, axis) == rise(
            total_at(v, a, h, channels),
            i,
            j,
            axis,
        ),
{
    let f = padded(v, mass(a, channels), h, h);
    let g = total_at(v, a, h, channels);
    assert forall|p: int, q: int| #[trigger] f(p, q) == g(p, q) by {
        lemma_mass(v, a, channels, p, q);
    }
    assert(f(i + 1, j - 1) == g(i + 1, j - 1));
    assert(f(i + 1, j) == g(i + 1, j));
    assert(f(i + 1, j + 1) == g(i + 1, j + 1));
    assert(f(i, j - 1) == g(i, j - 1));
    assert(f(i, j + 1) == g(i, j + 1));
    assert(f(i - 1, j - 1) == g(i - 1, j - 1));
    assert(f(i - 1, j) == g(i - 1, j));
    assert(f(i - 1, j + 1) == g(i - 1, j + 1));
}

/// Flow leads up the affinity of its channel, and down the mass of all channels as mass
/// crowds: a cell without mass flows by the affinity alone, one with as much mass as crowds,
/// or more, flows against the mass alone, and in between the two are mixed, crowding counting
/// as a power of the mass.
pub proof fn law_flow_climbs_affinity_and_flees_crowding<S: Real, T: Transform<S>>(
    t: &T,
    cfg: &Config<S>,
    p: &CompiledParams<S>,
    v: spec_fn(S) -> real,
    pw: spec_fn(real, real) -> real,
    a: spec_fn(int, int, int) -> S,
    i: int,
    j: int,
    axis: int,
    c: int,
    alpha: real,
)
    requires
        exact_powf(v, pw),
        v(cfg.theta_A) > 0real,
        v(cfg.n) > 0real,
        v(a(i, j, c)) >= 0real,
        v(a(i, j, c)) < v(cfg.theta_A) ==> alpha == pw(v(a(i, j, c)) / v(cfg.theta_A), v(cfg.n)),
        v(a(i, j, c)) >= v(cfg.theta_A) ==> alpha == 1real,
    ensures
        ({
            let side = cfg.SX as int;
            let up = rise(
                padded(v, affinity(t, cfg, p, a, weights_fn(p), c), side, side),
                i,
                j,
                axis,
            );
            let down = rise(total_at(v, a, side, cfg.C as nat), i, j, axis);
            let flow = v(flow_of(t, cfg, p, a)(i, j, axis, c));
            &&& v(a(i, j, c)) == 0real ==> flow == up
            &&& v(a(i, j, c)) >= v(cfg.theta_A) ==> flow == -down
            &&& 0real <= alpha <= 1real
            &&& flow == up * (1real - alpha) - down * alpha
        }),
{
    let side = cfg.SX as int;
    let x = v(a(i, j, c));
    let th = v(cfg.theta_A);
    let e = v(cfg.n);
    let f = affinity(t, cfg, p, a, weights_fn(p), c);
    lemma_nabla(v, f, side, side, i, j, axis);
    lemma_nabla(v, mass(a, cfg.C as nat), side, side, i, j, axis);
    lemma_down(v, a, side, cfg.C as nat, i, j, axis);
    let q = x / th;
    lemma_quotient(x, th);
    assert(0real * th == 0real && 1real * th == th) by (nonlinear_arith);
    lemma_times_order(q, 0real, th);
    lemma_times_order(q, 1real, th);
    lemma_times_order(1real, q, th);
    if x == 0real {
        lemma_cancel(q, 0real, th);
    }
    if x == th {
        lemma_cancel(q, 1real, th);
    }
    let raw = pw(q, e);
    assert(v(powf_of(over_of(a(i, j, c), cfg.theta_A), cfg.n)) == raw);
    assert(q > 0real ==> pw(0real, e) < pw(q, e));
    assert(q < 1real ==> pw(q, e) < pw(1real, e));
    assert(q > 1real ==> pw(1real, e) < pw(q, e));
    assert(v(integer_of::<S>(0i64)) == 0real);
    assert(v(integer_of::<S>(1i64)) == 1real);
    assert(v(crowding(cfg, a(i, j, c))) == held(raw, 0real, 1real));
    assert(v(crowding(cfg, a(i, j, c))) == alpha);
    let up = rise(padded(v, f, side, side), i, j, axis);
    let down = rise(total_at(v, a, side, cfg.C as nat), i, j, axis);
    assert(v(flow_of(t, cfg, p, a)(i, j, axis, c)) == up * (1real - alpha) - down * alpha);
    assert(up * 0real == 0real && up * 1real == up && down * 0real == 0real && down * 1real == down)
        by (nonlinear_arith);
}

/// With parameters, flow is driven alike; crowding counts as the square of half the mass,
/// and flow is held to how far mass can move.
pub proof fn law_flow_with_parameters_is_driven_alike<S: Real, T: Transform<S>>(
    t: &T,
    cfg: &Config<S>,
    p: &CompiledParams<S>,
    v: spec_fn(S) -> real,
    a: spec_fn(int, int, int) -> S,
    w: spec_fn(int, int, int) -> S,
    i: int,
    j: int,
    axis: int,
    c: int,
    alpha: real,
)
    requires
        exact_square(v),
        v(cfg.sigma) <= cfg.dd as real,
        0real <= v(a(i, j, c)),
        v(a(i, j, c)) < 2real ==> 4real * alpha == v(a(i, j, c)) * v(a(i, j, c)),
        v(a(i, j, c)) >= 2real ==> alpha == 1real,
    ensures
        ({
            let side = cfg.SX as int;
            let up = rise(padded(v, affinity(t, cfg, p, a, w, c), side, side), i, j, axis);
            let down = rise(total_at(v, a, side, cfg.C as nat), i, j, axis);
            let far = cfg.dd as real - v(cfg.sigma);
            let free = up * (1real - alpha) - down * alpha;
            let flow = v(flow_p_of(t, cfg, p, a, w)(i, j, axis, c));
            &&& 0real <= alpha <= 1real
            &&& -far <= free <= far ==> flow == free
            &&& free > far ==> flow == far
            &&& free < -far ==> flow == -far
        }),
{
    let side = cfg.SX as int;
    let x = v(a(i, j, c));
    let f = affinity(t, cfg, p, a, w, c);
    lemma_nabla(v, f, side, side, i, j, axis);
    lemma_nabla(v, mass(a, cfg.C as nat), side, side, i, j, axis);
    lemma_down(v, a, side, cfg.C as nat, i, j, axis);
    assert(v(integer_of::<S>(0i64)) == 0real);
    assert(v(integer_of::<S>(1i64)) == 1real);
    assert(v(integer_of::<S>(2i64)) == 2real);
    let q = x / 2real;
    assert(q * 2real == x);
    assert(4real * (q * q) == x * x) by (nonlinear_arith)
        requires
            q * 2real == x,
    ;
    lemma_square(q);
    lemma_square_order(q, 1real);
    lemma_square_order(x, 2real);
    assert(v(powi_of(over_of(a(i, j, c), integer_of::<S>(2i64)), 2i32)) == q * q);
    assert(v(crowding_p(a(i, j, c))) == held(q * q, 0real, 1real));
    assert(v(crowding_p(a(i, j, c))) == alpha);
    let ma = cfg.mover().farthest();
    assert(v(ma) == cfg.dd as real - v(cfg.sigma));
    assert(v(neg_of(ma)) == -v(ma));
}

/// The affinity of a channel is the growth of the kernels that feed it, each as heavy as its
/// weight: `e(k)` is the exponent of kernel `k`'s bell at the cell.
pub proof fn law_affinity_is_weighted_growth<S: Real, T: Transform<S>>(
    t: &T,
    cfg: &Config<S>,
    p: &CompiledParams<S>,
    v: spec_fn(S) -> real,
    ex: spec_fn(real) -> real,
    a: spec_fn(int, int, int) -> S,
    w: spec_fn(int, int, int) -> S,
    i: int,
    j: int,
    c: int,
    e: spec_fn(int) -> real,
)
    requires
        exact_exp(v, ex),
        exact_square(v),
        forall|k: int| 0 <= k < cfg.nb_k ==> v(#[trigger] p.s@[k]) != 0real,
        forall|n: int|
            0 <= n < cfg.c1@[c]@.len() ==> 0 <= #[trigger] cfg.c1@[c]@[n] < cfg.nb_k,
        forall|k: int|
            0 <= k < cfg.nb_k ==> #[trigger] e(k) * (2real * (v(p.s@[k]) * v(p.s@[k]))) == -((v(
                potential(t, cfg, p, a, i, j, k),
            ) - v(p.m@[k])) * (v(potential(t, cfg, p, a, i, j, k)) - v(p.m@[k]))),
    ensures
        v(affinity(t, cfg, p, a, w, c)(i, j)) == rsum(
            |n: int|
                (2real * ex(e(cfg.c1@[c]@[n] as int)) - 1real) * v(
                    w(i, j, cfg.c1@[c]@[n] as int),
                ),
            cfg.c1@[c]@.len(),
        ),
{
    let list = cfg.c1@[c]@;
    let g = grown(t, cfg, p, a, w);
    let f = |n: int| (2real * ex(e(list[n] as int)) - 1real) * v(w(i, j, list[n] as int));
    lemma_fed(v, list, g, i, j, list.len());
    let terms = |n: int| v(g(i, j, list[n] as int));
    assert forall|n: int| 0 <= n < list.len() implies #[trigger] terms(n) == f(n) by {
        let k = list[n] as int;
        assert(0 <= cfg.c1@[c]@[n] < cfg.nb_k);
        assert(v(p.s@[k]) != 0real);
        lemma_growth(v, ex, potential(t, cfg, p, a, i, j, k), p.m@[k], p.s@[k], e(k));
    }
    lemma_rsum_same(terms, f, list.len());
    lemma_rsum_same(
        f,
        |n: int|
            (2real * ex(e(cfg.c1@[c]@[n] as int)) - 1real) * v(w(i, j, cfg.c1@[c]@[n] as int)),
        list.len(),
    );
}

/// What kernels of a list bring is added up.
proof fn lemma_fed<S: Real>(
    v: spec_fn(S) -> real,
    list: Seq<usize>,
    g: spec_fn(int, int, int) -> S,
    i: int,
    j: int,
    n: nat,
)
    requires
        exact_as(v),
    ensures
        v(fed(list, g, i, j, n)) == rsum(|m: int| v(g(i, j, list[m] as int)), n),
    decreases n,
{
    if n > 0 {
        lemma_fed(v, list, g, i, j, (n - 1) as nat);
    } else {
        assert(v(integer_of::<S>(0i64)) == 0real);
    }
}

} // verus!
