//! Where mass goes, where arithmetic does not round: every cell's mass is a square that the
//! flow carries, and each cell gets the part of it that comes to lie on the cell.

use crate::field::{Field, VectorField};
use crate::flow::kernels::CompiledParams;
use crate::flow::reintegration::{
    build_reintegration, build_reintegration_p, Reintegration, ReintegrationP,
};
use crate::flow::spectrum::{Fft2DPlanner, Transform};
use crate::flow::step::{State, StateP, StepFn, StepFnP};
use crate::scalar::Real;
use vstd::prelude::*;

verus! {

use crate::analysis::{
    exact_decimals, exact_exp, lemma_assoc, lemma_cancel, lemma_quotient, lemma_tens, tens,
};
use crate::exact::{
    exact_as, held, lemma_rsum_nonnegative, lemma_rsum_same, lemma_rsum_scale, lemma_rsum_swap,
    rsum,
};
use crate::field::unrolled_sum;
use crate::flow::conservation::{lemma_gathered, lemma_overlap};
use crate::flow::normalisation::{law_sum_by_lanes_is_the_sum, lemma_raster_sum, list_vals};
use crate::flow::reintegration::{field_fn, is_wall, middle, vectors_fn, Mix};
use crate::flow::shift::source;
use crate::flow::spectrum::steady;
use crate::flow::step::{flow_of, flow_p_of};
use crate::scalar::{
    clamp_of, count_of, decimal_of, functional, integer_of, minus_of, neg_of, times_of,
};
use vstd::arithmetic::div_mod::{lemma_fundamental_div_mod, lemma_mod_bound};

/// How much of the stretch from `t - s` to `t + s` lies between `k` and `k + 1`.
pub open spec fn met(k: int, t: real, s: real) -> real {
    let from = if k as real <= t - s {
        t - s
    } else {
        k as real
    };
    let to = if t + s <= k as real + 1real {
        t + s
    } else {
        k as real + 1real
    };
    if from <= to {
        to - from
    } else {
        0real
    }
}

/// Where along an axis the flow `f` carries the middle of the square that starts on cell
/// `k`: as far as the flow goes in a time step, no farther than the reach allows, and
/// between walls not over them.
pub open spec fn carried_to<S: Real>(
    r: &Reintegration<S>,
    v: spec_fn(S) -> real,
    k: int,
    f: real,
) -> real {
    let far = r.dd as real - v(r.sigma);
    let free = k as real + 1real / 2real + held(f * v(r.dt), -far, far);
    if r.wall {
        held(free, v(r.sigma), r.sx as real - v(r.sigma))
    } else {
        free
    }
}

/// Whether a square can be moved: it has an extent, which the reach and the walls have room
/// for.
pub open spec fn movable<S: Real>(r: &Reintegration<S>, v: spec_fn(S) -> real) -> bool {
    &&& r.wf()
    &&& 0real < v(r.sigma) <= r.dd as real
    &&& r.wall ==> 2real * v(r.sigma) <= r.sx as real
}

/// Where a square goes.
proof fn lemma_target<S: Real>(
    r: &Reintegration<S>,
    v: spec_fn(S) -> real,
    f: spec_fn(int, int, int, int) -> S,
    p: int,
    q: int,
    axis: int,
    c: int,
)
    requires
        exact_as(v),
        movable(r, v),
        0 <= p < r.sx,
        0 <= q < r.sy,
        0 <= axis < 2,
    ensures
        v(r.target(f, p, q, axis, c)) == carried_to(
            r,
            v,
            if axis == 0 {
                p
            } else {
                q
            },
            v(f(p, q, axis, c)),
        ),
{
    let ma = r.farthest();
    assert(v(ma) == r.dd as real - v(r.sigma));
    assert(v(neg_of(ma)) == -v(ma));
    let step = times_of(f(p, q, axis, c), r.dt);
    assert(v(clamp_of(step, neg_of(ma), ma)) == held(v(step), -v(ma), v(ma)));
    let k = if axis == 0 {
        p
    } else {
        q
    };
    assert(v(middle::<S>(p, q, axis)) == k as real + 1real / 2real);
    let hi = minus_of(count_of::<S>(r.sx), r.sigma);
    assert(v(hi) == r.sx as real - v(r.sigma));
}

/// A part of a side.
proof fn lemma_met<S: Real>(
    r: &Reintegration<S>,
    v: spec_fn(S) -> real,
    i: int,
    j: int,
    axis: int,
    to: S,
)
    requires
        exact_as(v),
        v(r.sigma) > 0real,
        0 <= i <= usize::MAX,
        0 <= j <= usize::MAX,
        0 <= axis < 2,
    ensures
        v(r.overlap(middle::<S>(i, j, axis), to)) == met(
            if axis == 0 {
                i
            } else {
                j
            },
            v(to),
            v(r.sigma),
        ),
{
    let k = if axis == 0 {
        i
    } else {
        j
    };
    assert(middle::<S>(i, j, axis) == middle::<S>(k, k, axis));
    lemma_overlap(r, v, k, axis, to);
    assert((k + 1) as real == k as real + 1real);
}

/// The share of a square's mass that a cell gets is the part of the square's area that lies
/// on the cell.
proof fn lemma_share<S: Real>(
    r: &Reintegration<S>,
    v: spec_fn(S) -> real,
    f: spec_fn(int, int, int, int) -> S,
    o: int,
    i: int,
    j: int,
    c: int,
)
    requires
        exact_as(v),
        movable(r, v),
        0 <= i < r.sx,
        0 <= j < r.sy,
    ensures
        ({
            let p = source(r.sx as int, r.offset_x(o), i);
            let q = source(r.sy as int, r.offset_y(o), j);
            let s = v(r.sigma);
            &&& 0 <= p < r.sx
            &&& 0 <= q < r.sy
            &&& v(r.share(f, o, i, j, c)) * (4real * s * s) == met(
                i,
                carried_to(r, v, p, v(f(p, q, 0, c))),
                s,
            ) * met(j, carried_to(r, v, q, v(f(p, q, 1, c))), s)
        }),
{
    let p = source(r.sx as int, r.offset_x(o), i);
    let q = source(r.sy as int, r.offset_y(o), j);
    let s = v(r.sigma);
    lemma_mod_bound(i - r.offset_x(o), r.sx as int);
    lemma_mod_bound(j - r.offset_y(o), r.sy as int);
    lemma_target(r, v, f, p, q, 0, c);
    lemma_target(r, v, f, p, q, 1, c);
    let tx = r.target(f, p, q, 0, c);
    let ty = r.target(f, p, q, 1, c);
    lemma_met(r, v, i, j, 0, tx);
    lemma_met(r, v, i, j, 1, ty);
    let whole = times_of(times_of(integer_of::<S>(4i64), r.sigma), r.sigma);
    assert(v(integer_of::<S>(4i64)) == 4real);
    assert(v(whole) == 4real * s * s);
    assert(4real * s * s > 0real) by (nonlinear_arith)
        requires
            s > 0real,
    ;
    let rows = r.overlap(middle::<S>(i, j, 0), tx);
    let cols = r.overlap(middle::<S>(i, j, 1), ty);
    lemma_quotient(v(rows) * v(cols), v(whole));
}

/// What a cell has after movement, by offsets.
proof fn lemma_advected<S: Real>(
    r: &Reintegration<S>,
    v: spec_fn(S) -> real,
    x: spec_fn(int, int, int) -> S,
    f: spec_fn(int, int, int, int) -> S,
    i: int,
    j: int,
    c: int,
)
    requires
        exact_as(v),
        movable(r, v),
        0 <= i < r.sx,
        0 <= j < r.sy,
    ensures
        ({
            let s = v(r.sigma);
            let n = r.sx as int;
            let side = (2 * r.dd + 1) as nat;
            v(r.advected(x, f, i, j, c)) * (4real * s * s) == rsum(
                |a: int|
                    rsum(
                        |b: int|
                            {
                                let p = (i - (a - r.dd)) % n;
                                let q = (j - (b - r.dd)) % n;
                                v(x(p, q, c)) * (met(i, carried_to(r, v, p, v(f(p, q, 0, c))), s)
                                    * met(j, carried_to(r, v, q, v(f(p, q, 1, c))), s))
                            },
                        side,
                    ),
                side,
            )
        }),
{
    let s = v(r.sigma);
    let n = r.sx as int;
    let side = (2 * r.dd + 1) as nat;
    let z = side as int;
    let m = side * side;
    let area = 4real * s * s;
    let g = |a: int, b: int|
        {
            let p = (i - (a - r.dd)) % n;
            let q = (j - (b - r.dd)) % n;
            v(x(p, q, c)) * (met(i, carried_to(r, v, p, v(f(p, q, 0, c))), s) * met(
                j,
                carried_to(r, v, q, v(f(p, q, 1, c))),
                s,
            ))
        };
    let brought = |o: int|
        v(
            x(
                source(r.sx as int, r.offset_x(o), i),
                source(r.sy as int, r.offset_y(o), j),
                c,
            ),
        ) * v(r.share(f, o, i, j, c));
    lemma_gathered(r, v, x, f, i, j, c, m);
    lemma_rsum_scale(area, brought, m);
    assert forall|o: int| 0 <= o < m implies area * #[trigger] brought(o) == g(o / z, o % z) by {
        lemma_share(r, v, f, o, i, j, c);
        let p = source(r.sx as int, r.offset_x(o), i);
        let q = source(r.sy as int, r.offset_y(o), j);
        lemma_assoc(v(x(p, q, c)), v(r.share(f, o, i, j, c)), area);
        lemma_assoc(area, v(x(p, q, c)) * v(r.share(f, o, i, j, c)), 1real);
    }
    lemma_rsum_same(|o: int| area * brought(o), |o: int| g(o / z, o % z), m);
    lemma_raster_sum(g, side, side);
    let rows = |a: int| rsum(|b: int| g(a, b), side);
    let want = |a: int|
        rsum(
            |b: int|
                {
                    let p = (i - (a - r.dd)) % n;
                    let q = (j - (b - r.dd)) % n;
                    v(x(p, q, c)) * (met(i, carried_to(r, v, p, v(f(p, q, 0, c))), s) * met(
                        j,
                        carried_to(r, v, q, v(f(p, q, 1, c))),
                        s,
                    ))
                },
            side,
        );
    assert forall|a: int| 0 <= a < side implies #[trigger] rows(a) == want(a) by {
        lemma_rsum_same(
            |b: int| g(a, b),
            |b: int|
                {
                    let p = (i - (a - r.dd)) % n;
                    let q = (j - (b - r.dd)) % n;
                    v(x(p, q, c)) * (met(i, carried_to(r, v, p, v(f(p, q, 0, c))), s) * met(
                        j,
                        carried_to(r, v, q, v(f(p, q, 1, c))),
                        s,
                    ))
                },
            side,
        );
    }
    lemma_rsum_same(rows, want, side);
    lemma_assoc(area, rsum(brought, m), 1real);
}

/// Movement carries squares: the mass of each cell within reach, on a torus of cells, is a
/// square as wide as twice `sigma`, which the flow carries for a time step; a cell gets of it
/// the part of its area that lies on the cell.
pub proof fn law_movement_carries_squares<S: Real>(
    r: &Reintegration<S>,
    v: spec_fn(S) -> real,
    x: &Field<S>,
    f: &VectorField<S>,
    out: Field<S>,
    i: int,
    j: int,
    c: int,
)
    requires
        exact_as(v),
        functional::<S>(),
        movable(r, v),
        call_ensures(Reintegration::<S>::advect, (r, x, f), out),
        out.has(i, j, c),
        out.rows == r.sx,
        out.cols == r.sy,
    ensures
        ({
            let s = v(r.sigma);
            let n = r.sx as int;
            let side = (2 * r.dd + 1) as nat;
            v(out.at(i, j, c)) * (4real * s * s) == rsum(
                |a: int|
                    rsum(
                        |b: int|
                            {
                                let p = (i - (a - r.dd)) % n;
                                let q = (j - (b - r.dd)) % n;
                                v(x.at(p, q, c)) * (met(
                                    i,
                                    carried_to(r, v, p, v(f.at(p, q, 0, c))),
                                    s,
                                ) * met(j, carried_to(r, v, q, v(f.at(p, q, 1, c))), s))
                            },
                        side,
                    ),
                side,
            )
        }),
{
    let n = r.sx as int;
    let s = v(r.sigma);
    let side = (2 * r.dd + 1) as nat;
    let xf = field_fn(x);
    let ff = vectors_fn(f);
    lemma_advected(r, v, xf, ff, i, j, c);
    let want = |a: int|
        rsum(
            |b: int|
                {
                    let p = (i - (a - r.dd)) % n;
                    let q = (j - (b - r.dd)) % n;
                    v(x.at(p, q, c)) * (met(i, carried_to(r, v, p, v(f.at(p, q, 0, c))), s) * met(
                        j,
                        carried_to(r, v, q, v(f.at(p, q, 1, c))),
                        s,
                    ))
                },
            side,
        );
    let have = |a: int|
        rsum(
            |b: int|
                {
                    let p = (i - (a - r.dd)) % n;
                    let q = (j - (b - r.dd)) % n;
                    v(xf(p, q, c)) * (met(i, carried_to(r, v, p, v(ff(p, q, 0, c))), s) * met(
                        j,
                        carried_to(r, v, q, v(ff(p, q, 1, c))),
                        s,
                    ))
                },
            side,
        );
    assert forall|a: int| 0 <= a < side implies #[trigger] have(a) == want(a) by {
        lemma_rsum_same(
            |b: int|
                {
                    let p = (i - (a - r.dd)) % n;
                    let q = (j - (b - r.dd)) % n;
                    v(xf(p, q, c)) * (met(i, carried_to(r, v, p, v(ff(p, q, 0, c))), s) * met(
                        j,
                        carried_to(r, v, q, v(ff(p, q, 1, c))),
                        s,
                    ))
                },
            |b: int|
                {
                    let p = (i - (a - r.dd)) % n;
                    let q = (j - (b - r.dd)) % n;
                    v(x.at(p, q, c)) * (met(i, carried_to(r, v, p, v(f.at(p, q, 0, c))), s) * met(
                        j,
                        carried_to(r, v, q, v(f.at(p, q, 1, c))),
                        s,
                    ))
                },
            side,
        );
    }
    lemma_rsum_same(have, want, side);
}

/// A step carries the mass of every channel along the flow of the world, as squares: each
/// cell gets of each square within reach the part of its area that lies on the cell.
pub proof fn law_step_carries_squares<'a, S: Real, T: Transform<S>>(
    sf: &StepFn<'a, S>,
    v: spec_fn(S) -> real,
    state: &State<S>,
    params: &CompiledParams<S>,
    planner: &Fft2DPlanner<T>,
    next: State<S>,
    i: int,
    j: int,
    c: int,
)
    requires
        exact_as(v),
        functional::<S>(),
        steady(&planner.planner),
        sf.wf(),
        movable(&sf.config.mover(), v),
        call_ensures(StepFn::<'a, S>::step::<T>, (sf, state, params, planner), next),
        next.A.has(i, j, c),
    ensures
        ({
            let cfg = sf.config;
            let r = cfg.mover();
            let s = v(cfg.sigma);
            let n = cfg.SX as int;
            let side = (2 * cfg.dd + 1) as nat;
            let f = flow_of(&planner.planner, cfg, params, field_fn(&state.A));
            &&& r.dt == cfg.dt
            &&& r.wall == (cfg.border@ == "wall"@)
            &&& v(next.A.at(i, j, c)) * (4real * s * s) == rsum(
                |a: int|
                    rsum(
                        |b: int|
                            {
                                let p = (i - (a - cfg.dd)) % n;
                                let q = (j - (b - cfg.dd)) % n;
                                v(field_fn(&state.A)(p, q, c)) * (met(
                                    i,
                                    carried_to(&r, v, p, v(f(p, q, 0, c))),
                                    s,
                                ) * met(j, carried_to(&r, v, q, v(f(p, q, 1, c))), s))
                            },
                        side,
                    ),
                side,
            )
        }),
{
    let cfg = sf.config;
    let r = cfg.mover();
    let f = flow_of(&planner.planner, cfg, params, field_fn(&state.A));
    lemma_advected(&r, v, field_fn(&state.A), f, i, j, c);
    let s = v(cfg.sigma);
    let n = cfg.SX as int;
    let side = (2 * cfg.dd + 1) as nat;
    assert(r.wall == is_wall(cfg.border@));
    let have = |a: int|
        rsum(
            |b: int|
                {
                    let p = (i - (a - r.dd)) % (r.sx as int);
                    let q = (j - (b - r.dd)) % (r.sx as int);
                    v(field_fn(&state.A)(p, q, c)) * (met(
                        i,
                        carried_to(&r, v, p, v(f(p, q, 0, c))),
                        v(r.sigma),
                    ) * met(j, carried_to(&r, v, q, v(f(p, q, 1, c))), v(r.sigma)))
                },
            side,
        );
    let want = |a: int|
        rsum(
            |b: int|
                {
                    let p = (i - (a - cfg.dd)) % n;
                    let q = (j - (b - cfg.dd)) % n;
                    v(field_fn(&state.A)(p, q, c)) * (met(
                        i,
                        carried_to(&r, v, p, v(f(p, q, 0, c))),
                        s,
                    ) * met(j, carried_to(&r, v, q, v(f(p, q, 1, c))), s))
                },
            side,
        );
    lemma_rsum_same(have, want, side);
}

/// The mass of all channels that an offset brings to a cell.
proof fn lemma_brought<S: Real>(
    rp: &ReintegrationP<S>,
    v: spec_fn(S) -> real,
    x: spec_fn(int, int, int) -> S,
    f: spec_fn(int, int, int, int) -> S,
    depth: nat,
    o: int,
    i: int,
    j: int,
)
    requires
        exact_as(v),
    ensures
        v(rp.brought(x, f, depth as int, o, i, j)) == rsum(
            |c: int|
                v(
                    x(
                        source(rp.base.sx as int, rp.base.offset_x(o), i),
                        source(rp.base.sy as int, rp.base.offset_y(o), j),
                        c,
                    ),
                ) * v(rp.base.share(f, o, i, j, c)),
            depth,
        ),
{
    let p = source(rp.base.sx as int, rp.base.offset_x(o), i);
    let q = source(rp.base.sy as int, rp.base.offset_y(o), j);
    let s = Seq::new(depth, |c: int| times_of(x(p, q, c), rp.base.share(f, o, i, j, c)));
    law_sum_by_lanes_is_the_sum(v, s);
    assert(rp.brought(x, f, depth as int, o, i, j) == unrolled_sum(s)) by {
        assert(s =~= Seq::new(
            depth,
            |c: int|
                times_of(
                    x(
                        source(rp.base.sx as int, rp.base.offset_x(o), i),
                        source(rp.base.sy as int, rp.base.offset_y(o), j),
                        c,
                    ),
                    rp.base.share(f, o, i, j, c),
                ),
        ));
    }
    lemma_rsum_same(
        list_vals(v, s),
        |c: int|
            v(
                x(
                    source(rp.base.sx as int, rp.base.offset_x(o), i),
                    source(rp.base.sy as int, rp.base.offset_y(o), j),
                    c,
                ),
            ) * v(rp.base.share(f, o, i, j, c)),
        depth,
    );
}

/// The mass that arrives is what all offsets bring.
proof fn lemma_arrived<S: Real>(
    rp: &ReintegrationP<S>,
    v: spec_fn(S) -> real,
    x: spec_fn(int, int, int) -> S,
    f: spec_fn(int, int, int, int) -> S,
    depth: nat,
    i: int,
    j: int,
)
    requires
        exact_as(v),
    ensures
        v(rp.arrived(x, f, depth as int, i, j)) == rsum(
            |o: int| v(rp.brought(x, f, depth as int, o, i, j)),
            (rp.base.side_cells() * rp.base.side_cells()) as nat,
        ),
{
    let m = (rp.base.side_cells() * rp.base.side_cells()) as nat;
    let s = Seq::new(depth, |c: int| rp.base.advected(x, f, i, j, c));
    law_sum_by_lanes_is_the_sum(v, s);
    let g = |o: int, c: int|
        v(
            x(
                source(rp.base.sx as int, rp.base.offset_x(o), i),
                source(rp.base.sy as int, rp.base.offset_y(o), j),
                c,
            ),
        ) * v(rp.base.share(f, o, i, j, c));
    let columns = |c: int| rsum(|o: int| g(o, c), m);
    assert forall|c: int| 0 <= c < depth implies #[trigger] list_vals(v, s)(c) == columns(c) by {
        lemma_gathered(&rp.base, v, x, f, i, j, c, m);
        lemma_rsum_same(
            |o: int|
                v(
                    x(
                        source(rp.base.sx as int, rp.base.offset_x(o), i),
                        source(rp.base.sy as int, rp.base.offset_y(o), j),
                        c,
                    ),
                ) * v(rp.base.share(f, o, i, j, c)),
            |o: int| g(o, c),
            m,
        );
    }
    lemma_rsum_same(list_vals(v, s), columns, depth);
    lemma_rsum_swap(g, m, depth);
    let rows = |o: int| rsum(|c: int| g(o, c), depth);
    let brought = |o: int| v(rp.brought(x, f, depth as int, o, i, j));
    assert forall|o: int| 0 <= o < m implies #[trigger] rows(o) == brought(o) by {
        lemma_brought(rp, v, x, f, depth, o, i, j);
        lemma_rsum_same(
            |c: int| g(o, c),
            |c: int|
                v(
                    x(
                        source(rp.base.sx as int, rp.base.offset_x(o), i),
                        source(rp.base.sy as int, rp.base.offset_y(o), j),
                        c,
                    ),
                ) * v(rp.base.share(f, o, i, j, c)),
            depth,
        );
    }
    lemma_rsum_same(rows, brought, m);
}

/// What parameters and their weights add up to.
proof fn lemma_carried<S: Real>(
    rp: &ReintegrationP<S>,
    v: spec_fn(S) -> real,
    x: spec_fn(int, int, int) -> S,
    h: spec_fn(int, int, int) -> S,
    f: spec_fn(int, int, int, int) -> S,
    depth: int,
    i: int,
    j: int,
    k: int,
    n: nat,
)
    requires
        exact_as(v),
    ensures
        v(rp.carried(x, h, f, depth, i, j, k, n)) == rsum(
            |o: int|
                v(
                    h(
                        source(rp.base.sx as int, rp.base.offset_x(o), i),
                        source(rp.base.sy as int, rp.base.offset_y(o), j),
                        k,
                    ),
                ) * v(rp.weight(x, f, depth, o, i, j)),
            n,
        ),
        v(rp.counted(x, f, depth, i, j, n)) == rsum(
            |o: int| v(rp.weight(x, f, depth, o, i, j)),
            n,
        ),
    decreases n,
{
    if n > 0 {
        lemma_carried(rp, v, x, h, f, depth, i, j, k, (n - 1) as nat);
    } else {
        assert(v(integer_of::<S>(0i64)) == 0real);
    }
}

/// Where parameters meet, each counts as much as the mass that it comes with: `mass(o)` is
/// the mass of all channels that offset `o` brings to the cell, the parts of their squares
/// that lie on it. By mass, the result times all that mass (and a tiny bit) is the sum of the
/// parameters times the mass that brings them; by exponentials, the exponential of the mass
/// less one stands in for the mass; otherwise parameters are added up by the last channel's
/// share.
pub proof fn law_parameters_meet_by_mass<S: Real>(
    rp: &ReintegrationP<S>,
    v: spec_fn(S) -> real,
    ex: spec_fn(real) -> real,
    x: &Field<S>,
    h: &Field<S>,
    f: &VectorField<S>,
    out: (Field<S>, Field<S>),
    i: int,
    j: int,
    k: int,
    mass: spec_fn(int) -> real,
)
    requires
        exact_decimals(v),
        exact_exp(v, ex),
        functional::<S>(),
        movable(&rp.base, v),
        call_ensures(ReintegrationP::<S>::advect, (rp, x, h, f), out),
        out.1.has(i, j, k),
        out.1.rows == rp.base.sx,
        out.1.cols == rp.base.sy,
        forall|o: int|
            0 <= o < (2 * rp.base.dd + 1) * (2 * rp.base.dd + 1) ==> {
                let s = v(rp.base.sigma);
                let n = rp.base.sx as int;
                let side = 2 * rp.base.dd + 1;
                let p = (i - (o / side - rp.base.dd)) % n;
                let q = (j - (o % side - rp.base.dd)) % n;
                &&& #[trigger] mass(o) >= 0real
                &&& mass(o) * (4real * s * s) == rsum(
                    |c: int|
                        v(x.at(p, q, c)) * (met(
                            i,
                            carried_to(&rp.base, v, p, v(f.at(p, q, 0, c))),
                            s,
                        ) * met(j, carried_to(&rp.base, v, q, v(f.at(p, q, 1, c))), s)),
                    f.depth as nat,
                )
            },
    ensures
        ({
            let n = rp.base.sx as int;
            let side = 2 * rp.base.dd + 1;
            let m = (side * side) as nat;
            let s = v(rp.base.sigma);
            let from = |o: int|
                v(
                    h.at(
                        (i - (o / side - rp.base.dd)) % n,
                        (j - (o % side - rp.base.dd)) % n,
                        k,
                    ),
                );
            let tiny = 1real / 10000000000real;
            let got = v(out.1.at(i, j, k));
            &&& rp.mix == Mix::Avg ==> got * (rsum(mass, m) + tiny) == rsum(
                |o: int| from(o) * mass(o),
                m,
            )
            &&& rp.mix == Mix::Softmax ==> got * (rsum(|o: int| ex(mass(o)) - 1real, m) + tiny)
                == rsum(|o: int| from(o) * (ex(mass(o)) - 1real), m)
            &&& rp.mix == Mix::Plain && f.depth > 0 ==> got * (4real * s * s) == rsum(
                |o: int|
                    {
                        let p = (i - (o / side - rp.base.dd)) % n;
                        let q = (j - (o % side - rp.base.dd)) % n;
                        let c = f.depth - 1;
                        from(o) * (met(i, carried_to(&rp.base, v, p, v(f.at(p, q, 0, c))), s)
                            * met(j, carried_to(&rp.base, v, q, v(f.at(p, q, 1, c))), s))
                    },
                m,
            )
        }),
{
    let r = &rp.base;
    let n = r.sx as int;
    let side = 2 * r.dd + 1;
    let m = (side * side) as nat;
    let s = v(r.sigma);
    let area = 4real * s * s;
    let xf = field_fn(x);
    let hf = field_fn(h);
    let ff = vectors_fn(f);
    let depth = f.depth as nat;
    let from = |o: int|
        v(h.at((i - (o / side - r.dd)) % n, (j - (o % side - r.dd)) % n, k));
    let tiny = 1real / 10000000000real;
    assert(area > 0real) by (nonlinear_arith)
        requires
            area == 4real * s * s,
            s > 0real,
    ;
    lemma_tens();
    let small = decimal_of::<S>(1i64, 10u32);
    assert(v(small) * tens(10) == 1real);
    assert(v(small) == tiny);
    assert(v(integer_of::<S>(1i64)) == 1real);
    lemma_carried(rp, v, xf, hf, ff, depth as int, i, j, k, m);
    let weight = |o: int| v(rp.weight(xf, ff, depth as int, o, i, j));
    let brought = |o: int| v(rp.brought(xf, ff, depth as int, o, i, j));
    assert forall|o: int| 0 <= o < m implies #[trigger] brought(o) == mass(o) by {
        let p = (i - (o / side - r.dd)) % n;
        let q = (j - (o % side - r.dd)) % n;
        lemma_brought(rp, v, xf, ff, depth, o, i, j);
        let terms = |c: int|
            v(
                xf(
                    source(rp.base.sx as int, rp.base.offset_x(o), i),
                    source(rp.base.sy as int, rp.base.offset_y(o), j),
                    c,
                ),
            ) * v(rp.base.share(ff, o, i, j, c));
        lemma_rsum_scale(area, terms, depth);
        let want = |c: int|
            v(x.at(p, q, c)) * (met(i, carried_to(&rp.base, v, p, v(f.at(p, q, 0, c))), s) * met(
                j,
                carried_to(&rp.base, v, q, v(f.at(p, q, 1, c))),
                s,
            ));
        assert forall|c: int| 0 <= c < depth implies area * #[trigger] terms(c) == want(c) by {
            lemma_share(r, v, ff, o, i, j, c);
            lemma_assoc(v(x.at(p, q, c)), v(r.share(ff, o, i, j, c)), area);
            lemma_assoc(area, v(x.at(p, q, c)) * v(r.share(ff, o, i, j, c)), 1real);
        }
        lemma_rsum_same(|c: int| area * terms(c), want, depth);
        assert(mass(o) * area == area * rsum(terms, depth));
        lemma_assoc(area, rsum(terms, depth), 1real);
        lemma_cancel(mass(o), rsum(terms, depth), area);
    }
    let summed = |o: int|
        v(
            hf(
                source(rp.base.sx as int, rp.base.offset_x(o), i),
                source(rp.base.sy as int, rp.base.offset_y(o), j),
                k,
            ),
        ) * v(rp.weight(xf, ff, depth as int, o, i, j));
    let got = v(out.1.at(i, j, k));
    if rp.mix == Mix::Avg {
        lemma_arrived(rp, v, xf, ff, depth, i, j);
        lemma_rsum_same(brought, mass, m);
        lemma_rsum_nonnegative(mass, m);
        let want = |o: int| from(o) * mass(o);
        assert forall|o: int| 0 <= o < m implies #[trigger] summed(o) == want(o) by {
            assert(brought(o) == mass(o));
        }
        lemma_rsum_same(summed, want, m);
        lemma_quotient(rsum(want, m), rsum(mass, m) + tiny);
    } else if rp.mix == Mix::Softmax {
        let count = |o: int| ex(mass(o)) - 1real;
        assert forall|o: int| 0 <= o < m implies #[trigger] weight(o) == count(o) && count(o)
            >= 0real by {
            assert(brought(o) == mass(o));
            assert(mass(o) > 0real ==> ex(0real) < ex(mass(o)));
        }
        lemma_rsum_same(weight, count, m);
        lemma_rsum_nonnegative(count, m);
        let want = |o: int| from(o) * (ex(mass(o)) - 1real);
        assert forall|o: int| 0 <= o < m implies #[trigger] summed(o) == want(o) by {
            assert(weight(o) == count(o));
        }
        lemma_rsum_same(summed, want, m);
        lemma_quotient(rsum(want, m), rsum(count, m) + tiny);
    } else if depth > 0 {
        let c = depth - 1;
        let want = |o: int|
            {
                let p = (i - (o / side - rp.base.dd)) % n;
                let q = (j - (o % side - rp.base.dd)) % n;
                let c = f.depth - 1;
                from(o) * (met(i, carried_to(&rp.base, v, p, v(f.at(p, q, 0, c))), s) * met(
                    j,
                    carried_to(&rp.base, v, q, v(f.at(p, q, 1, c))),
                    s,
                ))
            };
        lemma_rsum_scale(area, summed, m);
        assert forall|o: int| 0 <= o < m implies area * #[trigger] summed(o) == want(o) by {
            lemma_share(r, v, ff, o, i, j, c);
            lemma_assoc(from(o), v(r.share(ff, o, i, j, c)), area);
            lemma_assoc(area, from(o) * v(r.share(ff, o, i, j, c)), 1real);
        }
        lemma_rsum_same(|o: int| area * summed(o), want, m);
        lemma_assoc(area, rsum(summed, m), 1real);
    }
}

/// A step of a world whose mass carries parameters moves the mass as a step without them
/// does, along its own flow, and the parameters as that movement does.
pub proof fn law_step_with_parameters_moves<'a, S: Real, T: Transform<S>>(
    sf: &StepFnP<'a, S>,
    state: &StateP<S>,
    params: &CompiledParams<S>,
    planner: &Fft2DPlanner<T>,
    next: StateP<S>,
    f: &VectorField<S>,
    out: (Field<S>, Field<S>),
    i: int,
    j: int,
    c: int,
    k: int,
)
    requires
        functional::<S>(),
        steady(&planner.planner),
        sf.wf(),
        call_ensures(StepFnP::<'a, S>::step::<T>, (sf, state, params, planner), next),
        call_ensures(
            ReintegrationP::<S>::advect,
            (&sf.config.mover(), &state.A, &state.P, f),
            out,
        ),
        f.of(sf.config.base.SX as int, sf.config.base.SY as int, 2, sf.config.base.C as int),
        forall|p: int, q: int, axis: int, d: int|
            f.has(p, q, axis, d) ==> #[trigger] f.at(p, q, axis, d) == flow_p_of(
                &planner.planner,
                &sf.config.base,
                params,
                field_fn(&state.A),
                field_fn(&state.P),
            )(p, q, axis, d),
        next.A.has(i, j, c),
        next.P.has(i, j, k),
    ensures
        next.A.at(i, j, c) == out.0.at(i, j, c),
        next.P.at(i, j, k) == out.1.at(i, j, k),
{
    let cfg = &sf.config.base;
    let rp = sf.config.mover();
    let a = field_fn(&state.A);
    let h = field_fn(&state.P);
    let g = flow_p_of(&planner.planner, cfg, params, a, h);
    let ff = vectors_fn(f);
    let side = rp.base.side_cells();
    assert forall|p: int, q: int, axis: int, d: int|
        0 <= p < cfg.SX && 0 <= q < cfg.SY && 0 <= axis < 2 && 0 <= d < cfg.C implies #[trigger] ff(
        p,
        q,
        axis,
        d,
    ) == g(p, q, axis, d) by {
        assert(f.has(p, q, axis, d));
    }
    rp.base.lemma_gathered_same(a, ff, g, i, j, c, (side * side) as nat);
    rp.lemma_advected_p_same(a, h, ff, g, cfg.C as int, i, j, k);
    assert(out.0.has(i, j, c));
    assert(out.1.has(i, j, k));
}

/// What movement is prepared with: it is between walls where the border is called a wall, and
/// parameters are mixed by mass or by exponentials where the mix is called `avg` or `softmax`.
pub proof fn law_movement_is_prepared_as_named<S: Real>(
    sx: usize,
    sy: usize,
    dt: S,
    dd: i32,
    sigma: S,
    border: &String,
    hidden_dims: usize,
    mix: &String,
    r: Reintegration<S>,
    p: ReintegrationP<S>,
)
    requires
        call_ensures(build_reintegration::<S>, (sx, sy, dt, dd, sigma, border), r),
        call_ensures(
            build_reintegration_p::<S>,
            (sx, sy, dt, dd, sigma, border, hidden_dims, mix),
            p,
        ),
    ensures
        r.sx == sx && r.sy == sy && r.dt == dt && r.dd == dd && r.sigma == sigma,
        r.wall <==> border@ == "wall"@,
        p.base == r,
        p.hidden_dims == hidden_dims,
        p.mix == Mix::Avg <==> mix@ == "avg"@,
        p.mix == Mix::Softmax <==> mix@ == "softmax"@,
{
    reveal_strlit("avg");
    reveal_strlit("softmax");
    assert("avg"@.len() != "softmax"@.len());
}

} // verus!
