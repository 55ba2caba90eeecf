//! Movement keeps mass that stays on the grid.

use crate::flow::kernels::CompiledParams;
use crate::flow::reintegration::Reintegration;
use crate::flow::spectrum::Transform;
use crate::flow::step::{Config, State, StepFn};
use crate::scalar::Real;
use vstd::prelude::*;

verus! {

use crate::exact::{
    exact_as, held, lemma_nonnegative, lemma_rsum2_same, lemma_rsum2_torus, lemma_rsum_exchange,
    lemma_rsum_nonnegative, lemma_rsum_same, lemma_rsum_scale, lemma_rsum_table, lemma_rsum_zero, rsum, rsum2,
};
use crate::flow::reintegration::{field_fn, is_wall, middle};
use crate::flow::shift::source;
use crate::flow::spectrum::steady;
use crate::flow::step::{flow_of, flow_p_of, stepped};
use crate::scalar::{clamp_of, count_of, functional, integer_of, minus_of, neg_of, times_of};
use vstd::arithmetic::div_mod::{
    lemma_add_mod_noop, lemma_fundamental_div_mod_converse, lemma_mod_bound, lemma_small_mod,
};

/// Where a clamped line stands: at `lo` before it, at `hi` behind it, in step between.
pub open spec fn ramp(t: int, mu: real, s: real) -> real {
    held(t as real, mu - s, mu + s)
}

/// The part of a side that lies on a cell, as a difference along the side.
pub proof fn lemma_overlap<S: Real>(r: &Reintegration<S>, v: spec_fn(S) -> real, k: int, axis: int, to: S)
    requires
        exact_as(v),
        v(r.sigma) > 0real,
        0 <= k <= usize::MAX,
    ensures
        v(r.overlap(middle::<S>(k, k, axis), to)) == ramp(k + 1, v(to), v(r.sigma)) - ramp(
            k,
            v(to),
            v(r.sigma),
        ),
{
    let s = v(r.sigma);
    let mu = v(to);
    let two = integer_of::<S>(2i64);
    assert(v(two) == 2real);
    assert(v(times_of(two, r.sigma)) == 2real * s);
    assert(v(middle::<S>(k, k, axis)) == k as real + 1real / 2real);
}

/// The parts of a side on the cells within reach add up to the whole side.
proof fn lemma_side<S: Real>(
    r: &Reintegration<S>,
    v: spec_fn(S) -> real,
    p: int,
    axis: int,
    to: S,
    m: nat,
)
    requires
        exact_as(v),
        r.wf(),
        v(r.sigma) > 0real,
        r.side_cells() <= r.sx,
        0 <= p < r.sx,
        m <= r.side_cells(),
        v(r.sigma) <= v(to),
        v(to) + v(r.sigma) <= r.sx as real,
        (p - r.dd) as real <= v(to) - v(r.sigma),
        v(to) + v(r.sigma) <= (p + r.dd + 1) as real,
    ensures
        rsum(
            |a: int|
                v(
                    r.overlap(
                        middle::<S>(
                            (p + a - r.dd) % (r.sx as int),
                            (p + a - r.dd) % (r.sx as int),
                            axis,
                        ),
                        to,
                    ),
                ),
            m,
        ) == ramp(p + m - r.dd, v(to), v(r.sigma)) - ramp(p - r.dd, v(to), v(r.sigma)),
    decreases m,
{
    let n = r.sx as int;
    let f = |a: int|
        v(r.overlap(middle::<S>((p + a - r.dd) % n, (p + a - r.dd) % n, axis), to));
    if m > 0 {
        lemma_side(r, v, p, axis, to, (m - 1) as nat);
        let a = m - 1;
        let k = p + a - r.dd;
        let d = k % n;
        lemma_mod_bound(k, n);
        lemma_overlap(r, v, d, axis, to);
        assert(f(a) == ramp(d + 1, v(to), v(r.sigma)) - ramp(d, v(to), v(r.sigma)));
        if k < 0 {
            lemma_fundamental_div_mod_converse(k, n, -1, k + n);
        } else if k >= n {
            lemma_fundamental_div_mod_converse(k, n, 1, k - n);
        } else {
            lemma_small_mod(k as nat, n as nat);
        }
    }
}

/// Whether every square of a channel stays on the grid where the flow takes it.
pub open spec fn stays<S: Real>(
    r: &Reintegration<S>,
    v: spec_fn(S) -> real,
    f: spec_fn(int, int, int, int) -> S,
    c: int,
) -> bool {
    forall|p: int, q: int, axis: int|
        0 <= p < r.sx && 0 <= q < r.sx && 0 <= axis < 2 ==> v(r.sigma) <= v(
            #[trigger] r.target(f, p, q, axis, c),
        ) <= r.sx as real - v(r.sigma)
}

/// Whether mass moves in a way that can keep it: as squares that fit into the grid, to
/// cells within a reach that does not meet itself around the grid.
pub open spec fn keeps<S: Real>(r: &Reintegration<S>, v: spec_fn(S) -> real) -> bool {
    &&& r.wf()
    &&& r.side_cells() <= r.sx
    &&& 0real < v(r.sigma)
    &&& v(r.sigma) <= r.dd as real
    &&& 2real * v(r.sigma) <= (r.dd + 1) as real
    &&& 2real * v(r.sigma) <= r.sx as real
}

/// A square that moved lies on the grid, within reach.
proof fn lemma_target<S: Real>(
    r: &Reintegration<S>,
    v: spec_fn(S) -> real,
    f: spec_fn(int, int, int, int) -> S,
    p: int,
    q: int,
    axis: int,
    c: int,
)
    requires
        exact_as(v),
        keeps(r, v),
        r.wall || stays(r, v, f, c),
        0 <= axis < 2,
        0 <= p < r.sx,
        0 <= q < r.sx,
    ensures
        ({
            let to = v(r.target(f, p, q, axis, c));
            let s = v(r.sigma);
            let at = if axis == 0 {
                p
            } else {
                q
            };
            &&& s <= to
            &&& to + s <= r.sx as real
            &&& (at - r.dd) as real <= to - s
            &&& to + s <= (at + r.dd + 1) as real
        }),
{
    let s = v(r.sigma);
    let ma = r.farthest();
    assert(v(ma) == r.dd as real - s);
    assert(v(neg_of(ma)) == s - r.dd as real);
    let at = if axis == 0 {
        p
    } else {
        q
    };
    assert(v(middle::<S>(p, q, axis)) == at as real + 1real / 2real);
    let step = clamp_of(times_of(f(p, q, axis, c), r.dt), neg_of(ma), ma);
    assert(s - r.dd as real <= v(step) <= r.dd as real - s);
    assert(v(minus_of(count_of::<S>(r.sx), r.sigma)) == r.sx as real - s);
}

/// All shares of a cell's mass add up to one.
proof fn lemma_shares<S: Real>(
    r: &Reintegration<S>,
    v: spec_fn(S) -> real,
    f: spec_fn(int, int, int, int) -> S,
    p: int,
    q: int,
    c: int,
)
    requires
        exact_as(v),
        keeps(r, v),
        r.wall || stays(r, v, f, c),
        0 <= p < r.sx,
        0 <= q < r.sx,
    ensures
        rsum(
            |o: int|
                v(
                    r.share(
                        f,
                        o,
                        (p + r.offset_x(o)) % (r.sx as int),
                        (q + r.offset_y(o)) % (r.sx as int),
                        c,
                    ),
                ),
            (r.side_cells() * r.side_cells()) as nat,
        ) == 1real,
{
    let n = r.sx as int;
    let side = r.side_cells() as nat;
    let w = side as int;
    let s = v(r.sigma);
    let to0 = r.target(f, p, q, 0, c);
    let to1 = r.target(f, p, q, 1, c);
    let a = |x: int| v(r.overlap(middle::<S>((p + x - r.dd) % n, (p + x - r.dd) % n, 0), to0));
    let b = |y: int| v(r.overlap(middle::<S>((q + y - r.dd) % n, (q + y - r.dd) % n, 1), to1));
    lemma_target(r, v, f, p, q, 0, c);
    lemma_target(r, v, f, p, q, 1, c);
    lemma_side(r, v, p, 0, to0, side);
    lemma_side(r, v, q, 1, to1, side);
    assert(rsum(a, side) == 2real * s);
    assert(rsum(b, side) == 2real * s);
    lemma_rsum_table(a, b, side, side);
    let area = times_of(times_of(integer_of::<S>(4i64), r.sigma), r.sigma);
    let k = v(area);
    assert(v(times_of(integer_of::<S>(4i64), r.sigma)) == 4real * s);
    assert(k == (4real * s) * s);
    assert((4real * s) * s == (2real * s) * (2real * s)) by (nonlinear_arith);
    assert(k > 0real) by (nonlinear_arith)
        requires
            k == (4real * s) * s,
            s > 0real,
    ;
    let g = |o: int| a(o / w) * b(o % w);
    let shares = |o: int|
        v(r.share(f, o, (p + r.offset_x(o)) % n, (q + r.offset_y(o)) % n, c));
    let inv = 1real / k;
    let scaled = |o: int| inv * g(o);
    assert forall|o: int| 0 <= o < w * w implies #[trigger] shares(o) == scaled(o) by {
        let i = (p + r.offset_x(o)) % n;
        let j = (q + r.offset_y(o)) % n;
        lemma_source_back(n, r.offset_x(o), p);
        lemma_source_back(n, r.offset_y(o), q);
        assert(p + o / w - r.dd == p + r.offset_x(o));
        assert(q + o % w - r.dd == q + r.offset_y(o));
        assert(middle::<S>(i, j, 0) == middle::<S>(i, i, 0));
        assert(middle::<S>(i, j, 1) == middle::<S>(j, j, 1));
        let rows = r.overlap(middle::<S>(i, j, 0), to0);
        let cols = r.overlap(middle::<S>(i, j, 1), to1);
        assert(v(rows) == a(o / w));
        assert(v(cols) == b(o % w));
        let x = v(rows) * v(cols);
        assert(shares(o) == x / k);
        assert(x / k == (1real / k) * x) by (nonlinear_arith)
            requires
                k > 0real,
        ;
    }
    lemma_rsum_same(shares, scaled, (w * w) as nat);
    lemma_rsum_scale(inv, g, (w * w) as nat);
    let t = rsum(g, (w * w) as nat);
    assert(t == k);
    assert((1real / k) * k == 1real) by (nonlinear_arith)
        requires
            k > 0real,
    ;
}

/// What moved on comes from where it was.
proof fn lemma_source_back(n: int, d: int, p: int)
    requires
        n > 0,
        0 <= p < n,
    ensures
        source(n, d, (p + d) % n) == p,
        0 <= (p + d) % n < n,
{
    lemma_mod_bound(p + d, n);
    vstd::arithmetic::div_mod::lemma_sub_mod_noop(p + d, d, n);
    vstd::arithmetic::div_mod::lemma_sub_mod_noop((p + d) % n, d, n);
    lemma_small_mod(((p + d) % n) as nat, n as nat);
    lemma_small_mod(p as nat, n as nat);
}

/// Where mass comes from, it goes to.
proof fn lemma_source_forth(n: int, d: int, i: int)
    requires
        n > 0,
        0 <= i < n,
    ensures
        (source(n, d, i) + d) % n == i,
        0 <= source(n, d, i) < n,
{
    lemma_mod_bound(i - d, n);
    lemma_add_mod_noop(i - d, d, n);
    lemma_add_mod_noop((i - d) % n, d, n);
    lemma_small_mod(((i - d) % n) as nat, n as nat);
    lemma_small_mod(i as nat, n as nat);
}

/// What a cell gathers, as a sum over offsets.
pub proof fn lemma_gathered<S: Real>(
    r: &Reintegration<S>,
    v: spec_fn(S) -> real,
    x: spec_fn(int, int, int) -> S,
    f: spec_fn(int, int, int, int) -> S,
    i: int,
    j: int,
    c: int,
    m: nat,
)
    requires
        exact_as(v),
    ensures
        v(r.gathered(x, f, i, j, c, m)) == rsum(
            |o: int|
                v(
                    x(
                        source(r.sx as int, r.offset_x(o), i),
                        source(r.sy as int, r.offset_y(o), j),
                        c,
                    ),
                ) * v(r.share(f, o, i, j, c)),
            m,
        ),
    decreases m,
{
    if m > 0 {
        lemma_gathered(r, v, x, f, i, j, c, (m - 1) as nat);
    } else {
        assert(v(integer_of::<S>(0i64)) == 0real);
    }
}

/// Movement between walls, and any other that leaves all squares on the grid, keeps the
/// mass of a channel: what the cells lose, other cells gain, wherever arithmetic does not
/// round.
pub proof fn law_movement_keeps_mass<S: Real>(
    r: &Reintegration<S>,
    v: spec_fn(S) -> real,
    x: spec_fn(int, int, int) -> S,
    f: spec_fn(int, int, int, int) -> S,
    c: int,
)
    requires
        exact_as(v),
        keeps(r, v),
        r.wall || stays(r, v, f, c),
    ensures
        rsum2(|i: int, j: int| v(r.advected(x, f, i, j, c)), r.sx as nat) == rsum2(
            |i: int, j: int| v(x(i, j, c)),
            r.sx as nat,
        ),
{
    let n = r.sx as nat;
    let z = n as int;
    let side = r.side_cells();
    let m = (side * side) as nat;
    let after = |i: int, j: int| v(r.advected(x, f, i, j, c));
    // What offset `o` brings to a cell.
    let brought = |o: int, i: int, j: int|
        v(x(source(z, r.offset_x(o), i), source(z, r.offset_y(o), j), c)) * v(
            r.share(f, o, i, j, c),
        );
    // What offset `o` takes from a cell.
    let taken = |o: int, p: int, q: int|
        v(x(p, q, c)) * v(
            r.share(f, o, (p + r.offset_x(o)) % z, (q + r.offset_y(o)) % z, c),
        );
    assert forall|i: int, j: int| 0 <= i < n && 0 <= j < n implies #[trigger] after(i, j) == rsum(
        |o: int| brought(o, i, j),
        m,
    ) by {
        lemma_gathered(r, v, x, f, i, j, c, m);
        lemma_rsum_same(
            |o: int|
                v(
                    x(
                        source(r.sx as int, r.offset_x(o), i),
                        source(r.sy as int, r.offset_y(o), j),
                        c,
                    ),
                ) * v(r.share(f, o, i, j, c)),
            |o: int| brought(o, i, j),
            m,
        );
    }
    lemma_rsum2_same(after, |i: int, j: int| rsum(|o: int| brought(o, i, j), m), n);
    lemma_rsum_exchange(brought, n, m);
    lemma_rsum_exchange(taken, n, m);
    let b = |o: int| rsum2(|i: int, j: int| brought(o, i, j), n);
    let t = |o: int| rsum2(|p: int, q: int| taken(o, p, q), n);
    assert forall|o: int| 0 <= o < m implies #[trigger] b(o) == t(o) by {
        let g = |p: int, q: int| taken(o, p, q);
        lemma_rsum2_torus(g, n, r.offset_x(o), r.offset_y(o));
        let moved = |i: int, j: int| g((i - r.offset_x(o)) % z, (j - r.offset_y(o)) % z);
        assert forall|i: int, j: int| 0 <= i < n && 0 <= j < n implies #[trigger] moved(i, j)
            == brought(o, i, j) by {
            lemma_source_forth(z, r.offset_x(o), i);
            lemma_source_forth(z, r.offset_y(o), j);
        }
        lemma_rsum2_same(moved, |i: int, j: int| brought(o, i, j), n);
    }
    lemma_rsum_same(b, t, m);
    let before = |p: int, q: int| v(x(p, q, c));
    assert forall|p: int, q: int| 0 <= p < n && 0 <= q < n implies #[trigger] before(p, q) == rsum(
        |o: int| taken(o, p, q),
        m,
    ) by {
        let shares = |o: int|
            v(r.share(f, o, (p + r.offset_x(o)) % z, (q + r.offset_y(o)) % z, c));
        let mass = v(x(p, q, c));
        lemma_shares(r, v, f, p, q, c);
        lemma_rsum_scale(mass, shares, m);
        lemma_rsum_same(|o: int| taken(o, p, q), |o: int| mass * shares(o), m);
        assert(rsum(shares, m) == 1real);
        assert(mass * 1real == mass) by (nonlinear_arith);
    }
    lemma_rsum2_same(before, |p: int, q: int| rsum(|o: int| taken(o, p, q), m), n);
}

/// Whether a world moves mass in a way that can keep it.
pub open spec fn world_keeps<S: Real>(cfg: &Config<S>, v: spec_fn(S) -> real) -> bool {
    &&& cfg.wf()
    &&& keeps(&cfg.mover(), v)
}

/// A step keeps the mass of every channel of a walled world, and of every channel whose
/// squares stay on the grid, wherever arithmetic does not round.
pub proof fn law_step_keeps_mass<S: Real, T: Transform<S>>(
    t: &T,
    cfg: &Config<S>,
    p: &CompiledParams<S>,
    v: spec_fn(S) -> real,
    a: spec_fn(int, int, int) -> S,
    c: int,
)
    requires
        exact_as(v),
        world_keeps(cfg, v),
        is_wall(cfg.border@) || stays(&cfg.mover(), v, flow_of(t, cfg, p, a), c),
    ensures
        rsum2(|i: int, j: int| v(stepped(t, cfg, p, a, i, j, c)), cfg.SX as nat) == rsum2(
            |i: int, j: int| v(a(i, j, c)),
            cfg.SX as nat,
        ),
{
    let r = cfg.mover();
    let f = flow_of(t, cfg, p, a);
    law_movement_keeps_mass(&r, v, a, f, c);
    lemma_rsum2_same(
        |i: int, j: int| v(stepped(t, cfg, p, a, i, j, c)),
        |i: int, j: int| v(r.advected(a, f, i, j, c)),
        cfg.SX as nat,
    );
}

/// A step keeps the mass of a world that carries parameters as well: of every channel
/// between walls, and of every channel whose squares stay on the grid, wherever arithmetic
/// does not round.
pub proof fn law_step_with_parameters_keeps_mass<S: Real, T: Transform<S>>(
    t: &T,
    cfg: &Config<S>,
    p: &CompiledParams<S>,
    v: spec_fn(S) -> real,
    a: spec_fn(int, int, int) -> S,
    h: spec_fn(int, int, int) -> S,
    c: int,
)
    requires
        exact_as(v),
        world_keeps(cfg, v),
        is_wall(cfg.border@) || stays(&cfg.mover(), v, flow_p_of(t, cfg, p, a, h), c),
    ensures
        ({
            let flow = flow_p_of(t, cfg, p, a, h);
            rsum2(
                |i: int, j: int| v(cfg.mover().advected(a, flow, i, j, c)),
                cfg.SX as nat,
            ) == rsum2(|i: int, j: int| v(a(i, j, c)), cfg.SX as nat)
        }),
{
    law_movement_keeps_mass(&cfg.mover(), v, a, flow_p_of(t, cfg, p, a, h), c);
}

/// The mass of a channel.
pub open spec fn channel_total<S: Real>(
    v: spec_fn(S) -> real,
    state: &State<S>,
    c: int,
    n: nat,
) -> real {
    rsum2(|i: int, j: int| v(state.A.at(i, j, c)), n)
}

/// However long a walled world runs, every channel keeps its mass, wherever arithmetic does
/// not round.
pub proof fn law_run_keeps_mass<'a, S: Real, T: Transform<S>>(
    f: &StepFn<'a, S>,
    t: &T,
    params: &CompiledParams<S>,
    v: spec_fn(S) -> real,
    states: Seq<State<S>>,
    c: int,
)
    requires
        functional::<S>(),
        steady(t),
        exact_as(v),
        world_keeps(f.config, v),
        is_wall(f.config.border@),
        0 <= c < f.config.C,
        states.len() > 0,
        forall|n: int|
            0 <= n < states.len() - 1 ==> f.leads(t, params, &states[n], #[trigger] &states[n + 1]),
    ensures
        channel_total(v, &states.last(), c, f.config.SX as nat) == channel_total(
            v,
            &states[0],
            c,
            f.config.SX as nat,
        ),
    decreases states.len(),
{
    if states.len() > 1 {
        let cfg = f.config;
        let before = states.drop_last();
        let k = states.len() - 2;
        assert forall|n: int| 0 <= n < before.len() - 1 implies f.leads(
            t,
            params,
            &before[n],
            #[trigger] &before[n + 1],
        ) by {
            assert(f.leads(t, params, &states[n], &states[n + 1]));
        }
        law_run_keeps_mass(f, t, params, v, before, c);
        assert(f.leads(t, params, &states[k], &states[k + 1]));
        let a = field_fn(&states[k].A);
        law_step_keeps_mass(t, cfg, params, v, a, c);
        lemma_rsum2_same(
            |i: int, j: int| v(states[k + 1].A.at(i, j, c)),
            |i: int, j: int| v(stepped(t, cfg, params, a, i, j, c)),
            cfg.SX as nat,
        );
        lemma_rsum2_same(
            |i: int, j: int| v(states[k].A.at(i, j, c)),
            |i: int, j: int| v(a(i, j, c)),
            cfg.SX as nat,
        );
    }
}

/// No share is negative.
proof fn lemma_share_nonnegative<S: Real>(
    r: &Reintegration<S>,
    v: spec_fn(S) -> real,
    f: spec_fn(int, int, int, int) -> S,
    o: int,
    i: int,
    j: int,
    c: int,
)
    requires
        exact_as(v),
        v(r.sigma) > 0real,
    ensures
        v(r.share(f, o, i, j, c)) >= 0real,
{
    let s = v(r.sigma);
    let si = source(r.sx as int, r.offset_x(o), i);
    let sj = source(r.sy as int, r.offset_y(o), j);
    let rows = r.overlap(middle::<S>(i, j, 0), r.target(f, si, sj, 0, c));
    let cols = r.overlap(middle::<S>(i, j, 1), r.target(f, si, sj, 1, c));
    let four = integer_of::<S>(4i64);
    assert(v(integer_of::<S>(0i64)) == 0real);
    assert(v(integer_of::<S>(1i64)) == 1real);
    assert(v(integer_of::<S>(2i64)) == 2real);
    assert(v(four) == 4real);
    assert(v(times_of(integer_of::<S>(2i64), r.sigma)) == 2real * s);
    let whole = times_of(times_of(four, r.sigma), r.sigma);
    assert(v(whole) == (4real * s) * s);
    assert((4real * s) * s > 0real) by (nonlinear_arith)
        requires
            s > 0real,
    ;
    lemma_nonnegative(v(rows), v(cols));
    lemma_nonnegative(v(rows) * v(cols), v(whole));
    assert(v(times_of(rows, cols)) == v(rows) * v(cols));
}

/// Movement makes no negative mass: a channel none of whose cells is negative has none
/// afterwards, wherever arithmetic does not round.
pub proof fn law_movement_makes_no_negative_mass<S: Real>(
    r: &Reintegration<S>,
    v: spec_fn(S) -> real,
    x: spec_fn(int, int, int) -> S,
    f: spec_fn(int, int, int, int) -> S,
    i: int,
    j: int,
    c: int,
)
    requires
        exact_as(v),
        v(r.sigma) > 0real,
        r.sx > 0,
        r.sy > 0,
        forall|p: int, q: int|
            0 <= p < r.sx && 0 <= q < r.sy ==> v(#[trigger] x(p, q, c)) >= 0real,
    ensures
        v(r.advected(x, f, i, j, c)) >= 0real,
{
    let m = (r.side_cells() * r.side_cells()) as nat;
    let brought = |o: int|
        v(
            x(
                source(r.sx as int, r.offset_x(o), i),
                source(r.sy as int, r.offset_y(o), j),
                c,
            ),
        ) * v(r.share(f, o, i, j, c));
    lemma_gathered(r, v, x, f, i, j, c, m);
    assert forall|o: int| 0 <= o < m implies #[trigger] brought(o) >= 0real by {
        let si = source(r.sx as int, r.offset_x(o), i);
        let sj = source(r.sy as int, r.offset_y(o), j);
        lemma_mod_bound(i - r.offset_x(o), r.sx as int);
        lemma_mod_bound(j - r.offset_y(o), r.sy as int);
        lemma_share_nonnegative(r, v, f, o, i, j, c);
        lemma_nonnegative(v(x(si, sj, c)), v(r.share(f, o, i, j, c)));
    }
    lemma_rsum_nonnegative(brought, m);
}

/// Where there is no mass, movement brings none: a channel without mass has none
/// afterwards, wherever arithmetic does not round.
pub proof fn law_nothing_moves_to_nothing<S: Real>(
    r: &Reintegration<S>,
    v: spec_fn(S) -> real,
    x: spec_fn(int, int, int) -> S,
    f: spec_fn(int, int, int, int) -> S,
    i: int,
    j: int,
    c: int,
)
    requires
        exact_as(v),
        r.sx > 0,
        r.sy > 0,
        forall|p: int, q: int|
            0 <= p < r.sx && 0 <= q < r.sy ==> v(#[trigger] x(p, q, c)) == 0real,
    ensures
        v(r.advected(x, f, i, j, c)) == 0real,
{
    let m = (r.side_cells() * r.side_cells()) as nat;
    let brought = |o: int|
        v(
            x(
                source(r.sx as int, r.offset_x(o), i),
                source(r.sy as int, r.offset_y(o), j),
                c,
            ),
        ) * v(r.share(f, o, i, j, c));
    lemma_gathered(r, v, x, f, i, j, c, m);
    assert forall|o: int| 0 <= o < m implies #[trigger] brought(o) == 0real by {
        lemma_mod_bound(i - r.offset_x(o), r.sx as int);
        lemma_mod_bound(j - r.offset_y(o), r.sy as int);
        let s = v(r.share(f, o, i, j, c));
        assert(0real * s == 0real) by (nonlinear_arith);
    }
    lemma_rsum_zero(brought, m);
}

/// A step makes no negative mass, with parameters or without: a channel none of whose cells
/// is negative has none afterwards, and one without mass stays without, wherever arithmetic
/// does not round.
pub proof fn law_step_makes_no_negative_mass<S: Real, T: Transform<S>>(
    t: &T,
    cfg: &Config<S>,
    p: &CompiledParams<S>,
    v: spec_fn(S) -> real,
    a: spec_fn(int, int, int) -> S,
    h: spec_fn(int, int, int) -> S,
    i: int,
    j: int,
    c: int,
)
    requires
        exact_as(v),
        v(cfg.mover().sigma) > 0real,
        cfg.SX > 0,
        cfg.SY > 0,
        forall|p: int, q: int|
            0 <= p < cfg.SX && 0 <= q < cfg.SY ==> v(#[trigger] a(p, q, c)) >= 0real,
    ensures
        v(stepped(t, cfg, p, a, i, j, c)) >= 0real,
        v(cfg.mover().advected(a, flow_p_of(t, cfg, p, a, h), i, j, c)) >= 0real,
        (forall|p: int, q: int|
            0 <= p < cfg.SX && 0 <= q < cfg.SY ==> v(#[trigger] a(p, q, c)) == 0real) ==> v(
            stepped(t, cfg, p, a, i, j, c),
        ) == 0real && v(cfg.mover().advected(a, flow_p_of(t, cfg, p, a, h), i, j, c)) == 0real,
{
    let r = cfg.mover();
    let f = flow_of(t, cfg, p, a);
    let g = flow_p_of(t, cfg, p, a, h);
    law_movement_makes_no_negative_mass(&r, v, a, f, i, j, c);
    law_movement_makes_no_negative_mass(&r, v, a, g, i, j, c);
    if forall|p: int, q: int|
        0 <= p < cfg.SX && 0 <= q < cfg.SY ==> v(#[trigger] a(p, q, c)) == 0real {
        law_nothing_moves_to_nothing(&r, v, a, f, i, j, c);
        law_nothing_moves_to_nothing(&r, v, a, g, i, j, c);
    }
}

} // verus!
