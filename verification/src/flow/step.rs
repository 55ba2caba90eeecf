//! Steps of Flow Lenia: from potentials to flow to movement.

use crate::complex::Complex;
use crate::field::{sum, Field, VectorField};
use crate::flow::gradient::sobel;
use crate::flow::growth_at;
use crate::flow::kernels::CompiledParams;
use crate::flow::reintegration::{
    build_reintegration, build_reintegration_p, Reintegration, ReintegrationP,
};
use crate::flow::spectrum::{Fft2DPlanner, Transform};
use crate::scalar::Real;
use vstd::prelude::*;

verus! {

use crate::complex::ctimes_of;
use crate::field::unrolled_sum;
use crate::flow::gradient::{channel_fn, lemma_conv3_same, nabla};
use crate::flow::growth_of;
use crate::flow::reintegration::{field_fn, is_wall, mix_of, vectors_fn};
use crate::flow::spectrum::{
    channel_of, lemma_plane_transformed_same, plane_transformed, steady,
};
use crate::scalar::{
    clamp_of, count_of, functional, integer_of, minus_of, neg_of, over_of, plus_of, powf_of,
    powi_of, times_of,
};

/// A world: its extent, its kernels' channels, and how mass moves.
#[allow(non_snake_case)]
pub struct Config<S> {
    pub SX: usize,
    pub SY: usize,
    pub nb_k: usize,
    pub C: usize,
    /// The channel that each kernel reads.
    pub c0: Vec<usize>,
    /// The kernels that feed each channel.
    pub c1: Vec<Vec<usize>>,
    pub dt: S,
    pub dd: i32,
    pub sigma: S,
    /// How sharply crowding sets in.
    pub n: S,
    /// The mass at which crowding rules.
    pub theta_A: S,
    pub border: String,
}

/// The mass of a world.
#[allow(non_snake_case)]
pub struct State<S> {
    pub A: Field<S>,
}

/// A world whose mass carries parameters.
pub struct ConfigP<S> {
    pub base: Config<S>,
    pub mix: String,
}

/// The mass of a world and the parameters that it carries.
#[allow(non_snake_case)]
pub struct StateP<S> {
    pub A: Field<S>,
    pub P: Field<S>,
}

impl<S: Real> Config<S> {
    /// Whether the world is square, its lists name kernels and channels that exist, and its
    /// mass can be moved.
    pub open spec fn wf(&self) -> bool {
        &&& self.SX == self.SY
        &&& self.SX * self.SY <= usize::MAX
        &&& self.c0@.len() >= self.nb_k
        &&& forall|k: int| 0 <= k < self.nb_k ==> #[trigger] self.c0@[k] < self.C
        &&& self.c1@.len() >= self.C
        &&& forall|c: int, i: int|
            0 <= c < self.C && 0 <= i < self.c1@[c]@.len() ==> #[trigger] self.c1@[c]@[i]
                < self.nb_k
        &&& self.mover().wf()
    }

    /// How mass moves in this world.
    pub open spec fn mover(&self) -> Reintegration<S> {
        Reintegration {
            sx: self.SX,
            sy: self.SY,
            dt: self.dt,
            dd: self.dd,
            sigma: self.sigma,
            wall: is_wall(self.border@),
        }
    }

    /// Whether compiled parameters are made for this world.
    pub open spec fn suits(&self, p: &CompiledParams<S>) -> bool {
        &&& p.fK.of(self.SX as int, self.SY as int, self.nb_k as int)
        &&& p.m@.len() >= self.nb_k
        &&& p.s@.len() >= self.nb_k
        &&& p.h@.len() >= self.nb_k
    }
}

/// A channel as a complex plane.
pub open spec fn complex_fn<S: Real>(a: spec_fn(int, int, int) -> S, c: int) -> spec_fn(
    int,
    int,
) -> Complex<S> {
    |i: int, j: int| Complex { re: a(i, j, c), im: integer_of::<S>(0i64) }
}

/// The spectrum of kernel `k`'s channel times the spectrum of the kernel.
pub open spec fn product_fn<S: Real, T: Transform<S>>(
    t: &T,
    cfg: &Config<S>,
    p: &CompiledParams<S>,
    a: spec_fn(int, int, int) -> S,
    k: int,
) -> spec_fn(int, int) -> Complex<S> {
    |i: int, j: int|
        ctimes_of(
            p.fK.at(i, j, k),
            plane_transformed(
                t,
                false,
                complex_fn(a, cfg.c0@[k] as int),
                cfg.SX as nat,
                cfg.SY as nat,
            )(i, j),
        )
}

/// The potential of kernel `k`: its channel convolved with it.
pub open spec fn potential<S: Real, T: Transform<S>>(
    t: &T,
    cfg: &Config<S>,
    p: &CompiledParams<S>,
    a: spec_fn(int, int, int) -> S,
    i: int,
    j: int,
    k: int,
) -> S {
    over_of(
        plane_transformed(
            t,
            true,
            product_fn(t, cfg, p, a, k),
            cfg.SX as nat,
            cfg.SY as nat,
        )(i, j).re,
        count_of::<S>((cfg.SX * cfg.SY) as usize),
    )
}

/// The growth that kernel `k` asks for, weighted.
pub open spec fn grown<S: Real, T: Transform<S>>(
    t: &T,
    cfg: &Config<S>,
    p: &CompiledParams<S>,
    a: spec_fn(int, int, int) -> S,
    w: spec_fn(int, int, int) -> S,
) -> spec_fn(int, int, int) -> S {
    |i: int, j: int, k: int|
        times_of(growth_of(potential(t, cfg, p, a, i, j, k), p.m@[k], p.s@[k]), w(i, j, k))
}

/// The first `n` kernels of a list, added up.
pub open spec fn fed<S: Real>(
    list: Seq<usize>,
    g: spec_fn(int, int, int) -> S,
    i: int,
    j: int,
    n: nat,
) -> S
    decreases n,
{
    if n == 0 {
        integer_of::<S>(0i64)
    } else {
        plus_of(fed(list, g, i, j, (n - 1) as nat), g(i, j, list[n - 1] as int))
    }
}

/// The affinity of channel `c`: the growth of the kernels that feed it.
pub open spec fn affinity<S: Real, T: Transform<S>>(
    t: &T,
    cfg: &Config<S>,
    p: &CompiledParams<S>,
    a: spec_fn(int, int, int) -> S,
    w: spec_fn(int, int, int) -> S,
    c: int,
) -> spec_fn(int, int) -> S {
    |i: int, j: int| fed(cfg.c1@[c]@, grown(t, cfg, p, a, w), i, j, cfg.c1@[c]@.len())
}

/// The mass of all channels of a cell.
pub open spec fn mass<S: Real>(a: spec_fn(int, int, int) -> S, channels: nat) -> spec_fn(
    int,
    int,
) -> S {
    |i: int, j: int| unrolled_sum(Seq::new(channels, |c: int| a(i, j, c)))
}

/// How much crowding counts at a mass.
pub open spec fn crowding<S: Real>(cfg: &Config<S>, x: S) -> S {
    clamp_of(
        powf_of(over_of(x, cfg.theta_A), cfg.n),
        integer_of::<S>(0i64),
        integer_of::<S>(1i64),
    )
}

/// How much crowding counts at a mass that carries parameters: half the mass, squared.
pub open spec fn crowding_p<S: Real>(x: S) -> S {
    clamp_of(
        powi_of(over_of(x, integer_of::<S>(2i64)), 2i32),
        integer_of::<S>(0i64),
        integer_of::<S>(1i64),
    )
}

/// Flow up the affinity, turned down the mass as crowding counts.
pub open spec fn turned<S: Real>(up: S, down: S, alpha: S) -> S {
    minus_of(times_of(up, minus_of(integer_of::<S>(1i64), alpha)), times_of(down, alpha))
}

/// The weights of kernels that weigh the same in every cell.
pub open spec fn weights_fn<S: Real>(p: &CompiledParams<S>) -> spec_fn(int, int, int) -> S {
    |i: int, j: int, k: int| p.h@[k]
}

/// The flow of a world.
pub open spec fn flow_of<S: Real, T: Transform<S>>(
    t: &T,
    cfg: &Config<S>,
    p: &CompiledParams<S>,
    a: spec_fn(int, int, int) -> S,
) -> spec_fn(int, int, int, int) -> S {
    let w = weights_fn(p);
    let h = cfg.SX as int;
    |i: int, j: int, axis: int, c: int|
        turned(
            nabla(affinity(t, cfg, p, a, w, c), h, h, i, j, axis),
            nabla(mass(a, cfg.C as nat), h, h, i, j, axis),
            crowding(cfg, a(i, j, c)),
        )
}

/// The flow of a world whose mass carries parameters, held to how far mass can move.
pub open spec fn flow_p_of<S: Real, T: Transform<S>>(
    t: &T,
    cfg: &Config<S>,
    p: &CompiledParams<S>,
    a: spec_fn(int, int, int) -> S,
    w: spec_fn(int, int, int) -> S,
) -> spec_fn(int, int, int, int) -> S {
    let ma = cfg.mover().farthest();
    let h = cfg.SX as int;
    |i: int, j: int, axis: int, c: int|
        clamp_of(
            turned(
                nabla(affinity(t, cfg, p, a, w, c), h, h, i, j, axis),
                nabla(mass(a, cfg.C as nat), h, h, i, j, axis),
                crowding_p(a(i, j, c)),
            ),
            neg_of(ma),
            ma,
        )
}

/// The potentials of all kernels.
fn potentials<S: Real, T: Transform<S>>(
    cfg: &Config<S>,
    a: &Field<S>,
    params: &CompiledParams<S>,
    planner: &Fft2DPlanner<T>,
) -> (out: Field<S>)
    requires
        cfg.wf(),
        cfg.suits(params),
        a.of(cfg.SX as int, cfg.SY as int, cfg.C as int),
    ensures
        out.of(cfg.SX as int, cfg.SY as int, cfg.nb_k as int),
        functional::<S>() && steady(&planner.planner) ==> forall|i: int, j: int, k: int|
            out.has(i, j, k) ==> #[trigger] out.at(i, j, k) == potential(
                &planner.planner,
                cfg,
                params,
                field_fn(a),
                i,
                j,
                k,
            ),
{
    let complex_at = |i: usize, j: usize, c: usize| -> (x: Complex<S>)
        requires
            a.has(i as int, j as int, c as int),
        ensures
            functional::<S>() ==> x == complex_fn(field_fn(a), c as int)(i as int, j as int),
        { Complex::from_re(a.get(i, j, c)) };
    let complex = Field::from(cfg.SX, cfg.SY, cfg.C, complex_at);
    let spectra = planner.fft2(&complex);
    let sp = &spectra;
    let product_at = |i: usize, j: usize, k: usize| -> (x: Complex<S>)
        requires
            params.fK.has(i as int, j as int, k as int),
        ensures
            functional::<S>() ==> x == ctimes_of(
                params.fK.at(i as int, j as int, k as int),
                sp.at(i as int, j as int, cfg.c0@[k as int] as int),
            ),
        {
            assert(cfg.c0@[k as int] < cfg.C);
            params.fK.get(i, j, k).times(sp.get(i, j, cfg.c0[k]))
        };
    let product = Field::from(cfg.SX, cfg.SY, cfg.nb_k, product_at);
    let back = planner.ifft2(&product);
    let b = &back;
    let real_at = |i: usize, j: usize, k: usize| -> (x: S)
        requires
            b.has(i as int, j as int, k as int),
        ensures
            x == b.at(i as int, j as int, k as int).re,
        { b.get(i, j, k).re };
    let out = Field::from(cfg.SX, cfg.SY, cfg.nb_k, real_at);
    proof {
        if functional::<S>() && steady(&planner.planner) {
            let t = &planner.planner;
            let af = field_fn(a);
            let h = cfg.SX as nat;
            assert forall|i: int, j: int, k: int| out.has(i, j, k) implies #[trigger] out.at(i, j, k)
                == potential(t, cfg, params, af, i, j, k) by {
                assert(back.has(i, j, k));
                let pf = channel_of(&product, k);
                let qf = product_fn(t, cfg, params, af, k);
                assert forall|p: int, q: int| 0 <= p < h && 0 <= q < h implies #[trigger] pf(p, q)
                    == qf(p, q) by {
                    assert(product.has(p, q, k));
                    assert(params.fK.has(p, q, k));
                    assert(call_ensures(
                        product_at,
                        (p as usize, q as usize, k as usize),
                        product.at(p, q, k),
                    ));
                    let c = cfg.c0@[k] as int;
                    assert(cfg.c0@[k] < cfg.C);
                    assert(spectra.has(p, q, c));
                    let cf = channel_of(&complex, c);
                    let df = complex_fn(af, c);
                    assert forall|u: int, v: int| 0 <= u < h && 0 <= v < h implies #[trigger] cf(
                        u,
                        v,
                    ) == df(u, v) by {
                        assert(complex.has(u, v, c));
                        assert(call_ensures(
                            complex_at,
                            (u as usize, v as usize, c as usize),
                            complex.at(u, v, c),
                        ));
                    }
                    lemma_plane_transformed_same(t, false, cf, df, h, h, p, q);
                }
                lemma_plane_transformed_same(t, true, pf, qf, h, h, i, j);
            }
        }
    }
    out
}

/// The growth of the first `n` kernels of a list, added up.
fn feed<S: Real>(list: &Vec<usize>, g: &Field<S>, i: usize, j: usize) -> (x: S)
    requires
        g.wf(),
        i < g.rows,
        j < g.cols,
        forall|l: int| 0 <= l < list@.len() ==> #[trigger] list@[l] < g.depth,
    ensures
        functional::<S>() ==> x == fed(list@, field_fn(g), i as int, j as int, list@.len()),
{
    let mut x = S::integer(0);
    let mut l: usize = 0;
    while l < list.len()
        invariant
            l <= list@.len(),
            g.wf(),
            i < g.rows,
            j < g.cols,
            forall|l: int| 0 <= l < list@.len() ==> #[trigger] list@[l] < g.depth,
            functional::<S>() ==> x == fed(list@, field_fn(g), i as int, j as int, l as nat),
        decreases list@.len() - l,
    {
        assert(list@[l as int] < g.depth);
        x = x.plus(g.get(i, j, list[l]));
        l = l + 1;
    }
    x
}

/// What kernels feed depends on nothing but their growth.
proof fn lemma_fed_same<S: Real>(
    list: Seq<usize>,
    g: spec_fn(int, int, int) -> S,
    h: spec_fn(int, int, int) -> S,
    i: int,
    j: int,
    n: nat,
)
    requires
        n <= list.len(),
        forall|l: int| 0 <= l < list.len() ==> #[trigger] g(i, j, list[l] as int) == h(
            i,
            j,
            list[l] as int,
        ),
    ensures
        fed(list, g, i, j, n) == fed(list, h, i, j, n),
    decreases n,
{
    if n > 0 {
        lemma_fed_same(list, g, h, i, j, (n - 1) as nat);
        assert(g(i, j, list[n - 1] as int) == h(i, j, list[n - 1] as int));
    }
}

/// The gradients of the affinity of all channels and of the mass.
fn slopes<S: Real, T: Transform<S>>(
    cfg: &Config<S>,
    a: &Field<S>,
    grown_field: &Field<S>,
    Ghost(t): Ghost<&T>,
    Ghost(p): Ghost<&CompiledParams<S>>,
    Ghost(w): Ghost<spec_fn(int, int, int) -> S>,
) -> (out: (VectorField<S>, VectorField<S>))
    requires
        cfg.wf(),
        a.of(cfg.SX as int, cfg.SY as int, cfg.C as int),
        grown_field.of(cfg.SX as int, cfg.SY as int, cfg.nb_k as int),
        functional::<S>() && steady(t) ==> forall|i: int, j: int, k: int|
            grown_field.has(i, j, k) ==> #[trigger] grown_field.at(i, j, k) == grown(
                t,
                cfg,
                p,
                field_fn(a),
                w,
            )(i, j, k),
    ensures
        out.0.of(cfg.SX as int, cfg.SY as int, 2, cfg.C as int),
        functional::<S>() && steady(t) ==> forall|i: int, j: int, axis: int, c: int|
            out.0.has(i, j, axis, c) ==> #[trigger] out.0.at(i, j, axis, c) == nabla(
                affinity(t, cfg, p, field_fn(a), w, c),
                cfg.SX as int,
                cfg.SX as int,
                i,
                j,
                axis,
            ),
        out.1.of(cfg.SX as int, cfg.SY as int, 2, 1),
        functional::<S>() ==> forall|i: int, j: int, axis: int, c: int|
            out.1.has(i, j, axis, c) ==> #[trigger] out.1.at(i, j, axis, c) == nabla(
                mass(field_fn(a), cfg.C as nat),
                cfg.SX as int,
                cfg.SX as int,
                i,
                j,
                axis,
            ),
{
    let fed_at = |i: usize, j: usize, c: usize| -> (x: S)
        requires
            a.has(i as int, j as int, c as int),
        ensures
            functional::<S>() ==> x == fed(
                cfg.c1@[c as int]@,
                field_fn(grown_field),
                i as int,
                j as int,
                cfg.c1@[c as int]@.len(),
            ),
        {
            assert forall|l: int| 0 <= l < cfg.c1@[c as int]@.len() implies
                #[trigger] cfg.c1@[c as int]@[l] < grown_field.depth by {}
            feed(&cfg.c1[c], grown_field, i, j)
        };
    let affinities = Field::from(cfg.SX, cfg.SY, cfg.C, fed_at);
    let nabla_u = sobel(&affinities);
    let mass_at = |i: usize, j: usize, c: usize| -> (x: S)
        requires
            i < cfg.SX,
            j < cfg.SY,
        ensures
            functional::<S>() ==> x == mass(field_fn(a), cfg.C as nat)(i as int, j as int),
        {
            proof {
                let lane = Seq::new(cfg.C as nat, |c: int| field_fn(a)(i as int, j as int, c));
                assert(a.cells@[i as int]@[j as int]@ =~= lane);
            }
            sum(a.cells[i][j].as_slice())
        };
    let masses = Field::from(cfg.SX, cfg.SY, 1, mass_at);
    let nabla_a = sobel(&masses);
    proof {
        if functional::<S>() {
            let h = cfg.SX as int;
            let af = field_fn(a);
            assert forall|i: int, j: int, axis: int, c: int|
                steady(t) && nabla_u.has(i, j, axis, c) implies
                #[trigger] nabla_u.at(i, j, axis, c) == nabla(
                affinity(t, cfg, p, af, w, c),
                h,
                h,
                i,
                j,
                axis,
            ) by {
                let x = channel_fn(&affinities, c);
                let y = affinity(t, cfg, p, af, w, c);
                assert forall|u: int, v: int| 0 <= u < h && 0 <= v < h implies #[trigger] x(u, v)
                    == y(u, v) by {
                    assert(affinities.has(u, v, c));
                    assert(a.has(u, v, c));
                    assert(call_ensures(
                        fed_at,
                        (u as usize, v as usize, c as usize),
                        affinities.at(u, v, c),
                    ));
                    let list = cfg.c1@[c]@;
                    let g = field_fn(grown_field);
                    let k = grown(t, cfg, p, af, w);
                    assert forall|l: int| 0 <= l < list.len() implies #[trigger] g(
                        u,
                        v,
                        list[l] as int,
                    ) == k(u, v, list[l] as int) by {
                        assert(cfg.c1@[c]@[l] < cfg.nb_k);
                        assert(grown_field.has(u, v, list[l] as int));
                        assert(grown_field.at(u, v, list[l] as int) == k(u, v, list[l] as int));
                    }
                    lemma_fed_same(list, g, k, u, v, list.len());
                }
                let kf = if axis == 0 {
                    crate::flow::gradient::ky_of::<S>()
                } else {
                    crate::flow::gradient::kx_of::<S>()
                };
                lemma_conv3_same(x, y, h, h, kf, kf, i, j, 9);
            }
            assert forall|i: int, j: int, axis: int, c: int| nabla_a.has(i, j, axis, c) implies
                #[trigger] nabla_a.at(i, j, axis, c) == nabla(
                mass(af, cfg.C as nat),
                h,
                h,
                i,
                j,
                axis,
            ) by {
                let x = channel_fn(&masses, c);
                let y = mass(af, cfg.C as nat);
                assert forall|u: int, v: int| 0 <= u < h && 0 <= v < h implies #[trigger] x(u, v)
                    == y(u, v) by {
                    assert(masses.has(u, v, c));
                    assert(call_ensures(
                        mass_at,
                        (u as usize, v as usize, c as usize),
                        masses.at(u, v, c),
                    ));
                }
                let kf = if axis == 0 {
                    crate::flow::gradient::ky_of::<S>()
                } else {
                    crate::flow::gradient::kx_of::<S>()
                };
                lemma_conv3_same(x, y, h, h, kf, kf, i, j, 9);
            }
        }
    }
    (nabla_u, nabla_a)
}

/// A way to step a world.
pub struct StepFn<'a, S> {
    pub config: &'a Config<S>,
    pub advect: Reintegration<S>,
}

/// Prepares to step a world.
pub fn build_step_fn<'a, S: Real>(config: &'a Config<S>) -> (f: StepFn<'a, S>)
    ensures
        f.config == config,
        f.advect == config.mover(),
{
    let advect = build_reintegration(
        config.SX,
        config.SY,
        config.dt,
        config.dd,
        config.sigma,
        &config.border,
    );
    StepFn { config, advect }
}

/// The mass of a world one step on.
pub open spec fn stepped<S: Real, T: Transform<S>>(
    t: &T,
    cfg: &Config<S>,
    p: &CompiledParams<S>,
    a: spec_fn(int, int, int) -> S,
    i: int,
    j: int,
    c: int,
) -> S {
    cfg.mover().advected(a, flow_of(t, cfg, p, a), i, j, c)
}

impl<'a, S: Real> StepFn<'a, S> {
    /// Whether the step was prepared for its world.
    pub open spec fn wf(&self) -> bool {
        self.config.wf() && self.advect == self.config.mover()
    }

    /// Whether one step leads from one state to another.
    pub open spec fn leads<T: Transform<S>>(
        &self,
        t: &T,
        params: &CompiledParams<S>,
        from: &State<S>,
        to: &State<S>,
    ) -> bool {
        &&& to.A.of(self.config.SX as int, self.config.SY as int, self.config.C as int)
        &&& functional::<S>() && steady(t) ==> forall|i: int, j: int, c: int|
            to.A.has(i, j, c) ==> #[trigger] to.A.at(i, j, c) == stepped(
                t,
                self.config,
                params,
                field_fn(&from.A),
                i,
                j,
                c,
            )
    }

    /// One step: potentials, growth, affinity, flow, movement.
    pub fn step<T: Transform<S>>(
        &self,
        state: &State<S>,
        params: &CompiledParams<S>,
        planner: &Fft2DPlanner<T>,
    ) -> (next: State<S>)
        requires
            self.wf(),
            self.config.suits(params),
            state.A.of(self.config.SX as int, self.config.SY as int, self.config.C as int),
        ensures
            self.leads(&planner.planner, params, state, &next),
    {
        let cfg = self.config;
        let a = &state.A;
        let ghost t = &planner.planner;
        let ghost af = field_fn(a);
        let ghost w = weights_fn(params);
        let u = potentials(cfg, a, params, planner);
        let us = &u;
        let grown_at = |i: usize, j: usize, k: usize| -> (x: S)
            requires
                us.has(i as int, j as int, k as int),
            ensures
                functional::<S>() && steady(t) ==> x == grown(t, cfg, params, field_fn(a), weights_fn(params))(
                    i as int,
                    j as int,
                    k as int,
                ),
            { growth_at(us.get(i, j, k), params.m[k], params.s[k]).times(params.h[k]) };
        let grown_field = Field::from(cfg.SX, cfg.SY, cfg.nb_k, grown_at);
        let nablas = slopes::<S, T>(cfg, a, &grown_field, Ghost(t), Ghost(params), Ghost(w));
        let nabla_u = &nablas.0;
        let nabla_a = &nablas.1;
        let flow_at = |i: usize, j: usize, axis: usize, c: usize| -> (x: S)
            requires
                nabla_u.has(i as int, j as int, axis as int, c as int),
            ensures
                functional::<S>() && steady(t) ==> x == flow_of(t, cfg, params, field_fn(a))(
                    i as int,
                    j as int,
                    axis as int,
                    c as int,
                ),
            {
                assert(nabla_a.has(i as int, j as int, axis as int, 0));
                let alpha = a.get(i, j, c).over(cfg.theta_A).powf(cfg.n).clamp(
                    S::integer(0),
                    S::integer(1),
                );
                nabla_u.get(i, j, axis, c).times(S::integer(1).minus(alpha)).minus(
                    nabla_a.get(i, j, axis, 0).times(alpha),
                )
            };
        let flow = VectorField::from(cfg.SX, cfg.SY, 2, cfg.C, flow_at);
        let moved = self.advect.advect(a, &flow);
        proof {
            if functional::<S>() && steady(t) {
                assert forall|i: int, j: int, c: int| moved.has(i, j, c) implies #[trigger] moved.at(
                    i,
                    j,
                    c,
                ) == stepped(t, cfg, params, af, i, j, c) by {
                    let f = vectors_fn(&flow);
                    let g = flow_of(t, cfg, params, af);
                    assert forall|p: int, q: int, x: int|
                        0 <= p < cfg.SX && 0 <= q < cfg.SY && 0 <= x < 2 implies #[trigger] f(
                        p,
                        q,
                        x,
                        c,
                    ) == g(p, q, x, c) by {
                        assert(flow.has(p, q, x, c));
                        assert(nabla_u.has(p, q, x, c));
                        assert(call_ensures(
                            flow_at,
                            (p as usize, q as usize, x as usize, c as usize),
                            flow.at(p, q, x, c),
                        ));
                    }
                    let side = self.advect.side_cells();
                    self.advect.lemma_gathered_same(
                        af,
                        f,
                        g,
                        i,
                        j,
                        c,
                        (side * side) as nat,
                    );
                }
            }
        }
        State { A: moved }
    }
}

/// A way to step a world whose mass carries parameters.
pub struct StepFnP<'a, S> {
    pub config: &'a ConfigP<S>,
    pub advect: ReintegrationP<S>,
}

impl<S: Real> ConfigP<S> {
    /// How mass and parameters move in this world.
    pub open spec fn mover(&self) -> ReintegrationP<S> {
        ReintegrationP {
            base: self.base.mover(),
            hidden_dims: self.base.nb_k,
            mix: mix_of(self.mix@),
        }
    }
}

/// Prepares to step a world whose mass carries parameters.
pub fn build_step_fn_p<'a, S: Real>(config: &'a ConfigP<S>) -> (f: StepFnP<'a, S>)
    ensures
        f.config == config,
        f.advect == config.mover(),
{
    let advect = build_reintegration_p(
        config.base.SX,
        config.base.SY,
        config.base.dt,
        config.base.dd,
        config.base.sigma,
        &config.base.border,
        config.base.nb_k,
        &config.mix,
    );
    StepFnP { config, advect }
}

impl<'a, S: Real> StepFnP<'a, S> {
    /// Whether the step was prepared for its world.
    pub open spec fn wf(&self) -> bool {
        self.config.base.wf() && self.advect == self.config.mover()
    }

    /// One step: as without parameters, but growth is weighted by the parameters of the
    /// cell, and the parameters move with the mass.
    pub fn step<T: Transform<S>>(
        &self,
        state: &StateP<S>,
        params: &CompiledParams<S>,
        planner: &Fft2DPlanner<T>,
    ) -> (next: StateP<S>)
        requires
            self.wf(),
            self.config.base.suits(params),
            state.A.of(
                self.config.base.SX as int,
                self.config.base.SY as int,
                self.config.base.C as int,
            ),
            state.P.of(
                self.config.base.SX as int,
                self.config.base.SY as int,
                self.config.base.nb_k as int,
            ),
        ensures
            ({
                let cfg = &self.config.base;
                let t = &planner.planner;
                let a = field_fn(&state.A);
                let p = field_fn(&state.P);
                let flow = flow_p_of(t, cfg, params, a, p);
                &&& next.A.of(cfg.SX as int, cfg.SY as int, cfg.C as int)
                &&& next.P.of(cfg.SX as int, cfg.SY as int, cfg.nb_k as int)
                &&& functional::<S>() && steady(t) ==> forall|i: int, j: int, c: int|
                    next.A.has(i, j, c) ==> #[trigger] next.A.at(i, j, c)
                        == cfg.mover().advected(a, flow, i, j, c)
                &&& functional::<S>() && steady(t) ==> forall|i: int, j: int, k: int|
                    next.P.has(i, j, k) ==> #[trigger] next.P.at(i, j, k)
                        == self.config.mover().advected_p(a, p, flow, cfg.C as int, i, j, k)
            }),
    {
        let cfg = &self.config.base;
        let a = &state.A;
        let carried = &state.P;
        let ghost t = &planner.planner;
        let ghost af = field_fn(a);
        let ghost w = field_fn(carried);
        let u = potentials(cfg, a, params, planner);
        let us = &u;
        let grown_at = |i: usize, j: usize, k: usize| -> (x: S)
            requires
                us.has(i as int, j as int, k as int),
            ensures
                functional::<S>() && steady(t) ==> x == grown(t, cfg, params, field_fn(a), field_fn(carried))(
                    i as int,
                    j as int,
                    k as int,
                ),
            { growth_at(us.get(i, j, k), params.m[k], params.s[k]).times(carried.get(i, j, k)) };
        let grown_field = Field::from(cfg.SX, cfg.SY, cfg.nb_k, grown_at);
        let nablas = slopes::<S, T>(cfg, a, &grown_field, Ghost(t), Ghost(params), Ghost(w));
        let nabla_u = &nablas.0;
        let nabla_a = &nablas.1;
        let ma = S::integer(cfg.dd as i64).minus(cfg.sigma);
        let flow_at = |i: usize, j: usize, axis: usize, c: usize| -> (x: S)
            requires
                nabla_u.has(i as int, j as int, axis as int, c as int),
            ensures
                functional::<S>() && steady(t) ==> x == flow_p_of(t, cfg, params, field_fn(a), field_fn(carried))(
                    i as int,
                    j as int,
                    axis as int,
                    c as int,
                ),
            {
                assert(nabla_a.has(i as int, j as int, axis as int, 0));
                let alpha = a.get(i, j, c).over(S::integer(2)).powi(2).clamp(
                    S::integer(0),
                    S::integer(1),
                );
                nabla_u.get(i, j, axis, c).times(S::integer(1).minus(alpha)).minus(
                    nabla_a.get(i, j, axis, 0).times(alpha),
                ).clamp(ma.neg(), ma)
            };
        let flow = VectorField::from(cfg.SX, cfg.SY, 2, cfg.C, flow_at);
        let moved = self.advect.advect(a, carried, &flow);
        proof {
            if functional::<S>() && steady(t) {
                let f = vectors_fn(&flow);
                let g = flow_p_of(t, cfg, params, af, w);
                assert forall|p: int, q: int, x: int, c: int|
                    0 <= p < cfg.SX && 0 <= q < cfg.SY && 0 <= x < 2 && 0 <= c < cfg.C implies
                    #[trigger] f(p, q, x, c) == g(p, q, x, c) by {
                    assert(flow.has(p, q, x, c));
                    assert(nabla_u.has(p, q, x, c));
                    assert(call_ensures(
                        flow_at,
                        (p as usize, q as usize, x as usize, c as usize),
                        flow.at(p, q, x, c),
                    ));
                }
                let side = self.advect.base.side_cells();
                assert forall|i: int, j: int, c: int| moved.0.has(i, j, c) implies
                    #[trigger] moved.0.at(i, j, c) == cfg.mover().advected(af, g, i, j, c) by {
                    self.advect.base.lemma_gathered_same(
                        af,
                        f,
                        g,
                        i,
                        j,
                        c,
                        (side * side) as nat,
                    );
                }
                assert forall|i: int, j: int, k: int| moved.1.has(i, j, k) implies
                    #[trigger] moved.1.at(i, j, k) == self.config.mover().advected_p(
                    af,
                    w,
                    g,
                    cfg.C as int,
                    i,
                    j,
                    k,
                ) by {
                    self.advect.lemma_advected_p_same(af, w, f, g, cfg.C as int, i, j, k);
                }
            }
        }
        StateP { A: moved.0, P: moved.1 }
    }
}

/// A way to run a world for many steps.
pub struct Rollout<'a, S> {
    pub step_fn: StepFn<'a, S>,
}

/// Prepares to run a world for many steps.
pub fn build_rollout<'a, S: Real>(step_fn: StepFn<'a, S>) -> (r: Rollout<'a, S>)
    ensures
        r.step_fn == step_fn,
{
    Rollout { step_fn }
}

/// Whether two states hold the same mass.
pub open spec fn same_state<S>(a: &State<S>, b: &State<S>) -> bool {
    &&& a.A.of(b.A.rows as int, b.A.cols as int, b.A.depth as int)
    &&& forall|i: int, j: int, c: int|
        a.A.has(i, j, c) ==> #[trigger] a.A.at(i, j, c) == b.A.at(i, j, c)
}

impl<S: Copy> State<S> {
    /// A copy of the state.
    pub fn copy(&self) -> (v: Self)
        requires
            self.A.wf(),
        ensures
            same_state(&v, self),
    {
        State { A: self.A.copy() }
    }
}

impl<'a, S: Real> Rollout<'a, S> {
    /// The state after the given number of steps, and the states after each of them.
    pub fn run<T: Transform<S>>(
        &self,
        params: &CompiledParams<S>,
        init_state: &State<S>,
        steps: usize,
        planner: &Fft2DPlanner<T>,
    ) -> (out: (State<S>, Vec<State<S>>))
        requires
            self.step_fn.wf(),
            self.step_fn.config.suits(params),
            init_state.A.of(
                self.step_fn.config.SX as int,
                self.step_fn.config.SY as int,
                self.step_fn.config.C as int,
            ),
        ensures
            out.1@.len() == steps,
            forall|n: int|
                0 <= n < steps ==> self.step_fn.leads(
                    &planner.planner,
                    params,
                    if n == 0 {
                        init_state
                    } else {
                        &out.1@[n - 1]
                    },
                    #[trigger] &out.1@[n],
                ),
            same_state(
                &out.0,
                if steps == 0 {
                    init_state
                } else {
                    &out.1@[steps - 1]
                },
            ),
    {
        let mut states: Vec<State<S>> = Vec::new();
        let mut n: usize = 0;
        while n < steps
            invariant
                n <= steps,
                states@.len() == n,
                self.step_fn.wf(),
                self.step_fn.config.suits(params),
                init_state.A.of(
                    self.step_fn.config.SX as int,
                    self.step_fn.config.SY as int,
                    self.step_fn.config.C as int,
                ),
                forall|m: int|
                    0 <= m < n ==> self.step_fn.leads(
                        &planner.planner,
                        params,
                        if m == 0 {
                            init_state
                        } else {
                            &states@[m - 1]
                        },
                        #[trigger] &states@[m],
                    ),
            decreases steps - n,
        {
            let next = if n == 0 {
                self.step_fn.step(init_state, params, planner)
            } else {
                self.step_fn.step(&states[n - 1], params, planner)
            };
            states.push(next);
            n = n + 1;
        }
        let last = if steps == 0 {
            init_state.copy()
        } else {
            states[steps - 1].copy()
        };
        (last, states)
    }
}

} // verus!
