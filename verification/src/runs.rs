//! Many steps are one step, many times.

use crate::fl;
use crate::flow::kernels::CompiledParams;
use crate::flow::spectrum::{Fft2DPlanner, Transform};
use crate::flow::step::{Rollout, State, StepFn};
use crate::gpu::{Device, Queue};
use crate::gpu_flow_lenia::GpuFlowLenia;
use crate::ml::GpuMaceLenia;
use crate::scalar::Real;
use vstd::prelude::*;

verus! {

use crate::flow::spectrum::steady;
use crate::scalar::functional;

/// A run keeps as many states as it makes steps. The first is what one step makes of the start,
/// every other one is what one step makes of the state before it, and the run ends in the last
/// one. `next` is what one step makes of the start for `n` zero, and of state `n - 1` otherwise.
pub proof fn law_states_follow_each_other<'a, S: Real, T: Transform<S>>(
    run: &Rollout<'a, S>,
    params: &CompiledParams<S>,
    start: &State<S>,
    steps: usize,
    planner: &Fft2DPlanner<T>,
    out: (State<S>, Vec<State<S>>),
    next: State<S>,
    n: int,
    i: int,
    j: int,
    c: int,
)
    requires
        functional::<S>(),
        steady(&planner.planner),
        call_ensures(Rollout::run::<T>, (run, params, start, steps, planner), out),
        0 <= n < steps,
        call_ensures(
            StepFn::step::<T>,
            (
                &run.step_fn,
                if n == 0 {
                    start
                } else {
                    &out.1@[n - 1]
                },
                params,
                planner,
            ),
            next,
        ),
        0 <= i < run.step_fn.config.SX,
        0 <= j < run.step_fn.config.SY,
        0 <= c < run.step_fn.config.C,
    ensures
        out.1@.len() == steps,
        out.1@[n].A.at(i, j, c) == next.A.at(i, j, c),
        out.0.A.at(i, j, c) == out.1@[steps - 1].A.at(i, j, c),
{
    let from = if n == 0 {
        start
    } else {
        &out.1@[n - 1]
    };
    let t = &planner.planner;
    let made = &out.1@[n];
    assert(run.step_fn.leads(t, params, from, made));
    assert(run.step_fn.leads(t, params, from, &next));
    assert(made.A.has(i, j, c));
    assert(next.A.has(i, j, c));
    let last = &out.1@[steps - 1];
    assert(run.step_fn.leads(
        t,
        params,
        if steps - 1 == 0 {
            start
        } else {
            &out.1@[steps - 2]
        },
        last,
    ));
    assert(out.0.A.has(i, j, c));
}

/// A run without steps ends where it starts, and keeps no states.
pub proof fn law_no_steps_lead_nowhere<'a, S: Real, T: Transform<S>>(
    run: &Rollout<'a, S>,
    params: &CompiledParams<S>,
    start: &State<S>,
    planner: &Fft2DPlanner<T>,
    out: (State<S>, Vec<State<S>>),
    i: int,
    j: int,
    c: int,
)
    requires
        call_ensures(Rollout::run::<T>, (run, params, start, 0usize, planner), out),
        start.A.has(i, j, c),
    ensures
        out.1@.len() == 0,
        out.0.A.at(i, j, c) == start.A.at(i, j, c),
{
    assert(out.0.A.has(i, j, c));
}

/// Each of `n` iterations submits what a single one submits, and nothing besides.
pub proof fn law_resident_iterations_are_alike(
    sim: fl::GpuFlowLenia,
    device: &Device,
    queue: &mut Queue,
    other: &mut Queue,
    n: usize,
    i: int,
)
    requires
        call_ensures(fl::GpuFlowLenia::run_steps, (&sim, device, queue, n), ()),
        call_ensures(fl::GpuFlowLenia::iterate, (&sim, device, other), ()),
        0 <= i < n,
    ensures
        final(queue)@.len() == old(queue)@.len() + n,
        old(queue)@.is_prefix_of(final(queue)@),
        final(other)@.len() == old(other)@.len() + 1,
        final(queue)@[old(queue)@.len() + i] == final(other)@.last(),
{
}

/// One step more than `n` is `n` steps and then one step. `d1` and `q1` see `n` steps, `d2` and
/// `q2` the one step after them, `d3` and `q3` all of them.
pub proof fn law_one_mace_step_more(
    sim: GpuMaceLenia,
    d1: &mut Device,
    q1: &mut Queue,
    d2: &mut Device,
    q2: &mut Queue,
    d3: &mut Device,
    q3: &mut Queue,
    n: usize,
)
    requires
        n < usize::MAX,
        call_ensures(GpuMaceLenia::run_steps, (&sim, d1, q1, n), ()),
        old(d2)@ == final(d1)@,
        old(q2)@ == final(q1)@,
        call_ensures(GpuMaceLenia::iterate, (&sim, d2, q2), ()),
        old(d3)@ == old(d1)@,
        old(q3)@ == old(q1)@,
        call_ensures(GpuMaceLenia::run_steps, (&sim, d3, q3, (n + 1) as usize), ()),
    ensures
        final(d3)@ == final(d2)@,
        final(q3)@ == final(q2)@,
        n == 0 ==> final(d1)@ == old(d1)@ && final(q1)@ == old(q1)@,
{
    assert(final(q3)@ =~= final(q2)@);
    assert(n == 0 ==> final(q1)@ =~= old(q1)@);
}

/// One step more than `n` is `n` steps and then one step. `d1` and `q1` see `n` steps, `d2` and
/// `q2` the one step after them, `d3` and `q3` all of them.
pub proof fn law_one_flow_step_more<S: Real>(
    sim: GpuFlowLenia<S>,
    d1: &mut Device,
    q1: &mut Queue,
    d2: &mut Device,
    q2: &mut Queue,
    d3: &mut Device,
    q3: &mut Queue,
    n: usize,
)
    requires
        n < usize::MAX,
        call_ensures(GpuFlowLenia::<S>::run_steps, (&sim, d1, q1, n), ()),
        old(d2)@ == final(d1)@,
        old(q2)@ == final(q1)@,
        call_ensures(GpuFlowLenia::<S>::iterate, (&sim, d2, q2), ()),
        old(d3)@ == old(d1)@,
        old(q3)@ == old(q1)@,
        call_ensures(GpuFlowLenia::<S>::run_steps, (&sim, d3, q3, (n + 1) as usize), ()),
    ensures
        final(d3)@ == final(d2)@,
        final(q3)@ == final(q2)@,
        n == 0 ==> final(d1)@ == old(d1)@ && final(q1)@ == old(q1)@,
{
    assert(final(q3)@ =~= final(q2)@);
    assert(n == 0 ==> final(q1)@ =~= old(q1)@);
}

} // verus!
