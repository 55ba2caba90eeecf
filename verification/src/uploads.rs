//! What the host tells the GPU, and where.
//!
//! The laws on dataflow say which part of which buffer every pass reads. Here it is said what
//! the host writes there.

use crate::complex::Complex;
use crate::fl::phase2::{
    AdvectionBuffers, AdvectionPhase, AggregationPhase, GradientFlowPhase,
};
use crate::fl::{Extent, GpuFlowLenia};
use crate::gpu::{Device, Queue};
use crate::gpu_flow_lenia;
use crate::ml::diffusion::DiffusionPhase;
use crate::ml::growth::GrowthPhase;
use crate::ml::render::RenderPhase;
use crate::ml::GpuMaceLenia;
use crate::scalar::Real;
use vstd::prelude::*;

verus! {

use crate::analysis::exact_square;
use crate::complex::complex_words;
use crate::exact::exact_as;
use crate::fl::dataflow::lemma_phases_stand;
use crate::fl::phase2::{flat_offsets, flattened};
use crate::gpu::QueueOpView;
use crate::gpu_flow_lenia::FlowLayout;
use crate::ml::growth::law_bumps_stand_kernel_by_kernel;
use crate::scalar::{bits_of, count_of, functional, integer_of, minus_of, over_of, powi_of, times_of};

/// Whether a queue operation writes words to a place in a buffer.
pub open spec fn tells(op: QueueOpView, buffer: int, offset: int, words: Seq<u32>) -> bool {
    &&& op is Write
    &&& op->Write_0.buffer == buffer
    &&& op->Write_0.offset == offset
    &&& op->Write_0.words == words
}

/// Complex numbers as words: real part, imaginary part, number after number.
pub open spec fn packs<S: Real>(data: Seq<Complex<S>>, words: Seq<u32>) -> bool {
    &&& words.len() == 2 * data.len()
    &&& forall|i: int|
        0 <= i < data.len() ==> words[2 * i] == bits_of((#[trigger] data[i]).re) && words[2 * i + 1]
            == bits_of(data[i].im)
}

/// Packed words pack.
proof fn lemma_packs<S: Real>(data: Seq<Complex<S>>)
    ensures
        packs(data, complex_words(data)),
{
    assert forall|i: int| 0 <= i < data.len() implies complex_words(data)[2 * i] == bits_of(
        (#[trigger] data[i]).re,
    ) && complex_words(data)[2 * i + 1] == bits_of(data[i].im) by {
        assert((2 * i) % 2 == 0 && (2 * i) / 2 == i);
        assert((2 * i + 1) % 2 == 1 && (2 * i + 1) / 2 == i);
    }
}

/// A kernel is uploaded whole to where a step reads the kernel of that index, behind all that was
/// queued before.
pub proof fn law_resident_kernels_are_uploaded_to_their_slots<S: Real>(
    sim: GpuFlowLenia,
    queue: &mut Queue,
    kernel: &[Complex<S>],
    k: usize,
)
    requires
        functional::<S>(),
        k * sim.total_elements * 8 <= u64::MAX,
        call_ensures(GpuFlowLenia::set_kernel::<S>, (&sim, queue, kernel, k), ()),
    ensures
        final(queue)@.drop_last() == old(queue)@,
        final(queue)@.len() == old(queue)@.len() + 1,
        final(queue)@.last() is Write,
        final(queue)@.last()->Write_0.buffer == sim.kernel_buffer,
        final(queue)@.last()->Write_0.offset == k * sim.total_elements * 8,
        packs(kernel@, final(queue)@.last()->Write_0.words),
{
    lemma_packs(kernel@);
    assert(final(queue)@.drop_last() =~= old(queue)@);
    let t = sim.total_elements as int;
    assert(0 <= k * t * 8) by (nonlinear_arith)
        requires
            t >= 0,
    ;
}

/// A kernel is uploaded whole to where a step reads the kernel of that index, behind all that was
/// queued before.
pub proof fn law_mace_kernels_are_uploaded_to_their_slots<S: Real>(
    sim: GpuMaceLenia,
    queue: &mut Queue,
    kernel: &[Complex<S>],
    k: usize,
)
    requires
        functional::<S>(),
        k * sim.total_elements * 8 <= u64::MAX,
        call_ensures(GpuMaceLenia::set_kernel::<S>, (&sim, queue, kernel, k), ()),
    ensures
        final(queue)@.drop_last() == old(queue)@,
        final(queue)@.len() == old(queue)@.len() + 1,
        final(queue)@.last() is Write,
        final(queue)@.last()->Write_0.buffer == sim.kernel_buffer,
        final(queue)@.last()->Write_0.offset == k * sim.total_elements * 8,
        packs(kernel@, final(queue)@.last()->Write_0.words),
{
    lemma_packs(kernel@);
    assert(final(queue)@.drop_last() =~= old(queue)@);
    let t = sim.total_elements as int;
    assert(0 <= k * t * 8) by (nonlinear_arith)
        requires
            t >= 0,
    ;
}

/// A kernel is uploaded whole to where a step reads the kernel of that index, behind all that was
/// queued before.
pub proof fn law_flow_kernels_are_uploaded_to_their_slots<S: Real>(
    sim: gpu_flow_lenia::GpuFlowLenia<S>,
    queue: &mut Queue,
    kernel: &[Complex<S>],
    k: usize,
)
    requires
        functional::<S>(),
        k * sim.total_elements * 8 <= u64::MAX,
        call_ensures(
            gpu_flow_lenia::GpuFlowLenia::<S>::set_kernel,
            (&sim, queue, kernel, k),
            (),
        ),
    ensures
        final(queue)@.drop_last() == old(queue)@,
        final(queue)@.len() == old(queue)@.len() + 1,
        final(queue)@.last() is Write,
        final(queue)@.last()->Write_0.buffer == sim.kernel_buffer,
        final(queue)@.last()->Write_0.offset == k * sim.total_elements * 8,
        packs(kernel@, final(queue)@.last()->Write_0.words),
{
    lemma_packs(kernel@);
    assert(final(queue)@.drop_last() =~= old(queue)@);
    let t = sim.total_elements as int;
    assert(0 <= k * t * 8) by (nonlinear_arith)
        requires
            t >= 0,
    ;
}

/// A channel is uploaded whole to where a step reads the channel of that index.
pub proof fn law_resident_channels_are_uploaded_to_their_slots<W: Real>(
    sim: GpuFlowLenia,
    queue: &mut Queue,
    data: &[W],
    c: usize,
)
    requires
        functional::<W>(),
        c * sim.total_elements * 4 <= u64::MAX,
        call_ensures(GpuFlowLenia::upload_channel::<W>, (&sim, queue, data, c), ()),
    ensures
        final(queue)@.drop_last() == old(queue)@,
        final(queue)@.len() == old(queue)@.len() + 1,
        tells(
            final(queue)@.last(),
            sim.channel_buffer as int,
            c * sim.total_elements * 4,
            Seq::new(data@.len(), |i: int| bits_of(data@[i])),
        ),
{
    assert(final(queue)@.drop_last() =~= old(queue)@);
    let t = sim.total_elements as int;
    assert(0 <= c * t * 4) by (nonlinear_arith)
        requires
            t >= 0,
    ;
}

/// A channel is uploaded whole to where a step reads the channel of that index.
pub proof fn law_mace_channels_are_uploaded_to_their_slots<W: Real>(
    sim: GpuMaceLenia,
    queue: &mut Queue,
    data: &[W],
    c: usize,
)
    requires
        functional::<W>(),
        c * sim.total_elements * 4 <= u64::MAX,
        call_ensures(GpuMaceLenia::upload_channel::<W>, (&sim, queue, data, c), ()),
    ensures
        final(queue)@.drop_last() == old(queue)@,
        final(queue)@.len() == old(queue)@.len() + 1,
        tells(
            final(queue)@.last(),
            sim.channel_buffer as int,
            c * sim.total_elements * 4,
            Seq::new(data@.len(), |i: int| bits_of(data@[i])),
        ),
{
    assert(final(queue)@.drop_last() =~= old(queue)@);
    let t = sim.total_elements as int;
    assert(0 <= c * t * 4) by (nonlinear_arith)
        requires
            t >= 0,
    ;
}

/// Channels are uploaded anew in order, each whole to where a step reads it, and none besides.
pub proof fn law_flow_channels_are_uploaded_to_their_slots<S: Real, W: Real>(
    sim: gpu_flow_lenia::GpuFlowLenia<S>,
    queue: &mut Queue,
    data: &[Vec<W>],
    c: int,
)
    requires
        functional::<W>(),
        0 <= c < data@.len(),
        c * sim.total_elements * 4 <= u64::MAX,
        call_ensures(
            gpu_flow_lenia::GpuFlowLenia::<S>::reinit_channels::<W>,
            (&sim, queue, data),
            (),
        ),
    ensures
        final(queue)@.len() == old(queue)@.len() + data@.len(),
        old(queue)@.is_prefix_of(final(queue)@),
        tells(
            final(queue)@[old(queue)@.len() + c],
            sim.channel_buffer as int,
            c * sim.total_elements * 4,
            Seq::new(data@[c]@.len(), |i: int| bits_of(data@[c]@[i])),
        ),
{
    let t = sim.total_elements as int;
    assert(0 <= c * t * 4) by (nonlinear_arith)
        requires
            c >= 0,
            t >= 0,
    ;
}

/// One channel is uploaded as all of them are.
pub proof fn law_flow_channel_is_uploaded_to_its_slot<S: Real, W: Real>(
    sim: gpu_flow_lenia::GpuFlowLenia<S>,
    queue: &mut Queue,
    data: &[W],
    c: usize,
)
    requires
        functional::<W>(),
        c * sim.total_elements * 4 <= u64::MAX,
        call_ensures(
            gpu_flow_lenia::GpuFlowLenia::<S>::upload_channel::<W>,
            (&sim, queue, data, c),
            (),
        ),
    ensures
        final(queue)@.drop_last() == old(queue)@,
        final(queue)@.len() == old(queue)@.len() + 1,
        tells(
            final(queue)@.last(),
            sim.channel_buffer as int,
            c * sim.total_elements * 4,
            Seq::new(data@.len(), |i: int| bits_of(data@[i])),
        ),
{
    assert(final(queue)@.drop_last() =~= old(queue)@);
    let t = sim.total_elements as int;
    assert(0 <= c * t * 4) by (nonlinear_arith)
        requires
            t >= 0,
    ;
}

/// The movement of mass is told the size of the world, how far mass reaches, how far it spreads,
/// the time step, how many channels and kernels there are, and how far mass may be displaced so
/// that what it spreads over stays within reach.
pub proof fn law_movement_is_told_its_limits<S: Real>(
    v: spec_fn(S) -> real,
    device: &mut Device,
    queue: &mut Queue,
    shape: &[usize],
    channels: usize,
    kernels: usize,
    dd: i32,
    sigma: S,
    dt: S,
    buffers: AdvectionBuffers,
    phase: AdvectionPhase,
)
    requires
        functional::<S>(),
        exact_as(v),
        call_ensures(
            AdvectionPhase::new::<S>,
            (device, queue, shape, channels, kernels, dd, sigma, dt, buffers),
            phase,
        ),
    ensures
        final(queue)@.drop_last() == old(queue)@,
        final(queue)@.len() == old(queue)@.len() + 1,
        exists|limit: S|
            v(limit) + v(sigma) == dd as real && tells(
                final(queue)@.last(),
                phase.params_buffer as int,
                0,
                seq![
                    shape@[0] as u32,
                    shape@[1] as u32,
                    dd as u32,
                    bits_of(sigma),
                    bits_of(dt),
                    channels as u32,
                    kernels as u32,
                    #[trigger] bits_of(limit),
                ],
            ),
{
    let limit = minus_of(integer_of::<S>(dd as i64), sigma);
    assert(final(queue)@.drop_last() =~= old(queue)@);
    assert(v(limit) + v(sigma) == dd as real);
    assert(tells(
        final(queue)@.last(),
        phase.params_buffer as int,
        0,
        seq![
            shape@[0] as u32,
            shape@[1] as u32,
            dd as u32,
            bits_of(sigma),
            bits_of(dt),
            channels as u32,
            kernels as u32,
            bits_of(limit),
        ],
    ));
}

/// A new time step is told to the movement of mass together with all that did not change.
pub proof fn law_new_time_step_reaches_the_movement<S: Real>(
    v: spec_fn(S) -> real,
    sim: &mut gpu_flow_lenia::GpuFlowLenia<S>,
    queue: &mut Queue,
    dt: S,
)
    requires
        functional::<S>(),
        exact_as(v),
        call_ensures(gpu_flow_lenia::GpuFlowLenia::<S>::set_dt, (sim, queue, dt), ()),
    ensures
        final(sim).dt == dt,
        final(queue)@.drop_last() == old(queue)@,
        final(queue)@.len() == old(queue)@.len() + 1,
        exists|limit: S|
            v(limit) + v(old(sim).sigma) == old(sim).dd as real && tells(
                final(queue)@.last(),
                old(sim).reintegration_params_buffer as int,
                0,
                seq![
                    old(sim).shape@[0] as u32,
                    old(sim).shape@[1] as u32,
                    old(sim).dd as u32,
                    bits_of(old(sim).sigma),
                    bits_of(dt),
                    old(sim).num_channels as u32,
                    #[trigger] bits_of(limit),
                    bits_of(old(sim).basal_metabolic_rate),
                    bits_of(old(sim).kinetic_cost),
                ],
            ),
{
    let limit = minus_of(integer_of::<S>(old(sim).dd as i64), old(sim).sigma);
    assert(final(queue)@.drop_last() =~= old(queue)@);
    assert(v(limit) + v(old(sim).sigma) == old(sim).dd as real);
    assert(tells(
        final(queue)@.last(),
        old(sim).reintegration_params_buffer as int,
        0,
        seq![
            old(sim).shape@[0] as u32,
            old(sim).shape@[1] as u32,
            old(sim).dd as u32,
            bits_of(old(sim).sigma),
            bits_of(dt),
            old(sim).num_channels as u32,
            bits_of(limit),
            bits_of(old(sim).basal_metabolic_rate),
            bits_of(old(sim).kinetic_cost),
        ],
    ));
}

/// The bump of one kernel is written to where a step reads the bump of that kernel: middle, width
/// and weight; the simulation remembers it, and the bumps of other kernels stay.
pub proof fn law_new_bump_reaches_its_kernel<S: Real>(
    sim: &mut gpu_flow_lenia::GpuFlowLenia<S>,
    queue: &mut Queue,
    k: usize,
    m: S,
    s: S,
    h: S,
    j: int,
)
    requires
        functional::<S>(),
        k < old(sim).num_kernels,
        old(sim).wf(),
        0 <= j < old(sim).num_kernels,
        call_ensures(
            gpu_flow_lenia::GpuFlowLenia::<S>::set_growth_param,
            (sim, queue, k, m, s, h),
            (),
        ),
    ensures
        final(queue)@.drop_last() == old(queue)@,
        final(queue)@.len() == old(queue)@.len() + 1,
        tells(
            final(queue)@.last(),
            old(sim).growth_params_buffer as int,
            k * 256,
            seq![bits_of(m), bits_of(s), bits_of(h)],
        ),
        final(sim).kernel_m@[j] == (if j == k {
            m
        } else {
            old(sim).kernel_m@[j]
        }),
        final(sim).kernel_s@[j] == (if j == k {
            s
        } else {
            old(sim).kernel_s@[j]
        }),
        final(sim).kernel_h@[j] == (if j == k {
            h
        } else {
            old(sim).kernel_h@[j]
        }),
{
    assert(final(queue)@.drop_last() =~= old(queue)@);
}

/// The bumps of all kernels are written kernel by kernel, each to where a step reads it, and the
/// simulation remembers them.
pub proof fn law_new_bumps_reach_their_kernels<S: Real>(
    sim: &mut gpu_flow_lenia::GpuFlowLenia<S>,
    queue: &mut Queue,
    m: &[S],
    s: &[S],
    h: &[S],
    k: int,
)
    requires
        functional::<S>(),
        old(sim).wf(),
        0 <= k < old(sim).num_kernels,
        call_ensures(
            gpu_flow_lenia::GpuFlowLenia::<S>::set_all_growth_params,
            (sim, queue, m, s, h),
            (),
        ),
    ensures
        final(queue)@.len() == old(queue)@.len() + old(sim).num_kernels,
        old(queue)@.is_prefix_of(final(queue)@),
        tells(
            final(queue)@[old(queue)@.len() + k],
            old(sim).growth_params_buffer as int,
            k * 256,
            seq![bits_of(m@[k]), bits_of(s@[k]), bits_of(h@[k])],
        ),
        final(sim).kernel_m@[k] == m@[k],
        final(sim).kernel_s@[k] == s@[k],
        final(sim).kernel_h@[k] == h@[k],
{
}

/// One part in `n` of one part in `n`.
proof fn lemma_part_of_part(x: real, n: real)
    requires
        n != 0real,
        x == 1real / (n * n),
    ensures
        x * (n * n) == 1real,
{
    assert(n * n != 0real) by (nonlinear_arith)
        requires
            n != 0real,
    ;
    let nn = n * n;
    assert(x * nn == 1real) by (nonlinear_arith)
        requires
            x == 1real / nn,
            nn != 0real,
    ;
}

/// The growth of the diffusion model is told middle and width of every kernel's bump in turn, the
/// kernels' weights, the channels that they feed, the sizes, the time step, and the factor that
/// makes up for a transform there and back on a square grid.
pub proof fn law_growth_is_told_its_bumps<S: Real>(
    v: spec_fn(S) -> real,
    device: &mut Device,
    queue: &mut Queue,
    shape: &[usize],
    kernels: usize,
    channels: usize,
    c1: &[u32],
    mu: &[S],
    sigma: &[S],
    weights: &[S],
    dt: S,
    conv: usize,
    affinity: usize,
    phase: GrowthPhase,
    k: int,
)
    requires
        functional::<S>(),
        exact_as(v),
        0 < shape@[0] <= u32::MAX,
        0 <= k < kernels,
        old(device)@.buffers.len() + 4 <= usize::MAX,
        call_ensures(
            GrowthPhase::new::<S>,
            (
                device,
                queue,
                shape,
                kernels,
                channels,
                c1,
                mu,
                sigma,
                weights,
                dt,
                conv,
                affinity,
            ),
            phase,
        ),
    ensures
        ({
            let op = |i: int| final(queue)@[old(queue)@.len() + i];
            &&& final(queue)@.len() == old(queue)@.len() + 4
            &&& old(queue)@.is_prefix_of(final(queue)@)
            &&& op(0) is Write
            &&& op(0)->Write_0.buffer == phase.growth_params_buffer
            &&& op(0)->Write_0.offset == 0
            &&& op(0)->Write_0.words[2 * k] == bits_of(mu@[k])
            &&& op(0)->Write_0.words[2 * k + 1] == bits_of(sigma@[k])
            &&& tells(
                op(1),
                phase.weights_buffer as int,
                0,
                Seq::new(weights@.len(), |i: int| bits_of(weights@[i])),
            )
            &&& tells(op(2), phase.c1_buffer as int, 0, c1@)
            &&& exists|part: S|
                v(part) * (shape@[0] as real * shape@[0] as real) == 1real && tells(
                    op(3),
                    phase.params_buffer as int,
                    0,
                    seq![
                        shape@[0] as u32,
                        kernels as u32,
                        channels as u32,
                        bits_of(dt),
                        #[trigger] bits_of(part),
                    ],
                )
        }),
{
    let op = |i: int| final(queue)@[old(queue)@.len() + i];
    law_bumps_stand_kernel_by_kernel(mu@, sigma@, kernels as nat, k);
    let n = shape@[0];
    let w = count_of::<S>(n);
    let part = over_of(integer_of::<S>(1i64), times_of(w, w));
    assert(v(w) == n as real);
    assert(v(times_of(w, w)) == v(w) * v(w));
    assert(v(w) * v(w) != 0real) by (nonlinear_arith)
        requires
            v(w) > 0real,
    ;
    assert(v(part) == 1real / (v(w) * v(w)));
    lemma_part_of_part(v(part), v(w));
    assert(n as u32 as usize == n);
    assert(tells(
        op(3),
        phase.params_buffer as int,
        0,
        seq![n as u32, kernels as u32, channels as u32, bits_of(dt), bits_of(part)],
    ));
}

/// Diffusion is told the width of the grid, how many channels there are and the temperature.
pub proof fn law_diffusion_is_told_its_temperature<S: Real>(
    device: &mut Device,
    queue: &mut Queue,
    shape: &[usize],
    channels: usize,
    temp: S,
    affinity: usize,
    z: usize,
    channel: usize,
    new_channel: usize,
    phase: DiffusionPhase,
)
    requires
        functional::<S>(),
        call_ensures(
            DiffusionPhase::new::<S>,
            (device, queue, shape, channels, temp, affinity, z, channel, new_channel),
            phase,
        ),
    ensures
        final(queue)@.drop_last() == old(queue)@,
        final(queue)@.len() == old(queue)@.len() + 1,
        tells(
            final(queue)@.last(),
            phase.params_buffer as int,
            0,
            seq![shape@[0] as u32, channels as u32, bits_of(temp)],
        ),
{
    assert(final(queue)@.drop_last() =~= old(queue)@);
}

/// Rendering is told the width of the grid and how many channels there are.
pub proof fn law_rendering_is_told_its_size(
    device: &mut Device,
    queue: &mut Queue,
    shape: &[usize],
    channels: usize,
    channel: usize,
    pixels: usize,
    phase: RenderPhase,
)
    requires
        call_ensures(
            RenderPhase::new,
            (device, queue, shape, channels, channel, pixels),
            phase,
        ),
    ensures
        final(queue)@.drop_last() == old(queue)@,
        final(queue)@.len() == old(queue)@.len() + 1,
        tells(
            final(queue)@.last(),
            phase.params_buffer as int,
            0,
            seq![shape@[0] as u32, channels as u32],
        ),
{
    assert(final(queue)@.drop_last() =~= old(queue)@);
}

/// A new simulation tells every pass of a step what it reads besides the state: a parameter of
/// one for every kernel and cell, the bump of every kernel, the factor that makes up for a
/// transform there and back, the direction of both transforms, the lists of targets, the sizes,
/// and the limits of movement. Buffers are counted from the first one of the simulation, as in
/// [`law_step_grows_every_kernel_and_moves_mass`](crate::fl::dataflow) and its neighbour.
#[verifier::rlimit(60)]
pub proof fn law_resident_passes_are_told_what_they_read<W: Real, S: Real>(
    v: spec_fn(S) -> real,
    device: &mut Device,
    queue: &mut Queue,
    shape: &[usize],
    channels: usize,
    kernels: usize,
    c0: &[u32],
    c1: &[Vec<u32>],
    m: &[S],
    s: &[S],
    h: &[S],
    dt: S,
    dd: i32,
    sigma: S,
    sim: GpuFlowLenia,
    k: int,
)
    requires
        functional::<W>(),
        functional::<S>(),
        exact_square(v),
        shape@[0] > 0,
        kernels * 256 <= u64::MAX,
        old(device)@.buffers.len() + 29 <= usize::MAX,
        0 <= k < kernels,
        call_ensures(
            GpuFlowLenia::new::<W, S>,
            (
                device,
                queue,
                shape,
                channels,
                kernels,
                c0,
                c1,
                m,
                s,
                h,
                dt,
                dd,
                sigma,
            ),
            sim,
        ),
    ensures
        ({
            let op = |i: int| final(queue)@[old(queue)@.len() + i];
            let b = sim.channel_buffer as int;
            let x = shape@[0] as u32;
            let y = shape@[1] as u32;
            let c = channels as u32;
            let n = kernels as int;
            &&& final(queue)@.len() == old(queue)@.len() + 13 + n
            &&& old(queue)@.is_prefix_of(final(queue)@)
            &&& exists|one: S|
                v(one) == 1real && tells(
                    op(0),
                    b + 14,
                    0,
                    Seq::new(
                        (shape@[0] * shape@[1] * kernels) as nat,
                        |i: int| #[trigger] bits_of(one),
                    ),
                )
            &&& tells(op(2 + k), b + 20, k * 256, seq![
                bits_of(m@[k]),
                bits_of(s@[k]),
                bits_of(h@[k]),
            ])
            &&& exists|part: S|
                v(part) * (shape@[0] as real * shape@[0] as real) == 1real && tells(
                    op(2 + n),
                    b + 17,
                    0,
                    seq![#[trigger] bits_of(part)],
                )
            &&& tells(op(3 + n), b + 18, 0, seq![x, 0u32])
            &&& tells(op(4 + n), b + 19, 0, seq![x, 1u32])
            &&& tells(op(5 + n), b + 21, 0, flattened(c1@, channels as nat))
            &&& tells(op(6 + n), b + 22, 0, flat_offsets(c1@, channels as nat))
            &&& tells(op(7 + n), b + 23, 0, seq![x, kernels as u32, c])
            &&& tells(op(8 + n), b + 24, 0, seq![x, y, c])
            &&& tells(op(9 + n), b + 25, 0, seq![x, y, 1u32])
            &&& tells(op(10 + n), b + 26, 0, seq![x, c])
            &&& exists|one: S|
                v(one) == 1real && tells(op(11 + n), b + 27, 0, seq![
                    x,
                    c,
                    #[trigger] bits_of(one),
                ])
            &&& exists|limit: S|
                v(limit) + v(sigma) == dd as real && tells(
                    op(12 + n),
                    b + 28,
                    0,
                    seq![
                        x,
                        y,
                        dd as u32,
                        bits_of(sigma),
                        bits_of(dt),
                        c,
                        kernels as u32,
                        #[trigger] bits_of(limit),
                    ],
                )
        }),
{
    let d = old(device)@;
    let e = Extent { x: shape@[0], y: shape@[1], channels, kernels };
    let b = d.buffers.len();
    let n = kernels as int;
    lemma_phases_stand(e, d, c0@, c1@);
    let plan = e.convolution(e.with_buffers(d), b);
    assert(plan.before.buffers.len() == b + 16);
    let first = seq![e.param_write::<S>(b)];
    let conv = plan.writes::<W, S>(e.x, 2, kernels as nat, m@, s@, h@);
    let agg = AggregationPhase::writes(b + 21, e.x, kernels, channels, c1@);
    let grad = GradientFlowPhase::writes::<S>(b + 24, e.x, e.y, channels);
    let words = AdvectionPhase::words(e.x, e.y, channels, kernels, dd, sigma, dt);
    let q = old(queue)@;
    let all = final(queue)@;
    assert(all == q + e.writes::<W, S>(d, c0@, c1@, m@, s@, h@, dt, dd, sigma));
    assert(conv.len() == n + 4 && agg.len() == 3 && grad.len() == 4);
    let at = q.len() as int;
    assert(all.len() == at + 13 + n);
    assert(all[at] == first[0]);
    assert(all[at + (2 + k)] == conv[1 + k]);
    assert(all[at + (2 + n)] == conv[1 + n]);
    assert(all[at + (3 + n)] == conv[2 + n]);
    assert(all[at + (4 + n)] == conv[3 + n]);
    assert(all[at + (5 + n)] == agg[0]);
    assert(all[at + (6 + n)] == agg[1]);
    assert(all[at + (7 + n)] == agg[2]);
    assert(all[at + (8 + n)] == grad[0]);
    assert(all[at + (9 + n)] == grad[1]);
    assert(all[at + (10 + n)] == grad[2]);
    assert(all[at + (11 + n)] == grad[3]);
    assert(all[at + (12 + n)]->Write_0.words == words);
    let one = integer_of::<S>(1i64);
    assert(v(one) == 1real);
    let w = count_of::<S>(shape@[0]);
    let part = over_of(one, powi_of(w, 2i32));
    assert(v(w) == shape@[0] as real);
    assert(v(powi_of(w, 2i32)) == v(w) * v(w));
    assert(v(w) * v(w) != 0real) by (nonlinear_arith)
        requires
            v(w) > 0real,
    ;
    assert(v(part) == 1real / (v(w) * v(w)));
    lemma_part_of_part(v(part), v(w));
    let op = |i: int| all[at + i];
    assert(tells(op(2 + n), b + 17int, 0, seq![bits_of(part)]));
    let limit = minus_of(integer_of::<S>(dd as i64), sigma);
    assert(v(limit) + v(sigma) == dd as real);
    assert(words[7] == bits_of(limit));
    assert(op(11 + n)->Write_0.words == seq![
        shape@[0] as u32,
        channels as u32,
        bits_of(one),
    ]);
    let ones = Seq::new(
        (shape@[0] * shape@[1] * kernels) as nat,
        |i: int| bits_of(one),
    );
    assert(tells(op(0), b as int + 14, 0, ones));
}

/// A new simulation tells every pass of a step what it reads besides the state: the bump of every
/// kernel, the lists of targets, the factor that makes up for a transform there and back of
/// padded lines, the sizes, how many channels share a cell, and the limits and costs of movement.
#[verifier::rlimit(60)]
pub proof fn law_flow_passes_are_told_what_they_read<S: Real>(
    v: spec_fn(S) -> real,
    device: &mut Device,
    queue: &mut Queue,
    shape: &[usize],
    padded: usize,
    channels: usize,
    kernels: usize,
    c0: &[u32],
    c1: &[Vec<u32>],
    m: &[S],
    s: &[S],
    h: &[S],
    dt: S,
    dd: i32,
    sigma: S,
    basal: S,
    kinetic: S,
    sim: gpu_flow_lenia::GpuFlowLenia<S>,
    k: int,
)
    requires
        functional::<S>(),
        exact_square(v),
        padded > 0,
        kernels * 256 <= u64::MAX,
        old(device)@.buffers.len() + 26 <= usize::MAX,
        0 <= k < kernels,
        call_ensures(
            gpu_flow_lenia::GpuFlowLenia::<S>::new,
            (
                device,
                queue,
                shape,
                padded,
                channels,
                kernels,
                c0,
                c1,
                m,
                s,
                h,
                dt,
                dd,
                sigma,
                basal,
                kinetic,
            ),
            sim,
        ),
    ensures
        ({
            let op = |i: int| final(queue)@[old(queue)@.len() + i];
            let b = sim.channel_buffer as int;
            let x = shape@[0] as u32;
            let y = shape@[1] as u32;
            let c = channels as u32;
            let n = kernels as int;
            &&& final(queue)@.len() == old(queue)@.len() + 9 + n
            &&& old(queue)@.is_prefix_of(final(queue)@)
            &&& tells(op(k), b + 15, k * 256, seq![
                bits_of(m@[k]),
                bits_of(s@[k]),
                bits_of(h@[k]),
            ])
            &&& tells(op(n), b + 23, 0, flattened(c1@, channels as nat))
            &&& tells(op(1 + n), b + 24, 0, flat_offsets(c1@, channels as nat))
            &&& exists|part: S|
                v(part) * (padded as real * padded as real) == 1real && tells(
                    op(2 + n),
                    b + 16,
                    0,
                    seq![#[trigger] bits_of(part)],
                )
            &&& tells(op(3 + n), b + 17, 0, seq![x, kernels as u32, c])
            &&& tells(op(4 + n), b + 18, 0, seq![x, y, c])
            &&& tells(op(5 + n), b + 19, 0, seq![x, y, 1u32])
            &&& tells(op(6 + n), b + 20, 0, seq![x, c])
            &&& exists|count: S|
                v(count) == channels as real && tells(op(7 + n), b + 21, 0, seq![
                    x,
                    c,
                    #[trigger] bits_of(count),
                ])
            &&& exists|limit: S|
                v(limit) + v(sigma) == dd as real && tells(
                    op(8 + n),
                    b + 22,
                    0,
                    seq![
                        x,
                        y,
                        dd as u32,
                        bits_of(sigma),
                        bits_of(dt),
                        c,
                        #[trigger] bits_of(limit),
                        bits_of(basal),
                        bits_of(kinetic),
                    ],
                )
        }),
{
    let d = old(device)@;
    let plan = FlowLayout {
        before: d,
        x: shape@[0],
        y: shape@[1],
        channels,
        kernels,
        targets: flattened(c1@, channels as nat).len(),
    };
    let b = d.buffers.len();
    let n = kernels as int;
    let q = old(queue)@;
    let all = final(queue)@;
    let ws = plan.writes::<S>(padded, c1@, m@, s@, h@, dt, dd, sigma, basal, kinetic);
    assert(all == q + ws);
    assert(ws.len() == n + 9);
    let at = q.len() as int;
    let op = |i: int| all[at + i];
    assert(all[at + k] == ws[k]);
    assert(ws[k] == plan.growth_write(k, m@[k], s@[k], h@[k]));
    assert(op(n) == ws[n]);
    assert(op(1 + n) == ws[n + 1]);
    assert(op(2 + n) == ws[n + 2]);
    assert(op(3 + n) == ws[n + 3]);
    assert(op(4 + n) == ws[n + 4]);
    assert(op(5 + n) == ws[n + 5]);
    assert(op(6 + n) == ws[n + 6]);
    assert(op(7 + n) == ws[n + 7]);
    assert(op(8 + n) == ws[n + 8]);
    let one = integer_of::<S>(1i64);
    let w = count_of::<S>(padded);
    let part = over_of(one, powi_of(w, 2i32));
    assert(v(one) == 1real && v(w) == padded as real);
    assert(v(powi_of(w, 2i32)) == v(w) * v(w));
    assert(v(w) * v(w) != 0real) by (nonlinear_arith)
        requires
            v(w) > 0real,
    ;
    assert(v(part) == 1real / (v(w) * v(w)));
    lemma_part_of_part(v(part), v(w));
    assert(tells(op(2 + n), b + 16int, 0, seq![bits_of(part)]));
    let count = count_of::<S>(channels);
    assert(v(count) == channels as real);
    assert(tells(op(7 + n), b + 21int, 0, seq![
        shape@[0] as u32,
        channels as u32,
        bits_of(count),
    ]));
    let limit = minus_of(integer_of::<S>(dd as i64), sigma);
    assert(v(limit) + v(sigma) == dd as real);
    assert(op(8 + n)->Write_0.words[6] == bits_of(limit));
}

} // verus!
