//! What one step of the GPU-resident simulation computes from what.

use crate::dataflow::Term;
use crate::fl::convolution::ConvolutionPhase;
use crate::fl::phase2::{
    AdvectionPhase, AggregationPhase, GradientFlowPhase, ParamAdvectionPhase,
};
use crate::fl::{Extent, GpuFlowLenia, GP_STRIDE};
use crate::gpu::{BindRange, Command, Entry, LayoutEntry};
use vstd::prelude::*;

verus! {

use crate::dataflow::{
    after_commands, after_pass, lemma_one_more, lemma_some_more, read_by, written_slot,
};
use crate::fl::convolution::{
    kernel_order, kernels_of, lemma_kernel_found, lemma_kernels_differ, lemma_kernels_of,
    lemma_order_at, lemma_order_prefix, ConvolutionLayout,
};
use crate::gpu::{all_of, part_of, ro, rw, un, workgroups, DeviceView};
use crate::gpu_flow_dataflow::{lemma_slots_differ, slot_of};

/// Whether identifiers of a device are machine numbers.
pub open spec fn numbered(d: DeviceView) -> bool {
    &&& d.buffers.len() <= usize::MAX
    &&& d.layouts.len() <= usize::MAX
    &&& d.pipelines.len() <= usize::MAX
    &&& d.groups.len() <= usize::MAX
}

/// Whether all that one device has stands on another one too.
pub open spec fn stands_on(a: DeviceView, d: DeviceView) -> bool {
    &&& a.buffers.len() <= d.buffers.len()
    &&& a.layouts.len() <= d.layouts.len()
    &&& a.pipelines.len() <= d.pipelines.len()
    &&& a.groups.len() <= d.groups.len()
    &&& forall|i: int| 0 <= i < a.layouts.len() ==> #[trigger] d.layouts[i] == a.layouts[i]
    &&& forall|i: int| 0 <= i < a.pipelines.len() ==> #[trigger] d.pipelines[i] == a.pipelines[i]
    &&& forall|i: int| 0 <= i < a.groups.len() ==> #[trigger] d.groups[i] == a.groups[i]
}

/// Every phase stands on the device of a simulation, and has its buffers behind the shared ones.
pub proof fn lemma_phases_stand(e: Extent, d: DeviceView, c0: Seq<u32>, c1: Seq<Vec<u32>>)
    ensures
        stands_on(e.with_convolution(d, c0), e.with_all(d, c0, c1)),
        stands_on(e.with_aggregation(d, c0, c1), e.with_all(d, c0, c1)),
        stands_on(e.with_gradients(d, c0, c1), e.with_all(d, c0, c1)),
        stands_on(e.with_advection(d, c0, c1), e.with_all(d, c0, c1)),
        e.with_convolution(d, c0).buffers.len() == d.buffers.len() + 21,
        e.with_aggregation(d, c0, c1).buffers.len() == d.buffers.len() + 24,
        e.with_gradients(d, c0, c1).buffers.len() == d.buffers.len() + 28,
        e.with_advection(d, c0, c1).buffers.len() == d.buffers.len() + 29,
        e.with_aggregation(d, c0, c1).layouts.len() == e.with_convolution(d, c0).layouts.len() + 1,
        e.with_gradients(d, c0, c1).layouts.len() == e.with_aggregation(d, c0, c1).layouts.len()
            + 3,
        e.with_advection(d, c0, c1).layouts.len() == e.with_gradients(d, c0, c1).layouts.len() + 1,
        e.with_aggregation(d, c0, c1).pipelines.len() == e.with_convolution(
            d,
            c0,
        ).pipelines.len() + 1,
        e.with_gradients(d, c0, c1).pipelines.len() == e.with_aggregation(
            d,
            c0,
            c1,
        ).pipelines.len() + 3,
        e.with_advection(d, c0, c1).pipelines.len() == e.with_gradients(d, c0, c1).pipelines.len()
            + 1,
        e.with_aggregation(d, c0, c1).groups.len() == e.with_convolution(d, c0).groups.len() + 1,
        e.with_gradients(d, c0, c1).groups.len() == e.with_aggregation(d, c0, c1).groups.len() + 4,
        e.with_advection(d, c0, c1).groups.len() == e.with_gradients(d, c0, c1).groups.len() + 1,
{
    reveal(ConvolutionLayout::after);
    reveal(AggregationPhase::after);
    reveal(GradientFlowPhase::after);
    reveal(AdvectionPhase::after);
    reveal(ParamAdvectionPhase::after);
    let a = e.with_convolution(d, c0);
    let b = e.with_aggregation(d, c0, c1);
    let c = e.with_gradients(d, c0, c1);
    let m = e.with_advection(d, c0, c1);
    let all = e.with_all(d, c0, c1);
    assert(e.with_buffers(d).buffers.len() == d.buffers.len() + 16);
    assert(ConvolutionLayout::buffers(e.x as int, e.kernels as int).len() == 5);
    assert(stands_on(m, all));
    assert(stands_on(c, m));
    assert(stands_on(b, c));
    assert(stands_on(a, b));
}

/// What the device knows of the passes behind the convolution.
proof fn lemma_flow_passes(e: Extent, d: DeviceView, c0: Seq<u32>, c1: Seq<Vec<u32>>)
    requires
        numbered(e.with_all(d, c0, c1)),
    ensures
        ({
            let a = e.with_convolution(d, c0);
            let b = e.with_aggregation(d, c0, c1);
            let c = e.with_gradients(d, c0, c1);
            let m = e.with_advection(d, c0, c1);
            let all = e.with_all(d, c0, c1);
            let pass = |p: nat, i: int| all.pipelines[p + i];
            &&& pass(a.pipelines.len(), 0) == m.pipelines[a.pipelines.len() as int]
            &&& pass(a.pipelines.len(), 0).entry == Entry::ChannelAggregate
            &&& pass(b.pipelines.len(), 0).entry == Entry::Sobel
            &&& pass(b.pipelines.len(), 1).entry == Entry::SumChannels
            &&& pass(b.pipelines.len(), 2).entry == Entry::FlowField
            &&& pass(c.pipelines.len(), 0).entry == Entry::Reintegration
            &&& all.layouts[pass(a.pipelines.len(), 0).layout as int] == seq![
                ro(13),
                rw(14),
                ro(15),
                ro(16),
                un(17),
            ]
            &&& all.layouts[pass(b.pipelines.len(), 0).layout as int]
                == GradientFlowPhase::layouts()[0]
            &&& all.layouts[pass(b.pipelines.len(), 1).layout as int]
                == GradientFlowPhase::layouts()[1]
            &&& all.layouts[pass(b.pipelines.len(), 2).layout as int]
                == GradientFlowPhase::layouts()[2]
            &&& all.layouts[pass(c.pipelines.len(), 0).layout as int] == seq![
                ro(33),
                ro(34),
                ro(35),
                rw(36),
                un(37),
                ro(38),
                rw(39),
            ]
        }),
{
    lemma_phases_stand(e, d, c0, c1);
    let a = e.with_convolution(d, c0);
    let b = e.with_aggregation(d, c0, c1);
    let c = e.with_gradients(d, c0, c1);
    let m = e.with_advection(d, c0, c1);
    assert(b.pipelines[a.pipelines.len() as int].entry == Entry::ChannelAggregate
        && b.pipelines[a.pipelines.len() as int].layout == a.layouts.len()
        && b.layouts[a.layouts.len() as int] == seq![ro(13), rw(14), ro(15), ro(16), un(17)]) by {
        reveal(AggregationPhase::after);
    }
    assert(c.pipelines[b.pipelines.len() as int].entry == Entry::Sobel
        && c.pipelines[b.pipelines.len() as int].layout == b.layouts.len()
        && c.pipelines[b.pipelines.len() + 1int].entry == Entry::SumChannels
        && c.pipelines[b.pipelines.len() + 1int].layout == b.layouts.len() + 1
        && c.pipelines[b.pipelines.len() + 2int].entry == Entry::FlowField
        && c.pipelines[b.pipelines.len() + 2int].layout == b.layouts.len() + 2
        && c.layouts[b.layouts.len() as int] == GradientFlowPhase::layouts()[0]
        && c.layouts[b.layouts.len() + 1int] == GradientFlowPhase::layouts()[1]
        && c.layouts[b.layouts.len() + 2int] == GradientFlowPhase::layouts()[2]) by {
        reveal(GradientFlowPhase::after);
    }
    assert(m.pipelines[c.pipelines.len() as int].entry == Entry::Reintegration
        && m.pipelines[c.pipelines.len() as int].layout == c.layouts.len()
        && m.layouts[c.layouts.len() as int] == seq![
        ro(33),
        ro(34),
        ro(35),
        rw(36),
        un(37),
        ro(38),
        rw(39),
    ]) by {
        reveal(AdvectionPhase::after);
    }
}

/// What the passes behind the convolution are bound to.
proof fn lemma_flow_groups(e: Extent, d: DeviceView, c0: Seq<u32>, c1: Seq<Vec<u32>>)
    requires
        numbered(e.with_all(d, c0, c1)),
    ensures
        ({
            let n = d.buffers.len();
            let a = e.with_convolution(d, c0);
            let b = e.with_aggregation(d, c0, c1);
            let c = e.with_gradients(d, c0, c1);
            let all = e.with_all(d, c0, c1);
            let flows = GradientFlowPhase::groups(n + 24, b.layouts.len(), e.flow_buffers(n));
            &&& all.groups[a.groups.len() as int].entries == seq![
                all_of(13, (n + 5) as usize),
                all_of(14, (n + 6) as usize),
                all_of(15, (n + 21) as usize),
                all_of(16, (n + 22) as usize),
                all_of(17, (n + 23) as usize),
            ]
            &&& all.groups[b.groups.len() as int] == flows[0]
            &&& all.groups[b.groups.len() + 1int] == flows[1]
            &&& all.groups[b.groups.len() + 2int] == flows[2]
            &&& all.groups[b.groups.len() + 3int] == flows[3]
            &&& all.groups[c.groups.len() as int].entries == ({
                let f = e.advection_buffers(n);
                seq![
                    all_of(33, f.channel),
                    all_of(34, f.flow_x),
                    all_of(35, f.flow_y),
                    all_of(36, f.new_channel),
                    all_of(37, (n + 28) as usize),
                    all_of(38, f.param),
                    all_of(39, f.new_param),
                ]
            })
        }),
{
    lemma_phases_stand(e, d, c0, c1);
    let n = d.buffers.len();
    let a = e.with_convolution(d, c0);
    let b = e.with_aggregation(d, c0, c1);
    let c = e.with_gradients(d, c0, c1);
    let m = e.with_advection(d, c0, c1);
    assert(b.groups[a.groups.len() as int].entries == seq![
        all_of(13, (n + 5) as usize),
        all_of(14, (n + 6) as usize),
        all_of(15, (n + 21) as usize),
        all_of(16, (n + 22) as usize),
        all_of(17, (n + 23) as usize),
    ]) by {
        reveal(AggregationPhase::after);
    }
    let flows = GradientFlowPhase::groups(n + 24, b.layouts.len(), e.flow_buffers(n));
    assert(c.groups == b.groups + flows) by {
        reveal(GradientFlowPhase::after);
    }
    assert(flows.len() == 4);
    let f = e.advection_buffers(n);
    assert(m.groups[c.groups.len() as int].entries == seq![
        all_of(33, f.channel),
        all_of(34, f.flow_x),
        all_of(35, f.flow_y),
        all_of(36, f.new_channel),
        all_of(37, (n + 28) as usize),
        all_of(38, f.param),
        all_of(39, f.new_param),
    ]) by {
        reveal(AdvectionPhase::after);
    }
}

/// Whether pass `p`, bound to group `g`, has an entry point, a layout and ranges.
pub open spec fn pass_stands(
    d: DeviceView,
    p: usize,
    g: usize,
    entry: Entry,
    layout: Seq<LayoutEntry>,
    entries: Seq<BindRange>,
) -> bool {
    &&& d.pipelines[p as int].entry == entry
    &&& d.layouts[d.pipelines[p as int].layout as int] == layout
    &&& d.groups[g as int].entries == entries
}

/// Whether the passes behind the convolution stand on a device, with shared buffers from `n` on.
pub open spec fn flow_stands(sim: GpuFlowLenia, d: DeviceView, n: nat) -> bool {
    let b = |i: int| (n + i) as usize;
    let g = sim.gradient_flow;
    &&& n + 29 <= usize::MAX
    &&& sim.channel_buffer == n
    &&& sim.new_channel_buffer == n + 1
    &&& sim.param_buffer == n + 14
    &&& pass_stands(
        d,
        sim.aggregation.pipeline,
        sim.aggregation.bind_group,
        Entry::ChannelAggregate,
        seq![ro(13), rw(14), ro(15), ro(16), un(17)],
        seq![
            all_of(13, b(5)),
            all_of(14, b(6)),
            all_of(15, b(21)),
            all_of(16, b(22)),
            all_of(17, b(23)),
        ],
    )
    &&& pass_stands(
        d,
        g.sum_channels_pipeline,
        g.sum_channels_bg,
        Entry::SumChannels,
        seq![ro(18), rw(19), un(20)],
        seq![all_of(18, b(0)), all_of(19, b(11)), all_of(20, b(26))],
    )
    &&& pass_stands(
        d,
        g.sobel_pipeline,
        g.sobel_u_bg,
        Entry::Sobel,
        seq![ro(21), rw(22), rw(23), un(24)],
        seq![all_of(21, b(6)), all_of(22, b(7)), all_of(23, b(8)), all_of(24, b(24))],
    )
    &&& pass_stands(
        d,
        g.sobel_pipeline,
        g.sobel_a_bg,
        Entry::Sobel,
        seq![ro(21), rw(22), rw(23), un(24)],
        seq![all_of(21, b(11)), all_of(22, b(9)), all_of(23, b(10)), all_of(24, b(25))],
    )
    &&& pass_stands(
        d,
        g.flow_field_pipeline,
        g.flow_field_bg,
        Entry::FlowField,
        seq![ro(25), ro(26), ro(27), ro(28), ro(29), rw(30), rw(31), un(32)],
        seq![
            all_of(25, b(0)),
            all_of(26, b(7)),
            all_of(27, b(8)),
            all_of(28, b(9)),
            all_of(29, b(10)),
            all_of(30, b(12)),
            all_of(31, b(13)),
            all_of(32, b(27)),
        ],
    )
    &&& pass_stands(
        d,
        sim.advection.pipeline,
        sim.advection.bind_group,
        Entry::Reintegration,
        seq![ro(33), ro(34), ro(35), rw(36), un(37), ro(38), rw(39)],
        seq![
            all_of(33, b(0)),
            all_of(34, b(12)),
            all_of(35, b(13)),
            all_of(36, b(1)),
            all_of(37, b(28)),
            all_of(38, b(14)),
            all_of(39, b(15)),
        ],
    )
}

/// The passes of a simulation that was set up stand on its device.
proof fn lemma_flow_stands(
    sim: GpuFlowLenia,
    d: DeviceView,
    c0: Seq<u32>,
    c1: Seq<Vec<u32>>,
)
    requires
        numbered(sim.extent().with_all(d, c0, c1)),
        sim.placed(d, c0, c1),
    ensures
        flow_stands(sim, sim.extent().with_all(d, c0, c1), d.buffers.len()),
{
    let e = sim.extent();
    lemma_phases_stand(e, d, c0, c1);
    lemma_flow_passes(e, d, c0, c1);
    lemma_flow_groups(e, d, c0, c1);
}

/// The passes behind the convolution, one after the other.
proof fn lemma_flow(
    sim: GpuFlowLenia,
    all: DeviceView,
    n: nat,
    st: spec_fn(usize, u64) -> Term,
)
    requires
        flow_stands(sim, all, n),
    ensures
        ({
            let held = |i: int| st((n + i) as usize, 0);
            let mass = st(sim.channel_buffer, 0);
            let growth = held(5);
            let gathered = Term::Made {
                entry: Entry::ChannelAggregate,
                slot: 1,
                from: seq![growth, Term::Nothing, held(21), held(22), held(23)],
            };
            let summed = Term::Made {
                entry: Entry::SumChannels,
                slot: 1,
                from: seq![mass, Term::Nothing, held(26)],
            };
            let rise = |of: Term, params: int, slot: int|
                Term::Made {
                    entry: Entry::Sobel,
                    slot,
                    from: seq![of, Term::Nothing, Term::Nothing, held(params)],
                };
            let flow = |slot: int|
                Term::Made {
                    entry: Entry::FlowField,
                    slot,
                    from: seq![
                        mass,
                        rise(gathered, 24, 1),
                        rise(gathered, 24, 2),
                        rise(summed, 25, 1),
                        rise(summed, 25, 2),
                        Term::Nothing,
                        Term::Nothing,
                        held(27),
                    ],
                };
            let after = after_commands(
                all,
                sim.convolution.conv_buffer,
                st,
                flow_commands(sim),
            );
            after(sim.channel_buffer, 0) == (Term::Made {
                entry: Entry::Reintegration,
                slot: 3,
                from: seq![
                    mass,
                    flow(5),
                    flow(6),
                    Term::Nothing,
                    held(28),
                    st(sim.param_buffer, 0),
                    Term::Nothing,
                ],
            })
        }),
{
    reveal_with_fuel(written_slot, 9);
    let work = sim.convolution.conv_buffer;
    let f = flow_commands(sim);
    let none = Seq::<Command>::empty();
    let k1 = none.push(f[0]);
    let k2 = k1.push(f[1]);
    let k3 = k2.push(f[2]);
    let k4 = k3.push(f[3]);
    let k5 = k4.push(f[4]);
    let k6 = k5.push(f[5]);
    let k7 = k6.push(f[6]);
    assert(k7 =~= f);
    lemma_one_more(all, work, st, none, f[0]);
    lemma_one_more(all, work, st, k1, f[1]);
    lemma_one_more(all, work, st, k2, f[2]);
    lemma_one_more(all, work, st, k3, f[3]);
    lemma_one_more(all, work, st, k4, f[4]);
    lemma_one_more(all, work, st, k5, f[5]);
    lemma_one_more(all, work, st, k6, f[6]);
    assert(after_commands(all, work, st, none) == st);
    let s1 = after_commands(all, work, st, k1);
    let s2 = after_commands(all, work, st, k2);
    let s3 = after_commands(all, work, st, k3);
    let s4 = after_commands(all, work, st, k4);
    let s5 = after_commands(all, work, st, k5);
    let s6 = after_commands(all, work, st, k6);
    let b = |i: int| (n + i) as usize;
    let held = |i: int| st((n + i) as usize, 0);
    // Growth is gathered by channel.
    let gathered = Term::Made {
        entry: Entry::ChannelAggregate,
        slot: 1,
        from: seq![held(5), Term::Nothing, held(21), held(22), held(23)],
    };
    let ga = all.groups[sim.aggregation.bind_group as int].entries;
    let la = seq![ro(13), rw(14), ro(15), ro(16), un(17)];
    assert(s1 == after_pass(all, st, sim.aggregation.pipeline, sim.aggregation.bind_group));
    assert(read_by(st, Entry::ChannelAggregate, la, ga) =~= gathered->from);
    assert(s1(b(6), 0) == gathered);
    assert forall|x: usize, o: u64| x != b(6) implies #[trigger] s1(x, o) == st(x, o) by {}
    // Mass is summed over channels.
    let g = sim.gradient_flow;
    let summed = Term::Made {
        entry: Entry::SumChannels,
        slot: 1,
        from: seq![held(0), Term::Nothing, held(26)],
    };
    let l1 = seq![ro(18), rw(19), un(20)];
    let g2 = all.groups[g.sum_channels_bg as int].entries;
    assert(s2 == after_pass(all, s1, g.sum_channels_pipeline, g.sum_channels_bg));
    assert(read_by(s1, Entry::SumChannels, l1, g2)
        =~= summed->from);
    assert(s2(b(11), 0) == summed);
    assert forall|x: usize, o: u64| x != b(11) implies #[trigger] s2(x, o) == s1(x, o) by {}
    // Both have their gradients taken.
    let rise = |of: Term, params: int, slot: int|
        Term::Made {
            entry: Entry::Sobel,
            slot,
            from: seq![of, Term::Nothing, Term::Nothing, held(params)],
        };
    let ls = seq![ro(21), rw(22), rw(23), un(24)];
    let g0 = all.groups[g.sobel_u_bg as int].entries;
    let g1 = all.groups[g.sobel_a_bg as int].entries;
    assert(s3 == after_pass(all, s2, g.sobel_pipeline, g.sobel_u_bg));
    assert(read_by(s2, Entry::Sobel, ls, g0) =~= rise(gathered, 24, 1)->from);
    assert(s3(b(7), 0) == rise(gathered, 24, 1));
    assert(s3(b(8), 0) == rise(gathered, 24, 2));
    assert forall|x: usize, o: u64| x != b(7) && x != b(8) implies #[trigger] s3(x, o) == s2(
        x,
        o,
    ) by {}
    assert(s4 == after_pass(all, s3, g.sobel_pipeline, g.sobel_a_bg));
    assert(read_by(s3, Entry::Sobel, ls, g1) =~= rise(summed, 25, 1)->from);
    assert(s4(b(9), 0) == rise(summed, 25, 1));
    assert(s4(b(10), 0) == rise(summed, 25, 2));
    assert forall|x: usize, o: u64| x != b(9) && x != b(10) implies #[trigger] s4(x, o) == s3(
        x,
        o,
    ) by {}
    // The flow.
    let flow = |slot: int|
        Term::Made {
            entry: Entry::FlowField,
            slot,
            from: seq![
                held(0),
                rise(gathered, 24, 1),
                rise(gathered, 24, 2),
                rise(summed, 25, 1),
                rise(summed, 25, 2),
                Term::Nothing,
                Term::Nothing,
                held(27),
            ],
        };
    let l2 = seq![ro(25), ro(26), ro(27), ro(28), ro(29), rw(30), rw(31), un(32)];
    let g3 = all.groups[g.flow_field_bg as int].entries;
    assert(s5 == after_pass(all, s4, g.flow_field_pipeline, g.flow_field_bg));
    assert(read_by(s4, Entry::FlowField, l2, g3)
        =~= flow(5)->from);
    assert(s5(b(12), 0) == flow(5));
    assert(s5(b(13), 0) == flow(6));
    assert forall|x: usize, o: u64| x != b(12) && x != b(13) implies #[trigger] s5(x, o) == s4(
        x,
        o,
    ) by {}
    // The movement.
    let moved = Term::Made {
        entry: Entry::Reintegration,
        slot: 3,
        from: seq![
            held(0),
            flow(5),
            flow(6),
            Term::Nothing,
            held(28),
            held(14),
            Term::Nothing,
        ],
    };
    let gm = all.groups[sim.advection.bind_group as int].entries;
    let lm = seq![ro(33), ro(34), ro(35), rw(36), un(37), ro(38), rw(39)];
    assert(s6 == after_pass(all, s5, sim.advection.pipeline, sim.advection.bind_group));
    assert(read_by(s5, Entry::Reintegration, lm, gm) =~= moved->from);
    assert(s6(b(1), 0) == moved);
}

/// What follows the convolution in a step: the new mass is the old mass, moved along the flow;
/// the flow comes from the mass and from two gradients, that of the growth by channel and that of
/// the mass of all channels; the growth by channel is gathered from the growth of the kernels by
/// the lists of targets. `st` says what buffers hold before, `d` what the device was like when
/// the simulation was set up.
pub proof fn law_mass_flows_up_growth_and_down_mass(
    sim: GpuFlowLenia,
    d: DeviceView,
    c0: Seq<u32>,
    c1: Seq<Vec<u32>>,
    st: spec_fn(usize, u64) -> Term,
)
    requires
        numbered(sim.extent().with_all(d, c0, c1)),
        sim.placed(d, c0, c1),
    ensures
        ({
            let held = |i: int| st((d.buffers.len() + i) as usize, 0);
            let mass = st(sim.channel_buffer, 0);
            let growth = held(5);
            let gathered = Term::Made {
                entry: Entry::ChannelAggregate,
                slot: 1,
                from: seq![growth, Term::Nothing, held(21), held(22), held(23)],
            };
            let summed = Term::Made {
                entry: Entry::SumChannels,
                slot: 1,
                from: seq![mass, Term::Nothing, held(26)],
            };
            let rise = |of: Term, params: int, slot: int|
                Term::Made {
                    entry: Entry::Sobel,
                    slot,
                    from: seq![of, Term::Nothing, Term::Nothing, held(params)],
                };
            let flow = |slot: int|
                Term::Made {
                    entry: Entry::FlowField,
                    slot,
                    from: seq![
                        mass,
                        rise(gathered, 24, 1),
                        rise(gathered, 24, 2),
                        rise(summed, 25, 1),
                        rise(summed, 25, 2),
                        Term::Nothing,
                        Term::Nothing,
                        held(27),
                    ],
                };
            let after = after_commands(
                sim.extent().with_all(d, c0, c1),
                sim.convolution.conv_buffer,
                st,
                flow_commands(sim),
            );
            after(sim.channel_buffer, 0) == (Term::Made {
                entry: Entry::Reintegration,
                slot: 3,
                from: seq![
                    mass,
                    flow(5),
                    flow(6),
                    Term::Nothing,
                    held(28),
                    st(sim.param_buffer, 0),
                    Term::Nothing,
                ],
            })
        }),
{
    lemma_flow_stands(sim, d, c0, c1);
    lemma_flow(sim, sim.extent().with_all(d, c0, c1), d.buffers.len(), st);
}

/// What a step records behind the convolution.
pub open spec fn flow_commands(sim: GpuFlowLenia) -> Seq<Command> {
    let total = sim.total_elements as int;
    let wg = workgroups(total);
    let wg_c = workgroups(total * sim.num_channels);
    sim.aggregation.commands(wg_c) + sim.gradient_flow.commands(wg, wg_c)
        + sim.advection.commands(wg_c) + seq![
        Command::Copy {
            src: sim.new_channel_buffer,
            src_offset: 0,
            dst: sim.channel_buffer,
            dst_offset: 0,
            size: (total * sim.num_channels * 4) as u64,
        },
    ]
}

/// Whether the buffers that a convolution phase writes are apart from each other and from those
/// that it reads.
pub open spec fn apart(plan: ConvolutionLayout, saved: usize) -> bool {
    let n = plan.before.buffers.len();
    &&& n + 5 <= usize::MAX
    &&& plan.conv < n && saved < n && plan.u < n
    &&& plan.channel < n && plan.kernel < n && plan.param < n
    &&& plan.conv != saved && plan.conv != plan.u && saved != plan.u
    &&& plan.channel != plan.conv && plan.channel != saved && plan.channel != plan.u
    &&& plan.kernel != plan.conv && plan.kernel != saved && plan.kernel != plan.u
    &&& plan.param != plan.conv && plan.param != saved && plan.param != plan.u
}

/// The spectrum of channel `c`: the channel, copied, transformed row by row and then column by
/// column, with the twiddles and the parameters of the forward transform.
pub open spec fn spectrum_term(
    plan: ConvolutionLayout,
    st: spec_fn(usize, u64) -> Term,
    c: int,
) -> Term {
    let own = |i: int| st((plan.before.buffers.len() + i) as usize, 0);
    let copied = Term::Made {
        entry: Entry::CopyToConv,
        slot: 1,
        from: seq![st(plan.channel, (c * plan.total * 4) as u64), Term::Nothing],
    };
    let rows = Term::Made {
        entry: Entry::FftRow,
        slot: 0,
        from: seq![copied, own(0), own(2)],
    };
    Term::Made { entry: Entry::FftCol, slot: 0, from: seq![rows, own(0), own(2)] }
}

/// The growth of kernel `k` from channel `c`: the spectrum of the channel times that of the
/// kernel, transformed back column by column and then row by row with the parameters of the
/// inverse transform, scaled, put through the kernel's bump and weighted by the kernel's part of
/// the parameter field.
pub open spec fn growth_term(
    plan: ConvolutionLayout,
    st: spec_fn(usize, u64) -> Term,
    c: int,
    k: int,
) -> Term {
    let own = |i: int| st((plan.before.buffers.len() + i) as usize, 0);
    let product = Term::Made {
        entry: Entry::ComplexMul,
        slot: 0,
        from: seq![
            spectrum_term(plan, st, c),
            st(plan.kernel, (k * plan.total * 8) as u64),
        ],
    };
    let columns = Term::Made {
        entry: Entry::FftCol,
        slot: 0,
        from: seq![product, own(0), own(3)],
    };
    let rows = Term::Made {
        entry: Entry::FftRow,
        slot: 0,
        from: seq![columns, own(0), own(3)],
    };
    Term::Made {
        entry: Entry::NormalizeGrowth,
        slot: 1,
        from: seq![
            rows,
            Term::Nothing,
            own(1),
            st(
                (plan.before.buffers.len() + 4) as usize,
                (k * GP_STRIDE) as u64,
            ),
            st(plan.param, (k * plan.total * 4) as u64),
        ],
    }
}

/// Whether the passes of channel `c` stand on a device.
pub open spec fn channel_stands(
    phase: ConvolutionPhase,
    plan: ConvolutionLayout,
    saved: usize,
    c0: Seq<u32>,
    kernels: nat,
    d: DeviceView,
    c: int,
) -> bool {
    let own = |i: int| (plan.before.buffers.len() + i) as usize;
    let t = plan.total;
    let ks = kernels_of(c0, kernels, c);
    let turn = seq![rw(0), ro(2), un(3)];
    let there = seq![all_of(0, plan.conv), all_of(2, own(0)), all_of(3, own(2))];
    let back = seq![all_of(0, plan.conv), all_of(2, own(0)), part_of(3, own(3), 0, 8)];
    &&& phase.conv_buffer == plan.conv
    &&& phase.conv_saved_buffer == saved
    &&& phase.ch_to_kernels_cache@[c]@ == ks
    &&& pass_stands(d, phase.fft_row_pipeline, phase.fft_bg, Entry::FftRow, turn, there)
    &&& pass_stands(d, phase.fft_col_pipeline, phase.fft_bg, Entry::FftCol, turn, there)
    &&& pass_stands(d, phase.fft_row_pipeline, phase.inv_fft_bg, Entry::FftRow, turn, back)
    &&& pass_stands(d, phase.fft_col_pipeline, phase.inv_fft_bg, Entry::FftCol, turn, back)
    &&& ks.len() > 0 ==> pass_stands(
        d,
        phase.copy_to_conv_pipeline,
        phase.copy_bgs_cache@[c]@[0],
        Entry::CopyToConv,
        seq![ro(4), rw(5)],
        seq![
            part_of(4, plan.channel, (c * t * 4) as u64, (t * 4) as u64),
            all_of(5, plan.conv),
        ],
    )
    &&& forall|i: int|
        0 <= i < ks.len() ==> pass_stands(
            d,
            phase.complex_mul_pipeline,
            #[trigger] phase.cmul_bgs_cache@[c]@[i],
            Entry::ComplexMul,
            seq![rw(6), ro(7)],
            seq![
                all_of(6, plan.conv),
                part_of(7, plan.kernel, (ks[i] * t * 8) as u64, (t * 8) as u64),
            ],
        )
    &&& forall|k: int|
        0 <= k < kernels ==> pass_stands(
            d,
            phase.normalize_growth_pipeline,
            #[trigger] phase.normalize_growth_bgs@[k],
            Entry::NormalizeGrowth,
            seq![rw(8), rw(9), un(11), ro(12), ro(13)],
            seq![
                all_of(8, plan.conv),
                part_of(9, plan.u, (k * t * 4) as u64, (t * 4) as u64),
                all_of(11, own(1)),
                part_of(12, own(4), (k * GP_STRIDE) as u64, 12),
                part_of(13, plan.param, (k * t * 4) as u64, (t * 4) as u64),
            ],
        )
}

/// What the first `n` kernels of a channel leave behind.
pub open spec fn grown_so_far(
    plan: ConvolutionLayout,
    saved: usize,
    c0: Seq<u32>,
    kernels: nat,
    st: spec_fn(usize, u64) -> Term,
    now: spec_fn(usize, u64) -> Term,
    c: int,
    n: int,
) -> bool {
    let ks = kernels_of(c0, kernels, c);
    &&& now(saved, 0) == spectrum_term(plan, st, c)
    &&& forall|i: int|
        0 <= i < n ==> now(plan.u, slot_of(#[trigger] ks[i] as int, plan.total)) == growth_term(
            plan,
            st,
            c,
            ks[i] as int,
        )
    &&& forall|b: usize, o: u64|
        b != plan.conv && b != saved && b != plan.u ==> #[trigger] now(b, o) == st(b, o)
    &&& forall|o: u64|
        (forall|i: int| 0 <= i < n ==> o != slot_of(#[trigger] ks[i] as int, plan.total))
            ==> #[trigger] now(plan.u, o) == st(plan.u, o)
}

/// The commands of one kernel of a channel.
pub open spec fn one_kernel(phase: ConvolutionPhase, c: int, i: int, total: int, size: u32) -> Seq<
    Command,
> {
    let k = phase.ch_to_kernels_cache@[c]@[i];
    let wg = ((total + 255) / 256) as u32;
    let restore = if i == 0 {
        seq![]
    } else {
        seq![
            Command::Copy {
                src: phase.conv_saved_buffer,
                src_offset: 0,
                dst: phase.conv_buffer,
                dst_offset: 0,
                size: (total * 8) as u64,
            },
        ]
    };
    restore + seq![
        Command::Dispatch {
            pipeline: phase.complex_mul_pipeline,
            group: phase.cmul_bgs_cache@[c]@[i],
            workgroups: wg,
        },
        Command::Dispatch {
            pipeline: phase.fft_col_pipeline,
            group: phase.inv_fft_bg,
            workgroups: size,
        },
        Command::Dispatch {
            pipeline: phase.fft_row_pipeline,
            group: phase.inv_fft_bg,
            workgroups: size,
        },
        Command::Dispatch {
            pipeline: phase.normalize_growth_pipeline,
            group: phase.normalize_growth_bgs@[k as int],
            workgroups: wg,
        },
    ]
}

/// One kernel of a channel.
proof fn lemma_one_kernel(
    phase: ConvolutionPhase,
    plan: ConvolutionLayout,
    saved: usize,
    c0: Seq<u32>,
    kernels: nat,
    d: DeviceView,
    st: spec_fn(usize, u64) -> Term,
    now: spec_fn(usize, u64) -> Term,
    c: int,
    n: int,
    size: u32,
)
    requires
        apart(plan, saved),
        channel_stands(phase, plan, saved, c0, kernels, d, c),
        kernels <= usize::MAX,
        plan.total > 0,
        kernels * plan.total * 8 <= u64::MAX,
        0 <= n < kernels_of(c0, kernels, c).len(),
        grown_so_far(plan, saved, c0, kernels, st, now, c, n),
        n == 0 ==> now(plan.conv, 0) == now(saved, 0),
    ensures
        grown_so_far(
            plan,
            saved,
            c0,
            kernels,
            st,
            after_commands(d, plan.conv, now, one_kernel(phase, c, n, plan.total, size)),
            c,
            n + 1,
        ),
{
    reveal_with_fuel(written_slot, 6);
    let t = plan.total;
    let work = plan.conv;
    let ks = kernels_of(c0, kernels, c);
    let k = ks[n] as int;
    lemma_kernels_of(c0, kernels, c, n);
    let own = |i: int| (plan.before.buffers.len() + i) as usize;
    let all = one_kernel(phase, c, n, t, size);
    let restore = if n == 0 {
        Seq::<Command>::empty()
    } else {
        seq![all[0]]
    };
    let f = all.subrange(all.len() - 4, all.len() as int);
    let k1 = restore.push(f[0]);
    let k2 = k1.push(f[1]);
    let k3 = k2.push(f[2]);
    let k4 = k3.push(f[3]);
    assert(all =~= k4);
    lemma_one_more(d, work, now, restore, f[0]);
    lemma_one_more(d, work, now, k1, f[1]);
    lemma_one_more(d, work, now, k2, f[2]);
    lemma_one_more(d, work, now, k3, f[3]);
    let s0 = after_commands(d, work, now, restore);
    let s1 = after_commands(d, work, now, k1);
    let s2 = after_commands(d, work, now, k2);
    let s3 = after_commands(d, work, now, k3);
    let s4 = after_commands(d, work, now, k4);
    let none = Seq::<Command>::empty();
    assert(after_commands(d, work, now, none) == now);
    if n > 0 {
        assert(restore =~= none.push(all[0]));
        lemma_one_more(d, work, now, none, all[0]);
    }
    let spectrum = spectrum_term(plan, st, c);
    assert(s0(work, 0) == spectrum);
    assert forall|b: usize, o: u64| b != work implies #[trigger] s0(b, o) == now(b, o) by {}
    // The product.
    let gm = phase.cmul_bgs_cache@[c]@[n];
    let product = Term::Made {
        entry: Entry::ComplexMul,
        slot: 0,
        from: seq![spectrum, st(plan.kernel, (k * t * 8) as u64)],
    };
    assert(s1 == after_pass(d, s0, phase.complex_mul_pipeline, gm));
    assert(read_by(s0, Entry::ComplexMul, seq![rw(6), ro(7)], d.groups[gm as int].entries)
        =~= product->from);
    assert(s1(work, 0) == product);
    assert forall|b: usize, o: u64| b != work implies #[trigger] s1(b, o) == s0(b, o) by {}
    // Back.
    let turn = seq![rw(0), ro(2), un(3)];
    let back = d.groups[phase.inv_fft_bg as int].entries;
    let columns = Term::Made {
        entry: Entry::FftCol,
        slot: 0,
        from: seq![product, st(own(0), 0), st(own(3), 0)],
    };
    assert(s2 == after_pass(d, s1, phase.fft_col_pipeline, phase.inv_fft_bg));
    assert(read_by(s1, Entry::FftCol, turn, back) =~= columns->from);
    assert(s2(work, 0) == columns);
    assert forall|b: usize, o: u64| b != work implies #[trigger] s2(b, o) == s1(b, o) by {}
    let rows = Term::Made {
        entry: Entry::FftRow,
        slot: 0,
        from: seq![columns, st(own(0), 0), st(own(3), 0)],
    };
    assert(s3 == after_pass(d, s2, phase.fft_row_pipeline, phase.inv_fft_bg));
    assert(read_by(s2, Entry::FftRow, turn, back) =~= rows->from);
    assert(s3(work, 0) == rows);
    assert forall|b: usize, o: u64| b != work implies #[trigger] s3(b, o) == s2(b, o) by {}
    // The growth.
    let gg = phase.normalize_growth_bgs@[k];
    let grown = growth_term(plan, st, c, k);
    let lg = seq![rw(8), rw(9), un(11), ro(12), ro(13)];
    assert(s4 == after_pass(d, s3, phase.normalize_growth_pipeline, gg));
    assert(read_by(s3, Entry::NormalizeGrowth, lg, d.groups[gg as int].entries) =~= grown->from);
    let at = slot_of(k, t);
    assert(s4(plan.u, at) == grown);
    assert forall|b: usize, o: u64| b != work && b != plan.u implies #[trigger] s4(b, o) == s3(
        b,
        o,
    ) by {}
    assert forall|o: u64| o != at implies #[trigger] s4(plan.u, o) == s3(plan.u, o) by {}
    assert forall|i: int| 0 <= i < n + 1 implies s4(
        plan.u,
        slot_of(#[trigger] ks[i] as int, t),
    ) == growth_term(plan, st, c, ks[i] as int) by {
        if i < n {
            lemma_kernels_differ(c0, kernels, c, i, n);
            lemma_slots_differ(ks[i] as int, k, kernels as int, t);
            let o = slot_of(ks[i] as int, t);
            assert(s4(plan.u, o) == s3(plan.u, o));
            assert(s3(plan.u, o) == now(plan.u, o));
        }
    }
    assert forall|o: u64|
        (forall|i: int| 0 <= i < n + 1 ==> o != slot_of(#[trigger] ks[i] as int, t)) implies
        #[trigger] s4(plan.u, o) == st(plan.u, o) by {
        assert(o != slot_of(ks[n] as int, t));
        assert(s3(plan.u, o) == now(plan.u, o));
        assert(now(plan.u, o) == st(plan.u, o));
    }
}

/// The kernels of a channel, one after the other.
proof fn lemma_kernels_grow(
    phase: ConvolutionPhase,
    plan: ConvolutionLayout,
    saved: usize,
    c0: Seq<u32>,
    kernels: nat,
    d: DeviceView,
    st: spec_fn(usize, u64) -> Term,
    now: spec_fn(usize, u64) -> Term,
    c: int,
    n: nat,
    size: u32,
)
    requires
        apart(plan, saved),
        channel_stands(phase, plan, saved, c0, kernels, d, c),
        kernels <= usize::MAX,
        plan.total > 0,
        kernels * plan.total * 8 <= u64::MAX,
        n <= kernels_of(c0, kernels, c).len(),
        grown_so_far(plan, saved, c0, kernels, st, now, c, 0),
        now(plan.conv, 0) == now(saved, 0),
    ensures
        grown_so_far(
            plan,
            saved,
            c0,
            kernels,
            st,
            after_commands(d, plan.conv, now, phase.kernel_commands(c, n, plan.total, size)),
            c,
            n as int,
        ),
    decreases n,
{
    if n > 0 {
        let i = n - 1;
        lemma_kernels_grow(phase, plan, saved, c0, kernels, d, st, now, c, i as nat, size);
        let head = phase.kernel_commands(c, i as nat, plan.total, size);
        let mid = after_commands(d, plan.conv, now, head);
        if i == 0 {
            assert(head =~= Seq::<Command>::empty());
            assert(mid == now);
        }
        lemma_one_kernel(phase, plan, saved, c0, kernels, d, st, mid, c, i, size);
        let tail = one_kernel(phase, c, i, plan.total, size);
        assert(phase.kernel_commands(c, n, plan.total, size) =~= head + tail);
        lemma_some_more(d, plan.conv, now, head, tail);
    }
}

/// All kernels of a channel.
proof fn lemma_channel_grows(
    phase: ConvolutionPhase,
    plan: ConvolutionLayout,
    saved: usize,
    c0: Seq<u32>,
    kernels: nat,
    d: DeviceView,
    st: spec_fn(usize, u64) -> Term,
    c: int,
    size: u32,
)
    requires
        apart(plan, saved),
        channel_stands(phase, plan, saved, c0, kernels, d, c),
        kernels <= usize::MAX,
        plan.total > 0,
        kernels * plan.total * 8 <= u64::MAX,
        kernels_of(c0, kernels, c).len() > 0,
    ensures
        grown_so_far(
            plan,
            saved,
            c0,
            kernels,
            st,
            after_commands(d, plan.conv, st, phase.channel_commands(c, plan.total, size)),
            c,
            kernels_of(c0, kernels, c).len() as int,
        ),
{
    reveal_with_fuel(written_slot, 6);
    let t = plan.total;
    let work = plan.conv;
    let own = |i: int| (plan.before.buffers.len() + i) as usize;
    let f = phase.channel_commands(c, t, size);
    let none = Seq::<Command>::empty();
    let k1 = none.push(f[0]);
    let k2 = k1.push(f[1]);
    let k3 = k2.push(f[2]);
    let k4 = k3.push(f[3]);
    lemma_one_more(d, work, st, none, f[0]);
    lemma_one_more(d, work, st, k1, f[1]);
    lemma_one_more(d, work, st, k2, f[2]);
    lemma_one_more(d, work, st, k3, f[3]);
    assert(after_commands(d, work, st, none) == st);
    let s1 = after_commands(d, work, st, k1);
    let s2 = after_commands(d, work, st, k2);
    let s3 = after_commands(d, work, st, k3);
    let s4 = after_commands(d, work, st, k4);
    let gc = phase.copy_bgs_cache@[c]@[0];
    let copied = Term::Made {
        entry: Entry::CopyToConv,
        slot: 1,
        from: seq![st(plan.channel, (c * t * 4) as u64), Term::Nothing],
    };
    assert(s1 == after_pass(d, st, phase.copy_to_conv_pipeline, gc));
    assert(read_by(st, Entry::CopyToConv, seq![ro(4), rw(5)], d.groups[gc as int].entries)
        =~= copied->from);
    assert(s1(work, 0) == copied);
    assert forall|b: usize, o: u64| b != work implies #[trigger] s1(b, o) == st(b, o) by {}
    let turn = seq![rw(0), ro(2), un(3)];
    let there = d.groups[phase.fft_bg as int].entries;
    let rows = Term::Made {
        entry: Entry::FftRow,
        slot: 0,
        from: seq![copied, st(own(0), 0), st(own(2), 0)],
    };
    assert(s2 == after_pass(d, s1, phase.fft_row_pipeline, phase.fft_bg));
    assert(read_by(s1, Entry::FftRow, turn, there) =~= rows->from);
    assert(s2(work, 0) == rows);
    assert forall|b: usize, o: u64| b != work implies #[trigger] s2(b, o) == s1(b, o) by {}
    let spectrum = spectrum_term(plan, st, c);
    assert(s3 == after_pass(d, s2, phase.fft_col_pipeline, phase.fft_bg));
    assert(read_by(s2, Entry::FftCol, turn, there) =~= spectrum->from);
    assert(s3(work, 0) == spectrum);
    assert forall|b: usize, o: u64| b != work implies #[trigger] s3(b, o) == s2(b, o) by {}
    assert(s4(saved, 0) == spectrum);
    assert(s4(work, 0) == s4(saved, 0));
    assert forall|b: usize, o: u64| b != work && b != saved implies #[trigger] s4(b, o) == st(
        b,
        o,
    ) by {
        assert(s3(b, o) == st(b, o));
    }
    let n = kernels_of(c0, kernels, c).len();
    lemma_kernels_grow(phase, plan, saved, c0, kernels, d, st, s4, c, n, size);
    let rest = phase.kernel_commands(c, n, t, size);
    assert(f =~= k4 + rest);
    lemma_some_more(d, work, st, k4, rest);
}

/// The passes of every channel stand on a device that has what the phase was set up with.
proof fn lemma_channel_stands(
    phase: ConvolutionPhase,
    plan: ConvolutionLayout,
    saved: usize,
    x: int,
    c0: Seq<u32>,
    kernels: nat,
    channels: nat,
    d: DeviceView,
    c: int,
)
    requires
        phase.placed(plan, saved, c0, kernels, channels),
        stands_on(plan.after(x, c0, kernels, channels), d),
        numbered(d),
        kernels <= usize::MAX,
        0 <= c < channels,
    ensures
        channel_stands(phase, plan, saved, c0, kernels, d, c),
{
    reveal(ConvolutionLayout::after);
    let a = plan.after(x, c0, kernels, channels);
    let order = kernel_order(c0, kernels, channels);
    let first = kernel_order(c0, kernels, c as nat).len() as int;
    let ks = kernels_of(c0, kernels, c);
    let groups = plan.groups(c0, kernels, channels);
    let pairs = plan.pair_groups(c0, order);
    let g = plan.before.groups.len() as int;
    lemma_order_prefix(c0, kernels, c as nat, channels);
    assert(groups.len() == 2 + kernels + 2 * order.len());
    assert(a.groups == plan.before.groups + groups);
    assert(a.layouts == plan.before.layouts + ConvolutionLayout::layouts());
    assert(a.pipelines == plan.before.pipelines + plan.pipelines());
    assert(ConvolutionLayout::layouts().len() == 4 && plan.pipelines().len() == 5);
    assert forall|i: int| 0 <= i < 4 implies #[trigger] d.layouts[plan.before.layouts.len() + i]
        == ConvolutionLayout::layouts()[i] by {
        assert(a.layouts[plan.before.layouts.len() + i] == ConvolutionLayout::layouts()[i]);
    }
    assert forall|i: int| 0 <= i < 5 implies #[trigger] d.pipelines[plan.before.pipelines.len() + i]
        == plan.pipelines()[i] by {
        assert(a.pipelines[plan.before.pipelines.len() + i] == plan.pipelines()[i]);
    }
    assert forall|i: int| 0 <= i < groups.len() implies #[trigger] d.groups[g + i] == groups[i] by {
        assert(a.groups[g + i] == groups[i]);
    }
    let l = plan.before.layouts.len() as int;
    let p = plan.before.pipelines.len() as int;
    assert(d.layouts[l + 0] == ConvolutionLayout::layouts()[0]);
    assert(d.layouts[l + 1] == ConvolutionLayout::layouts()[1]);
    assert(d.layouts[l + 2] == ConvolutionLayout::layouts()[2]);
    assert(d.layouts[l + 3] == ConvolutionLayout::layouts()[3]);
    assert(d.pipelines[p + 0] == plan.pipelines()[0]);
    assert(d.pipelines[p + 1] == plan.pipelines()[1]);
    assert(d.pipelines[p + 2] == plan.pipelines()[2]);
    assert(d.pipelines[p + 3] == plan.pipelines()[3]);
    assert(d.pipelines[p + 4] == plan.pipelines()[4]);
    assert(d.groups[g + 0] == plan.fft_group());
    assert(d.groups[g + 1] == plan.inv_fft_group());
    assert(phase.copy_bgs_cache@[c]@ == plan.pair_ids(c0, kernels, c, 0));
    assert(phase.cmul_bgs_cache@[c]@ == plan.pair_ids(c0, kernels, c, 1));
    let start = 2 + kernels + 2 * first;
    if ks.len() > 0 {
        lemma_order_at(c0, kernels, c as nat, channels, 0);
        lemma_kernels_of(c0, kernels, c, 0);
        let t = 2 * first;
        assert(t / 2 == first && t % 2 == 0);
        assert(groups[start] == pairs[t]);
        assert(pairs[t] == plan.copy_group(c));
        assert(d.groups[g + start] == groups[start]);
        assert(phase.copy_bgs_cache@[c]@[0] == plan.group(start));
    }
    assert forall|i: int| 0 <= i < ks.len() implies pass_stands(
        d,
        phase.complex_mul_pipeline,
        #[trigger] phase.cmul_bgs_cache@[c]@[i],
        Entry::ComplexMul,
        seq![rw(6), ro(7)],
        seq![
            all_of(6, plan.conv),
            part_of(
                7,
                plan.kernel,
                (ks[i] * plan.total * 8) as u64,
                (plan.total * 8) as u64,
            ),
        ],
    ) by {
        lemma_order_at(c0, kernels, c as nat, channels, i);
        lemma_kernels_of(c0, kernels, c, i);
        let t = 2 * (first + i) + 1;
        assert(t / 2 == first + i && t % 2 == 1);
        assert(groups[start + 2 * i + 1] == pairs[t]);
        assert(pairs[t] == plan.cmul_group(ks[i] as int));
        assert(d.groups[g + (start + 2 * i + 1)] == groups[start + 2 * i + 1]);
        assert(phase.cmul_bgs_cache@[c]@[i] == plan.group(start + 2 * i + 1));
    }
    assert forall|k: int| 0 <= k < kernels implies pass_stands(
        d,
        phase.normalize_growth_pipeline,
        #[trigger] phase.normalize_growth_bgs@[k],
        Entry::NormalizeGrowth,
        seq![rw(8), rw(9), un(11), ro(12), ro(13)],
        plan.growth_group(k).entries,
    ) by {
        assert(groups[2 + k] == plan.growth_group(k));
        assert(d.groups[g + (2 + k)] == groups[2 + k]);
    }
}

/// What the kernels of the first `n` channels have grown.
pub open spec fn grown_from_channels(
    plan: ConvolutionLayout,
    saved: usize,
    c0: Seq<u32>,
    kernels: nat,
    st: spec_fn(usize, u64) -> Term,
    now: spec_fn(usize, u64) -> Term,
    n: int,
) -> bool {
    &&& forall|k: int|
        0 <= k < kernels && c0[k] < n ==> now(plan.u, #[trigger] slot_of(k, plan.total))
            == growth_term(plan, st, c0[k] as int, k)
    &&& forall|b: usize, o: u64|
        b != plan.conv && b != saved && b != plan.u ==> #[trigger] now(b, o) == st(b, o)
}

/// All channels, one after the other.
proof fn lemma_channels_grow(
    phase: ConvolutionPhase,
    plan: ConvolutionLayout,
    saved: usize,
    c0: Seq<u32>,
    kernels: nat,
    channels: nat,
    d: DeviceView,
    st: spec_fn(usize, u64) -> Term,
    n: nat,
    size: u32,
)
    requires
        apart(plan, saved),
        forall|c: int|
            0 <= c < channels ==> #[trigger] channel_stands(phase, plan, saved, c0, kernels, d, c),
        kernels <= usize::MAX,
        plan.total > 0,
        kernels * plan.total * 8 <= u64::MAX,
        n <= channels,
    ensures
        grown_from_channels(
            plan,
            saved,
            c0,
            kernels,
            st,
            after_commands(d, plan.conv, st, phase.commands(n, plan.total, size)),
            n as int,
        ),
    decreases n,
{
    let t = plan.total;
    let work = plan.conv;
    let now = after_commands(d, work, st, phase.commands(n, t, size));
    if n > 0 {
        let c = n - 1;
        lemma_channels_grow(phase, plan, saved, c0, kernels, channels, d, st, c as nat, size);
        let head = phase.commands(c as nat, t, size);
        let body = phase.channel_commands(c, t, size);
        let mid = after_commands(d, work, st, head);
        let ks = kernels_of(c0, kernels, c);
        lemma_some_more(d, work, st, head, body);
        assert(phase.commands(n, t, size) == head + body);
        assert(channel_stands(phase, plan, saved, c0, kernels, d, c));
        if ks.len() > 0 {
            lemma_channel_grows(phase, plan, saved, c0, kernels, d, mid, c, size);
        } else {
            assert(body =~= Seq::<Command>::empty());
            assert(now == mid);
        }
        assert forall|k: int| 0 <= k < kernels && c0[k] < n implies now(
            plan.u,
            #[trigger] slot_of(k, t),
        ) == growth_term(plan, st, c0[k] as int, k) by {
            if c0[k] == c {
                let i = lemma_kernel_found(c0, kernels, c, k);
                assert(ks[i] == k);
                assert(now(plan.u, slot_of(k, t)) == growth_term(plan, mid, c, k));
                lemma_same_growth(plan, saved, st, mid, c, k);
            } else if ks.len() > 0 {
                assert forall|i: int| 0 <= i < ks.len() implies slot_of(k, t) != slot_of(
                    #[trigger] ks[i] as int,
                    t,
                ) by {
                    lemma_kernels_of(c0, kernels, c, i);
                    let j = ks[i] as int;
                    if j < k {
                        lemma_slots_differ(j, k, kernels as int, t);
                    } else {
                        lemma_slots_differ(k, j, kernels as int, t);
                    }
                }
                assert(now(plan.u, slot_of(k, t)) == mid(plan.u, slot_of(k, t)));
            }
        }
    }
}

/// A channel and a kernel that stayed as they were grow the same.
proof fn lemma_same_growth(
    plan: ConvolutionLayout,
    saved: usize,
    st: spec_fn(usize, u64) -> Term,
    mid: spec_fn(usize, u64) -> Term,
    c: int,
    k: int,
)
    requires
        apart(plan, saved),
        forall|b: usize, o: u64|
            b != plan.conv && b != saved && b != plan.u ==> #[trigger] mid(b, o) == st(b, o),
    ensures
        growth_term(plan, mid, c, k) == growth_term(plan, st, c, k),
{
    let own = |i: int| (plan.before.buffers.len() + i) as usize;
    assert(mid(own(0), 0) == st(own(0), 0));
    assert(mid(own(1), 0) == st(own(1), 0));
    assert(mid(own(2), 0) == st(own(2), 0));
    assert(mid(own(3), 0) == st(own(3), 0));
}

/// One step: every kernel's growth comes from the channel that the kernel reads, convolved with
/// that kernel and no other; masses stay as they were until all kernels have grown, and what
/// follows is what [`law_mass_flows_up_growth_and_down_mass`] speaks of. `st` says what buffers
/// hold before the step, `d` what the device was like when the simulation was set up.
pub proof fn law_step_grows_every_kernel_and_moves_mass(
    sim: GpuFlowLenia,
    d: DeviceView,
    c0: Seq<u32>,
    c1: Seq<Vec<u32>>,
    st: spec_fn(usize, u64) -> Term,
    k: int,
)
    requires
        numbered(sim.extent().with_all(d, c0, c1)),
        sim.placed(d, c0, c1),
        sim.extent().fits_machine(),
        sim.total_elements > 0,
        0 <= k < sim.num_kernels,
        c0[k] < sim.num_channels,
    ensures
        ({
            let all = sim.extent().with_all(d, c0, c1);
            let b = |i: int| (d.buffers.len() + i) as usize;
            let t = sim.total_elements as int;
            let c = c0[k];
            let work = sim.convolution.conv_buffer;
            let copied = Term::Made {
                entry: Entry::CopyToConv,
                slot: 1,
                from: seq![st(sim.channel_buffer, (c * t * 4) as u64), Term::Nothing],
            };
            let turned = |entry: Entry, of: Term, params: int|
                Term::Made { entry, slot: 0, from: seq![of, st(b(16), 0), st(b(params), 0)] };
            let spectrum = turned(Entry::FftCol, turned(Entry::FftRow, copied, 18), 18);
            let product = Term::Made {
                entry: Entry::ComplexMul,
                slot: 0,
                from: seq![spectrum, st(sim.kernel_buffer, (k * t * 8) as u64)],
            };
            let convolved = turned(Entry::FftRow, turned(Entry::FftCol, product, 19), 19);
            let grown = after_commands(
                all,
                work,
                st,
                sim.convolution.commands(sim.num_channels as nat, t, sim.shape@[0] as u32),
            );
            &&& grown(b(5), (k * t * 4) as u64) == (Term::Made {
                entry: Entry::NormalizeGrowth,
                slot: 1,
                from: seq![
                    convolved,
                    Term::Nothing,
                    st(b(17), 0),
                    st(b(20), (k * GP_STRIDE) as u64),
                    st(sim.param_buffer, (k * t * 4) as u64),
                ],
            })
            &&& forall|o: u64|
                #[trigger] grown(sim.channel_buffer, o) == st(sim.channel_buffer, o)
            &&& after_commands(all, work, st, sim.commands()) == after_commands(
                all,
                work,
                grown,
                flow_commands(sim),
            )
        }),
{
    let e = sim.extent();
    let all = e.with_all(d, c0, c1);
    let n = d.buffers.len();
    let kernels = sim.num_kernels as nat;
    let channels = sim.num_channels as nat;
    let plan = e.convolution(e.with_buffers(d), n);
    let saved = (n + 3) as usize;
    let phase = sim.convolution;
    let t = sim.total_elements as int;
    let size = sim.shape@[0] as u32;
    lemma_phases_stand(e, d, c0, c1);
    assert(e.with_buffers(d).buffers.len() == n + 16);
    assert(apart(plan, saved));
    assert forall|c: int| 0 <= c < channels implies #[trigger] channel_stands(
        phase,
        plan,
        saved,
        c0,
        kernels,
        all,
        c,
    ) by {
        lemma_channel_stands(
            phase,
            plan,
            saved,
            e.x as int,
            c0,
            kernels,
            channels,
            all,
            c,
        );
    }
    assert(kernels * plan.total * 8 <= u64::MAX) by (nonlinear_arith)
        requires
            plan.total * kernels * 8 <= usize::MAX,
    ;
    lemma_channels_grow(phase, plan, saved, c0, kernels, channels, all, st, channels, size);
    assert(slot_of(k, t) == (k * t * 4) as u64);
    let head = phase.commands(channels, t, size);
    assert(sim.commands() =~= head + flow_commands(sim));
    lemma_some_more(all, plan.conv, st, head, flow_commands(sim));
}

} // verus!
