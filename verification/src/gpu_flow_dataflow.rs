//! What one step of the Flow Lenia orchestrator computes from what.

use crate::dataflow::Term;
use crate::fl::GP_STRIDE;
use crate::gpu::{Command, Entry};
use crate::gpu_flow_lenia::GpuFlowLenia;
use crate::scalar::Real;
use vstd::prelude::*;

verus! {

use crate::dataflow::{
    after_commands, after_pass, lemma_one_more, lemma_some_more, read_by, written_slot,
};
use crate::fl::convolution::{
    lemma_kernel_found, lemma_kernels_differ, lemma_kernels_of, lemma_order_at, lemma_order_prefix,
};
use crate::gpu::{submitted, workgroups, DeviceView, QueueOpView};
use crate::gpu_flow_lenia::FlowLayout;

/// Whether identifiers of a simulation are machine numbers.
pub open spec fn numbered(plan: FlowLayout) -> bool {
    &&& plan.before.buffers.len() + 26 <= usize::MAX
    &&& plan.before.layouts.len() + 8 <= usize::MAX
    &&& plan.before.pipelines.len() + 8 <= usize::MAX
    &&& plan.before.groups.len() + plan.kernels + 6 <= usize::MAX
}

/// What the device knows of pass `i` of the second phase.
proof fn lemma_flow_pass(plan: FlowLayout, d: DeviceView, p: int, g: int)
    requires
        numbered(plan),
        d.extends(plan.after()),
        0 <= p < 8,
        0 <= g < 6,
        plan.flow_groups()[g].layout == plan.layout(p),
    ensures
        d.pipelines[plan.pipeline(p) as int] == plan.pipelines()[p],
        d.layouts[plan.layout(p) as int] == FlowLayout::layouts()[p],
        d.groups[plan.group(plan.kernels + g) as int] == plan.flow_groups()[g],
{
    reveal(DeviceView::extends);
    let a = plan.after();
    assert(a.pipelines == plan.before.pipelines + plan.pipelines());
    assert(a.layouts == plan.before.layouts + FlowLayout::layouts());
    assert(a.groups == plan.before.groups + plan.groups());
    assert(plan.groups()[plan.kernels + g] == plan.flow_groups()[g]);
    assert(plan.pipelines().len() == 8 && FlowLayout::layouts().len() == 8);
    let x = plan.before.pipelines.len() + p;
    assert(a.pipelines[x] == plan.pipelines()[p]);
    assert(d.pipelines[x] == a.pipelines[x]) by {
        assert(d.pipelines.subrange(0, a.pipelines.len() as int)[x] == a.pipelines[x]);
    }
    let y = plan.before.layouts.len() + p;
    assert(a.layouts[y] == FlowLayout::layouts()[p]);
    assert(d.layouts[y] == a.layouts[y]) by {
        assert(d.layouts.subrange(0, a.layouts.len() as int)[y] == a.layouts[y]);
    }
    let z = plan.before.groups.len() + plan.kernels + g;
    assert(a.groups[z] == plan.groups()[plan.kernels + g]);
    assert(d.groups[z] == a.groups[z]) by {
        assert(d.groups.subrange(0, a.groups.len() as int)[z] == a.groups[z]);
    }
}

/// The second phase of a step, and the copy behind it: the new mass is the old mass, moved along
/// the flow; the flow comes from the mass and from two gradients, that of the growth by channel
/// and that of the mass of all channels; the growth by channel is gathered from the growth of the
/// kernels by the lists of targets. `st` says what buffers hold before.
pub proof fn law_mass_flows_up_growth_and_down_mass<S: Real>(
    sim: GpuFlowLenia<S>,
    plan: FlowLayout,
    d: DeviceView,
    st: spec_fn(usize, u64) -> Term,
)
    requires
        numbered(plan),
        sim.placed(plan),
        d.extends(plan.after()),
    ensures
        ({
            let mass = st(sim.channel_buffer, 0);
            let growth = st(plan.buffer(5), 0);
            let gathered = Term::Made {
                entry: Entry::ChannelAggregate,
                slot: 1,
                from: seq![
                    growth,
                    Term::Nothing,
                    st(plan.buffer(23), 0),
                    st(plan.buffer(24), 0),
                    st(plan.buffer(17), 0),
                ],
            };
            let summed = Term::Made {
                entry: Entry::SumChannels,
                slot: 1,
                from: seq![mass, Term::Nothing, st(plan.buffer(20), 0)],
            };
            let rise = |of: Term, params: int, slot: int|
                Term::Made {
                    entry: Entry::Sobel,
                    slot,
                    from: seq![of, Term::Nothing, Term::Nothing, st(plan.buffer(params), 0)],
                };
            let flow = |slot: int|
                Term::Made {
                    entry: Entry::FlowField,
                    slot,
                    from: seq![
                        mass,
                        rise(gathered, 18, 1),
                        rise(gathered, 18, 2),
                        rise(summed, 19, 1),
                        rise(summed, 19, 2),
                        Term::Nothing,
                        Term::Nothing,
                        st(plan.buffer(21), 0),
                    ],
                };
            let after = after_commands(
                d,
                sim.conv_buffer,
                st,
                sim.flow_commands() + sim.swap_commands(),
            );
            after(sim.channel_buffer, 0) == (Term::Made {
                entry: Entry::Reintegration,
                slot: 3,
                from: seq![
                    mass,
                    flow(5),
                    flow(6),
                    Term::Nothing,
                    st(sim.reintegration_params_buffer, 0),
                ],
            })
        }),
{
    reveal_with_fuel(written_slot, 9);
    let work = sim.conv_buffer;
    let f = sim.flow_commands();
    let none = Seq::<Command>::empty();
    let c1 = none.push(f[0]);
    let c2 = c1.push(f[1]);
    let c3 = c2.push(f[2]);
    let c4 = c3.push(f[3]);
    let c5 = c4.push(f[4]);
    let c6 = c5.push(f[5]);
    assert(c6 =~= f);
    let swap = sim.swap_commands()[0];
    assert(f + sim.swap_commands() =~= c6.push(swap));
    lemma_one_more(d, work, st, none, f[0]);
    lemma_one_more(d, work, st, c1, f[1]);
    lemma_one_more(d, work, st, c2, f[2]);
    lemma_one_more(d, work, st, c3, f[3]);
    lemma_one_more(d, work, st, c4, f[4]);
    lemma_one_more(d, work, st, c5, f[5]);
    lemma_one_more(d, work, st, c6, swap);
    let s0 = st;
    let s1 = after_commands(d, work, st, c1);
    let s2 = after_commands(d, work, st, c2);
    let s3 = after_commands(d, work, st, c3);
    let s4 = after_commands(d, work, st, c4);
    let s5 = after_commands(d, work, st, c5);
    let s6 = after_commands(d, work, st, c6);
    assert(after_commands(d, work, st, none) == st);
    let n = plan.kernels as int;
    lemma_flow_pass(plan, d, 3, 0);
    lemma_flow_pass(plan, d, 5, 3);
    lemma_flow_pass(plan, d, 4, 1);
    lemma_flow_pass(plan, d, 4, 2);
    lemma_flow_pass(plan, d, 6, 4);
    lemma_flow_pass(plan, d, 7, 5);
    let b = |i: int| plan.buffer(i);
    // Growth is gathered by channel.
    assert(s1 == after_pass(d, s0, plan.pipeline(3), plan.group(n)));
    let gathered = Term::Made {
        entry: Entry::ChannelAggregate,
        slot: 1,
        from: seq![
            st(b(5), 0),
            Term::Nothing,
            st(b(23), 0),
            st(b(24), 0),
            st(b(17), 0),
        ],
    };
    let e0 = plan.flow_groups()[0].entries;
    let l3 = FlowLayout::layouts()[3];
    assert(read_by(s0, Entry::ChannelAggregate, l3, e0) =~= gathered->from);
    assert(s1(b(7), 0) == gathered);
    assert forall|x: usize, o: u64| x != b(7) implies #[trigger] s1(x, o) == s0(x, o) by {}
    // Mass is summed over channels.
    assert(s2 == after_pass(d, s1, plan.pipeline(5), plan.group(n + 3)));
    let summed = Term::Made {
        entry: Entry::SumChannels,
        slot: 1,
        from: seq![st(b(0), 0), Term::Nothing, st(b(20), 0)],
    };
    let e3 = plan.flow_groups()[3].entries;
    let l5 = FlowLayout::layouts()[5];
    assert(read_by(s1, Entry::SumChannels, l5, e3) =~= summed->from);
    assert(s2(b(12), 0) == summed);
    assert forall|x: usize, o: u64| x != b(12) implies #[trigger] s2(x, o) == s1(x, o) by {}
    // Both have their gradients taken.
    let rise = |of: Term, params: int, slot: int|
        Term::Made {
            entry: Entry::Sobel,
            slot,
            from: seq![of, Term::Nothing, Term::Nothing, st(plan.buffer(params), 0)],
        };
    let l4 = FlowLayout::layouts()[4];
    let e1 = plan.flow_groups()[1].entries;
    assert(s3 == after_pass(d, s2, plan.pipeline(4), plan.group(n + 1)));
    assert(read_by(s2, Entry::Sobel, l4, e1) =~= rise(gathered, 18, 1)->from);
    assert(s3(b(8), 0) == rise(gathered, 18, 1));
    assert(s3(b(9), 0) == rise(gathered, 18, 2));
    assert forall|x: usize, o: u64| x != b(8) && x != b(9) implies #[trigger] s3(x, o) == s2(
        x,
        o,
    ) by {}
    let e2 = plan.flow_groups()[2].entries;
    assert(s4 == after_pass(d, s3, plan.pipeline(4), plan.group(n + 2)));
    assert(read_by(s3, Entry::Sobel, l4, e2) =~= rise(summed, 19, 1)->from);
    assert(s4(b(10), 0) == rise(summed, 19, 1));
    assert(s4(b(11), 0) == rise(summed, 19, 2));
    assert forall|x: usize, o: u64| x != b(10) && x != b(11) implies #[trigger] s4(x, o) == s3(
        x,
        o,
    ) by {}
    // The flow.
    let flow = |slot: int|
        Term::Made {
            entry: Entry::FlowField,
            slot,
            from: seq![
                st(b(0), 0),
                rise(gathered, 18, 1),
                rise(gathered, 18, 2),
                rise(summed, 19, 1),
                rise(summed, 19, 2),
                Term::Nothing,
                Term::Nothing,
                st(b(21), 0),
            ],
        };
    let e4 = plan.flow_groups()[4].entries;
    let l6 = FlowLayout::layouts()[6];
    assert(s5 == after_pass(d, s4, plan.pipeline(6), plan.group(n + 4)));
    assert(read_by(s4, Entry::FlowField, l6, e4) =~= flow(5)->from);
    assert(s5(b(13), 0) == flow(5));
    assert(s5(b(14), 0) == flow(6));
    assert forall|x: usize, o: u64| x != b(13) && x != b(14) implies #[trigger] s5(x, o) == s4(
        x,
        o,
    ) by {}
    // The movement.
    let e5 = plan.flow_groups()[5].entries;
    let l7 = FlowLayout::layouts()[7];
    let moved = Term::Made {
        entry: Entry::Reintegration,
        slot: 3,
        from: seq![st(b(0), 0), flow(5), flow(6), Term::Nothing, st(b(22), 0)],
    };
    assert(s6 == after_pass(d, s5, plan.pipeline(7), plan.group(n + 5)));
    assert(read_by(s5, Entry::Reintegration, l7, e5) =~= moved->from);
    assert(s6(b(1), 0) == moved);
}

/// What the device knows of the passes of the first phase.
proof fn lemma_kernel_pass(plan: FlowLayout, d: DeviceView, k: int)
    requires
        numbered(plan),
        d.extends(plan.after()),
        0 <= k < plan.kernels,
    ensures
        d.pipelines[plan.pipeline(0) as int] == plan.pipelines()[0],
        d.pipelines[plan.pipeline(1) as int] == plan.pipelines()[1],
        d.pipelines[plan.pipeline(2) as int] == plan.pipelines()[2],
        d.layouts[plan.layout(0) as int] == FlowLayout::layouts()[0],
        d.layouts[plan.layout(1) as int] == FlowLayout::layouts()[1],
        d.layouts[plan.layout(2) as int] == FlowLayout::layouts()[2],
        d.groups[plan.group(k) as int] == plan.growth_group(k),
{
    reveal(DeviceView::extends);
    let a = plan.after();
    assert(a.pipelines == plan.before.pipelines + plan.pipelines());
    assert(a.layouts == plan.before.layouts + FlowLayout::layouts());
    assert(a.groups == plan.before.groups + plan.groups());
    assert(plan.pipelines().len() == 8 && FlowLayout::layouts().len() == 8);
    assert forall|p: int| 0 <= p < 3 implies d.pipelines[plan.before.pipelines.len() + p]
        == #[trigger] plan.pipelines()[p] && d.layouts[plan.before.layouts.len() + p]
        == FlowLayout::layouts()[p] by {
        let x = plan.before.pipelines.len() + p;
        let y = plan.before.layouts.len() + p;
        assert(d.pipelines.subrange(0, a.pipelines.len() as int)[x] == a.pipelines[x]);
        assert(d.layouts.subrange(0, a.layouts.len() as int)[y] == a.layouts[y]);
    }
    assert(plan.pipelines()[0].entry == Entry::CopyToConv);
    assert(plan.pipelines()[1].entry == Entry::ComplexMul);
    assert(plan.pipelines()[2].entry == Entry::NormalizeGrowth);
    let z = plan.before.groups.len() + k;
    assert(plan.groups()[k] == plan.growth_group(k));
    assert(a.groups[z] == plan.groups()[k]);
    assert(d.groups.subrange(0, a.groups.len() as int)[z] == a.groups[z]);
}

/// The spectrum of a channel: the channel, copied, transformed along the first axis and along the
/// second.
pub open spec fn spectrum_term(channel: Term) -> Term {
    Term::Turned {
        axis: 1,
        inverse: false,
        of: Box::new(
            Term::Turned {
                axis: 0,
                inverse: false,
                of: Box::new(
                    Term::Made {
                        entry: Entry::CopyToConv,
                        slot: 1,
                        from: seq![channel, Term::Nothing],
                    },
                ),
            },
        ),
    }
}

/// The convolution of a channel with a kernel: the spectrum of the channel times that of the
/// kernel, transformed back along the second axis and along the first.
pub open spec fn convolution_term(channel: Term, kernel: Term) -> Term {
    Term::Turned {
        axis: 0,
        inverse: true,
        of: Box::new(
            Term::Turned {
                axis: 1,
                inverse: true,
                of: Box::new(
                    Term::Made {
                        entry: Entry::ComplexMul,
                        slot: 0,
                        from: seq![spectrum_term(channel), kernel],
                    },
                ),
            },
        ),
    }
}

/// The growth of a kernel: its convolution, scaled and put through its bump.
pub open spec fn growth_term(channel: Term, kernel: Term, scale: Term, bump: Term) -> Term {
    Term::Made {
        entry: Entry::NormalizeGrowth,
        slot: 1,
        from: seq![
            convolution_term(channel, kernel),
            Term::Nothing,
            Term::Nothing,
            scale,
            bump,
        ],
    }
}

/// Whether the groups of channel `c` stand on a device from group `g` on: a copy and a product
/// for each kernel.
pub open spec fn pairs_stand<S: Real>(
    sim: GpuFlowLenia<S>,
    d: DeviceView,
    c: int,
    g: int,
) -> bool {
    &&& 0 <= g
    &&& g + 2 * sim.kernels(c).len() <= d.groups.len()
    &&& d.groups.len() <= usize::MAX
    &&& forall|i: int|
        0 <= i < sim.kernels(c).len() ==> d.groups[g + 2 * i + 1] == sim.cmul_group(
            #[trigger] sim.kernels(c)[i] as int,
        )
    &&& sim.kernels(c).len() > 0 ==> d.groups[g] == sim.copy_group(c)
}

/// What the first `n` kernels of a channel leave behind.
pub open spec fn grown_so_far<S: Real>(
    sim: GpuFlowLenia<S>,
    plan: FlowLayout,
    st: spec_fn(usize, u64) -> Term,
    now: spec_fn(usize, u64) -> Term,
    c: int,
    n: int,
) -> bool {
    let t = sim.total_elements as int;
    &&& now(sim.conv_saved_buffer, 0) == spectrum_term(
        st(sim.channel_buffer, (c * t * 4) as u64),
    )
    &&& forall|i: int|
        0 <= i < n ==> now(
            plan.buffer(5),
            (#[trigger] sim.kernels(c)[i] * t * 4) as u64,
        ) == growth_term(
            st(sim.channel_buffer, (c * t * 4) as u64),
            st(sim.kernel_buffer, (sim.kernels(c)[i] * t * 8) as u64),
            st(plan.buffer(16), 0),
            st(plan.buffer(15), (sim.kernels(c)[i] * GP_STRIDE) as u64),
        )
    &&& forall|b: usize, o: u64|
        b != sim.conv_buffer && b != sim.conv_saved_buffer && b != plan.buffer(5) && b
            != plan.buffer(6) ==> #[trigger] now(b, o) == st(b, o)
    &&& forall|o: u64|
        (forall|i: int|
            0 <= i < n ==> o != (#[trigger] sim.kernels(c)[i] * t * 4) as u64) ==> #[trigger] now(
            plan.buffer(5),
            o,
        ) == st(plan.buffer(5), o)
}

/// One kernel of a channel.
proof fn lemma_one_kernel<S: Real>(
    sim: GpuFlowLenia<S>,
    plan: FlowLayout,
    d: DeviceView,
    st: spec_fn(usize, u64) -> Term,
    now: spec_fn(usize, u64) -> Term,
    c: int,
    g: int,
    n: int,
)
    requires
        numbered(plan),
        sim.placed(plan),
        sim.wf(),
        sim.num_kernels == plan.kernels,
        sim.total_elements == plan.total(),
        sim.total_elements > 0,
        sim.num_kernels * sim.total_elements * 8 <= u64::MAX,
        d.extends(plan.after()),
        pairs_stand(sim, d, c, g),
        0 <= n < sim.kernels(c).len(),
        grown_so_far(sim, plan, st, now, c, n),
        n == 0 ==> now(sim.conv_buffer, 0) == now(sim.conv_saved_buffer, 0),
    ensures
        ({
            let k = sim.kernels(c)[n];
            let wg = workgroups(sim.total_elements as int);
            let restore = if n == 0 {
                seq![]
            } else {
                seq![sim.spectrum_copy(sim.conv_saved_buffer, sim.conv_buffer)]
            };
            let after = after_commands(
                d,
                sim.conv_buffer,
                now,
                restore + seq![
                    Command::Dispatch {
                        pipeline: sim.complex_mul_pipeline,
                        group: (g + 2 * n + 1) as usize,
                        workgroups: wg,
                    },
                    sim.transform1(true),
                    sim.transform0(true),
                    Command::Dispatch {
                        pipeline: sim.normalize_growth_pipeline,
                        group: sim.normalize_growth_bgs@[k as int],
                        workgroups: wg,
                    },
                ],
            );
            grown_so_far(sim, plan, st, after, c, n + 1)
        }),
{
    reveal_with_fuel(written_slot, 6);
    let t = sim.total_elements as int;
    let work = sim.conv_buffer;
    let saved = sim.conv_saved_buffer;
    let k = sim.kernels(c)[n];
    lemma_kernels_of(sim.c0@, sim.num_kernels as nat, c, n);
    lemma_kernel_pass(plan, d, k as int);
    let wg = workgroups(t);
    let restore = if n == 0 {
        Seq::<Command>::empty()
    } else {
        seq![sim.spectrum_copy(saved, work)]
    };
    let mul = Command::Dispatch {
        pipeline: sim.complex_mul_pipeline,
        group: (g + 2 * n + 1) as usize,
        workgroups: wg,
    };
    let back1 = sim.transform1(true);
    let back0 = sim.transform0(true);
    let grow = Command::Dispatch {
        pipeline: sim.normalize_growth_pipeline,
        group: sim.normalize_growth_bgs@[k as int],
        workgroups: wg,
    };
    let c1 = restore.push(mul);
    let c2 = c1.push(back1);
    let c3 = c2.push(back0);
    let c4 = c3.push(grow);
    assert(restore + seq![mul, back1, back0, grow] =~= c4);
    lemma_one_more(d, work, now, restore, mul);
    lemma_one_more(d, work, now, c1, back1);
    lemma_one_more(d, work, now, c2, back0);
    lemma_one_more(d, work, now, c3, grow);
    let s0 = after_commands(d, work, now, restore);
    let s1 = after_commands(d, work, now, c1);
    let s2 = after_commands(d, work, now, c2);
    let s3 = after_commands(d, work, now, c3);
    let s4 = after_commands(d, work, now, c4);
    let channel = st(sim.channel_buffer, (c * t * 4) as u64);
    let spectrum = spectrum_term(channel);
    if n == 0 {
        assert(s0 == now);
    } else {
        let none = Seq::<Command>::empty();
        assert(restore =~= none.push(sim.spectrum_copy(saved, work)));
        lemma_one_more(d, work, now, none, sim.spectrum_copy(saved, work));
        assert(after_commands(d, work, now, none) == now);
    }
    assert(s0(work, 0) == spectrum);
    assert forall|b: usize, o: u64| b != work implies #[trigger] s0(b, o) == now(b, o) by {}
    // The product.
    let kernel = st(sim.kernel_buffer, (k * t * 8) as u64);
    assert(d.groups[g + 2 * n + 1] == sim.cmul_group(k as int));
    let em = sim.cmul_group(k as int).entries;
    let lm = FlowLayout::layouts()[1];
    assert(s1 == after_pass(d, s0, plan.pipeline(1), (g + 2 * n + 1) as usize));
    let product = Term::Made {
        entry: Entry::ComplexMul,
        slot: 0,
        from: seq![spectrum, kernel],
    };
    assert(s0(sim.kernel_buffer, (k * t * 8) as u64) == kernel);
    assert(read_by(s0, Entry::ComplexMul, lm, em) =~= product->from);
    assert(s1(work, 0) == product);
    assert forall|b: usize, o: u64| b != work implies #[trigger] s1(b, o) == s0(b, o) by {}
    // Back.
    assert(s3(work, 0) == convolution_term(channel, kernel));
    assert forall|b: usize, o: u64| b != work implies #[trigger] s3(b, o) == s1(b, o) by {
        assert(s2(b, o) == s1(b, o));
    }
    // The growth.
    let gg = sim.normalize_growth_bgs@[k as int];
    assert(gg == plan.group(k as int));
    let eg = plan.growth_group(k as int).entries;
    let lg = FlowLayout::layouts()[2];
    assert(s4 == after_pass(d, s3, plan.pipeline(2), gg));
    let scale = st(plan.buffer(16), 0);
    let bump = st(plan.buffer(15), (k * GP_STRIDE) as u64);
    let grown = growth_term(channel, kernel, scale, bump);
    assert(s3(plan.buffer(16), 0) == scale);
    assert(s3(plan.buffer(15), (k * GP_STRIDE) as u64) == bump);
    assert(read_by(s3, Entry::NormalizeGrowth, lg, eg) =~= grown->from);
    let at = (k * t * 4) as u64;
    assert(s4(plan.buffer(5), at) == grown);
    assert forall|b: usize, o: u64|
        b != work && b != plan.buffer(5) && b != plan.buffer(6) implies #[trigger] s4(b, o) == s3(
        b,
        o,
    ) by {}
    assert forall|o: u64| o != at implies #[trigger] s4(plan.buffer(5), o) == s3(
        plan.buffer(5),
        o,
    ) by {}
    assert forall|i: int| 0 <= i < n + 1 implies s4(
        plan.buffer(5),
        (#[trigger] sim.kernels(c)[i] * t * 4) as u64,
    ) == growth_term(
        channel,
        st(sim.kernel_buffer, (sim.kernels(c)[i] * t * 8) as u64),
        scale,
        st(plan.buffer(15), (sim.kernels(c)[i] * GP_STRIDE) as u64),
    ) by {
        if i < n {
            lemma_kernels_differ(sim.c0@, sim.num_kernels as nat, c, i, n);
            let j = sim.kernels(c)[i];
            lemma_slots_differ(j as int, k as int, sim.num_kernels as int, t);
            assert((j * t * 4) as u64 != at);
            assert(now(plan.buffer(5), (j * t * 4) as u64) == s4(
                plan.buffer(5),
                (j * t * 4) as u64,
            ));
        }
    }
    assert forall|o: u64|
        (forall|i: int|
            0 <= i < n + 1 ==> o != (#[trigger] sim.kernels(c)[i] * t * 4) as u64) implies
        #[trigger] s4(plan.buffer(5), o) == st(plan.buffer(5), o) by {
        assert(o != (sim.kernels(c)[n] * t * 4) as u64);
        assert(s3(plan.buffer(5), o) == now(plan.buffer(5), o));
        assert(now(plan.buffer(5), o) == st(plan.buffer(5), o));
    }
}

/// Different slots start at different places.
pub proof fn lemma_slots_differ(j: int, k: int, n: int, t: int)
    requires
        0 <= j < k < n,
        t > 0,
        n * t * 8 <= u64::MAX,
    ensures
        (j * t * 4) as u64 != (k * t * 4) as u64,
{
    assert(0 <= j * t && j * t < k * t && k * t < n * t) by (nonlinear_arith)
        requires
            0 <= j < k < n,
            t > 0,
    ;
}

/// The kernels of a channel, one after the other.
proof fn lemma_kernels_grow<S: Real>(
    sim: GpuFlowLenia<S>,
    plan: FlowLayout,
    d: DeviceView,
    st: spec_fn(usize, u64) -> Term,
    now: spec_fn(usize, u64) -> Term,
    c: int,
    g: int,
    n: nat,
)
    requires
        numbered(plan),
        sim.placed(plan),
        sim.wf(),
        sim.num_kernels == plan.kernels,
        sim.total_elements == plan.total(),
        sim.total_elements > 0,
        sim.num_kernels * sim.total_elements * 8 <= u64::MAX,
        d.extends(plan.after()),
        pairs_stand(sim, d, c, g),
        n <= sim.kernels(c).len(),
        grown_so_far(sim, plan, st, now, c, 0),
        now(sim.conv_buffer, 0) == now(sim.conv_saved_buffer, 0),
    ensures
        grown_so_far(
            sim,
            plan,
            st,
            after_commands(d, sim.conv_buffer, now, sim.kernel_commands(c, g, n)),
            c,
            n as int,
        ),
    decreases n,
{
    if n > 0 {
        let i = n - 1;
        lemma_kernels_grow(sim, plan, d, st, now, c, g, i as nat);
        let head = sim.kernel_commands(c, g, i as nat);
        let mid = after_commands(d, sim.conv_buffer, now, head);
        let k = sim.kernels(c)[i];
        let wg = workgroups(sim.total_elements as int);
        let restore = if i == 0 {
            Seq::<Command>::empty()
        } else {
            seq![sim.spectrum_copy(sim.conv_saved_buffer, sim.conv_buffer)]
        };
        let tail = restore + seq![
            Command::Dispatch {
                pipeline: sim.complex_mul_pipeline,
                group: (g + 2 * i + 1) as usize,
                workgroups: wg,
            },
            sim.transform1(true),
            sim.transform0(true),
            Command::Dispatch {
                pipeline: sim.normalize_growth_pipeline,
                group: sim.normalize_growth_bgs@[k as int],
                workgroups: wg,
            },
        ];
        if i == 0 {
            assert(head =~= Seq::<Command>::empty());
            assert(mid == now);
        }
        lemma_one_kernel(sim, plan, d, st, mid, c, g, i);
        assert(sim.kernel_commands(c, g, n) =~= head + tail);
        lemma_some_more(d, sim.conv_buffer, now, head, tail);
    }
}

/// All kernels of a channel.
proof fn lemma_channel_grows<S: Real>(
    sim: GpuFlowLenia<S>,
    plan: FlowLayout,
    d: DeviceView,
    st: spec_fn(usize, u64) -> Term,
    c: int,
    g: int,
) -> (after: spec_fn(usize, u64) -> Term)
    requires
        numbered(plan),
        sim.placed(plan),
        sim.wf(),
        sim.num_kernels == plan.kernels,
        sim.total_elements == plan.total(),
        sim.total_elements > 0,
        sim.num_kernels * sim.total_elements * 8 <= u64::MAX,
        d.extends(plan.after()),
        pairs_stand(sim, d, c, g),
        sim.kernels(c).len() > 0,
    ensures
        after == after_commands(d, sim.conv_buffer, st, sim.channel_commands(c, g)),
        grown_so_far(sim, plan, st, after, c, sim.kernels(c).len() as int),
{
    reveal_with_fuel(written_slot, 6);
    let t = sim.total_elements as int;
    let work = sim.conv_buffer;
    let saved = sim.conv_saved_buffer;
    lemma_kernels_of(sim.c0@, sim.num_kernels as nat, c, 0);
    lemma_kernel_pass(plan, d, sim.kernels(c)[0] as int);
    let wg = workgroups(t);
    let copy = Command::Dispatch {
        pipeline: sim.copy_to_conv_pipeline,
        group: g as usize,
        workgroups: wg,
    };
    let there0 = sim.transform0(false);
    let there1 = sim.transform1(false);
    let save = sim.spectrum_copy(work, saved);
    let none = Seq::<Command>::empty();
    let c1 = none.push(copy);
    let c2 = c1.push(there0);
    let c3 = c2.push(there1);
    let c4 = c3.push(save);
    assert(seq![copy, there0, there1, save] =~= c4);
    lemma_one_more(d, work, st, none, copy);
    lemma_one_more(d, work, st, c1, there0);
    lemma_one_more(d, work, st, c2, there1);
    lemma_one_more(d, work, st, c3, save);
    assert(after_commands(d, work, st, none) == st);
    let s1 = after_commands(d, work, st, c1);
    let s2 = after_commands(d, work, st, c2);
    let s3 = after_commands(d, work, st, c3);
    let s4 = after_commands(d, work, st, c4);
    assert(d.groups[g] == sim.copy_group(c));
    let ec = sim.copy_group(c).entries;
    let lc = FlowLayout::layouts()[0];
    let channel = st(sim.channel_buffer, (c * t * 4) as u64);
    let copied = Term::Made {
        entry: Entry::CopyToConv,
        slot: 1,
        from: seq![channel, Term::Nothing],
    };
    assert(s1 == after_pass(d, st, plan.pipeline(0), g as usize));
    assert(read_by(st, Entry::CopyToConv, lc, ec) =~= copied->from);
    assert(s1(work, 0) == copied);
    assert forall|b: usize, o: u64| b != work implies #[trigger] s1(b, o) == st(b, o) by {}
    assert forall|b: usize, o: u64| b != work implies #[trigger] s3(b, o) == st(b, o) by {
        assert(s2(b, o) == s1(b, o));
    }
    assert(s3(work, 0) == spectrum_term(channel));
    assert(s4(saved, 0) == spectrum_term(channel));
    assert(s4(work, 0) == s4(saved, 0));
    assert forall|b: usize, o: u64| b != work && b != saved implies #[trigger] s4(b, o) == st(
        b,
        o,
    ) by {
        assert(s3(b, o) == st(b, o));
    }
    let n = sim.kernels(c).len();
    lemma_kernels_grow(sim, plan, d, st, s4, c, g, n);
    let rest = sim.kernel_commands(c, g, n);
    assert(sim.channel_commands(c, g) =~= c4 + rest);
    lemma_some_more(d, work, st, c4, rest);
    after_commands(d, work, st, sim.channel_commands(c, g))
}

/// The first phase of a step for a channel: every kernel that reads the channel, the first one
/// too, gets the growth of the channel convolved with that kernel, from the same spectrum of the
/// channel; kernels, parameters and masses stay as they were. `st` says what buffers hold before.
pub proof fn law_every_kernel_grows_from_its_channel<S: Real>(
    sim: GpuFlowLenia<S>,
    plan: FlowLayout,
    d: DeviceView,
    st: spec_fn(usize, u64) -> Term,
    c: int,
    g: int,
    i: int,
)
    requires
        numbered(plan),
        sim.placed(plan),
        sim.wf(),
        sim.num_kernels == plan.kernels,
        sim.total_elements == plan.total(),
        sim.total_elements > 0,
        sim.num_kernels * sim.total_elements * 8 <= u64::MAX,
        d.extends(plan.after()),
        pairs_stand(sim, d, c, g),
        0 <= i < sim.kernels(c).len(),
    ensures
        ({
            let t = sim.total_elements as int;
            let k = sim.kernels(c)[i] as int;
            let after = after_commands(d, sim.conv_buffer, st, sim.channel_commands(c, g));
            &&& sim.c0@[k] == c
            &&& after(plan.buffer(5), (k * t * 4) as u64) == growth_term(
                st(sim.channel_buffer, (c * t * 4) as u64),
                st(sim.kernel_buffer, (k * t * 8) as u64),
                st(plan.buffer(16), 0),
                st(sim.growth_params_buffer, (k * GP_STRIDE) as u64),
            )
            &&& forall|o: u64|
                #[trigger] after(sim.channel_buffer, o) == st(sim.channel_buffer, o)
            &&& forall|o: u64| #[trigger] after(sim.kernel_buffer, o) == st(sim.kernel_buffer, o)
        }),
{
    lemma_kernels_of(sim.c0@, sim.num_kernels as nat, c, i);
    let after = lemma_channel_grows(sim, plan, d, st, c, g);
    assert(sim.growth_params_buffer == plan.buffer(15));
}

/// The groups that a step creates stand where its channels look for them.
proof fn lemma_pairs_stand<S: Real>(sim: GpuFlowLenia<S>, d: DeviceView, c: int)
    requires
        0 <= c < sim.num_channels,
        sim.num_kernels <= usize::MAX,
        sim.stepped(d).groups.len() <= usize::MAX,
    ensures
        pairs_stand(
            sim,
            sim.stepped(d),
            c,
            (d.groups.len() + 2 * sim.order(c as nat).len()) as int,
        ),
{
    let e = sim.stepped(d);
    let all = sim.order(sim.num_channels as nat);
    let start = sim.order(c as nat).len() as int;
    let g = (d.groups.len() + 2 * sim.order(c as nat).len()) as int;
    let n = sim.num_kernels as nat;
    lemma_order_prefix(sim.c0@, n, c as nat, sim.num_channels as nat);
    assert(e.groups == d.groups + sim.pair_groups(all));
    assert(e.groups.len() == d.groups.len() + 2 * all.len());
    assert(g + 2 * sim.kernels(c).len() <= e.groups.len());
    assert forall|i: int| 0 <= i < sim.kernels(c).len() implies e.groups[g + 2 * i + 1]
        == sim.cmul_group(#[trigger] sim.kernels(c)[i] as int) by {
        lemma_order_at(sim.c0@, n, c as nat, sim.num_channels as nat, i);
        lemma_kernels_of(sim.c0@, n, c, i);
        let t = 2 * (start + i) + 1;
        assert(t / 2 == start + i && t % 2 == 1);
        assert(e.groups[d.groups.len() + t] == sim.pair_groups(all)[t]);
    }
    if sim.kernels(c).len() > 0 {
        lemma_order_at(sim.c0@, n, c as nat, sim.num_channels as nat, 0);
        lemma_kernels_of(sim.c0@, n, c, 0);
        let t = 2 * start;
        assert(t / 2 == start && t % 2 == 0);
        assert(e.groups[d.groups.len() + t] == sim.pair_groups(all)[t]);
        assert(e.groups[g] == sim.copy_group(c));
    }
}

/// What the kernels of the first `n` channels have grown.
pub open spec fn grown_from_channels<S: Real>(
    sim: GpuFlowLenia<S>,
    plan: FlowLayout,
    st: spec_fn(usize, u64) -> Term,
    now: spec_fn(usize, u64) -> Term,
    n: int,
) -> bool {
    let t = sim.total_elements as int;
    &&& forall|k: int|
        0 <= k < sim.num_kernels && sim.c0@[k] < n ==> now(
            plan.buffer(5),
            #[trigger] slot_of(k, t),
        ) == growth_term(
            st(sim.channel_buffer, (sim.c0@[k] * t * 4) as u64),
            st(sim.kernel_buffer, (k * t * 8) as u64),
            st(plan.buffer(16), 0),
            st(sim.growth_params_buffer, (k * GP_STRIDE) as u64),
        )
    &&& forall|b: usize, o: u64|
        b != sim.conv_buffer && b != sim.conv_saved_buffer && b != plan.buffer(5) && b
            != plan.buffer(6) ==> #[trigger] now(b, o) == st(b, o)
}

/// Where the growth of kernel `k` starts, on a grid of `t` cells.
pub open spec fn slot_of(k: int, t: int) -> u64 {
    (k * t * 4) as u64
}

/// All channels of a step, one after the other.
proof fn lemma_channels_grow<S: Real>(
    sim: GpuFlowLenia<S>,
    plan: FlowLayout,
    d: DeviceView,
    st: spec_fn(usize, u64) -> Term,
    n: nat,
)
    requires
        numbered(plan),
        sim.placed(plan),
        sim.wf(),
        sim.routed(),
        sim.num_kernels == plan.kernels,
        sim.total_elements == plan.total(),
        sim.total_elements > 0,
        sim.num_kernels * sim.total_elements * 8 <= u64::MAX,
        sim.stepped(d).extends(plan.after()),
        sim.stepped(d).groups.len() <= usize::MAX,
        n <= sim.num_channels,
    ensures
        grown_from_channels(
            sim,
            plan,
            st,
            after_commands(
                sim.stepped(d),
                sim.conv_buffer,
                st,
                submitted(sim.channel_submissions(d.groups.len() as int, n)),
            ),
            n as int,
        ),
    decreases n,
{
    let e = sim.stepped(d);
    let work = sim.conv_buffer;
    let g = d.groups.len() as int;
    let t = sim.total_elements as int;
    let ops = sim.channel_submissions(g, n);
    if n > 0 {
        let c = n - 1;
        lemma_channels_grow(sim, plan, d, st, c as nat);
        let before = sim.channel_submissions(g, c as nat);
        let head = submitted(before);
        let mid = after_commands(e, work, st, head);
        let ks = sim.kernels(c);
        let here = g + 2 * sim.order(c as nat).len();
        let body = sim.channel_commands(c, here);
        let now = after_commands(e, work, st, submitted(ops));
        if ks.len() > 0 {
            assert(ops.drop_last() =~= before);
            assert(ops.last() == QueueOpView::Submit(body));
            assert(submitted(ops) == head + body);
            lemma_some_more(e, work, st, head, body);
            lemma_pairs_stand(sim, d, c);
            law_every_kernel_grows_from_its_channel(sim, plan, e, mid, c, here, 0);
            lemma_channel_frame(sim, plan, e, mid, c, here);
        }
        assert forall|k: int| 0 <= k < sim.num_kernels && sim.c0@[k] < n implies now(
            plan.buffer(5),
            #[trigger] slot_of(k, t),
        ) == growth_term(
            st(sim.channel_buffer, (sim.c0@[k] * t * 4) as u64),
            st(sim.kernel_buffer, (k * t * 8) as u64),
            st(plan.buffer(16), 0),
            st(sim.growth_params_buffer, (k * GP_STRIDE) as u64),
        ) by {
            if sim.c0@[k] == c {
                let i = lemma_kernel_found(sim.c0@, sim.num_kernels as nat, c, k);
                law_every_kernel_grows_from_its_channel(sim, plan, e, mid, c, here, i);
                assert(mid(sim.channel_buffer, (c * t * 4) as u64) == st(
                    sim.channel_buffer,
                    (c * t * 4) as u64,
                ));
                assert(mid(sim.kernel_buffer, (k * t * 8) as u64) == st(
                    sim.kernel_buffer,
                    (k * t * 8) as u64,
                ));
                assert(mid(plan.buffer(16), 0) == st(plan.buffer(16), 0));
                assert(mid(sim.growth_params_buffer, (k * GP_STRIDE) as u64) == st(
                    sim.growth_params_buffer,
                    (k * GP_STRIDE) as u64,
                ));
            } else if ks.len() > 0 {
                assert forall|i: int| 0 <= i < ks.len() implies slot_of(k, t) != (
                #[trigger] sim.kernels(c)[i] * t * 4) as u64 by {
                    lemma_kernels_of(sim.c0@, sim.num_kernels as nat, c, i);
                    let j = sim.kernels(c)[i] as int;
                    if j < k {
                        lemma_slots_differ(j, k, sim.num_kernels as int, t);
                    } else {
                        lemma_slots_differ(k, j, sim.num_kernels as int, t);
                    }
                }
                assert(now(plan.buffer(5), slot_of(k, t)) == mid(plan.buffer(5), slot_of(k, t)));
            }
        }
    }
}

/// What the commands of a channel leave alone.
proof fn lemma_channel_frame<S: Real>(
    sim: GpuFlowLenia<S>,
    plan: FlowLayout,
    d: DeviceView,
    st: spec_fn(usize, u64) -> Term,
    c: int,
    g: int,
)
    requires
        numbered(plan),
        sim.placed(plan),
        sim.wf(),
        sim.num_kernels == plan.kernels,
        sim.total_elements == plan.total(),
        sim.total_elements > 0,
        sim.num_kernels * sim.total_elements * 8 <= u64::MAX,
        d.extends(plan.after()),
        pairs_stand(sim, d, c, g),
        sim.kernels(c).len() > 0,
    ensures
        ({
            let after = after_commands(d, sim.conv_buffer, st, sim.channel_commands(c, g));
            &&& forall|b: usize, o: u64|
                b != sim.conv_buffer && b != sim.conv_saved_buffer && b != plan.buffer(5) && b
                    != plan.buffer(6) ==> #[trigger] after(b, o) == st(b, o)
            &&& forall|o: u64|
                (forall|i: int|
                    0 <= i < sim.kernels(c).len() ==> o != (#[trigger] sim.kernels(c)[i]
                        * sim.total_elements * 4) as u64) ==> #[trigger] after(plan.buffer(5), o)
                    == st(plan.buffer(5), o)
        }),
{
    let after = lemma_channel_grows(sim, plan, d, st, c, g);
}

/// One step: every kernel's growth is that of the channel that it reads, convolved with the
/// kernel, and what follows works on that growth and on the mass that was there before. So with
/// [`law_mass_flows_up_growth_and_down_mass`] the mass after a step is fixed by the mass before
/// it. `st` says what buffers hold before, `d` is the device before the step.
pub proof fn law_step_grows_every_kernel_and_moves_mass<S: Real>(
    sim: GpuFlowLenia<S>,
    plan: FlowLayout,
    d: DeviceView,
    st: spec_fn(usize, u64) -> Term,
    k: int,
)
    requires
        numbered(plan),
        sim.placed(plan),
        sim.steppable(d),
        sim.num_kernels == plan.kernels,
        sim.total_elements == plan.total(),
        sim.num_kernels * sim.total_elements * 8 <= u64::MAX,
        sim.stepped(d).extends(plan.after()),
        sim.stepped(d).groups.len() <= usize::MAX,
        0 <= k < sim.num_kernels,
    ensures
        ({
            let e = sim.stepped(d);
            let t = sim.total_elements as int;
            let g = d.groups.len() as int;
            let grown = after_commands(
                e,
                sim.conv_buffer,
                st,
                submitted(sim.channel_submissions(g, sim.num_channels as nat)),
            );
            let after = after_commands(e, sim.conv_buffer, st, submitted(sim.submissions(g)));
            &&& grown(plan.buffer(5), (k * t * 4) as u64) == growth_term(
                st(sim.channel_buffer, (sim.c0@[k] * t * 4) as u64),
                st(sim.kernel_buffer, (k * t * 8) as u64),
                st(plan.buffer(16), 0),
                st(sim.growth_params_buffer, (k * GP_STRIDE) as u64),
            )
            &&& grown(sim.channel_buffer, 0) == st(sim.channel_buffer, 0)
            &&& after == after_commands(
                e,
                sim.conv_buffer,
                grown,
                sim.flow_commands() + sim.swap_commands(),
            )
        }),
{
    let e = sim.stepped(d);
    let t = sim.total_elements as int;
    let g = d.groups.len() as int;
    assert(t > 0) by (nonlinear_arith)
        requires
            t == sim.shape@[0] * sim.shape@[1],
            sim.shape@[0] > 0,
            sim.shape@[1] > 0,
    ;
    lemma_channels_grow(sim, plan, d, st, sim.num_channels as nat);
    assert(sim.c0@[k] < sim.num_channels);
    assert(slot_of(k, t) == (k * t * 4) as u64);
    let first = sim.channel_submissions(g, sim.num_channels as nat);
    let all = sim.submissions(g);
    let one = first.push(QueueOpView::Submit(sim.flow_commands()));
    let two = one.push(QueueOpView::Submit(sim.swap_commands()));
    assert(all =~= two);
    assert(two.drop_last() =~= one);
    assert(one.drop_last() =~= first);
    assert(submitted(one) == submitted(first) + sim.flow_commands());
    assert(submitted(two) == submitted(one) + sim.swap_commands());
    assert(submitted(all) =~= submitted(first) + (sim.flow_commands() + sim.swap_commands()));
    lemma_some_more(
        e,
        sim.conv_buffer,
        st,
        submitted(first),
        sim.flow_commands() + sim.swap_commands(),
    );
}

} // verus!
