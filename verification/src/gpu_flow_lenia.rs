//! Flow Lenia with metabolism, as one orchestrator over per-axis transforms.
//!
//! Kernels are grouped by source channel so that each channel is transformed once:
//! its spectrum is saved, then restored, multiplied and transformed back for each
//! kernel of the group.

use crate::complex::{pack_complex, pack_real, Complex};
use crate::fl::convolution::kernels_by_channel;
use crate::fl::phase2::flatten_targets;
use crate::fl::GP_STRIDE;
use crate::gpu::{
    copy_sizes, copy_words, part, sro, srw, unif, whole, BufferDesc, ByteOrder, Command,
    CommandEncoder, Device, Entry, Queue, Usage,
};
use crate::scalar::Real;
use vstd::prelude::*;

verus! {

use crate::bytes::{le_words, reals_of};
use crate::complex::{complex_words, real_words};
use crate::fl::convolution::{
    kernel_order, kernels_of, lemma_kernels_of, lemma_order_prefix,
};
use crate::fl::phase2::{flat_offsets, flattened};
use crate::gpu::{
    all_of, lemma_slot, part_of, ro, rw, un, workgroups, written, DeviceView, GroupView,
    LayoutEntry, PipelineDesc, QueueOpView, UploadView,
};
use crate::memory::{
    after_copy, after_writes, bytes_at, law_slot_reads_back, payload_of, slot_write,
};
use crate::scalar::{
    bits_of, count_of, functional, integer_of, minus_of, of_bits_of, over_of, powi_of,
};

/// Where the resources of a simulation stand, and the sizes they were made for.
pub struct FlowLayout {
    /// The device as the simulation found it.
    pub before: DeviceView,
    pub x: usize,
    pub y: usize,
    pub channels: usize,
    pub kernels: usize,
    /// How many entries the kernels' target lists have in all.
    pub targets: nat,
}

impl FlowLayout {
    /// The cells of the grid.
    pub open spec fn total(self) -> int {
        self.x * self.y
    }

    /// Whether every size in bytes is a machine number.
    pub open spec fn fits_machine(self) -> bool {
        &&& self.total() * 8 <= usize::MAX
        &&& self.total() * self.channels * 4 <= usize::MAX
        &&& self.total() * self.kernels * 8 <= usize::MAX
        &&& self.kernels * GP_STRIDE <= u64::MAX
        &&& (self.channels + 1) * 4 <= usize::MAX
        &&& self.targets * 4 <= usize::MAX
    }

    /// The identifier of the `i`-th buffer.
    pub open spec fn buffer(self, i: int) -> usize {
        (self.before.buffers.len() + i) as usize
    }

    /// The identifier of the `i`-th layout.
    pub open spec fn layout(self, i: int) -> usize {
        (self.before.layouts.len() + i) as usize
    }

    /// The identifier of the `i`-th pipeline.
    pub open spec fn pipeline(self, i: int) -> usize {
        (self.before.pipelines.len() + i) as usize
    }

    /// The identifier of the `i`-th bind group.
    pub open spec fn group(self, i: int) -> usize {
        (self.before.groups.len() + i) as usize
    }

    /// The buffers that the phases share: mass, next mass, transform, saved transform,
    /// kernels, growth, potentials, growth by channel, its gradients, gradients of the
    /// mass, summed mass, flow.
    pub open spec fn shared_buffers(self) -> Seq<BufferDesc> {
        let cell = BufferDesc { size: (self.total() * 4) as u64, usage: Usage::Storage };
        let complex = BufferDesc { size: (self.total() * 8) as u64, usage: Usage::Storage };
        let channel = BufferDesc {
            size: (self.total() * self.channels * 4) as u64,
            usage: Usage::Storage,
        };
        let kernel = BufferDesc {
            size: (self.total() * self.kernels * 8) as u64,
            usage: Usage::Storage,
        };
        let growth = BufferDesc {
            size: (self.total() * self.kernels * 4) as u64,
            usage: Usage::Storage,
        };
        seq![
            channel,
            channel,
            complex,
            complex,
            kernel,
            growth,
            growth,
            channel,
            channel,
            channel,
            cell,
            cell,
            cell,
            channel,
            channel,
        ]
    }

    /// The buffers that hold parameters: growth, scale factor, aggregation, both
    /// gradients, channel sum, flow, reintegration, target lists, their offsets; last
    /// the buffer that the host reads.
    pub open spec fn param_buffers(self) -> Seq<BufferDesc> {
        seq![
            BufferDesc { size: (self.kernels * GP_STRIDE) as u64, usage: Usage::Table },
            BufferDesc { size: 4, usage: Usage::Uniform },
            BufferDesc { size: 12, usage: Usage::Uniform },
            BufferDesc { size: 12, usage: Usage::Uniform },
            BufferDesc { size: 12, usage: Usage::Uniform },
            BufferDesc { size: 8, usage: Usage::Uniform },
            BufferDesc { size: 12, usage: Usage::Uniform },
            BufferDesc { size: 36, usage: Usage::Uniform },
            BufferDesc { size: (self.targets * 4) as u64, usage: Usage::Table },
            BufferDesc { size: ((self.channels + 1) * 4) as u64, usage: Usage::Table },
            BufferDesc { size: (self.total() * 4) as u64, usage: Usage::Readback },
        ]
    }

    /// The layouts: copy, product, scaling with growth, aggregation, gradients, channel
    /// sum, flow, reintegration.
    pub open spec fn layouts() -> Seq<Seq<LayoutEntry>> {
        seq![
            seq![ro(4), rw(5)],
            seq![rw(6), ro(7)],
            seq![rw(8), rw(9), rw(10), un(11), ro(12)],
            seq![ro(13), rw(14), ro(15), ro(16), un(17)],
            seq![ro(21), rw(22), rw(23), un(24)],
            seq![ro(18), rw(19), un(20)],
            seq![ro(25), ro(26), ro(27), ro(28), ro(29), rw(30), rw(31), un(32)],
            seq![ro(33), ro(34), ro(35), rw(36), un(37)],
        ]
    }

    /// The pipelines, one for each layout.
    pub open spec fn pipelines(self) -> Seq<PipelineDesc> {
        seq![
            PipelineDesc { layout: self.layout(0), entry: Entry::CopyToConv },
            PipelineDesc { layout: self.layout(1), entry: Entry::ComplexMul },
            PipelineDesc { layout: self.layout(2), entry: Entry::NormalizeGrowth },
            PipelineDesc { layout: self.layout(3), entry: Entry::ChannelAggregate },
            PipelineDesc { layout: self.layout(4), entry: Entry::Sobel },
            PipelineDesc { layout: self.layout(5), entry: Entry::SumChannels },
            PipelineDesc { layout: self.layout(6), entry: Entry::FlowField },
            PipelineDesc { layout: self.layout(7), entry: Entry::Reintegration },
        ]
    }

    /// The group that scales the result of kernel `k` and applies its growth.
    pub open spec fn growth_group(self, k: int) -> GroupView {
        let offset = (k * self.total() * 4) as u64;
        let size = (self.total() * 4) as u64;
        GroupView {
            layout: self.layout(2),
            entries: seq![
                all_of(8, self.buffer(2)),
                part_of(9, self.buffer(5), offset, size),
                part_of(10, self.buffer(6), offset, size),
                all_of(11, self.buffer(16)),
                part_of(12, self.buffer(15), (k * GP_STRIDE) as u64, 12),
            ],
        }
    }

    /// The groups of the second phase: aggregation, gradient of the growth, gradient of
    /// the mass, channel sum, flow, reintegration.
    pub open spec fn flow_groups(self) -> Seq<GroupView> {
        seq![
            GroupView {
                layout: self.layout(3),
                entries: seq![
                    all_of(13, self.buffer(5)),
                    all_of(14, self.buffer(7)),
                    all_of(15, self.buffer(23)),
                    all_of(16, self.buffer(24)),
                    all_of(17, self.buffer(17)),
                ],
            },
            GroupView {
                layout: self.layout(4),
                entries: seq![
                    all_of(21, self.buffer(7)),
                    all_of(22, self.buffer(8)),
                    all_of(23, self.buffer(9)),
                    all_of(24, self.buffer(18)),
                ],
            },
            GroupView {
                layout: self.layout(4),
                entries: seq![
                    all_of(21, self.buffer(12)),
                    all_of(22, self.buffer(10)),
                    all_of(23, self.buffer(11)),
                    all_of(24, self.buffer(19)),
                ],
            },
            GroupView {
                layout: self.layout(5),
                entries: seq![
                    all_of(18, self.buffer(0)),
                    all_of(19, self.buffer(12)),
                    all_of(20, self.buffer(20)),
                ],
            },
            GroupView {
                layout: self.layout(6),
                entries: seq![
                    all_of(25, self.buffer(0)),
                    all_of(26, self.buffer(8)),
                    all_of(27, self.buffer(9)),
                    all_of(28, self.buffer(10)),
                    all_of(29, self.buffer(11)),
                    all_of(30, self.buffer(13)),
                    all_of(31, self.buffer(14)),
                    all_of(32, self.buffer(21)),
                ],
            },
            GroupView {
                layout: self.layout(7),
                entries: seq![
                    all_of(33, self.buffer(0)),
                    all_of(34, self.buffer(13)),
                    all_of(35, self.buffer(14)),
                    all_of(36, self.buffer(1)),
                    all_of(37, self.buffer(22)),
                ],
            },
        ]
    }

    /// Every bind group that the setup creates.
    pub open spec fn groups(self) -> Seq<GroupView> {
        Seq::new(self.kernels as nat, |k: int| self.growth_group(k)) + self.flow_groups()
    }

    /// The device once the simulation is set up.
    pub open spec fn after(self) -> DeviceView {
        self.before.grown(
            self.shared_buffers() + self.param_buffers(),
            Self::layouts(),
            self.pipelines(),
            self.groups(),
        )
    }

    /// The write of one kernel's growth parameters.
    pub open spec fn growth_write<S: Real>(self, k: int, m: S, s: S, h: S) -> QueueOpView {
        written(
            self.buffer(15),
            (k * GP_STRIDE) as u64,
            ByteOrder::Native,
            seq![bits_of(m), bits_of(s), bits_of(h)],
        )
    }

    /// What the setup writes.
    pub open spec fn writes<S: Real>(
        self,
        padded_len: usize,
        c1: Seq<Vec<u32>>,
        m: Seq<S>,
        s: Seq<S>,
        h: Seq<S>,
        dt: S,
        dd: i32,
        sigma: S,
        basal: S,
        kinetic: S,
    ) -> Seq<QueueOpView> {
        let x = self.x as u32;
        let y = self.y as u32;
        let c = self.channels as u32;
        Seq::new(self.kernels as nat, |k: int| self.growth_write(k, m[k], s[k], h[k])) + seq![
            written(self.buffer(23), 0, ByteOrder::Native, flattened(c1, self.channels as nat)),
            written(
                self.buffer(24),
                0,
                ByteOrder::Native,
                flat_offsets(c1, self.channels as nat),
            ),
            written(
                self.buffer(16),
                0,
                ByteOrder::Native,
                seq![
                    bits_of(
                        over_of(integer_of::<S>(1i64), powi_of(count_of::<S>(padded_len), 2i32)),
                    ),
                ],
            ),
            written(self.buffer(17), 0, ByteOrder::Native, seq![x, self.kernels as u32, c]),
            written(self.buffer(18), 0, ByteOrder::Native, seq![x, y, c]),
            written(self.buffer(19), 0, ByteOrder::Native, seq![x, y, 1u32]),
            written(self.buffer(20), 0, ByteOrder::Native, seq![x, c]),
            written(
                self.buffer(21),
                0,
                ByteOrder::Little,
                seq![x, c, bits_of(count_of::<S>(self.channels))],
            ),
            written(
                self.buffer(22),
                0,
                ByteOrder::Little,
                reintegration_words(x, y, dd, sigma, dt, c, basal, kinetic),
            ),
        ]
    }
}

/// The parameters of reintegration: extent, reach, spread, time step, channels, largest
/// displacement, and what living and moving cost.
pub open spec fn reintegration_words<S: Real>(
    x: u32,
    y: u32,
    dd: i32,
    sigma: S,
    dt: S,
    channels: u32,
    basal: S,
    kinetic: S,
) -> Seq<u32> {
    seq![
        x,
        y,
        dd as u32,
        bits_of(sigma),
        bits_of(dt),
        channels,
        bits_of(minus_of(integer_of::<S>(dd as i64), sigma)),
        bits_of(basal),
        bits_of(kinetic),
    ]
}

/// Packs the parameters of reintegration.
fn pack_reintegration<S: Real>(
    x: u32,
    y: u32,
    dd: i32,
    sigma: S,
    dt: S,
    channels: u32,
    basal: S,
    kinetic: S,
) -> (words: Vec<u32>)
    ensures
        functional::<S>() ==> words@ == reintegration_words(
            x,
            y,
            dd,
            sigma,
            dt,
            channels,
            basal,
            kinetic,
        ),
{
    let ma = S::integer(dd as i64).minus(sigma);
    let words: Vec<u32> = vec![
        x,
        y,
        dd as u32,
        sigma.bits(),
        dt.bits(),
        channels,
        ma.bits(),
        basal.bits(),
        kinetic.bits(),
    ];
    assert(functional::<S>() ==> words@ =~= reintegration_words(
        x,
        y,
        dd,
        sigma,
        dt,
        channels,
        basal,
        kinetic,
    ));
    words
}

/// Creates the shared buffers and returns the identifier of the first.
fn create_shared(
    device: &mut Device,
    total_elements: usize,
    num_channels: usize,
    num_kernels: usize,
    Ghost(plan): Ghost<FlowLayout>,
) -> (first: usize)
    requires
        old(device)@.wf(),
        plan.before == old(device)@,
        plan.fits_machine(),
        total_elements == plan.total(),
        num_channels == plan.channels,
        num_kernels == plan.kernels,
    ensures
        first == old(device)@.buffers.len(),
        final(device)@ == (DeviceView {
            buffers: old(device)@.buffers + plan.shared_buffers(),
            ..old(device)@
        }),
        final(device)@.wf(),
{
    proof {
        let t = total_elements as int;
        let c = num_channels as int;
        let k = num_kernels as int;
        assert(0 <= t * c <= t * c * 4 && 0 <= t * k <= t * k * 4 <= t * k * 8)
            by (nonlinear_arith)
            requires
                t >= 0,
                c >= 0,
                k >= 0,
        ;
    }
    let cell: u64 = (total_elements * 4) as u64;
    let complex: u64 = (total_elements * 8) as u64;
    let channel: u64 = (total_elements * num_channels * 4) as u64;
    let kernel: u64 = (total_elements * num_kernels * 8) as u64;
    let growth: u64 = (total_elements * num_kernels * 4) as u64;
    let first: usize = device.create_buffer(channel, Usage::Storage);
    device.create_buffer(channel, Usage::Storage);
    device.create_buffer(complex, Usage::Storage);
    device.create_buffer(complex, Usage::Storage);
    device.create_buffer(kernel, Usage::Storage);
    device.create_buffer(growth, Usage::Storage);
    device.create_buffer(growth, Usage::Storage);
    device.create_buffer(channel, Usage::Storage);
    device.create_buffer(channel, Usage::Storage);
    device.create_buffer(channel, Usage::Storage);
    device.create_buffer(cell, Usage::Storage);
    device.create_buffer(cell, Usage::Storage);
    device.create_buffer(cell, Usage::Storage);
    device.create_buffer(channel, Usage::Storage);
    device.create_buffer(channel, Usage::Storage);
    assert(device@.buffers =~= old(device)@.buffers + plan.shared_buffers());
    first
}

/// Creates the parameter buffers.
fn create_params(
    device: &mut Device,
    total_elements: usize,
    num_channels: usize,
    num_kernels: usize,
    targets: usize,
    Ghost(plan): Ghost<FlowLayout>,
)
    requires
        old(device)@.wf(),
        plan.fits_machine(),
        total_elements == plan.total(),
        num_channels == plan.channels,
        num_kernels == plan.kernels,
        targets == plan.targets,
    ensures
        final(device)@ == (DeviceView {
            buffers: old(device)@.buffers + plan.param_buffers(),
            ..old(device)@
        }),
        final(device)@.wf(),
{
    device.create_buffer((num_kernels as u64) * GP_STRIDE, Usage::Table);
    device.create_buffer(4, Usage::Uniform);
    device.create_buffer(12, Usage::Uniform);
    device.create_buffer(12, Usage::Uniform);
    device.create_buffer(12, Usage::Uniform);
    device.create_buffer(8, Usage::Uniform);
    device.create_buffer(12, Usage::Uniform);
    device.create_buffer(36, Usage::Uniform);
    device.create_buffer((targets * 4) as u64, Usage::Table);
    device.create_buffer(((num_channels + 1) * 4) as u64, Usage::Table);
    device.create_buffer((total_elements * 4) as u64, Usage::Readback);
    assert(device@.buffers =~= old(device)@.buffers + plan.param_buffers());
}

/// Creates the layouts and pipelines and returns the identifiers of the first of each.
fn create_pipelines(device: &mut Device, Ghost(plan): Ghost<FlowLayout>) -> (firsts: (usize, usize))
    requires
        old(device)@.wf(),
        plan.before.layouts == old(device)@.layouts,
        plan.before.pipelines == old(device)@.pipelines,
    ensures
        firsts.0 == old(device)@.layouts.len(),
        firsts.1 == old(device)@.pipelines.len(),
        final(device)@ == (DeviceView {
            layouts: old(device)@.layouts + FlowLayout::layouts(),
            pipelines: old(device)@.pipelines + plan.pipelines(),
            ..old(device)@
        }),
        final(device)@.wf(),
{
    let l0 = vec![sro(4), srw(5)];
    let l1 = vec![srw(6), sro(7)];
    let l2 = vec![srw(8), srw(9), srw(10), unif(11), sro(12)];
    let l3 = vec![sro(13), srw(14), sro(15), sro(16), unif(17)];
    let l4 = vec![sro(21), srw(22), srw(23), unif(24)];
    let l5 = vec![sro(18), srw(19), unif(20)];
    let l6 = vec![sro(25), sro(26), sro(27), sro(28), sro(29), srw(30), srw(31), unif(32)];
    let l7 = vec![sro(33), sro(34), sro(35), srw(36), unif(37)];
    assert(l0@ =~= FlowLayout::layouts()[0]);
    assert(l1@ =~= FlowLayout::layouts()[1]);
    assert(l2@ =~= FlowLayout::layouts()[2]);
    assert(l3@ =~= FlowLayout::layouts()[3]);
    assert(l4@ =~= FlowLayout::layouts()[4]);
    assert(l5@ =~= FlowLayout::layouts()[5]);
    assert(l6@ =~= FlowLayout::layouts()[6]);
    assert(l7@ =~= FlowLayout::layouts()[7]);
    let copy_to_conv: usize = device.create_bind_group_layout(l0);
    let complex_mul: usize = device.create_bind_group_layout(l1);
    let normalize_growth: usize = device.create_bind_group_layout(l2);
    let channel_aggregate: usize = device.create_bind_group_layout(l3);
    let sobel: usize = device.create_bind_group_layout(l4);
    let sum_channels: usize = device.create_bind_group_layout(l5);
    let flow_field: usize = device.create_bind_group_layout(l6);
    let reintegration: usize = device.create_bind_group_layout(l7);
    assert(device@.layouts =~= old(device)@.layouts + FlowLayout::layouts());
    let first: usize = device.create_compute_pipeline(copy_to_conv, Entry::CopyToConv);
    device.create_compute_pipeline(complex_mul, Entry::ComplexMul);
    device.create_compute_pipeline(normalize_growth, Entry::NormalizeGrowth);
    device.create_compute_pipeline(channel_aggregate, Entry::ChannelAggregate);
    device.create_compute_pipeline(sobel, Entry::Sobel);
    device.create_compute_pipeline(sum_channels, Entry::SumChannels);
    device.create_compute_pipeline(flow_field, Entry::FlowField);
    device.create_compute_pipeline(reintegration, Entry::Reintegration);
    assert(device@.pipelines =~= old(device)@.pipelines + plan.pipelines());
    (copy_to_conv, first)
}

impl FlowLayout {
    /// Whether a device has the buffers, layouts and pipelines of the setup.
    pub open spec fn hosted(self, d: DeviceView) -> bool {
        &&& d.wf()
        &&& d.buffers == self.before.buffers + (self.shared_buffers() + self.param_buffers())
        &&& d.layouts == self.before.layouts + Self::layouts()
        &&& d.pipelines == self.before.pipelines + self.pipelines()
        &&& d.buffers.len() <= usize::MAX
        &&& d.layouts.len() <= usize::MAX
        &&& d.pipelines.len() <= usize::MAX
    }

    /// What the buffers of a hosted setup are.
    proof fn lemma_hosted(self, d: DeviceView)
        requires
            self.hosted(d),
        ensures
            forall|i: int|
                0 <= i < 15 ==> d.buffers[self.before.buffers.len() + i]
                    == #[trigger] self.shared_buffers()[i],
            forall|i: int|
                0 <= i < 11 ==> d.buffers[self.before.buffers.len() + 15 + i]
                    == #[trigger] self.param_buffers()[i],
            forall|i: int|
                0 <= i < 8 ==> d.layouts[self.before.layouts.len() + i]
                    == #[trigger] Self::layouts()[i],
    {
    }
}

/// Creates the growth groups of all kernels.
fn create_growth_groups(
    device: &mut Device,
    num_kernels: usize,
    total_elements: usize,
    first: usize,
    first_layout: usize,
    Ghost(plan): Ghost<FlowLayout>,
) -> (ids: Vec<usize>)
    requires
        plan.hosted(old(device)@),
        plan.fits_machine(),
        old(device)@.groups == plan.before.groups,
        num_kernels == plan.kernels,
        total_elements == plan.total(),
        first == plan.before.buffers.len(),
        first_layout == plan.before.layouts.len(),
    ensures
        ids@ == Seq::new(num_kernels as nat, |k: int| plan.group(k)),
        final(device)@ == (DeviceView {
            groups: old(device)@.groups + Seq::new(
                num_kernels as nat,
                |k: int| plan.growth_group(k),
            ),
            ..old(device)@
        }),
        final(device)@.wf(),
{
    let mut ids: Vec<usize> = Vec::new();
    let ghost d = device@;
    let mut k: usize = 0;
    assert(device@.groups =~= d.groups + Seq::new(0, |k: int| plan.growth_group(k)));
    while k < num_kernels
        invariant
            k <= num_kernels,
            plan.hosted(d),
            plan.fits_machine(),
            d.groups == plan.before.groups,
            num_kernels == plan.kernels,
            total_elements == plan.total(),
            first == plan.before.buffers.len(),
            first_layout == plan.before.layouts.len(),
            ids@ == Seq::new(k as nat, |k: int| plan.group(k)),
            device@ == (DeviceView {
                groups: d.groups + Seq::new(k as nat, |k: int| plan.growth_group(k)),
                ..d
            }),
            device@.wf(),
        decreases num_kernels - k,
    {
        proof {
            let t = total_elements as int;
            let n = num_kernels as int;
            assert(t * n == n * t) by (nonlinear_arith);
            lemma_slot(k as int, n, t, 8);
            lemma_slot(k as int, n, t, 4);
            plan.lemma_hosted(d);
            let b = plan.before.buffers.len() as int;
            let l = plan.before.layouts.len() as int;
            assert(d.buffers[b + 2] == plan.shared_buffers()[2]);
            assert(d.buffers[b + 5] == plan.shared_buffers()[5]);
            assert(d.buffers[b + 6] == plan.shared_buffers()[6]);
            assert(d.buffers[b + 15 + 0] == plan.param_buffers()[0]);
            assert(d.buffers[b + 15 + 1] == plan.param_buffers()[1]);
            assert(d.layouts[l + 2] == FlowLayout::layouts()[2]);
        }
        let u_offset: u64 = (k * total_elements * 4) as u64;
        let u_size: u64 = (total_elements * 4) as u64;
        let entries = vec![
            whole(8, first + 2),
            part(9, first + 5, u_offset, u_size),
            part(10, first + 6, u_offset, u_size),
            whole(11, first + 16),
            part(12, first + 15, (k as u64) * GP_STRIDE, 12),
        ];
        assert(entries@ =~= plan.growth_group(k as int).entries);
        let id: usize = device.create_bind_group(first_layout + 2, entries);
        ids.push(id);
        assert(ids@ =~= Seq::new((k + 1) as nat, |k: int| plan.group(k)));
        assert(device@.groups =~= d.groups + Seq::new(
            (k + 1) as nat,
            |k: int| plan.growth_group(k),
        ));
        k = k + 1;
    }
    ids
}

/// Creates the groups of the second phase.
fn create_flow_groups(
    device: &mut Device,
    b: usize,
    l: usize,
    Ghost(plan): Ghost<FlowLayout>,
) -> (first: usize)
    requires
        plan.hosted(old(device)@),
        b == plan.before.buffers.len(),
        l == plan.before.layouts.len(),
    ensures
        first == old(device)@.groups.len(),
        final(device)@ == (DeviceView {
            groups: old(device)@.groups + plan.flow_groups(),
            ..old(device)@
        }),
        final(device)@.wf(),
{
    let ghost d = device@;
    let ghost gs = plan.flow_groups();
    let g0 = vec![
        whole(13, b + 5),
        whole(14, b + 7),
        whole(15, b + 23),
        whole(16, b + 24),
        whole(17, b + 17),
    ];
    let g1 = vec![whole(21, b + 7), whole(22, b + 8), whole(23, b + 9), whole(24, b + 18)];
    let g2 = vec![whole(21, b + 12), whole(22, b + 10), whole(23, b + 11), whole(24, b + 19)];
    let g3 = vec![whole(18, b), whole(19, b + 12), whole(20, b + 20)];
    let g4 = vec![
        whole(25, b),
        whole(26, b + 8),
        whole(27, b + 9),
        whole(28, b + 10),
        whole(29, b + 11),
        whole(30, b + 13),
        whole(31, b + 14),
        whole(32, b + 21),
    ];
    let g5 = vec![
        whole(33, b),
        whole(34, b + 13),
        whole(35, b + 14),
        whole(36, b + 1),
        whole(37, b + 22),
    ];
    assert(g0@ =~= gs[0].entries);
    assert(g1@ =~= gs[1].entries);
    assert(g2@ =~= gs[2].entries);
    assert(g3@ =~= gs[3].entries);
    assert(g4@ =~= gs[4].entries);
    assert(g5@ =~= gs[5].entries);
    let first: usize = device.create_bind_group(l + 3, g0);
    device.create_bind_group(l + 4, g1);
    device.create_bind_group(l + 4, g2);
    device.create_bind_group(l + 5, g3);
    device.create_bind_group(l + 6, g4);
    device.create_bind_group(l + 7, g5);
    assert(device@.groups =~= d.groups + gs);
    first
}

/// Records the growth parameters of all kernels.
fn write_growth<S: Real>(
    queue: &mut Queue,
    growth_params_buffer: usize,
    num_kernels: usize,
    m: &[S],
    s: &[S],
    h: &[S],
    Ghost(plan): Ghost<FlowLayout>,
)
    requires
        growth_params_buffer == plan.buffer(15),
        num_kernels * GP_STRIDE <= u64::MAX,
        m@.len() >= num_kernels,
        s@.len() >= num_kernels,
        h@.len() >= num_kernels,
    ensures
        functional::<S>() ==> final(queue)@ == old(queue)@ + Seq::new(
            num_kernels as nat,
            |k: int| plan.growth_write(k, m@[k], s@[k], h@[k]),
        ),
{
    let ghost q = queue@;
    let mut k: usize = 0;
    assert(q =~= q + Seq::new(0, |k: int| plan.growth_write(k, m@[k], s@[k], h@[k])));
    while k < num_kernels
        invariant
            k <= num_kernels,
            growth_params_buffer == plan.buffer(15),
            num_kernels * GP_STRIDE <= u64::MAX,
            m@.len() >= num_kernels,
            s@.len() >= num_kernels,
            h@.len() >= num_kernels,
            functional::<S>() ==> queue@ == q + Seq::new(
                k as nat,
                |k: int| plan.growth_write(k, m@[k], s@[k], h@[k]),
            ),
        decreases num_kernels - k,
    {
        let gp: Vec<u32> = vec![m[k].bits(), s[k].bits(), h[k].bits()];
        assert(functional::<S>() ==> gp@ =~= seq![
            bits_of(m@[k as int]),
            bits_of(s@[k as int]),
            bits_of(h@[k as int]),
        ]);
        queue.write_buffer(growth_params_buffer, (k as u64) * GP_STRIDE, ByteOrder::Native, gp);
        assert(functional::<S>() ==> queue@ =~= q + Seq::new(
            (k + 1) as nat,
            |k: int| plan.growth_write(k, m@[k], s@[k], h@[k]),
        ));
        k = k + 1;
    }
}

/// A Flow Lenia simulation with metabolism.
pub struct GpuFlowLenia<S> {
    pub shape: Vec<usize>,
    pub total_elements: usize,
    pub dt: S,
    pub num_channels: usize,
    pub num_kernels: usize,
    pub dd: i32,
    pub sigma: S,
    pub basal_metabolic_rate: S,
    pub kinetic_cost: S,
    pub c0: Vec<u32>,
    pub kernel_m: Vec<S>,
    pub kernel_s: Vec<S>,
    pub kernel_h: Vec<S>,
    /// All channels, packed.
    pub channel_buffer: usize,
    /// All channels after one step, packed.
    pub new_channel_buffer: usize,
    /// The buffer that the transforms work in.
    pub conv_buffer: usize,
    /// A saved spectrum, shared by the kernels that read one channel.
    pub conv_saved_buffer: usize,
    /// All kernels in the frequency domain, packed.
    pub kernel_buffer: usize,
    pub copy_to_conv_pipeline: usize,
    pub complex_mul_pipeline: usize,
    pub normalize_growth_pipeline: usize,
    pub channel_aggregate_pipeline: usize,
    pub sobel_pipeline: usize,
    pub sum_channels_pipeline: usize,
    pub flow_field_pipeline: usize,
    pub reintegration_pipeline: usize,
    pub copy_to_conv_bgl: usize,
    pub complex_mul_bgl: usize,
    pub channel_aggregate_bg: usize,
    pub sobel_u_bg: usize,
    pub sobel_a_bg: usize,
    pub sum_channels_bg: usize,
    pub flow_field_bg: usize,
    pub reintegration_bg: usize,
    /// One group for each kernel.
    pub normalize_growth_bgs: Vec<usize>,
    pub growth_params_buffer: usize,
    pub reintegration_params_buffer: usize,
    pub readback_buffer: usize,
}

/// A copy of a list of numbers.
fn copy_numbers<S: Copy>(list: &[S]) -> (copy: Vec<S>)
    ensures
        copy@ == list@,
{
    let mut copy: Vec<S> = Vec::new();
    let mut i: usize = 0;
    while i < list.len()
        invariant
            i <= list@.len(),
            copy@ == list@.take(i as int),
        decreases list@.len() - i,
    {
        copy.push(list[i]);
        assert(copy@ =~= list@.take(i + 1));
        i = i + 1;
    }
    assert(list@.take(i as int) =~= list@);
    copy
}

impl<S: Real> GpuFlowLenia<S> {
    /// Whether the simulation refers to the resources that a layout describes.
    pub open spec fn placed(self, plan: FlowLayout) -> bool {
        &&& self.channel_buffer == plan.buffer(0)
        &&& self.new_channel_buffer == plan.buffer(1)
        &&& self.conv_buffer == plan.buffer(2)
        &&& self.conv_saved_buffer == plan.buffer(3)
        &&& self.kernel_buffer == plan.buffer(4)
        &&& self.growth_params_buffer == plan.buffer(15)
        &&& self.reintegration_params_buffer == plan.buffer(22)
        &&& self.readback_buffer == plan.buffer(25)
        &&& self.copy_to_conv_bgl == plan.layout(0)
        &&& self.complex_mul_bgl == plan.layout(1)
        &&& self.copy_to_conv_pipeline == plan.pipeline(0)
        &&& self.complex_mul_pipeline == plan.pipeline(1)
        &&& self.normalize_growth_pipeline == plan.pipeline(2)
        &&& self.channel_aggregate_pipeline == plan.pipeline(3)
        &&& self.sobel_pipeline == plan.pipeline(4)
        &&& self.sum_channels_pipeline == plan.pipeline(5)
        &&& self.flow_field_pipeline == plan.pipeline(6)
        &&& self.reintegration_pipeline == plan.pipeline(7)
        &&& self.normalize_growth_bgs@ == Seq::new(plan.kernels as nat, |k: int| plan.group(k))
        &&& self.channel_aggregate_bg == plan.group(plan.kernels as int)
        &&& self.sobel_u_bg == plan.group(plan.kernels + 1)
        &&& self.sobel_a_bg == plan.group(plan.kernels + 2)
        &&& self.sum_channels_bg == plan.group(plan.kernels + 3)
        &&& self.flow_field_bg == plan.group(plan.kernels + 4)
        &&& self.reintegration_bg == plan.group(plan.kernels + 5)
    }

    /// Whether a device has what one step refers to.
    #[verifier::opaque]
    pub open spec fn fits(self, d: DeviceView) -> bool {
        let total = self.total_elements as int;
        &&& d.wf()
        &&& d.storage(self.channel_buffer, self.num_channels * total * 4)
        &&& d.storage(self.new_channel_buffer, self.num_channels * total * 4)
        &&& d.storage(self.conv_buffer, total * 8)
        &&& d.storage(self.conv_saved_buffer, total * 8)
        &&& d.storage(self.kernel_buffer, self.num_kernels * total * 8)
        &&& self.channel_buffer != self.new_channel_buffer
        &&& self.conv_buffer != self.conv_saved_buffer
        &&& self.readback_buffer < d.buffers.len()
        &&& d.buffers[self.readback_buffer as int] == (BufferDesc {
            size: (total * 4) as u64,
            usage: Usage::Readback,
        })
        &&& self.readback_buffer != self.channel_buffer
        &&& self.copy_to_conv_bgl < d.layouts.len()
        &&& d.layouts[self.copy_to_conv_bgl as int] == FlowLayout::layouts()[0]
        &&& self.complex_mul_bgl < d.layouts.len()
        &&& d.layouts[self.complex_mul_bgl as int] == FlowLayout::layouts()[1]
        &&& self.copy_to_conv_pipeline < d.pipelines.len()
        &&& d.pipelines[self.copy_to_conv_pipeline as int].layout == self.copy_to_conv_bgl
        &&& self.complex_mul_pipeline < d.pipelines.len()
        &&& d.pipelines[self.complex_mul_pipeline as int].layout == self.complex_mul_bgl
        &&& self.normalize_growth_bgs@.len() == self.num_kernels
        &&& forall|k: int|
            0 <= k < self.num_kernels ==> d.dispatch_fits(
                self.normalize_growth_pipeline,
                #[trigger] self.normalize_growth_bgs@[k],
            )
        &&& d.dispatch_fits(self.channel_aggregate_pipeline, self.channel_aggregate_bg)
        &&& d.dispatch_fits(self.sobel_pipeline, self.sobel_u_bg)
        &&& d.dispatch_fits(self.sobel_pipeline, self.sobel_a_bg)
        &&& d.dispatch_fits(self.sum_channels_pipeline, self.sum_channels_bg)
        &&& d.dispatch_fits(self.flow_field_pipeline, self.flow_field_bg)
        &&& d.dispatch_fits(self.reintegration_pipeline, self.reintegration_bg)
    }

    /// What holds of every simulation: lists of matching lengths, sizes that are machine
    /// numbers.
    pub open spec fn wf(self) -> bool {
        let total = self.total_elements as int;
        &&& self.shape@.len() == 2
        &&& total == self.shape@[0] * self.shape@[1]
        &&& self.kernel_m@.len() >= self.num_kernels
        &&& self.kernel_s@.len() >= self.num_kernels
        &&& self.kernel_h@.len() >= self.num_kernels
        &&& total * 8 <= usize::MAX
        &&& self.num_channels * total * 4 <= usize::MAX
        &&& self.num_kernels * total * 8 <= usize::MAX
        &&& self.num_kernels * GP_STRIDE <= u64::MAX
    }

    /// A simulation that stands where its layout says is on the device it was made on.
    proof fn lemma_placed_fits(self, plan: FlowLayout, d: DeviceView)
        requires
            self.placed(plan),
            plan.hosted(d),
            plan.fits_machine(),
            d.groups == plan.before.groups + plan.groups(),
            d.groups.len() <= usize::MAX,
            self.total_elements == plan.total(),
            self.num_channels == plan.channels,
            self.num_kernels == plan.kernels,
        ensures
            self.fits(d),
    {
        let b = plan.before.buffers.len() as int;
        let l = plan.before.layouts.len() as int;
        let p = plan.before.pipelines.len() as int;
        let g = plan.before.groups.len() as int;
        let n = plan.kernels as int;
        let t = plan.total();
        let c = plan.channels as int;
        assert(0 <= t && t * c == c * t && t * n == n * t && 0 <= t * c * 4 && 0 <= t * n * 8) by {
            let x = plan.x as int;
            let y = plan.y as int;
            assert(0 <= x * y) by (nonlinear_arith)
                requires
                    x >= 0,
                    y >= 0,
            ;
            assert(t * c == c * t && t * n == n * t && 0 <= t * c * 4 && 0 <= t * n * 8)
                by (nonlinear_arith)
                requires
                    t >= 0,
                    c >= 0,
                    n >= 0,
            ;
        }
        let bs = d.buffers;
        assert(bs[b] == plan.shared_buffers()[0] && bs[b + 1] == plan.shared_buffers()[1] && bs[b
            + 2] == plan.shared_buffers()[2] && bs[b + 3] == plan.shared_buffers()[3] && bs[b + 4]
            == plan.shared_buffers()[4] && bs[b + 25] == plan.param_buffers()[10]);
        let ls = d.layouts;
        assert(ls[l] == FlowLayout::layouts()[0] && ls[l + 1] == FlowLayout::layouts()[1]);
        let ps = d.pipelines;
        assert(ps[p].layout == l && ps[p + 1].layout == l + 1 && ps[p + 2].layout == l + 2 && ps[p
            + 3].layout == l + 3 && ps[p + 4].layout == l + 4 && ps[p + 5].layout == l + 5 && ps[p
            + 6].layout == l + 6 && ps[p + 7].layout == l + 7);
        let gs = d.groups;
        assert(gs[g + n].layout == l + 3 && gs[g + n + 1].layout == l + 4 && gs[g + n + 2].layout
            == l + 4 && gs[g + n + 3].layout == l + 5 && gs[g + n + 4].layout == l + 6 && gs[g + n
            + 5].layout == l + 7) by {
            let f = plan.flow_groups();
            assert(gs[g + n] == f[0]);
            assert(gs[g + n + 1] == f[1]);
            assert(gs[g + n + 2] == f[2]);
            assert(gs[g + n + 3] == f[3]);
            assert(gs[g + n + 4] == f[4]);
            assert(gs[g + n + 5] == f[5]);
        }
        assert forall|k: int| 0 <= k < n implies d.dispatch_fits(
            self.normalize_growth_pipeline,
            #[trigger] self.normalize_growth_bgs@[k],
        ) by {
            assert(gs[g + k] == plan.growth_group(k));
        }
        reveal(GpuFlowLenia::fits);
    }
}

/// Records the parameters of the second phase and of reintegration.
fn write_params<S: Real>(
    queue: &mut Queue,
    b: usize,
    shape: &[usize],
    num_channels: usize,
    num_kernels: usize,
    padded_len: usize,
    c1: &[Vec<u32>],
    flat: (Vec<u32>, Vec<u32>),
    dt: S,
    dd: i32,
    sigma: S,
    basal: S,
    kinetic: S,
    Ghost(plan): Ghost<FlowLayout>,
    Ghost(m): Ghost<Seq<S>>,
    Ghost(s): Ghost<Seq<S>>,
    Ghost(h): Ghost<Seq<S>>,
    Ghost(q): Ghost<Seq<QueueOpView>>,
)
    requires
        shape@.len() == 2,
        b == plan.before.buffers.len(),
        b + 26 <= usize::MAX,
        plan.x == shape@[0],
        plan.y == shape@[1],
        plan.channels == num_channels,
        plan.kernels == num_kernels,
        flat.0@ == flattened(c1@, num_channels as nat),
        flat.1@ == flat_offsets(c1@, num_channels as nat),
        functional::<S>() ==> old(queue)@ == q + Seq::new(
            num_kernels as nat,
            |k: int| plan.growth_write(k, m[k], s[k], h[k]),
        ),
    ensures
        functional::<S>() ==> final(queue)@ == q + plan.writes::<S>(
            padded_len,
            c1@,
            m,
            s,
            h,
            dt,
            dd,
            sigma,
            basal,
            kinetic,
        ),
{
    let ghost q1 = queue@;
    let x: u32 = shape[0] as u32;
    let y: u32 = shape[1] as u32;
    let c: u32 = num_channels as u32;
    let norm_factor = S::integer(1).over(S::count(padded_len).powi(2));
    let norm: Vec<u32> = vec![norm_factor.bits()];
    let ca: Vec<u32> = vec![x, num_kernels as u32, c];
    let su: Vec<u32> = vec![x, y, c];
    let sa: Vec<u32> = vec![x, y, 1];
    let sc: Vec<u32> = vec![x, c];
    let ff: Vec<u32> = vec![x, c, S::count(num_channels).bits()];
    let ri: Vec<u32> = pack_reintegration(x, y, dd, sigma, dt, c, basal, kinetic);
    proof {
        if functional::<S>() {
            assert(norm@ =~= seq![
                bits_of(over_of(integer_of::<S>(1i64), powi_of(count_of::<S>(padded_len), 2i32))),
            ]);
            assert(ff@ =~= seq![x, c, bits_of(count_of::<S>(num_channels))]);
        }
        assert(ca@ =~= seq![x, num_kernels as u32, c]);
        assert(su@ =~= seq![x, y, c]);
        assert(sa@ =~= seq![x, y, 1u32]);
        assert(sc@ =~= seq![x, c]);
    }
    let (c1_flat, c1_offsets) = flat;
    queue.write_buffer(b + 23, 0, ByteOrder::Native, c1_flat);
    queue.write_buffer(b + 24, 0, ByteOrder::Native, c1_offsets);
    queue.write_buffer(b + 16, 0, ByteOrder::Native, norm);
    queue.write_buffer(b + 17, 0, ByteOrder::Native, ca);
    queue.write_buffer(b + 18, 0, ByteOrder::Native, su);
    queue.write_buffer(b + 19, 0, ByteOrder::Native, sa);
    queue.write_buffer(b + 20, 0, ByteOrder::Native, sc);
    queue.write_buffer(b + 21, 0, ByteOrder::Little, ff);
    queue.write_buffer(b + 22, 0, ByteOrder::Little, ri);
    proof {
        if functional::<S>() {
            assert(queue@ =~= q + plan.writes::<S>(
                padded_len,
                c1@,
                m,
                s,
                h,
                dt,
                dd,
                sigma,
                basal,
                kinetic,
            ));
        }
    }
}

impl<S: Real> GpuFlowLenia<S> {
    /// Sets up a simulation; the host's transforms along the first axis work on
    /// `padded_len` points.
    pub fn new(
        device: &mut Device,
        queue: &mut Queue,
        shape: &[usize],
        padded_len: usize,
        num_channels: usize,
        num_kernels: usize,
        c0: &[u32],
        c1: &[Vec<u32>],
        kernel_m: &[S],
        kernel_s: &[S],
        kernel_h: &[S],
        dt: S,
        dd: i32,
        sigma: S,
        basal_metabolic_rate: S,
        kinetic_cost: S,
    ) -> (sim: Self)
        requires
            old(device)@.wf(),
            shape@.len() == 2,
            (FlowLayout {
                before: old(device)@,
                x: shape@[0],
                y: shape@[1],
                channels: num_channels,
                kernels: num_kernels,
                targets: flattened(c1@, num_channels as nat).len(),
            }).fits_machine(),
            c1@.len() >= num_channels,
            kernel_m@.len() >= num_kernels,
            kernel_s@.len() >= num_kernels,
            kernel_h@.len() >= num_kernels,
        ensures
            ({
                let plan = FlowLayout {
                    before: old(device)@,
                    x: shape@[0],
                    y: shape@[1],
                    channels: num_channels,
                    kernels: num_kernels,
                    targets: flattened(c1@, num_channels as nat).len(),
                };
                &&& final(device)@ == plan.after()
                &&& sim.placed(plan)
                &&& functional::<S>() ==> final(queue)@ == old(queue)@ + plan.writes::<S>(
                    padded_len,
                    c1@,
                    kernel_m@,
                    kernel_s@,
                    kernel_h@,
                    dt,
                    dd,
                    sigma,
                    basal_metabolic_rate,
                    kinetic_cost,
                )
            }),
            sim.shape@ == shape@,
            sim.total_elements == shape@[0] * shape@[1],
            sim.dt == dt,
            sim.num_channels == num_channels,
            sim.num_kernels == num_kernels,
            sim.dd == dd,
            sim.sigma == sigma,
            sim.basal_metabolic_rate == basal_metabolic_rate,
            sim.kinetic_cost == kinetic_cost,
            sim.c0@ == c0@,
            sim.kernel_m@ == kernel_m@,
            sim.kernel_s@ == kernel_s@,
            sim.kernel_h@ == kernel_h@,
            sim.wf(),
            sim.fits(final(device)@),
    {
        let ghost plan = FlowLayout {
            before: device@,
            x: shape[0],
            y: shape[1],
            channels: num_channels,
            kernels: num_kernels,
            targets: flattened(c1@, num_channels as nat).len(),
        };
        proof {
            let x = shape@[0] as int;
            let y = shape@[1] as int;
            assert(0 <= x * y <= x * y * 8) by (nonlinear_arith)
                requires
                    x >= 0,
                    y >= 0,
            ;
            let t = plan.total();
            assert(t * num_channels == num_channels * t) by (nonlinear_arith);
            assert(t * num_kernels == num_kernels * t) by (nonlinear_arith);
        }
        let ghost q = queue@;
        let total_elements: usize = shape[0] * shape[1];
        let flat: (Vec<u32>, Vec<u32>) = flatten_targets(c1, num_channels);
        let targets: usize = flat.0.len();
        let b: usize = create_shared(
            device,
            total_elements,
            num_channels,
            num_kernels,
            Ghost(plan),
        );
        create_params(
            device,
            total_elements,
            num_channels,
            num_kernels,
            targets,
            Ghost(plan),
        );
        let firsts: (usize, usize) = create_pipelines(device, Ghost(plan));
        let l: usize = firsts.0;
        let p: usize = firsts.1;
        proof {
            device.lemma_lengths();
            assert(device@.buffers =~= plan.before.buffers + (plan.shared_buffers()
                + plan.param_buffers()));
        }
        write_growth(queue, b + 15, num_kernels, kernel_m, kernel_s, kernel_h, Ghost(plan));
        write_params(
            queue,
            b,
            shape,
            num_channels,
            num_kernels,
            padded_len,
            c1,
            flat,
            dt,
            dd,
            sigma,
            basal_metabolic_rate,
            kinetic_cost,
            Ghost(plan),
            Ghost(kernel_m@),
            Ghost(kernel_s@),
            Ghost(kernel_h@),
            Ghost(q),
        );
        let normalize_growth_bgs: Vec<usize> = create_growth_groups(
            device,
            num_kernels,
            total_elements,
            b,
            l,
            Ghost(plan),
        );
        let g: usize = create_flow_groups(device, b, l, Ghost(plan));
        proof {
            device.lemma_lengths();
            assert(device@.groups =~= plan.before.groups + plan.groups());
            assert(device@ =~= plan.after());
        }
        let sim = GpuFlowLenia {
            shape: copy_sizes(shape),
            total_elements,
            dt,
            num_channels,
            num_kernels,
            dd,
            sigma,
            basal_metabolic_rate,
            kinetic_cost,
            c0: copy_words(c0),
            kernel_m: copy_numbers(kernel_m),
            kernel_s: copy_numbers(kernel_s),
            kernel_h: copy_numbers(kernel_h),
            channel_buffer: b,
            new_channel_buffer: b + 1,
            conv_buffer: b + 2,
            conv_saved_buffer: b + 3,
            kernel_buffer: b + 4,
            copy_to_conv_pipeline: p,
            complex_mul_pipeline: p + 1,
            normalize_growth_pipeline: p + 2,
            channel_aggregate_pipeline: p + 3,
            sobel_pipeline: p + 4,
            sum_channels_pipeline: p + 5,
            flow_field_pipeline: p + 6,
            reintegration_pipeline: p + 7,
            copy_to_conv_bgl: l,
            complex_mul_bgl: l + 1,
            channel_aggregate_bg: g,
            sobel_u_bg: g + 1,
            sobel_a_bg: g + 2,
            sum_channels_bg: g + 3,
            flow_field_bg: g + 4,
            reintegration_bg: g + 5,
            normalize_growth_bgs,
            growth_params_buffer: b + 15,
            reintegration_params_buffer: b + 22,
            readback_buffer: b + 25,
        };
        proof {
            sim.lemma_placed_fits(plan, device@);
        }
        sim
    }
}

/// Adjacent numbers as complex numbers.
pub open spec fn paired<S>(raw: Seq<S>) -> Seq<Complex<S>> {
    Seq::new(raw.len() / 2, |i: int| Complex { re: raw[2 * i], im: raw[2 * i + 1] })
}

/// A kernel comes out as it went in once its words are read as numbers again and paired up,
/// for numbers that their own words hold whole.
pub proof fn law_kernel_survives_packing<S: Real>(kernel_fft: Seq<Complex<S>>)
    requires
        forall|x: S| of_bits_of::<S>(#[trigger] bits_of(x)) == x,
    ensures
        paired(reals_of::<S>(complex_words(kernel_fft))) == kernel_fft,
{
    let words = complex_words(kernel_fft);
    assert forall|i: int| 0 <= i < kernel_fft.len() implies #[trigger] paired(
        reals_of::<S>(words),
    )[i] == kernel_fft[i] by {
        assert((2 * i) % 2 == 0 && (2 * i) / 2 == i);
        assert((2 * i + 1) % 2 == 1 && (2 * i + 1) / 2 == i);
        assert(words[2 * i] == bits_of(kernel_fft[i].re));
        assert(words[2 * i + 1] == bits_of(kernel_fft[i].im));
    }
    assert(paired(reals_of::<S>(words)) =~= kernel_fft);
}

/// Reads adjacent numbers as complex numbers.
pub fn pair_up<S: Copy>(raw: &[S]) -> (pairs: Vec<Complex<S>>)
    requires
        raw@.len() % 2 == 0,
    ensures
        pairs@ == paired(raw@),
{
    let n: usize = raw.len() / 2;
    let mut pairs: Vec<Complex<S>> = Vec::new();
    let mut i: usize = 0;
    while i < n
        invariant
            i <= n,
            2 * n == raw@.len(),
            n <= usize::MAX / 2,
            pairs@ == paired(raw@).take(i as int),
        decreases n - i,
    {
        pairs.push(Complex { re: raw[2 * i], im: raw[2 * i + 1] });
        assert(pairs@ =~= paired(raw@).take(i + 1));
        i = i + 1;
    }
    assert(paired(raw@).take(i as int) =~= paired(raw@));
    pairs
}

impl<S: Real> GpuFlowLenia<S> {
    /// The extent of the grid.
    pub fn shape(&self) -> (shape: &[usize])
        ensures
            shape@ == self.shape@,
    {
        self.shape.as_slice()
    }

    /// The buffer that holds all channels.
    pub fn channel_buffer(&self) -> (id: usize)
        ensures
            id == self.channel_buffer,
    {
        self.channel_buffer
    }

    /// The number of channels.
    pub fn num_channels(&self) -> (n: usize)
        ensures
            n == self.num_channels,
    {
        self.num_channels
    }

    /// The number of kernels.
    pub fn num_kernels(&self) -> (n: usize)
        ensures
            n == self.num_kernels,
    {
        self.num_kernels
    }

    /// The cells of the grid.
    pub fn total_elements(&self) -> (n: usize)
        ensures
            n == self.total_elements,
    {
        self.total_elements
    }

    /// The mean of each kernel's growth.
    pub fn kernel_m_slice(&self) -> (m: &[S])
        ensures
            m@ == self.kernel_m@,
    {
        self.kernel_m.as_slice()
    }

    /// The width of each kernel's growth.
    pub fn kernel_s_slice(&self) -> (s: &[S])
        ensures
            s@ == self.kernel_s@,
    {
        self.kernel_s.as_slice()
    }

    /// The height of each kernel's growth.
    pub fn kernel_h_slice(&self) -> (h: &[S])
        ensures
            h@ == self.kernel_h@,
    {
        self.kernel_h.as_slice()
    }

    /// The parameters of reintegration with a time step `dt`.
    pub open spec fn dt_words(self, dt: S) -> Seq<u32> {
        reintegration_words(
            self.shape@[0] as u32,
            self.shape@[1] as u32,
            self.dd,
            self.sigma,
            dt,
            self.num_channels as u32,
            self.basal_metabolic_rate,
            self.kinetic_cost,
        )
    }

    /// Changes the time step, here and on the GPU.
    pub fn set_dt(&mut self, queue: &mut Queue, dt: S)
        requires
            old(self).wf(),
        ensures
            *final(self) == (GpuFlowLenia { dt, ..*old(self) }),
            final(self).wf(),
            functional::<S>() ==> final(queue)@ == old(queue)@.push(
                written(
                    old(self).reintegration_params_buffer,
                    0,
                    ByteOrder::Little,
                    old(self).dt_words(dt),
                ),
            ),
            final(queue)@.len() == old(queue)@.len() + 1,
    {
        self.dt = dt;
        let data: Vec<u32> = pack_reintegration(
            self.shape[0] as u32,
            self.shape[1] as u32,
            self.dd,
            self.sigma,
            dt,
            self.num_channels as u32,
            self.basal_metabolic_rate,
            self.kinetic_cost,
        );
        queue.write_buffer(self.reintegration_params_buffer, 0, ByteOrder::Little, data);
    }

    /// The write of one kernel's growth parameters.
    pub open spec fn growth_write(self, k: int, m: S, s: S, h: S) -> QueueOpView {
        written(
            self.growth_params_buffer,
            (k * GP_STRIDE) as u64,
            ByteOrder::Native,
            seq![bits_of(m), bits_of(s), bits_of(h)],
        )
    }

    /// Changes the growth of one kernel, here and on the GPU.
    pub fn set_growth_param(&mut self, queue: &mut Queue, k: usize, m: S, s: S, h: S)
        requires
            old(self).wf(),
            k < old(self).num_kernels,
        ensures
            final(self).kernel_m@ == old(self).kernel_m@.update(k as int, m),
            final(self).kernel_s@ == old(self).kernel_s@.update(k as int, s),
            final(self).kernel_h@ == old(self).kernel_h@.update(k as int, h),
            *final(self) == (GpuFlowLenia {
                kernel_m: final(self).kernel_m,
                kernel_s: final(self).kernel_s,
                kernel_h: final(self).kernel_h,
                ..*old(self)
            }),
            final(self).wf(),
            functional::<S>() ==> final(queue)@ == old(queue)@.push(
                old(self).growth_write(k as int, m, s, h),
            ),
            final(queue)@.len() == old(queue)@.len() + 1,
    {
        self.kernel_m.set(k, m);
        self.kernel_s.set(k, s);
        self.kernel_h.set(k, h);
        let gp: Vec<u32> = vec![m.bits(), s.bits(), h.bits()];
        assert(functional::<S>() ==> gp@ =~= seq![bits_of(m), bits_of(s), bits_of(h)]);
        queue.write_buffer(
            self.growth_params_buffer,
            (k as u64) * GP_STRIDE,
            ByteOrder::Native,
            gp,
        );
    }

    /// Changes the growth of all kernels, here and on the GPU.
    pub fn set_all_growth_params(&mut self, queue: &mut Queue, m: &[S], s: &[S], h: &[S])
        requires
            old(self).wf(),
            old(self).kernel_m@.len() == old(self).num_kernels,
            old(self).kernel_s@.len() == old(self).num_kernels,
            old(self).kernel_h@.len() == old(self).num_kernels,
            m@.len() == old(self).num_kernels,
            s@.len() == old(self).num_kernels,
            h@.len() == old(self).num_kernels,
        ensures
            final(self).kernel_m@ == m@,
            final(self).kernel_s@ == s@,
            final(self).kernel_h@ == h@,
            *final(self) == (GpuFlowLenia {
                kernel_m: final(self).kernel_m,
                kernel_s: final(self).kernel_s,
                kernel_h: final(self).kernel_h,
                ..*old(self)
            }),
            final(self).wf(),
            functional::<S>() ==> final(queue)@ == old(queue)@ + Seq::new(
                old(self).num_kernels as nat,
                |k: int| old(self).growth_write(k, m@[k], s@[k], h@[k]),
            ),
    {
        let ghost old_self = *self;
        let ghost q = queue@;
        self.kernel_m = copy_numbers(m);
        self.kernel_s = copy_numbers(s);
        self.kernel_h = copy_numbers(h);
        let n: usize = self.kernel_m.len();
        let growth_params_buffer: usize = self.growth_params_buffer;
        let mut k: usize = 0;
        assert(q =~= q + Seq::new(0, |k: int| old_self.growth_write(k, m@[k], s@[k], h@[k])));
        while k < n
            invariant
                k <= n,
                n * GP_STRIDE <= u64::MAX,
                m@.len() == n,
                s@.len() == n,
                h@.len() == n,
                growth_params_buffer == old_self.growth_params_buffer,
                functional::<S>() ==> queue@ == q + Seq::new(
                    k as nat,
                    |k: int| old_self.growth_write(k, m@[k], s@[k], h@[k]),
                ),
            decreases n - k,
        {
            let gp: Vec<u32> = vec![m[k].bits(), s[k].bits(), h[k].bits()];
            assert(functional::<S>() ==> gp@ =~= seq![
                bits_of(m@[k as int]),
                bits_of(s@[k as int]),
                bits_of(h@[k as int]),
            ]);
            queue.write_buffer(growth_params_buffer, (k as u64) * GP_STRIDE, ByteOrder::Native, gp);
            assert(functional::<S>() ==> queue@ =~= q + Seq::new(
                (k + 1) as nat,
                |k: int| old_self.growth_write(k, m@[k], s@[k], h@[k]),
            ));
            k = k + 1;
        }
    }

    /// The upload of one kernel.
    pub open spec fn kernel_upload(self, kernel_fft: Seq<Complex<S>>, k: int) -> UploadView {
        UploadView {
            buffer: self.kernel_buffer,
            offset: (k * self.total_elements * 8) as u64,
            order: ByteOrder::Native,
            words: complex_words(kernel_fft),
        }
    }

    /// Uploads a kernel in the frequency domain at an index.
    pub fn set_kernel(&self, queue: &mut Queue, kernel_fft: &[Complex<S>], kernel_idx: usize)
        requires
            self.wf(),
            kernel_fft@.len() == self.total_elements,
            kernel_idx < self.num_kernels,
        ensures
            functional::<S>() ==> final(queue)@ == old(queue)@.push(
                QueueOpView::Write(self.kernel_upload(kernel_fft@, kernel_idx as int)),
            ),
            final(queue)@.len() == old(queue)@.len() + 1,
    {
        proof {
            lemma_slot(
                kernel_idx as int,
                self.num_kernels as int,
                self.total_elements as int,
                8,
            );
        }
        let offset: u64 = (kernel_idx * self.total_elements * 8) as u64;
        let data: Vec<u32> = pack_complex(kernel_fft);
        queue.write_buffer(self.kernel_buffer, offset, ByteOrder::Native, data);
    }

    /// The upload of one channel.
    pub open spec fn channel_upload<W: Real>(self, data: Seq<W>, channel: int) -> UploadView {
        UploadView {
            buffer: self.channel_buffer,
            offset: (channel * self.total_elements * 4) as u64,
            order: ByteOrder::Native,
            words: real_words(data),
        }
    }

    /// The upload of one channel, on the queue.
    pub open spec fn channel_write<W: Real>(self, data: Seq<W>, channel: int) -> QueueOpView {
        QueueOpView::Write(self.channel_upload(data, channel))
    }

    /// Uploads channel data at an index, in single precision.
    pub fn upload_channel<W: Real>(&self, queue: &mut Queue, data: &[W], channel: usize)
        requires
            self.wf(),
            data@.len() == self.total_elements,
            channel < self.num_channels,
        ensures
            functional::<W>() ==> final(queue)@ == old(queue)@.push(
                self.channel_write(data@, channel as int),
            ),
            final(queue)@.len() == old(queue)@.len() + 1,
    {
        proof {
            lemma_slot(
                channel as int,
                self.num_channels as int,
                self.total_elements as int,
                4,
            );
        }
        let offset: u64 = (channel * self.total_elements * 4) as u64;
        let words: Vec<u32> = pack_real(data);
        queue.write_buffer(self.channel_buffer, offset, ByteOrder::Native, words);
    }

    /// Uploads the first channels anew.
    pub fn reinit_channels<W: Real>(&self, queue: &mut Queue, data: &[Vec<W>])
        requires
            self.wf(),
            data@.len() <= self.num_channels,
            forall|c: int|
                0 <= c < data@.len() ==> (#[trigger] data@[c])@.len() == self.total_elements,
        ensures
            functional::<W>() ==> final(queue)@ == old(queue)@ + Seq::new(
                data@.len(),
                |c: int| self.channel_write(data@[c]@, c),
            ),
            final(queue)@.len() == old(queue)@.len() + data@.len(),
    {
        let ghost q = queue@;
        let mut c: usize = 0;
        assert(q =~= q + Seq::new(0, |c: int| self.channel_write(data@[c]@, c)));
        while c < data.len()
            invariant
                c <= data@.len() <= self.num_channels,
                self.wf(),
                forall|c: int|
                    0 <= c < data@.len() ==> (#[trigger] data@[c])@.len() == self.total_elements,
                functional::<W>() ==> queue@ == q + Seq::new(
                    c as nat,
                    |c: int| self.channel_write(data@[c]@, c),
                ),
                queue@.len() == q.len() + c,
            decreases data@.len() - c,
        {
            self.upload_channel(queue, data[c].as_slice(), c);
            assert(functional::<W>() ==> queue@ =~= q + Seq::new(
                (c + 1) as nat,
                |c: int| self.channel_write(data@[c]@, c),
            ));
            c = c + 1;
        }
    }

    /// The commands of a copy for the host.
    pub open spec fn read_commands(src: usize, offset: u64, dst: usize, size: u64) -> Seq<Command> {
        seq![Command::Copy { src, src_offset: offset, dst, dst_offset: 0, size }]
    }

    /// Records a copy of all channels into a new buffer that the host can read, and
    /// returns that buffer.
    pub fn download_all_channels(&self, device: &mut Device, queue: &mut Queue) -> (readback: usize)
        requires
            self.wf(),
            self.fits(old(device)@),
        ensures
            ({
                let size = (self.total_elements * self.num_channels * 4) as u64;
                let copy = Self::read_commands(self.channel_buffer, 0, readback, size);
                &&& readback == old(device)@.buffers.len()
                &&& final(device)@ == (DeviceView {
                    buffers: old(device)@.buffers.push(
                        BufferDesc { size, usage: Usage::Readback },
                    ),
                    ..old(device)@
                })
                &&& final(queue)@ == old(queue)@.push(QueueOpView::Submit(copy))
                &&& final(device)@.commands_fit(copy)
            }),
    {
        proof {
            reveal(GpuFlowLenia::fits);
            let t = self.total_elements as int;
            let c = self.num_channels as int;
            assert(0 <= t * c <= t * c * 4 && t * c == c * t) by (nonlinear_arith)
                requires
                    t >= 0,
                    c >= 0,
            ;
        }
        let total_bytes: u64 = (self.total_elements * self.num_channels * 4) as u64;
        let readback: usize = device.create_buffer(total_bytes, Usage::Readback);
        let mut encoder = CommandEncoder::new();
        encoder.copy_buffer_to_buffer(self.channel_buffer, 0, readback, 0, total_bytes);
        assert(encoder@ =~= Self::read_commands(self.channel_buffer, 0, readback, total_bytes));
        queue.submit(encoder);
        readback
    }

    /// Records a copy of one kernel into a new buffer that the host can read, and returns
    /// that buffer; what it holds reads back with [`pair_up`].
    pub fn download_kernel(&self, device: &mut Device, queue: &mut Queue, k: usize) -> (readback:
        usize)
        requires
            self.wf(),
            self.fits(old(device)@),
            k < self.num_kernels,
        ensures
            ({
                let size = (self.total_elements * 8) as u64;
                let offset = (k * self.total_elements * 8) as u64;
                let copy = Self::read_commands(self.kernel_buffer, offset, readback, size);
                &&& readback == old(device)@.buffers.len()
                &&& final(device)@ == (DeviceView {
                    buffers: old(device)@.buffers.push(
                        BufferDesc { size, usage: Usage::Readback },
                    ),
                    ..old(device)@
                })
                &&& final(queue)@ == old(queue)@.push(QueueOpView::Submit(copy))
                &&& final(device)@.commands_fit(copy)
            }),
    {
        proof {
            reveal(GpuFlowLenia::fits);
            lemma_slot(k as int, self.num_kernels as int, self.total_elements as int, 8);
        }
        let total_bytes: u64 = (self.total_elements * 8) as u64;
        let offset: u64 = (k * self.total_elements * 8) as u64;
        let readback: usize = device.create_buffer(total_bytes, Usage::Readback);
        let mut encoder = CommandEncoder::new();
        encoder.copy_buffer_to_buffer(self.kernel_buffer, offset, readback, 0, total_bytes);
        assert(encoder@ =~= Self::read_commands(self.kernel_buffer, offset, readback, total_bytes));
        queue.submit(encoder);
        readback
    }

    /// A kernel reads back as it was set last, whatever was set at other indices since:
    /// `kernels[i]` is set at `at[i]`, one after the other, then the kernel at `at[last]`
    /// is downloaded.
    pub proof fn law_kernel_reads_back(
        self,
        least_first: bool,
        mem: spec_fn(usize, int) -> u8,
        at: Seq<int>,
        kernels: Seq<Seq<Complex<S>>>,
        last: int,
        readback: usize,
    )
        requires
            self.wf(),
            at.len() == kernels.len(),
            forall|i: int| 0 <= i < at.len() ==> 0 <= #[trigger] at[i] < self.num_kernels,
            forall|i: int|
                0 <= i < at.len() ==> (#[trigger] kernels[i]).len() == self.total_elements,
            0 <= last < at.len(),
            forall|i: int| last < i < at.len() ==> #[trigger] at[i] != at[last],
        ensures
            ({
                let writes = Seq::new(at.len(), |i: int| self.kernel_upload(kernels[i], at[i]));
                let size = (self.total_elements * 8) as u64;
                let offset = (at[last] * self.total_elements * 8) as u64;
                let copy = Self::read_commands(self.kernel_buffer, offset, readback, size)[0];
                bytes_at(
                    after_copy(after_writes(least_first, mem, writes), copy),
                    readback,
                    0,
                    size as nat,
                ) == payload_of(least_first, self.kernel_upload(kernels[last], at[last]))
            }),
    {
        let t = self.total_elements as int;
        let n = self.num_kernels as int;
        let w = 2 * t;
        let writes = Seq::new(at.len(), |i: int| self.kernel_upload(kernels[i], at[i]));
        let size = (self.total_elements * 8) as u64;
        let offset = (at[last] * self.total_elements * 8) as u64;
        let copy = Self::read_commands(self.kernel_buffer, offset, readback, size)[0];
        assert(n * w * 4 == n * t * 8) by (nonlinear_arith)
            requires
                w == 2 * t,
        ;
        assert forall|i: int| 0 <= i < writes.len() implies {
            &&& 0 <= at[i] < n
            &&& (#[trigger] writes[i]).words.len() == w
            &&& writes[i] == slot_write(
                self.kernel_buffer,
                w,
                writes[i].order,
                at[i],
                writes[i].words,
            )
        } by {
            let a = at[i];
            assert(kernels[i].len() == t);
            assert(a * w * 4 == a * t * 8) by (nonlinear_arith)
                requires
                    w == 2 * t,
            ;
        }
        let a = at[last];
        assert(writes[last].words.len() == w);
        assert(a * w * 4 == a * t * 8) by (nonlinear_arith)
            requires
                w == 2 * t,
        ;
        lemma_slot(a, n, t, 8);
        law_slot_reads_back(
            least_first,
            mem,
            self.kernel_buffer,
            w,
            n,
            at,
            writes,
            last,
            copy,
        );
    }

    /// A channel reads back as it was uploaded last, whatever was uploaded to other
    /// channels since: `data[i]` goes to channel `at[i]`, one after the other; a download
    /// of channel `at[last]` gives it, and a download of all channels has it in its place.
    pub proof fn law_channel_reads_back<W: Real>(
        self,
        least_first: bool,
        mem: spec_fn(usize, int) -> u8,
        at: Seq<int>,
        data: Seq<Seq<W>>,
        last: int,
        readback: usize,
    )
        requires
            self.wf(),
            at.len() == data.len(),
            forall|i: int| 0 <= i < at.len() ==> 0 <= #[trigger] at[i] < self.num_channels,
            forall|i: int| 0 <= i < at.len() ==> (#[trigger] data[i]).len() == self.total_elements,
            0 <= last < at.len(),
            forall|i: int| last < i < at.len() ==> #[trigger] at[i] != at[last],
        ensures
            ({
                let writes = Seq::new(at.len(), |i: int| self.channel_upload(data[i], at[i]));
                let held = after_writes(least_first, mem, writes);
                let size = (self.total_elements * 4) as u64;
                let offset = (at[last] * self.total_elements * 4) as u64;
                let sent = payload_of(least_first, self.channel_upload(data[last], at[last]));
                let one = Self::read_commands(
                    self.channel_buffer,
                    offset,
                    self.readback_buffer,
                    size,
                )[0];
                let all = Self::read_commands(
                    self.channel_buffer,
                    0,
                    readback,
                    (self.total_elements * self.num_channels * 4) as u64,
                )[0];
                &&& bytes_at(after_copy(held, one), self.readback_buffer, 0, size as nat) == sent
                &&& bytes_at(after_copy(held, all), readback, offset as int, size as nat) == sent
            }),
    {
        let t = self.total_elements as int;
        let n = self.num_channels as int;
        let writes = Seq::new(at.len(), |i: int| self.channel_upload(data[i], at[i]));
        let size = (self.total_elements * 4) as u64;
        let offset = (at[last] * self.total_elements * 4) as u64;
        let one = Self::read_commands(self.channel_buffer, offset, self.readback_buffer, size)[0];
        let all = Self::read_commands(
            self.channel_buffer,
            0,
            readback,
            (self.total_elements * self.num_channels * 4) as u64,
        )[0];
        assert(t * n == n * t) by (nonlinear_arith);
        assert forall|i: int| 0 <= i < writes.len() implies {
            &&& 0 <= at[i] < n
            &&& (#[trigger] writes[i]).words.len() == t
            &&& writes[i] == slot_write(
                self.channel_buffer,
                t,
                writes[i].order,
                at[i],
                writes[i].words,
            )
        } by {
            assert(data[i].len() == t);
        }
        assert(writes[last].words.len() == t);
        lemma_slot(at[last], n, t, 4);
        law_slot_reads_back(least_first, mem, self.channel_buffer, t, n, at, writes, last, one);
        law_slot_reads_back(least_first, mem, self.channel_buffer, t, n, at, writes, last, all);
    }

    /// The parameters of reintegration that [`GpuFlowLenia::set_dt`] writes are those that
    /// a simulation made with that time step is set up with.
    pub proof fn law_set_dt_is_a_new_start(
        self,
        plan: FlowLayout,
        padded_len: usize,
        c1: Seq<Vec<u32>>,
        m: Seq<S>,
        s: Seq<S>,
        h: Seq<S>,
        dt: S,
    )
        requires
            self.wf(),
            self.placed(plan),
            self.shape@ == seq![plan.x, plan.y],
            self.num_channels == plan.channels,
        ensures
            plan.writes(
                padded_len,
                c1,
                m,
                s,
                h,
                dt,
                self.dd,
                self.sigma,
                self.basal_metabolic_rate,
                self.kinetic_cost,
            ).last() == written(
                self.reintegration_params_buffer,
                0,
                ByteOrder::Little,
                self.dt_words(dt),
            ),
    {
    }

    /// Changing the time step changes the fifth of the nine parameters of reintegration
    /// and no other: four of the 36 bytes that hold them.
    pub proof fn law_set_dt_changes_one_word(self, dt: S)
        ensures
            self.dt_words(dt) == self.dt_words(self.dt).update(4, bits_of(dt)),
            le_words(self.dt_words(dt)).len() == 36,
            forall|i: int|
                0 <= i < 16 || 20 <= i < 36 ==> #[trigger] le_words(self.dt_words(dt))[i]
                    == le_words(self.dt_words(self.dt))[i],
    {
        assert(self.dt_words(dt) =~= self.dt_words(self.dt).update(4, bits_of(dt)));
    }

    /// Records a copy of one channel into the buffer that the host reads.
    pub fn download_channel(&self, device: &Device, queue: &mut Queue, channel: usize)
        requires
            self.wf(),
            self.fits(device@),
            channel < self.num_channels,
        ensures
            ({
                let copy = Self::read_commands(
                    self.channel_buffer,
                    (channel * self.total_elements * 4) as u64,
                    self.readback_buffer,
                    (self.total_elements * 4) as u64,
                );
                &&& final(queue)@ == old(queue)@.push(QueueOpView::Submit(copy))
                &&& device@.commands_fit(copy)
            }),
    {
        proof {
            reveal(GpuFlowLenia::fits);
            lemma_slot(channel as int, self.num_channels as int, self.total_elements as int, 4);
        }
        let buf_size: u64 = (self.total_elements * 4) as u64;
        let offset: u64 = (channel * self.total_elements * 4) as u64;
        let mut encoder = CommandEncoder::new();
        encoder.copy_buffer_to_buffer(
            self.channel_buffer,
            offset,
            self.readback_buffer,
            0,
            buf_size,
        );
        assert(encoder@ =~= Self::read_commands(
            self.channel_buffer,
            offset,
            self.readback_buffer,
            buf_size,
        ));
        queue.submit(encoder);
    }
}

impl<S: Real> GpuFlowLenia<S> {
    /// The group that copies channel `c` into the transform buffer.
    pub open spec fn copy_group(self, c: int) -> GroupView {
        let total = self.total_elements as int;
        GroupView {
            layout: self.copy_to_conv_bgl,
            entries: seq![
                part_of(4, self.channel_buffer, (c * total * 4) as u64, (total * 4) as u64),
                all_of(5, self.conv_buffer),
            ],
        }
    }

    /// The group that multiplies the spectrum with kernel `k`.
    pub open spec fn cmul_group(self, k: int) -> GroupView {
        let total = self.total_elements as int;
        GroupView {
            layout: self.complex_mul_bgl,
            entries: seq![
                all_of(6, self.conv_buffer),
                part_of(7, self.kernel_buffer, (k * total * 8) as u64, (total * 8) as u64),
            ],
        }
    }

    /// A copy group and a product group for each kernel of a list.
    pub open spec fn pair_groups(self, kernels: Seq<usize>) -> Seq<GroupView> {
        Seq::new(
            2 * kernels.len(),
            |t: int|
                {
                    let k = kernels[t / 2];
                    if t % 2 == 0 {
                        self.copy_group(self.c0@[k as int] as int)
                    } else {
                        self.cmul_group(k as int)
                    }
                },
        )
    }

    /// The order in which one step takes the kernels of the first `n` channels.
    pub open spec fn order(self, n: nat) -> Seq<usize> {
        kernel_order(self.c0@, self.num_kernels as nat, n)
    }

    /// The kernels that read channel `c`.
    pub open spec fn kernels(self, c: int) -> Seq<usize> {
        kernels_of(self.c0@, self.num_kernels as nat, c)
    }

    /// A transform along the first axis.
    pub open spec fn transform0(self, inverse: bool) -> Command {
        Command::Transform {
            axis: 0,
            inverse,
            lanes: (self.total_elements / self.shape@[0]) as usize,
            lane_stride: self.shape@[0] as u32,
            stride: 1,
        }
    }

    /// A transform along the second axis.
    pub open spec fn transform1(self, inverse: bool) -> Command {
        Command::Transform {
            axis: 1,
            inverse,
            lanes: (self.total_elements / self.shape@[1]) as usize,
            lane_stride: 1,
            stride: self.shape@[0] as u32,
        }
    }

    /// A copy of the whole spectrum.
    pub open spec fn spectrum_copy(self, src: usize, dst: usize) -> Command {
        Command::Copy {
            src,
            src_offset: 0,
            dst,
            dst_offset: 0,
            size: (self.total_elements * 8) as u64,
        }
    }

    /// The commands for the first `n` kernels of channel `c`, whose groups start at `g`:
    /// each one but the first restores the spectrum, all multiply, transform back, scale
    /// and grow.
    pub open spec fn kernel_commands(self, c: int, g: int, n: nat) -> Seq<Command>
        decreases n,
    {
        if n == 0 {
            seq![]
        } else {
            let i = n - 1;
            let k = self.kernels(c)[i];
            let wg = workgroups(self.total_elements as int);
            let restore = if i == 0 {
                seq![]
            } else {
                seq![self.spectrum_copy(self.conv_saved_buffer, self.conv_buffer)]
            };
            self.kernel_commands(c, g, (n - 1) as nat) + restore + seq![
                Command::Dispatch {
                    pipeline: self.complex_mul_pipeline,
                    group: (g + 2 * i + 1) as usize,
                    workgroups: wg,
                },
                self.transform1(true),
                self.transform0(true),
                Command::Dispatch {
                    pipeline: self.normalize_growth_pipeline,
                    group: self.normalize_growth_bgs@[k as int],
                    workgroups: wg,
                },
            ]
        }
    }

    /// The commands for channel `c`: copy, transform, save, then its kernels.
    pub open spec fn channel_commands(self, c: int, g: int) -> Seq<Command> {
        seq![
            Command::Dispatch {
                pipeline: self.copy_to_conv_pipeline,
                group: g as usize,
                workgroups: workgroups(self.total_elements as int),
            },
            self.transform0(false),
            self.transform1(false),
            self.spectrum_copy(self.conv_buffer, self.conv_saved_buffer),
        ] + self.kernel_commands(c, g, self.kernels(c).len())
    }

    /// One submission for each of the first `n` channels that a kernel reads.
    pub open spec fn channel_submissions(self, g: int, n: nat) -> Seq<QueueOpView>
        decreases n,
    {
        if n == 0 {
            seq![]
        } else {
            let before = self.channel_submissions(g, (n - 1) as nat);
            if self.kernels(n - 1).len() == 0 {
                before
            } else {
                before.push(
                    QueueOpView::Submit(
                        self.channel_commands(
                            n - 1,
                            g + 2 * self.order((n - 1) as nat).len(),
                        ),
                    ),
                )
            }
        }
    }

    /// The commands of the second phase: aggregation, channel sum, both gradients, flow,
    /// reintegration.
    pub open spec fn flow_commands(self) -> Seq<Command> {
        let wg = workgroups(self.total_elements as int);
        let wg_c = workgroups(self.total_elements * self.num_channels);
        seq![
            Command::Dispatch {
                pipeline: self.channel_aggregate_pipeline,
                group: self.channel_aggregate_bg,
                workgroups: wg_c,
            },
            Command::Dispatch {
                pipeline: self.sum_channels_pipeline,
                group: self.sum_channels_bg,
                workgroups: wg,
            },
            Command::Dispatch {
                pipeline: self.sobel_pipeline,
                group: self.sobel_u_bg,
                workgroups: wg_c,
            },
            Command::Dispatch {
                pipeline: self.sobel_pipeline,
                group: self.sobel_a_bg,
                workgroups: wg,
            },
            Command::Dispatch {
                pipeline: self.flow_field_pipeline,
                group: self.flow_field_bg,
                workgroups: wg_c,
            },
            Command::Dispatch {
                pipeline: self.reintegration_pipeline,
                group: self.reintegration_bg,
                workgroups: wg_c,
            },
        ]
    }

    /// The copy by which the new mass becomes the current one.
    pub open spec fn swap_commands(self) -> Seq<Command> {
        seq![
            Command::Copy {
                src: self.new_channel_buffer,
                src_offset: 0,
                dst: self.channel_buffer,
                dst_offset: 0,
                size: (self.total_elements * self.num_channels * 4) as u64,
            },
        ]
    }

    /// What one step submits, when its groups start at `g`.
    pub open spec fn submissions(self, g: int) -> Seq<QueueOpView> {
        self.channel_submissions(g, self.num_channels as nat) + seq![
            QueueOpView::Submit(self.flow_commands()),
            QueueOpView::Submit(self.swap_commands()),
        ]
    }

    /// The device after one step.
    pub open spec fn stepped(self, d: DeviceView) -> DeviceView {
        DeviceView {
            groups: d.groups + self.pair_groups(self.order(self.num_channels as nat)),
            ..d
        }
    }

    /// Whether each kernel reads a channel that is there.
    pub open spec fn routed(self) -> bool {
        &&& self.c0@.len() >= self.num_kernels
        &&& forall|k: int| 0 <= k < self.num_kernels ==> #[trigger] self.c0@[k] < self.num_channels
    }

    /// Whether one step can be recorded.
    pub open spec fn steppable(self, d: DeviceView) -> bool {
        &&& self.wf()
        &&& self.routed()
        &&& self.fits(d)
        &&& self.shape@[0] > 0
        &&& self.shape@[0] <= u32::MAX
        &&& self.shape@[1] > 0
        &&& self.shape@[1] <= u32::MAX
        &&& self.num_channels <= u32::MAX
        &&& self.total_elements + 255 <= u32::MAX
        &&& self.total_elements * self.num_channels + 255 <= u32::MAX
    }

    /// The simulation is on a device still once the device has more groups.
    proof fn lemma_more_groups(self, d: DeviceView, e: DeviceView)
        requires
            self.fits(d),
            e.buffers == d.buffers,
            e.layouts == d.layouts,
            e.pipelines == d.pipelines,
            d.groups.is_prefix_of(e.groups),
            e.wf(),
        ensures
            self.fits(e),
    {
        reveal(GpuFlowLenia::fits);
        assert forall|k: int| 0 <= k < self.num_kernels implies e.dispatch_fits(
            self.normalize_growth_pipeline,
            #[trigger] self.normalize_growth_bgs@[k],
        ) by {
            assert(d.dispatch_fits(
                self.normalize_growth_pipeline,
                self.normalize_growth_bgs@[k],
            ));
        }
    }

    /// Creates the pair groups of the kernels of one list.
    fn create_pairs(&self, device: &mut Device, kernels: &Vec<usize>, Ghost(c): Ghost<int>) -> (ids:
        (Vec<usize>, Vec<usize>))
        requires
            self.wf(),
            self.routed(),
            self.fits(old(device)@),
            kernels@ == self.kernels(c),
        ensures
            ids.0@.len() == kernels@.len(),
            ids.1@.len() == kernels@.len(),
            forall|i: int|
                0 <= i < kernels@.len() ==> #[trigger] ids.0@[i] == old(device)@.groups.len() + 2
                    * i,
            forall|i: int|
                0 <= i < kernels@.len() ==> #[trigger] ids.1@[i] == old(device)@.groups.len() + 2
                    * i + 1,
            final(device)@ == (DeviceView {
                groups: old(device)@.groups + self.pair_groups(kernels@),
                ..old(device)@
            }),
            self.fits(final(device)@),
    {
        let ghost d = device@;
        let total: usize = self.total_elements;
        let mut copy_bgs: Vec<usize> = Vec::new();
        let mut cmul_bgs: Vec<usize> = Vec::new();
        let mut i: usize = 0;
        assert(d.groups =~= d.groups + self.pair_groups(kernels@.take(0)));
        while i < kernels.len()
            invariant
                i <= kernels@.len(),
                self.wf(),
                self.routed(),
                self.fits(d),
                total == self.total_elements,
                kernels@ == self.kernels(c),
                copy_bgs@.len() == i,
                cmul_bgs@.len() == i,
                forall|i: int|
                    0 <= i < copy_bgs@.len() ==> #[trigger] copy_bgs@[i] == d.groups.len() + 2 * i,
                forall|i: int|
                    0 <= i < cmul_bgs@.len() ==> #[trigger] cmul_bgs@[i] == d.groups.len() + 2 * i
                        + 1,
                device@ == (DeviceView {
                    groups: d.groups + self.pair_groups(kernels@.take(i as int)),
                    ..d
                }),
                self.fits(device@),
            decreases kernels@.len() - i,
        {
            let ghost had = device@;
            let k: usize = kernels[i];
            proof {
                lemma_kernels_of(self.c0@, self.num_kernels as nat, c, i as int);
                lemma_slot(k as int, self.num_kernels as int, total as int, 8);
                lemma_slot(
                    self.c0@[k as int] as int,
                    self.num_channels as int,
                    total as int,
                    4,
                );
            }
            let src_c: usize = self.c0[k] as usize;
            let copy = vec![
                part(4, self.channel_buffer, (src_c * total * 4) as u64, (total * 4) as u64),
                whole(5, self.conv_buffer),
            ];
            let cmul = vec![
                whole(6, self.conv_buffer),
                part(7, self.kernel_buffer, (k * total * 8) as u64, (total * 8) as u64),
            ];
            assert(copy@ =~= self.copy_group(src_c as int).entries);
            assert(cmul@ =~= self.cmul_group(k as int).entries);
            assert(device@.group_fits(self.copy_group(src_c as int)) && device@.group_fits(
                self.cmul_group(k as int),
            ) && device@.wf()) by {
                reveal(GpuFlowLenia::fits);
            }
            let copy_bg: usize = device.create_bind_group(self.copy_to_conv_bgl, copy);
            let ghost mid = device@;
            assert(mid.group_fits(self.cmul_group(k as int)));
            let cmul_bg: usize = device.create_bind_group(self.complex_mul_bgl, cmul);
            copy_bgs.push(copy_bg);
            cmul_bgs.push(cmul_bg);
            proof {
                let a = self.pair_groups(kernels@.take(i as int));
                let b = self.pair_groups(kernels@.take(i + 1));
                assert(b =~= a.push(self.copy_group(src_c as int)).push(
                    self.cmul_group(k as int),
                ));
                assert(device@.groups =~= d.groups + b);
                self.lemma_more_groups(had, device@);
            }
            i = i + 1;
        }
        assert(kernels@.take(i as int) =~= kernels@);
        (copy_bgs, cmul_bgs)
    }

    /// Records the commands of one channel.
    fn record_channel(
        &self,
        encoder: &mut CommandEncoder,
        kernels: &Vec<usize>,
        copy_bg: usize,
        cmul_bgs: &Vec<usize>,
        Ghost(c): Ghost<int>,
        Ghost(g): Ghost<int>,
    )
        requires
            self.wf(),
            self.normalize_growth_bgs@.len() == self.num_kernels,
            self.shape@[0] > 0,
            self.shape@[0] <= u32::MAX,
            self.shape@[1] > 0,
            self.shape@[1] <= u32::MAX,
            self.total_elements + 255 <= u32::MAX,
            kernels@ == self.kernels(c),
            kernels@.len() > 0,
            copy_bg == g,
            cmul_bgs@.len() == kernels@.len(),
            forall|i: int|
                0 <= i < kernels@.len() ==> #[trigger] cmul_bgs@[i] == g + 2 * i + 1,
        ensures
            final(encoder)@ == old(encoder)@ + self.channel_commands(c, g),
    {
        let ghost e = encoder@;
        let wg: u32 = (self.total_elements as u32 + 255) / 256;
        let axis0: u32 = self.shape[0] as u32;
        let axis1: u32 = self.shape[1] as u32;
        let lanes0: usize = self.total_elements / axis0 as usize;
        let lanes1: usize = self.total_elements / axis1 as usize;
        let conv_buf_size: u64 = (self.total_elements * 8) as u64;
        self.dispatch_compute(encoder, self.copy_to_conv_pipeline, copy_bg, wg);
        encoder.transform(0, false, lanes0, axis0, 1);
        encoder.transform(1, false, lanes1, 1, axis0);
        encoder.copy_buffer_to_buffer(
            self.conv_buffer,
            0,
            self.conv_saved_buffer,
            0,
            conv_buf_size,
        );
        let ghost head = encoder@;
        let mut i: usize = 0;
        assert(encoder@ =~= head + self.kernel_commands(c, g, 0));
        while i < kernels.len()
            invariant
                i <= kernels@.len(),
                self.normalize_growth_bgs@.len() == self.num_kernels,
                kernels@ == self.kernels(c),
                cmul_bgs@.len() == kernels@.len(),
                forall|i: int|
                    0 <= i < kernels@.len() ==> #[trigger] cmul_bgs@[i] == g + 2 * i + 1,
                wg == workgroups(self.total_elements as int),
                lanes0 == self.total_elements / self.shape@[0],
                lanes1 == self.total_elements / self.shape@[1],
                axis0 == self.shape@[0],
                conv_buf_size == self.total_elements * 8,
                encoder@ == head + self.kernel_commands(c, g, i as nat),
            decreases kernels@.len() - i,
        {
            let k: usize = kernels[i];
            proof {
                lemma_kernels_of(self.c0@, self.num_kernels as nat, c, i as int);
            }
            if i > 0 {
                encoder.copy_buffer_to_buffer(
                    self.conv_saved_buffer,
                    0,
                    self.conv_buffer,
                    0,
                    conv_buf_size,
                );
            }
            self.dispatch_compute(encoder, self.complex_mul_pipeline, cmul_bgs[i], wg);
            encoder.transform(1, true, lanes1, 1, axis0);
            encoder.transform(0, true, lanes0, axis0, 1);
            self.dispatch_compute(
                encoder,
                self.normalize_growth_pipeline,
                self.normalize_growth_bgs[k],
                wg,
            );
            assert(encoder@ =~= head + self.kernel_commands(c, g, (i + 1) as nat));
            i = i + 1;
        }
        assert(encoder@ =~= e + self.channel_commands(c, g));
    }

    /// Records one compute pass.
    fn dispatch_compute(
        &self,
        encoder: &mut CommandEncoder,
        pipeline: usize,
        bind_group: usize,
        wg_count: u32,
    )
        ensures
            final(encoder)@ == old(encoder)@.push(
                Command::Dispatch { pipeline, group: bind_group, workgroups: wg_count },
            ),
    {
        encoder.dispatch(pipeline, bind_group, wg_count);
    }

    /// Performs one step: a submission for each channel that a kernel reads, one for the
    /// flow, one for the swap.
    pub fn iterate(&self, device: &mut Device, queue: &mut Queue)
        requires
            self.steppable(old(device)@),
        ensures
            final(device)@ == self.stepped(old(device)@),
            self.steppable(final(device)@),
            final(queue)@ == old(queue)@ + self.submissions(old(device)@.groups.len() as int),
            final(device)@.submissions_fit(self.submissions(old(device)@.groups.len() as int)),
    {
        let ghost d = device@;
        let ghost q = queue@;
        let ghost g = d.groups.len() as int;
        let total: u32 = self.total_elements as u32;
        let wg: u32 = (total + 255) / 256;
        let wg_c: u32 = ((total * self.num_channels as u32) + 255) / 256;
        let ch_to_kernels: Vec<Vec<usize>> = kernels_by_channel(
            self.c0.as_slice(),
            self.num_kernels,
            self.num_channels,
        );
        let mut c: usize = 0;
        assert(d.groups =~= d.groups + self.pair_groups(self.order(0)));
        assert(q =~= q + self.channel_submissions(g, 0));
        while c < self.num_channels
            invariant
                c <= self.num_channels,
                g == d.groups.len(),
                self.steppable(d),
                ch_to_kernels@.len() == self.num_channels,
                forall|c: int|
                    0 <= c < self.num_channels ==> #[trigger] ch_to_kernels@[c]@ == self.kernels(c),
                device@ == (DeviceView {
                    groups: d.groups + self.pair_groups(self.order(c as nat)),
                    ..d
                }),
                self.fits(device@),
                queue@ == q + self.channel_submissions(g, c as nat),
            decreases self.num_channels - c,
        {
            let kernels = &ch_to_kernels[c];
            let ghost had = device@;
            proof {
                let o = self.order(c as nat);
                let ks = self.kernels(c as int);
                assert(self.order((c + 1) as nat) == o + ks);
                assert(self.pair_groups(o + ks) =~= self.pair_groups(o) + self.pair_groups(ks));
                assert(d.groups + self.pair_groups(o + ks) =~= had.groups + self.pair_groups(ks));
            }
            if kernels.len() > 0 {
                let ids: (Vec<usize>, Vec<usize>) = self.create_pairs(
                    device,
                    kernels,
                    Ghost(c as int),
                );
                let mut encoder = CommandEncoder::new();
                assert(self.normalize_growth_bgs@.len() == self.num_kernels) by {
                    reveal(GpuFlowLenia::fits);
                }
                self.record_channel(
                    &mut encoder,
                    kernels,
                    ids.0[0],
                    &ids.1,
                    Ghost(c as int),
                    Ghost(had.groups.len() as int),
                );
                proof {
                    assert(encoder@ =~= self.channel_commands(
                        c as int,
                        g + 2 * self.order(c as nat).len(),
                    ));
                }
                queue.submit(encoder);
                assert(queue@ =~= q + self.channel_submissions(g, (c + 1) as nat));
            } else {
                assert(self.pair_groups(self.kernels(c as int)) =~= seq![]);
                assert(device@.groups =~= had.groups + self.pair_groups(self.kernels(c as int)));
            }
            c = c + 1;
        }
        let mut encoder = CommandEncoder::new();
        self.dispatch_compute(
            &mut encoder,
            self.channel_aggregate_pipeline,
            self.channel_aggregate_bg,
            wg_c,
        );
        self.dispatch_compute(
            &mut encoder,
            self.sum_channels_pipeline,
            self.sum_channels_bg,
            wg,
        );
        self.dispatch_compute(&mut encoder, self.sobel_pipeline, self.sobel_u_bg, wg_c);
        self.dispatch_compute(&mut encoder, self.sobel_pipeline, self.sobel_a_bg, wg);
        self.dispatch_compute(&mut encoder, self.flow_field_pipeline, self.flow_field_bg, wg_c);
        self.dispatch_compute(
            &mut encoder,
            self.reintegration_pipeline,
            self.reintegration_bg,
            wg_c,
        );
        assert(encoder@ =~= self.flow_commands());
        queue.submit(encoder);
        let mut encoder = CommandEncoder::new();
        proof {
            let t = self.total_elements as int;
            let n = self.num_channels as int;
            assert(0 <= t * n <= t * n * 4 && t * n == n * t) by (nonlinear_arith)
                requires
                    t >= 0,
                    n >= 0,
            ;
        }
        let size: u64 = (self.total_elements * self.num_channels * 4) as u64;
        encoder.copy_buffer_to_buffer(self.new_channel_buffer, 0, self.channel_buffer, 0, size);
        assert(encoder@ =~= self.swap_commands());
        queue.submit(encoder);
        proof {
            assert(queue@ =~= q + self.submissions(g));
            device.lemma_lengths();
            self.lemma_submissions_fit(d);
        }
    }

    /// The commands of the first `n` kernels of a channel would pass validation.
    proof fn lemma_kernel_commands_fit(self, d: DeviceView, e: DeviceView, c: int, n: nat)
        requires
            self.steppable(d),
            0 <= c < self.num_channels,
            n <= self.kernels(c).len(),
            e == self.stepped(d),
            e.groups.len() <= usize::MAX,
        ensures
            e.commands_fit(
                self.kernel_commands(
                    c,
                    (d.groups.len() + 2 * self.order(c as nat).len()) as int,
                    n,
                ),
            ),
        decreases n,
    {
        if n > 0 {
            let i = n - 1;
            self.lemma_kernel_commands_fit(d, e, c, (n - 1) as nat);
            let start = self.order(c as nat).len() as int;
            let g = d.groups.len() as int;
            let all = self.order(self.num_channels as nat);
            lemma_kernels_of(self.c0@, self.num_kernels as nat, c, i);
            lemma_order_prefix(
                self.c0@,
                self.num_kernels as nat,
                c as nat,
                self.num_channels as nat,
            );
            let t = 2 * (start + i) + 1;
            assert(t % 2 == 1);
            assert(e.groups[g + t] == self.pair_groups(all)[t]);
            reveal(GpuFlowLenia::fits);
            let k = self.kernels(c)[i];
            assert(d.dispatch_fits(
                self.normalize_growth_pipeline,
                self.normalize_growth_bgs@[k as int],
            ));
            assert(e.dispatch_fits(
                self.normalize_growth_pipeline,
                self.normalize_growth_bgs@[k as int],
            ));
        }
    }

    /// The submissions of the first `n` channels would pass validation.
    proof fn lemma_channels_fit(self, d: DeviceView, e: DeviceView, n: nat)
        requires
            self.steppable(d),
            n <= self.num_channels,
            e == self.stepped(d),
            e.groups.len() <= usize::MAX,
        ensures
            e.submissions_fit(self.channel_submissions(d.groups.len() as int, n)),
        decreases n,
    {
        if n > 0 {
            let c = n - 1;
            self.lemma_channels_fit(d, e, c as nat);
            if self.kernels(c).len() > 0 {
                let g = d.groups.len() as int;
                let start = self.order(c as nat).len() as int;
                let all = self.order(self.num_channels as nat);
                self.lemma_kernel_commands_fit(d, e, c, self.kernels(c).len());
                lemma_order_prefix(
                    self.c0@,
                    self.num_kernels as nat,
                    c as nat,
                    self.num_channels as nat,
                );
                let t = 2 * start;
                assert(t % 2 == 0);
                assert(e.groups[g + t] == self.pair_groups(all)[t]);
                reveal(GpuFlowLenia::fits);
                assert(e.commands_fit(self.channel_commands(c, g + 2 * start)));
            }
        }
    }

    /// All submissions of one step would pass validation on the device that it leaves.
    proof fn lemma_submissions_fit(self, d: DeviceView)
        requires
            self.steppable(d),
            self.stepped(d).groups.len() <= usize::MAX,
        ensures
            self.stepped(d).submissions_fit(self.submissions(d.groups.len() as int)),
    {
        let e = self.stepped(d);
        self.lemma_channels_fit(d, e, self.num_channels as nat);
        let t = self.total_elements as int;
        let n = self.num_channels as int;
        assert(t * n == n * t && 0 <= t * n * 4) by (nonlinear_arith)
            requires
                t >= 0,
                n >= 0,
        ;
        assert(e.commands_fit(self.flow_commands()) && e.commands_fit(self.swap_commands())) by {
            reveal(GpuFlowLenia::fits);
        }
    }

    /// What `n` steps leave of a device.
    pub open spec fn stepped_often(self, d: DeviceView, n: nat) -> DeviceView
        decreases n,
    {
        if n == 0 {
            d
        } else {
            self.stepped(self.stepped_often(d, (n - 1) as nat))
        }
    }

    /// What `n` steps submit.
    pub open spec fn submissions_often(self, d: DeviceView, n: nat) -> Seq<QueueOpView>
        decreases n,
    {
        if n == 0 {
            seq![]
        } else {
            let m = (n - 1) as nat;
            self.submissions_often(d, m) + self.submissions(
                self.stepped_often(d, m).groups.len() as int,
            )
        }
    }

    /// Performs `n` steps.
    pub fn run_steps(&self, device: &mut Device, queue: &mut Queue, n: usize)
        requires
            self.steppable(old(device)@),
        ensures
            final(device)@ == self.stepped_often(old(device)@, n as nat),
            self.steppable(final(device)@),
            final(queue)@ == old(queue)@ + self.submissions_often(old(device)@, n as nat),
    {
        let ghost d = device@;
        let ghost q = queue@;
        let mut i: usize = 0;
        assert(q =~= q + self.submissions_often(d, 0));
        while i < n
            invariant
                i <= n,
                self.steppable(device@),
                device@ == self.stepped_often(d, i as nat),
                queue@ == q + self.submissions_often(d, i as nat),
            decreases n - i,
        {
            self.iterate(device, queue);
            assert(queue@ =~= q + self.submissions_often(d, (i + 1) as nat));
            i = i + 1;
        }
    }
}

} // verus!
