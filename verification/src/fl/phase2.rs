//! Phase 2 of Flow Lenia: channel aggregation, gradients and flow, advection.

use crate::gpu::{
    sro, srw, unif, whole, ByteOrder, Command, CommandEncoder, Device, Entry, Queue, Usage,
};
use crate::scalar::Real;
use vstd::prelude::*;

verus! {

use crate::gpu::{
    all_of, lemma_dispatch_extend, ro, rw, un, written, BufferDesc, DeviceView, GroupView, LayoutEntry, PipelineDesc,
    QueueOpView,
};
use crate::scalar::{bits_of, functional, integer_of, minus_of};

/// The lists of the first `n` channels, one behind the other.
pub open spec fn flattened(c1: Seq<Vec<u32>>, n: nat) -> Seq<u32>
    decreases n,
{
    if n == 0 {
        seq![]
    } else {
        flattened(c1, (n - 1) as nat) + c1[n - 1]@
    }
}

/// Where the list of each channel starts in the flattened list, and where the last ends.
pub open spec fn flat_offsets(c1: Seq<Vec<u32>>, n: nat) -> Seq<u32> {
    Seq::new(n + 1, |c: int| flattened(c1, c as nat).len() as u32)
}

/// The flattened lists of fewer channels are a prefix of those of more.
proof fn lemma_flattened_prefix(c1: Seq<Vec<u32>>, m: nat, n: nat)
    requires
        m <= n,
    ensures
        flattened(c1, m).len() <= flattened(c1, n).len(),
        flattened(c1, n).take(flattened(c1, m).len() as int) == flattened(c1, m),
    decreases n,
{
    if m < n {
        lemma_flattened_prefix(c1, m, (n - 1) as nat);
        let a = flattened(c1, (n - 1) as nat);
        assert(flattened(c1, n).take(flattened(c1, m).len() as int) =~= a.take(
            flattened(c1, m).len() as int,
        ));
    } else {
        assert(flattened(c1, n).take(flattened(c1, m).len() as int) =~= flattened(c1, m));
    }
}

/// The offsets of a channel cut exactly its list out of the flattened lists.
pub proof fn law_offsets_delimit_channels(c1: Seq<Vec<u32>>, n: nat, c: int)
    requires
        0 <= c < n,
        flattened(c1, n).len() <= u32::MAX,
    ensures
        flat_offsets(c1, n)[c] <= flat_offsets(c1, n)[c + 1] <= flattened(c1, n).len(),
        flattened(c1, n).subrange(
            flat_offsets(c1, n)[c] as int,
            flat_offsets(c1, n)[c + 1] as int,
        ) == c1[c]@,
{
    lemma_flattened_prefix(c1, c as nat, n);
    lemma_flattened_prefix(c1, (c + 1) as nat, n);
    let all = flattened(c1, n);
    let upto = flattened(c1, (c + 1) as nat);
    let a = flattened(c1, c as nat).len() as int;
    assert(upto == flattened(c1, c as nat) + c1[c]@);
    assert(all.subrange(a, upto.len() as int) =~= all.take(upto.len() as int).skip(a));
    assert(upto.skip(a) =~= c1[c]@);
}

/// Flattens the lists of the first `num_channels` channels, and says where each starts.
pub fn flatten_targets(c1: &[Vec<u32>], num_channels: usize) -> (flat: (Vec<u32>, Vec<u32>))
    requires
        c1@.len() >= num_channels,
        num_channels < usize::MAX,
        flattened(c1@, num_channels as nat).len() <= usize::MAX,
    ensures
        flat.0@ == flattened(c1@, num_channels as nat),
        flat.1@ == flat_offsets(c1@, num_channels as nat),
{
    let mut c1_flat: Vec<u32> = Vec::new();
    let mut c1_offsets: Vec<u32> = vec![0];
    let mut c: usize = 0;
    assert(c1_offsets@ =~= flat_offsets(c1@, 0));
    while c < num_channels
        invariant
            c <= num_channels <= c1@.len(),
            flattened(c1@, num_channels as nat).len() <= usize::MAX,
            c1_flat@ == flattened(c1@, c as nat),
            c1_offsets@ == flat_offsets(c1@, c as nat),
        decreases num_channels - c,
    {
        let list = &c1[c];
        let ghost had = c1_flat@;
        proof {
            lemma_flattened_prefix(c1@, (c + 1) as nat, num_channels as nat);
        }
        let mut i: usize = 0;
        assert(c1_flat@ =~= had + list@.take(0));
        while i < list.len()
            invariant
                i <= list@.len(),
                c1_flat@ == had + list@.take(i as int),
            decreases list@.len() - i,
        {
            c1_flat.push(list[i]);
            assert(list@.take(i + 1) =~= list@.take(i as int).push(list@[i as int]));
            assert(c1_flat@ =~= had + list@.take(i + 1));
            i = i + 1;
        }
        assert(list@.take(i as int) =~= list@);
        c1_offsets.push(c1_flat.len() as u32);
        assert(c1_offsets@ =~= flat_offsets(c1@, (c + 1) as nat));
        c = c + 1;
    }
    (c1_flat, c1_offsets)
}

/// Sums the growth of the kernels that feed each channel.
pub struct AggregationPhase {
    pub pipeline: usize,
    pub bind_group: usize,
}

impl AggregationPhase {
    /// The device once the phase has its resources.
    #[verifier::opaque]
    pub open spec fn after(
        d: DeviceView,
        num_channels: nat,
        c1: Seq<Vec<u32>>,
        u_buffer: usize,
        u_channel_buffer: usize,
    ) -> DeviceView {
        let b = d.buffers.len();
        d.grown(
            seq![
                BufferDesc {
                    size: (flattened(c1, num_channels).len() * 4) as u64,
                    usage: Usage::Table,
                },
                BufferDesc { size: ((num_channels + 1) * 4) as u64, usage: Usage::Table },
                BufferDesc { size: 12, usage: Usage::Uniform },
            ],
            seq![seq![ro(13), rw(14), ro(15), ro(16), un(17)]],
            seq![
                PipelineDesc { layout: d.layouts.len() as usize, entry: Entry::ChannelAggregate },
            ],
            seq![
                GroupView {
                    layout: d.layouts.len() as usize,
                    entries: seq![
                        all_of(13, u_buffer),
                        all_of(14, u_channel_buffer),
                        all_of(15, b as usize),
                        all_of(16, (b + 1) as usize),
                        all_of(17, (b + 2) as usize),
                    ],
                },
            ],
        )
    }

    /// What is written into the phase's buffers.
    pub open spec fn writes(
        b: nat,
        size: usize,
        num_kernels: usize,
        num_channels: usize,
        c1: Seq<Vec<u32>>,
    ) -> Seq<QueueOpView> {
        seq![
            written(b as usize, 0, ByteOrder::Native, flattened(c1, num_channels as nat)),
            written((b + 1) as usize, 0, ByteOrder::Native, flat_offsets(c1, num_channels as nat)),
            written(
                (b + 2) as usize,
                0,
                ByteOrder::Native,
                seq![size as u32, num_kernels as u32, num_channels as u32],
            ),
        ]
    }

    /// Sets up the phase for kernels that feed the channels as `c1` lists.
    pub fn new(
        device: &mut Device,
        queue: &mut Queue,
        shape: &[usize],
        num_kernels: usize,
        num_channels: usize,
        c1: &[Vec<u32>],
        u_buffer: usize,
        u_channel_buffer: usize,
    ) -> (phase: Self)
        requires
            old(device)@.wf(),
            shape@.len() > 0,
            c1@.len() >= num_channels,
            flattened(c1@, num_channels as nat).len() * 4 <= usize::MAX,
            (num_channels + 1) * 4 <= usize::MAX,
            u_buffer < old(device)@.buffers.len(),
            old(device)@.buffers[u_buffer as int].usage == Usage::Storage,
            u_channel_buffer < old(device)@.buffers.len(),
            old(device)@.buffers[u_channel_buffer as int].usage == Usage::Storage,
        ensures
            final(device)@ == Self::after(
                old(device)@,
                num_channels as nat,
                c1@,
                u_buffer,
                u_channel_buffer,
            ),
            final(queue)@ == old(queue)@ + Self::writes(
                old(device)@.buffers.len(),
                shape@[0],
                num_kernels,
                num_channels,
                c1@,
            ),
            phase.pipeline == old(device)@.pipelines.len(),
            phase.bind_group == old(device)@.groups.len(),
            final(device)@.wf(),
            final(device)@.extends(old(device)@),
            phase.fits(final(device)@),
    {
        reveal(AggregationPhase::after);
        reveal(DeviceView::extends);
        let flat: (Vec<u32>, Vec<u32>) = flatten_targets(c1, num_channels);
        let c1_flat: Vec<u32> = flat.0;
        let c1_offsets: Vec<u32> = flat.1;
        let c1_flat_buffer: usize = device.create_buffer((c1_flat.len() * 4) as u64, Usage::Table);
        queue.write_buffer(c1_flat_buffer, 0, ByteOrder::Native, c1_flat);
        let c1_offsets_buffer: usize = device.create_buffer(
            (c1_offsets.len() * 4) as u64,
            Usage::Table,
        );
        queue.write_buffer(c1_offsets_buffer, 0, ByteOrder::Native, c1_offsets);
        let params_buffer: usize = device.create_buffer(12, Usage::Uniform);
        let ca: Vec<u32> = vec![shape[0] as u32, num_kernels as u32, num_channels as u32];
        assert(ca@ =~= seq![shape@[0] as u32, num_kernels as u32, num_channels as u32]);
        queue.write_buffer(params_buffer, 0, ByteOrder::Native, ca);
        assert(queue@ =~= old(queue)@ + Self::writes(
            old(device)@.buffers.len(),
            shape@[0],
            num_kernels,
            num_channels,
            c1@,
        ));
        let slots = vec![sro(13), srw(14), sro(15), sro(16), unif(17)];
        assert(slots@ =~= seq![ro(13), rw(14), ro(15), ro(16), un(17)]);
        let bgl: usize = device.create_bind_group_layout(slots);
        let pipeline: usize = device.create_compute_pipeline(bgl, Entry::ChannelAggregate);
        let entries = vec![
            whole(13, u_buffer),
            whole(14, u_channel_buffer),
            whole(15, c1_flat_buffer),
            whole(16, c1_offsets_buffer),
            whole(17, params_buffer),
        ];
        assert(entries@ =~= seq![
            all_of(13, u_buffer),
            all_of(14, u_channel_buffer),
            all_of(15, c1_flat_buffer),
            all_of(16, c1_offsets_buffer),
            all_of(17, params_buffer),
        ]);
        let bind_group: usize = device.create_bind_group(bgl, entries);
        assert(device@ =~= Self::after(
            old(device)@,
            num_channels as nat,
            c1@,
            u_buffer,
            u_channel_buffer,
        ));
        AggregationPhase { pipeline, bind_group }
    }

    /// The phase fits a device still once the device has more.
    pub proof fn lemma_fits_extend(self, d: DeviceView, e: DeviceView)
        requires
            self.fits(d),
            e.extends(d),
        ensures
            self.fits(e),
    {
        lemma_dispatch_extend(d, e, self.pipeline, self.bind_group);
    }

    /// Whether the phase can run on a device.
    pub open spec fn fits(self, d: DeviceView) -> bool {
        d.dispatch_fits(self.pipeline, self.bind_group)
    }

    /// The commands of the phase.
    pub open spec fn commands(self, wg_count: u32) -> Seq<Command> {
        seq![
            Command::Dispatch {
                pipeline: self.pipeline,
                group: self.bind_group,
                workgroups: wg_count,
            },
        ]
    }

    /// Records the phase.
    pub fn run(&self, encoder: &mut CommandEncoder, wg_count: u32)
        ensures
            final(encoder)@ == old(encoder)@ + self.commands(wg_count),
    {
        encoder.dispatch(self.pipeline, self.bind_group, wg_count);
        assert(encoder@ =~= old(encoder)@ + self.commands(wg_count));
    }
}

/// The buffers between which gradients and flow are computed.
#[derive(Clone, Copy)]
pub struct FlowBuffers {
    pub channel: usize,
    pub u_channel: usize,
    pub flow_x: usize,
    pub flow_y: usize,
    pub nabla_u_x: usize,
    pub nabla_u_y: usize,
    pub nabla_a_x: usize,
    pub nabla_a_y: usize,
    pub sum_a: usize,
}

impl FlowBuffers {
    /// Whether all the buffers exist and serve as storage.
    pub open spec fn on(self, d: DeviceView) -> bool {
        &&& d.is_storage(self.channel)
        &&& d.is_storage(self.u_channel)
        &&& d.is_storage(self.flow_x)
        &&& d.is_storage(self.flow_y)
        &&& d.is_storage(self.nabla_u_x)
        &&& d.is_storage(self.nabla_u_y)
        &&& d.is_storage(self.nabla_a_x)
        &&& d.is_storage(self.nabla_a_y)
        &&& d.is_storage(self.sum_a)
    }
}

/// Sums the channels, takes Sobel gradients and combines them into the flow field.
pub struct GradientFlowPhase {
    pub sobel_pipeline: usize,
    pub sobel_u_bg: usize,
    pub sobel_a_bg: usize,
    pub sum_channels_pipeline: usize,
    pub sum_channels_bg: usize,
    pub flow_field_pipeline: usize,
    pub flow_field_bg: usize,
}

impl GradientFlowPhase {
    /// The layouts of the phase: gradients, channel sum, flow field.
    pub open spec fn layouts() -> Seq<Seq<LayoutEntry>> {
        seq![
            seq![ro(21), rw(22), rw(23), un(24)],
            seq![ro(18), rw(19), un(20)],
            seq![ro(25), ro(26), ro(27), ro(28), ro(29), rw(30), rw(31), un(32)],
        ]
    }

    /// The groups of the phase: gradient of the growth, gradient of the mass, channel
    /// sum, flow field.
    pub open spec fn groups(b: nat, l: nat, f: FlowBuffers) -> Seq<GroupView> {
        seq![
            GroupView {
                layout: l as usize,
                entries: seq![
                    all_of(21, f.u_channel),
                    all_of(22, f.nabla_u_x),
                    all_of(23, f.nabla_u_y),
                    all_of(24, b as usize),
                ],
            },
            GroupView {
                layout: l as usize,
                entries: seq![
                    all_of(21, f.sum_a),
                    all_of(22, f.nabla_a_x),
                    all_of(23, f.nabla_a_y),
                    all_of(24, (b + 1) as usize),
                ],
            },
            GroupView {
                layout: (l + 1) as usize,
                entries: seq![
                    all_of(18, f.channel),
                    all_of(19, f.sum_a),
                    all_of(20, (b + 2) as usize),
                ],
            },
            GroupView {
                layout: (l + 2) as usize,
                entries: seq![
                    all_of(25, f.channel),
                    all_of(26, f.nabla_u_x),
                    all_of(27, f.nabla_u_y),
                    all_of(28, f.nabla_a_x),
                    all_of(29, f.nabla_a_y),
                    all_of(30, f.flow_x),
                    all_of(31, f.flow_y),
                    all_of(32, (b + 3) as usize),
                ],
            },
        ]
    }

    /// The device once the phase has its resources.
    #[verifier::opaque]
    pub open spec fn after(d: DeviceView, f: FlowBuffers) -> DeviceView {
        let l = d.layouts.len();
        d.grown(
            seq![
                BufferDesc { size: 12, usage: Usage::Uniform },
                BufferDesc { size: 12, usage: Usage::Uniform },
                BufferDesc { size: 8, usage: Usage::Uniform },
                BufferDesc { size: 12, usage: Usage::Uniform },
            ],
            Self::layouts(),
            seq![
                PipelineDesc { layout: l as usize, entry: Entry::Sobel },
                PipelineDesc { layout: (l + 1) as usize, entry: Entry::SumChannels },
                PipelineDesc { layout: (l + 2) as usize, entry: Entry::FlowField },
            ],
            Self::groups(d.buffers.len(), l, f),
        )
    }

    /// What is written into the phase's buffers.
    pub open spec fn writes<S: Real>(b: nat, x: usize, y: usize, num_channels: usize) -> Seq<
        QueueOpView,
    > {
        seq![
            written(
                b as usize,
                0,
                ByteOrder::Native,
                seq![x as u32, y as u32, num_channels as u32],
            ),
            written((b + 1) as usize, 0, ByteOrder::Native, seq![x as u32, y as u32, 1u32]),
            written((b + 2) as usize, 0, ByteOrder::Native, seq![x as u32, num_channels as u32]),
            written(
                (b + 3) as usize,
                0,
                ByteOrder::Little,
                seq![x as u32, num_channels as u32, bits_of(integer_of::<S>(1i64))],
            ),
        ]
    }

    /// Sets up the phase.
    pub fn new<S: Real>(
        device: &mut Device,
        queue: &mut Queue,
        shape: &[usize],
        num_channels: usize,
        buffers: FlowBuffers,
    ) -> (phase: Self)
        requires
            old(device)@.wf(),
            shape@.len() > 1,
            buffers.on(old(device)@),
        ensures
            final(device)@ == Self::after(old(device)@, buffers),
            functional::<S>() ==> final(queue)@ == old(queue)@ + Self::writes::<S>(
                old(device)@.buffers.len(),
                shape@[0],
                shape@[1],
                num_channels,
            ),
            phase.sobel_pipeline == old(device)@.pipelines.len(),
            phase.sum_channels_pipeline == old(device)@.pipelines.len() + 1,
            phase.flow_field_pipeline == old(device)@.pipelines.len() + 2,
            phase.sobel_u_bg == old(device)@.groups.len(),
            phase.sobel_a_bg == old(device)@.groups.len() + 1,
            phase.sum_channels_bg == old(device)@.groups.len() + 2,
            phase.flow_field_bg == old(device)@.groups.len() + 3,
            final(device)@.wf(),
            final(device)@.extends(old(device)@),
            phase.fits(final(device)@),
    {
        reveal(GradientFlowPhase::after);
        reveal(DeviceView::extends);
        let ghost d = device@;
        let ghost b = device@.buffers.len();
        let ghost l = device@.layouts.len();
        let x: u32 = shape[0] as u32;
        let y: u32 = shape[1] as u32;
        let sobel_params_u_buffer: usize = device.create_buffer(12, Usage::Uniform);
        let sobel_params_a_buffer: usize = device.create_buffer(12, Usage::Uniform);
        let sum_channels_params_buffer: usize = device.create_buffer(8, Usage::Uniform);
        let flow_field_params_buffer: usize = device.create_buffer(12, Usage::Uniform);
        let su: Vec<u32> = vec![x, y, num_channels as u32];
        let sa: Vec<u32> = vec![x, y, 1];
        let sc: Vec<u32> = vec![x, num_channels as u32];
        let ff: Vec<u32> = vec![x, num_channels as u32, S::integer(1).bits()];
        proof {
            let w = Self::writes::<S>(b, shape@[0], shape@[1], num_channels);
            assert(su@ =~= seq![x, y, num_channels as u32]);
            assert(sa@ =~= seq![x, y, 1u32]);
            assert(sc@ =~= seq![x, num_channels as u32]);
            assert(functional::<S>() ==> ff@ =~= seq![
                x,
                num_channels as u32,
                bits_of(integer_of::<S>(1i64)),
            ]);
        }
        queue.write_buffer(sobel_params_u_buffer, 0, ByteOrder::Native, su);
        queue.write_buffer(sobel_params_a_buffer, 0, ByteOrder::Native, sa);
        queue.write_buffer(sum_channels_params_buffer, 0, ByteOrder::Native, sc);
        queue.write_buffer(flow_field_params_buffer, 0, ByteOrder::Little, ff);
        assert(functional::<S>() ==> queue@ =~= old(queue)@ + Self::writes::<S>(
            b,
            shape@[0],
            shape@[1],
            num_channels,
        ));
        let sobel_slots = vec![sro(21), srw(22), srw(23), unif(24)];
        let sum_slots = vec![sro(18), srw(19), unif(20)];
        let flow_slots = vec![
            sro(25),
            sro(26),
            sro(27),
            sro(28),
            sro(29),
            srw(30),
            srw(31),
            unif(32),
        ];
        assert(sobel_slots@ =~= Self::layouts()[0]);
        assert(sum_slots@ =~= Self::layouts()[1]);
        assert(flow_slots@ =~= Self::layouts()[2]);
        let sobel_bgl: usize = device.create_bind_group_layout(sobel_slots);
        let sum_channels_bgl: usize = device.create_bind_group_layout(sum_slots);
        let flow_field_bgl: usize = device.create_bind_group_layout(flow_slots);
        let sobel_pipeline: usize = device.create_compute_pipeline(sobel_bgl, Entry::Sobel);
        let sum_channels_pipeline: usize = device.create_compute_pipeline(
            sum_channels_bgl,
            Entry::SumChannels,
        );
        let flow_field_pipeline: usize = device.create_compute_pipeline(
            flow_field_bgl,
            Entry::FlowField,
        );
        let sobel_u = vec![
            whole(21, buffers.u_channel),
            whole(22, buffers.nabla_u_x),
            whole(23, buffers.nabla_u_y),
            whole(24, sobel_params_u_buffer),
        ];
        let sobel_a = vec![
            whole(21, buffers.sum_a),
            whole(22, buffers.nabla_a_x),
            whole(23, buffers.nabla_a_y),
            whole(24, sobel_params_a_buffer),
        ];
        let sum = vec![
            whole(18, buffers.channel),
            whole(19, buffers.sum_a),
            whole(20, sum_channels_params_buffer),
        ];
        let flow = vec![
            whole(25, buffers.channel),
            whole(26, buffers.nabla_u_x),
            whole(27, buffers.nabla_u_y),
            whole(28, buffers.nabla_a_x),
            whole(29, buffers.nabla_a_y),
            whole(30, buffers.flow_x),
            whole(31, buffers.flow_y),
            whole(32, flow_field_params_buffer),
        ];
        assert(sobel_u@ =~= Self::groups(b, l, buffers)[0].entries);
        assert(sobel_a@ =~= Self::groups(b, l, buffers)[1].entries);
        assert(sum@ =~= Self::groups(b, l, buffers)[2].entries);
        assert(flow@ =~= Self::groups(b, l, buffers)[3].entries);
        let sobel_u_bg: usize = device.create_bind_group(sobel_bgl, sobel_u);
        let sobel_a_bg: usize = device.create_bind_group(sobel_bgl, sobel_a);
        let sum_channels_bg: usize = device.create_bind_group(sum_channels_bgl, sum);
        let flow_field_bg: usize = device.create_bind_group(flow_field_bgl, flow);
        assert(device@ =~= Self::after(d, buffers));
        GradientFlowPhase {
            sobel_pipeline,
            sobel_u_bg,
            sobel_a_bg,
            sum_channels_pipeline,
            sum_channels_bg,
            flow_field_pipeline,
            flow_field_bg,
        }
    }

    /// The phase fits a device still once the device has more.
    pub proof fn lemma_fits_extend(self, d: DeviceView, e: DeviceView)
        requires
            self.fits(d),
            e.extends(d),
        ensures
            self.fits(e),
    {
        lemma_dispatch_extend(d, e, self.sobel_pipeline, self.sobel_u_bg);
        lemma_dispatch_extend(d, e, self.sobel_pipeline, self.sobel_a_bg);
        lemma_dispatch_extend(d, e, self.sum_channels_pipeline, self.sum_channels_bg);
        lemma_dispatch_extend(d, e, self.flow_field_pipeline, self.flow_field_bg);
    }

    /// Whether the phase can run on a device.
    pub open spec fn fits(self, d: DeviceView) -> bool {
        &&& d.dispatch_fits(self.sobel_pipeline, self.sobel_u_bg)
        &&& d.dispatch_fits(self.sobel_pipeline, self.sobel_a_bg)
        &&& d.dispatch_fits(self.sum_channels_pipeline, self.sum_channels_bg)
        &&& d.dispatch_fits(self.flow_field_pipeline, self.flow_field_bg)
    }

    /// The commands of the phase: the mass is summed before its gradient is taken, and
    /// both gradients before the flow.
    pub open spec fn commands(self, wg: u32, wg_c: u32) -> Seq<Command> {
        seq![
            Command::Dispatch {
                pipeline: self.sum_channels_pipeline,
                group: self.sum_channels_bg,
                workgroups: wg,
            },
            Command::Dispatch {
                pipeline: self.sobel_pipeline,
                group: self.sobel_u_bg,
                workgroups: wg_c,
            },
            Command::Dispatch {
                pipeline: self.sobel_pipeline,
                group: self.sobel_a_bg,
                workgroups: wg,
            },
            Command::Dispatch {
                pipeline: self.flow_field_pipeline,
                group: self.flow_field_bg,
                workgroups: wg_c,
            },
        ]
    }

    /// Records the phase.
    pub fn run(&self, encoder: &mut CommandEncoder, wg: u32, wg_c: u32)
        ensures
            final(encoder)@ == old(encoder)@ + self.commands(wg, wg_c),
    {
        encoder.dispatch(self.sum_channels_pipeline, self.sum_channels_bg, wg);
        encoder.dispatch(self.sobel_pipeline, self.sobel_u_bg, wg_c);
        encoder.dispatch(self.sobel_pipeline, self.sobel_a_bg, wg);
        encoder.dispatch(self.flow_field_pipeline, self.flow_field_bg, wg_c);
        assert(encoder@ =~= old(encoder)@ + self.commands(wg, wg_c));
    }
}

/// The buffers between which mass and parameters are advected.
#[derive(Clone, Copy)]
pub struct AdvectionBuffers {
    pub channel: usize,
    pub flow_x: usize,
    pub flow_y: usize,
    pub new_channel: usize,
    pub sum_a: usize,
    pub param: usize,
    pub new_param: usize,
}

impl AdvectionBuffers {
    /// Whether all the buffers exist and serve as storage.
    pub open spec fn on(self, d: DeviceView) -> bool {
        &&& d.is_storage(self.channel)
        &&& d.is_storage(self.flow_x)
        &&& d.is_storage(self.flow_y)
        &&& d.is_storage(self.new_channel)
        &&& d.is_storage(self.sum_a)
        &&& d.is_storage(self.param)
        &&& d.is_storage(self.new_param)
    }
}

/// Moves mass along the flow field.
pub struct AdvectionPhase {
    pub pipeline: usize,
    pub bind_group: usize,
    pub params_buffer: usize,
}

impl AdvectionPhase {
    /// The device once the phase has its resources.
    #[verifier::opaque]
    pub open spec fn after(d: DeviceView, f: AdvectionBuffers) -> DeviceView {
        let l = d.layouts.len() as usize;
        d.grown(
            seq![BufferDesc { size: 32, usage: Usage::Uniform }],
            seq![seq![ro(33), ro(34), ro(35), rw(36), un(37), ro(38), rw(39)]],
            seq![PipelineDesc { layout: l, entry: Entry::Reintegration }],
            seq![
                GroupView {
                    layout: l,
                    entries: seq![
                        all_of(33, f.channel),
                        all_of(34, f.flow_x),
                        all_of(35, f.flow_y),
                        all_of(36, f.new_channel),
                        all_of(37, d.buffers.len() as usize),
                        all_of(38, f.param),
                        all_of(39, f.new_param),
                    ],
                },
            ],
        )
    }

    /// The parameters of the phase: extent, reach, spread, time step, channels, kernels
    /// and the largest displacement, which is the reach less the spread.
    pub open spec fn words<S: Real>(
        x: usize,
        y: usize,
        num_channels: usize,
        num_kernels: usize,
        dd: i32,
        sigma: S,
        dt: S,
    ) -> Seq<u32> {
        seq![
            x as u32,
            y as u32,
            dd as u32,
            bits_of(sigma),
            bits_of(dt),
            num_channels as u32,
            num_kernels as u32,
            bits_of(minus_of(integer_of::<S>(dd as i64), sigma)),
        ]
    }

    /// Sets up the phase.
    pub fn new<S: Real>(
        device: &mut Device,
        queue: &mut Queue,
        shape: &[usize],
        num_channels: usize,
        num_kernels: usize,
        dd: i32,
        sigma: S,
        dt: S,
        buffers: AdvectionBuffers,
    ) -> (phase: Self)
        requires
            old(device)@.wf(),
            shape@.len() > 1,
            buffers.on(old(device)@),
        ensures
            final(device)@ == Self::after(old(device)@, buffers),
            functional::<S>() ==> final(queue)@ == old(queue)@.push(
                written(
                    old(device)@.buffers.len() as usize,
                    0,
                    ByteOrder::Little,
                    Self::words(shape@[0], shape@[1], num_channels, num_kernels, dd, sigma, dt),
                ),
            ),
            phase.pipeline == old(device)@.pipelines.len(),
            phase.bind_group == old(device)@.groups.len(),
            phase.params_buffer == old(device)@.buffers.len(),
            phase.params_buffer < final(device)@.buffers.len(),
            final(device)@.buffers[phase.params_buffer as int].usage == Usage::Uniform,
            final(device)@.wf(),
            final(device)@.extends(old(device)@),
            phase.fits(final(device)@),
    {
        reveal(AdvectionPhase::after);
        reveal(DeviceView::extends);
        let ghost d = device@;
        let params_buffer: usize = device.create_buffer(32, Usage::Uniform);
        let ma = S::integer(dd as i64).minus(sigma);
        let ri_data: Vec<u32> = vec![
            shape[0] as u32,
            shape[1] as u32,
            dd as u32,
            sigma.bits(),
            dt.bits(),
            num_channels as u32,
            num_kernels as u32,
            ma.bits(),
        ];
        assert(functional::<S>() ==> ri_data@ =~= Self::words(
            shape@[0],
            shape@[1],
            num_channels,
            num_kernels,
            dd,
            sigma,
            dt,
        ));
        queue.write_buffer(params_buffer, 0, ByteOrder::Little, ri_data);
        let slots = vec![sro(33), sro(34), sro(35), srw(36), unif(37), sro(38), srw(39)];
        let entries = vec![
            whole(33, buffers.channel),
            whole(34, buffers.flow_x),
            whole(35, buffers.flow_y),
            whole(36, buffers.new_channel),
            whole(37, params_buffer),
            whole(38, buffers.param),
            whole(39, buffers.new_param),
        ];
        assert(slots@ =~= seq![ro(33), ro(34), ro(35), rw(36), un(37), ro(38), rw(39)]);
        assert(entries@ =~= seq![
            all_of(33, buffers.channel),
            all_of(34, buffers.flow_x),
            all_of(35, buffers.flow_y),
            all_of(36, buffers.new_channel),
            all_of(37, params_buffer),
            all_of(38, buffers.param),
            all_of(39, buffers.new_param),
        ]);
        let bgl: usize = device.create_bind_group_layout(slots);
        let pipeline: usize = device.create_compute_pipeline(bgl, Entry::Reintegration);
        let bind_group: usize = device.create_bind_group(bgl, entries);
        assert(device@ =~= Self::after(d, buffers));
        AdvectionPhase { pipeline, bind_group, params_buffer }
    }

    /// The phase fits a device still once the device has more.
    pub proof fn lemma_fits_extend(self, d: DeviceView, e: DeviceView)
        requires
            self.fits(d),
            e.extends(d),
        ensures
            self.fits(e),
    {
        lemma_dispatch_extend(d, e, self.pipeline, self.bind_group);
    }

    /// Whether the phase can run on a device.
    pub open spec fn fits(self, d: DeviceView) -> bool {
        d.dispatch_fits(self.pipeline, self.bind_group)
    }

    /// The commands of the phase.
    pub open spec fn commands(self, wg_count: u32) -> Seq<Command> {
        seq![
            Command::Dispatch {
                pipeline: self.pipeline,
                group: self.bind_group,
                workgroups: wg_count,
            },
        ]
    }

    /// Records the phase.
    pub fn run(&self, encoder: &mut CommandEncoder, wg_count: u32)
        ensures
            final(encoder)@ == old(encoder)@ + self.commands(wg_count),
    {
        encoder.dispatch(self.pipeline, self.bind_group, wg_count);
        assert(encoder@ =~= old(encoder)@ + self.commands(wg_count));
    }
}

/// Moves kernel parameters along the flow field.
pub struct ParamAdvectionPhase {
    pub pipeline: usize,
    pub bind_group: usize,
}

impl ParamAdvectionPhase {
    /// The device once the phase has its resources.
    #[verifier::opaque]
    pub open spec fn after(d: DeviceView, f: AdvectionBuffers, params: usize) -> DeviceView {
        let l = d.layouts.len() as usize;
        d.grown(
            seq![],
            seq![seq![ro(33), ro(34), ro(35), ro(40), un(37), ro(38), rw(39)]],
            seq![PipelineDesc { layout: l, entry: Entry::ReintegrationParams }],
            seq![
                GroupView {
                    layout: l,
                    entries: seq![
                        all_of(33, f.channel),
                        all_of(34, f.flow_x),
                        all_of(35, f.flow_y),
                        all_of(40, f.sum_a),
                        all_of(37, params),
                        all_of(38, f.param),
                        all_of(39, f.new_param),
                    ],
                },
            ],
        )
    }

    /// Sets up the phase on the parameters of the advection phase.
    pub fn new(device: &mut Device, buffers: AdvectionBuffers, ri_params_buffer: usize) -> (phase:
        Self)
        requires
            old(device)@.wf(),
            buffers.on(old(device)@),
            ri_params_buffer < old(device)@.buffers.len(),
            old(device)@.buffers[ri_params_buffer as int].usage == Usage::Uniform,
        ensures
            final(device)@ == Self::after(old(device)@, buffers, ri_params_buffer),
            phase.pipeline == old(device)@.pipelines.len(),
            phase.bind_group == old(device)@.groups.len(),
            final(device)@.wf(),
            final(device)@.extends(old(device)@),
            phase.fits(final(device)@),
    {
        reveal(ParamAdvectionPhase::after);
        reveal(DeviceView::extends);
        let ghost d = device@;
        let slots = vec![sro(33), sro(34), sro(35), sro(40), unif(37), sro(38), srw(39)];
        let entries = vec![
            whole(33, buffers.channel),
            whole(34, buffers.flow_x),
            whole(35, buffers.flow_y),
            whole(40, buffers.sum_a),
            whole(37, ri_params_buffer),
            whole(38, buffers.param),
            whole(39, buffers.new_param),
        ];
        assert(slots@ =~= seq![ro(33), ro(34), ro(35), ro(40), un(37), ro(38), rw(39)]);
        assert(entries@ =~= seq![
            all_of(33, buffers.channel),
            all_of(34, buffers.flow_x),
            all_of(35, buffers.flow_y),
            all_of(40, buffers.sum_a),
            all_of(37, ri_params_buffer),
            all_of(38, buffers.param),
            all_of(39, buffers.new_param),
        ]);
        let bgl: usize = device.create_bind_group_layout(slots);
        let pipeline: usize = device.create_compute_pipeline(bgl, Entry::ReintegrationParams);
        let bind_group: usize = device.create_bind_group(bgl, entries);
        assert(device@ =~= Self::after(d, buffers, ri_params_buffer));
        ParamAdvectionPhase { pipeline, bind_group }
    }

    /// The phase fits a device still once the device has more.
    pub proof fn lemma_fits_extend(self, d: DeviceView, e: DeviceView)
        requires
            self.fits(d),
            e.extends(d),
        ensures
            self.fits(e),
    {
        lemma_dispatch_extend(d, e, self.pipeline, self.bind_group);
    }

    /// Whether the phase can run on a device.
    pub open spec fn fits(self, d: DeviceView) -> bool {
        d.dispatch_fits(self.pipeline, self.bind_group)
    }

    /// The commands of the phase.
    pub open spec fn commands(self, wg_count: u32) -> Seq<Command> {
        seq![
            Command::Dispatch {
                pipeline: self.pipeline,
                group: self.bind_group,
                workgroups: wg_count,
            },
        ]
    }

    /// Records the phase.
    pub fn run(&self, encoder: &mut CommandEncoder, wg_count: u32)
        ensures
            final(encoder)@ == old(encoder)@ + self.commands(wg_count),
    {
        encoder.dispatch(self.pipeline, self.bind_group, wg_count);
        assert(encoder@ =~= old(encoder)@ + self.commands(wg_count));
    }
}

/// Flattened lists stand one behind the other, and the offsets say where: those of a channel and
/// of the next cut its list out; the first list starts at the start and the last ends at the end.
pub proof fn law_targets_are_cut_out_by_offsets(
    c1: &[Vec<u32>],
    num_channels: usize,
    flat: (Vec<u32>, Vec<u32>),
    c: int,
)
    requires
        num_channels < usize::MAX,
        call_ensures(flatten_targets, (c1, num_channels), flat),
        0 <= c < num_channels,
        flat.0@.len() <= u32::MAX,
    ensures
        flat.1@.len() == num_channels + 1,
        flat.1@[0] == 0,
        flat.1@[num_channels as int] == flat.0@.len(),
        flat.1@[c] <= flat.1@[c + 1] <= flat.0@.len(),
        flat.0@.subrange(flat.1@[c] as int, flat.1@[c + 1] as int) == c1@[c]@,
{
    law_offsets_delimit_channels(c1@, num_channels as nat, c);
    assert(flattened(c1@, 0).len() == 0);
}

} // verus!
