//! Render phase: maps the channels to packed colours on the GPU.

use crate::gpu::{
    sro, srw, unif, whole, ByteOrder, Command, CommandEncoder, Device, Entry, Queue, Usage,
};
use vstd::prelude::*;

verus! {

use crate::gpu::{
    all_of, lemma_dispatch_extend, ro, rw, un, workgroups, written, BufferDesc, DeviceView,
    GroupView, LayoutEntry, PipelineDesc,
};

/// The resources of the render phase.
pub struct RenderPhase {
    pub pipeline: usize,
    pub bind_group: usize,
    pub params_buffer: usize,
}

impl RenderPhase {
    /// The layout of the phase: channels, pixels, parameters.
    pub open spec fn layout() -> Seq<LayoutEntry> {
        seq![ro(20), rw(21), un(22)]
    }

    /// The device once the phase has its resources.
    #[verifier::opaque]
    pub open spec fn after(d: DeviceView, channel: usize, pixels: usize) -> DeviceView {
        let l = d.layouts.len() as usize;
        d.grown(
            seq![BufferDesc { size: 8, usage: Usage::Uniform }],
            seq![Self::layout()],
            seq![PipelineDesc { layout: l, entry: Entry::Render }],
            seq![
                GroupView {
                    layout: l,
                    entries: seq![
                        all_of(20, channel),
                        all_of(21, pixels),
                        all_of(22, d.buffers.len() as usize),
                    ],
                },
            ],
        )
    }

    /// Sets up the phase.
    pub fn new(
        device: &mut Device,
        queue: &mut Queue,
        shape: &[usize],
        num_channels: usize,
        channel_buffer: usize,
        render_buffer: usize,
    ) -> (phase: Self)
        requires
            old(device)@.wf(),
            shape@.len() > 0,
            old(device)@.is_storage(channel_buffer),
            old(device)@.is_storage(render_buffer),
        ensures
            final(device)@ == Self::after(old(device)@, channel_buffer, render_buffer),
            final(queue)@ == old(queue)@.push(
                written(
                    old(device)@.buffers.len() as usize,
                    0,
                    ByteOrder::Native,
                    seq![shape@[0] as u32, num_channels as u32],
                ),
            ),
            phase.pipeline == old(device)@.pipelines.len(),
            phase.bind_group == old(device)@.groups.len(),
            phase.params_buffer == old(device)@.buffers.len(),
            final(device)@.wf(),
            final(device)@.extends(old(device)@),
            phase.fits(final(device)@),
    {
        reveal(RenderPhase::after);
        reveal(DeviceView::extends);
        let ghost d = device@;
        let params_buffer: usize = device.create_buffer(8, Usage::Uniform);
        let params: Vec<u32> = vec![shape[0] as u32, num_channels as u32];
        assert(params@ =~= seq![shape@[0] as u32, num_channels as u32]);
        queue.write_buffer(params_buffer, 0, ByteOrder::Native, params);
        let slots = vec![sro(20), srw(21), unif(22)];
        assert(slots@ =~= Self::layout());
        let entries = vec![
            whole(20, channel_buffer),
            whole(21, render_buffer),
            whole(22, params_buffer),
        ];
        assert(entries@ =~= seq![
            all_of(20, channel_buffer),
            all_of(21, render_buffer),
            all_of(22, params_buffer),
        ]);
        let bgl: usize = device.create_bind_group_layout(slots);
        let pipeline: usize = device.create_compute_pipeline(bgl, Entry::Render);
        let bind_group: usize = device.create_bind_group(bgl, entries);
        assert(device@ =~= Self::after(d, channel_buffer, render_buffer));
        RenderPhase { pipeline, bind_group, params_buffer }
    }

    /// The phase fits a device still once the device has more.
    pub proof fn lemma_fits_extend(self, d: DeviceView, e: DeviceView)
        requires
            self.fits(d),
            e.extends(d),
        ensures
            self.fits(e),
    {
        lemma_dispatch_extend(d, e, self.pipeline, self.bind_group);
    }

    /// Whether the phase can run on a device.
    pub open spec fn fits(self, d: DeviceView) -> bool {
        d.dispatch_fits(self.pipeline, self.bind_group)
    }

    /// The commands of the phase.
    pub open spec fn commands(self, total: int) -> Seq<Command> {
        seq![
            Command::Dispatch {
                pipeline: self.pipeline,
                group: self.bind_group,
                workgroups: workgroups(total),
            },
        ]
    }

    /// Records the phase.
    pub fn run(&self, encoder: &mut CommandEncoder, total_elements: u32)
        requires
            total_elements + 255 <= u32::MAX,
        ensures
            final(encoder)@ == old(encoder)@ + self.commands(total_elements as int),
    {
        let wg: u32 = (total_elements + 255) / 256;
        encoder.dispatch(self.pipeline, self.bind_group, wg);
        assert(encoder@ =~= old(encoder)@ + self.commands(total_elements as int));
    }
}

} // verus!
