//! Diffusion phase: mass-conserving redistribution.
//!
//! Pass 1 turns affinities into exponentials and sums them over each 3x3
//! neighbourhood; pass 2 hands every cell's mass to its neighbours in proportion
//! to their exponentials.

use crate::gpu::{
    sro, srw, unif, whole, ByteOrder, Command, CommandEncoder, Device, Entry, Queue, Usage,
};
use crate::scalar::Real;
use vstd::prelude::*;

verus! {

use crate::gpu::{
    all_of, lemma_dispatch_extend, ro, rw, un, workgroups, written, BufferDesc, DeviceView,
    GroupView, LayoutEntry, PipelineDesc, };
use crate::scalar::{bits_of, functional};

/// The resources of the diffusion phase.
pub struct DiffusionPhase {
    pub pass1_pipeline: usize,
    pub pass1_bg: usize,
    pub pass2_pipeline: usize,
    pub pass2_bg: usize,
    pub params_buffer: usize,
}

impl DiffusionPhase {
    /// The layouts of the two passes: the first writes what the second reads.
    pub open spec fn layouts() -> Seq<Seq<LayoutEntry>> {
        seq![
            seq![rw(15), rw(16), un(17)],
            seq![ro(15), ro(16), un(17), ro(18), rw(19)],
        ]
    }

    /// The groups of the two passes.
    pub open spec fn groups(
        b: nat,
        l: nat,
        affinity: usize,
        z: usize,
        channel: usize,
        new_channel: usize,
    ) -> Seq<GroupView> {
        seq![
            GroupView {
                layout: l as usize,
                entries: seq![all_of(15, affinity), all_of(16, z), all_of(17, b as usize)],
            },
            GroupView {
                layout: (l + 1) as usize,
                entries: seq![
                    all_of(15, affinity),
                    all_of(16, z),
                    all_of(17, b as usize),
                    all_of(18, channel),
                    all_of(19, new_channel),
                ],
            },
        ]
    }

    /// The device once the phase has its resources.
    #[verifier::opaque]
    pub open spec fn after(
        d: DeviceView,
        affinity: usize,
        z: usize,
        channel: usize,
        new_channel: usize,
    ) -> DeviceView {
        let l = d.layouts.len();
        d.grown(
            seq![BufferDesc { size: 12, usage: Usage::Uniform }],
            Self::layouts(),
            seq![
                PipelineDesc { layout: l as usize, entry: Entry::DiffusionPass1 },
                PipelineDesc { layout: (l + 1) as usize, entry: Entry::DiffusionPass2 },
            ],
            Self::groups(d.buffers.len(), l, affinity, z, channel, new_channel),
        )
    }

    /// Sets up the phase.
    pub fn new<S: Real>(
        device: &mut Device,
        queue: &mut Queue,
        shape: &[usize],
        num_channels: usize,
        temp: S,
        affinity_buffer: usize,
        z_buffer: usize,
        channel_buffer: usize,
        new_channel_buffer: usize,
    ) -> (phase: Self)
        requires
            old(device)@.wf(),
            shape@.len() > 0,
            old(device)@.is_storage(affinity_buffer),
            old(device)@.is_storage(z_buffer),
            old(device)@.is_storage(channel_buffer),
            old(device)@.is_storage(new_channel_buffer),
        ensures
            final(device)@ == Self::after(
                old(device)@,
                affinity_buffer,
                z_buffer,
                channel_buffer,
                new_channel_buffer,
            ),
            functional::<S>() ==> final(queue)@ == old(queue)@.push(
                written(
                    old(device)@.buffers.len() as usize,
                    0,
                    ByteOrder::Native,
                    seq![shape@[0] as u32, num_channels as u32, bits_of(temp)],
                ),
            ),
            phase.pass1_pipeline == old(device)@.pipelines.len(),
            phase.pass2_pipeline == old(device)@.pipelines.len() + 1,
            phase.pass1_bg == old(device)@.groups.len(),
            phase.pass2_bg == old(device)@.groups.len() + 1,
            phase.params_buffer == old(device)@.buffers.len(),
            final(device)@.wf(),
            final(device)@.extends(old(device)@),
            phase.fits(final(device)@),
    {
        reveal(DiffusionPhase::after);
        reveal(DeviceView::extends);
        let ghost d = device@;
        let ghost gs = Self::groups(
            d.buffers.len(),
            d.layouts.len(),
            affinity_buffer,
            z_buffer,
            channel_buffer,
            new_channel_buffer,
        );
        let params_buffer: usize = device.create_buffer(12, Usage::Uniform);
        let params: Vec<u32> = vec![shape[0] as u32, num_channels as u32, temp.bits()];
        assert(functional::<S>() ==> params@ =~= seq![
            shape@[0] as u32,
            num_channels as u32,
            bits_of(temp),
        ]);
        queue.write_buffer(params_buffer, 0, ByteOrder::Native, params);
        let slots1 = vec![srw(15), srw(16), unif(17)];
        assert(slots1@ =~= Self::layouts()[0]);
        let entries1 = vec![
            whole(15, affinity_buffer),
            whole(16, z_buffer),
            whole(17, params_buffer),
        ];
        assert(entries1@ =~= gs[0].entries);
        let pass1_bgl: usize = device.create_bind_group_layout(slots1);
        let pass1_pipeline: usize = device.create_compute_pipeline(
            pass1_bgl,
            Entry::DiffusionPass1,
        );
        let pass1_bg: usize = device.create_bind_group(pass1_bgl, entries1);
        let slots2 = vec![sro(15), sro(16), unif(17), sro(18), srw(19)];
        assert(slots2@ =~= Self::layouts()[1]);
        let entries2 = vec![
            whole(15, affinity_buffer),
            whole(16, z_buffer),
            whole(17, params_buffer),
            whole(18, channel_buffer),
            whole(19, new_channel_buffer),
        ];
        assert(entries2@ =~= gs[1].entries);
        let pass2_bgl: usize = device.create_bind_group_layout(slots2);
        let pass2_pipeline: usize = device.create_compute_pipeline(
            pass2_bgl,
            Entry::DiffusionPass2,
        );
        let pass2_bg: usize = device.create_bind_group(pass2_bgl, entries2);
        assert(device@ =~= Self::after(
            d,
            affinity_buffer,
            z_buffer,
            channel_buffer,
            new_channel_buffer,
        ));
        DiffusionPhase { pass1_pipeline, pass1_bg, pass2_pipeline, pass2_bg, params_buffer }
    }

    /// The phase fits a device still once the device has more.
    pub proof fn lemma_fits_extend(self, d: DeviceView, e: DeviceView)
        requires
            self.fits(d),
            e.extends(d),
        ensures
            self.fits(e),
    {
        lemma_dispatch_extend(d, e, self.pass1_pipeline, self.pass1_bg);
        lemma_dispatch_extend(d, e, self.pass2_pipeline, self.pass2_bg);
    }

    /// Whether the phase can run on a device.
    pub open spec fn fits(self, d: DeviceView) -> bool {
        &&& d.dispatch_fits(self.pass1_pipeline, self.pass1_bg)
        &&& d.dispatch_fits(self.pass2_pipeline, self.pass2_bg)
    }

    /// The commands of the phase: pass 1, then pass 2.
    pub open spec fn commands(self, total: int) -> Seq<Command> {
        seq![
            Command::Dispatch {
                pipeline: self.pass1_pipeline,
                group: self.pass1_bg,
                workgroups: workgroups(total),
            },
            Command::Dispatch {
                pipeline: self.pass2_pipeline,
                group: self.pass2_bg,
                workgroups: workgroups(total),
            },
        ]
    }

    /// Records the phase.
    pub fn run(&self, encoder: &mut CommandEncoder, total_elements: u32)
        requires
            total_elements + 255 <= u32::MAX,
        ensures
            final(encoder)@ == old(encoder)@ + self.commands(total_elements as int),
    {
        let wg: u32 = (total_elements + 255) / 256;
        encoder.dispatch(self.pass1_pipeline, self.pass1_bg, wg);
        encoder.dispatch(self.pass2_pipeline, self.pass2_bg, wg);
        assert(encoder@ =~= old(encoder)@ + self.commands(total_elements as int));
    }
}

} // verus!
