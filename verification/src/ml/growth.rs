//! Growth phase: from convolved potentials to affinities.
//!
//! Each cell maps every kernel's potential through its growth bump and adds the
//! weighted results of the kernels that feed each channel.

use crate::gpu::{
    copy_words, sro, srw, unif, whole, ByteOrder, Command, CommandEncoder, Device, Entry, Queue, Usage,
};
use crate::complex::pack_real;
use crate::scalar::Real;
use vstd::prelude::*;

verus! {

use crate::gpu::{
    all_of, lemma_dispatch_extend, ro, rw, un, workgroups, written, BufferDesc, DeviceView,
    GroupView, LayoutEntry, PipelineDesc, QueueOpView,
};
use crate::complex::real_words;
use crate::scalar::{bits_of, count_of, functional, integer_of, over_of, times_of};

/// Mean and width of each kernel's growth bump, interleaved.
pub open spec fn growth_words<S: Real>(mu: Seq<S>, sigma: Seq<S>, n: nat) -> Seq<u32> {
    Seq::new(
        2 * n,
        |i: int|
            if i % 2 == 0 {
                bits_of(mu[i / 2])
            } else {
                bits_of(sigma[i / 2])
            },
    )
}

/// The resources of the growth phase.
pub struct GrowthPhase {
    pub pipeline: usize,
    pub bind_group: usize,
    pub growth_params_buffer: usize,
    pub weights_buffer: usize,
    pub c1_buffer: usize,
    pub params_buffer: usize,
}

impl GrowthPhase {
    /// The layout of the phase: potentials, affinities, bumps, weights, target channels,
    /// parameters.
    pub open spec fn layout() -> Seq<LayoutEntry> {
        seq![ro(8), rw(10), ro(11), ro(12), ro(13), un(14)]
    }

    /// The device once the phase has its resources.
    #[verifier::opaque]
    pub open spec fn after(
        d: DeviceView,
        num_kernels: int,
        conv_buffer: usize,
        affinity_buffer: usize,
    ) -> DeviceView {
        let b = d.buffers.len();
        let l = d.layouts.len() as usize;
        d.grown(
            seq![
                BufferDesc { size: (num_kernels * 8) as u64, usage: Usage::Table },
                BufferDesc { size: (num_kernels * 4) as u64, usage: Usage::Table },
                BufferDesc { size: (num_kernels * 4) as u64, usage: Usage::Table },
                BufferDesc { size: 20, usage: Usage::Uniform },
            ],
            seq![Self::layout()],
            seq![PipelineDesc { layout: l, entry: Entry::MclGrowth }],
            seq![
                GroupView {
                    layout: l,
                    entries: seq![
                        all_of(8, conv_buffer),
                        all_of(10, affinity_buffer),
                        all_of(11, b as usize),
                        all_of(12, (b + 1) as usize),
                        all_of(13, (b + 2) as usize),
                        all_of(14, (b + 3) as usize),
                    ],
                },
            ],
        )
    }

    /// What is written into the phase's buffers; a square grid's inverse transform is
    /// scaled by one over the number of its cells.
    pub open spec fn writes<S: Real>(
        b: nat,
        width: u32,
        num_kernels: usize,
        num_channels: usize,
        c1: Seq<u32>,
        mu: Seq<S>,
        sigma: Seq<S>,
        weights: Seq<S>,
        dt: S,
    ) -> Seq<QueueOpView> {
        let w = count_of::<S>(width as usize);
        seq![
            written(
                b as usize,
                0,
                ByteOrder::Native,
                growth_words(mu, sigma, num_kernels as nat),
            ),
            written((b + 1) as usize, 0, ByteOrder::Native, real_words(weights)),
            written((b + 2) as usize, 0, ByteOrder::Native, c1),
            written(
                (b + 3) as usize,
                0,
                ByteOrder::Native,
                seq![
                    width,
                    num_kernels as u32,
                    num_channels as u32,
                    bits_of(dt),
                    bits_of(over_of(integer_of::<S>(1i64), times_of(w, w))),
                ],
            ),
        ]
    }

    /// Sets up the phase.
    pub fn new<S: Real>(
        device: &mut Device,
        queue: &mut Queue,
        shape: &[usize],
        num_kernels: usize,
        num_channels: usize,
        c1: &[u32],
        mu: &[S],
        sigma: &[S],
        weights: &[S],
        dt: S,
        conv_buffer: usize,
        affinity_buffer: usize,
    ) -> (phase: Self)
        requires
            old(device)@.wf(),
            shape@.len() > 0,
            num_kernels * 8 <= usize::MAX,
            c1@.len() <= num_kernels,
            weights@.len() <= num_kernels,
            mu@.len() >= num_kernels,
            sigma@.len() >= num_kernels,
            old(device)@.is_storage(conv_buffer),
            old(device)@.is_storage(affinity_buffer),
        ensures
            final(device)@ == Self::after(
                old(device)@,
                num_kernels as int,
                conv_buffer,
                affinity_buffer,
            ),
            functional::<S>() ==> final(queue)@ == old(queue)@ + Self::writes(
                old(device)@.buffers.len(),
                shape@[0] as u32,
                num_kernels,
                num_channels,
                c1@,
                mu@,
                sigma@,
                weights@,
                dt,
            ),
            phase.pipeline == old(device)@.pipelines.len(),
            phase.bind_group == old(device)@.groups.len(),
            phase.growth_params_buffer == old(device)@.buffers.len(),
            phase.weights_buffer == old(device)@.buffers.len() + 1,
            phase.c1_buffer == old(device)@.buffers.len() + 2,
            phase.params_buffer == old(device)@.buffers.len() + 3,
            final(device)@.wf(),
            final(device)@.extends(old(device)@),
            phase.fits(final(device)@),
    {
        reveal(GrowthPhase::after);
        reveal(DeviceView::extends);
        let ghost d = device@;
        let width: u32 = shape[0] as u32;
        let mut gp_data: Vec<u32> = Vec::new();
        let mut k: usize = 0;
        while k < num_kernels
            invariant
                k <= num_kernels,
                mu@.len() >= num_kernels,
                sigma@.len() >= num_kernels,
                gp_data@.len() == 2 * k,
                functional::<S>() ==> gp_data@ == growth_words(
                    mu@,
                    sigma@,
                    num_kernels as nat,
                ).take(2 * k as int),
            decreases num_kernels - k,
        {
            gp_data.push(mu[k].bits());
            gp_data.push(sigma[k].bits());
            proof {
                if functional::<S>() {
                    assert((2 * k) / 2 == k && (2 * k + 1) / 2 == k);
                    assert(gp_data@ =~= growth_words(mu@, sigma@, num_kernels as nat).take(
                        2 * (k + 1),
                    ));
                }
            }
            k = k + 1;
        }
        assert(growth_words(mu@, sigma@, num_kernels as nat).take(2 * k as int) =~= growth_words(
            mu@,
            sigma@,
            num_kernels as nat,
        ));
        let growth_params_buffer: usize = device.create_buffer(
            (num_kernels * 8) as u64,
            Usage::Table,
        );
        queue.write_buffer(growth_params_buffer, 0, ByteOrder::Native, gp_data);
        let weights_buffer: usize = device.create_buffer((num_kernels * 4) as u64, Usage::Table);
        queue.write_buffer(weights_buffer, 0, ByteOrder::Native, pack_real(weights));
        let c1_buffer: usize = device.create_buffer((num_kernels * 4) as u64, Usage::Table);
        queue.write_buffer(c1_buffer, 0, ByteOrder::Native, copy_words(c1));
        let w = S::count(width as usize);
        let norm_factor = S::integer(1).over(w.times(w));
        let params_buffer: usize = device.create_buffer(20, Usage::Uniform);
        let params: Vec<u32> = vec![
            width,
            num_kernels as u32,
            num_channels as u32,
            dt.bits(),
            norm_factor.bits(),
        ];
        proof {
            if functional::<S>() {
                let w = count_of::<S>(width as usize);
                assert(params@ =~= seq![
                    width,
                    num_kernels as u32,
                    num_channels as u32,
                    bits_of(dt),
                    bits_of(over_of(integer_of::<S>(1i64), times_of(w, w))),
                ]);
            }
        }
        queue.write_buffer(params_buffer, 0, ByteOrder::Native, params);
        assert(functional::<S>() ==> queue@ =~= old(queue)@ + Self::writes(
            d.buffers.len(),
            width,
            num_kernels,
            num_channels,
            c1@,
            mu@,
            sigma@,
            weights@,
            dt,
        ));
        let slots = vec![sro(8), srw(10), sro(11), sro(12), sro(13), unif(14)];
        assert(slots@ =~= Self::layout());
        let entries = vec![
            whole(8, conv_buffer),
            whole(10, affinity_buffer),
            whole(11, growth_params_buffer),
            whole(12, weights_buffer),
            whole(13, c1_buffer),
            whole(14, params_buffer),
        ];
        assert(entries@ =~= seq![
            all_of(8, conv_buffer),
            all_of(10, affinity_buffer),
            all_of(11, growth_params_buffer),
            all_of(12, weights_buffer),
            all_of(13, c1_buffer),
            all_of(14, params_buffer),
        ]);
        let bgl: usize = device.create_bind_group_layout(slots);
        let pipeline: usize = device.create_compute_pipeline(bgl, Entry::MclGrowth);
        let bind_group: usize = device.create_bind_group(bgl, entries);
        assert(device@ =~= Self::after(d, num_kernels as int, conv_buffer, affinity_buffer));
        GrowthPhase {
            pipeline,
            bind_group,
            growth_params_buffer,
            weights_buffer,
            c1_buffer,
            params_buffer,
        }
    }

    /// The phase fits a device still once the device has more.
    pub proof fn lemma_fits_extend(self, d: DeviceView, e: DeviceView)
        requires
            self.fits(d),
            e.extends(d),
        ensures
            self.fits(e),
    {
        lemma_dispatch_extend(d, e, self.pipeline, self.bind_group);
    }

    /// Whether the phase can run on a device.
    pub open spec fn fits(self, d: DeviceView) -> bool {
        d.dispatch_fits(self.pipeline, self.bind_group)
    }

    /// The commands of the phase.
    pub open spec fn commands(self, total: int) -> Seq<Command> {
        seq![
            Command::Dispatch {
                pipeline: self.pipeline,
                group: self.bind_group,
                workgroups: workgroups(total),
            },
        ]
    }

    /// Records the phase.
    pub fn run(&self, encoder: &mut CommandEncoder, total_elements: u32)
        requires
            total_elements + 255 <= u32::MAX,
        ensures
            final(encoder)@ == old(encoder)@ + self.commands(total_elements as int),
    {
        let wg: u32 = (total_elements + 255) / 256;
        encoder.dispatch(self.pipeline, self.bind_group, wg);
        assert(encoder@ =~= old(encoder)@ + self.commands(total_elements as int));
    }
}

/// The parameters of the kernels' bumps stand kernel by kernel, the middle before the width.
pub proof fn law_bumps_stand_kernel_by_kernel<S: Real>(mu: Seq<S>, sigma: Seq<S>, n: nat, k: int)
    requires
        0 <= k < n,
    ensures
        growth_words(mu, sigma, n).len() == 2 * n,
        growth_words(mu, sigma, n)[2 * k] == bits_of(mu[k]),
        growth_words(mu, sigma, n)[2 * k + 1] == bits_of(sigma[k]),
{
    assert((2 * k) % 2 == 0 && (2 * k) / 2 == k);
    assert((2 * k + 1) % 2 == 1 && (2 * k + 1) / 2 == k);
}

} // verus!
