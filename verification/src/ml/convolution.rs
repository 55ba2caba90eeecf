//! Convolution phase: transforms all channels, then multiplies and transforms back
//! for all kernels.
//!
//! 1. Copy every channel into its slot of the spectrum buffer (real to complex).
//! 2. Transform every channel's slot (rows, then columns).
//! 3. Copy the spectrum of each kernel's input channel into the kernel's slot of the
//!    transform buffer.
//! 4. Multiply every kernel's slot with the kernel.
//! 5. Transform every kernel's slot back (columns, then rows).

use crate::gpu::{
    part, sro, srw, unif, whole, ByteOrder, Command, CommandEncoder, Device, Entry, Queue, Usage,
};
use crate::scalar::Real;
use crate::twiddle::{generate_bitrev, generate_twiddles};
use vstd::prelude::*;

verus! {

use crate::gpu::{
    all_of, lemma_slot, part_of, ro, rw, un, workgroups, written, BufferDesc, DeviceView,
    GroupView, LayoutEntry, PipelineDesc, QueueOpView,
};
use crate::scalar::functional;
use crate::twiddle::{ceil_stages, lemma_ceil_bound, reversed, stages_words};
use vstd::arithmetic::power2::{lemma2_to64, lemma_pow2_strictly_increases, pow2};

/// The resources of the convolution phase.
pub struct ConvolutionPhase {
    pub fft_row_pipeline: usize,
    pub fft_col_pipeline: usize,
    pub ifft_row_pipeline: usize,
    pub ifft_col_pipeline: usize,
    pub fft_bgl: usize,
    pub copy_to_conv_pipeline: usize,
    pub copy_to_conv_bgl: usize,
    pub complex_mul_pipeline: usize,
    pub complex_mul_bgl: usize,
    pub fused_cmul_ifft_pipeline: usize,
    pub fused_cmul_ifft_bgl: usize,
    pub twiddle_buffer: usize,
    pub bitrev_buffer: usize,
    pub fft_params_buffer: usize,
    pub inv_fft_params_buffer: usize,
    /// One complex slot for each kernel.
    pub conv_buffer: usize,
    /// One complex slot for each channel.
    pub spectrum_buffer: usize,
}

/// The layouts of the phase: transform, copy, product, product fused with a transform.
pub open spec fn phase_layouts() -> Seq<Seq<LayoutEntry>> {
    seq![
        seq![rw(0), ro(2), un(3), ro(41)],
        seq![ro(4), rw(5)],
        seq![rw(6), ro(7)],
        seq![rw(0), ro(2), un(3), ro(7), ro(41)],
    ]
}

/// The bit reversal of every index below `size`.
pub open spec fn bitrev_words(size: nat) -> Seq<u32> {
    Seq::new(size, |i: int| reversed(ceil_stages(size), i as nat) as u32)
}

impl ConvolutionPhase {
    /// The buffers of the phase: twiddles, bit reversal, parameters of both transforms,
    /// spectra of the channels.
    pub open spec fn buffers(n: nat, total: int, num_channels: int) -> Seq<BufferDesc> {
        seq![
            BufferDesc {
                size: (8 * (pow2(ceil_stages(n)) - 1)) as u64,
                usage: Usage::Table,
            },
            BufferDesc { size: (n * 4) as u64, usage: Usage::Table },
            BufferDesc { size: 8, usage: Usage::Uniform },
            BufferDesc { size: 8, usage: Usage::Uniform },
            BufferDesc { size: (num_channels * total * 8) as u64, usage: Usage::Storage },
        ]
    }

    /// The pipelines of the phase.
    pub open spec fn pipelines(l: nat) -> Seq<PipelineDesc> {
        seq![
            PipelineDesc { layout: l as usize, entry: Entry::FftRow },
            PipelineDesc { layout: l as usize, entry: Entry::FftCol },
            PipelineDesc { layout: l as usize, entry: Entry::IfftRow },
            PipelineDesc { layout: l as usize, entry: Entry::IfftCol },
            PipelineDesc { layout: (l + 1) as usize, entry: Entry::CopyToConv },
            PipelineDesc { layout: (l + 2) as usize, entry: Entry::ComplexMul },
            PipelineDesc { layout: (l + 3) as usize, entry: Entry::FusedCmulIfftCol },
        ]
    }

    /// The device once the phase has its resources.
    #[verifier::opaque]
    pub open spec fn after(d: DeviceView, n: nat, total: int, num_channels: int) -> DeviceView {
        d.grown(
            Self::buffers(n, total, num_channels),
            phase_layouts(),
            Self::pipelines(d.layouts.len()),
            seq![],
        )
    }

    /// What is written into the phase's buffers.
    pub open spec fn writes<S: Real>(b: nat, n: usize) -> Seq<QueueOpView> {
        seq![
            written(
                b as usize,
                0,
                ByteOrder::Native,
                stages_words::<S>(ceil_stages(n as nat)),
            ),
            written((b + 1) as usize, 0, ByteOrder::Native, bitrev_words(n as nat)),
            written((b + 2) as usize, 0, ByteOrder::Native, seq![n as u32, 0u32]),
            written((b + 3) as usize, 0, ByteOrder::Native, seq![n as u32, 1u32]),
        ]
    }

    /// Whether the phase's resources stand behind those of `d`.
    pub open spec fn placed(self, d: DeviceView) -> bool {
        let b = d.buffers.len();
        let l = d.layouts.len();
        let p = d.pipelines.len();
        &&& self.twiddle_buffer == b
        &&& self.bitrev_buffer == b + 1
        &&& self.fft_params_buffer == b + 2
        &&& self.inv_fft_params_buffer == b + 3
        &&& self.spectrum_buffer == b + 4
        &&& self.fft_bgl == l
        &&& self.copy_to_conv_bgl == l + 1
        &&& self.complex_mul_bgl == l + 2
        &&& self.fused_cmul_ifft_bgl == l + 3
        &&& self.fft_row_pipeline == p
        &&& self.fft_col_pipeline == p + 1
        &&& self.ifft_row_pipeline == p + 2
        &&& self.ifft_col_pipeline == p + 3
        &&& self.copy_to_conv_pipeline == p + 4
        &&& self.complex_mul_pipeline == p + 5
        &&& self.fused_cmul_ifft_pipeline == p + 6
    }

    /// Whether a device has the phase's resources, for slots of `total` cells.
    #[verifier::opaque]
    pub open spec fn fits(
        self,
        d: DeviceView,
        total: int,
        num_kernels: int,
        num_channels: int,
    ) -> bool {
        &&& self.layout_fits(d, self.fft_bgl, 0)
        &&& self.layout_fits(d, self.copy_to_conv_bgl, 1)
        &&& self.layout_fits(d, self.complex_mul_bgl, 2)
        &&& self.layout_fits(d, self.fused_cmul_ifft_bgl, 3)
        &&& self.pipeline_fits(d, self.fft_row_pipeline, self.fft_bgl)
        &&& self.pipeline_fits(d, self.fft_col_pipeline, self.fft_bgl)
        &&& self.pipeline_fits(d, self.ifft_row_pipeline, self.fft_bgl)
        &&& self.pipeline_fits(d, self.ifft_col_pipeline, self.fft_bgl)
        &&& self.pipeline_fits(d, self.copy_to_conv_pipeline, self.copy_to_conv_bgl)
        &&& self.pipeline_fits(d, self.complex_mul_pipeline, self.complex_mul_bgl)
        &&& self.pipeline_fits(d, self.fused_cmul_ifft_pipeline, self.fused_cmul_ifft_bgl)
        &&& self.buffer_fits(d, self.twiddle_buffer, Usage::Table)
        &&& self.buffer_fits(d, self.bitrev_buffer, Usage::Table)
        &&& self.buffer_fits(d, self.fft_params_buffer, Usage::Uniform)
        &&& self.buffer_fits(d, self.inv_fft_params_buffer, Usage::Uniform)
        &&& self.spectrum_buffer != self.conv_buffer
        &&& d.storage(self.spectrum_buffer, num_channels * total * 8)
        &&& d.storage(self.conv_buffer, num_kernels * total * 8)
    }

    /// Whether a layout exists and has its slots.
    pub open spec fn layout_fits(self, d: DeviceView, id: usize, which: int) -> bool {
        id < d.layouts.len() && d.layouts[id as int] == phase_layouts()[which]
    }

    /// Whether a pipeline exists and has its layout.
    pub open spec fn pipeline_fits(self, d: DeviceView, id: usize, layout: usize) -> bool {
        id < d.pipelines.len() && d.pipelines[id as int].layout == layout
    }

    /// Whether a buffer exists and has its use.
    pub open spec fn buffer_fits(self, d: DeviceView, id: usize, usage: Usage) -> bool {
        id < d.buffers.len() && d.buffers[id as int].usage == usage
    }

    /// Sets up the phase.
    pub fn new<S: Real>(
        device: &mut Device,
        queue: &mut Queue,
        shape: &[usize],
        total_elements: usize,
        num_kernels: usize,
        num_channels: usize,
        conv_buffer: usize,
    ) -> (phase: Self)
        requires
            old(device)@.wf(),
            shape@.len() > 0,
            shape@[0] <= 0x8000_0000,
            num_channels * total_elements * 8 <= u64::MAX,
            old(device)@.storage(conv_buffer, num_kernels * total_elements * 8),
        ensures
            final(device)@ == Self::after(
                old(device)@,
                shape@[0] as nat,
                total_elements as int,
                num_channels as int,
            ),
            functional::<S>() ==> final(queue)@ == old(queue)@ + Self::writes::<S>(
                old(device)@.buffers.len(),
                shape@[0],
            ),
            phase.placed(old(device)@),
            phase.conv_buffer == conv_buffer,
            final(device)@.wf(),
            final(device)@.extends(old(device)@),
            phase.fits(
                final(device)@,
                total_elements as int,
                num_kernels as int,
                num_channels as int,
            ),
    {
        reveal(ConvolutionPhase::after);
        reveal(ConvolutionPhase::fits);
        reveal(DeviceView::extends);
        let ghost d = device@;
        let n: usize = shape[0];
        let width: u32 = n as u32;
        proof {
            lemma2_to64();
            lemma_ceil_bound(n as nat, 31);
            if ceil_stages(n as nat) < 31 {
                lemma_pow2_strictly_increases(ceil_stages(n as nat), 31);
            }
        }
        let twiddles: Vec<u32> = generate_twiddles::<S>(n);
        let bitrev: Vec<u32> = generate_bitrev(n);
        assert(bitrev@ =~= bitrev_words(n as nat));
        let twiddle_buffer: usize = device.create_buffer(
            (twiddles.len() as u64) * 4,
            Usage::Table,
        );
        queue.write_buffer(twiddle_buffer, 0, ByteOrder::Native, twiddles);
        let bitrev_buffer: usize = device.create_buffer((n as u64) * 4, Usage::Table);
        queue.write_buffer(bitrev_buffer, 0, ByteOrder::Native, bitrev);
        let forward: Vec<u32> = vec![width, 0];
        let inverse: Vec<u32> = vec![width, 1];
        assert(forward@ =~= seq![width, 0u32]);
        assert(inverse@ =~= seq![width, 1u32]);
        let fft_params_buffer: usize = device.create_buffer(8, Usage::Uniform);
        queue.write_buffer(fft_params_buffer, 0, ByteOrder::Native, forward);
        let inv_fft_params_buffer: usize = device.create_buffer(8, Usage::Uniform);
        queue.write_buffer(inv_fft_params_buffer, 0, ByteOrder::Native, inverse);
        assert(functional::<S>() ==> queue@ =~= old(queue)@ + Self::writes::<S>(
            d.buffers.len(),
            n,
        ));
        let fft_slots = vec![srw(0), sro(2), unif(3), sro(41)];
        assert(fft_slots@ =~= phase_layouts()[0]);
        let fft_bgl: usize = device.create_bind_group_layout(fft_slots);
        let fft_row_pipeline: usize = device.create_compute_pipeline(fft_bgl, Entry::FftRow);
        let fft_col_pipeline: usize = device.create_compute_pipeline(fft_bgl, Entry::FftCol);
        let ifft_row_pipeline: usize = device.create_compute_pipeline(fft_bgl, Entry::IfftRow);
        let ifft_col_pipeline: usize = device.create_compute_pipeline(fft_bgl, Entry::IfftCol);
        let copy_slots = vec![sro(4), srw(5)];
        assert(copy_slots@ =~= phase_layouts()[1]);
        let copy_to_conv_bgl: usize = device.create_bind_group_layout(copy_slots);
        let copy_to_conv_pipeline: usize = device.create_compute_pipeline(
            copy_to_conv_bgl,
            Entry::CopyToConv,
        );
        let mul_slots = vec![srw(6), sro(7)];
        assert(mul_slots@ =~= phase_layouts()[2]);
        let complex_mul_bgl: usize = device.create_bind_group_layout(mul_slots);
        let complex_mul_pipeline: usize = device.create_compute_pipeline(
            complex_mul_bgl,
            Entry::ComplexMul,
        );
        let fused_slots = vec![srw(0), sro(2), unif(3), sro(7), sro(41)];
        assert(fused_slots@ =~= phase_layouts()[3]);
        let fused_cmul_ifft_bgl: usize = device.create_bind_group_layout(fused_slots);
        let fused_cmul_ifft_pipeline: usize = device.create_compute_pipeline(
            fused_cmul_ifft_bgl,
            Entry::FusedCmulIfftCol,
        );
        proof {
            let t = total_elements as int;
            assert(0 <= num_channels * t <= num_channels * t * 8) by (nonlinear_arith)
                requires
                    t >= 0,
                    num_channels >= 0,
            ;
        }
        let spectrum_buffer: usize = device.create_buffer(
            num_channels as u64 * total_elements as u64 * 8,
            Usage::Storage,
        );
        assert(device@ =~= Self::after(d, n as nat, total_elements as int, num_channels as int));
        ConvolutionPhase {
            fft_row_pipeline,
            fft_col_pipeline,
            ifft_row_pipeline,
            ifft_col_pipeline,
            fft_bgl,
            copy_to_conv_pipeline,
            copy_to_conv_bgl,
            complex_mul_pipeline,
            complex_mul_bgl,
            fused_cmul_ifft_pipeline,
            fused_cmul_ifft_bgl,
            twiddle_buffer,
            bitrev_buffer,
            fft_params_buffer,
            inv_fft_params_buffer,
            conv_buffer,
            spectrum_buffer,
        }
    }
}

impl ConvolutionPhase {
    /// The group of a transform of one slot.
    pub open spec fn fft_group(self, data: usize, offset: u64, size: u64, params: usize) -> GroupView {
        GroupView {
            layout: self.fft_bgl,
            entries: seq![
                part_of(0, data, offset, size),
                all_of(2, self.twiddle_buffer),
                all_of(3, params),
                all_of(41, self.bitrev_buffer),
            ],
        }
    }

    /// The group of a copy of one channel into one slot.
    pub open spec fn copy_group(
        self,
        channel: usize,
        ch_offset: u64,
        conv: usize,
        conv_offset: u64,
        size: u64,
    ) -> GroupView {
        GroupView {
            layout: self.copy_to_conv_bgl,
            entries: seq![
                part_of(4, channel, ch_offset, size),
                part_of(5, conv, conv_offset, (size * 2) as u64),
            ],
        }
    }

    /// The group of a product of one slot with one kernel.
    pub open spec fn cmul_group(
        self,
        conv: usize,
        conv_offset: u64,
        kernel: usize,
        kernel_offset: u64,
        size: u64,
    ) -> GroupView {
        GroupView {
            layout: self.complex_mul_bgl,
            entries: seq![
                part_of(6, conv, conv_offset, size),
                part_of(7, kernel, kernel_offset, size),
            ],
        }
    }

    /// The group of a product of one slot with one kernel, fused with the first half of
    /// the inverse transform.
    pub open spec fn fused_group(
        self,
        conv: usize,
        conv_offset: u64,
        kernel: usize,
        kernel_offset: u64,
        size: u64,
    ) -> GroupView {
        GroupView {
            layout: self.fused_cmul_ifft_bgl,
            entries: seq![
                part_of(0, conv, conv_offset, size),
                all_of(2, self.twiddle_buffer),
                all_of(3, self.inv_fft_params_buffer),
                part_of(7, kernel, kernel_offset, size),
                all_of(41, self.bitrev_buffer),
            ],
        }
    }

    /// Creates the group of a transform of one slot.
    pub fn make_fft_bg(
        &self,
        device: &mut Device,
        data_buffer: usize,
        offset: u64,
        size: u64,
        params_buffer: usize,
    ) -> (id: usize)
        requires
            old(device)@.group_fits(self.fft_group(data_buffer, offset, size, params_buffer)),
        ensures
            id == old(device)@.groups.len(),
            final(device)@ == (DeviceView {
                groups: old(device)@.groups.push(
                    self.fft_group(data_buffer, offset, size, params_buffer),
                ),
                ..old(device)@
            }),
            old(device)@.wf() ==> final(device)@.wf(),
    {
        let entries = vec![
            part(0, data_buffer, offset, size),
            whole(2, self.twiddle_buffer),
            whole(3, params_buffer),
            whole(41, self.bitrev_buffer),
        ];
        assert(entries@ =~= self.fft_group(data_buffer, offset, size, params_buffer).entries);
        device.create_bind_group(self.fft_bgl, entries)
    }

    /// Creates the group of a copy of one channel into one slot, which is twice as long.
    pub fn make_copy_bg(
        &self,
        device: &mut Device,
        channel_buffer: usize,
        ch_offset: u64,
        conv_buffer: usize,
        conv_offset: u64,
        copy_size: u64,
    ) -> (id: usize)
        requires
            copy_size * 2 <= u64::MAX,
            old(device)@.group_fits(
                self.copy_group(channel_buffer, ch_offset, conv_buffer, conv_offset, copy_size),
            ),
        ensures
            id == old(device)@.groups.len(),
            final(device)@ == (DeviceView {
                groups: old(device)@.groups.push(
                    self.copy_group(
                        channel_buffer,
                        ch_offset,
                        conv_buffer,
                        conv_offset,
                        copy_size,
                    ),
                ),
                ..old(device)@
            }),
            old(device)@.wf() ==> final(device)@.wf(),
    {
        let entries = vec![
            part(4, channel_buffer, ch_offset, copy_size),
            part(5, conv_buffer, conv_offset, copy_size * 2),
        ];
        assert(entries@ =~= self.copy_group(
            channel_buffer,
            ch_offset,
            conv_buffer,
            conv_offset,
            copy_size,
        ).entries);
        device.create_bind_group(self.copy_to_conv_bgl, entries)
    }

    /// Creates the group of a product of one slot with one kernel.
    pub fn make_cmul_bg(
        &self,
        device: &mut Device,
        conv_buffer: usize,
        conv_offset: u64,
        kernel_buffer: usize,
        kernel_offset: u64,
        size: u64,
    ) -> (id: usize)
        requires
            old(device)@.group_fits(
                self.cmul_group(conv_buffer, conv_offset, kernel_buffer, kernel_offset, size),
            ),
        ensures
            id == old(device)@.groups.len(),
            final(device)@ == (DeviceView {
                groups: old(device)@.groups.push(
                    self.cmul_group(conv_buffer, conv_offset, kernel_buffer, kernel_offset, size),
                ),
                ..old(device)@
            }),
            old(device)@.wf() ==> final(device)@.wf(),
    {
        let entries = vec![
            part(6, conv_buffer, conv_offset, size),
            part(7, kernel_buffer, kernel_offset, size),
        ];
        assert(entries@ =~= self.cmul_group(
            conv_buffer,
            conv_offset,
            kernel_buffer,
            kernel_offset,
            size,
        ).entries);
        device.create_bind_group(self.complex_mul_bgl, entries)
    }

    /// Creates the group of a fused product and inverse transform.
    pub fn make_fused_cmul_ifft_bg(
        &self,
        device: &mut Device,
        conv_buffer: usize,
        conv_offset: u64,
        kernel_buffer: usize,
        kernel_offset: u64,
        size: u64,
    ) -> (id: usize)
        requires
            old(device)@.group_fits(
                self.fused_group(conv_buffer, conv_offset, kernel_buffer, kernel_offset, size),
            ),
        ensures
            id == old(device)@.groups.len(),
            final(device)@ == (DeviceView {
                groups: old(device)@.groups.push(
                    self.fused_group(conv_buffer, conv_offset, kernel_buffer, kernel_offset, size),
                ),
                ..old(device)@
            }),
            old(device)@.wf() ==> final(device)@.wf(),
    {
        let entries = vec![
            part(0, conv_buffer, conv_offset, size),
            whole(2, self.twiddle_buffer),
            whole(3, self.inv_fft_params_buffer),
            part(7, kernel_buffer, kernel_offset, size),
            whole(41, self.bitrev_buffer),
        ];
        assert(entries@ =~= self.fused_group(
            conv_buffer,
            conv_offset,
            kernel_buffer,
            kernel_offset,
            size,
        ).entries);
        device.create_bind_group(self.fused_cmul_ifft_bgl, entries)
    }

    /// The group that copies channel `c` into its slot.
    pub open spec fn copy_step(self, channel: usize, total: int, c: int) -> GroupView {
        self.copy_group(
            channel,
            (c * total * 4) as u64,
            self.spectrum_buffer,
            (c * total * 8) as u64,
            (total * 4) as u64,
        )
    }

    /// The group that transforms slot `i` of a buffer.
    pub open spec fn fft_step(self, data: usize, total: int, params: usize, i: int) -> GroupView {
        self.fft_group(data, (i * total * 8) as u64, (total * 8) as u64, params)
    }

    /// The group that multiplies slot `k` with kernel `k`.
    pub open spec fn cmul_step(self, kernel: usize, total: int, k: int) -> GroupView {
        self.cmul_group(
            self.conv_buffer,
            (k * total * 8) as u64,
            kernel,
            (k * total * 8) as u64,
            (total * 8) as u64,
        )
    }

    /// The groups that one run creates: copies, transforms, products, inverse transforms.
    pub open spec fn run_groups(
        self,
        channel: usize,
        kernel: usize,
        num_kernels: nat,
        num_channels: nat,
        total: int,
    ) -> Seq<GroupView> {
        Seq::new(num_channels, |c: int| self.copy_step(channel, total, c)) + Seq::new(
            num_channels,
            |c: int| self.fft_step(self.spectrum_buffer, total, self.fft_params_buffer, c),
        ) + Seq::new(num_kernels, |k: int| self.cmul_step(kernel, total, k)) + Seq::new(
            num_kernels,
            |k: int| self.fft_step(self.conv_buffer, total, self.inv_fft_params_buffer, k),
        )
    }

    /// One run of a pipeline on each of `n` groups from `g` on.
    pub open spec fn dispatches(pipeline: usize, g: int, n: nat, workgroups: u32) -> Seq<Command> {
        Seq::new(
            n,
            |i: int| Command::Dispatch { pipeline, group: (g + i) as usize, workgroups },
        )
    }

    /// One run of each of two pipelines on each of `n` groups from `g` on.
    pub open spec fn double_dispatches(
        first: usize,
        second: usize,
        g: int,
        n: nat,
        workgroups: u32,
    ) -> Seq<Command> {
        Seq::new(
            2 * n,
            |i: int|
                Command::Dispatch {
                    pipeline: if i % 2 == 0 {
                        first
                    } else {
                        second
                    },
                    group: (g + i / 2) as usize,
                    workgroups,
                },
        )
    }

    /// The copies that bring the spectrum of channel `c0[k]` into the slot of kernel `k`.
    pub open spec fn route_commands(self, c0: Seq<u32>, n: nat, total: int) -> Seq<Command> {
        Seq::new(
            n,
            |k: int|
                Command::Copy {
                    src: self.spectrum_buffer,
                    src_offset: (c0[k] * total * 8) as u64,
                    dst: self.conv_buffer,
                    dst_offset: (k * total * 8) as u64,
                    size: (total * 8) as u64,
                },
        )
    }

    /// The commands of one run, on groups from `g` on.
    pub open spec fn commands(
        self,
        g: int,
        c0: Seq<u32>,
        num_kernels: nat,
        num_channels: nat,
        total: int,
        width: u32,
    ) -> Seq<Command> {
        Self::dispatches(self.copy_to_conv_pipeline, g, num_channels, workgroups(total))
            + Self::double_dispatches(
            self.fft_row_pipeline,
            self.fft_col_pipeline,
            g + num_channels,
            num_channels,
            width,
        ) + self.route_commands(c0, num_kernels, total) + Self::dispatches(
            self.complex_mul_pipeline,
            g + 2 * num_channels,
            num_kernels,
            workgroups(total),
        ) + Self::double_dispatches(
            self.ifft_col_pipeline,
            self.ifft_row_pipeline,
            g + 2 * num_channels + num_kernels,
            num_kernels,
            width,
        )
    }

    /// What one run asks for: the phase on the device, channels and kernels of their
    /// sizes, an input channel for every kernel.
    pub open spec fn runnable(
        self,
        d: DeviceView,
        channel: usize,
        kernel: usize,
        c0: Seq<u32>,
        num_kernels: int,
        num_channels: int,
        total: int,
    ) -> bool {
        &&& d.wf()
        &&& self.fits(d, total, num_kernels, num_channels)
        &&& d.storage(channel, num_channels * total * 4)
        &&& d.storage(kernel, num_kernels * total * 8)
        &&& c0.len() >= num_kernels
        &&& forall|k: int| 0 <= k < num_kernels ==> #[trigger] c0[k] < num_channels
        &&& 0 <= total
        &&& total + 255 <= u32::MAX
        &&& num_kernels * total * 8 <= u64::MAX
        &&& num_channels * total * 8 <= u64::MAX
    }

    /// A device that a run is possible on.
    proof fn lemma_more_groups(
        self,
        d: DeviceView,
        e: DeviceView,
        channel: usize,
        kernel: usize,
        c0: Seq<u32>,
        num_kernels: int,
        num_channels: int,
        total: int,
    )
        requires
            self.runnable(d, channel, kernel, c0, num_kernels, num_channels, total),
            e.buffers == d.buffers,
            e.layouts == d.layouts,
            e.pipelines == d.pipelines,
            e.wf(),
        ensures
            self.runnable(e, channel, kernel, c0, num_kernels, num_channels, total),
    {
        reveal(ConvolutionPhase::fits);
    }
}

impl ConvolutionPhase {
    /// Copies every channel into its slot.
    fn copy_channels(
        &self,
        device: &mut Device,
        encoder: &mut CommandEncoder,
        channel_buffer: usize,
        num_channels: usize,
        total_elements: usize,
        Ghost(kernel_buffer): Ghost<usize>,
        Ghost(c0): Ghost<Seq<u32>>,
        Ghost(num_kernels): Ghost<int>,
    )
        requires
            self.runnable(
                old(device)@,
                channel_buffer,
                kernel_buffer,
                c0,
                num_kernels,
                num_channels as int,
                total_elements as int,
            ),
        ensures
            final(device)@ == (DeviceView {
                groups: old(device)@.groups + Seq::new(
                    num_channels as nat,
                    |c: int| self.copy_step(channel_buffer, total_elements as int, c),
                ),
                ..old(device)@
            }),
            final(device)@.wf(),
            final(encoder)@ == old(encoder)@ + Self::dispatches(
                self.copy_to_conv_pipeline,
                old(device)@.groups.len() as int,
                num_channels as nat,
                workgroups(total_elements as int),
            ),
    {
        let ghost d = device@;
        let ghost e = encoder@;
        let ghost t = total_elements as int;
        let total: u64 = total_elements as u64;
        let mut c: usize = 0;
        assert(d.groups =~= d.groups + Seq::new(0, |c: int| self.copy_step(channel_buffer, t, c)));
        assert(e =~= e + Self::dispatches(
            self.copy_to_conv_pipeline,
            d.groups.len() as int,
            0,
            workgroups(t),
        ));
        while c < num_channels
            invariant
                c <= num_channels,
                t == total_elements,
                t == total,
                self.runnable(
                    d,
                    channel_buffer,
                    kernel_buffer,
                    c0,
                    num_kernels,
                    num_channels as int,
                    t,
                ),
                device@ == (DeviceView {
                    groups: d.groups + Seq::new(
                        c as nat,
                        |c: int| self.copy_step(channel_buffer, t, c),
                    ),
                    ..d
                }),
                device@.wf(),
                encoder@ == e + Self::dispatches(
                    self.copy_to_conv_pipeline,
                    d.groups.len() as int,
                    c as nat,
                    workgroups(t),
                ),
            decreases num_channels - c,
        {
            proof {
                reveal(ConvolutionPhase::fits);
                lemma_slot(c as int, num_channels as int, t, 4);
                lemma_slot(c as int, num_channels as int, t, 8);
            }
            let copy_bg: usize = self.make_copy_bg(
                device,
                channel_buffer,
                (c as u64) * total * 4,
                self.spectrum_buffer,
                (c as u64) * total * 8,
                total * 4,
            );
            let wg: u32 = (total_elements as u32 + 255) / 256;
            encoder.dispatch(self.copy_to_conv_pipeline, copy_bg, wg);
            assert(device@.groups =~= d.groups + Seq::new(
                (c + 1) as nat,
                |c: int| self.copy_step(channel_buffer, t, c),
            ));
            assert(encoder@ =~= e + Self::dispatches(
                self.copy_to_conv_pipeline,
                d.groups.len() as int,
                (c + 1) as nat,
                workgroups(t),
            ));
            c = c + 1;
        }
    }

    /// Runs two transform passes on each of the `n` slots of a buffer.
    fn transform_slots(
        &self,
        device: &mut Device,
        encoder: &mut CommandEncoder,
        data_buffer: usize,
        n: usize,
        total_elements: usize,
        params_buffer: usize,
        first: usize,
        second: usize,
        width: u32,
        Ghost(num_kernels): Ghost<int>,
        Ghost(num_channels): Ghost<int>,
    )
        requires
            old(device)@.wf(),
            self.fits(old(device)@, total_elements as int, num_kernels, num_channels),
            old(device)@.storage(data_buffer, n * total_elements * 8),
            n * total_elements * 8 <= u64::MAX,
            params_buffer == self.fft_params_buffer || params_buffer == self.inv_fft_params_buffer,
        ensures
            final(device)@ == (DeviceView {
                groups: old(device)@.groups + Seq::new(
                    n as nat,
                    |i: int| self.fft_step(data_buffer, total_elements as int, params_buffer, i),
                ),
                ..old(device)@
            }),
            final(device)@.wf(),
            final(encoder)@ == old(encoder)@ + Self::double_dispatches(
                first,
                second,
                old(device)@.groups.len() as int,
                n as nat,
                width,
            ),
    {
        let ghost d = device@;
        let ghost e = encoder@;
        let ghost t = total_elements as int;
        let total: u64 = total_elements as u64;
        let mut i: usize = 0;
        assert(d.groups =~= d.groups + Seq::new(0, |i: int| self.fft_step(data_buffer, t, params_buffer, i)));
        assert(e =~= e + Self::double_dispatches(first, second, d.groups.len() as int, 0, width));
        while i < n
            invariant
                i <= n,
                t == total_elements,
                t == total,
                self.fits(d, t, num_kernels, num_channels),
                d.storage(data_buffer, n * t * 8),
                n * t * 8 <= u64::MAX,
                params_buffer == self.fft_params_buffer || params_buffer
                    == self.inv_fft_params_buffer,
                device@ == (DeviceView {
                    groups: d.groups + Seq::new(
                        i as nat,
                        |i: int| self.fft_step(data_buffer, t, params_buffer, i),
                    ),
                    ..d
                }),
                device@.wf(),
                encoder@ == e + Self::double_dispatches(
                    first,
                    second,
                    d.groups.len() as int,
                    i as nat,
                    width,
                ),
            decreases n - i,
        {
            proof {
                reveal(ConvolutionPhase::fits);
                lemma_slot(i as int, n as int, t, 8);
            }
            let fft_bg: usize = self.make_fft_bg(
                device,
                data_buffer,
                (i as u64) * total * 8,
                total * 8,
                params_buffer,
            );
            encoder.dispatch(first, fft_bg, width);
            encoder.dispatch(second, fft_bg, width);
            assert(device@.groups =~= d.groups + Seq::new(
                (i + 1) as nat,
                |i: int| self.fft_step(data_buffer, t, params_buffer, i),
            ));
            assert((2 * i) / 2 == i && (2 * i + 1) / 2 == i);
            assert(encoder@ =~= e + Self::double_dispatches(
                first,
                second,
                d.groups.len() as int,
                (i + 1) as nat,
                width,
            ));
            i = i + 1;
        }
    }

    /// Copies each kernel's input spectrum into the kernel's slot.
    fn route(
        &self,
        encoder: &mut CommandEncoder,
        c0: &[u32],
        num_kernels: usize,
        total_elements: usize,
        Ghost(num_channels): Ghost<int>,
    )
        requires
            c0@.len() >= num_kernels,
            forall|k: int| 0 <= k < num_kernels ==> #[trigger] c0@[k] < num_channels,
            num_kernels * total_elements * 8 <= u64::MAX,
            num_channels * total_elements * 8 <= u64::MAX,
        ensures
            final(encoder)@ == old(encoder)@ + self.route_commands(
                c0@,
                num_kernels as nat,
                total_elements as int,
            ),
    {
        let ghost e = encoder@;
        let ghost t = total_elements as int;
        let total: u64 = total_elements as u64;
        let mut k: usize = 0;
        assert(e =~= e + self.route_commands(c0@, 0, t));
        while k < num_kernels
            invariant
                k <= num_kernels,
                t == total_elements,
                t == total,
                c0@.len() >= num_kernels,
                forall|k: int| 0 <= k < num_kernels ==> #[trigger] c0@[k] < num_channels,
                num_kernels * t * 8 <= u64::MAX,
                num_channels * t * 8 <= u64::MAX,
                encoder@ == e + self.route_commands(c0@, k as nat, t),
            decreases num_kernels - k,
        {
            proof {
                lemma_slot(k as int, num_kernels as int, t, 8);
                assert(c0@[k as int] < num_channels);
                lemma_slot(c0@[k as int] as int, num_channels, t, 8);
            }
            encoder.copy_buffer_to_buffer(
                self.spectrum_buffer,
                (c0[k] as u64) * total * 8,
                self.conv_buffer,
                (k as u64) * total * 8,
                total * 8,
            );
            assert(encoder@ =~= e + self.route_commands(c0@, (k + 1) as nat, t));
            k = k + 1;
        }
    }

    /// Multiplies each slot with its kernel.
    fn multiply(
        &self,
        device: &mut Device,
        encoder: &mut CommandEncoder,
        kernel_buffer: usize,
        num_kernels: usize,
        total_elements: usize,
        Ghost(num_channels): Ghost<int>,
    )
        requires
            old(device)@.wf(),
            self.fits(old(device)@, total_elements as int, num_kernels as int, num_channels),
            old(device)@.storage(kernel_buffer, num_kernels * total_elements * 8),
            total_elements + 255 <= u32::MAX,
            num_kernels * total_elements * 8 <= u64::MAX,
        ensures
            final(device)@ == (DeviceView {
                groups: old(device)@.groups + Seq::new(
                    num_kernels as nat,
                    |k: int| self.cmul_step(kernel_buffer, total_elements as int, k),
                ),
                ..old(device)@
            }),
            final(device)@.wf(),
            final(encoder)@ == old(encoder)@ + Self::dispatches(
                self.complex_mul_pipeline,
                old(device)@.groups.len() as int,
                num_kernels as nat,
                workgroups(total_elements as int),
            ),
    {
        let ghost d = device@;
        let ghost e = encoder@;
        let ghost t = total_elements as int;
        let total: u64 = total_elements as u64;
        let mut k: usize = 0;
        assert(d.groups =~= d.groups + Seq::new(0, |k: int| self.cmul_step(kernel_buffer, t, k)));
        assert(e =~= e + Self::dispatches(
            self.complex_mul_pipeline,
            d.groups.len() as int,
            0,
            workgroups(t),
        ));
        while k < num_kernels
            invariant
                k <= num_kernels,
                t == total_elements,
                t == total,
                t + 255 <= u32::MAX,
                self.fits(d, t, num_kernels as int, num_channels),
                d.storage(kernel_buffer, num_kernels * t * 8),
                num_kernels * t * 8 <= u64::MAX,
                device@ == (DeviceView {
                    groups: d.groups + Seq::new(
                        k as nat,
                        |k: int| self.cmul_step(kernel_buffer, t, k),
                    ),
                    ..d
                }),
                device@.wf(),
                encoder@ == e + Self::dispatches(
                    self.complex_mul_pipeline,
                    d.groups.len() as int,
                    k as nat,
                    workgroups(t),
                ),
            decreases num_kernels - k,
        {
            proof {
                reveal(ConvolutionPhase::fits);
                lemma_slot(k as int, num_kernels as int, t, 8);
            }
            let offset: u64 = (k as u64) * total * 8;
            let cmul_bg: usize = self.make_cmul_bg(
                device,
                self.conv_buffer,
                offset,
                kernel_buffer,
                offset,
                total * 8,
            );
            let wg: u32 = (total_elements as u32 + 255) / 256;
            encoder.dispatch(self.complex_mul_pipeline, cmul_bg, wg);
            assert(device@.groups =~= d.groups + Seq::new(
                (k + 1) as nat,
                |k: int| self.cmul_step(kernel_buffer, t, k),
            ));
            assert(encoder@ =~= e + Self::dispatches(
                self.complex_mul_pipeline,
                d.groups.len() as int,
                (k + 1) as nat,
                workgroups(t),
            ));
            k = k + 1;
        }
    }

    /// Records the phase.
    pub fn run(
        &self,
        device: &mut Device,
        encoder: &mut CommandEncoder,
        channel_buffer: usize,
        kernel_buffer: usize,
        c0: &[u32],
        num_kernels: usize,
        num_channels: usize,
        total_elements: usize,
        shape: &[usize],
    )
        requires
            shape@.len() > 0,
            self.runnable(
                old(device)@,
                channel_buffer,
                kernel_buffer,
                c0@,
                num_kernels as int,
                num_channels as int,
                total_elements as int,
            ),
        ensures
            final(device)@ == (DeviceView {
                groups: old(device)@.groups + self.run_groups(
                    channel_buffer,
                    kernel_buffer,
                    num_kernels as nat,
                    num_channels as nat,
                    total_elements as int,
                ),
                ..old(device)@
            }),
            final(device)@.wf(),
            final(encoder)@ == old(encoder)@ + self.commands(
                old(device)@.groups.len() as int,
                c0@,
                num_kernels as nat,
                num_channels as nat,
                total_elements as int,
                shape@[0] as u32,
            ),
            final(device)@.groups.len() <= usize::MAX,
    {
        let ghost d = device@;
        let ghost e = encoder@;
        let ghost t = total_elements as int;
        let ghost nk = num_kernels as int;
        let ghost nc = num_channels as int;
        let width: u32 = shape[0] as u32;
        self.copy_channels(
            device,
            encoder,
            channel_buffer,
            num_channels,
            total_elements,
            Ghost(kernel_buffer),
            Ghost(c0@),
            Ghost(nk),
        );
        proof {
            self.lemma_more_groups(d, device@, channel_buffer, kernel_buffer, c0@, nk, nc, t);
        }
        proof {
            reveal(ConvolutionPhase::fits);
        }
        self.transform_slots(
            device,
            encoder,
            self.spectrum_buffer,
            num_channels,
            total_elements,
            self.fft_params_buffer,
            self.fft_row_pipeline,
            self.fft_col_pipeline,
            width,
            Ghost(nk),
            Ghost(nc),
        );
        self.route(encoder, c0, num_kernels, total_elements, Ghost(nc));
        proof {
            self.lemma_more_groups(d, device@, channel_buffer, kernel_buffer, c0@, nk, nc, t);
        }
        self.multiply(device, encoder, kernel_buffer, num_kernels, total_elements, Ghost(nc));
        proof {
            self.lemma_more_groups(d, device@, channel_buffer, kernel_buffer, c0@, nk, nc, t);
        }
        self.transform_slots(
            device,
            encoder,
            self.conv_buffer,
            num_kernels,
            total_elements,
            self.inv_fft_params_buffer,
            self.ifft_col_pipeline,
            self.ifft_row_pipeline,
            width,
            Ghost(nk),
            Ghost(nc),
        );
        proof {
            device.lemma_lengths();
            assert(device@.groups =~= d.groups + self.run_groups(
                channel_buffer,
                kernel_buffer,
                num_kernels as nat,
                num_channels as nat,
                t,
            ));
            assert(encoder@ =~= e + self.commands(
                d.groups.len() as int,
                c0@,
                num_kernels as nat,
                num_channels as nat,
                t,
                width,
            ));
        }
    }
}

impl ConvolutionPhase {
    /// The phase is on a device still once the device has more.
    pub proof fn lemma_fits_extend(
        self,
        d: DeviceView,
        e: DeviceView,
        total: int,
        num_kernels: int,
        num_channels: int,
    )
        requires
            self.fits(d, total, num_kernels, num_channels),
            e.extends(d),
        ensures
            self.fits(e, total, num_kernels, num_channels),
    {
        reveal(ConvolutionPhase::fits);
        reveal(DeviceView::extends);
    }

    /// The commands of one run would pass validation on the device that it leaves behind.
    pub proof fn lemma_commands_fit(
        self,
        d: DeviceView,
        e: DeviceView,
        channel: usize,
        kernel: usize,
        c0: Seq<u32>,
        num_kernels: nat,
        num_channels: nat,
        total: int,
        width: u32,
    )
        requires
            self.runnable(
                d,
                channel,
                kernel,
                c0,
                num_kernels as int,
                num_channels as int,
                total,
            ),
            e == (DeviceView {
                groups: d.groups + self.run_groups(
                    channel,
                    kernel,
                    num_kernels,
                    num_channels,
                    total,
                ),
                ..d
            }),
            e.groups.len() <= usize::MAX,
        ensures
            e.commands_fit(
                self.commands(
                    d.groups.len() as int,
                    c0,
                    num_kernels,
                    num_channels,
                    total,
                    width,
                ),
            ),
    {
        reveal(ConvolutionPhase::fits);
        let g = d.groups.len() as int;
        let nc = num_channels as int;
        let nk = num_kernels as int;
        let a = Self::dispatches(
            self.copy_to_conv_pipeline,
            g,
            num_channels,
            workgroups(total),
        );
        let b = Self::double_dispatches(
            self.fft_row_pipeline,
            self.fft_col_pipeline,
            g + nc,
            num_channels,
            width,
        );
        let r = self.route_commands(c0, num_kernels, total);
        let m = Self::dispatches(
            self.complex_mul_pipeline,
            g + 2 * nc,
            num_kernels,
            workgroups(total),
        );
        let i = Self::double_dispatches(
            self.ifft_col_pipeline,
            self.ifft_row_pipeline,
            g + 2 * nc + nk,
            num_kernels,
            width,
        );
        assert(e.commands_fit(a)) by {
            assert forall|t: int| 0 <= t < a.len() implies e.command_fits(#[trigger] a[t]) by {
                assert(e.groups[g + t] == self.copy_step(channel, total, t));
            }
        }
        assert(e.commands_fit(b)) by {
            assert forall|t: int| 0 <= t < b.len() implies e.command_fits(#[trigger] b[t]) by {
                assert(e.groups[g + nc + t / 2] == self.fft_step(
                    self.spectrum_buffer,
                    total,
                    self.fft_params_buffer,
                    t / 2,
                ));
            }
        }
        assert(e.commands_fit(m)) by {
            assert forall|t: int| 0 <= t < m.len() implies e.command_fits(#[trigger] m[t]) by {
                assert(e.groups[g + 2 * nc + t] == self.cmul_step(kernel, total, t));
            }
        }
        assert(e.commands_fit(i)) by {
            assert forall|t: int| 0 <= t < i.len() implies e.command_fits(#[trigger] i[t]) by {
                assert(e.groups[g + 2 * nc + nk + t / 2] == self.fft_step(
                    self.conv_buffer,
                    total,
                    self.inv_fft_params_buffer,
                    t / 2,
                ));
            }
        }
        assert(e.commands_fit(r)) by {
            assert forall|t: int| 0 <= t < r.len() implies e.command_fits(#[trigger] r[t]) by {
                assert(c0[t] < nc);
                lemma_slot(t, nk, total, 8);
                lemma_slot(c0[t] as int, nc, total, 8);
            }
        }
    }
}

/// What copies from slots of one buffer do to the slots of another.
pub open spec fn copied<T>(
    cs: Seq<Command>,
    from: usize,
    to: usize,
    slot_size: int,
    sources: Seq<T>,
    slots: Seq<T>,
) -> Seq<T>
    decreases cs.len(),
{
    if cs.len() == 0 {
        slots
    } else {
        let before = copied(cs.drop_last(), from, to, slot_size, sources, slots);
        match cs.last() {
            Command::Copy { src, src_offset, dst, dst_offset, .. } => if src == from && dst == to {
                before.update(
                    dst_offset as int / slot_size,
                    sources[src_offset as int / slot_size],
                )
            } else {
                before
            },
            _ => before,
        }
    }
}

/// After the copies, every kernel's slot holds the spectrum of its input channel, whichever
/// channels the kernels read.
pub proof fn law_routing<T>(
    phase: ConvolutionPhase,
    c0: Seq<u32>,
    n: nat,
    total: int,
    spectra: Seq<T>,
    slots: Seq<T>,
)
    requires
        total > 0,
        n * total * 8 <= u64::MAX,
        spectra.len() * total * 8 <= u64::MAX,
        slots.len() == n,
        c0.len() >= n,
        forall|k: int| 0 <= k < n ==> #[trigger] c0[k] < spectra.len(),
    ensures
        ({
            let after = copied(
                phase.route_commands(c0, n, total),
                phase.spectrum_buffer,
                phase.conv_buffer,
                total * 8,
                spectra,
                slots,
            );
            &&& after.len() == n
            &&& forall|k: int| 0 <= k < n ==> #[trigger] after[k] == spectra[c0[k] as int]
        }),
{
    lemma_routed(phase, c0, n, n, total, spectra, slots);
}

/// What the first `m` copies bring.
proof fn lemma_routed<T>(
    phase: ConvolutionPhase,
    c0: Seq<u32>,
    n: nat,
    m: nat,
    total: int,
    spectra: Seq<T>,
    slots: Seq<T>,
)
    requires
        m <= n,
        total > 0,
        n * total * 8 <= u64::MAX,
        spectra.len() * total * 8 <= u64::MAX,
        slots.len() == n,
        c0.len() >= n,
        forall|k: int| 0 <= k < n ==> #[trigger] c0[k] < spectra.len(),
    ensures
        ({
            let after = copied(
                phase.route_commands(c0, m, total),
                phase.spectrum_buffer,
                phase.conv_buffer,
                total * 8,
                spectra,
                slots,
            );
            &&& after.len() == n
            &&& forall|k: int| 0 <= k < m ==> #[trigger] after[k] == spectra[c0[k] as int]
        }),
    decreases m,
{
    let unit = total * 8;
    if m > 0 {
        let k = m - 1;
        lemma_routed(phase, c0, n, k as nat, total, spectra, slots);
        let cs = phase.route_commands(c0, m, total);
        assert(cs.drop_last() =~= phase.route_commands(c0, k as nat, total));
        let src = c0[k] as int;
        assert(c0[k] < spectra.len());
        lemma_slot(k, n as int, total, 8);
        lemma_slot(src, spectra.len() as int, total, 8);
        assert(src * total * 8 / unit == src && k * total * 8 / unit == k) by {
            assert(src * total * 8 == src * unit && k * total * 8 == k * unit)
                by (nonlinear_arith)
                requires
                    unit == total * 8,
            ;
            vstd::arithmetic::div_mod::lemma_div_multiples_vanish(src, unit);
            vstd::arithmetic::div_mod::lemma_div_multiples_vanish(k, unit);
        }
    }
}

} // verus!
