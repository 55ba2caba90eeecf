//! Phase 1 of Flow Lenia: convolution in the frequency domain, then growth.
//!
//! Each source channel is transformed once; every kernel that reads the channel
//! multiplies the saved spectrum, transforms back, scales and applies its growth
//! function.

use crate::fl::GP_STRIDE;
use crate::gpu::{
    part, sro, srw, unif, whole, ByteOrder, Command, CommandEncoder, Device, Entry, Queue, Usage,
};
use crate::scalar::Real;
use crate::twiddle::stockham_twiddles;
use vstd::prelude::*;

verus! {

use crate::gpu::{
    all_of, groups_run, lemma_groups_run_add, lemma_slot, part_of, ro, rw, un, written, BufferDesc, DeviceView, GroupView,
    LayoutEntry, PipelineDesc, QueueOpView,
};
use crate::scalar::{bits_of, count_of, functional, integer_of, over_of, powi_of};
use crate::twiddle::stockham;

/// The kernels below `n` that read channel `c`, in order.
pub open spec fn kernels_of(c0: Seq<u32>, n: nat, c: int) -> Seq<usize>
    decreases n,
{
    if n == 0 {
        seq![]
    } else {
        let before = kernels_of(c0, (n - 1) as nat, c);
        if c0[n - 1] == c {
            before.push((n - 1) as usize)
        } else {
            before
        }
    }
}

/// The kernels of the first `channels` channels, channel by channel.
pub open spec fn kernel_order(c0: Seq<u32>, n: nat, channels: nat) -> Seq<usize>
    decreases channels,
{
    if channels == 0 {
        seq![]
    } else {
        kernel_order(c0, n, (channels - 1) as nat) + kernels_of(c0, n, channels - 1)
    }
}

/// Where the resources of the phase stand, and the sizes they were made for.
pub struct ConvolutionLayout {
    /// The device as the phase found it.
    pub before: DeviceView,
    pub total: int,
    pub conv: usize,
    pub channel: usize,
    pub kernel: usize,
    pub u: usize,
    pub param: usize,
}

impl ConvolutionLayout {
    /// The identifier of the phase's `i`-th own buffer.
    pub open spec fn buffer(self, i: int) -> usize {
        (self.before.buffers.len() + i) as usize
    }

    /// The identifier of the phase's `i`-th own layout.
    pub open spec fn layout(self, i: int) -> usize {
        (self.before.layouts.len() + i) as usize
    }

    /// The identifier of the phase's `i`-th own pipeline.
    pub open spec fn pipeline(self, i: int) -> usize {
        (self.before.pipelines.len() + i) as usize
    }

    /// The identifier of the phase's `i`-th own bind group.
    pub open spec fn group(self, i: int) -> usize {
        (self.before.groups.len() + i) as usize
    }

    /// Twiddles, scale factor, parameters of both transforms, growth parameters.
    pub open spec fn buffers(n: int, num_kernels: int) -> Seq<BufferDesc> {
        seq![
            BufferDesc { size: (n * 8) as u64, usage: Usage::Table },
            BufferDesc { size: 4, usage: Usage::Uniform },
            BufferDesc { size: 8, usage: Usage::Uniform },
            BufferDesc { size: 8, usage: Usage::Uniform },
            BufferDesc { size: (num_kernels * GP_STRIDE) as u64, usage: Usage::Table },
        ]
    }

    /// Copy, complex product, scaling with growth, transform.
    pub open spec fn layouts() -> Seq<Seq<LayoutEntry>> {
        seq![
            seq![ro(4), rw(5)],
            seq![rw(6), ro(7)],
            seq![rw(8), rw(9), un(11), ro(12), ro(13)],
            seq![rw(0), ro(2), un(3)],
        ]
    }

    /// One pipeline for each step, two for the transform.
    pub open spec fn pipelines(self) -> Seq<PipelineDesc> {
        seq![
            PipelineDesc { layout: self.layout(0), entry: Entry::CopyToConv },
            PipelineDesc { layout: self.layout(1), entry: Entry::ComplexMul },
            PipelineDesc { layout: self.layout(2), entry: Entry::NormalizeGrowth },
            PipelineDesc { layout: self.layout(3), entry: Entry::FftRow },
            PipelineDesc { layout: self.layout(3), entry: Entry::FftCol },
        ]
    }

    /// The group of the forward transform.
    pub open spec fn fft_group(self) -> GroupView {
        GroupView {
            layout: self.layout(3),
            entries: seq![
                all_of(0, self.conv),
                all_of(2, self.buffer(0)),
                all_of(3, self.buffer(2)),
            ],
        }
    }

    /// The group of the inverse transform.
    pub open spec fn inv_fft_group(self) -> GroupView {
        GroupView {
            layout: self.layout(3),
            entries: seq![
                all_of(0, self.conv),
                all_of(2, self.buffer(0)),
                part_of(3, self.buffer(3), 0, 8),
            ],
        }
    }

    /// The group that scales the result of kernel `k` and applies its growth.
    pub open spec fn growth_group(self, k: int) -> GroupView {
        let offset = (k * self.total * 4) as u64;
        let size = (self.total * 4) as u64;
        GroupView {
            layout: self.layout(2),
            entries: seq![
                all_of(8, self.conv),
                part_of(9, self.u, offset, size),
                all_of(11, self.buffer(1)),
                part_of(12, self.buffer(4), (k * GP_STRIDE) as u64, 12),
                part_of(13, self.param, offset, size),
            ],
        }
    }

    /// The group that copies channel `c` into the transform buffer.
    pub open spec fn copy_group(self, c: int) -> GroupView {
        GroupView {
            layout: self.layout(0),
            entries: seq![
                part_of(4, self.channel, (c * self.total * 4) as u64, (self.total * 4) as u64),
                all_of(5, self.conv),
            ],
        }
    }

    /// The group that multiplies the spectrum with kernel `k`.
    pub open spec fn cmul_group(self, k: int) -> GroupView {
        GroupView {
            layout: self.layout(1),
            entries: seq![
                all_of(6, self.conv),
                part_of(7, self.kernel, (k * self.total * 8) as u64, (self.total * 8) as u64),
            ],
        }
    }

    /// A copy group and a product group for each kernel of a list.
    pub open spec fn pair_groups(self, c0: Seq<u32>, kernels: Seq<usize>) -> Seq<GroupView> {
        Seq::new(
            2 * kernels.len(),
            |t: int|
                {
                    let k = kernels[t / 2];
                    if t % 2 == 0 {
                        self.copy_group(c0[k as int] as int)
                    } else {
                        self.cmul_group(k as int)
                    }
                },
        )
    }

    /// The identifiers of the copy groups (`which` 0) or product groups (`which` 1) of
    /// the kernels that read channel `c`.
    pub open spec fn pair_ids(self, c0: Seq<u32>, num_kernels: nat, c: int, which: int) -> Seq<
        usize,
    > {
        let start = 2 + num_kernels + 2 * kernel_order(c0, num_kernels, c as nat).len();
        Seq::new(
            kernels_of(c0, num_kernels, c).len(),
            |i: int| self.group(start + 2 * i + which),
        )
    }

    /// Every bind group of the phase.
    pub open spec fn groups(
        self,
        c0: Seq<u32>,
        num_kernels: nat,
        num_channels: nat,
    ) -> Seq<GroupView> {
        seq![self.fft_group(), self.inv_fft_group()] + Seq::new(
            num_kernels,
            |k: int| self.growth_group(k),
        ) + self.pair_groups(c0, kernel_order(c0, num_kernels, num_channels))
    }

    /// Whether a device has the tables, layouts and shared buffers that the groups refer to.
    pub open spec fn hosted(self, d: DeviceView, num_kernels: int, num_channels: int) -> bool {
        &&& d.wf()
        &&& self.layout(3) < d.layouts.len() <= usize::MAX
        &&& d.layouts[self.layout(0) as int] == Self::layouts()[0]
        &&& d.layouts[self.layout(1) as int] == Self::layouts()[1]
        &&& d.layouts[self.layout(2) as int] == Self::layouts()[2]
        &&& d.layouts[self.layout(3) as int] == Self::layouts()[3]
        &&& self.before.layouts.len() + 4 <= d.layouts.len()
        &&& self.before.buffers.len() + 5 <= d.buffers.len() <= usize::MAX
        &&& d.buffers[self.buffer(0) as int].usage == Usage::Table
        &&& d.buffers[self.buffer(1) as int].usage == Usage::Uniform
        &&& d.buffers[self.buffer(2) as int].usage == Usage::Uniform
        &&& d.buffers[self.buffer(3) as int] == (BufferDesc { size: 8, usage: Usage::Uniform })
        &&& d.buffers[self.buffer(4) as int] == (BufferDesc {
            size: (num_kernels * GP_STRIDE) as u64,
            usage: Usage::Table,
        })
        &&& self.shared(d, num_kernels, num_channels)
    }

    /// Whether the buffers handed to the phase exist and have their sizes.
    pub open spec fn shared(self, d: DeviceView, num_kernels: int, num_channels: int) -> bool {
        &&& d.storage(self.conv, self.total * 8)
        &&& d.storage(self.channel, num_channels * self.total * 4)
        &&& d.storage(self.kernel, num_kernels * self.total * 8)
        &&& d.storage(self.u, num_kernels * self.total * 4)
        &&& d.storage(self.param, num_kernels * self.total * 4)
    }

    /// The device once the phase has its resources.
    #[verifier::opaque]
    pub open spec fn after(
        self,
        n: int,
        c0: Seq<u32>,
        num_kernels: nat,
        num_channels: nat,
    ) -> DeviceView {
        self.before.grown(
            Self::buffers(n, num_kernels as int),
            Self::layouts(),
            self.pipelines(),
            self.groups(c0, num_kernels, num_channels),
        )
    }

    /// What is written into the phase's buffers.
    pub open spec fn writes<W: Real, S: Real>(
        self,
        n: usize,
        dimensions: usize,
        num_kernels: nat,
        m: Seq<S>,
        s: Seq<S>,
        h: Seq<S>,
    ) -> Seq<QueueOpView> {
        seq![written(self.buffer(0), 0, ByteOrder::Native, stockham::<W>(n as nat))] + Seq::new(
            num_kernels,
            |k: int|
                written(
                    self.buffer(4),
                    (k * GP_STRIDE) as u64,
                    ByteOrder::Native,
                    seq![bits_of(m[k]), bits_of(s[k]), bits_of(h[k])],
                ),
        ) + seq![
            written(
                self.buffer(1),
                0,
                ByteOrder::Native,
                seq![
                    bits_of(
                        over_of(
                            integer_of::<S>(1i64),
                            powi_of(count_of::<S>(n), dimensions as i32),
                        ),
                    ),
                ],
            ),
            written(self.buffer(2), 0, ByteOrder::Native, seq![n as u32, 0u32]),
            written(self.buffer(3), 0, ByteOrder::Native, seq![n as u32, 1u32]),
        ]
    }
}

/// The buffers that the phase owns.
struct Tables {
    twiddle: usize,
    normalize_params: usize,
    fft_params: usize,
    inv_fft_params: usize,
    growth_params: usize,
}

impl Tables {
    spec fn placed(self, plan: ConvolutionLayout) -> bool {
        &&& self.twiddle == plan.buffer(0)
        &&& self.normalize_params == plan.buffer(1)
        &&& self.fft_params == plan.buffer(2)
        &&& self.inv_fft_params == plan.buffer(3)
        &&& self.growth_params == plan.buffer(4)
    }
}

/// The layouts and pipelines that the phase owns.
struct Stages {
    copy_to_conv_bgl: usize,
    complex_mul_bgl: usize,
    normalize_growth_bgl: usize,
    fft_bgl: usize,
    copy_to_conv: usize,
    complex_mul: usize,
    normalize_growth: usize,
    fft_row: usize,
    fft_col: usize,
}

impl Stages {
    spec fn placed(self, plan: ConvolutionLayout) -> bool {
        &&& self.copy_to_conv_bgl == plan.layout(0)
        &&& self.complex_mul_bgl == plan.layout(1)
        &&& self.normalize_growth_bgl == plan.layout(2)
        &&& self.fft_bgl == plan.layout(3)
        &&& self.copy_to_conv == plan.pipeline(0)
        &&& self.complex_mul == plan.pipeline(1)
        &&& self.normalize_growth == plan.pipeline(2)
        &&& self.fft_row == plan.pipeline(3)
        &&& self.fft_col == plan.pipeline(4)
    }
}

/// Creates the tables of the phase and records their contents.
fn create_tables<W: Real, S: Real>(
    device: &mut Device,
    queue: &mut Queue,
    shape: &[usize],
    num_kernels: usize,
    kernel_m: &[S],
    kernel_s: &[S],
    kernel_h: &[S],
    Ghost(plan): Ghost<ConvolutionLayout>,
) -> (tables: Tables)
    requires
        plan.before == old(device)@,
        shape@.len() > 0,
        shape@[0] * 8 <= usize::MAX,
        num_kernels * GP_STRIDE <= u64::MAX,
        kernel_m@.len() >= num_kernels,
        kernel_s@.len() >= num_kernels,
        kernel_h@.len() >= num_kernels,
    ensures
        tables.placed(plan),
        final(device)@ == (DeviceView {
            buffers: old(device)@.buffers + ConvolutionLayout::buffers(
                shape@[0] as int,
                num_kernels as int,
            ),
            ..old(device)@
        }),
        old(device)@.wf() ==> final(device)@.wf(),
        functional::<W>() && functional::<S>() ==> final(queue)@ == old(queue)@ + plan.writes::<
            W,
            S,
        >(
            shape@[0],
            shape@.len() as usize,
            num_kernels as nat,
            kernel_m@,
            kernel_s@,
            kernel_h@,
        ),
{
    let n: usize = shape[0];
    let twiddles: Vec<u32> = stockham_twiddles::<W>(n);
    let twiddle_buffer: usize = device.create_buffer((n * 8) as u64, Usage::Table);
    queue.write_buffer(twiddle_buffer, 0, ByteOrder::Native, twiddles);

    let normalize_params_buffer: usize = device.create_buffer(4, Usage::Uniform);
    let fft_params_buffer: usize = device.create_buffer(8, Usage::Uniform);
    let inv_fft_params_buffer: usize = device.create_buffer(8, Usage::Uniform);
    let growth_params_buffer: usize = device.create_buffer(
        (num_kernels as u64) * GP_STRIDE,
        Usage::Table,
    );
    assert(device@.buffers =~= old(device)@.buffers + ConvolutionLayout::buffers(
        n as int,
        num_kernels as int,
    ));
    let ghost q0 = queue@;
    let mut k: usize = 0;
    while k < num_kernels
        invariant
            k <= num_kernels,
            num_kernels * GP_STRIDE <= u64::MAX,
            kernel_m@.len() >= num_kernels,
            kernel_s@.len() >= num_kernels,
            kernel_h@.len() >= num_kernels,
            growth_params_buffer == plan.buffer(4),
            functional::<S>() ==> queue@ == q0 + Seq::new(
                k as nat,
                |k: int|
                    written(
                        plan.buffer(4),
                        (k * GP_STRIDE) as u64,
                        ByteOrder::Native,
                        seq![
                            bits_of(kernel_m@[k]),
                            bits_of(kernel_s@[k]),
                            bits_of(kernel_h@[k]),
                        ],
                    ),
            ),
        decreases num_kernels - k,
    {
        let gp: Vec<u32> = vec![kernel_m[k].bits(), kernel_s[k].bits(), kernel_h[k].bits()];
        proof {
            assert(functional::<S>() ==> gp@ =~= seq![
                bits_of(kernel_m@[k as int]),
                bits_of(kernel_s@[k as int]),
                bits_of(kernel_h@[k as int]),
            ]);
        }
        queue.write_buffer(growth_params_buffer, (k as u64) * GP_STRIDE, ByteOrder::Native, gp);
        assert(functional::<S>() ==> queue@ =~= q0 + Seq::new(
            (k + 1) as nat,
            |k: int|
                written(
                    plan.buffer(4),
                    (k * GP_STRIDE) as u64,
                    ByteOrder::Native,
                    seq![bits_of(kernel_m@[k]), bits_of(kernel_s@[k]), bits_of(kernel_h@[k])],
                ),
        ));
        k = k + 1;
    }
    let norm_factor = S::integer(1).over(S::count(n).powi(shape.len() as i32));
    let norm_words: Vec<u32> = vec![norm_factor.bits()];
    let fft_words: Vec<u32> = vec![n as u32, 0];
    let inv_words: Vec<u32> = vec![n as u32, 1];
    assert(fft_words@ =~= seq![n as u32, 0u32]);
    assert(inv_words@ =~= seq![n as u32, 1u32]);
    queue.write_buffer(normalize_params_buffer, 0, ByteOrder::Native, norm_words);
    queue.write_buffer(fft_params_buffer, 0, ByteOrder::Native, fft_words);
    queue.write_buffer(inv_fft_params_buffer, 0, ByteOrder::Native, inv_words);
    proof {
        if functional::<W>() && functional::<S>() {
            let w = plan.writes::<W, S>(
                n,
                shape@.len() as usize,
                num_kernels as nat,
                kernel_m@,
                kernel_s@,
                kernel_h@,
            );
            assert(norm_words@ =~= seq![
                bits_of(
                    over_of(
                        integer_of::<S>(1i64),
                        powi_of(count_of::<S>(n), shape@.len() as usize as i32),
                    ),
                ),
            ]);
            assert(queue@ =~= old(queue)@ + w);
        }
    }
    Tables {
        twiddle: twiddle_buffer,
        normalize_params: normalize_params_buffer,
        fft_params: fft_params_buffer,
        inv_fft_params: inv_fft_params_buffer,
        growth_params: growth_params_buffer,
    }
}

/// Creates the layouts and pipelines of the phase.
fn create_pipelines(device: &mut Device, Ghost(plan): Ghost<ConvolutionLayout>) -> (stages: Stages)
    requires
        plan.before.layouts == old(device)@.layouts,
        plan.before.pipelines == old(device)@.pipelines,
    ensures
        stages.placed(plan),
        final(device)@ == (DeviceView {
            layouts: old(device)@.layouts + ConvolutionLayout::layouts(),
            pipelines: old(device)@.pipelines + plan.pipelines(),
            ..old(device)@
        }),
        old(device)@.wf() ==> final(device)@.wf(),
{
    let copy_entries = vec![sro(4), srw(5)];
    let mul_entries = vec![srw(6), sro(7)];
    let growth_entries = vec![srw(8), srw(9), unif(11), sro(12), sro(13)];
    let fft_entries = vec![srw(0), sro(2), unif(3)];
    assert(copy_entries@ =~= ConvolutionLayout::layouts()[0]);
    assert(mul_entries@ =~= ConvolutionLayout::layouts()[1]);
    assert(growth_entries@ =~= ConvolutionLayout::layouts()[2]);
    assert(fft_entries@ =~= ConvolutionLayout::layouts()[3]);
    let copy_to_conv_bgl: usize = device.create_bind_group_layout(copy_entries);
    let complex_mul_bgl: usize = device.create_bind_group_layout(mul_entries);
    let normalize_growth_bgl: usize = device.create_bind_group_layout(growth_entries);
    let fft_bgl: usize = device.create_bind_group_layout(fft_entries);
    assert(device@.layouts =~= old(device)@.layouts + ConvolutionLayout::layouts());
    let copy_to_conv: usize = device.create_compute_pipeline(copy_to_conv_bgl, Entry::CopyToConv);
    let complex_mul: usize = device.create_compute_pipeline(complex_mul_bgl, Entry::ComplexMul);
    let normalize_growth: usize = device.create_compute_pipeline(normalize_growth_bgl, Entry::NormalizeGrowth);
    let fft_row: usize = device.create_compute_pipeline(fft_bgl, Entry::FftRow);
    let fft_col: usize = device.create_compute_pipeline(fft_bgl, Entry::FftCol);
    assert(device@.pipelines =~= old(device)@.pipelines + plan.pipelines());
    Stages {
        copy_to_conv_bgl,
        complex_mul_bgl,
        normalize_growth_bgl,
        fft_bgl,
        copy_to_conv,
        complex_mul,
        normalize_growth,
        fft_row,
        fft_col,
    }
}

/// Creates the groups of both transforms.
fn create_fft_groups(
    device: &mut Device,
    conv_buffer: usize,
    tables: &Tables,
    stages: &Stages,
    Ghost(plan): Ghost<ConvolutionLayout>,
    Ghost(num_kernels): Ghost<int>,
    Ghost(num_channels): Ghost<int>,
) -> (ids: (usize, usize))
    requires
        plan.hosted(old(device)@, num_kernels, num_channels),
        conv_buffer == plan.conv,
        tables.placed(plan),
        stages.placed(plan),
    ensures
        ids.0 == old(device)@.groups.len(),
        ids.1 == old(device)@.groups.len() + 1,
        final(device)@ == (DeviceView {
            groups: old(device)@.groups + seq![plan.fft_group(), plan.inv_fft_group()],
            ..old(device)@
        }),
        final(device)@.wf(),
{
    let fft = vec![
        whole(0, conv_buffer),
        whole(2, tables.twiddle),
        whole(3, tables.fft_params),
    ];
    let inv = vec![
        whole(0, conv_buffer),
        whole(2, tables.twiddle),
        part(3, tables.inv_fft_params, 0, 8),
    ];
    assert(fft@ =~= plan.fft_group().entries);
    assert(inv@ =~= plan.inv_fft_group().entries);
    let fft_bg: usize = device.create_bind_group(stages.fft_bgl, fft);
    let inv_fft_bg: usize = device.create_bind_group(stages.fft_bgl, inv);
    assert(device@.groups =~= old(device)@.groups + seq![plan.fft_group(), plan.inv_fft_group()]);
    (fft_bg, inv_fft_bg)
}

/// Creates the group that scales the result of kernel `k` and applies its growth.
fn create_growth_group(
    device: &mut Device,
    k: usize,
    total_elements: usize,
    conv_buffer: usize,
    u_buffer: usize,
    param_buffer: usize,
    tables: &Tables,
    stages: &Stages,
    Ghost(plan): Ghost<ConvolutionLayout>,
    Ghost(num_kernels): Ghost<int>,
    Ghost(num_channels): Ghost<int>,
) -> (id: usize)
    requires
        plan.hosted(old(device)@, num_kernels, num_channels),
        k < num_kernels,
        total_elements == plan.total,
        num_kernels * total_elements * 4 <= usize::MAX,
        num_kernels * GP_STRIDE <= u64::MAX,
        conv_buffer == plan.conv,
        u_buffer == plan.u,
        param_buffer == plan.param,
        tables.placed(plan),
        stages.placed(plan),
    ensures
        id == old(device)@.groups.len(),
        final(device)@ == (DeviceView {
            groups: old(device)@.groups.push(plan.growth_group(k as int)),
            ..old(device)@
        }),
        final(device)@.wf(),
{
    proof {
        lemma_slot(k as int, num_kernels, total_elements as int, 4);
    }
    let u_offset: u64 = (k * total_elements * 4) as u64;
    let u_size: u64 = (total_elements * 4) as u64;
    let entries = vec![
        whole(8, conv_buffer),
        part(9, u_buffer, u_offset, u_size),
        whole(11, tables.normalize_params),
        part(12, tables.growth_params, (k as u64) * GP_STRIDE, 12),
        part(13, param_buffer, u_offset, u_size),
    ];
    assert(entries@ =~= plan.growth_group(k as int).entries);
    device.create_bind_group(stages.normalize_growth_bgl, entries)
}

/// Creates the groups that bring channel `c` into the transform buffer and multiply
/// its spectrum with kernel `k`.
fn create_pair_groups(
    device: &mut Device,
    c: usize,
    k: usize,
    total_elements: usize,
    conv_buffer: usize,
    channel_buffer: usize,
    kernel_buffer: usize,
    stages: &Stages,
    Ghost(plan): Ghost<ConvolutionLayout>,
    Ghost(num_kernels): Ghost<int>,
    Ghost(num_channels): Ghost<int>,
) -> (ids: (usize, usize))
    requires
        plan.hosted(old(device)@, num_kernels, num_channels),
        k < num_kernels,
        c < num_channels,
        total_elements == plan.total,
        num_kernels * total_elements * 8 <= usize::MAX,
        num_channels * total_elements * 4 <= usize::MAX,
        conv_buffer == plan.conv,
        channel_buffer == plan.channel,
        kernel_buffer == plan.kernel,
        stages.placed(plan),
    ensures
        ids.0 == old(device)@.groups.len(),
        ids.1 == old(device)@.groups.len() + 1,
        final(device)@ == (DeviceView {
            groups: old(device)@.groups.push(plan.copy_group(c as int)).push(
                plan.cmul_group(k as int),
            ),
            ..old(device)@
        }),
        final(device)@.wf(),
{
    proof {
        lemma_slot(k as int, num_kernels, total_elements as int, 8);
        lemma_slot(c as int, num_channels, total_elements as int, 4);
    }
    let copy = vec![
        part(4, channel_buffer, (c * total_elements * 4) as u64, (total_elements * 4) as u64),
        whole(5, conv_buffer),
    ];
    let cmul = vec![
        whole(6, conv_buffer),
        part(7, kernel_buffer, (k * total_elements * 8) as u64, (total_elements * 8) as u64),
    ];
    assert(copy@ =~= plan.copy_group(c as int).entries);
    assert(cmul@ =~= plan.cmul_group(k as int).entries);
    let copy_bg: usize = device.create_bind_group(stages.copy_to_conv_bgl, copy);
    let cmul_bg: usize = device.create_bind_group(stages.complex_mul_bgl, cmul);
    (copy_bg, cmul_bg)
}

/// The kernels that read each channel.
pub fn kernels_by_channel(c0: &[u32], num_kernels: usize, num_channels: usize) -> (lists: Vec<
    Vec<usize>,
>)
    requires
        c0@.len() >= num_kernels,
        forall|k: int| 0 <= k < num_kernels ==> #[trigger] c0@[k] < num_channels,
    ensures
        lists@.len() == num_channels,
        forall|c: int|
            0 <= c < num_channels ==> #[trigger] lists@[c]@ == kernels_of(
                c0@,
                num_kernels as nat,
                c,
            ),
{
    let mut lists: Vec<Vec<usize>> = Vec::new();
    let mut c: usize = 0;
    while c < num_channels
        invariant
            c <= num_channels,
            lists@.len() == c,
            forall|d: int| 0 <= d < c ==> #[trigger] lists@[d]@ == kernels_of(c0@, 0, d),
        decreases num_channels - c,
    {
        lists.push(Vec::new());
        c = c + 1;
    }
    let mut k: usize = 0;
    while k < num_kernels
        invariant
            k <= num_kernels,
            c0@.len() >= num_kernels,
            forall|k: int| 0 <= k < num_kernels ==> #[trigger] c0@[k] < num_channels,
            lists@.len() == num_channels,
            forall|d: int|
                0 <= d < num_channels ==> #[trigger] lists@[d]@ == kernels_of(c0@, k as nat, d),
        decreases num_kernels - k,
    {
        let ghost had = lists@;
        lists[c0[k] as usize].push(k);
        proof {
            assert forall|d: int| 0 <= d < num_channels implies #[trigger] lists@[d]@
                == kernels_of(c0@, (k + 1) as nat, d) by {
                assert(had[d]@ == kernels_of(c0@, k as nat, d));
            }
        }
        k = k + 1;
    }
    lists
}

/// Every kernel in a list is below the bound that the list was made for and reads
/// the channel.
pub proof fn lemma_kernels_of(c0: Seq<u32>, n: nat, c: int, i: int)
    requires
        0 <= i < kernels_of(c0, n, c).len(),
        n <= usize::MAX,
    ensures
        kernels_of(c0, n, c)[i] < n,
        c0[kernels_of(c0, n, c)[i] as int] == c,
    decreases n,
{
    if i < kernels_of(c0, (n - 1) as nat, c).len() {
        lemma_kernels_of(c0, (n - 1) as nat, c, i);
    }
}

/// The resources of Flow Lenia's first phase.
pub struct ConvolutionPhase {
    pub fft_row_pipeline: usize,
    pub fft_col_pipeline: usize,
    pub fft_bg: usize,
    pub inv_fft_bg: usize,
    /// The buffer that the transforms work in.
    pub conv_buffer: usize,
    /// A saved spectrum, shared by the kernels that read one channel.
    pub conv_saved_buffer: usize,
    pub copy_to_conv_pipeline: usize,
    pub complex_mul_pipeline: usize,
    pub normalize_growth_pipeline: usize,
    /// One group for each kernel.
    pub normalize_growth_bgs: Vec<usize>,
    /// For each channel, one group for each of its kernels.
    pub copy_bgs_cache: Vec<Vec<usize>>,
    pub cmul_bgs_cache: Vec<Vec<usize>>,
    /// For each channel, the kernels that read it.
    pub ch_to_kernels_cache: Vec<Vec<usize>>,
}

impl ConvolutionPhase {
    /// Whether the phase refers to the resources that a layout describes.
    pub open spec fn placed(
        self,
        plan: ConvolutionLayout,
        saved: usize,
        c0: Seq<u32>,
        num_kernels: nat,
        num_channels: nat,
    ) -> bool {
        &&& self.copy_to_conv_pipeline == plan.pipeline(0)
        &&& self.complex_mul_pipeline == plan.pipeline(1)
        &&& self.normalize_growth_pipeline == plan.pipeline(2)
        &&& self.fft_row_pipeline == plan.pipeline(3)
        &&& self.fft_col_pipeline == plan.pipeline(4)
        &&& self.conv_buffer == plan.conv
        &&& self.conv_saved_buffer == saved
        &&& self.fft_bg == plan.group(0)
        &&& self.inv_fft_bg == plan.group(1)
        &&& self.normalize_growth_bgs@ == Seq::new(num_kernels, |k: int| plan.group(2 + k))
        &&& self.ch_to_kernels_cache@.len() == num_channels
        &&& self.copy_bgs_cache@.len() == num_channels
        &&& self.cmul_bgs_cache@.len() == num_channels
        &&& forall|c: int|
            0 <= c < num_channels ==> #[trigger] self.ch_to_kernels_cache@[c]@ == kernels_of(
                c0,
                num_kernels,
                c,
            )
        &&& forall|c: int|
            0 <= c < num_channels ==> #[trigger] self.copy_bgs_cache@[c]@ == plan.pair_ids(
                c0,
                num_kernels,
                c,
                0,
            )
        &&& forall|c: int|
            0 <= c < num_channels ==> #[trigger] self.cmul_bgs_cache@[c]@ == plan.pair_ids(
                c0,
                num_kernels,
                c,
                1,
            )
    }
}

/// Creates the growth groups of all kernels.
fn create_growth_groups(
    device: &mut Device,
    num_kernels: usize,
    total_elements: usize,
    conv_buffer: usize,
    u_buffer: usize,
    param_buffer: usize,
    tables: &Tables,
    stages: &Stages,
    Ghost(plan): Ghost<ConvolutionLayout>,
    Ghost(num_channels): Ghost<int>,
) -> (ids: Vec<usize>)
    requires
        plan.hosted(old(device)@, num_kernels as int, num_channels),
        old(device)@.groups.len() == plan.before.groups.len() + 2,
        total_elements == plan.total,
        num_kernels * total_elements * 4 <= usize::MAX,
        num_kernels * GP_STRIDE <= u64::MAX,
        conv_buffer == plan.conv,
        u_buffer == plan.u,
        param_buffer == plan.param,
        tables.placed(plan),
        stages.placed(plan),
    ensures
        ids@ == Seq::new(num_kernels as nat, |k: int| plan.group(2 + k)),
        final(device)@ == (DeviceView {
            groups: old(device)@.groups + Seq::new(
                num_kernels as nat,
                |k: int| plan.growth_group(k),
            ),
            ..old(device)@
        }),
        final(device)@.wf(),
{
    let mut ids: Vec<usize> = Vec::new();
    let ghost d = device@;
    let mut k: usize = 0;
    assert(device@.groups =~= d.groups + Seq::new(0, |k: int| plan.growth_group(k)));
    while k < num_kernels
        invariant
            k <= num_kernels,
            plan.hosted(d, num_kernels as int, num_channels),
            d.groups.len() == plan.before.groups.len() + 2,
            total_elements == plan.total,
            num_kernels * total_elements * 4 <= usize::MAX,
            num_kernels * GP_STRIDE <= u64::MAX,
            conv_buffer == plan.conv,
            u_buffer == plan.u,
            param_buffer == plan.param,
            tables.placed(plan),
            stages.placed(plan),
            ids@ == Seq::new(k as nat, |k: int| plan.group(2 + k)),
            device@ == (DeviceView {
                groups: d.groups + Seq::new(k as nat, |k: int| plan.growth_group(k)),
                ..d
            }),
            device@.wf(),
        decreases num_kernels - k,
    {
        let id: usize = create_growth_group(
            device,
            k,
            total_elements,
            conv_buffer,
            u_buffer,
            param_buffer,
            tables,
            stages,
            Ghost(plan),
            Ghost(num_kernels as int),
            Ghost(num_channels),
        );
        ids.push(id);
        assert(ids@ =~= Seq::new((k + 1) as nat, |k: int| plan.group(2 + k)));
        assert(device@.groups =~= d.groups + Seq::new(
            (k + 1) as nat,
            |k: int| plan.growth_group(k),
        ));
        k = k + 1;
    }
    ids
}

/// Creates the pair groups of the kernels that read channel `c`.
fn create_channel_groups(
    device: &mut Device,
    c: usize,
    kernels: &Vec<usize>,
    total_elements: usize,
    conv_buffer: usize,
    channel_buffer: usize,
    kernel_buffer: usize,
    stages: &Stages,
    c0: &[u32],
    Ghost(plan): Ghost<ConvolutionLayout>,
    Ghost(num_kernels): Ghost<nat>,
    Ghost(num_channels): Ghost<int>,
) -> (ids: (Vec<usize>, Vec<usize>))
    requires
        plan.hosted(old(device)@, num_kernels as int, num_channels),
        num_kernels <= usize::MAX,
        kernels@ == kernels_of(c0@, num_kernels, c as int),
        old(device)@.groups.len() == plan.before.groups.len() + 2 + num_kernels + 2 * kernel_order(
            c0@,
            num_kernels,
            c as nat,
        ).len(),
        c < num_channels,
        total_elements == plan.total,
        num_kernels * total_elements * 8 <= usize::MAX,
        num_channels * total_elements * 4 <= usize::MAX,
        conv_buffer == plan.conv,
        channel_buffer == plan.channel,
        kernel_buffer == plan.kernel,
        stages.placed(plan),
    ensures
        ids.0@ == plan.pair_ids(c0@, num_kernels, c as int, 0),
        ids.1@ == plan.pair_ids(c0@, num_kernels, c as int, 1),
        final(device)@ == (DeviceView {
            groups: old(device)@.groups + plan.pair_groups(c0@, kernels@),
            ..old(device)@
        }),
        final(device)@.wf(),
{
    let ghost d = device@;
    let mut copy_bgs: Vec<usize> = Vec::new();
    let mut cmul_bgs: Vec<usize> = Vec::new();
    let mut i: usize = 0;
    assert(device@.groups =~= d.groups + plan.pair_groups(c0@, kernels@.take(0)));
    while i < kernels.len()
        invariant
            i <= kernels@.len(),
            plan.hosted(d, num_kernels as int, num_channels),
            num_kernels <= usize::MAX,
            kernels@ == kernels_of(c0@, num_kernels, c as int),
            d.groups.len() == plan.before.groups.len() + 2 + num_kernels + 2 * kernel_order(
                c0@,
                num_kernels,
                c as nat,
            ).len(),
            c < num_channels,
            total_elements == plan.total,
            num_kernels * total_elements * 8 <= usize::MAX,
            num_channels * total_elements * 4 <= usize::MAX,
            conv_buffer == plan.conv,
            channel_buffer == plan.channel,
            kernel_buffer == plan.kernel,
            stages.placed(plan),
            copy_bgs@ == plan.pair_ids(c0@, num_kernels, c as int, 0).take(i as int),
            cmul_bgs@ == plan.pair_ids(c0@, num_kernels, c as int, 1).take(i as int),
            device@ == (DeviceView {
                groups: d.groups + plan.pair_groups(c0@, kernels@.take(i as int)),
                ..d
            }),
            device@.wf(),
        decreases kernels@.len() - i,
    {
        let k: usize = kernels[i];
        proof {
            lemma_kernels_of(c0@, num_kernels, c as int, i as int);
        }
        let ghost had = device@;
        let pair: (usize, usize) = create_pair_groups(
            device,
            c,
            k,
            total_elements,
            conv_buffer,
            channel_buffer,
            kernel_buffer,
            stages,
            Ghost(plan),
            Ghost(num_kernels as int),
            Ghost(num_channels),
        );
        copy_bgs.push(pair.0);
        cmul_bgs.push(pair.1);
        proof {
            assert(kernels@.take(i + 1) =~= kernels@.take(i as int).push(k));
            let a = plan.pair_groups(c0@, kernels@.take(i as int));
            let b = plan.pair_groups(c0@, kernels@.take(i + 1));
            assert(b =~= a.push(plan.copy_group(c as int)).push(plan.cmul_group(k as int)));
            assert(device@.groups =~= d.groups + b);
            assert(copy_bgs@ =~= plan.pair_ids(c0@, num_kernels, c as int, 0).take(i + 1));
            assert(cmul_bgs@ =~= plan.pair_ids(c0@, num_kernels, c as int, 1).take(i + 1));
        }
        i = i + 1;
    }
    proof {
        assert(kernels@.take(i as int) =~= kernels@);
        assert(copy_bgs@ =~= plan.pair_ids(c0@, num_kernels, c as int, 0));
        assert(cmul_bgs@ =~= plan.pair_ids(c0@, num_kernels, c as int, 1));
    }
    (copy_bgs, cmul_bgs)
}

impl ConvolutionPhase {
    /// Sets up the phase: tables, pipelines and one group for each step of each kernel.
    pub fn new<W: Real, S: Real>(
        device: &mut Device,
        queue: &mut Queue,
        shape: &[usize],
        total_elements: usize,
        num_kernels: usize,
        num_channels: usize,
        kernel_m: &[S],
        kernel_s: &[S],
        kernel_h: &[S],
        c0: &[u32],
        conv_buffer: usize,
        conv_saved_buffer: usize,
        channel_buffer: usize,
        kernel_buffer: usize,
        u_buffer: usize,
        param_buffer: usize,
    ) -> (phase: Self)
        requires
            old(device)@.wf(),
            shape@.len() > 0,
            shape@[0] * 8 <= usize::MAX,
            num_kernels * GP_STRIDE <= u64::MAX,
            num_kernels * total_elements * 8 <= usize::MAX,
            num_channels * total_elements * 4 <= usize::MAX,
            kernel_m@.len() >= num_kernels,
            kernel_s@.len() >= num_kernels,
            kernel_h@.len() >= num_kernels,
            c0@.len() >= num_kernels,
            forall|k: int| 0 <= k < num_kernels ==> #[trigger] c0@[k] < num_channels,
            (ConvolutionLayout {
                before: old(device)@,
                total: total_elements as int,
                conv: conv_buffer,
                channel: channel_buffer,
                kernel: kernel_buffer,
                u: u_buffer,
                param: param_buffer,
            }).shared(old(device)@, num_kernels as int, num_channels as int),
        ensures
            ({
                let plan = ConvolutionLayout {
                    before: old(device)@,
                    total: total_elements as int,
                    conv: conv_buffer,
                    channel: channel_buffer,
                    kernel: kernel_buffer,
                    u: u_buffer,
                    param: param_buffer,
                };
                &&& final(device)@ == plan.after(
                    shape@[0] as int,
                    c0@,
                    num_kernels as nat,
                    num_channels as nat,
                )
                &&& phase.placed(
                    plan,
                    conv_saved_buffer,
                    c0@,
                    num_kernels as nat,
                    num_channels as nat,
                )
                &&& functional::<W>() && functional::<S>() ==> final(queue)@ == old(queue)@
                    + plan.writes::<W, S>(
                    shape@[0],
                    shape@.len() as usize,
                    num_kernels as nat,
                    kernel_m@,
                    kernel_s@,
                    kernel_h@,
                )
            }),
            final(device)@.wf(),
            final(device)@.extends(old(device)@),
    {
        reveal(ConvolutionLayout::after);
        reveal(DeviceView::extends);
        let ghost plan = ConvolutionLayout {
            before: device@,
            total: total_elements as int,
            conv: conv_buffer,
            channel: channel_buffer,
            kernel: kernel_buffer,
            u: u_buffer,
            param: param_buffer,
        };
        let tables = create_tables::<W, S>(
            device,
            queue,
            shape,
            num_kernels,
            kernel_m,
            kernel_s,
            kernel_h,
            Ghost(plan),
        );
        let stages = create_pipelines(device, Ghost(plan));
        proof {
            device.lemma_lengths();
            assert(num_kernels * total_elements * 4 <= num_kernels * total_elements * 8)
                by (nonlinear_arith);
        }
        let ghost d = device@;
        assert(plan.hosted(d, num_kernels as int, num_channels as int));
        let ffts: (usize, usize) = create_fft_groups(
            device,
            conv_buffer,
            &tables,
            &stages,
            Ghost(plan),
            Ghost(num_kernels as int),
            Ghost(num_channels as int),
        );
        let normalize_growth_bgs: Vec<usize> = create_growth_groups(
            device,
            num_kernels,
            total_elements,
            conv_buffer,
            u_buffer,
            param_buffer,
            &tables,
            &stages,
            Ghost(plan),
            Ghost(num_channels as int),
        );
        let ch_to_kernels_cache: Vec<Vec<usize>> = kernels_by_channel(
            c0,
            num_kernels,
            num_channels,
        );
        let mut copy_bgs_cache: Vec<Vec<usize>> = Vec::new();
        let mut cmul_bgs_cache: Vec<Vec<usize>> = Vec::new();
        let ghost e = device@;
        let mut c: usize = 0;
        assert(e.groups + plan.pair_groups(c0@, kernel_order(c0@, num_kernels as nat, 0))
            =~= e.groups);
        while c < num_channels
            invariant
                c <= num_channels,
                plan.hosted(e, num_kernels as int, num_channels as int),
                e.groups.len() == plan.before.groups.len() + 2 + num_kernels,
                total_elements == plan.total,
                num_kernels * total_elements * 8 <= usize::MAX,
                num_channels * total_elements * 4 <= usize::MAX,
                conv_buffer == plan.conv,
                channel_buffer == plan.channel,
                kernel_buffer == plan.kernel,
                stages.placed(plan),
                ch_to_kernels_cache@.len() == num_channels,
                forall|d: int|
                    0 <= d < num_channels ==> #[trigger] ch_to_kernels_cache@[d]@ == kernels_of(
                        c0@,
                        num_kernels as nat,
                        d,
                    ),
                copy_bgs_cache@.len() == c,
                cmul_bgs_cache@.len() == c,
                forall|d: int|
                    0 <= d < c ==> #[trigger] copy_bgs_cache@[d]@ == plan.pair_ids(
                        c0@,
                        num_kernels as nat,
                        d,
                        0,
                    ),
                forall|d: int|
                    0 <= d < c ==> #[trigger] cmul_bgs_cache@[d]@ == plan.pair_ids(
                        c0@,
                        num_kernels as nat,
                        d,
                        1,
                    ),
                device@ == (DeviceView {
                    groups: e.groups + plan.pair_groups(
                        c0@,
                        kernel_order(c0@, num_kernels as nat, c as nat),
                    ),
                    ..e
                }),
                device@.wf(),
            decreases num_channels - c,
        {
            let ghost had = device@;
            let ids: (Vec<usize>, Vec<usize>) = create_channel_groups(
                device,
                c,
                &ch_to_kernels_cache[c],
                total_elements,
                conv_buffer,
                channel_buffer,
                kernel_buffer,
                &stages,
                c0,
                Ghost(plan),
                Ghost(num_kernels as nat),
                Ghost(num_channels as int),
            );
            proof {
                let o = kernel_order(c0@, num_kernels as nat, c as nat);
                let ks = kernels_of(c0@, num_kernels as nat, c as int);
                assert(plan.pair_groups(c0@, o + ks) =~= plan.pair_groups(c0@, o)
                    + plan.pair_groups(c0@, ks));
                assert(device@.groups =~= e.groups + plan.pair_groups(c0@, o + ks));
            }
            copy_bgs_cache.push(ids.0);
            cmul_bgs_cache.push(ids.1);
            c = c + 1;
        }
        assert(device@ =~= plan.after(
            shape@[0] as int,
            c0@,
            num_kernels as nat,
            num_channels as nat,
        ));
        ConvolutionPhase {
            fft_row_pipeline: stages.fft_row,
            fft_col_pipeline: stages.fft_col,
            fft_bg: ffts.0,
            inv_fft_bg: ffts.1,
            conv_buffer,
            conv_saved_buffer,
            copy_to_conv_pipeline: stages.copy_to_conv,
            complex_mul_pipeline: stages.complex_mul,
            normalize_growth_pipeline: stages.normalize_growth,
            normalize_growth_bgs,
            copy_bgs_cache,
            cmul_bgs_cache,
            ch_to_kernels_cache,
        }
    }
}

impl ConvolutionPhase {
    /// Whether the phase can run on a device for grids of `total` cells.
    #[verifier::opaque]
    pub open spec fn fits(self, d: DeviceView, total: int) -> bool {
        &&& d.storage(self.conv_buffer, total * 8)
        &&& d.storage(self.conv_saved_buffer, total * 8)
        &&& self.conv_buffer != self.conv_saved_buffer
        &&& d.dispatch_fits(self.fft_row_pipeline, self.fft_bg)
        &&& d.dispatch_fits(self.fft_col_pipeline, self.fft_bg)
        &&& d.dispatch_fits(self.fft_row_pipeline, self.inv_fft_bg)
        &&& d.dispatch_fits(self.fft_col_pipeline, self.inv_fft_bg)
        &&& self.copy_bgs_cache@.len() == self.ch_to_kernels_cache@.len()
        &&& self.cmul_bgs_cache@.len() == self.ch_to_kernels_cache@.len()
        &&& forall|c: int|
            0 <= c < self.ch_to_kernels_cache@.len() ==> self.channel_fits(d, c)
        &&& forall|k: int|
            0 <= k < self.normalize_growth_bgs@.len() ==> d.dispatch_fits(
                self.normalize_growth_pipeline,
                #[trigger] self.normalize_growth_bgs@[k],
            )
    }

    /// Whether the groups of one channel fit.
    pub open spec fn channel_fits(self, d: DeviceView, c: int) -> bool {
        let kernels = self.ch_to_kernels_cache@[c]@;
        let copies = self.copy_bgs_cache@[c]@;
        let cmuls = self.cmul_bgs_cache@[c]@;
        &&& copies.len() == kernels.len()
        &&& cmuls.len() == kernels.len()
        &&& forall|i: int|
            0 <= i < kernels.len() ==> #[trigger] kernels[i] < self.normalize_growth_bgs@.len()
        &&& forall|i: int|
            0 <= i < kernels.len() ==> d.dispatch_fits(
                self.copy_to_conv_pipeline,
                #[trigger] copies[i],
            )
        &&& forall|i: int|
            0 <= i < kernels.len() ==> d.dispatch_fits(
                self.complex_mul_pipeline,
                #[trigger] cmuls[i],
            )
    }

    /// The commands for the first `n` kernels of channel `c`: each one but the first
    /// restores the spectrum, all multiply, transform back, scale and grow.
    pub open spec fn kernel_commands(self, c: int, n: nat, total: int, size: u32) -> Seq<Command>
        decreases n,
    {
        if n == 0 {
            seq![]
        } else {
            let i = n - 1;
            let k = self.ch_to_kernels_cache@[c]@[i];
            let wg = ((total + 255) / 256) as u32;
            let restore = if i == 0 {
                seq![]
            } else {
                seq![
                    Command::Copy {
                        src: self.conv_saved_buffer,
                        src_offset: 0,
                        dst: self.conv_buffer,
                        dst_offset: 0,
                        size: (total * 8) as u64,
                    },
                ]
            };
            self.kernel_commands(c, (n - 1) as nat, total, size) + restore + seq![
                Command::Dispatch {
                    pipeline: self.complex_mul_pipeline,
                    group: self.cmul_bgs_cache@[c]@[i],
                    workgroups: wg,
                },
                Command::Dispatch {
                    pipeline: self.fft_col_pipeline,
                    group: self.inv_fft_bg,
                    workgroups: size,
                },
                Command::Dispatch {
                    pipeline: self.fft_row_pipeline,
                    group: self.inv_fft_bg,
                    workgroups: size,
                },
                Command::Dispatch {
                    pipeline: self.normalize_growth_pipeline,
                    group: self.normalize_growth_bgs@[k as int],
                    workgroups: wg,
                },
            ]
        }
    }

    /// The commands for channel `c`: nothing for a channel that no kernel reads;
    /// otherwise copy, transform, save, then its kernels.
    pub open spec fn channel_commands(self, c: int, total: int, size: u32) -> Seq<Command> {
        let n = self.ch_to_kernels_cache@[c]@.len();
        if n == 0 {
            seq![]
        } else {
            seq![
                Command::Dispatch {
                    pipeline: self.copy_to_conv_pipeline,
                    group: self.copy_bgs_cache@[c]@[0],
                    workgroups: ((total + 255) / 256) as u32,
                },
                Command::Dispatch {
                    pipeline: self.fft_row_pipeline,
                    group: self.fft_bg,
                    workgroups: size,
                },
                Command::Dispatch {
                    pipeline: self.fft_col_pipeline,
                    group: self.fft_bg,
                    workgroups: size,
                },
                Command::Copy {
                    src: self.conv_buffer,
                    src_offset: 0,
                    dst: self.conv_saved_buffer,
                    dst_offset: 0,
                    size: (total * 8) as u64,
                },
            ] + self.kernel_commands(c, n, total, size)
        }
    }

    /// The commands for the first `n` channels.
    pub open spec fn commands(self, n: nat, total: int, size: u32) -> Seq<Command>
        decreases n,
    {
        if n == 0 {
            seq![]
        } else {
            self.commands((n - 1) as nat, total, size) + self.channel_commands(n - 1, total, size)
        }
    }

    /// The commands of a phase that fits a device would pass validation on it.
    pub proof fn lemma_commands_fit(self, d: DeviceView, n: nat, total: int, size: u32)
        requires
            self.fits(d, total),
            0 <= total * 8 <= u64::MAX,
            n <= self.ch_to_kernels_cache@.len(),
        ensures
            d.commands_fit(self.commands(n, total, size)),
        decreases n,
    {
        reveal(ConvolutionPhase::fits);
        if n > 0 {
            let c = n - 1;
            self.lemma_commands_fit(d, (n - 1) as nat, total, size);
            assert(self.channel_fits(d, c));
            let m = self.ch_to_kernels_cache@[c]@.len();
            self.lemma_kernel_commands_fit(d, c, m, total, size);
            if m > 0 {
                assert(d.dispatch_fits(
                    self.copy_to_conv_pipeline,
                    self.copy_bgs_cache@[c]@[0],
                ));
            }
        }
    }

    proof fn lemma_kernel_commands_fit(
        self,
        d: DeviceView,
        c: int,
        n: nat,
        total: int,
        size: u32,
    )
        requires
            self.fits(d, total),
            0 <= total * 8 <= u64::MAX,
            0 <= c < self.ch_to_kernels_cache@.len(),
            n <= self.ch_to_kernels_cache@[c]@.len(),
        ensures
            d.commands_fit(self.kernel_commands(c, n, total, size)),
        decreases n,
    {
        reveal(ConvolutionPhase::fits);
        if n > 0 {
            let i = n - 1;
            self.lemma_kernel_commands_fit(d, c, (n - 1) as nat, total, size);
            assert(self.channel_fits(d, c));
            let k = self.ch_to_kernels_cache@[c]@[i];
            assert(k < self.normalize_growth_bgs@.len());
            assert(d.dispatch_fits(
                self.normalize_growth_pipeline,
                self.normalize_growth_bgs@[k as int],
            ));
            assert(d.dispatch_fits(self.complex_mul_pipeline, self.cmul_bgs_cache@[c]@[i]));
        }
    }

    /// Records the phase: each source channel is transformed once, then convolved with
    /// every kernel that reads it.
    pub fn run(
        &self,
        device: &Device,
        encoder: &mut CommandEncoder,
        total_elements: usize,
        shape: &[usize],
    )
        requires
            self.fits(device@, total_elements as int),
            shape@.len() > 0,
            total_elements + 255 <= u32::MAX,
            total_elements * 8 <= usize::MAX,
        ensures
            final(encoder)@ == old(encoder)@ + self.commands(
                self.ch_to_kernels_cache@.len(),
                total_elements as int,
                shape@[0] as u32,
            ),
            device@.commands_fit(
                self.commands(
                    self.ch_to_kernels_cache@.len(),
                    total_elements as int,
                    shape@[0] as u32,
                ),
            ),
    {
        let wg: u32 = ((total_elements as u32) + 255) / 256;
        let sz: u32 = shape[0] as u32;
        let conv_buf_size: u64 = (total_elements * 8) as u64;
        let ghost start = encoder@;
        let ghost total = total_elements as int;
        let mut gi: usize = 0;
        assert(encoder@ =~= start + self.commands(0, total, sz));
        while gi < self.ch_to_kernels_cache.len()
            invariant
                gi <= self.ch_to_kernels_cache@.len(),
                self.fits(device@, total),
                total == total_elements,
                wg == (total + 255) / 256,
                conv_buf_size == total * 8,
                encoder@ == start + self.commands(gi as nat, total, sz),
            decreases self.ch_to_kernels_cache@.len() - gi,
        {
            reveal(ConvolutionPhase::fits);
            assert(self.channel_fits(device@, gi as int));
            let kernels = &self.ch_to_kernels_cache[gi];
            if kernels.len() > 0 {
                let copy_bgs = &self.copy_bgs_cache[gi];
                let cmul_bgs = &self.cmul_bgs_cache[gi];
                let ghost before = encoder@;
                self.dispatch(encoder, self.copy_to_conv_pipeline, copy_bgs[0], wg);
                self.dispatch(encoder, self.fft_row_pipeline, self.fft_bg, sz);
                self.dispatch(encoder, self.fft_col_pipeline, self.fft_bg, sz);
                encoder.copy_buffer_to_buffer(
                    self.conv_buffer,
                    0,
                    self.conv_saved_buffer,
                    0,
                    conv_buf_size,
                );
                let ghost head = encoder@;
                let mut i: usize = 0;
                assert(encoder@ =~= head + self.kernel_commands(gi as int, 0, total, sz));
                while i < kernels.len()
                    invariant
                        i <= kernels@.len(),
                        gi < self.ch_to_kernels_cache@.len(),
                        self.channel_fits(device@, gi as int),
                        *kernels == self.ch_to_kernels_cache@[gi as int],
                        *cmul_bgs == self.cmul_bgs_cache@[gi as int],
                        wg == (total + 255) / 256,
                        conv_buf_size == total * 8,
                        encoder@ == head + self.kernel_commands(gi as int, i as nat, total, sz),
                    decreases kernels@.len() - i,
                {
                    let ghost had = encoder@;
                    let k: usize = kernels[i];
                    if i > 0 {
                        encoder.copy_buffer_to_buffer(
                            self.conv_saved_buffer,
                            0,
                            self.conv_buffer,
                            0,
                            conv_buf_size,
                        );
                    }
                    self.dispatch(encoder, self.complex_mul_pipeline, cmul_bgs[i], wg);
                    self.dispatch(encoder, self.fft_col_pipeline, self.inv_fft_bg, sz);
                    self.dispatch(encoder, self.fft_row_pipeline, self.inv_fft_bg, sz);
                    self.dispatch(
                        encoder,
                        self.normalize_growth_pipeline,
                        self.normalize_growth_bgs[k],
                        wg,
                    );
                    assert(encoder@ =~= head + self.kernel_commands(
                        gi as int,
                        (i + 1) as nat,
                        total,
                        sz,
                    ));
                    i = i + 1;
                }
                assert(encoder@ =~= before + self.channel_commands(gi as int, total, sz));
            }
            assert(encoder@ =~= start + self.commands((gi + 1) as nat, total, sz));
            gi = gi + 1;
        }
        proof {
            self.lemma_commands_fit(device@, self.ch_to_kernels_cache@.len(), total, sz);
        }
    }

    /// Records one compute pass.
    fn dispatch(
        &self,
        encoder: &mut CommandEncoder,
        pipeline: usize,
        bind_group: usize,
        wg_count: u32,
    )
        ensures
            final(encoder)@ == old(encoder)@.push(
                Command::Dispatch { pipeline, group: bind_group, workgroups: wg_count },
            ),
    {
        encoder.dispatch(pipeline, bind_group, wg_count);
    }
}

/// The kernels of earlier channels stand before those of later ones.
pub proof fn lemma_order_prefix(c0: Seq<u32>, n: nat, c: nat, channels: nat)
    requires
        c < channels,
    ensures
        kernel_order(c0, n, c).len() + kernels_of(c0, n, c as int).len() <= kernel_order(
            c0,
            n,
            channels,
        ).len(),
    decreases channels,
{
    if c + 1 < channels {
        lemma_order_prefix(c0, n, c, (channels - 1) as nat);
    }
}

/// Kernels stand in ascending order in their channel's list, and every kernel that
/// reads the channel is there.
proof fn lemma_kernels_listed(c0: Seq<u32>, n: nat, c: int)
    requires
        n <= usize::MAX,
    ensures
        forall|i: int, j: int|
            0 <= i < j < kernels_of(c0, n, c).len() ==> #[trigger] kernels_of(c0, n, c)[i]
                < #[trigger] kernels_of(c0, n, c)[j],
        forall|k: int|
            0 <= k < n && c0[k] == c ==> #[trigger] kernels_of(c0, n, c).contains(k as usize),
    decreases n,
{
    if n > 0 {
        let m = (n - 1) as nat;
        lemma_kernels_listed(c0, m, c);
        let before = kernels_of(c0, m, c);
        let now = kernels_of(c0, n, c);
        assert forall|i: int, j: int| 0 <= i < j < now.len() implies #[trigger] now[i]
            < #[trigger] now[j] by {
            if j == before.len() {
                lemma_kernels_of(c0, m, c, i);
            }
        }
        assert forall|k: int| 0 <= k < n && c0[k] == c implies #[trigger] now.contains(
            k as usize,
        ) by {
            if k < m {
                assert(before.contains(k as usize));
                let i = choose|i: int| 0 <= i < before.len() && before[i] == k as usize;
                assert(now[i] == k as usize);
            } else {
                assert(now[now.len() - 1] == k as usize);
            }
        }
    }
}

/// What the kernels of the first `channels` channels are.
proof fn lemma_order_listed(c0: Seq<u32>, n: nat, channels: nat)
    requires
        n <= usize::MAX,
    ensures
        kernel_order(c0, n, channels).no_duplicates(),
        forall|i: int|
            0 <= i < kernel_order(c0, n, channels).len() ==> {
                let k = #[trigger] kernel_order(c0, n, channels)[i];
                k < n && c0[k as int] < channels
            },
        forall|k: int|
            0 <= k < n && c0[k] < channels ==> #[trigger] kernel_order(c0, n, channels).contains(
                k as usize,
            ),
    decreases channels,
{
    if channels > 0 {
        let m = (channels - 1) as nat;
        lemma_order_listed(c0, n, m);
        lemma_kernels_listed(c0, n, m as int);
        let a = kernel_order(c0, n, m);
        let b = kernels_of(c0, n, m as int);
        let now = kernel_order(c0, n, channels);
        assert forall|i: int| 0 <= i < b.len() implies b[i] < n && c0[#[trigger] b[i] as int]
            == m by {
            lemma_kernels_of(c0, n, m as int, i);
        }
        assert forall|i: int| 0 <= i < now.len() implies {
            let k = #[trigger] now[i];
            k < n && c0[k as int] < channels
        } by {
            if i < a.len() {
                assert(now[i] == a[i]);
            } else {
                assert(now[i] == b[i - a.len()]);
            }
        }
        assert forall|i: int, j: int|
            0 <= i < now.len() && 0 <= j < now.len() && i != j implies now[i] != now[j] by {
            if i < a.len() {
                assert(now[i] == a[i]);
            } else {
                assert(now[i] == b[i - a.len()]);
            }
            if j < a.len() {
                assert(now[j] == a[j]);
            } else {
                assert(now[j] == b[j - a.len()]);
            }
        }
        assert forall|k: int| 0 <= k < n && c0[k] < channels implies #[trigger] now.contains(
            k as usize,
        ) by {
            if c0[k] < m {
                assert(a.contains(k as usize));
                let i = choose|i: int| 0 <= i < a.len() && a[i] == k as usize;
                assert(now[i] == k as usize);
            } else {
                assert(b.contains(k as usize));
                let i = choose|i: int| 0 <= i < b.len() && b[i] == k as usize;
                assert(now[a.len() + i] == k as usize);
            }
        }
    }
}

/// When every kernel reads a channel that exists, the order of work holds every
/// kernel, and none twice.
pub proof fn law_order_holds_every_kernel_once(c0: Seq<u32>, n: nat, channels: nat)
    requires
        n <= usize::MAX,
        forall|k: int| 0 <= k < n ==> #[trigger] c0[k] < channels,
    ensures
        kernel_order(c0, n, channels).no_duplicates(),
        forall|k: usize| k < n <==> #[trigger] kernel_order(c0, n, channels).contains(k),
{
    lemma_order_listed(c0, n, channels);
    let o = kernel_order(c0, n, channels);
    assert forall|k: usize| k < n <==> #[trigger] o.contains(k) by {
        if k < n {
            assert(c0[k as int] < channels);
            assert(o.contains((k as int) as usize));
        }
    }
}

impl ConvolutionPhase {
    /// A phase that stands where its layout says fits the device it was made on.
    pub proof fn lemma_placed_fits(
        self,
        plan: ConvolutionLayout,
        saved: usize,
        n: int,
        c0: Seq<u32>,
        num_kernels: nat,
        num_channels: nat,
    )
        requires
            self.placed(plan, saved, c0, num_kernels, num_channels),
            plan.shared(plan.before, num_kernels as int, num_channels as int),
            plan.before.storage(saved, plan.total * 8),
            saved != plan.conv,
            num_kernels <= usize::MAX,
            plan.after(n, c0, num_kernels, num_channels).pipelines.len() <= usize::MAX,
            plan.after(n, c0, num_kernels, num_channels).groups.len() <= usize::MAX,
        ensures
            self.fits(plan.after(n, c0, num_kernels, num_channels), plan.total),
    {
        reveal(ConvolutionPhase::fits);
        reveal(ConvolutionLayout::after);
        let d = plan.after(n, c0, num_kernels, num_channels);
        let g = plan.before.groups.len() as int;
        let order = kernel_order(c0, num_kernels, num_channels);
        assert(d.groups[g] == plan.fft_group());
        assert(d.groups[g + 1] == plan.inv_fft_group());
        assert forall|k: int| 0 <= k < self.normalize_growth_bgs@.len() implies d.dispatch_fits(
            self.normalize_growth_pipeline,
            #[trigger] self.normalize_growth_bgs@[k],
        ) by {
            assert(d.groups[g + 2 + k] == plan.growth_group(k));
        }
        assert forall|c: int| 0 <= c < self.ch_to_kernels_cache@.len() implies self.channel_fits(
            d,
            c,
        ) by {
            let kernels = self.ch_to_kernels_cache@[c]@;
            let copies = self.copy_bgs_cache@[c]@;
            let cmuls = self.cmul_bgs_cache@[c]@;
            assert(kernels == kernels_of(c0, num_kernels, c));
            assert(copies == plan.pair_ids(c0, num_kernels, c, 0));
            assert(cmuls == plan.pair_ids(c0, num_kernels, c, 1));
            lemma_order_prefix(c0, num_kernels, c as nat, num_channels);
            let start = kernel_order(c0, num_kernels, c as nat).len() as int;
            assert forall|i: int| 0 <= i < kernels.len() implies #[trigger] kernels[i]
                < self.normalize_growth_bgs@.len() by {
                lemma_kernels_of(c0, num_kernels, c, i);
            }
            assert forall|i: int| 0 <= i < kernels.len() implies d.dispatch_fits(
                self.copy_to_conv_pipeline,
                #[trigger] copies[i],
            ) by {
                let t = 2 * (start + i);
                assert(t % 2 == 0);
                assert(d.groups[g + 2 + num_kernels + t] == plan.pair_groups(c0, order)[t]);
            }
            assert forall|i: int| 0 <= i < kernels.len() implies d.dispatch_fits(
                self.complex_mul_pipeline,
                #[trigger] cmuls[i],
            ) by {
                let t = 2 * (start + i) + 1;
                assert(t % 2 == 1);
                assert(d.groups[g + 2 + num_kernels + t] == plan.pair_groups(c0, order)[t]);
            }
        }
    }

    /// A phase that fits a device fits it still once the device has more.
    pub proof fn lemma_fits_extend(self, d: DeviceView, e: DeviceView, total: int)
        requires
            self.fits(d, total),
            e.extends(d),
        ensures
            self.fits(e, total),
    {
        reveal(ConvolutionPhase::fits);
        reveal(DeviceView::extends);
        assert forall|c: int| 0 <= c < self.ch_to_kernels_cache@.len() implies self.channel_fits(
            e,
            c,
        ) by {
            assert(self.channel_fits(d, c));
            let copies = self.copy_bgs_cache@[c]@;
            let cmuls = self.cmul_bgs_cache@[c]@;
            assert forall|i: int| 0 <= i < copies.len() implies e.dispatch_fits(
                self.copy_to_conv_pipeline,
                #[trigger] copies[i],
            ) by {
                assert(d.dispatch_fits(self.copy_to_conv_pipeline, copies[i]));
            }
            assert forall|i: int| 0 <= i < cmuls.len() implies e.dispatch_fits(
                self.complex_mul_pipeline,
                #[trigger] cmuls[i],
            ) by {
                assert(d.dispatch_fits(self.complex_mul_pipeline, cmuls[i]));
            }
        }
        assert forall|k: int| 0 <= k < self.normalize_growth_bgs@.len() implies e.dispatch_fits(
            self.normalize_growth_pipeline,
            #[trigger] self.normalize_growth_bgs@[k],
        ) by {
            assert(d.dispatch_fits(
                self.normalize_growth_pipeline,
                self.normalize_growth_bgs@[k],
            ));
        }
    }

    proof fn lemma_kernel_growths(self, c: int, n: nat, total: int, size: u32)
        requires
            self.normalize_growth_pipeline != self.complex_mul_pipeline,
            self.normalize_growth_pipeline != self.fft_row_pipeline,
            self.normalize_growth_pipeline != self.fft_col_pipeline,
            n <= self.ch_to_kernels_cache@[c]@.len(),
        ensures
            groups_run(self.kernel_commands(c, n, total, size), self.normalize_growth_pipeline)
                == self.ch_to_kernels_cache@[c]@.take(n as int).map_values(
                |k: usize| self.normalize_growth_bgs@[k as int],
            ),
        decreases n,
    {
        let p = self.normalize_growth_pipeline;
        let ks = self.ch_to_kernels_cache@[c]@;
        let f = |k: usize| self.normalize_growth_bgs@[k as int];
        if n == 0 {
            assert(ks.take(0).map_values(f) =~= seq![]);
        } else {
            let m = (n - 1) as nat;
            self.lemma_kernel_growths(c, m, total, size);
            let all = self.kernel_commands(c, n, total, size);
            let before = self.kernel_commands(c, m, total, size);
            let rest = all.skip(before.len() as int);
            assert(all =~= before + rest);
            lemma_groups_run_add(before, rest, p);
            reveal_with_fuel(groups_run, 6);
            assert(groups_run(rest, p) =~= seq![f(ks[n - 1])]);
            assert(ks.take(n as int).map_values(f) =~= ks.take(m as int).map_values(f)
                + seq![f(ks[n - 1])]);
        }
    }

    /// In one run of the phase the growth step runs on the group of every kernel in the
    /// order of work, once for each, and on nothing else.
    pub proof fn law_every_kernel_grows_once(
        self,
        plan: ConvolutionLayout,
        saved: usize,
        c0: Seq<u32>,
        num_kernels: nat,
        num_channels: nat,
        total: int,
        size: u32,
    )
        requires
            self.placed(plan, saved, c0, num_kernels, num_channels),
            plan.before.pipelines.len() + 5 <= usize::MAX,
        ensures
            groups_run(
                self.commands(num_channels, total, size),
                self.normalize_growth_pipeline,
            ) == kernel_order(c0, num_kernels, num_channels).map_values(
                |k: usize| self.normalize_growth_bgs@[k as int],
            ),
    {
        self.lemma_growths_of_channels(
            plan,
            saved,
            c0,
            num_kernels,
            num_channels,
            num_channels,
            total,
            size,
        );
    }

    proof fn lemma_growths_of_channels(
        self,
        plan: ConvolutionLayout,
        saved: usize,
        c0: Seq<u32>,
        num_kernels: nat,
        num_channels: nat,
        n: nat,
        total: int,
        size: u32,
    )
        requires
            self.placed(plan, saved, c0, num_kernels, num_channels),
            plan.before.pipelines.len() + 5 <= usize::MAX,
            n <= num_channels,
        ensures
            groups_run(self.commands(n, total, size), self.normalize_growth_pipeline)
                == kernel_order(c0, num_kernels, n).map_values(
                |k: usize| self.normalize_growth_bgs@[k as int],
            ),
        decreases n,
    {
        let p = self.normalize_growth_pipeline;
        let f = |k: usize| self.normalize_growth_bgs@[k as int];
        if n == 0 {
            assert(kernel_order(c0, num_kernels, 0).map_values(f) =~= seq![]);
        } else {
            let c = n - 1;
            self.lemma_growths_of_channels(
                plan,
                saved,
                c0,
                num_kernels,
                num_channels,
                (n - 1) as nat,
                total,
                size,
            );
            let ks = self.ch_to_kernels_cache@[c]@;
            assert(ks == kernels_of(c0, num_kernels, c));
            self.lemma_kernel_growths(c, ks.len(), total, size);
            assert(ks.take(ks.len() as int) =~= ks);
            let cc = self.channel_commands(c, total, size);
            let kc = self.kernel_commands(c, ks.len(), total, size);
            lemma_groups_run_add(self.commands((n - 1) as nat, total, size), cc, p);
            if ks.len() > 0 {
                let head = cc.take(4);
                assert(cc =~= head + kc);
                lemma_groups_run_add(head, kc, p);
                reveal_with_fuel(groups_run, 5);
                assert(groups_run(head, p) =~= seq![]);
                assert(groups_run(cc, p) =~= groups_run(kc, p));
            } else {
                assert(cc =~= kc);
            }
            assert(kernel_order(c0, num_kernels, n).map_values(f) =~= kernel_order(
                c0,
                num_kernels,
                (n - 1) as nat,
            ).map_values(f) + ks.map_values(f));
        }
    }
}

/// Kernels are grouped by the channel that they read: a kernel is in the list of a channel exactly
/// when it reads the channel, and lists are in order.
pub proof fn law_kernels_are_grouped_by_channel(
    c0: &[u32],
    num_kernels: usize,
    num_channels: usize,
    lists: Vec<Vec<usize>>,
    c: int,
    k: usize,
    i: int,
    j: int,
)
    requires
        call_ensures(kernels_by_channel, (c0, num_kernels, num_channels), lists),
        0 <= c < num_channels,
    ensures
        lists@[c]@.contains(k) <==> k < num_kernels && c0@[k as int] == c,
        0 <= i < j < lists@[c]@.len() ==> lists@[c]@[i] < lists@[c]@[j],
{
    lemma_grouped(c0@, num_kernels as nat, c, k, i, j);
}

/// The kernels of a channel among the first.
proof fn lemma_grouped(c0: Seq<u32>, n: nat, c: int, k: usize, i: int, j: int)
    requires
        n <= usize::MAX,
    ensures
        kernels_of(c0, n, c).contains(k) <==> k < n && c0[k as int] == c,
        0 <= i < j < kernels_of(c0, n, c).len() ==> kernels_of(c0, n, c)[i] < kernels_of(
            c0,
            n,
            c,
        )[j],
        forall|x: int| 0 <= x < kernels_of(c0, n, c).len() ==> #[trigger] kernels_of(c0, n, c)[x] < n,
    decreases n,
{
    if n > 0 {
        let m = (n - 1) as nat;
        let before = kernels_of(c0, m, c);
        lemma_grouped(c0, m, c, k, i, j);
        if c0[m as int] == c {
            let after = before.push(m as usize);
            assert(kernels_of(c0, n, c) == after);
            if before.contains(k) {
                let x = choose|x: int| 0 <= x < before.len() && before[x] == k;
                assert(after[x] == k);
            }
            if k == m {
                assert(after[before.len() as int] == k);
            }
        }
    }
}

/// The kernels of a channel are different kernels.
pub proof fn lemma_kernels_differ(c0: Seq<u32>, n: nat, c: int, i: int, j: int)
    requires
        n <= usize::MAX,
        0 <= i < j < kernels_of(c0, n, c).len(),
    ensures
        kernels_of(c0, n, c)[i] < kernels_of(c0, n, c)[j] < n,
    decreases n,
{
    let m = (n - 1) as nat;
    let before = kernels_of(c0, m, c);
    if j < before.len() {
        lemma_kernels_differ(c0, m, c, i, j);
    } else {
        lemma_kernels_of(c0, m, c, i);
    }
}

/// Where the kernels of a channel stand in the order of a step.
pub proof fn lemma_order_at(c0: Seq<u32>, n: nat, c: nat, channels: nat, i: int)
    requires
        c < channels,
        0 <= i < kernels_of(c0, n, c as int).len(),
    ensures
        kernel_order(c0, n, c).len() + i < kernel_order(c0, n, channels).len(),
        kernel_order(c0, n, channels)[kernel_order(c0, n, c).len() + i] == kernels_of(
            c0,
            n,
            c as int,
        )[i],
    decreases channels,
{
    if c + 1 < channels {
        lemma_order_at(c0, n, c, (channels - 1) as nat, i);
    }
}

/// The kernel that reads a channel is among the kernels of the channel.
pub proof fn lemma_kernel_found(c0: Seq<u32>, n: nat, c: int, k: int) -> (i: int)
    requires
        n <= usize::MAX,
        0 <= k < n,
        c0[k] == c,
    ensures
        0 <= i < kernels_of(c0, n, c).len(),
        kernels_of(c0, n, c)[i] == k,
    decreases n,
{
    let m = (n - 1) as nat;
    if k < m {
        lemma_kernel_found(c0, m, c, k)
    } else {
        kernels_of(c0, m, c).len() as int
    }
}

} // verus!
