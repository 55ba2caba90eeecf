//! GPU-resident diffusion Lenia: mass-conserving, multi-channel, multi-kernel.
//!
//! One step convolves each kernel with its input channel, maps the potentials
//! through growth bumps 2 exp(-((u - mu) / sigma)^2 / 2) - 1, adds them up by
//! output channel, and redistributes the mass of every cell over its 3x3
//! neighbourhood in proportion to exp(temp * affinity).

pub mod convolution;
pub mod dataflow;
pub mod diffusion;
pub mod growth;
pub mod render;

use crate::complex::{pack_complex, pack_real, Complex};
use crate::gpu::{copy_sizes, copy_words, BufferDesc, ByteOrder, Command, CommandEncoder, Device, Queue, Usage};
use crate::ml::convolution::ConvolutionPhase;
use crate::ml::diffusion::DiffusionPhase;
use crate::ml::growth::GrowthPhase;
use crate::scalar::Real;
use vstd::prelude::*;

verus! {

use crate::complex::{complex_words, real_words};
use crate::gpu::{
    lemma_extends_trans, lemma_slot, submitted, written, DeviceView, GroupView, QueueOpView,
    UploadView,
};
use crate::memory::{
    after_copy, after_writes, bytes_at, law_slot_reads_back, payload_of, slot_write,
};
use crate::scalar::{bits_of, functional, integer_of};

/// The grid sizes that a compute shader exists for.
pub open spec fn supported(grid_size: usize) -> bool {
    grid_size == 64 || grid_size == 128 || grid_size == 256 || grid_size == 512 || grid_size
        == 1024 || grid_size == 2048
}

/// The compute shader source file for a grid size.
pub open spec fn shader_path(grid_size: usize) -> Seq<char> {
    if grid_size == 64 {
        "ml/shaders/compute_64.wgsl"@
    } else if grid_size == 128 {
        "ml/shaders/compute_128.wgsl"@
    } else if grid_size == 256 {
        "ml/shaders/compute_256.wgsl"@
    } else if grid_size == 512 {
        "ml/shaders/compute_512.wgsl"@
    } else if grid_size == 1024 {
        "ml/shaders/compute_1024.wgsl"@
    } else {
        "ml/shaders/compute_2048.wgsl"@
    }
}

/// Select the compute shader source file based on grid size.
pub fn select_compute_shader(grid_size: usize) -> (path: &'static str)
    requires
        supported(grid_size),
    ensures
        path@ == shader_path(grid_size),
{
    match grid_size {
        64 => "ml/shaders/compute_64.wgsl",
        128 => "ml/shaders/compute_128.wgsl",
        256 => "ml/shaders/compute_256.wgsl",
        512 => "ml/shaders/compute_512.wgsl",
        1024 => "ml/shaders/compute_1024.wgsl",
        _ => "ml/shaders/compute_2048.wgsl",
    }
}

/// What a simulation is made for.
pub struct Extent {
    pub x: usize,
    pub y: usize,
    pub channels: usize,
    pub kernels: usize,
}

impl Extent {
    /// The cells of the grid.
    pub open spec fn total(self) -> int {
        self.x * self.y
    }

    /// Whether every size in bytes is a machine number.
    pub open spec fn fits_machine(self) -> bool {
        &&& self.total() * 8 <= usize::MAX
        &&& self.total() * self.channels * 8 <= usize::MAX
        &&& self.total() * self.kernels * 8 <= usize::MAX
        &&& self.kernels * 8 <= usize::MAX
    }

    /// The shared buffers: mass, next mass, affinity, neighbourhood sums, kernels,
    /// transform slots.
    pub open spec fn shared_buffers(self) -> Seq<BufferDesc> {
        let channel = BufferDesc {
            size: (self.total() * self.channels * 4) as u64,
            usage: Usage::Storage,
        };
        let kernel = BufferDesc {
            size: (self.total() * self.kernels * 8) as u64,
            usage: Usage::Storage,
        };
        seq![channel, channel, channel, channel, kernel, kernel]
    }

    /// The device with the shared buffers.
    pub open spec fn with_buffers(self, d: DeviceView) -> DeviceView {
        d.grown(self.shared_buffers(), seq![], seq![], seq![])
    }

    /// The device once the convolution phase is set up.
    pub open spec fn with_convolution(self, d: DeviceView) -> DeviceView {
        ConvolutionPhase::after(
            self.with_buffers(d),
            self.x as nat,
            self.total(),
            self.channels as int,
        )
    }

    /// The device once the growth phase is set up as well.
    pub open spec fn with_growth(self, d: DeviceView) -> DeviceView {
        let b = d.buffers.len();
        GrowthPhase::after(
            self.with_convolution(d),
            self.kernels as int,
            (b + 5) as usize,
            (b + 2) as usize,
        )
    }

    /// The device once the whole simulation is set up.
    pub open spec fn with_all(self, d: DeviceView) -> DeviceView {
        let b = d.buffers.len();
        DiffusionPhase::after(
            self.with_growth(d),
            (b + 2) as usize,
            (b + 3) as usize,
            b as usize,
            (b + 1) as usize,
        )
    }

    /// What the setup writes. There is no explicit time step, so its slot is zero.
    pub open spec fn writes<S: Real>(
        self,
        d: DeviceView,
        c1: Seq<u32>,
        mu: Seq<S>,
        sigma: Seq<S>,
        weights: Seq<S>,
        temp: S,
    ) -> Seq<QueueOpView> {
        ConvolutionPhase::writes::<S>(self.with_buffers(d).buffers.len(), self.x)
            + GrowthPhase::writes::<S>(
            self.with_convolution(d).buffers.len(),
            self.x as u32,
            self.kernels,
            self.channels,
            c1,
            mu,
            sigma,
            weights,
            integer_of::<S>(0i64),
        ) + seq![
            written(
                self.with_growth(d).buffers.len() as usize,
                0,
                ByteOrder::Native,
                seq![self.x as u32, self.channels as u32, bits_of(temp)],
            ),
        ]
    }
}

/// Creates the shared buffers and returns the identifier of the first.
fn make_shared(device: &mut Device, extent: &Extent, total_elements: usize) -> (first: usize)
    requires
        old(device)@.wf(),
        extent.fits_machine(),
        total_elements == extent.total(),
    ensures
        first == old(device)@.buffers.len(),
        first + 6 <= usize::MAX,
        final(device)@ == extent.with_buffers(old(device)@),
        final(device)@.extends(old(device)@),
        final(device)@.wf(),
{
    proof {
        let t = total_elements as int;
        let c = extent.channels as int;
        let k = extent.kernels as int;
        assert(0 <= t * c <= t * c * 4 && 0 <= t * k <= t * k * 8) by (nonlinear_arith)
            requires
                t >= 0,
                c >= 0,
                k >= 0,
        ;
    }
    reveal(DeviceView::extends);
    let channel: u64 = (total_elements * extent.channels * 4) as u64;
    let kernel: u64 = (total_elements * extent.kernels * 8) as u64;
    let first: usize = device.create_buffer(channel, Usage::Storage);
    device.create_buffer(channel, Usage::Storage);
    device.create_buffer(channel, Usage::Storage);
    device.create_buffer(channel, Usage::Storage);
    device.create_buffer(kernel, Usage::Storage);
    device.create_buffer(kernel, Usage::Storage);
    assert(device@ =~= extent.with_buffers(old(device)@));
    proof {
        device.lemma_lengths();
    }
    first
}

/// A device that has more still has the shared buffers.
proof fn lemma_shared_stay(extent: Extent, d: DeviceView, e: DeviceView)
    requires
        extent.fits_machine(),
        e.extends(extent.with_buffers(d)),
        d.buffers.len() + 6 <= usize::MAX,
    ensures
        e.storage(d.buffers.len() as usize, extent.channels * extent.total() * 4),
        e.storage((d.buffers.len() + 1) as usize, extent.channels * extent.total() * 4),
        e.storage((d.buffers.len() + 2) as usize, extent.channels * extent.total() * 4),
        e.storage((d.buffers.len() + 3) as usize, extent.channels * extent.total() * 4),
        e.storage((d.buffers.len() + 4) as usize, extent.kernels * extent.total() * 8),
        e.storage((d.buffers.len() + 5) as usize, extent.kernels * extent.total() * 8),
{
    reveal(DeviceView::extends);
    let b = d.buffers.len() as int;
    let w = extent.with_buffers(d);
    assert forall|i: int| 0 <= i < 6 implies e.buffers[b + i] == extent.shared_buffers()[i] by {
        assert(w.buffers[b + i] == extent.shared_buffers()[i]);
    }
    let t = extent.total();
    let c = extent.channels as int;
    let k = extent.kernels as int;
    let x = extent.x as int;
    let y = extent.y as int;
    assert(0 <= x * y) by (nonlinear_arith)
        requires
            x >= 0,
            y >= 0,
    ;
    assert(0 <= t * c * 4 && t * c == c * t && 0 <= t * k * 8 && t * k == k * t)
        by (nonlinear_arith)
        requires
            t >= 0,
            c >= 0,
            k >= 0,
    ;
}

/// Appending one by one is appending all at once.
proof fn lemma_append_all<T>(q: Seq<T>, a: Seq<T>, b: Seq<T>, last: T)
    ensures
        (q + a + b).push(last) == q + (a + b + seq![last]),
{
    assert((q + a + b).push(last) =~= q + (a + b + seq![last]));
}

/// A diffusion Lenia simulation: its shape, its shared buffers and its phases.
pub struct GpuMaceLenia {
    pub compute_shader: &'static str,
    pub shape: Vec<usize>,
    pub total_elements: usize,
    pub num_channels: usize,
    pub num_kernels: usize,
    /// The input channel of each kernel.
    pub c0: Vec<u32>,
    /// The output channel of each kernel.
    pub c1: Vec<u32>,
    /// All channels, packed.
    pub channel_buffer: usize,
    /// All channels after one step, packed.
    pub new_channel_buffer: usize,
    /// Weighted sums before diffusion.
    pub affinity_buffer: usize,
    /// Neighbourhood sums of the exponentials.
    pub z_buffer: usize,
    /// All kernels in the frequency domain, packed.
    pub kernel_buffer: usize,
    pub convolution: ConvolutionPhase,
    pub growth: GrowthPhase,
    pub diffusion: DiffusionPhase,
}

impl GpuMaceLenia {
    /// What the simulation is made for.
    pub open spec fn extent(self) -> Extent {
        Extent {
            x: self.shape@[0],
            y: self.shape@[1],
            channels: self.num_channels,
            kernels: self.num_kernels,
        }
    }

    /// Whether the simulation's buffers and phases are on a device.
    pub open spec fn fits(self, d: DeviceView) -> bool {
        let total = self.total_elements as int;
        &&& d.wf()
        &&& self.shape@.len() == 2
        &&& total == self.shape@[0] * self.shape@[1]
        &&& total * self.num_channels * 8 <= usize::MAX
        &&& total * self.num_kernels * 8 <= usize::MAX
        &&& d.storage(self.channel_buffer, self.num_channels * total * 4)
        &&& d.storage(self.new_channel_buffer, self.num_channels * total * 4)
        &&& d.storage(self.kernel_buffer, self.num_kernels * total * 8)
        &&& self.channel_buffer != self.new_channel_buffer
        &&& self.convolution.fits(d, total, self.num_kernels as int, self.num_channels as int)
        &&& self.growth.fits(d)
        &&& self.diffusion.fits(d)
    }

    /// Sets up a simulation: shared buffers, then every phase on them.
    pub fn new<S: Real>(
        device: &mut Device,
        queue: &mut Queue,
        shape: &[usize],
        num_channels: usize,
        num_kernels: usize,
        c0: &[u32],
        c1: &[u32],
        mu: &[S],
        sigma: &[S],
        weights: &[S],
        temp: S,
    ) -> (sim: Self)
        requires
            old(device)@.wf(),
            shape@.len() == 2,
            supported(shape@[0]),
            (Extent {
                x: shape@[0],
                y: shape@[1],
                channels: num_channels,
                kernels: num_kernels,
            }).fits_machine(),
            c1@.len() <= num_kernels,
            weights@.len() <= num_kernels,
            mu@.len() >= num_kernels,
            sigma@.len() >= num_kernels,
        ensures
            ({
                let d = old(device)@;
                let b = d.buffers.len();
                let e = Extent {
                    x: shape@[0],
                    y: shape@[1],
                    channels: num_channels,
                    kernels: num_kernels,
                };
                &&& final(device)@ == e.with_all(d)
                &&& functional::<S>() ==> final(queue)@ == old(queue)@ + e.writes::<S>(
                    d,
                    c1@,
                    mu@,
                    sigma@,
                    weights@,
                    temp,
                )
                &&& sim.channel_buffer == b
                &&& sim.new_channel_buffer == b + 1
                &&& sim.affinity_buffer == b + 2
                &&& sim.z_buffer == b + 3
                &&& sim.kernel_buffer == b + 4
                &&& sim.convolution.conv_buffer == b + 5
                &&& sim.convolution.placed(e.with_buffers(d))
                &&& sim.growth.pipeline == e.with_convolution(d).pipelines.len()
                &&& sim.growth.bind_group == e.with_convolution(d).groups.len()
                &&& sim.growth.growth_params_buffer == e.with_convolution(d).buffers.len()
                &&& sim.growth.weights_buffer == e.with_convolution(d).buffers.len() + 1
                &&& sim.growth.c1_buffer == e.with_convolution(d).buffers.len() + 2
                &&& sim.growth.params_buffer == e.with_convolution(d).buffers.len() + 3
                &&& sim.diffusion.pass1_pipeline == e.with_growth(d).pipelines.len()
                &&& sim.diffusion.pass2_pipeline == e.with_growth(d).pipelines.len() + 1
                &&& sim.diffusion.pass1_bg == e.with_growth(d).groups.len()
                &&& sim.diffusion.pass2_bg == e.with_growth(d).groups.len() + 1
                &&& sim.diffusion.params_buffer == e.with_growth(d).buffers.len()
            }),
            sim.compute_shader@ == shader_path(shape@[0]),
            sim.shape@ == shape@,
            sim.total_elements == shape@[0] * shape@[1],
            sim.num_channels == num_channels,
            sim.num_kernels == num_kernels,
            sim.c0@ == c0@,
            sim.c1@ == c1@,
            final(device)@.extends(old(device)@),
            sim.fits(final(device)@),
    {
        let extent = Extent {
            x: shape[0],
            y: shape[1],
            channels: num_channels,
            kernels: num_kernels,
        };
        let ghost d = device@;
        let ghost q = queue@;
        proof {
            let x = extent.x as int;
            let y = extent.y as int;
            assert(0 <= x * y <= x * y * 8) by (nonlinear_arith)
                requires
                    x >= 0,
                    y >= 0,
            ;
        }
        let total_elements: usize = shape[0] * shape[1];
        let first: usize = make_shared(device, &extent, total_elements);
        let ghost d1 = device@;
        proof {
            assert(d1.extends(d1)) by {
                reveal(DeviceView::extends);
            }
            lemma_shared_stay(extent, d, d1);
        }
        let compute_shader = select_compute_shader(shape[0]);
        let convolution = ConvolutionPhase::new::<S>(
            device,
            queue,
            shape,
            total_elements,
            num_kernels,
            num_channels,
            first + 5,
        );
        let ghost d2 = device@;
        proof {
            lemma_shared_stay(extent, d, d2);
        }
        let growth = GrowthPhase::new::<S>(
            device,
            queue,
            shape,
            num_kernels,
            num_channels,
            c1,
            mu,
            sigma,
            weights,
            S::integer(0),
            first + 5,
            first + 2,
        );
        let ghost d3 = device@;
        proof {
            lemma_extends_trans(d1, d2, d3);
            lemma_shared_stay(extent, d, d3);
        }
        let diffusion = DiffusionPhase::new::<S>(
            device,
            queue,
            shape,
            num_channels,
            temp,
            first + 2,
            first + 3,
            first,
            first + 1,
        );
        proof {
            let d4 = device@;
            lemma_extends_trans(d1, d3, d4);
            lemma_extends_trans(d2, d3, d4);
            lemma_extends_trans(d, d1, d4);
            lemma_shared_stay(extent, d, d4);
            convolution.lemma_fits_extend(
                d2,
                d4,
                extent.total(),
                num_kernels as int,
                num_channels as int,
            );
            growth.lemma_fits_extend(d3, d4);
            if functional::<S>() {
                lemma_append_all(
                    q,
                    ConvolutionPhase::writes::<S>(d1.buffers.len(), extent.x),
                    GrowthPhase::writes::<S>(
                        d2.buffers.len(),
                        extent.x as u32,
                        num_kernels,
                        num_channels,
                        c1@,
                        mu@,
                        sigma@,
                        weights@,
                        integer_of::<S>(0i64),
                    ),
                    written(
                        d3.buffers.len() as usize,
                        0,
                        ByteOrder::Native,
                        seq![extent.x as u32, num_channels as u32, bits_of(temp)],
                    ),
                );
            }
        }
        GpuMaceLenia {
            compute_shader,
            shape: copy_sizes(shape),
            total_elements,
            num_channels,
            num_kernels,
            c0: copy_words(c0),
            c1: copy_words(c1),
            channel_buffer: first,
            new_channel_buffer: first + 1,
            affinity_buffer: first + 2,
            z_buffer: first + 3,
            kernel_buffer: first + 4,
            convolution,
            growth,
            diffusion,
        }
    }
}

/// The first of every two numbers.
pub open spec fn every_other<S>(raw: Seq<S>, n: nat) -> Seq<S> {
    Seq::new(n, |i: int| raw[2 * i])
}

/// The real parts of `n` complex numbers.
pub fn real_parts<S: Copy>(raw: &[S], n: usize) -> (parts: Vec<S>)
    requires
        raw@.len() >= 2 * n,
    ensures
        parts@ == every_other(raw@, n as nat),
{
    let len: usize = raw.len();
    let mut parts: Vec<S> = Vec::new();
    let mut i: usize = 0;
    while i < n
        invariant
            i <= n,
            len == raw@.len(),
            len >= 2 * n,
            parts@ == every_other(raw@, i as nat),
        decreases n - i,
    {
        parts.push(raw[i * 2]);
        assert(parts@ =~= every_other(raw@, (i + 1) as nat));
        i = i + 1;
    }
    parts
}

impl GpuMaceLenia {
    /// The buffer that holds all channels.
    pub fn channel_buffer(&self) -> (id: usize)
        ensures
            id == self.channel_buffer,
    {
        self.channel_buffer
    }

    /// Uploads a kernel in the frequency domain at an index.
    pub fn set_kernel<S: Real>(
        &self,
        queue: &mut Queue,
        kernel_fft: &[Complex<S>],
        kernel_idx: usize,
    )
        requires
            kernel_fft@.len() == self.total_elements,
            kernel_idx < self.num_kernels,
            self.total_elements * self.num_kernels * 8 <= usize::MAX,
        ensures
            functional::<S>() ==> final(queue)@ == old(queue)@.push(
                written(
                    self.kernel_buffer,
                    (kernel_idx * self.total_elements * 8) as u64,
                    ByteOrder::Native,
                    complex_words(kernel_fft@),
                ),
            ),
            final(queue)@.len() == old(queue)@.len() + 1,
    {
        proof {
            let t = self.total_elements as int;
            let n = self.num_kernels as int;
            assert(t * n == n * t) by (nonlinear_arith);
            lemma_slot(kernel_idx as int, n, t, 8);
        }
        let offset: u64 = (kernel_idx * self.total_elements * 8) as u64;
        let data: Vec<u32> = pack_complex(kernel_fft);
        queue.write_buffer(self.kernel_buffer, offset, ByteOrder::Native, data);
    }

    /// The upload of one channel.
    pub open spec fn channel_upload<W: Real>(self, data: Seq<W>, channel: int) -> UploadView {
        UploadView {
            buffer: self.channel_buffer,
            offset: (channel * self.total_elements * 4) as u64,
            order: ByteOrder::Native,
            words: real_words(data),
        }
    }

    /// Uploads channel data at an index, in single precision.
    pub fn upload_channel<W: Real>(&self, queue: &mut Queue, data: &[W], channel: usize)
        requires
            data@.len() == self.total_elements,
            channel < self.num_channels,
            self.total_elements * self.num_channels * 4 <= usize::MAX,
        ensures
            functional::<W>() ==> final(queue)@ == old(queue)@.push(
                QueueOpView::Write(self.channel_upload(data@, channel as int)),
            ),
            final(queue)@.len() == old(queue)@.len() + 1,
    {
        proof {
            let t = self.total_elements as int;
            let n = self.num_channels as int;
            assert(t * n == n * t) by (nonlinear_arith);
            lemma_slot(channel as int, n, t, 4);
        }
        let offset: u64 = (channel * self.total_elements * 4) as u64;
        let words: Vec<u32> = pack_real(data);
        queue.write_buffer(self.channel_buffer, offset, ByteOrder::Native, words);
    }

    /// Whether one step can be recorded: the simulation on the device, an input channel for
    /// every kernel, counts that are machine numbers.
    pub open spec fn steppable(self, d: DeviceView) -> bool {
        &&& self.fits(d)
        &&& self.c0@.len() >= self.num_kernels
        &&& forall|k: int| 0 <= k < self.num_kernels ==> #[trigger] self.c0@[k] < self.num_channels
        &&& self.total_elements + 255 <= u32::MAX
    }

    /// The groups that one step creates.
    pub open spec fn step_groups(self) -> Seq<GroupView> {
        self.convolution.run_groups(
            self.channel_buffer,
            self.kernel_buffer,
            self.num_kernels as nat,
            self.num_channels as nat,
            self.total_elements as int,
        )
    }

    /// The device after one step.
    pub open spec fn stepped(self, d: DeviceView) -> DeviceView {
        DeviceView { groups: d.groups + self.step_groups(), ..d }
    }

    /// The first part of a step: convolution, on groups from `g` on.
    pub open spec fn convolution_commands(self, g: int) -> Seq<Command> {
        self.convolution.commands(
            g,
            self.c0@,
            self.num_kernels as nat,
            self.num_channels as nat,
            self.total_elements as int,
            self.shape@[0] as u32,
        )
    }

    /// The last part of a step: the new mass becomes the current one.
    pub open spec fn copy_commands(self) -> Seq<Command> {
        seq![
            Command::Copy {
                src: self.new_channel_buffer,
                src_offset: 0,
                dst: self.channel_buffer,
                dst_offset: 0,
                size: (self.total_elements * self.num_channels * 4) as u64,
            },
        ]
    }

    /// The commands of one step, on groups from `g` on: convolution, growth, diffusion,
    /// copy.
    pub open spec fn commands(self, g: int) -> Seq<Command> {
        self.convolution_commands(g) + self.growth.commands(self.total_elements as int)
            + self.diffusion.commands(self.total_elements as int) + self.copy_commands()
    }

    /// A step that can be recorded leaves a device on which another can be, and its
    /// commands would pass validation there.
    pub proof fn lemma_stepped(self, d: DeviceView)
        requires
            self.steppable(d),
            self.stepped(d).wf(),
            self.stepped(d).groups.len() <= usize::MAX,
        ensures
            self.steppable(self.stepped(d)),
            self.stepped(d).extends(d),
            self.stepped(d).commands_fit(self.commands(d.groups.len() as int)),
            self.convolution.runnable(
                d,
                self.channel_buffer,
                self.kernel_buffer,
                self.c0@,
                self.num_kernels as int,
                self.num_channels as int,
                self.total_elements as int,
            ),
    {
        let e = self.stepped(d);
        let t = self.total_elements as int;
        assert(e.extends(d)) by {
            reveal(DeviceView::extends);
        }
        self.convolution.lemma_fits_extend(
            d,
            e,
            t,
            self.num_kernels as int,
            self.num_channels as int,
        );
        self.growth.lemma_fits_extend(d, e);
        self.diffusion.lemma_fits_extend(d, e);
        let c = self.num_channels as int;
        let k = self.num_kernels as int;
        assert(t * c == c * t && t * k == k * t && 0 <= t * c * 4) by (nonlinear_arith)
            requires
                t >= 0,
                c >= 0,
        ;
        self.convolution.lemma_commands_fit(
            d,
            e,
            self.channel_buffer,
            self.kernel_buffer,
            self.c0@,
            self.num_kernels as nat,
            self.num_channels as nat,
            t,
            self.shape@[0] as u32,
        );
        assert(e.commands_fit(self.growth.commands(t)));
        assert(e.commands_fit(self.diffusion.commands(t)));
        assert(e.commands_fit(self.copy_commands()));
    }

    /// Records the convolution part of a step.
    fn record_convolution(&self, device: &mut Device, encoder: &mut CommandEncoder)
        requires
            self.steppable(old(device)@),
        ensures
            final(device)@ == self.stepped(old(device)@),
            self.steppable(final(device)@),
            final(device)@.extends(old(device)@),
            final(device)@.commands_fit(self.commands(old(device)@.groups.len() as int)),
            final(encoder)@ == old(encoder)@ + self.convolution_commands(
                old(device)@.groups.len() as int,
            ),
    {
        let ghost d = device@;
        proof {
            let t = self.total_elements as int;
            let c = self.num_channels as int;
            let k = self.num_kernels as int;
            assert(t * c == c * t && t * k == k * t) by (nonlinear_arith);
        }
        self.convolution.run(
            device,
            encoder,
            self.channel_buffer,
            self.kernel_buffer,
            self.c0.as_slice(),
            self.num_kernels,
            self.num_channels,
            self.total_elements,
            self.shape.as_slice(),
        );
        proof {
            self.lemma_stepped(d);
        }
    }

    /// Records the copy that ends a step.
    fn record_copy(&self, encoder: &mut CommandEncoder)
        requires
            self.total_elements * self.num_channels * 4 <= usize::MAX,
        ensures
            final(encoder)@ == old(encoder)@ + self.copy_commands(),
    {
        proof {
            let t = self.total_elements as int;
            assert(0 <= t * self.num_channels <= t * self.num_channels * 4) by (nonlinear_arith)
                requires
                    t >= 0,
            ;
        }
        let size: u64 = (self.total_elements * self.num_channels * 4) as u64;
        encoder.copy_buffer_to_buffer(self.new_channel_buffer, 0, self.channel_buffer, 0, size);
        assert(encoder@ =~= old(encoder)@ + self.copy_commands());
    }

    /// Records one step into an encoder, so that a caller can add to the submission.
    pub fn iterate_with_encoder(&self, device: &mut Device, encoder: &mut CommandEncoder)
        requires
            self.steppable(old(device)@),
        ensures
            final(device)@ == self.stepped(old(device)@),
            self.steppable(final(device)@),
            final(device)@.extends(old(device)@),
            final(encoder)@ == old(encoder)@ + self.commands(old(device)@.groups.len() as int),
            final(device)@.commands_fit(self.commands(old(device)@.groups.len() as int)),
    {
        let total: u32 = self.total_elements as u32;
        self.record_convolution(device, encoder);
        self.growth.run(encoder, total);
        self.diffusion.run(encoder, total);
        self.record_copy(encoder);
        assert(encoder@ =~= old(encoder)@ + self.commands(old(device)@.groups.len() as int));
    }

    /// Performs one step: all phases in one submission.
    pub fn iterate(&self, device: &mut Device, queue: &mut Queue)
        requires
            self.steppable(old(device)@),
        ensures
            final(device)@ == self.stepped(old(device)@),
            self.steppable(final(device)@),
            final(device)@.extends(old(device)@),
            final(queue)@ == old(queue)@.push(
                QueueOpView::Submit(self.commands(old(device)@.groups.len() as int)),
            ),
            final(device)@.commands_fit(self.commands(old(device)@.groups.len() as int)),
    {
        let mut encoder = CommandEncoder::new();
        self.iterate_with_encoder(device, &mut encoder);
        assert(encoder@ =~= self.commands(old(device)@.groups.len() as int));
        queue.submit(encoder);
    }

    /// What `n` steps leave of a device.
    pub open spec fn stepped_often(self, d: DeviceView, n: nat) -> DeviceView
        decreases n,
    {
        if n == 0 {
            d
        } else {
            self.stepped(self.stepped_often(d, (n - 1) as nat))
        }
    }

    /// What `n` steps submit.
    pub open spec fn submissions(self, d: DeviceView, n: nat) -> Seq<QueueOpView>
        decreases n,
    {
        if n == 0 {
            seq![]
        } else {
            let m = (n - 1) as nat;
            self.submissions(d, m).push(
                QueueOpView::Submit(
                    self.commands(self.stepped_often(d, m).groups.len() as int),
                ),
            )
        }
    }

    /// Performs `n` steps.
    pub fn run_steps(&self, device: &mut Device, queue: &mut Queue, n: usize)
        requires
            self.steppable(old(device)@),
        ensures
            final(device)@ == self.stepped_often(old(device)@, n as nat),
            self.steppable(final(device)@),
            final(device)@.extends(old(device)@),
            final(queue)@ == old(queue)@ + self.submissions(old(device)@, n as nat),
    {
        let ghost d = device@;
        let ghost q = queue@;
        let mut i: usize = 0;
        assert(q =~= q + self.submissions(d, 0));
        assert(d.extends(d)) by {
            reveal(DeviceView::extends);
        }
        while i < n
            invariant
                i <= n,
                self.steppable(device@),
                device@.extends(d),
                device@ == self.stepped_often(d, i as nat),
                queue@ == q + self.submissions(d, i as nat),
            decreases n - i,
        {
            let ghost had = device@;
            self.iterate(device, queue);
            proof {
                lemma_extends_trans(d, had, device@);
            }
            assert(queue@ =~= q + self.submissions(d, (i + 1) as nat));
            i = i + 1;
        }
    }

    /// Performs one step as four submissions, one for each phase, so that the host can
    /// time them.
    pub fn timed_iterate(&self, device: &mut Device, queue: &mut Queue)
        requires
            self.steppable(old(device)@),
        ensures
            final(device)@ == self.stepped(old(device)@),
            self.steppable(final(device)@),
            final(device)@.extends(old(device)@),
            final(queue)@ == old(queue)@ + self.timed_submissions(
                old(device)@.groups.len() as int,
            ),
            final(device)@.commands_fit(self.commands(old(device)@.groups.len() as int)),
    {
        let total: u32 = self.total_elements as u32;
        let mut encoder = CommandEncoder::new();
        self.record_convolution(device, &mut encoder);
        assert(encoder@ =~= self.convolution_commands(old(device)@.groups.len() as int));
        queue.submit(encoder);
        let mut encoder = CommandEncoder::new();
        self.growth.run(&mut encoder, total);
        assert(encoder@ =~= self.growth.commands(self.total_elements as int));
        queue.submit(encoder);
        let mut encoder = CommandEncoder::new();
        self.diffusion.run(&mut encoder, total);
        assert(encoder@ =~= self.diffusion.commands(self.total_elements as int));
        queue.submit(encoder);
        let mut encoder = CommandEncoder::new();
        self.record_copy(&mut encoder);
        assert(encoder@ =~= self.copy_commands());
        queue.submit(encoder);
        assert(queue@ =~= old(queue)@ + self.timed_submissions(old(device)@.groups.len() as int));
    }

    /// Records a copy of a whole buffer into a new buffer that the host can read.
    fn record_download(
        &self,
        device: &mut Device,
        queue: &mut Queue,
        buffer: usize,
        total_bytes: u64,
    ) -> (readback: usize)
        requires
            old(device)@.storage(buffer, total_bytes as int),
            total_bytes % 4 == 0,
        ensures
            readback == old(device)@.buffers.len(),
            final(device)@ == (DeviceView {
                buffers: old(device)@.buffers.push(
                    BufferDesc { size: total_bytes, usage: Usage::Readback },
                ),
                ..old(device)@
            }),
            final(queue)@ == old(queue)@.push(
                QueueOpView::Submit(Self::download_commands(buffer, readback, total_bytes)),
            ),
            final(device)@.commands_fit(Self::download_commands(buffer, readback, total_bytes)),
    {
        let readback: usize = device.create_buffer(total_bytes, Usage::Readback);
        let mut encoder = CommandEncoder::new();
        encoder.copy_buffer_to_buffer(buffer, 0, readback, 0, total_bytes);
        assert(encoder@ =~= Self::download_commands(buffer, readback, total_bytes));
        queue.submit(encoder);
        readback
    }

    /// The commands of a download.
    pub open spec fn download_commands(buffer: usize, readback: usize, size: u64) -> Seq<Command> {
        seq![Command::Copy { src: buffer, src_offset: 0, dst: readback, dst_offset: 0, size }]
    }

    /// A channel reads back as it was uploaded last, whatever was uploaded to other
    /// channels since: `data[i]` goes to channel `at[i]`, one after the other, and a
    /// download of all channels has channel `at[last]` in its place.
    pub proof fn law_channel_reads_back<W: Real>(
        self,
        least_first: bool,
        mem: spec_fn(usize, int) -> u8,
        at: Seq<int>,
        data: Seq<Seq<W>>,
        last: int,
        readback: usize,
    )
        requires
            self.total_elements * self.num_channels * 4 <= usize::MAX,
            at.len() == data.len(),
            forall|i: int| 0 <= i < at.len() ==> 0 <= #[trigger] at[i] < self.num_channels,
            forall|i: int| 0 <= i < at.len() ==> (#[trigger] data[i]).len() == self.total_elements,
            0 <= last < at.len(),
            forall|i: int| last < i < at.len() ==> #[trigger] at[i] != at[last],
        ensures
            ({
                let writes = Seq::new(at.len(), |i: int| self.channel_upload(data[i], at[i]));
                let all = (self.total_elements * self.num_channels * 4) as u64;
                let copy = Self::download_commands(self.channel_buffer, readback, all)[0];
                bytes_at(
                    after_copy(after_writes(least_first, mem, writes), copy),
                    readback,
                    at[last] * self.total_elements * 4,
                    (self.total_elements * 4) as nat,
                ) == payload_of(least_first, self.channel_upload(data[last], at[last]))
            }),
    {
        let t = self.total_elements as int;
        let n = self.num_channels as int;
        let writes = Seq::new(at.len(), |i: int| self.channel_upload(data[i], at[i]));
        let all = (self.total_elements * self.num_channels * 4) as u64;
        let copy = Self::download_commands(self.channel_buffer, readback, all)[0];
        assert(t * n == n * t) by (nonlinear_arith);
        assert forall|i: int| 0 <= i < writes.len() implies {
            &&& 0 <= at[i] < n
            &&& (#[trigger] writes[i]).words.len() == t
            &&& writes[i] == slot_write(
                self.channel_buffer,
                t,
                writes[i].order,
                at[i],
                writes[i].words,
            )
        } by {
            assert(data[i].len() == t);
        }
        assert(writes[last].words.len() == t);
        lemma_slot(at[last], n, t, 4);
        law_slot_reads_back(least_first, mem, self.channel_buffer, t, n, at, writes, last, copy);
    }

    /// Records a copy of all channels into a new buffer that the host can read, and
    /// returns that buffer.
    pub fn download_all_channels(&self, device: &mut Device, queue: &mut Queue) -> (readback: usize)
        requires
            self.fits(old(device)@),
        ensures
            ({
                let size = (self.total_elements * self.num_channels * 4) as u64;
                let copy = Self::download_commands(self.channel_buffer, readback, size);
                &&& readback == old(device)@.buffers.len()
                &&& final(device)@ == (DeviceView {
                    buffers: old(device)@.buffers.push(
                        BufferDesc { size, usage: Usage::Readback },
                    ),
                    ..old(device)@
                })
                &&& final(queue)@ == old(queue)@.push(QueueOpView::Submit(copy))
                &&& final(device)@.commands_fit(copy)
            }),
    {
        proof {
            let t = self.total_elements as int;
            let c = self.num_channels as int;
            assert(0 <= t * c <= t * c * 4 && t * c == c * t) by (nonlinear_arith)
                requires
                    t >= 0,
                    c >= 0,
            ;
        }
        let total_bytes: u64 = (self.total_elements * self.num_channels * 4) as u64;
        self.record_download(device, queue, self.channel_buffer, total_bytes)
    }

    /// Records a copy of the transform slots into a new buffer that the host can read,
    /// and returns that buffer; the real parts are what [`real_parts`] picks from it.
    pub fn download_conv_buffer(&self, device: &mut Device, queue: &mut Queue) -> (readback: usize)
        requires
            self.fits(old(device)@),
        ensures
            ({
                let size = (self.total_elements * self.num_kernels * 8) as u64;
                let copy = Self::download_commands(self.convolution.conv_buffer, readback, size);
                &&& readback == old(device)@.buffers.len()
                &&& final(device)@ == (DeviceView {
                    buffers: old(device)@.buffers.push(
                        BufferDesc { size, usage: Usage::Readback },
                    ),
                    ..old(device)@
                })
                &&& final(queue)@ == old(queue)@.push(QueueOpView::Submit(copy))
                &&& final(device)@.commands_fit(copy)
            }),
    {
        proof {
            let t = self.total_elements as int;
            let c = self.num_kernels as int;
            assert(0 <= t * c <= t * c * 8 && t * c == c * t) by (nonlinear_arith)
                requires
                    t >= 0,
                    c >= 0,
            ;
            reveal(ConvolutionPhase::fits);
        }
        let total_bytes: u64 = (self.total_elements * self.num_kernels * 8) as u64;
        self.record_download(device, queue, self.convolution.conv_buffer, total_bytes)
    }

    /// What a timed step submits, from groups `g` on.
    pub open spec fn timed_submissions(self, g: int) -> Seq<QueueOpView> {
        seq![
            QueueOpView::Submit(self.convolution_commands(g)),
            QueueOpView::Submit(self.growth.commands(self.total_elements as int)),
            QueueOpView::Submit(self.diffusion.commands(self.total_elements as int)),
            QueueOpView::Submit(self.copy_commands()),
        ]
    }

    /// The four submissions of a timed step hold, one after the other, exactly the
    /// commands of the single submission of an ordinary step.
    pub proof fn law_timed_step_is_step(self, g: int)
        ensures
            submitted(self.timed_submissions(g)) == submitted(
                seq![QueueOpView::Submit(self.commands(g))],
            ),
    {
        reveal_with_fuel(submitted, 5);
        let ops = self.timed_submissions(g);
        assert(ops.drop_last() =~= ops.take(3));
        assert(ops.take(3).drop_last() =~= ops.take(2));
        assert(ops.take(2).drop_last() =~= ops.take(1));
        assert(ops.take(1).drop_last() =~= ops.take(0));
        let one = seq![QueueOpView::Submit(self.commands(g))];
        assert(one.drop_last() =~= seq![]);
        assert(submitted(one) =~= self.commands(g));
        assert(submitted(ops) =~= self.commands(g));
    }
}

/// The real parts of complex numbers are every other number, from the first on.
pub proof fn law_real_parts_come_first<S: Copy>(raw: &[S], n: usize, parts: Vec<S>, i: int)
    requires
        raw@.len() >= 2 * n,
        call_ensures(real_parts::<S>, (raw, n), parts),
        0 <= i < n,
    ensures
        parts@.len() == n,
        parts@[i] == raw@[2 * i],
{
}

} // verus!
