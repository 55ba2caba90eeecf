//! GPU-resident Flow Lenia simulation.
//!
//! Extends standard Lenia with several kernels and channels, a flow field computed
//! from Sobel gradients, and reintegration tracking, which moves mass along the flow.
//! All computation runs on the GPU; nothing is read back between frames.

pub mod convolution;
pub mod dataflow;
pub mod phase2;

use crate::complex::{pack_complex, pack_real, Complex};
use crate::fl::convolution::ConvolutionPhase;
use crate::fl::phase2::{
    AdvectionBuffers, AdvectionPhase, AggregationPhase, FlowBuffers, GradientFlowPhase,
    ParamAdvectionPhase,
};
use crate::gpu::{copy_sizes, copy_words, BufferDesc, ByteOrder, Command, CommandEncoder, Device, Queue, Usage};
use crate::scalar::Real;
use vstd::prelude::*;

verus! {

use crate::complex::{complex_words, real_words};
use crate::fl::convolution::ConvolutionLayout;
use crate::fl::phase2::flattened;
use crate::gpu::{
    lemma_extends_trans, lemma_slot, submitted, workgroups, written, DeviceView, QueueOpView,
    UploadView,
};
use crate::memory::{
    after_copy, after_writes, bytes_at, law_slot_reads_back, payload_of, slot_write,
};
use crate::scalar::{bits_of, functional, integer_of};

/// Stride between per-kernel growth parameter slots, in bytes: a multiple of every
/// common storage offset alignment.
pub const GP_STRIDE: u64 = 256;

/// The grid sizes that a compute shader exists for.
pub open spec fn supported(grid_size: usize) -> bool {
    grid_size == 64 || grid_size == 128 || grid_size == 256 || grid_size == 512
}

/// The compute shader source file for a grid size.
pub open spec fn shader_path(grid_size: usize) -> Seq<char> {
    if grid_size == 64 {
        "fl/shaders/compute_64.wgsl"@
    } else if grid_size == 128 {
        "fl/shaders/compute_128.wgsl"@
    } else if grid_size == 256 {
        "fl/shaders/compute_256.wgsl"@
    } else {
        "fl/shaders/compute_512.wgsl"@
    }
}

/// Select the compute shader source file based on grid size.
pub fn select_compute_shader(grid_size: usize) -> (path: &'static str)
    requires
        supported(grid_size),
    ensures
        path@ == shader_path(grid_size),
{
    match grid_size {
        64 => "fl/shaders/compute_64.wgsl",
        128 => "fl/shaders/compute_128.wgsl",
        256 => "fl/shaders/compute_256.wgsl",
        _ => "fl/shaders/compute_512.wgsl",
    }
}

/// What a simulation is made for.
pub struct Extent {
    pub x: usize,
    pub y: usize,
    pub channels: usize,
    pub kernels: usize,
}

impl Extent {
    /// The cells of the grid.
    pub open spec fn total(self) -> int {
        self.x * self.y
    }

    /// Whether every size in bytes is a machine number.
    pub open spec fn fits_machine(self) -> bool {
        &&& self.total() * 8 <= usize::MAX
        &&& self.total() * self.channels * 4 <= usize::MAX
        &&& self.total() * self.kernels * 8 <= usize::MAX
        &&& self.kernels * GP_STRIDE <= u64::MAX
        &&& (self.channels + 1) * 4 <= usize::MAX
    }

    /// The shared buffers: mass, next mass, transform, saved transform, kernels, growth,
    /// growth by channel, its gradients, gradients of the mass, summed mass, flow,
    /// parameters, next parameters.
    pub open spec fn shared_buffers(self) -> Seq<BufferDesc> {
        let cell = BufferDesc { size: (self.total() * 4) as u64, usage: Usage::Storage };
        let complex = BufferDesc { size: (self.total() * 8) as u64, usage: Usage::Storage };
        let channel = BufferDesc {
            size: (self.total() * self.channels * 4) as u64,
            usage: Usage::Storage,
        };
        let kernel = BufferDesc {
            size: (self.total() * self.kernels * 8) as u64,
            usage: Usage::Storage,
        };
        let growth = BufferDesc {
            size: (self.total() * self.kernels * 4) as u64,
            usage: Usage::Storage,
        };
        seq![
            channel,
            channel,
            complex,
            complex,
            kernel,
            growth,
            channel,
            channel,
            channel,
            cell,
            cell,
            cell,
            channel,
            channel,
            growth,
            growth,
        ]
    }

    /// The convolution phase on a device that has had its shared buffers from `b` on.
    pub open spec fn convolution(self, d: DeviceView, b: nat) -> ConvolutionLayout {
        ConvolutionLayout {
            before: d,
            total: self.total(),
            conv: (b + 2) as usize,
            channel: b as usize,
            kernel: (b + 4) as usize,
            u: (b + 5) as usize,
            param: (b + 14) as usize,
        }
    }

    /// The buffers of the gradient phase.
    pub open spec fn flow_buffers(self, b: nat) -> FlowBuffers {
        FlowBuffers {
            channel: b as usize,
            u_channel: (b + 6) as usize,
            flow_x: (b + 12) as usize,
            flow_y: (b + 13) as usize,
            nabla_u_x: (b + 7) as usize,
            nabla_u_y: (b + 8) as usize,
            nabla_a_x: (b + 9) as usize,
            nabla_a_y: (b + 10) as usize,
            sum_a: (b + 11) as usize,
        }
    }

    /// The buffers of the advection phases.
    pub open spec fn advection_buffers(self, b: nat) -> AdvectionBuffers {
        AdvectionBuffers {
            channel: b as usize,
            flow_x: (b + 12) as usize,
            flow_y: (b + 13) as usize,
            new_channel: (b + 1) as usize,
            sum_a: (b + 11) as usize,
            param: (b + 14) as usize,
            new_param: (b + 15) as usize,
        }
    }

    /// The device with the shared buffers.
    pub open spec fn with_buffers(self, d: DeviceView) -> DeviceView {
        d.grown(self.shared_buffers(), seq![], seq![], seq![])
    }

    /// The device once the convolution phase is set up.
    pub open spec fn with_convolution(self, d: DeviceView, c0: Seq<u32>) -> DeviceView {
        self.convolution(self.with_buffers(d), d.buffers.len()).after(
            self.x as int,
            c0,
            self.kernels as nat,
            self.channels as nat,
        )
    }

    /// The device once aggregation is set up as well.
    pub open spec fn with_aggregation(
        self,
        d: DeviceView,
        c0: Seq<u32>,
        c1: Seq<Vec<u32>>,
    ) -> DeviceView {
        let b = d.buffers.len();
        AggregationPhase::after(
            self.with_convolution(d, c0),
            self.channels as nat,
            c1,
            (b + 5) as usize,
            (b + 6) as usize,
        )
    }

    /// The device once the gradient phase is set up as well.
    pub open spec fn with_gradients(
        self,
        d: DeviceView,
        c0: Seq<u32>,
        c1: Seq<Vec<u32>>,
    ) -> DeviceView {
        GradientFlowPhase::after(
            self.with_aggregation(d, c0, c1),
            self.flow_buffers(d.buffers.len()),
        )
    }

    /// The device once the advection of mass is set up as well.
    pub open spec fn with_advection(
        self,
        d: DeviceView,
        c0: Seq<u32>,
        c1: Seq<Vec<u32>>,
    ) -> DeviceView {
        AdvectionPhase::after(
            self.with_gradients(d, c0, c1),
            self.advection_buffers(d.buffers.len()),
        )
    }

    /// The device once the whole simulation is set up.
    pub open spec fn with_all(self, d: DeviceView, c0: Seq<u32>, c1: Seq<Vec<u32>>) -> DeviceView {
        ParamAdvectionPhase::after(
            self.with_advection(d, c0, c1),
            self.advection_buffers(d.buffers.len()),
            self.with_gradients(d, c0, c1).buffers.len() as usize,
        )
    }

    /// The first write of the setup: a parameter of one for every kernel and cell.
    pub open spec fn param_write<S: Real>(self, b: nat) -> QueueOpView {
        written(
            (b + 14) as usize,
            0,
            ByteOrder::Native,
            Seq::new(
                (self.total() * self.kernels) as nat,
                |i: int| bits_of(integer_of::<S>(1i64)),
            ),
        )
    }

    /// What the setup writes: parameters of one, then what the phases write.
    pub open spec fn writes<W: Real, S: Real>(
        self,
        d: DeviceView,
        c0: Seq<u32>,
        c1: Seq<Vec<u32>>,
        m: Seq<S>,
        s: Seq<S>,
        h: Seq<S>,
        dt: S,
        dd: i32,
        sigma: S,
    ) -> Seq<QueueOpView> {
        let b = d.buffers.len();
        seq![self.param_write::<S>(b)] + self.convolution(self.with_buffers(d), b).writes::<W, S>(
            self.x,
            2,
            self.kernels as nat,
            m,
            s,
            h,
        ) + AggregationPhase::writes(
            self.with_convolution(d, c0).buffers.len(),
            self.x,
            self.kernels,
            self.channels,
            c1,
        ) + GradientFlowPhase::writes::<S>(
            self.with_aggregation(d, c0, c1).buffers.len(),
            self.x,
            self.y,
            self.channels,
        ) + seq![
            written(
                self.with_gradients(d, c0, c1).buffers.len() as usize,
                0,
                ByteOrder::Little,
                AdvectionPhase::words(self.x, self.y, self.channels, self.kernels, dd, sigma, dt),
            ),
        ]
    }
}

/// A Flow Lenia simulation: its shape, its shared buffers and its phases.
pub struct GpuFlowLenia {
    pub compute_shader: &'static str,
    pub shape: Vec<usize>,
    pub total_elements: usize,
    pub num_channels: usize,
    pub num_kernels: usize,
    pub c0: Vec<u32>,
    /// All channels, packed.
    pub channel_buffer: usize,
    /// All channels after one step, packed.
    pub new_channel_buffer: usize,
    /// All kernels in the frequency domain, packed.
    pub kernel_buffer: usize,
    /// The parameter field.
    pub param_buffer: usize,
    /// The parameter field after one step.
    pub new_param_buffer: usize,
    /// The sum of all channels.
    pub sum_a_buffer: usize,
    pub convolution: ConvolutionPhase,
    pub aggregation: AggregationPhase,
    pub gradient_flow: GradientFlowPhase,
    pub advection: AdvectionPhase,
    pub param_advection: ParamAdvectionPhase,
}

/// Creates a storage buffer.
fn make_storage(device: &mut Device, size: usize) -> (id: usize)
    ensures
        id == old(device)@.buffers.len(),
        final(device)@ == (DeviceView {
            buffers: old(device)@.buffers.push(
                BufferDesc { size: size as u64, usage: Usage::Storage },
            ),
            ..old(device)@
        }),
        old(device)@.wf() ==> final(device)@.wf(),
{
    device.create_buffer(size as u64, Usage::Storage)
}

/// Creates the shared buffers and returns the identifier of the first.
fn make_shared(device: &mut Device, extent: &Extent, total_elements: usize) -> (first: usize)
    requires
        old(device)@.wf(),
        extent.fits_machine(),
        total_elements == extent.total(),
    ensures
        first == old(device)@.buffers.len(),
        final(device)@ == extent.with_buffers(old(device)@),
        final(device)@.extends(old(device)@),
        final(device)@.wf(),
        first + 16 <= usize::MAX,
{
    proof {
        let t = total_elements as int;
        let c = extent.channels as int;
        let k = extent.kernels as int;
        assert(0 <= t * c <= t * c * 4 && 0 <= t * k <= t * k * 4 <= t * k * 8)
            by (nonlinear_arith)
            requires
                t >= 0,
                c >= 0,
                k >= 0,
        ;
    }
    reveal(DeviceView::extends);
    let cell: usize = total_elements * 4;
    let complex: usize = total_elements * 8;
    let channel: usize = total_elements * extent.channels * 4;
    let kernel: usize = total_elements * extent.kernels * 8;
    let growth: usize = total_elements * extent.kernels * 4;
    let first: usize = make_storage(device, channel);
    make_storage(device, channel);
    make_storage(device, complex);
    make_storage(device, complex);
    make_storage(device, kernel);
    make_storage(device, growth);
    make_storage(device, channel);
    make_storage(device, channel);
    make_storage(device, channel);
    make_storage(device, cell);
    make_storage(device, cell);
    make_storage(device, cell);
    make_storage(device, channel);
    make_storage(device, channel);
    make_storage(device, growth);
    make_storage(device, growth);
    assert(device@ =~= extent.with_buffers(old(device)@));
    proof {
        device.lemma_lengths();
    }
    first
}

/// A word repeated.
fn repeat_word(word: u32, n: usize) -> (words: Vec<u32>)
    ensures
        words@ == Seq::new(n as nat, |i: int| word),
{
    let mut words: Vec<u32> = Vec::new();
    let mut i: usize = 0;
    assert(words@ =~= Seq::new(0, |i: int| word));
    while i < n
        invariant
            i <= n,
            words@ == Seq::new(i as nat, |i: int| word),
        decreases n - i,
    {
        words.push(word);
        assert(words@ =~= Seq::new((i + 1) as nat, |i: int| word));
        i = i + 1;
    }
    words
}

/// A device that has more still has the shared buffers.
proof fn lemma_shared_stay(extent: Extent, d: DeviceView, e: DeviceView)
    requires
        extent.fits_machine(),
        e.extends(extent.with_buffers(d)),
        d.buffers.len() + 16 <= usize::MAX,
    ensures
        extent.flow_buffers(d.buffers.len()).on(e),
        extent.advection_buffers(d.buffers.len()).on(e),
        e.is_storage((d.buffers.len() + 5) as usize),
        e.storage(d.buffers.len() as usize, extent.total() * extent.channels * 4),
        e.storage((d.buffers.len() + 1) as usize, extent.total() * extent.channels * 4),
        e.storage((d.buffers.len() + 2) as usize, extent.total() * 8),
        e.storage((d.buffers.len() + 3) as usize, extent.total() * 8),
        e.storage((d.buffers.len() + 4) as usize, extent.total() * extent.kernels * 8),
        e.storage((d.buffers.len() + 5) as usize, extent.total() * extent.kernels * 4),
        e.storage((d.buffers.len() + 14) as usize, extent.total() * extent.kernels * 4),
{
    let b = d.buffers.len() as int;
    let w = extent.with_buffers(d);
    reveal(DeviceView::extends);
    assert forall|i: int| 0 <= i < 16 implies e.buffers[b + i] == extent.shared_buffers()[i] by {
        assert(w.buffers[b + i] == extent.shared_buffers()[i]);
    }
    let t = extent.total();
    let c = extent.channels as int;
    let k = extent.kernels as int;
    let x = extent.x as int;
    let y = extent.y as int;
    assert(0 <= x * y) by (nonlinear_arith)
        requires
            x >= 0,
            y >= 0,
    ;
    assert(0 <= t * c * 4 && 0 <= t * k * 4 <= t * k * 8) by (nonlinear_arith)
        requires
            t >= 0,
            c >= 0,
            k >= 0,
    ;
}

/// Appending one by one is appending all at once.
proof fn lemma_append_all<T>(q: Seq<T>, first: T, a: Seq<T>, b: Seq<T>, c: Seq<T>, last: T)
    ensures
        ((q.push(first) + a) + b + c).push(last) == q + (seq![first] + a + b + c + seq![last]),
{
    assert(((q.push(first) + a) + b + c).push(last) =~= q + (seq![first] + a + b + c + seq![
        last,
    ]));
}

/// Creates the shared buffers and sets up the convolution phase on them.
fn set_up_convolution<W: Real, S: Real>(
    device: &mut Device,
    queue: &mut Queue,
    extent: &Extent,
    shape: &[usize],
    total_elements: usize,
    c0: &[u32],
    kernel_m: &[S],
    kernel_s: &[S],
    kernel_h: &[S],
) -> (set: (usize, ConvolutionPhase))
    requires
        old(device)@.wf(),
        shape@.len() == 2,
        extent.x == shape@[0],
        extent.y == shape@[1],
        extent.fits_machine(),
        extent.x * 8 <= usize::MAX,
        total_elements == extent.total(),
        c0@.len() >= extent.kernels,
        forall|k: int| 0 <= k < extent.kernels ==> #[trigger] c0@[k] < extent.channels,
        kernel_m@.len() >= extent.kernels,
        kernel_s@.len() >= extent.kernels,
        kernel_h@.len() >= extent.kernels,
    ensures
        set.0 == old(device)@.buffers.len(),
        set.0 + 16 <= usize::MAX,
        final(device)@ == extent.with_convolution(old(device)@, c0@),
        final(device)@.wf(),
        final(device)@.extends(extent.with_buffers(old(device)@)),
        final(device)@.extends(old(device)@),
        set.1.placed(
            extent.convolution(extent.with_buffers(old(device)@), old(device)@.buffers.len()),
            (old(device)@.buffers.len() + 3) as usize,
            c0@,
            extent.kernels as nat,
            extent.channels as nat,
        ),
        set.1.fits(final(device)@, extent.total()),
        functional::<W>() && functional::<S>() ==> final(queue)@ == old(queue)@.push(
            extent.param_write::<S>(old(device)@.buffers.len()),
        ) + extent.convolution(
            extent.with_buffers(old(device)@),
            old(device)@.buffers.len(),
        ).writes::<W, S>(
            extent.x,
            2,
            extent.kernels as nat,
            kernel_m@,
            kernel_s@,
            kernel_h@,
        ),
{
    let ghost d = device@;
    let ghost b = device@.buffers.len();
    let ghost t = total_elements as int;
    proof {
        let c = extent.channels as int;
        let k = extent.kernels as int;
        assert(t * c == c * t) by (nonlinear_arith);
        assert(t * k == k * t) by (nonlinear_arith);
        assert(0 <= t * k <= t * k * 8) by (nonlinear_arith)
            requires
                t >= 0,
                k >= 0,
        ;
    }
    let first: usize = make_shared(device, extent, total_elements);
    let one: u32 = S::integer(1).bits();
    let ones: Vec<u32> = repeat_word(one, total_elements * extent.kernels);
    let ghost d1 = device@;
    proof {
        reveal(DeviceView::extends);
        lemma_shared_stay(*extent, d, d1);
        assert(functional::<S>() ==> written(
            (b + 14) as usize,
            0,
            ByteOrder::Native,
            ones@,
        ) == extent.param_write::<S>(b));
    }
    queue.write_buffer(first + 14, 0, ByteOrder::Native, ones);
    let convolution = ConvolutionPhase::new::<W, S>(
        device,
        queue,
        shape,
        total_elements,
        extent.kernels,
        extent.channels,
        kernel_m,
        kernel_s,
        kernel_h,
        c0,
        first + 2,
        first + 3,
        first,
        first + 4,
        first + 5,
        first + 14,
    );
    proof {
        device.lemma_lengths();
        lemma_extends_trans(d, d1, device@);
        convolution.lemma_placed_fits(
            extent.convolution(d1, b),
            (first + 3) as usize,
            shape@[0] as int,
            c0@,
            extent.kernels as nat,
            extent.channels as nat,
        );
    }
    (first, convolution)
}

impl GpuFlowLenia {
    /// What the simulation is made for.
    pub open spec fn extent(self) -> Extent {
        Extent {
            x: self.shape@[0],
            y: self.shape@[1],
            channels: self.num_channels,
            kernels: self.num_kernels,
        }
    }

    /// Whether the simulation is one that was set up on a device that had looked like `d`.
    pub open spec fn placed(self, d: DeviceView, c0: Seq<u32>, c1: Seq<Vec<u32>>) -> bool {
        let e = self.extent();
        let b = d.buffers.len();
        let convolved = e.with_convolution(d, c0);
        let aggregated = e.with_aggregation(d, c0, c1);
        let graded = e.with_gradients(d, c0, c1);
        let advected = e.with_advection(d, c0, c1);
        &&& self.total_elements == e.total()
        &&& self.channel_buffer == b
        &&& self.new_channel_buffer == b + 1
        &&& self.kernel_buffer == b + 4
        &&& self.sum_a_buffer == b + 11
        &&& self.param_buffer == b + 14
        &&& self.new_param_buffer == b + 15
        &&& self.convolution.placed(
            e.convolution(e.with_buffers(d), b),
            (b + 3) as usize,
            c0,
            self.num_kernels as nat,
            self.num_channels as nat,
        )
        &&& self.aggregation.pipeline == convolved.pipelines.len()
        &&& self.aggregation.bind_group == convolved.groups.len()
        &&& self.gradient_flow.sobel_pipeline == aggregated.pipelines.len()
        &&& self.gradient_flow.sum_channels_pipeline == aggregated.pipelines.len() + 1
        &&& self.gradient_flow.flow_field_pipeline == aggregated.pipelines.len() + 2
        &&& self.gradient_flow.sobel_u_bg == aggregated.groups.len()
        &&& self.gradient_flow.sobel_a_bg == aggregated.groups.len() + 1
        &&& self.gradient_flow.sum_channels_bg == aggregated.groups.len() + 2
        &&& self.gradient_flow.flow_field_bg == aggregated.groups.len() + 3
        &&& self.advection.pipeline == graded.pipelines.len()
        &&& self.advection.bind_group == graded.groups.len()
        &&& self.param_advection.pipeline == advected.pipelines.len()
        &&& self.param_advection.bind_group == advected.groups.len()
    }

    /// Whether the simulation's buffers and phases are on a device.
    pub open spec fn fits(self, d: DeviceView) -> bool {
        let total = self.total_elements as int;
        &&& self.shape@.len() == 2
        &&& total == self.shape@[0] * self.shape@[1]
        &&& total * 8 <= usize::MAX
        &&& total * self.num_channels * 4 <= usize::MAX
        &&& total * self.num_kernels * 8 <= usize::MAX
        &&& d.storage(self.channel_buffer, total * self.num_channels * 4)
        &&& d.storage(self.new_channel_buffer, total * self.num_channels * 4)
        &&& d.storage(self.kernel_buffer, total * self.num_kernels * 8)
        &&& self.channel_buffer != self.new_channel_buffer
        &&& self.convolution.fits(d, total)
        &&& self.aggregation.fits(d)
        &&& self.gradient_flow.fits(d)
        &&& self.advection.fits(d)
        &&& self.param_advection.fits(d)
    }

    /// Sets up a simulation: shared buffers, then every phase on them.
    pub fn new<W: Real, S: Real>(
        device: &mut Device,
        queue: &mut Queue,
        shape: &[usize],
        num_channels: usize,
        num_kernels: usize,
        c0: &[u32],
        c1: &[Vec<u32>],
        kernel_m: &[S],
        kernel_s: &[S],
        kernel_h: &[S],
        dt: S,
        dd: i32,
        sigma: S,
    ) -> (sim: Self)
        requires
            old(device)@.wf(),
            shape@.len() == 2,
            supported(shape@[0]),
            (Extent {
                x: shape@[0],
                y: shape@[1],
                channels: num_channels,
                kernels: num_kernels,
            }).fits_machine(),
            c0@.len() >= num_kernels,
            forall|k: int| 0 <= k < num_kernels ==> #[trigger] c0@[k] < num_channels,
            c1@.len() >= num_channels,
            flattened(c1@, num_channels as nat).len() * 4 <= usize::MAX,
            kernel_m@.len() >= num_kernels,
            kernel_s@.len() >= num_kernels,
            kernel_h@.len() >= num_kernels,
        ensures
            ({
                let d = old(device)@;
                let b = d.buffers.len();
                let e = Extent {
                    x: shape@[0],
                    y: shape@[1],
                    channels: num_channels,
                    kernels: num_kernels,
                };
                &&& final(device)@ == e.with_all(d, c0@, c1@)
                &&& functional::<W>() && functional::<S>() ==> final(queue)@ == old(queue)@
                    + e.writes::<W, S>(
                    d,
                    c0@,
                    c1@,
                    kernel_m@,
                    kernel_s@,
                    kernel_h@,
                    dt,
                    dd,
                    sigma,
                )
                &&& sim.channel_buffer == b
                &&& sim.new_channel_buffer == b + 1
                &&& sim.kernel_buffer == b + 4
                &&& sim.sum_a_buffer == b + 11
                &&& sim.param_buffer == b + 14
                &&& sim.new_param_buffer == b + 15
                &&& sim.convolution.placed(
                    e.convolution(e.with_buffers(d), b),
                    (b + 3) as usize,
                    c0@,
                    num_kernels as nat,
                    num_channels as nat,
                )
                &&& sim.aggregation.pipeline == e.with_convolution(d, c0@).pipelines.len()
                &&& sim.aggregation.bind_group == e.with_convolution(d, c0@).groups.len()
                &&& sim.gradient_flow.sobel_pipeline == e.with_aggregation(
                    d,
                    c0@,
                    c1@,
                ).pipelines.len()
                &&& sim.gradient_flow.sum_channels_pipeline == e.with_aggregation(
                    d,
                    c0@,
                    c1@,
                ).pipelines.len() + 1
                &&& sim.gradient_flow.flow_field_pipeline == e.with_aggregation(
                    d,
                    c0@,
                    c1@,
                ).pipelines.len() + 2
                &&& sim.gradient_flow.sobel_u_bg == e.with_aggregation(d, c0@, c1@).groups.len()
                &&& sim.gradient_flow.sobel_a_bg == e.with_aggregation(d, c0@, c1@).groups.len()
                    + 1
                &&& sim.gradient_flow.sum_channels_bg == e.with_aggregation(
                    d,
                    c0@,
                    c1@,
                ).groups.len() + 2
                &&& sim.gradient_flow.flow_field_bg == e.with_aggregation(
                    d,
                    c0@,
                    c1@,
                ).groups.len() + 3
                &&& sim.advection.pipeline == e.with_gradients(d, c0@, c1@).pipelines.len()
                &&& sim.advection.bind_group == e.with_gradients(d, c0@, c1@).groups.len()
                &&& sim.advection.params_buffer == e.with_gradients(d, c0@, c1@).buffers.len()
                &&& sim.param_advection.pipeline == e.with_advection(
                    d,
                    c0@,
                    c1@,
                ).pipelines.len()
                &&& sim.param_advection.bind_group == e.with_advection(d, c0@, c1@).groups.len()
            }),
            sim.placed(old(device)@, c0@, c1@),
            sim.compute_shader@ == shader_path(shape@[0]),
            sim.shape@ == shape@,
            sim.total_elements == shape@[0] * shape@[1],
            sim.num_channels == num_channels,
            sim.num_kernels == num_kernels,
            sim.c0@ == c0@,
            final(device)@.wf(),
            final(device)@.extends(old(device)@),
            sim.fits(final(device)@),
    {
        let extent = Extent {
            x: shape[0],
            y: shape[1],
            channels: num_channels,
            kernels: num_kernels,
        };
        let ghost d = device@;
        let ghost q = queue@;
        let ghost b = device@.buffers.len();
        proof {
            let x = extent.x as int;
            let y = extent.y as int;
            assert(0 <= x * y <= x * y * 8) by (nonlinear_arith)
                requires
                    x >= 0,
                    y >= 0,
            ;
        }
        let total_elements: usize = shape[0] * shape[1];
        let compute_shader = select_compute_shader(shape[0]);
        let set = set_up_convolution::<W, S>(
            device,
            queue,
            &extent,
            shape,
            total_elements,
            c0,
            kernel_m,
            kernel_s,
            kernel_h,
        );
        let first: usize = set.0;
        let convolution = set.1;
        let ghost d2 = device@;
        proof {
            lemma_shared_stay(extent, d, d2);
        }
        let aggregation = AggregationPhase::new(
            device,
            queue,
            shape,
            num_kernels,
            num_channels,
            c1,
            first + 5,
            first + 6,
        );
        let ghost d3 = device@;
        proof {
            lemma_extends_trans(extent.with_buffers(d), d2, d3);
            lemma_shared_stay(extent, d, d3);
        }
        let gradient_flow = GradientFlowPhase::new::<S>(
            device,
            queue,
            shape,
            num_channels,
            FlowBuffers {
                channel: first,
                u_channel: first + 6,
                flow_x: first + 12,
                flow_y: first + 13,
                nabla_u_x: first + 7,
                nabla_u_y: first + 8,
                nabla_a_x: first + 9,
                nabla_a_y: first + 10,
                sum_a: first + 11,
            },
        );
        let ghost d4 = device@;
        let advected = AdvectionBuffers {
            channel: first,
            flow_x: first + 12,
            flow_y: first + 13,
            new_channel: first + 1,
            sum_a: first + 11,
            param: first + 14,
            new_param: first + 15,
        };
        proof {
            lemma_extends_trans(extent.with_buffers(d), d3, d4);
            lemma_shared_stay(extent, d, d4);
        }
        let advection = AdvectionPhase::new(
            device,
            queue,
            shape,
            num_channels,
            num_kernels,
            dd,
            sigma,
            dt,
            advected,
        );
        let ghost d5 = device@;
        proof {
            lemma_extends_trans(extent.with_buffers(d), d4, d5);
            lemma_shared_stay(extent, d, d5);
        }
        let param_advection = ParamAdvectionPhase::new(device, advected, advection.params_buffer);
        proof {
            let d6 = device@;
            lemma_extends_trans(extent.with_buffers(d), d5, d6);
            lemma_shared_stay(extent, d, d6);
            lemma_extends_trans(d4, d5, d6);
            lemma_extends_trans(d3, d4, d6);
            lemma_extends_trans(d2, d3, d6);
            lemma_extends_trans(d, d2, d6);
            aggregation.lemma_fits_extend(d3, d6);
            gradient_flow.lemma_fits_extend(d4, d6);
            advection.lemma_fits_extend(d5, d6);
            convolution.lemma_fits_extend(d2, d6, extent.total());
            if functional::<W>() && functional::<S>() {
                lemma_append_all(
                    q,
                    extent.param_write::<S>(b),
                    extent.convolution(extent.with_buffers(d), b).writes::<W, S>(
                        extent.x,
                        2,
                        num_kernels as nat,
                        kernel_m@,
                        kernel_s@,
                        kernel_h@,
                    ),
                    AggregationPhase::writes(
                        d2.buffers.len(),
                        extent.x,
                        num_kernels,
                        num_channels,
                        c1@,
                    ),
                    GradientFlowPhase::writes::<S>(
                        d3.buffers.len(),
                        extent.x,
                        extent.y,
                        num_channels,
                    ),
                    written(
                        d4.buffers.len() as usize,
                        0,
                        ByteOrder::Little,
                        AdvectionPhase::words(
                            extent.x,
                            extent.y,
                            num_channels,
                            num_kernels,
                            dd,
                            sigma,
                            dt,
                        ),
                    ),
                );
            }
        }
        GpuFlowLenia {
            compute_shader,
            shape: copy_sizes(shape),
            total_elements,
            num_channels,
            num_kernels,
            c0: copy_words(c0),
            channel_buffer: first,
            new_channel_buffer: first + 1,
            kernel_buffer: first + 4,
            param_buffer: first + 14,
            new_param_buffer: first + 15,
            sum_a_buffer: first + 11,
            convolution,
            aggregation,
            gradient_flow,
            advection,
            param_advection,
        }
    }
}

impl GpuFlowLenia {
    /// The buffer that holds all channels.
    pub fn channel_buffer(&self) -> (id: usize)
        ensures
            id == self.channel_buffer,
    {
        self.channel_buffer
    }

    /// Uploads a kernel in the frequency domain at an index.
    pub fn set_kernel<S: Real>(
        &self,
        queue: &mut Queue,
        kernel_fft: &[Complex<S>],
        kernel_idx: usize,
    )
        requires
            kernel_fft@.len() == self.total_elements,
            kernel_idx < self.num_kernels,
            self.total_elements * self.num_kernels * 8 <= usize::MAX,
        ensures
            functional::<S>() ==> final(queue)@ == old(queue)@.push(
                written(
                    self.kernel_buffer,
                    (kernel_idx * self.total_elements * 8) as u64,
                    ByteOrder::Native,
                    complex_words(kernel_fft@),
                ),
            ),
            final(queue)@.len() == old(queue)@.len() + 1,
    {
        proof {
            let t = self.total_elements as int;
            let n = self.num_kernels as int;
            assert(t * n == n * t) by (nonlinear_arith);
            lemma_slot(kernel_idx as int, n, t, 8);
        }
        let offset: u64 = (kernel_idx * self.total_elements * 8) as u64;
        let data: Vec<u32> = pack_complex(kernel_fft);
        queue.write_buffer(self.kernel_buffer, offset, ByteOrder::Native, data);
    }

    /// The upload of one channel.
    pub open spec fn channel_upload<W: Real>(self, data: Seq<W>, channel: int) -> UploadView {
        UploadView {
            buffer: self.channel_buffer,
            offset: (channel * self.total_elements * 4) as u64,
            order: ByteOrder::Native,
            words: real_words(data),
        }
    }

    /// Uploads channel data at an index, in single precision.
    pub fn upload_channel<W: Real>(&self, queue: &mut Queue, data: &[W], channel: usize)
        requires
            data@.len() == self.total_elements,
            channel < self.num_channels,
            self.total_elements * self.num_channels * 4 <= usize::MAX,
        ensures
            functional::<W>() ==> final(queue)@ == old(queue)@.push(
                QueueOpView::Write(self.channel_upload(data@, channel as int)),
            ),
            final(queue)@.len() == old(queue)@.len() + 1,
    {
        proof {
            let t = self.total_elements as int;
            let n = self.num_channels as int;
            assert(t * n == n * t) by (nonlinear_arith);
            lemma_slot(channel as int, n, t, 4);
        }
        let offset: u64 = (channel * self.total_elements * 4) as u64;
        let words: Vec<u32> = pack_real(data);
        queue.write_buffer(self.channel_buffer, offset, ByteOrder::Native, words);
    }

    /// The commands of one iteration: convolution and growth, aggregation, gradients and
    /// flow, advection, then the new mass becomes the current one.
    pub open spec fn commands(self) -> Seq<Command> {
        let total = self.total_elements as int;
        let wg = workgroups(total);
        let wg_c = workgroups(total * self.num_channels);
        self.convolution.commands(
            self.convolution.ch_to_kernels_cache@.len(),
            total,
            self.shape@[0] as u32,
        ) + self.aggregation.commands(wg_c) + self.gradient_flow.commands(wg, wg_c)
            + self.advection.commands(wg_c) + seq![
            Command::Copy {
                src: self.new_channel_buffer,
                src_offset: 0,
                dst: self.channel_buffer,
                dst_offset: 0,
                size: (total * self.num_channels * 4) as u64,
            },
        ]
    }

    /// Whether the counts of one iteration are machine numbers.
    pub open spec fn countable(self) -> bool {
        &&& self.total_elements + 255 <= u32::MAX
        &&& self.total_elements * self.num_channels + 255 <= u32::MAX
        &&& self.num_channels <= u32::MAX
    }

    /// Performs a single iteration: all phases in one submission.
    pub fn iterate(&self, device: &Device, queue: &mut Queue)
        requires
            self.fits(device@),
            self.countable(),
        ensures
            final(queue)@ == old(queue)@.push(QueueOpView::Submit(self.commands())),
            device@.commands_fit(self.commands()),
    {
        let total: u32 = self.total_elements as u32;
        let ghost t = self.total_elements as int;
        let wg: u32 = (total + 255) / 256;
        let wg_c: u32 = ((total * self.num_channels as u32) + 255) / 256;
        let mut encoder = CommandEncoder::new();
        self.convolution.run(device, &mut encoder, self.total_elements, self.shape.as_slice());
        let ghost e1 = encoder@;
        self.aggregation.run(&mut encoder, wg_c);
        let ghost e2 = encoder@;
        self.gradient_flow.run(&mut encoder, wg, wg_c);
        let ghost e3 = encoder@;
        self.advection.run(&mut encoder, wg_c);
        let ghost e4 = encoder@;
        proof {
            assert(0 <= t * self.num_channels <= t * self.num_channels * 4) by (nonlinear_arith)
                requires
                    t >= 0,
            ;
        }
        let size: u64 = (self.total_elements * self.num_channels * 4) as u64;
        encoder.copy_buffer_to_buffer(self.new_channel_buffer, 0, self.channel_buffer, 0, size);
        proof {
            assert(encoder@ =~= self.commands());
            assert(device@.commands_fit(e1));
            assert(device@.commands_fit(self.commands()));
        }
        queue.submit(encoder);
    }

    /// Runs `n` iterations.
    pub fn run_steps(&self, device: &Device, queue: &mut Queue, n: usize)
        requires
            self.fits(device@),
            self.countable(),
        ensures
            final(queue)@ == old(queue)@ + Seq::new(
                n as nat,
                |i: int| QueueOpView::Submit(self.commands()),
            ),
            device@.commands_fit(self.commands()),
    {
        let ghost q = queue@;
        let mut i: usize = 0;
        proof {
            self.lemma_commands_fit(device@);
        }
        assert(queue@ =~= q + Seq::new(0, |i: int| QueueOpView::Submit(self.commands())));
        while i < n
            invariant
                i <= n,
                self.fits(device@),
                self.countable(),
                queue@ == q + Seq::new(
                    i as nat,
                    |i: int| QueueOpView::Submit(self.commands()),
                ),
            decreases n - i,
        {
            self.iterate(device, queue);
            assert(queue@ =~= q + Seq::new(
                (i + 1) as nat,
                |i: int| QueueOpView::Submit(self.commands()),
            ));
            i = i + 1;
        }
    }

    /// What a timed iteration submits: the five parts of an iteration, one after the
    /// other.
    pub open spec fn timed_submissions(self) -> Seq<QueueOpView> {
        let total = self.total_elements as int;
        let wg = workgroups(total);
        let wg_c = workgroups(total * self.num_channels);
        seq![
            QueueOpView::Submit(
                self.convolution.commands(
                    self.convolution.ch_to_kernels_cache@.len(),
                    total,
                    self.shape@[0] as u32,
                ),
            ),
            QueueOpView::Submit(self.aggregation.commands(wg_c)),
            QueueOpView::Submit(self.gradient_flow.commands(wg, wg_c)),
            QueueOpView::Submit(self.advection.commands(wg_c)),
            QueueOpView::Submit(
                seq![
                    Command::Copy {
                        src: self.new_channel_buffer,
                        src_offset: 0,
                        dst: self.channel_buffer,
                        dst_offset: 0,
                        size: (total * self.num_channels * 4) as u64,
                    },
                ],
            ),
        ]
    }

    /// Performs one iteration as five submissions, one for each phase and one for the copy,
    /// so that the host can time them.
    pub fn timed_iterate(&self, device: &Device, queue: &mut Queue)
        requires
            self.fits(device@),
            self.countable(),
        ensures
            final(queue)@ == old(queue)@ + self.timed_submissions(),
            device@.commands_fit(self.commands()),
    {
        let total: u32 = self.total_elements as u32;
        let ghost t = self.total_elements as int;
        let wg: u32 = (total + 255) / 256;
        let wg_c: u32 = ((total * self.num_channels as u32) + 255) / 256;
        proof {
            self.lemma_commands_fit(device@);
            assert(0 <= t * self.num_channels <= t * self.num_channels * 4) by (nonlinear_arith)
                requires
                    t >= 0,
            ;
        }
        let mut encoder = CommandEncoder::new();
        self.convolution.run(device, &mut encoder, self.total_elements, self.shape.as_slice());
        assert(encoder@ =~= self.convolution.commands(
            self.convolution.ch_to_kernels_cache@.len(),
            t,
            self.shape@[0] as u32,
        ));
        queue.submit(encoder);
        let mut encoder = CommandEncoder::new();
        self.aggregation.run(&mut encoder, wg_c);
        assert(encoder@ =~= self.aggregation.commands(wg_c));
        queue.submit(encoder);
        let mut encoder = CommandEncoder::new();
        self.gradient_flow.run(&mut encoder, wg, wg_c);
        assert(encoder@ =~= self.gradient_flow.commands(wg, wg_c));
        queue.submit(encoder);
        let mut encoder = CommandEncoder::new();
        self.advection.run(&mut encoder, wg_c);
        assert(encoder@ =~= self.advection.commands(wg_c));
        queue.submit(encoder);
        let mut encoder = CommandEncoder::new();
        let size: u64 = (self.total_elements * self.num_channels * 4) as u64;
        encoder.copy_buffer_to_buffer(self.new_channel_buffer, 0, self.channel_buffer, 0, size);
        assert(encoder@ =~= seq![
            Command::Copy {
                src: self.new_channel_buffer,
                src_offset: 0,
                dst: self.channel_buffer,
                dst_offset: 0,
                size,
            },
        ]);
        queue.submit(encoder);
        assert(queue@ =~= old(queue)@ + self.timed_submissions());
    }

    /// The five submissions of a timed iteration hold, one after the other, exactly the
    /// commands of the single submission of an ordinary iteration.
    pub proof fn law_timed_iteration_is_iteration(self)
        ensures
            submitted(self.timed_submissions()) == self.commands(),
            submitted(seq![QueueOpView::Submit(self.commands())]) == self.commands(),
    {
        reveal_with_fuel(submitted, 6);
        let ops = self.timed_submissions();
        assert(ops.drop_last() =~= ops.take(4));
        assert(ops.take(4).drop_last() =~= ops.take(3));
        assert(ops.take(3).drop_last() =~= ops.take(2));
        assert(ops.take(2).drop_last() =~= ops.take(1));
        assert(ops.take(1).drop_last() =~= ops.take(0));
        let one = seq![QueueOpView::Submit(self.commands())];
        assert(one.drop_last() =~= seq![]);
        assert(submitted(one) =~= self.commands());
        assert(submitted(ops) =~= self.commands());
    }

    /// An iteration of a simulation that is on a device would pass validation there.
    pub proof fn lemma_commands_fit(self, d: DeviceView)
        requires
            self.fits(d),
        ensures
            d.commands_fit(self.commands()),
    {
        let t = self.total_elements as int;
        assert(0 <= t * self.num_channels * 4) by (nonlinear_arith)
            requires
                t >= 0,
        ;
        self.convolution.lemma_commands_fit(
            d,
            self.convolution.ch_to_kernels_cache@.len(),
            t,
            self.shape@[0] as u32,
        );
    }

    /// A channel reads back as it was uploaded last, whatever was uploaded to other
    /// channels since: `data[i]` goes to channel `at[i]`, one after the other, and a
    /// download of all channels has channel `at[last]` in its place.
    pub proof fn law_channel_reads_back<W: Real>(
        self,
        least_first: bool,
        mem: spec_fn(usize, int) -> u8,
        at: Seq<int>,
        data: Seq<Seq<W>>,
        last: int,
        readback: usize,
    )
        requires
            self.total_elements * self.num_channels * 4 <= usize::MAX,
            at.len() == data.len(),
            forall|i: int| 0 <= i < at.len() ==> 0 <= #[trigger] at[i] < self.num_channels,
            forall|i: int| 0 <= i < at.len() ==> (#[trigger] data[i]).len() == self.total_elements,
            0 <= last < at.len(),
            forall|i: int| last < i < at.len() ==> #[trigger] at[i] != at[last],
        ensures
            ({
                let writes = Seq::new(at.len(), |i: int| self.channel_upload(data[i], at[i]));
                let all = (self.total_elements * self.num_channels * 4) as u64;
                let copy = Command::Copy {
                    src: self.channel_buffer,
                    src_offset: 0,
                    dst: readback,
                    dst_offset: 0,
                    size: all,
                };
                bytes_at(
                    after_copy(after_writes(least_first, mem, writes), copy),
                    readback,
                    at[last] * self.total_elements * 4,
                    (self.total_elements * 4) as nat,
                ) == payload_of(least_first, self.channel_upload(data[last], at[last]))
            }),
    {
        let t = self.total_elements as int;
        let n = self.num_channels as int;
        let writes = Seq::new(at.len(), |i: int| self.channel_upload(data[i], at[i]));
        let all = (self.total_elements * self.num_channels * 4) as u64;
        let copy = Command::Copy {
                    src: self.channel_buffer,
                    src_offset: 0,
                    dst: readback,
                    dst_offset: 0,
                    size: all,
                };
        assert(t * n == n * t) by (nonlinear_arith);
        assert forall|i: int| 0 <= i < writes.len() implies {
            &&& 0 <= at[i] < n
            &&& (#[trigger] writes[i]).words.len() == t
            &&& writes[i] == slot_write(
                self.channel_buffer,
                t,
                writes[i].order,
                at[i],
                writes[i].words,
            )
        } by {
            assert(data[i].len() == t);
        }
        assert(writes[last].words.len() == t);
        lemma_slot(at[last], n, t, 4);
        law_slot_reads_back(least_first, mem, self.channel_buffer, t, n, at, writes, last, copy);
    }

    /// Records a copy of all channels into a new buffer that the host can read, and
    /// returns that buffer.
    pub fn download_all_channels(&self, device: &mut Device, queue: &mut Queue) -> (readback: usize)
        requires
            self.fits(old(device)@),
        ensures
            readback == old(device)@.buffers.len(),
            final(device)@ == (DeviceView {
                buffers: old(device)@.buffers.push(
                    BufferDesc {
                        size: (self.total_elements * self.num_channels * 4) as u64,
                        usage: Usage::Readback,
                    },
                ),
                ..old(device)@
            }),
            ({
                let copy = seq![
                    Command::Copy {
                        src: self.channel_buffer,
                        src_offset: 0,
                        dst: readback,
                        dst_offset: 0,
                        size: (self.total_elements * self.num_channels * 4) as u64,
                    },
                ];
                &&& final(queue)@ == old(queue)@.push(QueueOpView::Submit(copy))
                &&& final(device)@.commands_fit(copy)
            }),
    {
        proof {
            let t = self.total_elements as int;
            assert(0 <= t * self.num_channels <= t * self.num_channels * 4) by (nonlinear_arith)
                requires
                    t >= 0,
            ;
        }
        let total_bytes: u64 = (self.total_elements * self.num_channels * 4) as u64;
        let readback: usize = device.create_buffer(total_bytes, Usage::Readback);
        let mut encoder = CommandEncoder::new();
        encoder.copy_buffer_to_buffer(self.channel_buffer, 0, readback, 0, total_bytes);
        assert(encoder@ =~= seq![
            Command::Copy {
                src: self.channel_buffer,
                src_offset: 0,
                dst: readback,
                dst_offset: 0,
                size: total_bytes,
            },
        ]);
        queue.submit(encoder);
        readback
    }
}

} // verus!
