//! What the host reads back from the GPU.

use crate::fl;
use crate::gpu::{Device, Queue};
use crate::gpu_flow_lenia::GpuFlowLenia;
use crate::ml::GpuMaceLenia;
use crate::scalar::Real;
use vstd::prelude::*;

verus! {

use crate::gpu::{DeviceView, QueueOpView};
use crate::memory::after_copy;

/// Whether a queue operation does no more than to fill a buffer with what stands in another one
/// from a place on, whatever stands there.
pub open spec fn reads(op: QueueOpView, src: usize, from: int, dst: usize, size: int) -> bool {
    &&& op is Submit
    &&& op->Submit_0.len() == 1
    &&& op->Submit_0[0] is Copy
    &&& forall|mem: spec_fn(usize, int) -> u8, i: int|
        0 <= i < size ==> #[trigger] after_copy(mem, op->Submit_0[0])(dst, i) == mem(src, from + i)
}

/// Whether a buffer is new on a device and holds that many bytes, and no other resource changed.
pub open spec fn is_new(before: DeviceView, after: DeviceView, buffer: usize, size: int) -> bool {
    &&& buffer == before.buffers.len()
    &&& after.buffers.len() == before.buffers.len() + 1
    &&& after.buffers[buffer as int].size == size
    &&& before.buffers.is_prefix_of(after.buffers)
    &&& after.layouts == before.layouts
    &&& after.pipelines == before.pipelines
    &&& after.groups == before.groups
}

/// All channels are read into a buffer of their own, whole and in place.
pub proof fn law_resident_channels_are_read_whole(
    sim: fl::GpuFlowLenia,
    device: &mut Device,
    queue: &mut Queue,
    readback: usize,
)
    requires
        sim.total_elements * sim.num_channels * 4 <= u64::MAX,
        call_ensures(fl::GpuFlowLenia::download_all_channels, (&sim, device, queue), readback),
    ensures
        final(queue)@.drop_last() == old(queue)@,
        final(queue)@.len() == old(queue)@.len() + 1,
        is_new(old(device)@, final(device)@, readback, sim.total_elements * sim.num_channels * 4),
        reads(
            final(queue)@.last(),
            sim.channel_buffer,
            0,
            readback,
            sim.total_elements * sim.num_channels * 4,
        ),
{
    assert(final(queue)@.drop_last() =~= old(queue)@);
    let t = sim.total_elements as int;
    let c = sim.num_channels as int;
    assert(0 <= t * c * 4) by (nonlinear_arith)
        requires
            t >= 0,
            c >= 0,
    ;
}

/// All channels are read into a buffer of their own, whole and in place.
pub proof fn law_mace_channels_are_read_whole(
    sim: GpuMaceLenia,
    device: &mut Device,
    queue: &mut Queue,
    readback: usize,
)
    requires
        sim.total_elements * sim.num_channels * 4 <= u64::MAX,
        call_ensures(GpuMaceLenia::download_all_channels, (&sim, device, queue), readback),
    ensures
        final(queue)@.drop_last() == old(queue)@,
        final(queue)@.len() == old(queue)@.len() + 1,
        is_new(old(device)@, final(device)@, readback, sim.total_elements * sim.num_channels * 4),
        reads(
            final(queue)@.last(),
            sim.channel_buffer,
            0,
            readback,
            sim.total_elements * sim.num_channels * 4,
        ),
{
    assert(final(queue)@.drop_last() =~= old(queue)@);
    let t = sim.total_elements as int;
    let c = sim.num_channels as int;
    assert(0 <= t * c * 4) by (nonlinear_arith)
        requires
            t >= 0,
            c >= 0,
    ;
}

/// All channels are read into a buffer of their own, whole and in place.
pub proof fn law_flow_channels_are_read_whole<S: Real>(
    sim: GpuFlowLenia<S>,
    device: &mut Device,
    queue: &mut Queue,
    readback: usize,
)
    requires
        sim.total_elements * sim.num_channels * 4 <= u64::MAX,
        call_ensures(GpuFlowLenia::<S>::download_all_channels, (&sim, device, queue), readback),
    ensures
        final(queue)@.drop_last() == old(queue)@,
        final(queue)@.len() == old(queue)@.len() + 1,
        is_new(old(device)@, final(device)@, readback, sim.total_elements * sim.num_channels * 4),
        reads(
            final(queue)@.last(),
            sim.channel_buffer,
            0,
            readback,
            sim.total_elements * sim.num_channels * 4,
        ),
{
    assert(final(queue)@.drop_last() =~= old(queue)@);
    let t = sim.total_elements as int;
    let c = sim.num_channels as int;
    assert(0 <= t * c * 4) by (nonlinear_arith)
        requires
            t >= 0,
            c >= 0,
    ;
}

/// The convolutions of all kernels are read into a buffer of their own, whole and in place.
pub proof fn law_mace_convolutions_are_read_whole(
    sim: GpuMaceLenia,
    device: &mut Device,
    queue: &mut Queue,
    readback: usize,
)
    requires
        sim.total_elements * sim.num_kernels * 8 <= u64::MAX,
        call_ensures(GpuMaceLenia::download_conv_buffer, (&sim, device, queue), readback),
    ensures
        final(queue)@.drop_last() == old(queue)@,
        final(queue)@.len() == old(queue)@.len() + 1,
        is_new(old(device)@, final(device)@, readback, sim.total_elements * sim.num_kernels * 8),
        reads(
            final(queue)@.last(),
            sim.convolution.conv_buffer,
            0,
            readback,
            sim.total_elements * sim.num_kernels * 8,
        ),
{
    assert(final(queue)@.drop_last() =~= old(queue)@);
    let t = sim.total_elements as int;
    let c = sim.num_kernels as int;
    assert(0 <= t * c * 8) by (nonlinear_arith)
        requires
            t >= 0,
            c >= 0,
    ;
}

/// A kernel is read into a buffer of its own from where it was uploaded to.
pub proof fn law_flow_kernels_are_read_one_by_one<S: Real>(
    sim: GpuFlowLenia<S>,
    device: &mut Device,
    queue: &mut Queue,
    k: usize,
    readback: usize,
)
    requires
        sim.total_elements * 8 <= u64::MAX,
        k * sim.total_elements * 8 <= u64::MAX,
        call_ensures(GpuFlowLenia::<S>::download_kernel, (&sim, device, queue, k), readback),
    ensures
        final(queue)@.drop_last() == old(queue)@,
        final(queue)@.len() == old(queue)@.len() + 1,
        is_new(old(device)@, final(device)@, readback, sim.total_elements * 8),
        reads(
            final(queue)@.last(),
            sim.kernel_buffer,
            k * sim.total_elements * 8,
            readback,
            sim.total_elements * 8,
        ),
{
    assert(final(queue)@.drop_last() =~= old(queue)@);
    let t = sim.total_elements as int;
    let n = k as int;
    assert(0 <= n * t * 8) by (nonlinear_arith)
        requires
            n >= 0,
            t >= 0,
    ;
}

/// A channel is read from where it was uploaded to, into the buffer that stands ready for it.
pub proof fn law_flow_channels_are_read_one_by_one<S: Real>(
    sim: GpuFlowLenia<S>,
    device: &Device,
    queue: &mut Queue,
    c: usize,
)
    requires
        sim.total_elements * 4 <= u64::MAX,
        c * sim.total_elements * 4 <= u64::MAX,
        call_ensures(GpuFlowLenia::<S>::download_channel, (&sim, device, queue, c), ()),
    ensures
        final(queue)@.drop_last() == old(queue)@,
        final(queue)@.len() == old(queue)@.len() + 1,
        reads(
            final(queue)@.last(),
            sim.channel_buffer,
            c * sim.total_elements * 4,
            sim.readback_buffer,
            sim.total_elements * 4,
        ),
{
    assert(final(queue)@.drop_last() =~= old(queue)@);
    let t = sim.total_elements as int;
    let n = c as int;
    assert(0 <= n * t * 4) by (nonlinear_arith)
        requires
            n >= 0,
            t >= 0,
    ;
}

} // verus!
