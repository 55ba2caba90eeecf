//! Plain descriptions of GPU resources and of the work submitted to them.
//!
//! A [`Device`] lists buffers, bind group layouts, pipelines and bind groups in
//! the order of their creation; an identifier is a position in its list. A
//! [`Queue`] lists buffer writes and submitted command lists. A host creates
//! the same resources on a real device and performs the same operations.

use crate::bytes::{cast_words, encode_words};
use vstd::prelude::*;

verus! {

use crate::bytes::{be_words, le_words};

/// What a buffer may be used for.
#[derive(Clone, Copy, PartialEq, Eq, Structural)]
pub enum Usage {
    /// Storage that is also copied to and from.
    Storage,
    /// Storage that is only filled by the host.
    Table,
    /// Uniform parameters.
    Uniform,
    /// Read by the host after a copy.
    Readback,
}

/// A buffer: its size in bytes and its use.
#[derive(Clone, Copy, PartialEq, Eq, Structural)]
pub struct BufferDesc {
    pub size: u64,
    pub usage: Usage,
}

/// How a shader sees a binding.
#[derive(Clone, Copy, PartialEq, Eq, Structural)]
pub enum BindKind {
    ReadOnly,
    ReadWrite,
    Uniform,
}

/// One slot of a bind group layout.
#[derive(Clone, Copy, PartialEq, Eq, Structural)]
pub struct LayoutEntry {
    pub binding: u32,
    pub kind: BindKind,
}

/// The shader entry points.
#[derive(Clone, Copy, PartialEq, Eq, Structural)]
pub enum Entry {
    CopyToConv,
    ComplexMul,
    FusedCmulIfftCol,
    NormalizeGrowth,
    FftRow,
    FftCol,
    IfftRow,
    IfftCol,
    ChannelAggregate,
    Sobel,
    SumChannels,
    FlowField,
    Reintegration,
    ReintegrationParams,
    MclGrowth,
    DiffusionPass1,
    DiffusionPass2,
    Render,
}

impl Entry {
    /// The name of the entry point in the shader.
    pub open spec fn named(self) -> Seq<char> {
        match self {
            Entry::CopyToConv => "copy_to_conv_main"@,
            Entry::ComplexMul => "complex_mul_main"@,
            Entry::FusedCmulIfftCol => "fused_cmul_ifft_col_main"@,
            Entry::NormalizeGrowth => "normalize_growth_main"@,
            Entry::FftRow => "fft_row_main"@,
            Entry::FftCol => "fft_col_main"@,
            Entry::IfftRow => "ifft_row_main"@,
            Entry::IfftCol => "ifft_col_main"@,
            Entry::ChannelAggregate => "channel_aggregate_main"@,
            Entry::Sobel => "sobel_main"@,
            Entry::SumChannels => "sum_channels_main"@,
            Entry::FlowField => "flow_field_main"@,
            Entry::Reintegration => "reintegration_main"@,
            Entry::ReintegrationParams => "reintegration_params_main"@,
            Entry::MclGrowth => "mcl_growth_main"@,
            Entry::DiffusionPass1 => "diffusion_pass1_main"@,
            Entry::DiffusionPass2 => "diffusion_pass2_main"@,
            Entry::Render => "render_main"@,
        }
    }

    /// The name of the entry point in the shader.
    pub fn name(&self) -> (name: &'static str)
        ensures
            name@ == self.named(),
    {
        match self {
            Entry::CopyToConv => "copy_to_conv_main",
            Entry::ComplexMul => "complex_mul_main",
            Entry::FusedCmulIfftCol => "fused_cmul_ifft_col_main",
            Entry::NormalizeGrowth => "normalize_growth_main",
            Entry::FftRow => "fft_row_main",
            Entry::FftCol => "fft_col_main",
            Entry::IfftRow => "ifft_row_main",
            Entry::IfftCol => "ifft_col_main",
            Entry::ChannelAggregate => "channel_aggregate_main",
            Entry::Sobel => "sobel_main",
            Entry::SumChannels => "sum_channels_main",
            Entry::FlowField => "flow_field_main",
            Entry::Reintegration => "reintegration_main",
            Entry::ReintegrationParams => "reintegration_params_main",
            Entry::MclGrowth => "mcl_growth_main",
            Entry::DiffusionPass1 => "diffusion_pass1_main",
            Entry::DiffusionPass2 => "diffusion_pass2_main",
            Entry::Render => "render_main",
        }
    }
}

/// A compute pipeline: an entry point behind one bind group layout.
#[derive(Clone, Copy, PartialEq, Eq, Structural)]
pub struct PipelineDesc {
    pub layout: usize,
    pub entry: Entry,
}

/// A buffer range behind a binding; no size means up to the end of the buffer.
#[derive(Clone, Copy, PartialEq, Eq, Structural)]
pub struct BindRange {
    pub binding: u32,
    pub buffer: usize,
    pub offset: u64,
    pub size: Option<u64>,
}

/// A bind group: ranges for the slots of one layout.
pub struct Group {
    pub layout: usize,
    pub entries: Vec<BindRange>,
}

/// A bind group as a value.
#[verifier::ext_equal]
pub struct GroupView {
    pub layout: usize,
    pub entries: Seq<BindRange>,
}

impl View for Group {
    type V = GroupView;

    open spec fn view(&self) -> GroupView {
        GroupView { layout: self.layout, entries: self.entries@ }
    }
}

/// One recorded GPU command.
#[derive(Clone, Copy, PartialEq, Eq, Structural)]
pub enum Command {
    /// Runs `workgroups` x 1 x 1 workgroups of a pipeline on a bind group.
    Dispatch { pipeline: usize, group: usize, workgroups: u32 },
    /// Copies `size` bytes from one buffer to another.
    Copy { src: usize, src_offset: u64, dst: usize, dst_offset: u64, size: u64 },
    /// Runs a one-dimensional transform along an axis over `lanes` lanes.
    Transform { axis: usize, inverse: bool, lanes: usize, lane_stride: u32, stride: u32 },
}

/// The byte order in which words are written.
#[derive(Clone, Copy, PartialEq, Eq, Structural)]
pub enum ByteOrder {
    Native,
    Little,
}

/// A write of 32-bit words into a buffer at a byte offset.
pub struct Upload {
    pub buffer: usize,
    pub offset: u64,
    pub order: ByteOrder,
    pub words: Vec<u32>,
}

/// A write as a value.
#[verifier::ext_equal]
pub struct UploadView {
    pub buffer: usize,
    pub offset: u64,
    pub order: ByteOrder,
    pub words: Seq<u32>,
}

impl View for Upload {
    type V = UploadView;

    open spec fn view(&self) -> UploadView {
        UploadView {
            buffer: self.buffer,
            offset: self.offset,
            order: self.order,
            words: self.words@,
        }
    }
}

impl Upload {
    /// The bytes to be written: four for each word, in the order that the write asks for.
    pub fn payload(&self) -> (out: Vec<u8>)
        ensures
            self.order == ByteOrder::Little ==> out@ == le_words(self.words@),
            self.order == ByteOrder::Native ==> out@ == le_words(self.words@) || out@ == be_words(
                self.words@,
            ),
    {
        match self.order {
            ByteOrder::Little => encode_words(self.words.as_slice()),
            ByteOrder::Native => cast_words(self.words.as_slice()),
        }
    }
}

/// One operation on a queue.
pub enum QueueOp {
    Write(Upload),
    Submit(Vec<Command>),
}

/// A queue operation as a value.
#[verifier::ext_equal]
pub enum QueueOpView {
    Write(UploadView),
    Submit(Seq<Command>),
}

impl View for QueueOp {
    type V = QueueOpView;

    open spec fn view(&self) -> QueueOpView {
        match self {
            QueueOp::Write(u) => QueueOpView::Write(u@),
            QueueOp::Submit(c) => QueueOpView::Submit(c@),
        }
    }
}

/// The GPU resources created so far.
pub struct Device {
    pub buffers: Vec<BufferDesc>,
    pub layouts: Vec<Vec<LayoutEntry>>,
    pub pipelines: Vec<PipelineDesc>,
    pub groups: Vec<Group>,
}

/// The resources of a device as a value.
#[verifier::ext_equal]
pub struct DeviceView {
    pub buffers: Seq<BufferDesc>,
    pub layouts: Seq<Seq<LayoutEntry>>,
    pub pipelines: Seq<PipelineDesc>,
    pub groups: Seq<GroupView>,
}

impl View for Device {
    type V = DeviceView;

    open spec fn view(&self) -> DeviceView {
        DeviceView {
            buffers: self.buffers@,
            layouts: self.layouts@.map_values(|l: Vec<LayoutEntry>| l@),
            pipelines: self.pipelines@,
            groups: self.groups@.map_values(|g: Group| g@),
        }
    }
}

/// Whether a buffer of this use may stand behind a binding of this kind.
pub open spec fn bindable(usage: Usage, kind: BindKind) -> bool {
    match kind {
        BindKind::Uniform => usage == Usage::Uniform,
        BindKind::ReadOnly => usage == Usage::Storage || usage == Usage::Table,
        BindKind::ReadWrite => usage == Usage::Storage || usage == Usage::Table,
    }
}

/// Whether a buffer of this use may be read by a copy.
pub open spec fn copyable_from(usage: Usage) -> bool {
    usage == Usage::Storage
}

/// Whether a range lies inside a buffer of the given size.
pub open spec fn range_fits(range: BindRange, size: u64) -> bool {
    match range.size {
        Some(s) => 0 < s && range.offset + s <= size,
        None => range.offset <= size,
    }
}

impl DeviceView {
    /// The device with further resources behind those it has.
    pub open spec fn grown(
        self,
        buffers: Seq<BufferDesc>,
        layouts: Seq<Seq<LayoutEntry>>,
        pipelines: Seq<PipelineDesc>,
        groups: Seq<GroupView>,
    ) -> DeviceView {
        DeviceView {
            buffers: self.buffers + buffers,
            layouts: self.layouts + layouts,
            pipelines: self.pipelines + pipelines,
            groups: self.groups + groups,
        }
    }

    /// Whether buffer `b` exists, has exactly `size` bytes and serves as storage.
    pub open spec fn storage(self, b: usize, size: int) -> bool {
        &&& b < self.buffers.len()
        &&& self.buffers[b as int].usage == Usage::Storage
        &&& self.buffers[b as int].size == size
    }

    /// Whether a buffer exists and serves as storage.
    pub open spec fn is_storage(self, b: usize) -> bool {
        b < self.buffers.len() && self.buffers[b as int].usage == Usage::Storage
    }

    /// Whether range `e` may stand behind slot `l`.
    pub open spec fn slot_fits(self, l: LayoutEntry, e: BindRange) -> bool {
        &&& l.binding == e.binding
        &&& e.buffer < self.buffers.len()
        &&& bindable(self.buffers[e.buffer as int].usage, l.kind)
        &&& range_fits(e, self.buffers[e.buffer as int].size)
    }

    /// Whether a group fills the slots of its layout with ranges that fit.
    pub open spec fn group_fits(self, g: GroupView) -> bool {
        &&& g.layout < self.layouts.len()
        &&& g.entries.len() == self.layouts[g.layout as int].len()
        &&& forall|t: int|
            0 <= t < g.entries.len() ==> self.slot_fits(
                self.layouts[g.layout as int][t],
                #[trigger] g.entries[t],
            )
    }

    /// Whether every pipeline and every group refers to what exists and fits.
    pub open spec fn wf(self) -> bool {
        &&& forall|p: int|
            0 <= p < self.pipelines.len() ==> (#[trigger] self.pipelines[p]).layout
                < self.layouts.len()
        &&& forall|g: int| 0 <= g < self.groups.len() ==> self.group_fits(#[trigger] self.groups[g])
    }

    /// Whether a pipeline may run on a bind group.
    pub open spec fn dispatch_fits(self, pipeline: usize, group: usize) -> bool {
        &&& pipeline < self.pipelines.len()
        &&& group < self.groups.len()
        &&& self.pipelines[pipeline as int].layout == self.groups[group as int].layout
    }

    /// Whether this device has all that another one had, under the same identifiers.
    #[verifier::opaque]
    pub open spec fn extends(self, before: DeviceView) -> bool {
        &&& before.buffers.is_prefix_of(self.buffers)
        &&& before.layouts.is_prefix_of(self.layouts)
        &&& before.pipelines.is_prefix_of(self.pipelines)
        &&& before.groups.is_prefix_of(self.groups)
    }

    /// Whether a command would pass validation on this device.
    pub open spec fn command_fits(self, c: Command) -> bool {
        match c {
            Command::Dispatch { pipeline, group, workgroups } => self.dispatch_fits(
                pipeline,
                group,
            ),
            Command::Copy { src, src_offset, dst, dst_offset, size } => {
                &&& src < self.buffers.len()
                &&& dst < self.buffers.len()
                &&& src != dst
                &&& copyable_from(self.buffers[src as int].usage)
                &&& src_offset + size <= self.buffers[src as int].size
                &&& dst_offset + size <= self.buffers[dst as int].size
                &&& size % 4 == 0
            },
            Command::Transform { .. } => true,
        }
    }

    /// Whether every submission of a list would pass validation on this device.
    pub open spec fn submissions_fit(self, ops: Seq<QueueOpView>) -> bool {
        forall|t: int|
            0 <= t < ops.len() ==> match #[trigger] ops[t] {
                QueueOpView::Submit(c) => self.commands_fit(c),
                QueueOpView::Write(_) => true,
            }
    }

    /// Whether every command of a list would pass validation on this device.
    pub open spec fn commands_fit(self, cs: Seq<Command>) -> bool {
        forall|t: int| 0 <= t < cs.len() ==> self.command_fits(#[trigger] cs[t])
    }
}

/// A write into a buffer as a queue operation.
pub open spec fn written(
    buffer: usize,
    offset: u64,
    order: ByteOrder,
    words: Seq<u32>,
) -> QueueOpView {
    QueueOpView::Write(UploadView { buffer, offset, order, words })
}

impl Device {
    /// Every list of a device is short enough for its identifiers.
    pub proof fn lemma_lengths(&self)
        ensures
            self@.buffers.len() <= usize::MAX,
            self@.layouts.len() <= usize::MAX,
            self@.pipelines.len() <= usize::MAX,
            self@.groups.len() <= usize::MAX,
    {
        assert(self@.buffers.len() == self.buffers.len());
        assert(self@.layouts.len() == self.layouts.len());
        assert(self@.pipelines.len() == self.pipelines.len());
        assert(self@.groups.len() == self.groups.len());
    }

    /// A device with no resources.
    pub fn new() -> (d: Device)
        ensures
            d@ == (DeviceView {
                buffers: seq![],
                layouts: seq![],
                pipelines: seq![],
                groups: seq![],
            }),
            d@.wf(),
    {
        let d = Device {
            buffers: Vec::new(),
            layouts: Vec::new(),
            pipelines: Vec::new(),
            groups: Vec::new(),
        };
        assert(d@.layouts =~= seq![]);
        assert(d@.groups =~= seq![]);
        d
    }

    /// Adds a buffer and returns its identifier.
    pub fn create_buffer(&mut self, size: u64, usage: Usage) -> (id: usize)
        ensures
            id == old(self)@.buffers.len(),
            final(self)@ == (DeviceView {
                buffers: old(self)@.buffers.push(BufferDesc { size, usage }),
                ..old(self)@
            }),
            old(self)@.wf() ==> final(self)@.wf(),
    {
        let id: usize = self.buffers.len();
        self.buffers.push(BufferDesc { size, usage });
        proof {
            let v = old(self)@;
            assert(self@.buffers =~= v.buffers.push(BufferDesc { size, usage }));
            if v.wf() {
                lemma_buffers_keep_wf(v, self@);
            }
        }
        id
    }

    /// Adds a bind group layout and returns its identifier.
    pub fn create_bind_group_layout(&mut self, entries: Vec<LayoutEntry>) -> (id: usize)
        ensures
            id == old(self)@.layouts.len(),
            final(self)@ == (DeviceView {
                layouts: old(self)@.layouts.push(entries@),
                ..old(self)@
            }),
            old(self)@.wf() ==> final(self)@.wf(),
    {
        let id: usize = self.layouts.len();
        let ghost added = entries@;
        self.layouts.push(entries);
        proof {
            let v = old(self)@;
            assert(self@.layouts =~= v.layouts.push(added));
            if v.wf() {
                assert forall|g: int| 0 <= g < self@.groups.len() implies self@.group_fits(
                    #[trigger] self@.groups[g],
                ) by {
                    assert(v.group_fits(v.groups[g]));
                }
            }
        }
        id
    }

    /// Adds a compute pipeline and returns its identifier.
    pub fn create_compute_pipeline(&mut self, layout: usize, entry: Entry) -> (id: usize)
        requires
            layout < old(self)@.layouts.len(),
        ensures
            id == old(self)@.pipelines.len(),
            final(self)@ == (DeviceView {
                pipelines: old(self)@.pipelines.push(PipelineDesc { layout, entry }),
                ..old(self)@
            }),
            old(self)@.wf() ==> final(self)@.wf(),
    {
        let id: usize = self.pipelines.len();
        self.pipelines.push(PipelineDesc { layout, entry });
        proof {
            let v = old(self)@;
            assert(self@.pipelines =~= v.pipelines.push(PipelineDesc { layout, entry }));
            if v.wf() {
                assert forall|g: int| 0 <= g < self@.groups.len() implies self@.group_fits(
                    #[trigger] self@.groups[g],
                ) by {
                    assert(v.group_fits(v.groups[g]));
                }
            }
        }
        id
    }

    /// Adds a bind group that fits its layout and returns its identifier.
    pub fn create_bind_group(&mut self, layout: usize, entries: Vec<BindRange>) -> (id: usize)
        requires
            old(self)@.group_fits(GroupView { layout, entries: entries@ }),
        ensures
            id == old(self)@.groups.len(),
            final(self)@ == (DeviceView {
                groups: old(self)@.groups.push(GroupView { layout, entries: entries@ }),
                ..old(self)@
            }),
            old(self)@.wf() ==> final(self)@.wf(),
    {
        let id: usize = self.groups.len();
        let ghost added = GroupView { layout, entries: entries@ };
        self.groups.push(Group { layout, entries });
        proof {
            let v = old(self)@;
            assert(self@.groups =~= v.groups.push(added));
            if v.wf() {
                assert forall|g: int| 0 <= g < self@.groups.len() implies self@.group_fits(
                    #[trigger] self@.groups[g],
                ) by {
                    if g < v.groups.len() {
                        assert(v.group_fits(v.groups[g]));
                    } else {
                        assert(self@.groups[g] == added);
                    }
                }
            }
        }
        id
    }
}

/// More buffers leave every group fitting.
proof fn lemma_buffers_keep_wf(v: DeviceView, w: DeviceView)
    requires
        v.wf(),
        w.layouts == v.layouts,
        w.pipelines == v.pipelines,
        w.groups == v.groups,
        v.buffers.is_prefix_of(w.buffers),
    ensures
        w.wf(),
{
    assert forall|g: int| 0 <= g < w.groups.len() implies w.group_fits(#[trigger] w.groups[g]) by {
        let gr = v.groups[g];
        assert(v.group_fits(gr));
        assert forall|t: int| 0 <= t < gr.entries.len() implies w.slot_fits(
            w.layouts[gr.layout as int][t],
            #[trigger] gr.entries[t],
        ) by {
            let e = gr.entries[t];
            assert(v.slot_fits(v.layouts[gr.layout as int][t], e));
            assert(w.buffers[e.buffer as int] == v.buffers[e.buffer as int]);
        }
    }
}

/// Commands being recorded.
pub struct CommandEncoder {
    pub commands: Vec<Command>,
}

impl View for CommandEncoder {
    type V = Seq<Command>;

    open spec fn view(&self) -> Seq<Command> {
        self.commands@
    }
}

impl CommandEncoder {
    /// An encoder with nothing recorded.
    pub fn new() -> (e: CommandEncoder)
        ensures
            e@ == Seq::<Command>::empty(),
    {
        CommandEncoder { commands: Vec::new() }
    }

    /// Records a dispatch.
    pub fn dispatch(&mut self, pipeline: usize, group: usize, workgroups: u32)
        ensures
            final(self)@ == old(self)@.push(Command::Dispatch { pipeline, group, workgroups }),
    {
        self.commands.push(Command::Dispatch { pipeline, group, workgroups });
    }

    /// Records a copy between buffers.
    pub fn copy_buffer_to_buffer(
        &mut self,
        src: usize,
        src_offset: u64,
        dst: usize,
        dst_offset: u64,
        size: u64,
    )
        ensures
            final(self)@ == old(self)@.push(
                Command::Copy { src, src_offset, dst, dst_offset, size },
            ),
    {
        self.commands.push(Command::Copy { src, src_offset, dst, dst_offset, size });
    }

    /// Records a one-dimensional transform.
    pub fn transform(
        &mut self,
        axis: usize,
        inverse: bool,
        lanes: usize,
        lane_stride: u32,
        stride: u32,
    )
        ensures
            final(self)@ == old(self)@.push(
                Command::Transform { axis, inverse, lanes, lane_stride, stride },
            ),
    {
        self.commands.push(Command::Transform { axis, inverse, lanes, lane_stride, stride });
    }
}

/// The operations handed to the GPU, in order.
pub struct Queue {
    pub ops: Vec<QueueOp>,
}

impl View for Queue {
    type V = Seq<QueueOpView>;

    open spec fn view(&self) -> Seq<QueueOpView> {
        self.ops@.map_values(|o: QueueOp| o@)
    }
}

impl Queue {
    /// A queue with nothing on it.
    pub fn new() -> (q: Queue)
        ensures
            q@ == Seq::<QueueOpView>::empty(),
    {
        let q = Queue { ops: Vec::new() };
        assert(q@ =~= Seq::<QueueOpView>::empty());
        q
    }

    /// Appends a write of words at a byte offset.
    pub fn write_buffer(&mut self, buffer: usize, offset: u64, order: ByteOrder, words: Vec<u32>)
        ensures
            final(self)@ == old(self)@.push(written(buffer, offset, order, words@)),
    {
        let ghost w = words@;
        self.ops.push(QueueOp::Write(Upload { buffer, offset, order, words }));
        assert(self@ =~= old(self)@.push(written(buffer, offset, order, w)));
    }

    /// Appends the recorded commands as one submission.
    pub fn submit(&mut self, encoder: CommandEncoder)
        ensures
            final(self)@ == old(self)@.push(QueueOpView::Submit(encoder@)),
    {
        let ghost c = encoder@;
        self.ops.push(QueueOp::Submit(encoder.commands));
        assert(self@ =~= old(self)@.push(QueueOpView::Submit(c)));
    }
}

/// Slot `i` of `n` equal slots lies within their total.
pub proof fn lemma_slot(i: int, n: int, len: int, unit: int)
    by (nonlinear_arith)
    requires
        0 <= i < n,
        0 <= len,
        1 <= unit,
    ensures
        0 <= i * len <= n * len,
        0 <= n * len <= n * len * unit,
        0 <= i * len * unit,
        0 <= len * unit,
        i * len * unit + len * unit <= n * len * unit,
{
}

/// Having more is transitive.
pub proof fn lemma_extends_trans(a: DeviceView, b: DeviceView, c: DeviceView)
    requires
        b.extends(a),
        c.extends(b),
    ensures
        c.extends(a),
{
    reveal(DeviceView::extends);
}

/// A run that fits a device fits it still once the device has more.
pub proof fn lemma_dispatch_extend(d: DeviceView, e: DeviceView, pipeline: usize, group: usize)
    requires
        d.dispatch_fits(pipeline, group),
        e.extends(d),
    ensures
        e.dispatch_fits(pipeline, group),
{
    reveal(DeviceView::extends);
}

/// The groups on which a pipeline runs in a list of commands, in order.
pub open spec fn groups_run(cs: Seq<Command>, pipeline: usize) -> Seq<usize>
    decreases cs.len(),
{
    if cs.len() == 0 {
        seq![]
    } else {
        let rest = groups_run(cs.drop_last(), pipeline);
        match cs.last() {
            Command::Dispatch { pipeline: p, group, .. } => if p == pipeline {
                rest.push(group)
            } else {
                rest
            },
            _ => rest,
        }
    }
}

/// The groups run by two lists in turn.
pub proof fn lemma_groups_run_add(a: Seq<Command>, b: Seq<Command>, pipeline: usize)
    ensures
        groups_run(a + b, pipeline) == groups_run(a, pipeline) + groups_run(b, pipeline),
    decreases b.len(),
{
    if b.len() == 0 {
        assert(a + b =~= a);
    } else {
        lemma_groups_run_add(a, b.drop_last(), pipeline);
        assert((a + b).drop_last() =~= a + b.drop_last());
        assert((a + b).last() == b.last());
        assert(groups_run(a + b, pipeline) =~= groups_run(a, pipeline) + groups_run(b, pipeline));
    }
}

/// The commands of all submissions on a queue, in order.
pub open spec fn submitted(ops: Seq<QueueOpView>) -> Seq<Command>
    decreases ops.len(),
{
    if ops.len() == 0 {
        seq![]
    } else {
        submitted(ops.drop_last()) + match ops.last() {
            QueueOpView::Submit(c) => c,
            QueueOpView::Write(_) => seq![],
        }
    }
}

/// How many workgroups cover `n` elements.
pub open spec fn workgroups(n: int) -> u32 {
    ((n + 255) / 256) as u32
}

/// One workgroup for each 256 elements reaches every element, and one fewer would not.
pub proof fn law_workgroups_cover(n: int)
    requires
        0 <= n <= u32::MAX - 255,
    ensures
        workgroups(n) * 256 >= n,
        n > 0 ==> (workgroups(n) - 1) * 256 < n,
        n == 0 ==> workgroups(n) == 0,
{
}

/// A copy of a list of sizes.
pub fn copy_sizes(list: &[usize]) -> (copy: Vec<usize>)
    ensures
        copy@ == list@,
{
    let mut copy: Vec<usize> = Vec::new();
    let mut i: usize = 0;
    while i < list.len()
        invariant
            i <= list@.len(),
            copy@ == list@.take(i as int),
        decreases list@.len() - i,
    {
        copy.push(list[i]);
        assert(copy@ =~= list@.take(i + 1));
        i = i + 1;
    }
    assert(list@.take(i as int) =~= list@);
    copy
}

/// A copy of a list of words.
pub fn copy_words(list: &[u32]) -> (copy: Vec<u32>)
    ensures
        copy@ == list@,
{
    let mut copy: Vec<u32> = Vec::new();
    let mut i: usize = 0;
    while i < list.len()
        invariant
            i <= list@.len(),
            copy@ == list@.take(i as int),
        decreases list@.len() - i,
    {
        copy.push(list[i]);
        assert(copy@ =~= list@.take(i + 1));
        i = i + 1;
    }
    assert(list@.take(i as int) =~= list@);
    copy
}

/// A read-only storage slot.
pub fn sro(b: u32) -> (e: LayoutEntry)
    ensures
        e == ro(b),
{
    LayoutEntry { binding: b, kind: BindKind::ReadOnly }
}

/// A writable storage slot.
pub fn srw(b: u32) -> (e: LayoutEntry)
    ensures
        e == rw(b),
{
    LayoutEntry { binding: b, kind: BindKind::ReadWrite }
}

/// A uniform slot.
pub fn unif(b: u32) -> (e: LayoutEntry)
    ensures
        e == un(b),
{
    LayoutEntry { binding: b, kind: BindKind::Uniform }
}

/// The read-only slot `b`.
pub open spec fn ro(b: u32) -> LayoutEntry {
    LayoutEntry { binding: b, kind: BindKind::ReadOnly }
}

/// The writable slot `b`.
pub open spec fn rw(b: u32) -> LayoutEntry {
    LayoutEntry { binding: b, kind: BindKind::ReadWrite }
}

/// The uniform slot `b`.
pub open spec fn un(b: u32) -> LayoutEntry {
    LayoutEntry { binding: b, kind: BindKind::Uniform }
}

/// The whole of a buffer behind a binding.
pub open spec fn all_of(binding: u32, buffer: usize) -> BindRange {
    BindRange { binding, buffer, offset: 0, size: None }
}

/// Part of a buffer behind a binding; an empty part stands for the rest of it.
pub open spec fn part_of(binding: u32, buffer: usize, offset: u64, size: u64) -> BindRange {
    BindRange { binding, buffer, offset, size: if size == 0 { None } else { Some(size) } }
}

/// Binds the whole of a buffer.
pub fn whole(binding: u32, buffer: usize) -> (e: BindRange)
    ensures
        e == all_of(binding, buffer),
{
    BindRange { binding, buffer, offset: 0, size: None }
}

/// Binds part of a buffer.
pub fn part(binding: u32, buffer: usize, offset: u64, size: u64) -> (e: BindRange)
    ensures
        e == part_of(binding, buffer, offset, size),
{
    BindRange { binding, buffer, offset, size: if size == 0 { None } else { Some(size) } }
}

} // verus!
