use lenia_ca::complex::{pack_complex, pack_real, Complex};
use lenia_ca::fl;
use lenia_ca::fl::convolution::kernels_by_channel;
use lenia_ca::fl::phase2::flatten_targets;
use lenia_ca::gpu::{
    BindKind, ByteOrder, Command, Device, Entry, Queue, QueueOp, Usage,
};
use lenia_ca::gpu_flow_lenia::{pair_up, GpuFlowLenia};
use lenia_ca::ml;
use lenia_ca::ml::render::RenderPhase;
use lenia_ca::scalar::Real;
use lenia_ca::twiddle::{generate_bitrev, generate_twiddles, stockham_twiddles};

#[derive(Clone, Copy, Debug, PartialEq, PartialOrd)]
struct F32(f32);

impl Real for F32 {
    fn integer(n: i64) -> Self {
        F32(n as f32)
    }
    fn count(n: usize) -> Self {
        F32(n as f32)
    }
    fn decimal(digits: i64, places: u32) -> Self {
        F32(format!("{}e-{}", digits, places).parse().unwrap())
    }
    fn pi() -> Self {
        F32(std::f32::consts::PI)
    }
    fn tau() -> Self {
        F32(std::f32::consts::TAU)
    }
    fn infinity() -> Self {
        F32(f32::INFINITY)
    }
    fn of_bits(w: u32) -> Self {
        F32(f32::from_bits(w) as f32)
    }
    fn plus(self, other: Self) -> Self {
        F32(self.0 + other.0)
    }
    fn minus(self, other: Self) -> Self {
        F32(self.0 - other.0)
    }
    fn times(self, other: Self) -> Self {
        F32(self.0 * other.0)
    }
    fn over(self, other: Self) -> Self {
        F32(self.0 / other.0)
    }
    fn rem(self, other: Self) -> Self {
        F32(self.0 % other.0)
    }
    fn neg(self) -> Self {
        F32(-self.0)
    }
    fn powi(self, n: i32) -> Self {
        F32(self.0.powi(n))
    }
    fn powf(self, e: Self) -> Self {
        F32(self.0.powf(e.0))
    }
    fn exp(self) -> Self {
        F32(self.0.exp())
    }
    fn sqrt(self) -> Self {
        F32(self.0.sqrt())
    }
    fn tanh(self) -> Self {
        F32(self.0.tanh())
    }
    fn sin(self) -> Self {
        F32(self.0.sin())
    }
    fn cos(self) -> Self {
        F32(self.0.cos())
    }
    fn abs(self) -> Self {
        F32(self.0.abs())
    }
    fn least(self, other: Self) -> Self {
        F32(self.0.min(other.0))
    }
    fn greatest(self, other: Self) -> Self {
        F32(self.0.max(other.0))
    }
    fn clamp(self, lo: Self, hi: Self) -> Self {
        F32(self.0.clamp(lo.0, hi.0))
    }
    fn below(self, other: Self) -> bool {
        self.0 < other.0
    }
    fn at_most(self, other: Self) -> bool {
        self.0 <= other.0
    }
    fn to_size(self) -> usize {
        self.0 as usize
    }
    fn to_byte(self) -> u8 {
        self.0 as u8
    }
    fn to_sample(self) -> i16 {
        self.0 as i16
    }
    fn bits(self) -> u32 {
        (self.0 as f32).to_bits()
    }
}
#[derive(Clone, Copy, Debug, PartialEq, PartialOrd)]
struct F64(f64);

impl Real for F64 {
    fn integer(n: i64) -> Self {
        F64(n as f64)
    }
    fn count(n: usize) -> Self {
        F64(n as f64)
    }
    fn decimal(digits: i64, places: u32) -> Self {
        F64(format!("{}e-{}", digits, places).parse().unwrap())
    }
    fn pi() -> Self {
        F64(std::f64::consts::PI)
    }
    fn tau() -> Self {
        F64(std::f64::consts::TAU)
    }
    fn infinity() -> Self {
        F64(f64::INFINITY)
    }
    fn of_bits(w: u32) -> Self {
        F64(f32::from_bits(w) as f64)
    }
    fn plus(self, other: Self) -> Self {
        F64(self.0 + other.0)
    }
    fn minus(self, other: Self) -> Self {
        F64(self.0 - other.0)
    }
    fn times(self, other: Self) -> Self {
        F64(self.0 * other.0)
    }
    fn over(self, other: Self) -> Self {
        F64(self.0 / other.0)
    }
    fn rem(self, other: Self) -> Self {
        F64(self.0 % other.0)
    }
    fn neg(self) -> Self {
        F64(-self.0)
    }
    fn powi(self, n: i32) -> Self {
        F64(self.0.powi(n))
    }
    fn powf(self, e: Self) -> Self {
        F64(self.0.powf(e.0))
    }
    fn exp(self) -> Self {
        F64(self.0.exp())
    }
    fn sqrt(self) -> Self {
        F64(self.0.sqrt())
    }
    fn tanh(self) -> Self {
        F64(self.0.tanh())
    }
    fn sin(self) -> Self {
        F64(self.0.sin())
    }
    fn cos(self) -> Self {
        F64(self.0.cos())
    }
    fn abs(self) -> Self {
        F64(self.0.abs())
    }
    fn least(self, other: Self) -> Self {
        F64(self.0.min(other.0))
    }
    fn greatest(self, other: Self) -> Self {
        F64(self.0.max(other.0))
    }
    fn clamp(self, lo: Self, hi: Self) -> Self {
        F64(self.0.clamp(lo.0, hi.0))
    }
    fn below(self, other: Self) -> bool {
        self.0 < other.0
    }
    fn at_most(self, other: Self) -> bool {
        self.0 <= other.0
    }
    fn to_size(self) -> usize {
        self.0 as usize
    }
    fn to_byte(self) -> u8 {
        self.0 as u8
    }
    fn to_sample(self) -> i16 {
        self.0 as i16
    }
    fn bits(self) -> u32 {
        (self.0 as f32).to_bits()
    }
}

fn reals(list: &[f32]) -> Vec<F32> {
    list.iter().map(|&x| F32(x)).collect()
}

fn commands(op: &QueueOp) -> &Vec<Command> {
    match op {
        QueueOp::Submit(c) => c,
        QueueOp::Write(_) => panic!("not a submission"),
    }
}

fn runs(device: &Device, list: &[Command], entry: Entry) -> usize {
    list.iter()
        .filter(|c| match c {
            Command::Dispatch { pipeline, .. } => device.pipelines[*pipeline].entry == entry,
            _ => false,
        })
        .count()
}

fn check(device: &Device, list: &[Command]) {
    for c in list {
        match c {
            Command::Dispatch { pipeline, group, .. } => {
                let layout = device.pipelines[*pipeline].layout;
                let g = &device.groups[*group];
                assert_eq!(g.layout, layout);
                assert_eq!(g.entries.len(), device.layouts[layout].len());
                for (slot, e) in device.layouts[layout].iter().zip(g.entries.iter()) {
                    assert_eq!(slot.binding, e.binding);
                    let b = &device.buffers[e.buffer];
                    assert_eq!(slot.kind == BindKind::Uniform, b.usage == Usage::Uniform);
                    assert!(e.offset + e.size.unwrap_or(0) <= b.size);
                }
            }
            Command::Copy { src, src_offset, dst, dst_offset, size } => {
                assert!(src_offset + size <= device.buffers[*src].size);
                assert!(dst_offset + size <= device.buffers[*dst].size);
                assert!(src != dst);
            }
            Command::Transform { .. } => {}
        }
    }
}

#[test]
fn bit_reversal_of_eight() {
    assert_eq!(generate_bitrev(8), vec![0, 4, 2, 6, 1, 5, 3, 7]);
}

#[test]
fn bit_reversal_is_its_own_inverse() {
    let r = generate_bitrev(64);
    for i in 0..64 {
        assert_eq!(r[r[i] as usize] as usize, i);
    }
}

#[test]
fn twiddles_are_cosines_and_sines() {
    let t = generate_twiddles::<F32>(4);
    // The first factor of the first stage is one.
    assert_eq!(f32::from_bits(t[0]), 1.0);
    assert_eq!(f32::from_bits(t[1]).abs(), 0.0);
    let s = stockham_twiddles::<F64>(4);
    assert_eq!(f32::from_bits(s[0]), 1.0);
    assert_eq!(f32::from_bits(s[1]).abs(), 0.0);
}

#[test]
fn packed_numbers() {
    let z = Complex { re: F32(1.0), im: F32(-2.0) };
    assert_eq!(pack_complex(&[z]), vec![1.0f32.to_bits(), (-2.0f32).to_bits()]);
    assert_eq!(pack_real(&[F64(0.1)]), vec![0.1f32.to_bits()]);
    let pairs = pair_up(&[F32(1.0), F32(2.0), F32(3.0), F32(4.0)]);
    assert_eq!((pairs[1].re.0, pairs[1].im.0), (3.0, 4.0));
}

#[test]
fn shaders_by_size() {
    assert_eq!(fl::select_compute_shader(64), "fl/shaders/compute_64.wgsl");
    assert_eq!(fl::select_compute_shader(512), "fl/shaders/compute_512.wgsl");
    assert_eq!(ml::select_compute_shader(2048), "ml/shaders/compute_2048.wgsl");
}

#[test]
fn kernels_grouped_by_channel() {
    assert_eq!(kernels_by_channel(&[1, 0, 1], 3, 2), vec![vec![1], vec![0, 2]]);
    let flat = flatten_targets(&[vec![0, 2], vec![], vec![1]], 3);
    assert_eq!(flat.0, vec![0, 2, 1]);
    assert_eq!(flat.1, vec![0, 2, 2, 3]);
}

fn flow_sim(device: &mut Device, queue: &mut Queue) -> fl::GpuFlowLenia {
    fl::GpuFlowLenia::new::<F64, F32>(
        device,
        queue,
        &[64, 64],
        2,
        3,
        &[0, 1, 0],
        &[vec![0], vec![1, 2]],
        &reals(&[0.1, 0.2, 0.3]),
        &reals(&[0.01, 0.02, 0.03]),
        &reals(&[0.5, 0.6, 0.7]),
        F32(0.2),
        5,
        F32(0.65),
    )
}

#[test]
fn flow_step() {
    let mut device = Device::new();
    let mut queue = Queue::new();
    let sim = flow_sim(&mut device, &mut queue);
    assert!(queue.ops.iter().all(|op| matches!(op, QueueOp::Write(_))));
    let before = queue.ops.len();
    sim.iterate(&device, &mut queue);
    assert_eq!(queue.ops.len(), before + 1);
    let list = commands(&queue.ops[before]);
    check(&device, list);
    assert_eq!(runs(&device, list, Entry::NormalizeGrowth), 3);
    assert_eq!(runs(&device, list, Entry::ComplexMul), 3);
    assert_eq!(runs(&device, list, Entry::CopyToConv), 2);
    assert_eq!(runs(&device, list, Entry::ChannelAggregate), 1);
    assert_eq!(runs(&device, list, Entry::Sobel), 2);
    assert_eq!(runs(&device, list, Entry::FlowField), 1);
    assert_eq!(runs(&device, list, Entry::Reintegration), 1);
}

#[test]
fn flow_steps_repeat() {
    let mut device = Device::new();
    let mut queue = Queue::new();
    let sim = flow_sim(&mut device, &mut queue);
    let before = queue.ops.len();
    sim.run_steps(&device, &mut queue, 3);
    assert_eq!(queue.ops.len(), before + 3);
    assert!(commands(&queue.ops[before]) == commands(&queue.ops[before + 2]));
}

#[test]
fn flow_timed_iteration_is_an_iteration() {
    let mut device = Device::new();
    let mut queue = Queue::new();
    let sim = flow_sim(&mut device, &mut queue);
    let before = queue.ops.len();
    sim.iterate(&device, &mut queue);
    sim.timed_iterate(&device, &mut queue);
    assert_eq!(queue.ops.len(), before + 6);
    let timed: Vec<Command> =
        queue.ops[before + 1..].iter().flat_map(|op| commands(op).iter().copied()).collect();
    assert!(*commands(&queue.ops[before]) == timed);
}

#[test]
fn flow_uploads_and_downloads() {
    let mut device = Device::new();
    let mut queue = Queue::new();
    let sim = flow_sim(&mut device, &mut queue);
    let before = queue.ops.len();
    sim.upload_channel(&mut queue, &vec![F64(0.5); 64 * 64], 1);
    match &queue.ops[before] {
        QueueOp::Write(u) => {
            assert_eq!(u.buffer, sim.channel_buffer());
            assert_eq!(u.offset, 64 * 64 * 4);
            assert_eq!(u.words, vec![0.5f32.to_bits(); 64 * 64]);
        }
        QueueOp::Submit(_) => panic!("not a write"),
    }
    let z = Complex { re: F32(1.0), im: F32(2.0) };
    sim.set_kernel(&mut queue, &vec![z; 64 * 64], 2);
    match &queue.ops[before + 1] {
        QueueOp::Write(u) => {
            assert_eq!(u.offset, 2 * 64 * 64 * 8);
            assert_eq!(u.words[0..2], [1.0f32.to_bits(), 2.0f32.to_bits()]);
        }
        QueueOp::Submit(_) => panic!("not a write"),
    }
    let readback = sim.download_all_channels(&mut device, &mut queue);
    assert_eq!(device.buffers[readback].size, 2 * 64 * 64 * 4);
    assert!(device.buffers[readback].usage == Usage::Readback);
    check(&device, commands(&queue.ops[before + 2]));
}

fn mace_sim(device: &mut Device, queue: &mut Queue) -> ml::GpuMaceLenia {
    ml::GpuMaceLenia::new::<F32>(
        device,
        queue,
        &[64, 64],
        3,
        9,
        &[0, 1, 2, 0, 1, 2, 0, 1, 2],
        &[0, 0, 0, 1, 1, 1, 2, 2, 2],
        &reals(&[0.1; 9]),
        &reals(&[0.01; 9]),
        &reals(&[0.5; 9]),
        F32(1.0),
    )
}

#[test]
fn mace_step() {
    let mut device = Device::new();
    let mut queue = Queue::new();
    let sim = mace_sim(&mut device, &mut queue);
    let before = queue.ops.len();
    sim.iterate(&mut device, &mut queue);
    let list = commands(&queue.ops[before]);
    check(&device, list);
    assert_eq!(runs(&device, list, Entry::MclGrowth), 1);
    assert_eq!(runs(&device, list, Entry::DiffusionPass1), 1);
    assert_eq!(runs(&device, list, Entry::DiffusionPass2), 1);
    assert!(matches!(list.last(), Some(Command::Copy { .. })));
}

#[test]
fn mace_timed_step_is_a_step() {
    let mut device = Device::new();
    let mut queue = Queue::new();
    let sim = mace_sim(&mut device, &mut queue);
    let mut device_b = Device::new();
    let mut queue_b = Queue::new();
    let sim_b = mace_sim(&mut device_b, &mut queue_b);
    let before = queue.ops.len();
    sim.iterate(&mut device, &mut queue);
    sim_b.timed_iterate(&mut device_b, &mut queue_b);
    let timed: Vec<Command> =
        queue_b.ops[before..].iter().flat_map(|op| commands(op).iter().copied()).collect();
    assert!(*commands(&queue.ops[before]) == timed);
}

#[test]
fn mace_steps_and_downloads() {
    let mut device = Device::new();
    let mut queue = Queue::new();
    let sim = mace_sim(&mut device, &mut queue);
    let before = queue.ops.len();
    sim.run_steps(&mut device, &mut queue, 2);
    assert_eq!(queue.ops.len(), before + 2);
    let conv = sim.download_conv_buffer(&mut device, &mut queue);
    assert_eq!(device.buffers[conv].size, 9 * 64 * 64 * 8);
    assert_eq!(ml::real_parts(&[1, 2, 3, 4], 2), vec![1, 3]);
}

#[test]
fn render_phase() {
    let mut device = Device::new();
    let mut queue = Queue::new();
    let sim = mace_sim(&mut device, &mut queue);
    let pixels = device.create_buffer(64 * 64 * 4, Usage::Storage);
    let phase =
        RenderPhase::new(&mut device, &mut queue, &[64, 64], 3, sim.channel_buffer(), pixels);
    let mut encoder = lenia_ca::gpu::CommandEncoder::new();
    phase.run(&mut encoder, 64 * 64);
    assert!(
        encoder.commands
            == vec![Command::Dispatch {
                pipeline: phase.pipeline,
                group: phase.bind_group,
                workgroups: 16,
            }]
    );
}

fn shared_sim(device: &mut Device, queue: &mut Queue) -> GpuFlowLenia<F32> {
    GpuFlowLenia::new(
        device,
        queue,
        &[8, 8],
        8,
        2,
        3,
        &[0, 0, 1],
        &[vec![0, 1], vec![2]],
        &reals(&[0.1, 0.2, 0.3]),
        &reals(&[0.01, 0.02, 0.03]),
        &reals(&[0.5, 0.6, 0.7]),
        F32(0.2),
        5,
        F32(0.65),
        F32(0.0),
        F32(0.0),
    )
}

#[test]
fn shared_sim_step() {
    let mut device = Device::new();
    let mut queue = Queue::new();
    let sim = shared_sim(&mut device, &mut queue);
    assert_eq!(sim.shape(), &[8, 8]);
    assert_eq!((sim.num_channels(), sim.num_kernels(), sim.total_elements()), (2, 3, 64));
    let before = queue.ops.len();
    sim.iterate(&mut device, &mut queue);
    for op in &queue.ops[before..] {
        if let QueueOp::Submit(c) = op {
            check(&device, c);
        }
    }
    let all: Vec<Command> = queue.ops[before..]
        .iter()
        .flat_map(|op| match op {
            QueueOp::Submit(c) => c.clone(),
            QueueOp::Write(_) => vec![],
        })
        .collect();
    // Every kernel is multiplied and grown, the first of a channel too.
    assert_eq!(runs(&device, &all, Entry::ComplexMul), 3);
    assert_eq!(runs(&device, &all, Entry::NormalizeGrowth), 3);
    assert_eq!(runs(&device, &all, Entry::CopyToConv), 2);
}

#[test]
fn shared_sim_parameters() {
    let mut device = Device::new();
    let mut queue = Queue::new();
    let mut sim = shared_sim(&mut device, &mut queue);
    let before = queue.ops.len();
    sim.set_dt(&mut queue, F32(0.1));
    assert_eq!(sim.dt.0, 0.1);
    sim.set_growth_param(&mut queue, 1, F32(0.4), F32(0.04), F32(0.9));
    assert_eq!(sim.kernel_m_slice()[1].0, 0.4);
    assert_eq!(sim.kernel_s_slice()[1].0, 0.04);
    assert_eq!(sim.kernel_h_slice()[1].0, 0.9);
    match &queue.ops[before + 1] {
        QueueOp::Write(u) => {
            assert_eq!(u.offset, fl::GP_STRIDE);
            assert!(u.order == ByteOrder::Native);
            assert_eq!(u.words[0], 0.4f32.to_bits());
        }
        QueueOp::Submit(_) => panic!("not a write"),
    }
    sim.set_all_growth_params(
        &mut queue,
        &reals(&[1.0, 2.0, 3.0]),
        &reals(&[4.0, 5.0, 6.0]),
        &reals(&[7.0, 8.0, 9.0]),
    );
    assert_eq!(sim.kernel_h_slice()[2].0, 9.0);
    assert_eq!(queue.ops.len(), before + 5);
    sim.reinit_channels(&mut queue, &[vec![F64(0.0); 64], vec![F64(1.0); 64]]);
    assert_eq!(queue.ops.len(), before + 7);
}

#[test]
fn shared_sim_downloads() {
    let mut device = Device::new();
    let mut queue = Queue::new();
    let sim = shared_sim(&mut device, &mut queue);
    let before = queue.ops.len();
    sim.download_channel(&device, &mut queue, 1);
    assert!(
        *commands(&queue.ops[before])
            == vec![Command::Copy {
                src: sim.channel_buffer(),
                src_offset: 256,
                dst: sim.readback_buffer,
                dst_offset: 0,
                size: 256,
            }]
    );
    let k = sim.download_kernel(&mut device, &mut queue, 2);
    assert_eq!(device.buffers[k].size, 64 * 8);
}

/// What the buffers hold after the writes and copies of a queue.
fn memory(device: &Device, queue: &Queue) -> Vec<Vec<u8>> {
    let mut mem: Vec<Vec<u8>> =
        device.buffers.iter().map(|b| vec![0u8; b.size as usize]).collect();
    for op in &queue.ops {
        match op {
            QueueOp::Write(u) => {
                let bytes = u.payload();
                let at = u.offset as usize;
                mem[u.buffer][at..at + bytes.len()].copy_from_slice(&bytes);
            }
            QueueOp::Submit(list) => {
                for c in list {
                    if let Command::Copy { src, src_offset, dst, dst_offset, size } = c {
                        let from = *src_offset as usize;
                        let to = *dst_offset as usize;
                        let bytes = mem[*src][from..from + *size as usize].to_vec();
                        mem[*dst][to..to + bytes.len()].copy_from_slice(&bytes);
                    }
                }
            }
        }
    }
    mem
}

fn floats(bytes: &[u8]) -> Vec<f32> {
    bytes.chunks(4).map(|b| f32::from_ne_bytes([b[0], b[1], b[2], b[3]])).collect()
}

#[test]
fn a_kernel_reads_back_as_it_was_set_last() {
    let mut device = Device::new();
    let mut queue = Queue::new();
    let sim = shared_sim(&mut device, &mut queue);
    let z = |x: f32| vec![Complex { re: F32(x), im: F32(-x) }; 64];
    sim.set_kernel(&mut queue, &z(1.0), 1);
    sim.set_kernel(&mut queue, &z(2.0), 2);
    sim.set_kernel(&mut queue, &z(3.0), 1);
    sim.set_kernel(&mut queue, &z(4.0), 0);
    let one = sim.download_kernel(&mut device, &mut queue, 1);
    let two = sim.download_kernel(&mut device, &mut queue, 2);
    let mem = memory(&device, &queue);
    assert_eq!(floats(&mem[one]), [3.0, -3.0].repeat(64));
    assert_eq!(floats(&mem[two]), [2.0, -2.0].repeat(64));
}

#[test]
fn channels_read_back_as_they_were_uploaded() {
    let mut device = Device::new();
    let mut queue = Queue::new();
    let sim = shared_sim(&mut device, &mut queue);
    sim.upload_channel(&mut queue, &vec![F64(0.25); 64], 0);
    sim.upload_channel(&mut queue, &vec![F64(0.5); 64], 1);
    sim.upload_channel(&mut queue, &vec![F64(0.75); 64], 0);
    sim.download_channel(&device, &mut queue, 1);
    let all = sim.download_all_channels(&mut device, &mut queue);
    let mem = memory(&device, &queue);
    assert_eq!(floats(&mem[sim.readback_buffer]), vec![0.5; 64]);
    assert_eq!(floats(&mem[all]), [vec![0.75; 64], vec![0.5; 64]].concat());

    let mut device = Device::new();
    let mut queue = Queue::new();
    let sim = mace_sim(&mut device, &mut queue);
    for c in 0..3 {
        sim.upload_channel(&mut queue, &vec![F64(c as f64); 64 * 64], c);
    }
    let all = sim.download_all_channels(&mut device, &mut queue);
    let held = floats(&memory(&device, &queue)[all]);
    assert_eq!((held[0], held[64 * 64], held[2 * 64 * 64]), (0.0, 1.0, 2.0));

    let mut device = Device::new();
    let mut queue = Queue::new();
    let sim = flow_sim(&mut device, &mut queue);
    sim.upload_channel(&mut queue, &vec![F64(0.5); 64 * 64], 1);
    let all = sim.download_all_channels(&mut device, &mut queue);
    let held = floats(&memory(&device, &queue)[all]);
    assert_eq!((held[0], held[64 * 64]), (0.0, 0.5));
}

#[test]
fn a_new_time_step_changes_one_parameter() {
    let mut device = Device::new();
    let mut queue = Queue::new();
    let mut sim = shared_sim(&mut device, &mut queue);
    let start = match queue.ops.last() {
        Some(QueueOp::Write(u)) => u.payload(),
        _ => panic!("not a write"),
    };
    let words: [u32; 9] = [
        8,
        8,
        5,
        0.65f32.to_bits(),
        0.2f32.to_bits(),
        2,
        (5.0f32 - 0.65).to_bits(),
        0.0f32.to_bits(),
        0.0f32.to_bits(),
    ];
    assert_eq!(start, words.iter().flat_map(|w| w.to_le_bytes()).collect::<Vec<u8>>());
    sim.set_dt(&mut queue, F32(0.1));
    let next = match queue.ops.last() {
        Some(QueueOp::Write(u)) => u.payload(),
        _ => panic!("not a write"),
    };
    assert_eq!(next.len(), 36);
    assert_eq!(next[..16], start[..16]);
    assert_eq!(next[16..20], 0.1f32.to_le_bytes());
    assert_eq!(next[20..], start[20..]);
    sim.set_dt(&mut queue, F32(0.2));
    match queue.ops.last() {
        Some(QueueOp::Write(u)) => assert_eq!(u.payload(), start),
        _ => panic!("not a write"),
    }
}

/// Which channel's spectrum each kernel's slot is filled from.
fn routes(channels: usize, kernels: usize, c0: &[u32]) -> Vec<(u64, u64)> {
    let mut device = Device::new();
    let mut queue = Queue::new();
    let sim = ml::GpuMaceLenia::new::<F32>(
        &mut device,
        &mut queue,
        &[64, 64],
        channels,
        kernels,
        c0,
        &vec![0; kernels],
        &reals(&vec![0.1; kernels]),
        &reals(&vec![0.01; kernels]),
        &reals(&vec![0.5; kernels]),
        F32(1.0),
    );
    let before = queue.ops.len();
    sim.iterate(&mut device, &mut queue);
    let list = commands(&queue.ops[before]);
    check(&device, list);
    list.iter()
        .filter_map(|c| match c {
            Command::Copy { src, src_offset, dst, dst_offset, .. }
                if *src == sim.convolution.spectrum_buffer
                    && *dst == sim.convolution.conv_buffer =>
            {
                Some((src_offset / (64 * 64 * 8), dst_offset / (64 * 64 * 8)))
            }
            _ => None,
        })
        .collect()
}

#[test]
fn every_kernel_gets_the_spectrum_of_its_channel() {
    assert_eq!(routes(2, 2, &[1, 0]), vec![(1, 0), (0, 1)]);
    assert_eq!(routes(2, 3, &[1, 0, 1]), vec![(1, 0), (0, 1), (1, 2)]);
    // More channels than kernels.
    assert_eq!(routes(3, 1, &[2]), vec![(2, 0)]);
}

#[test]
fn tables_of_small_transforms() {
    assert_eq!(generate_bitrev(1), vec![0]);
    assert_eq!(generate_bitrev(2), vec![0, 1]);
    // The table of a smaller transform is where that of a larger one starts.
    let small = generate_twiddles::<F32>(4);
    let large = generate_twiddles::<F32>(16);
    assert_eq!(small[..], large[..small.len()]);
}
