use lenia_ca::bytes::{encode_words, push_decimal, push_i16, read_u32, unpack_real};
use lenia_ca::complex::Complex;
use lenia_ca::creature::{
    gather_growth, load_kernels_fft, load_seed, place_creatures, round_robin_inputs,
    round_robin_outputs, CellGrid, CreatureConfig,
};
use lenia_ca::field::{Field, Plane};
use lenia_ca::flow::spectrum::{Fft2DPlanner, Transform};
use lenia_ca::frame::{rgb_pixels, save_frame_as_png, save_png, save_ppm};
use lenia_ca::gpu::{ByteOrder, Entry, Upload};
use lenia_ca::names::{creature_name, discover_creatures, grid_size, parse_size, FileName};
use lenia_ca::sample::{
    blob_field, flow_kernels_fft, generate_seed, mace_growth, mace_kernels_fft, mace_outputs,
    permute_kernel,
};
use lenia_ca::scalar::Real;
use lenia_ca::settlement::settle;

#[derive(Clone, Copy, Debug, PartialEq, PartialOrd)]
struct F32(f32);

impl Real for F32 {
    fn integer(n: i64) -> Self {
        F32(n as f32)
    }
    fn count(n: usize) -> Self {
        F32(n as f32)
    }
    fn decimal(digits: i64, places: u32) -> Self {
        F32(format!("{}e-{}", digits, places).parse().unwrap())
    }
    fn pi() -> Self {
        F32(std::f32::consts::PI)
    }
    fn tau() -> Self {
        F32(std::f32::consts::TAU)
    }
    fn infinity() -> Self {
        F32(f32::INFINITY)
    }
    fn of_bits(w: u32) -> Self {
        F32(f32::from_bits(w) as f32)
    }
    fn plus(self, other: Self) -> Self {
        F32(self.0 + other.0)
    }
    fn minus(self, other: Self) -> Self {
        F32(self.0 - other.0)
    }
    fn times(self, other: Self) -> Self {
        F32(self.0 * other.0)
    }
    fn over(self, other: Self) -> Self {
        F32(self.0 / other.0)
    }
    fn rem(self, other: Self) -> Self {
        F32(self.0 % other.0)
    }
    fn neg(self) -> Self {
        F32(-self.0)
    }
    fn powi(self, n: i32) -> Self {
        F32(self.0.powi(n))
    }
    fn powf(self, e: Self) -> Self {
        F32(self.0.powf(e.0))
    }
    fn exp(self) -> Self {
        F32(self.0.exp())
    }
    fn sqrt(self) -> Self {
        F32(self.0.sqrt())
    }
    fn tanh(self) -> Self {
        F32(self.0.tanh())
    }
    fn sin(self) -> Self {
        F32(self.0.sin())
    }
    fn cos(self) -> Self {
        F32(self.0.cos())
    }
    fn abs(self) -> Self {
        F32(self.0.abs())
    }
    fn least(self, other: Self) -> Self {
        F32(self.0.min(other.0))
    }
    fn greatest(self, other: Self) -> Self {
        F32(self.0.max(other.0))
    }
    fn clamp(self, lo: Self, hi: Self) -> Self {
        F32(self.0.clamp(lo.0, hi.0))
    }
    fn below(self, other: Self) -> bool {
        self.0 < other.0
    }
    fn at_most(self, other: Self) -> bool {
        self.0 <= other.0
    }
    fn to_size(self) -> usize {
        self.0 as usize
    }
    fn to_byte(self) -> u8 {
        self.0 as u8
    }
    fn to_sample(self) -> i16 {
        self.0 as i16
    }
    fn bits(self) -> u32 {
        (self.0 as f32).to_bits()
    }
}
#[derive(Clone, Copy, Debug, PartialEq, PartialOrd)]
struct F64(f64);

impl Real for F64 {
    fn integer(n: i64) -> Self {
        F64(n as f64)
    }
    fn count(n: usize) -> Self {
        F64(n as f64)
    }
    fn decimal(digits: i64, places: u32) -> Self {
        F64(format!("{}e-{}", digits, places).parse().unwrap())
    }
    fn pi() -> Self {
        F64(std::f64::consts::PI)
    }
    fn tau() -> Self {
        F64(std::f64::consts::TAU)
    }
    fn infinity() -> Self {
        F64(f64::INFINITY)
    }
    fn of_bits(w: u32) -> Self {
        F64(f32::from_bits(w) as f64)
    }
    fn plus(self, other: Self) -> Self {
        F64(self.0 + other.0)
    }
    fn minus(self, other: Self) -> Self {
        F64(self.0 - other.0)
    }
    fn times(self, other: Self) -> Self {
        F64(self.0 * other.0)
    }
    fn over(self, other: Self) -> Self {
        F64(self.0 / other.0)
    }
    fn rem(self, other: Self) -> Self {
        F64(self.0 % other.0)
    }
    fn neg(self) -> Self {
        F64(-self.0)
    }
    fn powi(self, n: i32) -> Self {
        F64(self.0.powi(n))
    }
    fn powf(self, e: Self) -> Self {
        F64(self.0.powf(e.0))
    }
    fn exp(self) -> Self {
        F64(self.0.exp())
    }
    fn sqrt(self) -> Self {
        F64(self.0.sqrt())
    }
    fn tanh(self) -> Self {
        F64(self.0.tanh())
    }
    fn sin(self) -> Self {
        F64(self.0.sin())
    }
    fn cos(self) -> Self {
        F64(self.0.cos())
    }
    fn abs(self) -> Self {
        F64(self.0.abs())
    }
    fn least(self, other: Self) -> Self {
        F64(self.0.min(other.0))
    }
    fn greatest(self, other: Self) -> Self {
        F64(self.0.max(other.0))
    }
    fn clamp(self, lo: Self, hi: Self) -> Self {
        F64(self.0.clamp(lo.0, hi.0))
    }
    fn below(self, other: Self) -> bool {
        self.0 < other.0
    }
    fn at_most(self, other: Self) -> bool {
        self.0 <= other.0
    }
    fn to_size(self) -> usize {
        self.0 as usize
    }
    fn to_byte(self) -> u8 {
        self.0 as u8
    }
    fn to_sample(self) -> i16 {
        self.0 as i16
    }
    fn bits(self) -> u32 {
        (self.0 as f32).to_bits()
    }
}

fn words(list: &[&str]) -> Vec<String> {
    list.iter().map(|s| s.to_string()).collect()
}

fn file(stem: &str, extension: &str) -> FileName {
    FileName { stem: stem.to_string(), extension: extension.to_string() }
}

#[test]
fn creatures_are_found_and_sorted() {
    let files = vec![
        file("zeta", "json"),
        file("notes", "txt"),
        file("alpha", "json"),
        file("alph", "json"),
        file("random_2", "json"),
        file("random_10", "json"),
    ];
    assert_eq!(
        discover_creatures(&files, ""),
        words(&["alph", "alpha", "random_10", "random_2", "zeta"])
    );
    assert_eq!(discover_creatures(&files, "random_"), words(&["random_10", "random_2"]));
    assert_eq!(discover_creatures(&vec![], ""), words(&[]));
}

#[test]
fn names_sort_as_their_bytes_do() {
    let mut list = words(&["b", "a\u{10000}", "a\u{ff}", "A", "", "ab"]);
    let files: Vec<FileName> = list.iter().map(|s| file(s, "json")).collect();
    list.sort();
    assert_eq!(discover_creatures(&files, ""), list);
}

#[test]
fn creature_on_the_command_line() {
    assert_eq!(creature_name(&words(&["x", "--creature", "orb"])), Some("orb".to_string()));
    assert_eq!(creature_name(&words(&["x", "--creature"])), Some("glider".to_string()));
    assert_eq!(creature_name(&words(&["x"])), None);
    assert_eq!(
        creature_name(&words(&["--creature", "a", "--creature", "b"])),
        Some("a".to_string())
    );
}

#[test]
fn sizes_are_read() {
    for s in ["0", "+7", "00128", "18446744073709551615", "18446744073709551616", "", "+", "-1", "1a", " 1"] {
        assert_eq!(parse_size(s), s.parse::<usize>().ok(), "{}", s);
    }
}

#[test]
fn grid_size_on_the_command_line() {
    assert_eq!(grid_size(&words(&["x", "--grid-size", "128"]), 64), 128);
    assert_eq!(grid_size(&words(&["x", "--grid-size", "big"]), 64), 64);
    assert_eq!(grid_size(&words(&["x", "--grid-size"]), 64), 64);
    assert_eq!(grid_size(&words(&["x"]), 32), 32);
}

#[test]
fn words_and_bytes() {
    let w = [0x01020304, 0xfffefdfc];
    let bytes = encode_words(&w);
    assert_eq!(bytes, vec![4, 3, 2, 1, 0xfc, 0xfd, 0xfe, 0xff]);
    assert_eq!(read_u32(&bytes, 0), w[0]);
    assert_eq!(read_u32(&bytes, 4), w[1]);
}

#[test]
fn samples_and_digits() {
    let mut out = vec![];
    push_i16(&mut out, -1);
    push_i16(&mut out, 258);
    assert_eq!(out, vec![255, 255, 2, 1]);
    let mut out = vec![];
    push_decimal(&mut out, 0);
    push_decimal(&mut out, 1024);
    assert_eq!(out, b"01024".to_vec());
}

#[test]
fn uploads_in_both_orders() {
    let mut u = Upload { buffer: 0, offset: 0, order: ByteOrder::Little, words: vec![1, 0x0a0b0c0d] };
    assert_eq!(u.payload(), vec![1, 0, 0, 0, 0x0d, 0x0c, 0x0b, 0x0a]);
    u.order = ByteOrder::Native;
    let mut want = 1u32.to_ne_bytes().to_vec();
    want.extend(0x0a0b0c0du32.to_ne_bytes());
    assert_eq!(u.payload(), want);
}

#[test]
fn downloads_become_numbers() {
    let data: Vec<u32> = vec![1.5f32.to_bits(), (-2.0f32).to_bits()];
    let bytes: &[u8] = bytemuck::cast_slice(&data);
    assert_eq!(unpack_real::<F32>(bytes), Some(vec![F32(1.5), F32(-2.0)]));
    assert_eq!(unpack_real::<F32>(&bytes[..7]), None);
    assert_eq!(unpack_real::<F32>(&[]), Some(Vec::new()));
    for shift in 1..4 {
        let mut shifted = vec![0u8; shift];
        shifted.extend_from_slice(bytes);
        assert_eq!(unpack_real::<F32>(&shifted[shift..]), Some(vec![F32(1.5), F32(-2.0)]));
    }
}

#[test]
fn entry_points_have_names() {
    assert_eq!(Entry::FftRow.name(), "fft_row_main");
    assert_eq!(Entry::FusedCmulIfftCol.name(), "fused_cmul_ifft_col_main");
    assert_eq!(Entry::Render.name(), "render_main");
}

#[test]
fn kernel_file() {
    let mut data = vec![];
    for x in [1.0f32, 2.0, 3.0, 4.0] {
        data.extend(x.to_le_bytes());
    }
    let k = load_kernels_fft::<F32>(&data, 2, 1);
    assert_eq!(k.len(), 2);
    assert_eq!((k[0][0].re.0, k[0][0].im.0), (1.0, 2.0));
    assert_eq!((k[1][0].re.0, k[1][0].im.0), (3.0, 4.0));
}

#[test]
fn seed_in_the_middle() {
    let seed = vec![vec![F64(1.0), F64(2.0), F64(3.0), F64(4.0)]];
    let p = load_seed(&seed, 2, 5);
    let rows: Vec<Vec<f64>> = p[0].chunks(5).map(|r| r.iter().map(|x| x.0).collect()).collect();
    assert_eq!(
        rows,
        vec![
            vec![0.0, 0.0, 0.0, 0.0, 0.0],
            vec![0.0, 1.0, 2.0, 0.0, 0.0],
            vec![0.0, 3.0, 4.0, 0.0, 0.0],
            vec![0.0, 0.0, 0.0, 0.0, 0.0],
            vec![0.0, 0.0, 0.0, 0.0, 0.0],
        ]
    );
}

fn creature(x: f64, kernels: usize) -> CreatureConfig<F64, F32> {
    CreatureConfig {
        seed_size: 1,
        num_channels: 1,
        seed_channels: vec![vec![F64(x)]],
        num_kernels: kernels,
        m: vec![F32(x as f32); kernels],
        s: vec![F32(2.0); kernels],
        h: vec![F32(3.0); kernels],
    }
}

#[test]
fn creatures_settle_a_grid() {
    let configs = vec![creature(1.0, 2), creature(2.0, 1), creature(4.0, 3)];
    let s = settle(&configs, 4, 2).unwrap();
    assert_eq!(s.cells.cells_per_row, 2);
    assert_eq!(s.num_channels, 1);
    assert_eq!(s.population.num_kernels, 6);
    assert_eq!(s.population.first_kernel, vec![0, 2, 3]);
    assert_eq!(s.c0, vec![0; 6]);
    assert_eq!(s.c1, vec![vec![0, 1, 2, 3, 4, 5]]);
    let mut want = vec![F64(0.0); 16];
    want[0] = F64(1.0);
    want[2] = F64(2.0);
    want[8] = F64(4.0);
    assert_eq!(s.channels, vec![want]);
}

#[test]
fn eight_cells_make_a_row_by_default() {
    let configs: Vec<_> = (0..9).map(|k| creature(1.0 + k as f64, 1)).collect();
    let s = settle(&configs, 64, 0).unwrap();
    assert_eq!((s.cells.cell_size, s.cells.cells_per_row), (8, 8));
    for i in 0..9 {
        let place = (i / 8) * 8 * 64 + (i % 8) * 8;
        assert_eq!(s.channels[0][place], F64(1.0 + i as f64));
    }
}

#[test]
fn creatures_that_cannot_settle() {
    let none: Vec<CreatureConfig<F64, F32>> = Vec::new();
    assert!(settle(&none, 4, 2).is_none());
    let five = || (0..5).map(|k| creature(k as f64, 1)).collect::<Vec<_>>();
    assert!(settle(&five(), 4, 2).is_none());
    assert!(settle(&five(), 4, 0).is_none());
    assert!(settle(&five(), 8, 0).is_some());
    assert!(settle(&five(), 4, 8).is_none());
    let mut short = five();
    short[3].seed_channels[0].clear();
    assert!(settle(&short, 4, 1).is_none());
    let mut many = five();
    many[4].num_channels = 2;
    assert!(settle(&many, 4, 1).is_none());
    let mut empty = five();
    empty[0].seed_size = 0;
    empty[4].num_channels = 2;
    assert!(settle(&empty, 4, 1).is_none());
    empty[4].seed_channels.push(Vec::new());
    assert!(settle(&empty, 4, 1).unwrap().channels[0].iter().all(|x| x.0 == 0.0));
    let mut dumb = five();
    dumb[0].num_channels = 0;
    assert!(settle(&dumb, 4, 1).is_none());
    let mut huge = five();
    huge[1].num_kernels = u32::MAX as usize;
    assert!(settle(&huge, 4, 1).is_none());
}

#[test]
fn creatures_stand_in_their_cells() {
    let g = CellGrid::new(4, 2, 1);
    assert_eq!(g.cells_per_row, 2);
    let all = vec![creature(1.0, 1), creature(2.0, 2), creature(3.0, 1)];
    let ch = place_creatures(&all, &g, 2);
    let cells: Vec<f64> = ch[0].iter().map(|x| x.0).collect();
    assert_eq!(
        cells,
        vec![
            1.0, 0.0, 2.0, 0.0, 0.0, 0.0, 0.0, 0.0, 3.0, 0.0, 0.0, 0.0, 0.0, 0.0, 0.0, 0.0,
        ]
    );
    assert!(ch[1].iter().all(|x| x.0 == 0.0));
}

#[test]
fn cell_sizes() {
    let g = CellGrid::new(24, 0, 2);
    assert_eq!((g.cell_size, g.cells_per_row), (3, 8));
    let g = CellGrid::new(24, 5, 2);
    assert_eq!((g.cell_size, g.cells_per_row), (5, 4));
}

#[test]
fn creatures_do_not_overlap() {
    let g = CellGrid::new(6, 2, 2);
    let c = |x: f64| CreatureConfig::<F64, F32> {
        seed_size: 2,
        num_channels: 1,
        seed_channels: vec![vec![F64(x); 4]],
        num_kernels: 0,
        m: vec![],
        s: vec![],
        h: vec![],
    };
    let all: Vec<_> = (1..=9).map(|i| c(i as f64)).collect();
    let ch = place_creatures(&all, &g, 1);
    for i in 1..=9 {
        assert_eq!(ch[0].iter().filter(|x| x.0 == i as f64).count(), 4);
    }
}

#[test]
fn kernels_of_all_creatures() {
    let p = gather_growth(&vec![creature(1.0, 1), creature(2.0, 2)]);
    assert_eq!(p.num_kernels, 3);
    assert_eq!(p.first_kernel, vec![0, 1]);
    assert_eq!(p.m, vec![F32(1.0), F32(2.0), F32(2.0)]);
    assert_eq!(p.s, vec![F32(2.0); 3]);
    assert_eq!(p.h, vec![F32(3.0); 3]);
}

#[test]
fn kernels_in_turn() {
    assert_eq!(round_robin_inputs(5, 3), vec![0, 1, 2, 0, 1]);
    assert_eq!(round_robin_outputs(5, 3), vec![vec![0, 3], vec![1, 4], vec![2]]);
}

#[test]
fn grey_picture() {
    let data = [F32(0.0), F32(1.0), F32(2.0), F32(4.0)];
    assert_eq!(save_png(&data, 2), vec![0, 63, 127, 255]);
    // Two channels of the same picture have the same shades.
    let twice: Vec<F32> = data.iter().chain(data.iter()).copied().collect();
    assert_eq!(save_png(&twice, 2), vec![0, 63, 127, 255]);
    assert_eq!(save_png(&[F32(3.0); 4], 2), vec![0, 0, 0, 0]);
}

#[test]
fn grey_field() {
    let f = Field {
        rows: 1,
        cols: 2,
        depth: 2,
        cells: vec![vec![vec![F64(1.0), F64(1.0)], vec![F64(0.5), F64(0.5)]]],
    };
    assert_eq!(save_frame_as_png(&f), vec![255, 0]);
}

#[test]
fn colours() {
    let data = [F32(0.5), F32(10.0), F32(-1.0)];
    let byte = ((0.5f32 * 1.5).clamp(0.0, 1.0).sqrt() * 255.0) as u8;
    assert_eq!(rgb_pixels(&data, 1), vec![byte, 255, 0]);
}

#[test]
fn portable_pixmap() {
    let ch = |x: f32| Plane { rows: 1, cols: 1, cells: vec![vec![F32(x)]] };
    let file = save_ppm(&vec![ch(1.0), ch(0.0), ch(10.0)]);
    let mut want = b"P6\n1 1\n255\n".to_vec();
    want.extend([255, 0, 255]);
    assert_eq!(file, want);
}

struct Naive;

impl Transform<F64> for Naive {
    fn forward(&self, row: Vec<Complex<F64>>) -> Vec<Complex<F64>> {
        let n = row.len();
        (0..n)
            .map(|k| {
                let mut z = Complex { re: F64(0.0), im: F64(0.0) };
                for (t, x) in row.iter().enumerate() {
                    let a = -std::f64::consts::TAU * (k * t) as f64 / n as f64;
                    z = z.plus(x.times(Complex { re: F64(a.cos()), im: F64(a.sin()) }));
                }
                z
            })
            .collect()
    }
    fn inverse(&self, row: Vec<Complex<F64>>) -> Vec<Complex<F64>> {
        let conj: Vec<Complex<F64>> = row.iter().map(|z| z.conj()).collect();
        self.forward(conj).iter().map(|z| z.conj()).collect()
    }
}

#[test]
fn sample_kernels_sum_to_one() {
    let planner = Fft2DPlanner::new(Naive);
    let flow = flow_kernels_fft::<F64, Naive>(8, &planner);
    assert_eq!(flow.len(), 3);
    let mace = mace_kernels_fft::<F64, Naive>(8, 4, &planner);
    assert_eq!(mace.len(), 4);
    for k in flow.iter().chain(mace.iter()) {
        assert_eq!(k.len(), 64);
        assert!((k[0].re.0 - 1.0).abs() < 1e-9 && k[0].im.0.abs() < 1e-9);
    }
}

#[test]
fn sample_seed() {
    let s = generate_seed::<F64>(8, 2);
    assert_eq!(s.len(), 2);
    assert_eq!(s[0][4 * 8 + 4].0, 0.5);
    assert_eq!(s[1][4 * 8 + 4].0, 0.75);
    let dist = 2.0f64.sqrt();
    assert_eq!(s[0][3 * 8 + 3].0, (-dist * dist / 1.0).exp() * 0.5);
}

#[test]
fn sample_field() {
    let f = blob_field(4, 4, 3, F32(64.0), false);
    assert_eq!(f.cells[2][2][1].0, 0.5 + 0.5 * (1.0f32 / 3.0));
}

#[test]
fn sample_growth_of_diffusion() {
    let g = mace_growth::<F32>(9, 3, true);
    assert_eq!(g.mu[1].0, 0.1 + 0.05 * (3.0f32 / 9.0));
    assert_eq!(g.sigma[1].0, 0.05 + 0.03 * (3.0f32 / 9.0));
    assert_eq!(g.weights[0].0, 1.0 / 3.0);
    let g = mace_growth::<F32>(9, 3, false);
    assert_eq!(g.mu[1].0, 0.1 + 0.05 * (1.0f32 / 9.0));
}

#[test]
fn permuting_twice_is_nothing() {
    for k in 0..9 {
        assert_eq!(permute_kernel(permute_kernel(k, 3), 3), k);
    }
}

#[test]
fn sample_wiring() {
    assert_eq!(round_robin_inputs(9, 3), vec![0, 1, 2, 0, 1, 2, 0, 1, 2]);
    assert_eq!(mace_outputs(9, 3), vec![0, 0, 0, 1, 1, 1, 2, 2, 2]);
    assert_eq!(mace_outputs(5, 2), vec![0, 0, 1, 1, 0]);
}

#[test]
fn a_sample_world_without_cells() {
    assert_eq!(generate_seed::<F64>(0, 2).iter().map(|c| c.len()).collect::<Vec<_>>(), [0, 0]);
}
