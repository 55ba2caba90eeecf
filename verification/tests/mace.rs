use lenia_ca::complex::Complex;
use lenia_ca::field::Plane;
use lenia_ca::mace::fft::{cfrom_polar, cmul, fft_1d, fft_2d, ifft_1d, ifft_2d, ifftshift_2d};
use lenia_ca::mace::setup::{
    generate_growth_params, generate_kernels_fft, generate_seed, sigmoid,
};
use lenia_ca::mace::step::{diffusion_phase, growth_phase, step_ml};
use lenia_ca::mace::sums::{channel_mass, total_mass};
use lenia_ca::scalar::Real;

#[derive(Clone, Copy, Debug, PartialEq, PartialOrd)]
struct F32(f32);

impl Real for F32 {
    fn integer(n: i64) -> Self {
        F32(n as f32)
    }
    fn count(n: usize) -> Self {
        F32(n as f32)
    }
    fn decimal(digits: i64, places: u32) -> Self {
        F32(format!("{}e-{}", digits, places).parse().unwrap())
    }
    fn pi() -> Self {
        F32(std::f32::consts::PI)
    }
    fn tau() -> Self {
        F32(std::f32::consts::TAU)
    }
    fn infinity() -> Self {
        F32(f32::INFINITY)
    }
    fn of_bits(w: u32) -> Self {
        F32(f32::from_bits(w) as f32)
    }
    fn plus(self, other: Self) -> Self {
        F32(self.0 + other.0)
    }
    fn minus(self, other: Self) -> Self {
        F32(self.0 - other.0)
    }
    fn times(self, other: Self) -> Self {
        F32(self.0 * other.0)
    }
    fn over(self, other: Self) -> Self {
        F32(self.0 / other.0)
    }
    fn rem(self, other: Self) -> Self {
        F32(self.0 % other.0)
    }
    fn neg(self) -> Self {
        F32(-self.0)
    }
    fn powi(self, n: i32) -> Self {
        F32(self.0.powi(n))
    }
    fn powf(self, e: Self) -> Self {
        F32(self.0.powf(e.0))
    }
    fn exp(self) -> Self {
        F32(self.0.exp())
    }
    fn sqrt(self) -> Self {
        F32(self.0.sqrt())
    }
    fn tanh(self) -> Self {
        F32(self.0.tanh())
    }
    fn sin(self) -> Self {
        F32(self.0.sin())
    }
    fn cos(self) -> Self {
        F32(self.0.cos())
    }
    fn abs(self) -> Self {
        F32(self.0.abs())
    }
    fn least(self, other: Self) -> Self {
        F32(self.0.min(other.0))
    }
    fn greatest(self, other: Self) -> Self {
        F32(self.0.max(other.0))
    }
    fn clamp(self, lo: Self, hi: Self) -> Self {
        F32(self.0.clamp(lo.0, hi.0))
    }
    fn below(self, other: Self) -> bool {
        self.0 < other.0
    }
    fn at_most(self, other: Self) -> bool {
        self.0 <= other.0
    }
    fn to_size(self) -> usize {
        self.0 as usize
    }
    fn to_byte(self) -> u8 {
        self.0 as u8
    }
    fn to_sample(self) -> i16 {
        self.0 as i16
    }
    fn bits(self) -> u32 {
        (self.0 as f32).to_bits()
    }
}
#[derive(Clone, Copy, Debug, PartialEq, PartialOrd)]
struct F64(f64);

impl Real for F64 {
    fn integer(n: i64) -> Self {
        F64(n as f64)
    }
    fn count(n: usize) -> Self {
        F64(n as f64)
    }
    fn decimal(digits: i64, places: u32) -> Self {
        F64(format!("{}e-{}", digits, places).parse().unwrap())
    }
    fn pi() -> Self {
        F64(std::f64::consts::PI)
    }
    fn tau() -> Self {
        F64(std::f64::consts::TAU)
    }
    fn infinity() -> Self {
        F64(f64::INFINITY)
    }
    fn of_bits(w: u32) -> Self {
        F64(f32::from_bits(w) as f64)
    }
    fn plus(self, other: Self) -> Self {
        F64(self.0 + other.0)
    }
    fn minus(self, other: Self) -> Self {
        F64(self.0 - other.0)
    }
    fn times(self, other: Self) -> Self {
        F64(self.0 * other.0)
    }
    fn over(self, other: Self) -> Self {
        F64(self.0 / other.0)
    }
    fn rem(self, other: Self) -> Self {
        F64(self.0 % other.0)
    }
    fn neg(self) -> Self {
        F64(-self.0)
    }
    fn powi(self, n: i32) -> Self {
        F64(self.0.powi(n))
    }
    fn powf(self, e: Self) -> Self {
        F64(self.0.powf(e.0))
    }
    fn exp(self) -> Self {
        F64(self.0.exp())
    }
    fn sqrt(self) -> Self {
        F64(self.0.sqrt())
    }
    fn tanh(self) -> Self {
        F64(self.0.tanh())
    }
    fn sin(self) -> Self {
        F64(self.0.sin())
    }
    fn cos(self) -> Self {
        F64(self.0.cos())
    }
    fn abs(self) -> Self {
        F64(self.0.abs())
    }
    fn least(self, other: Self) -> Self {
        F64(self.0.min(other.0))
    }
    fn greatest(self, other: Self) -> Self {
        F64(self.0.max(other.0))
    }
    fn clamp(self, lo: Self, hi: Self) -> Self {
        F64(self.0.clamp(lo.0, hi.0))
    }
    fn below(self, other: Self) -> bool {
        self.0 < other.0
    }
    fn at_most(self, other: Self) -> bool {
        self.0 <= other.0
    }
    fn to_size(self) -> usize {
        self.0 as usize
    }
    fn to_byte(self) -> u8 {
        self.0 as u8
    }
    fn to_sample(self) -> i16 {
        self.0 as i16
    }
    fn bits(self) -> u32 {
        (self.0 as f32).to_bits()
    }
}

fn c(re: f64, im: f64) -> Complex<F64> {
    Complex { re: F64(re), im: F64(im) }
}

fn plane(rows: &[&[f64]]) -> Plane<F64> {
    Plane {
        rows: rows.len(),
        cols: rows[0].len(),
        cells: rows.iter().map(|r| r.iter().map(|&x| F64(x)).collect()).collect(),
    }
}

fn values(p: &Plane<F64>) -> Vec<Vec<f64>> {
    p.cells.iter().map(|r| r.iter().map(|x| x.0).collect()).collect()
}

fn close(a: f64, b: f64) -> bool {
    (a - b).abs() < 1e-9
}

#[test]
fn complex_product() {
    let z = cmul(c(1.0, 2.0), c(3.0, 4.0));
    assert_eq!((z.re.0, z.im.0), (-5.0, 10.0));
}

#[test]
fn polar_form() {
    let z = cfrom_polar(F64(2.0), F64(0.0));
    assert_eq!((z.re.0, z.im.0), (2.0, 0.0));
}

#[test]
fn transform_of_four() {
    let mut data = vec![c(1.0, 0.0), c(2.0, 0.0), c(3.0, 0.0), c(4.0, 0.0)];
    fft_1d(&mut data);
    let want = [(10.0, 0.0), (-2.0, 2.0), (-2.0, 0.0), (-2.0, -2.0)];
    for (z, w) in data.iter().zip(want.iter()) {
        assert!(close(z.re.0, w.0) && close(z.im.0, w.1));
    }
}

#[test]
fn transform_matches_its_definition() {
    let n = 16;
    let x: Vec<Complex<F64>> = (0..n)
        .map(|t| c((t as f64 * 0.7).sin(), (t as f64 * 1.3).cos()))
        .collect();
    let mut data: Vec<Complex<F64>> = x.iter().map(|z| c(z.re.0, z.im.0)).collect();
    fft_1d(&mut data);
    for k in 0..n {
        let (mut re, mut im) = (0.0, 0.0);
        for t in 0..n {
            let a = -2.0 * std::f64::consts::PI * (k * t) as f64 / n as f64;
            re += x[t].re.0 * a.cos() - x[t].im.0 * a.sin();
            im += x[t].re.0 * a.sin() + x[t].im.0 * a.cos();
        }
        assert!(close(data[k].re.0, re) && close(data[k].im.0, im));
    }
}

#[test]
fn inverse_undoes_transform() {
    let n = 8;
    let mut data: Vec<Complex<F64>> = (0..n).map(|t| c(t as f64, 0.5 * t as f64)).collect();
    fft_1d(&mut data);
    ifft_1d(&mut data);
    for t in 0..n {
        assert!(close(data[t].re.0, t as f64) && close(data[t].im.0, 0.5 * t as f64));
    }
}

#[test]
fn plane_transform_and_back() {
    let mut g = Plane {
        rows: 2,
        cols: 2,
        cells: vec![vec![c(1.0, 0.0), c(2.0, 0.0)], vec![c(3.0, 0.0), c(4.0, 0.0)]],
    };
    fft_2d(&mut g);
    assert!(close(g.cells[0][0].re.0, 10.0));
    assert!(close(g.cells[0][1].re.0, -2.0));
    assert!(close(g.cells[1][0].re.0, -4.0));
    assert!(close(g.cells[1][1].re.0, 0.0));
    ifft_2d(&mut g);
    assert!(close(g.cells[0][0].re.0, 1.0));
    assert!(close(g.cells[0][1].re.0, 2.0));
    assert!(close(g.cells[1][0].re.0, 3.0));
    assert!(close(g.cells[1][1].re.0, 4.0));
}

#[test]
fn product_of_spectra_is_convolution() {
    let n = 4;
    let channel = |i: usize, j: usize| (1 + i * 3 + j * j) as f64;
    let kernel = |i: usize, j: usize| if i == 0 { 0.5 * j as f64 } else { 0.25 * i as f64 };
    let lifted = |f: &dyn Fn(usize, usize) -> f64| Plane {
        rows: n,
        cols: n,
        cells: (0..n).map(|i| (0..n).map(|j| c(f(i, j), 0.0)).collect()).collect(),
    };
    let mut x = lifted(&channel);
    let mut y = lifted(&kernel);
    fft_2d(&mut x);
    fft_2d(&mut y);
    let mut z = Plane {
        rows: n,
        cols: n,
        cells: (0..n)
            .map(|i| (0..n).map(|j| cmul(x.cells[i][j], y.cells[i][j])).collect())
            .collect(),
    };
    ifft_2d(&mut z);
    for a in 0..n {
        for b in 0..n {
            let mut want = 0.0;
            for i in 0..n {
                for j in 0..n {
                    want += channel(i, j) * kernel((a + n - i) % n, (b + n - j) % n);
                }
            }
            assert!(close(z.cells[a][b].re.0, want) && close(z.cells[a][b].im.0, 0.0));
        }
    }
}

#[test]
fn quadrants_are_swapped() {
    let mut g = Plane {
        rows: 4,
        cols: 4,
        cells: (0..4).map(|i| (0..4).map(|j| 4 * i + j).collect()).collect(),
    };
    ifftshift_2d(&mut g);
    assert_eq!(
        g.cells,
        vec![
            vec![10, 11, 8, 9],
            vec![14, 15, 12, 13],
            vec![2, 3, 0, 1],
            vec![6, 7, 4, 5],
        ]
    );
}

#[test]
fn diffusion_of_a_point() {
    let a = plane(&[&[1.0; 4], &[1.0; 4], &[1.0; 4], &[1.0; 4]]);
    let mut ch = plane(&[&[0.0; 4], &[0.0; 4], &[0.0; 4], &[0.0; 4]]);
    ch.cells[1][1] = F64(9.0);
    let mut out = plane(&[&[0.0; 4], &[0.0; 4], &[0.0; 4], &[0.0; 4]]);
    diffusion_phase(&a, &ch, &mut out);
    assert_eq!(
        values(&out),
        vec![
            vec![1.0, 1.0, 1.0, 0.0],
            vec![1.0, 1.0, 1.0, 0.0],
            vec![1.0, 1.0, 1.0, 0.0],
            vec![0.0, 0.0, 0.0, 0.0],
        ]
    );
}

#[test]
fn diffusion_wraps_at_the_border() {
    let a = plane(&[&[1.0; 4], &[1.0; 4], &[1.0; 4], &[1.0; 4]]);
    let mut ch = plane(&[&[0.0; 4], &[0.0; 4], &[0.0; 4], &[0.0; 4]]);
    ch.cells[0][0] = F64(9.0);
    let mut out = plane(&[&[0.0; 4], &[0.0; 4], &[0.0; 4], &[0.0; 4]]);
    diffusion_phase(&a, &ch, &mut out);
    assert_eq!(out.cells[3][3].0, 1.0);
    assert_eq!(out.cells[2][2].0, 0.0);
}

#[test]
fn diffusion_keeps_mass() {
    let n = 6;
    let a = Plane {
        rows: n,
        cols: n,
        cells: (0..n)
            .map(|i| (0..n).map(|j| F64(((3 * i + j) as f64 * 0.37).sin().exp())).collect())
            .collect(),
    };
    let ch = Plane {
        rows: n,
        cols: n,
        cells: (0..n)
            .map(|i| (0..n).map(|j| F64((i * j) as f64 + 0.25)).collect())
            .collect(),
    };
    let mut out = plane(&[&[0.0; 6], &[0.0; 6], &[0.0; 6], &[0.0; 6], &[0.0; 6], &[0.0; 6]]);
    diffusion_phase(&a, &ch, &mut out);
    assert!(close(channel_mass(&out).0, channel_mass(&ch).0));
}

#[test]
fn growth_of_one_kernel() {
    let conv = vec![Plane {
        rows: 1,
        cols: 1,
        cells: vec![vec![c(0.3, 0.0)]],
    }];
    let mut a = plane(&[&[0.0]]);
    growth_phase(&conv, &[0], &[F64(0.3)], &[F64(0.1)], &[F64(0.5)], 0, &mut a);
    // At the centre of the bump growth is one, so the affinity is exp(0.5).
    assert_eq!(a.cells[0][0].0, 0.5f64.exp());
    growth_phase(&conv, &[0], &[F64(0.3)], &[F64(0.1)], &[F64(0.5)], 1, &mut a);
    // A channel that no kernel feeds has the affinity exp(0).
    assert_eq!(a.cells[0][0].0, 1.0);
}

#[test]
fn step_keeps_mass() {
    let n = 8;
    let mut channels = generate_seed::<F64>(n);
    let kernels = generate_kernels_fft::<F64>(n);
    let p = generate_growth_params::<F64>();
    let before = total_mass(&channels).0;
    let first: Vec<f64> = channels.iter().map(|ch| channel_mass(ch).0).collect();
    for _ in 0..3 {
        step_ml(&mut channels, &kernels, &p.c0, &p.c1, &p.mu, &p.sigma, &p.weights);
    }
    assert!(close(total_mass(&channels).0, before));
    for (ch, mass) in channels.iter().zip(first.iter()) {
        assert!(close(channel_mass(ch).0, *mass));
    }
}

#[test]
fn seed_peaks_at_its_offsets() {
    let s = generate_seed::<F32>(32);
    assert_eq!(s.len(), 3);
    // The first blob sits in the middle.
    assert_eq!(s[0].cells[16][16].0, 1.0);
    assert!(s[1].cells[16][16].0 < 1.0);
    assert!(s[2].cells[16][16].0 < 1.0);
    let x = (20.0f32 - 16.0) / 16.0;
    assert_eq!(s[0].cells[16][20].0, (-(x * x) * (1.0 / (2.0 * 0.25 * 0.25f32))).exp());
}

#[test]
fn ring_kernels_sum_to_one() {
    let k = generate_kernels_fft::<F64>(32);
    assert_eq!(k.len(), 9);
    for g in &k {
        // The first number of a spectrum is the sum of the kernel.
        assert!(close(g.cells[0][0].re.0, 1.0) && close(g.cells[0][0].im.0, 0.0));
    }
}

#[test]
fn growth_parameters() {
    let p = generate_growth_params::<F32>();
    assert_eq!(p.c0, vec![0, 1, 2, 0, 1, 2, 0, 1, 2]);
    assert_eq!(p.c1, vec![0, 0, 0, 1, 1, 1, 2, 2, 2]);
    assert_eq!(p.mu[0].0, 0.05);
    assert_eq!(p.mu[1].0, 0.05 + 0.20 * 3.0 / 9.0f32);
    assert_eq!(p.sigma[4].0, 0.03 + 0.12 * 4.0 / 9.0f32);
    let w: Vec<f32> = p.weights.iter().map(|x| x.0).collect();
    assert_eq!(w, vec![0.5, 0.25, 0.25, 0.25, 0.5, 0.25, 0.25, 0.25, 0.5]);
}

#[test]
fn every_pair_of_channels_has_one_kernel() {
    let p = generate_growth_params::<F32>();
    for from in 0..3 {
        for to in 0..3 {
            let n = (0..9).filter(|&k| p.c0[k] == from && p.c1[k] == to).count();
            assert_eq!(n, 1);
        }
    }
}

#[test]
fn envelope_step() {
    assert_eq!(sigmoid(F32(0.0)).0, 0.5);
    assert_eq!(sigmoid(F32(2.0)).0, 0.5 * 1.0f32.tanh() + 0.5);
}

#[test]
fn transform_undoes_inverse() {
    let n = 8;
    let mut data: Vec<Complex<F64>> = (0..n).map(|t| c(t as f64, 0.5 * t as f64)).collect();
    ifft_1d(&mut data);
    fft_1d(&mut data);
    for t in 0..n {
        assert!(close(data[t].re.0, t as f64) && close(data[t].im.0, 0.5 * t as f64));
    }
    let mut g = Plane {
        rows: 2,
        cols: 2,
        cells: vec![vec![c(1.0, 0.0), c(2.0, 1.0)], vec![c(3.0, 0.0), c(4.0, -1.0)]],
    };
    ifft_2d(&mut g);
    assert!(close(g.cells[0][0].re.0, 2.5));
    fft_2d(&mut g);
    assert!(close(g.cells[0][1].re.0, 2.0) && close(g.cells[0][1].im.0, 1.0));
    assert!(close(g.cells[1][1].re.0, 4.0) && close(g.cells[1][1].im.0, -1.0));
}

#[test]
fn transform_of_one() {
    let mut data = vec![c(3.0, -4.0)];
    fft_1d(&mut data);
    assert_eq!((data[0].re.0, data[0].im.0), (3.0, -4.0));
    ifft_1d(&mut data);
    assert_eq!((data[0].re.0, data[0].im.0), (3.0, -4.0));
}

#[test]
fn a_step_makes_no_negative_mass() {
    let mut channels = generate_seed::<F64>(16);
    let kernels_fft = generate_kernels_fft::<F64>(16);
    let growth = generate_growth_params::<F64>();
    for _ in 0..3 {
        step_ml(
            &mut channels,
            &kernels_fft,
            &growth.c0,
            &growth.c1,
            &growth.mu,
            &growth.sigma,
            &growth.weights,
        );
        for p in &channels {
            assert!(p.cells.iter().all(|row| row.iter().all(|x| x.0 >= 0.0)));
        }
    }
}
