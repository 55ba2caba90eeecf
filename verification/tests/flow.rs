use lenia_ca::complex::Complex;
use lenia_ca::connectivity::{conn_from_lists, conn_from_matrix, ConnectivityMatrix};
use lenia_ca::field::{sum, Field, Plane, VectorField};
use lenia_ca::flow::gradient::{convolve2d_same_3x3, kx, ky, sobel, sobel_x, sobel_y};
use lenia_ca::flow::kernels::{
    build_kernel_computer, get_kernels, sample_params, sample_ranges, Params,
};
use lenia_ca::flow::reintegration::{build_reintegration, build_reintegration_p};
use lenia_ca::flow::shift::{
    fftshift_2d, fftshift_3d, ifftshift_2d, roll_3d_axes01, roll_4d_axes01,
};
use lenia_ca::flow::spectrum::{Fft2DPlanner, Transform};
use lenia_ca::flow::step::{
    build_rollout, build_step_fn, build_step_fn_p, Config, ConfigP, State, StateP,
};
use lenia_ca::flow::{bell, growth, ker_f, sigmoid};
use lenia_ca::scalar::Real;

#[derive(Clone, Copy, Debug, PartialEq, PartialOrd)]
struct F64(f64);

impl Real for F64 {
    fn integer(n: i64) -> Self {
        F64(n as f64)
    }
    fn count(n: usize) -> Self {
        F64(n as f64)
    }
    fn decimal(digits: i64, places: u32) -> Self {
        F64(format!("{}e-{}", digits, places).parse().unwrap())
    }
    fn pi() -> Self {
        F64(std::f64::consts::PI)
    }
    fn tau() -> Self {
        F64(std::f64::consts::TAU)
    }
    fn infinity() -> Self {
        F64(f64::INFINITY)
    }
    fn of_bits(w: u32) -> Self {
        F64(f32::from_bits(w) as f64)
    }
    fn plus(self, other: Self) -> Self {
        F64(self.0 + other.0)
    }
    fn minus(self, other: Self) -> Self {
        F64(self.0 - other.0)
    }
    fn times(self, other: Self) -> Self {
        F64(self.0 * other.0)
    }
    fn over(self, other: Self) -> Self {
        F64(self.0 / other.0)
    }
    fn rem(self, other: Self) -> Self {
        F64(self.0 % other.0)
    }
    fn neg(self) -> Self {
        F64(-self.0)
    }
    fn powi(self, n: i32) -> Self {
        F64(self.0.powi(n))
    }
    fn powf(self, e: Self) -> Self {
        F64(self.0.powf(e.0))
    }
    fn exp(self) -> Self {
        F64(self.0.exp())
    }
    fn sqrt(self) -> Self {
        F64(self.0.sqrt())
    }
    fn tanh(self) -> Self {
        F64(self.0.tanh())
    }
    fn sin(self) -> Self {
        F64(self.0.sin())
    }
    fn cos(self) -> Self {
        F64(self.0.cos())
    }
    fn abs(self) -> Self {
        F64(self.0.abs())
    }
    fn least(self, other: Self) -> Self {
        F64(self.0.min(other.0))
    }
    fn greatest(self, other: Self) -> Self {
        F64(self.0.max(other.0))
    }
    fn clamp(self, lo: Self, hi: Self) -> Self {
        F64(self.0.clamp(lo.0, hi.0))
    }
    fn below(self, other: Self) -> bool {
        self.0 < other.0
    }
    fn at_most(self, other: Self) -> bool {
        self.0 <= other.0
    }
    fn to_size(self) -> usize {
        self.0 as usize
    }
    fn to_byte(self) -> u8 {
        self.0 as u8
    }
    fn to_sample(self) -> i16 {
        self.0 as i16
    }
    fn bits(self) -> u32 {
        (self.0 as f32).to_bits()
    }
}

struct Rust(std::cell::RefCell<rustfft::FftPlanner<f64>>);

impl Rust {
    fn new() -> Self {
        Rust(std::cell::RefCell::new(rustfft::FftPlanner::new()))
    }
    fn run(&self, row: Vec<Complex<F64>>, inverse: bool) -> Vec<Complex<F64>> {
        let mut data: Vec<num_complex::Complex<f64>> =
            row.iter().map(|z| num_complex::Complex::new(z.re.0, z.im.0)).collect();
        let mut planner = self.0.borrow_mut();
        let fft = if inverse {
            planner.plan_fft_inverse(data.len())
        } else {
            planner.plan_fft_forward(data.len())
        };
        fft.process(&mut data);
        data.iter().map(|z| Complex { re: F64(z.re), im: F64(z.im) }).collect()
    }
}

impl Transform<F64> for Rust {
    fn forward(&self, row: Vec<Complex<F64>>) -> Vec<Complex<F64>> {
        self.run(row, false)
    }
    fn inverse(&self, row: Vec<Complex<F64>>) -> Vec<Complex<F64>> {
        self.run(row, true)
    }
}

fn plane(rows: &[&[f64]]) -> Plane<F64> {
    Plane {
        rows: rows.len(),
        cols: rows[0].len(),
        cells: rows.iter().map(|r| r.iter().map(|&x| F64(x)).collect()).collect(),
    }
}

fn values(p: &Plane<F64>) -> Vec<Vec<f64>> {
    p.cells.iter().map(|r| r.iter().map(|x| x.0).collect()).collect()
}

fn field(n: usize, depth: usize, f: impl Fn(usize, usize, usize) -> f64) -> Field<F64> {
    Field {
        rows: n,
        cols: n,
        depth,
        cells: (0..n)
            .map(|i| (0..n).map(|j| (0..depth).map(|k| F64(f(i, j, k))).collect()).collect())
            .collect(),
    }
}

fn mass(f: &Field<F64>, c: usize) -> f64 {
    f.cells.iter().flat_map(|r| r.iter().map(|cell| cell[c].0)).sum()
}

fn close(a: f64, b: f64) -> bool {
    (a - b).abs() < 1e-9
}

#[test]
fn scalar_formulas() {
    assert_eq!(sigmoid(F64(0.0)).0, 0.5);
    assert_eq!(sigmoid(F64(2.0)).0, 0.5 * (1.0f64.tanh() + 1.0));
    assert_eq!(bell(F64(0.3), F64(0.3), F64(0.1)).0, 1.0);
    let u = field(1, 2, |_, _, k| if k == 0 { 0.2 } else { 0.5 });
    let g = growth(&u, &[F64(0.2), F64(0.4)], &[F64(0.1), F64(0.1)]);
    assert_eq!(g.cells[0][0][0].0, 1.0);
    assert_eq!(g.cells[0][0][1].0, bell(F64(0.5), F64(0.4), F64(0.1)).0 * 2.0 - 1.0);
}

#[test]
fn bumps_of_a_kernel() {
    let x = plane(&[&[0.5, 1.0]]);
    let k = ker_f(&x, &[F64(0.5), F64(0.0)], &[F64(0.1), F64(2.0)], &[F64(3.0), F64(1.0)]);
    assert_eq!(k.cells[0][0].0, 0.0 + 3.0 * (-0.0f64 / 0.1).exp() + (-(0.5f64 * 0.5) / 2.0).exp());
}

#[test]
fn convolution_with_a_cross() {
    let a = plane(&[&[1.0, 2.0, 3.0], &[4.0, 5.0, 6.0], &[7.0, 8.0, 9.0]]);
    let k = plane(&[&[0.0, 1.0, 0.0], &[0.0, 0.0, 0.0], &[0.0, 0.0, 0.0]]);
    let out = convolve2d_same_3x3(&a, &k);
    // The kernel is turned over, and there is nothing beyond the border.
    assert_eq!(
        values(&out),
        vec![vec![4.0, 5.0, 6.0], vec![7.0, 8.0, 9.0], vec![0.0, 0.0, 0.0]]
    );
}

#[test]
fn sobel_kernels() {
    assert_eq!(
        values(&kx::<F64>()),
        vec![vec![1.0, 0.0, -1.0], vec![2.0, 0.0, -2.0], vec![1.0, 0.0, -1.0]]
    );
    assert_eq!(
        values(&ky::<F64>()),
        vec![vec![1.0, 2.0, 1.0], vec![0.0, 0.0, 0.0], vec![-1.0, -2.0, -1.0]]
    );
}

#[test]
fn gradients_of_slopes() {
    let across = field(5, 1, |_, j, _| j as f64);
    assert_eq!(sobel_x(&across).cells[2][2][0].0, 8.0);
    assert_eq!(sobel_y(&across).cells[2][2][0].0, 0.0);
    let down = field(5, 1, |i, _, _| i as f64);
    let g = sobel(&down);
    assert_eq!(g.cells[2][2][0][0].0, 8.0);
    assert_eq!(g.cells[2][2][1][0].0, 0.0);
}

#[test]
fn shifts_and_back() {
    let a = plane(&[&[1.0, 2.0, 3.0], &[4.0, 5.0, 6.0], &[7.0, 8.0, 9.0]]);
    let f = fftshift_2d(&a);
    assert_eq!(
        values(&f),
        vec![vec![9.0, 7.0, 8.0], vec![3.0, 1.0, 2.0], vec![6.0, 4.0, 5.0]]
    );
    assert_eq!(values(&ifftshift_2d(&f)), values(&a));
    let f3 = fftshift_3d(&field(2, 1, |i, j, _| (2 * i + j) as f64));
    assert_eq!(f3.cells[0][0][0].0, 3.0);
}

#[test]
fn rolls_and_back() {
    let a = field(4, 1, |i, j, _| (4 * i + j) as f64);
    let r = roll_3d_axes01(&a, 1, -1);
    assert_eq!(r.cells[1][3][0].0, 0.0);
    let back = roll_3d_axes01(&r, -1, 1);
    for i in 0..4 {
        for j in 0..4 {
            assert_eq!(back.cells[i][j][0].0, a.cells[i][j][0].0);
        }
    }
    let v = VectorField {
        rows: 1,
        cols: 2,
        width: 1,
        depth: 1,
        cells: vec![vec![vec![vec![1]], vec![vec![2]]]],
    };
    assert_eq!(roll_4d_axes01(&v, 5, 3).cells[0][0][0][0], 2);
}

#[test]
fn transform_and_back() {
    let planner = Fft2DPlanner::new(Rust::new());
    let a = Field {
        rows: 2,
        cols: 3,
        depth: 1,
        cells: (0..2)
            .map(|i| {
                (0..3)
                    .map(|j| vec![Complex { re: F64((3 * i + j) as f64), im: F64(0.0) }])
                    .collect()
            })
            .collect(),
    };
    let f = planner.fft2(&a);
    assert!(close(f.cells[0][0][0].re.0, 15.0));
    assert!(close(f.cells[1][0][0].re.0, -9.0));
    let b = planner.ifft2(&f);
    for i in 0..2 {
        for j in 0..3 {
            assert!(close(b.cells[i][j][0].re.0, (3 * i + j) as f64));
            assert!(close(b.cells[i][j][0].im.0, 0.0));
        }
    }
}

#[test]
fn matrix_to_lists() {
    let m = ConnectivityMatrix::new(&vec![vec![1, 2], vec![0, 1]], 2);
    let (c0, c1) = conn_from_matrix(&m);
    assert_eq!(c0, vec![0, 0, 0, 1]);
    assert_eq!(c1, vec![vec![0], vec![1, 2, 3]]);
    let m = ConnectivityMatrix::new(&vec![vec![1, 0], vec![0, 1]], 2);
    assert_eq!(conn_from_matrix(&m), (vec![0, 1], vec![vec![0], vec![1]]));
}

#[test]
fn lists_to_flags() {
    let (c0, flags) = conn_from_lists(&[0, 1, 1], &[vec![2], vec![0, 1]], 2);
    assert_eq!(c0, vec![0, 1, 1]);
    assert_eq!(flags, vec![vec![false, false, true], vec![true, true, false]]);
}

fn params(nb_k: usize) -> Params<F64> {
    Params {
        r: vec![F64(0.5); nb_k],
        b: plane(&[&[0.5, 0.3, 0.0], &[0.7, 0.2, 0.0]]),
        w: plane(&[&[0.1, 0.05, 0.01], &[0.08, 0.06, 0.01]]),
        a: plane(&[&[0.0, 0.5, 0.0], &[0.0, 0.4, 0.0]]),
        m: vec![F64(0.1); nb_k],
        s: vec![F64(0.05); nb_k],
        h: vec![F64(0.5); nb_k],
        R: F64(10.0),
    }
}

#[test]
fn kernels_sum_to_one() {
    let p = params(2);
    let k = get_kernels(16, 16, 2, &p);
    assert!(close(mass(&k, 0), 1.0) && close(mass(&k, 1), 1.0));
    let planner = Fft2DPlanner::new(Rust::new());
    let c = build_kernel_computer(16, 16, 2).compute(&p, &planner);
    for k in 0..2 {
        assert!(close(c.fK.cells[0][0][k].re.0, 1.0));
        assert!(close(c.fK.cells[0][0][k].im.0, 0.0));
    }
    assert_eq!(c.m.len(), 2);
}

#[test]
fn draws_become_parameters() {
    let ranges = sample_ranges::<F64>(2);
    assert_eq!(ranges.len(), 27);
    assert_eq!((ranges[0].0 .0, ranges[0].1 .0), (0.2, 1.0));
    assert_eq!((ranges[2].0 .0, ranges[2].1 .0), (0.05, 0.5));
    assert_eq!((ranges[4].0 .0, ranges[4].1 .0), (0.001, 0.18));
    assert_eq!((ranges[26].0 .0, ranges[26].1 .0), (2.0, 25.0));
    let draws: Vec<F64> = (0..27).map(|i| F64(i as f64)).collect();
    let p = sample_params(&draws, 2);
    assert_eq!(p.r, vec![F64(0.0), F64(1.0)]);
    assert_eq!(p.h, vec![F64(6.0), F64(7.0)]);
    assert_eq!(values(&p.a), vec![vec![8.0, 9.0, 10.0], vec![11.0, 12.0, 13.0]]);
    assert_eq!(values(&p.w)[0][0], 14.0);
    assert_eq!(values(&p.b)[1][2], 25.0);
    assert_eq!(p.R.0, 26.0);
}

fn flow_of(n: usize, f: impl Fn(usize, usize, usize) -> f64) -> VectorField<F64> {
    VectorField {
        rows: n,
        cols: n,
        width: 2,
        depth: 1,
        cells: (0..n)
            .map(|i| {
                (0..n).map(|j| (0..2).map(|a| vec![F64(f(i, j, a))]).collect()).collect()
            })
            .collect(),
    }
}

#[test]
fn a_point_moves_one_cell() {
    let n = 16;
    let r = build_reintegration(n, n, F64(0.5), 5, F64(0.5), &"wall".to_string());
    let mut x = field(n, 1, |_, _, _| 0.0);
    x.cells[8][8][0] = F64(1.0);
    // A flow of two for half a step: one cell down.
    let moved = r.advect(&x, &flow_of(n, |_, _, a| if a == 0 { 2.0 } else { 0.0 }));
    assert!(close(moved.cells[9][8][0].0, 1.0));
    assert!(close(mass(&moved, 0), 1.0));
}

#[test]
fn walls_keep_mass() {
    let n = 16;
    let r = build_reintegration(n, n, F64(0.2), 5, F64(0.65), &"wall".to_string());
    let x = field(n, 1, |i, j, _| (i * 3 + j) as f64 * 0.01);
    let f = flow_of(n, |i, j, a| ((i * 7 + j * 5 + a) as f64).sin() * 40.0);
    let moved = r.advect(&x, &f);
    assert!(close(mass(&moved, 0), mass(&x, 0)));
}

#[test]
fn mass_is_lost_over_an_open_border() {
    let n = 16;
    let r = build_reintegration(n, n, F64(1.0), 5, F64(0.65), &"torus".to_string());
    let mut x = field(n, 1, |_, _, _| 0.0);
    x.cells[0][8][0] = F64(1.0);
    let moved = r.advect(&x, &flow_of(n, |_, _, a| if a == 0 { -3.0 } else { 0.0 }));
    assert!(mass(&moved, 0) < 0.5);
}

#[test]
fn parameters_move_with_mass() {
    let n = 16;
    for mix in ["avg", "softmax", "stoch"] {
        let r = build_reintegration_p(
            n,
            n,
            F64(1.0),
            5,
            F64(0.5),
            &"wall".to_string(),
            1,
            &mix.to_string(),
        );
        let mut x = field(n, 1, |_, _, _| 0.0);
        let mut h = field(n, 1, |_, _, _| 0.0);
        x.cells[8][8][0] = F64(1.0);
        h.cells[8][8][0] = F64(0.25);
        let (mx, mh) = r.advect(&x, &h, &flow_of(n, |_, _, a| if a == 1 { 1.0 } else { 0.0 }));
        assert!(close(mx.cells[8][9][0].0, 1.0));
        assert!((mh.cells[8][9][0].0 - 0.25).abs() < 1e-6);
    }
}

fn meeting(mix: &str) -> (f64, f64) {
    let n = 5;
    let r = build_reintegration_p(
        n,
        n,
        F64(1.0),
        2,
        F64(0.5),
        &"wall".to_string(),
        1,
        &mix.to_string(),
    );
    let mut x = field(n, 1, |_, _, _| 0.0);
    let mut h = field(n, 1, |_, _, _| 0.0);
    x.cells[1][2][0] = F64(1.0);
    x.cells[3][2][0] = F64(3.0);
    h.cells[3][2][0] = F64(1.0);
    let f = flow_of(n, |i, j, a| match (i, j, a) {
        (1, 2, 0) => 1.0,
        (3, 2, 0) => -1.0,
        _ => 0.0,
    });
    let (mx, mh) = r.advect(&x, &h, &f);
    (mx.cells[2][2][0].0, mh.cells[2][2][0].0)
}

#[test]
fn parameters_that_meet_are_averaged_by_mass() {
    let (mass, p) = meeting("avg");
    assert!(close(mass, 4.0));
    assert!(close(p, 0.75));
}

#[test]
fn parameters_that_meet_are_averaged_by_exponentials() {
    let (mass, p) = meeting("softmax");
    assert!(close(mass, 4.0));
    let (one, three) = (1f64.exp() - 1.0, 3f64.exp() - 1.0);
    assert!(close(p, three / (one + three)));
}

#[test]
fn parameters_that_meet_are_added_otherwise() {
    assert!(close(meeting("stoch").1, 1.0));
}

#[test]
fn parameters_do_not_change_where_mass_goes() {
    let n = 8;
    let border = "wall".to_string();
    let plain = build_reintegration(n, n, F64(0.5), 2, F64(0.65), &border);
    let x = field(n, 1, |i, j, _| (i * j) as f64);
    let f = flow_of(n, |i, j, a| if a == 0 { i as f64 - 3.0 } else { 2.0 - j as f64 });
    let moved = plain.advect(&x, &f);
    for mix in ["avg", "softmax", "stoch"] {
        let mix = mix.to_string();
        let r = build_reintegration_p(n, n, F64(0.5), 2, F64(0.65), &border, 2, &mix);
        let h = field(n, 2, |i, _, k| (i + k) as f64);
        assert_eq!(r.advect(&x, &h, &f).0.cells, moved.cells);
    }
}

fn world(n: usize) -> Config<F64> {
    Config {
        SX: n,
        SY: n,
        nb_k: 2,
        C: 2,
        c0: vec![0, 1],
        c1: vec![vec![0], vec![1]],
        dt: F64(0.2),
        dd: 5,
        sigma: F64(0.65),
        n: F64(2.0),
        theta_A: F64(1.0),
        border: "wall".to_string(),
    }
}

fn blob(n: usize) -> Field<F64> {
    field(n, 2, |i, j, c| {
        let dx = i as f64 - n as f64 / 2.0;
        let dy = j as f64 - n as f64 / 2.0;
        (-(dx * dx + dy * dy) / 8.0).exp() * (0.5 + 0.25 * c as f64)
    })
}

#[test]
fn step_of_a_walled_world_keeps_mass() {
    let n = 16;
    let cfg = world(n);
    let planner = Fft2DPlanner::new(Rust::new());
    let compiled = build_kernel_computer(n, n, 2).compute(&params(2), &planner);
    let start = State { A: blob(n) };
    let next = build_step_fn(&cfg).step(&start, &compiled, &planner);
    assert!(close(mass(&next.A, 0), mass(&start.A, 0)));
    assert!(close(mass(&next.A, 1), mass(&start.A, 1)));
    // Something moved.
    assert!((next.A.cells[8][8][0].0 - start.A.cells[8][8][0].0).abs() > 1e-6);
}

#[test]
fn step_with_parameters() {
    let n = 16;
    let cfg = ConfigP { base: world(n), mix: "avg".to_string() };
    let planner = Fft2DPlanner::new(Rust::new());
    let compiled = build_kernel_computer(n, n, 2).compute(&params(2), &planner);
    let start = StateP { A: blob(n), P: field(n, 2, |_, _, _| 0.5) };
    let next = build_step_fn_p(&cfg).step(&start, &compiled, &planner);
    assert!(close(mass(&next.A, 0), mass(&start.A, 0)));
    assert_eq!((next.P.rows, next.P.cols, next.P.depth), (16, 16, 2));
}

#[test]
fn rollout_keeps_every_state() {
    let n = 16;
    let cfg = world(n);
    let planner = Fft2DPlanner::new(Rust::new());
    let compiled = build_kernel_computer(n, n, 2).compute(&params(2), &planner);
    let start = State { A: blob(n) };
    let rollout = build_rollout(build_step_fn(&cfg));
    let (last, states) = rollout.run(&compiled, &start, 3, &planner);
    assert_eq!(states.len(), 3);
    let step = build_step_fn(&cfg);
    let one = step.step(&start, &compiled, &planner);
    assert_eq!(states[0].A.cells, one.A.cells);
    assert_eq!(last.A.cells, states[2].A.cells);
    let (same, none) = rollout.run(&compiled, &start, 0, &planner);
    assert!(none.is_empty());
    assert_eq!(same.A.cells, start.A.cells);
}

#[test]
fn a_step_makes_no_negative_mass_and_none_from_nothing() {
    let n = 16;
    let cfg = world(n);
    let planner = Fft2DPlanner::new(Rust::new());
    let compiled = build_kernel_computer(n, n, 2).compute(&params(2), &planner);
    let mut start = blob(n);
    for row in start.cells.iter_mut() {
        for cell in row.iter_mut() {
            cell[1] = F64(0.0);
        }
    }
    let next = build_step_fn(&cfg).step(&State { A: start }, &compiled, &planner);
    for row in &next.A.cells {
        for cell in row {
            assert!(cell[0].0 >= 0.0);
            assert_eq!(cell[1].0, 0.0);
        }
    }
}

#[test]
fn computed_spectra_are_those_of_the_kernels() {
    let p = params(1);
    let k = get_kernels(8, 8, 1, &p);
    let planner = Fft2DPlanner::new(Rust::new());
    let c = build_kernel_computer(8, 8, 1).compute(&p, &planner);
    let centred = Field {
        rows: 8,
        cols: 8,
        depth: 1,
        cells: (0..8)
            .map(|i| {
                (0..8)
                    .map(|j| {
                        vec![Complex { re: k.cells[(i + 4) % 8][(j + 4) % 8][0], im: F64(0.0) }]
                    })
                    .collect()
            })
            .collect(),
    };
    let want = planner.fft2(&centred);
    for i in 0..8 {
        for j in 0..8 {
            assert_eq!(c.fK.cells[i][j][0].re.0, want.cells[i][j][0].re.0);
            assert_eq!(c.fK.cells[i][j][0].im.0, want.cells[i][j][0].im.0);
        }
    }
}

#[test]
fn squares_that_can_be_moved() {
    let mover = |dd: i32, sigma: f64, border: &str| {
        build_reintegration(8, 8, F64(0.2), dd, F64(sigma), &border.to_string())
    };
    assert!(mover(5, 0.65, "wall").is_bounded());
    // Longer than the reach.
    assert!(!mover(1, 1.5, "torus").is_bounded());
    // Negative.
    assert!(!mover(5, -0.5, "torus").is_bounded());
    // Too long for the walls, not for a world without.
    assert!(!mover(5, 4.5, "wall").is_bounded());
    assert!(mover(5, 4.5, "torus").is_bounded());
    assert!(mover(5, 4.0, "wall").is_bounded());
}

#[test]
fn the_order_of_adding_does_not_matter_for_whole_numbers() {
    for n in 0..40 {
        let list: Vec<F64> = (1..=n).map(|i| F64(i as f64)).collect();
        assert_eq!(sum(&list).0, (n * (n + 1) / 2) as f64);
    }
}
