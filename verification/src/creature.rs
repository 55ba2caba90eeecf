//! Creatures: kernel files, and seeds placed on a grid.

use crate::bytes::read_u32;
use crate::complex::Complex;
use crate::scalar::Real;
use vstd::prelude::*;

verus! {

use crate::bytes::word_at;
use crate::scalar::{functional, integer_of, of_bits_of};

/// Number `i` of a kernel file: real part before imaginary part, in single precision.
pub open spec fn stored<S: Real>(data: Seq<u8>, i: int) -> Complex<S> {
    Complex {
        re: of_bits_of::<S>(word_at(data, 8 * i)),
        im: of_bits_of::<S>(word_at(data, 8 * i + 4)),
    }
}

/// Reads one kernel of `len` numbers.
fn read_kernel<S: Real>(data: &[u8], first: usize, len: usize) -> (kernel: Vec<Complex<S>>)
    requires
        (first + len) * 8 <= data@.len(),
    ensures
        kernel@.len() == len,
        functional::<S>() ==> forall|i: int|
            0 <= i < len ==> #[trigger] kernel@[i] == stored::<S>(data@, first + i),
{
    let total: usize = data.len();
    let mut kernel: Vec<Complex<S>> = Vec::new();
    let mut i: usize = 0;
    while i < len
        invariant
            i <= len,
            (first + len) * 8 <= total,
            total == data@.len(),
            kernel@.len() == i,
            functional::<S>() ==> forall|l: int|
                0 <= l < i ==> #[trigger] kernel@[l] == stored::<S>(data@, first + l),
        decreases len - i,
    {
        let offset: usize = (first + i) * 8;
        let re = S::of_bits(read_u32(data, offset));
        let im = S::of_bits(read_u32(data, offset + 4));
        kernel.push(Complex { re, im });
        i = i + 1;
    }
    kernel
}

/// The kernels of a file of spectra: for each kernel, `size` x `size` complex numbers.
pub fn load_kernels_fft<S: Real>(data: &[u8], num_kernels: usize, size: usize) -> (kernels: Vec<
    Vec<Complex<S>>,
>)
    requires
        data@.len() == num_kernels * (size * size) * 8,
        size * size <= usize::MAX,
    ensures
        kernels@.len() == num_kernels,
        forall|k: int| 0 <= k < num_kernels ==> (#[trigger] kernels@[k])@.len() == size * size,
        functional::<S>() ==> forall|k: int, i: int|
            0 <= k < num_kernels && 0 <= i < size * size ==> #[trigger] kernels@[k]@[i]
                == stored::<S>(data@, k * (size * size) + i),
{
    let total: usize = data.len();
    let len: usize = size * size;
    let mut kernels: Vec<Vec<Complex<S>>> = Vec::new();
    let mut k: usize = 0;
    while k < num_kernels
        invariant
            k <= num_kernels,
            len == size * size,
            total == data@.len(),
            total == num_kernels * len * 8,
            kernels@.len() == k,
            forall|l: int| 0 <= l < k ==> (#[trigger] kernels@[l])@.len() == len,
            functional::<S>() ==> forall|l: int, i: int|
                0 <= l < k && 0 <= i < len ==> #[trigger] kernels@[l]@[i] == stored::<S>(
                    data@,
                    l * len + i,
                ),
        decreases num_kernels - k,
    {
        proof {
            assert(k * len + len <= num_kernels * len && 0 <= k * len) by (nonlinear_arith)
                requires
                    0 <= k < num_kernels,
                    len >= 0,
            ;
        }
        let kernel = read_kernel::<S>(data, k * len, len);
        let ghost had = kernels@;
        kernels.push(kernel);
        proof {
            if functional::<S>() {
                assert forall|l: int, i: int|
                    0 <= l < k + 1 && 0 <= i < len implies #[trigger] kernels@[l]@[i] == stored::<
                    S,
                >(data@, l * len + i) by {
                    if l < k {
                        assert(kernels@[l] == had[l]);
                        assert(had[l]@[i] == stored::<S>(data@, l * len + i));
                    } else {
                        assert(kernel@[i] == stored::<S>(data@, k * len + i));
                    }
                }
            }
        }
        k = k + 1;
    }
    kernels
}

/// Entry `t` of a square of side `grid` with a square of side `seed` in its middle, and
/// nothing around it.
pub open spec fn centred_at<S: Real>(ch: Seq<S>, seed: int, grid: int, t: int) -> S {
    let pad = (grid - seed) / 2;
    let y = t / grid - pad;
    let x = t % grid - pad;
    if 0 <= y < seed && 0 <= x < seed {
        ch[y * seed + x]
    } else {
        integer_of::<S>(0i64)
    }
}

/// Puts a seed into the middle of a grid.
fn pad_channel<S: Real>(ch: &Vec<S>, seed_size: usize, grid_size: usize) -> (out: Vec<S>)
    requires
        seed_size <= grid_size,
        grid_size * grid_size <= usize::MAX,
        seed_size * seed_size <= ch@.len(),
    ensures
        out@.len() == grid_size * grid_size,
        functional::<S>() ==> forall|t: int|
            0 <= t < grid_size * grid_size ==> #[trigger] out@[t] == centred_at(
                ch@,
                seed_size as int,
                grid_size as int,
                t,
            ),
{
    let pad: usize = (grid_size - seed_size) / 2;
    let area: usize = grid_size * grid_size;
    let mut out: Vec<S> = Vec::new();
    let mut t: usize = 0;
    while t < area
        invariant
            t <= area,
            area == grid_size * grid_size,
            seed_size <= grid_size,
            seed_size * seed_size <= ch@.len(),
            pad == (grid_size - seed_size) / 2,
            out@.len() == t,
            functional::<S>() ==> forall|u: int|
                0 <= u < t ==> #[trigger] out@[u] == centred_at(
                    ch@,
                    seed_size as int,
                    grid_size as int,
                    u,
                ),
        decreases area - t,
    {
        assert(grid_size > 0) by (nonlinear_arith)
            requires
                t < grid_size * grid_size,
                t >= 0,
                grid_size >= 0,
        ;
        let row: usize = t / grid_size;
        let col: usize = t % grid_size;
        proof {
            let g = grid_size as int;
            assert(t as int / g < g) by (nonlinear_arith)
                requires
                    0 <= t < g * g,
                    g > 0,
            ;
        }
        if pad <= row && row - pad < seed_size && pad <= col && col - pad < seed_size {
            let y: usize = row - pad;
            let x: usize = col - pad;
            proof {
                assert(y * seed_size + x < seed_size * seed_size && 0 <= y * seed_size)
                    by (nonlinear_arith)
                    requires
                        0 <= y < seed_size,
                        0 <= x < seed_size,
                ;
            }
            let len: usize = ch.len();
            out.push(ch[y * seed_size + x]);
        } else {
            out.push(S::integer(0));
        }
        t = t + 1;
    }
    out
}

/// The channels of a seed, each in the middle of a grid.
pub fn load_seed<S: Real>(seed_channels: &Vec<Vec<S>>, seed_size: usize, grid_size: usize) -> (padded:
    Vec<Vec<S>>)
    requires
        seed_size <= grid_size,
        grid_size * grid_size <= usize::MAX,
        forall|c: int|
            0 <= c < seed_channels@.len() ==> seed_size * seed_size <= (
            #[trigger] seed_channels@[c])@.len(),
    ensures
        padded@.len() == seed_channels@.len(),
        forall|c: int|
            0 <= c < padded@.len() ==> (#[trigger] padded@[c])@.len() == grid_size * grid_size,
        functional::<S>() ==> forall|c: int, t: int|
            0 <= c < padded@.len() && 0 <= t < grid_size * grid_size ==> #[trigger] padded@[c]@[t]
                == centred_at(seed_channels@[c]@, seed_size as int, grid_size as int, t),
{
    let mut padded: Vec<Vec<S>> = Vec::new();
    let mut c: usize = 0;
    while c < seed_channels.len()
        invariant
            c <= seed_channels@.len(),
            seed_size <= grid_size,
            grid_size * grid_size <= usize::MAX,
            forall|c: int|
                0 <= c < seed_channels@.len() ==> seed_size * seed_size <= (
                #[trigger] seed_channels@[c])@.len(),
            padded@.len() == c,
            forall|d: int|
                0 <= d < c ==> (#[trigger] padded@[d])@.len() == grid_size * grid_size,
            functional::<S>() ==> forall|d: int, t: int|
                0 <= d < c && 0 <= t < grid_size * grid_size ==> #[trigger] padded@[d]@[t]
                    == centred_at(seed_channels@[d]@, seed_size as int, grid_size as int, t),
        decreases seed_channels@.len() - c,
    {
        assert(seed_size * seed_size <= seed_channels@[c as int]@.len());
        let p = pad_channel(&seed_channels[c], seed_size, grid_size);
        let ghost had = padded@;
        padded.push(p);
        proof {
            if functional::<S>() {
                assert forall|d: int, t: int|
                    0 <= d < c + 1 && 0 <= t < grid_size * grid_size implies
                    #[trigger] padded@[d]@[t] == centred_at(
                    seed_channels@[d]@,
                    seed_size as int,
                    grid_size as int,
                    t,
                ) by {
                    if d < c {
                        assert(padded@[d] == had[d]);
                        assert(had[d]@[t] == centred_at(
                            seed_channels@[d]@,
                            seed_size as int,
                            grid_size as int,
                            t,
                        ));
                    } else {
                        assert(p@[t] == padded@[d]@[t]);
                    }
                }
            }
        }
        c = c + 1;
    }
    padded
}

/// Where number `t` of a seed of side `seed` stands on a grid of side `grid`.
pub open spec fn place_of(oy: int, ox: int, seed: int, grid: int, t: int) -> int {
    (oy + t / seed) * grid + (ox + t % seed)
}

/// A grid after the first `n` numbers of a seed were put on it.
pub open spec fn stamped<S>(
    grid_cells: Seq<S>,
    src: Seq<S>,
    oy: int,
    ox: int,
    seed: int,
    grid: int,
    n: nat,
) -> Seq<S>
    decreases n,
{
    if n == 0 {
        grid_cells
    } else {
        stamped(grid_cells, src, oy, ox, seed, grid, (n - 1) as nat).update(
            place_of(oy, ox, seed, grid, n - 1),
            src[n - 1],
        )
    }
}

/// Whether every number of a seed stands on a grid of `area` cells.
pub open spec fn lands(oy: int, ox: int, seed: int, grid: int, area: int) -> bool {
    forall|t: int|
        0 <= t < seed * seed ==> 0 <= #[trigger] place_of(oy, ox, seed, grid, t) < area
}

/// Puts a seed on a grid.
fn stamp<S: Copy>(cells: &mut Vec<S>, src: &Vec<S>, oy: usize, ox: usize, seed: usize, grid: usize)
    requires
        lands(oy as int, ox as int, seed as int, grid as int, old(cells)@.len() as int),
        seed * seed <= src@.len(),
    ensures
        final(cells)@ == stamped(
            old(cells)@,
            src@,
            oy as int,
            ox as int,
            seed as int,
            grid as int,
            (seed * seed) as nat,
        ),
{
    let ghost s = cells@;
    let len: usize = cells.len();
    let available: usize = src.len();
    let count: usize = seed * seed;
    let mut t: usize = 0;
    while t < count
        invariant
            t <= count,
            count == seed * seed,
            count <= available,
            available == src@.len(),
            len == cells@.len(),
            len == s.len(),
            lands(oy as int, ox as int, seed as int, grid as int, len as int),
            cells@ == stamped(
                s,
                src@,
                oy as int,
                ox as int,
                seed as int,
                grid as int,
                t as nat,
            ),
        decreases count - t,
    {
        assert(seed > 0) by (nonlinear_arith)
            requires
                t < seed * seed,
                t >= 0,
                seed >= 0,
        ;
        let iy: usize = t / seed;
        let ix: usize = t % seed;
        assert(0 <= place_of(oy as int, ox as int, seed as int, grid as int, t as int) < len);
        let at: usize = place(oy, iy, ox, ix, grid);
        cells.set(at, src[t]);
        t = t + 1;
    }
}

/// A place on a grid; rows are not counted where the grid has no columns.
fn place(oy: usize, iy: usize, ox: usize, ix: usize, grid: usize) -> (at: usize)
    requires
        (oy + iy) * grid + (ox + ix) <= usize::MAX,
    ensures
        at == (oy + iy) * grid + (ox + ix),
{
    proof {
        let a = oy + iy;
        assert(0 <= a * grid) by (nonlinear_arith)
            requires
                a >= 0,
                grid >= 0,
        ;
        if grid > 0 {
            assert(a <= a * grid) by (nonlinear_arith)
                requires
                    a >= 0,
                    grid > 0,
            ;
        } else {
            assert(a * grid == 0) by (nonlinear_arith)
                requires
                    grid == 0,
            ;
        }
    }
    if grid == 0 {
        ox + ix
    } else {
        (oy + iy) * grid + (ox + ix)
    }
}

/// A creature: its seed, and the growth of its kernels.
pub struct CreatureConfig<W, S> {
    pub seed_size: usize,
    pub num_channels: usize,
    pub seed_channels: Vec<Vec<W>>,
    pub num_kernels: usize,
    pub m: Vec<S>,
    pub s: Vec<S>,
    pub h: Vec<S>,
}

/// How creatures are laid out: cells of a side, so many to a row of the grid.
#[derive(Clone, Copy, PartialEq, Eq, Structural)]
pub struct CellGrid {
    pub seed_size: usize,
    pub cell_size: usize,
    pub cells_per_row: usize,
    pub grid_size: usize,
}

impl CellGrid {
    /// The layout of a grid: where no cell size is given, eight cells make a row.
    pub fn new(grid_size: usize, cell_size: usize, seed_size: usize) -> (g: Self)
        requires
            cell_size > 0 || grid_size >= 8,
        ensures
            g.seed_size == seed_size,
            g.grid_size == grid_size,
            g.cell_size == (if cell_size == 0 {
                grid_size / 8
            } else {
                cell_size
            }),
            g.cells_per_row == grid_size / g.cell_size,
    {
        let cell: usize = if cell_size == 0 {
            grid_size / 8
        } else {
            cell_size
        };
        CellGrid { seed_size, cell_size: cell, cells_per_row: grid_size / cell, grid_size }
    }

    /// The first row of creature `i`.
    pub open spec fn top(self, i: int) -> int {
        (i / (self.cells_per_row as int)) * self.cell_size
    }

    /// The first column of creature `i`.
    pub open spec fn left(self, i: int) -> int {
        (i % (self.cells_per_row as int)) * self.cell_size
    }

    /// Where number `t` of the seed of creature `i` stands.
    pub open spec fn place(self, i: int, t: int) -> int {
        place_of(self.top(i), self.left(i), self.seed_size as int, self.grid_size as int, t)
    }

    /// Whether the first `n` creatures stand on the grid.
    pub open spec fn holds(self, n: int) -> bool {
        &&& n == 0 || self.cells_per_row > 0
        &&& forall|i: int, t: int|
            0 <= i < n && 0 <= t < self.seed_size * self.seed_size ==> 0 <= #[trigger] self.place(
                i,
                t,
            ) < self.grid_size * self.grid_size
        &&& forall|i: int|
            0 <= i < n ==> #[trigger] self.top(i) <= usize::MAX && self.left(i) <= usize::MAX
    }
}

/// A channel of a grid after the first `n` creatures were put on it, each over those
/// before it.
pub open spec fn peopled<W: Real, S>(
    configs: Seq<CreatureConfig<W, S>>,
    g: CellGrid,
    c: int,
    n: nat,
) -> Seq<W>
    decreases n,
{
    if n == 0 {
        Seq::new((g.grid_size * g.grid_size) as nat, |t: int| integer_of::<W>(0i64))
    } else {
        let before = peopled(configs, g, c, (n - 1) as nat);
        if c < configs[n - 1].num_channels {
            stamped(
                before,
                configs[n - 1].seed_channels@[c]@,
                g.top(n - 1),
                g.left(n - 1),
                g.seed_size as int,
                g.grid_size as int,
                (g.seed_size * g.seed_size) as nat,
            )
        } else {
            before
        }
    }
}

/// Whether creatures have the seeds that a layout asks for, in no more than so many
/// channels unless seeds are empty.
pub open spec fn have_seeds<W, S>(
    configs: Seq<CreatureConfig<W, S>>,
    g: CellGrid,
    num_channels: int,
) -> bool {
    &&& forall|i: int|
        0 <= i < configs.len() ==> (#[trigger] configs[i]).num_channels
            <= configs[i].seed_channels@.len() && (configs[i].num_channels <= num_channels
            || g.seed_size == 0)
    &&& forall|i: int, c: int|
        0 <= i < configs.len() && 0 <= c < configs[i].num_channels ==> g.seed_size * g.seed_size
            <= (#[trigger] configs[i].seed_channels@[c])@.len()
}

/// Stamping keeps the number of cells.
proof fn lemma_stamped_len<S>(
    cells: Seq<S>,
    src: Seq<S>,
    oy: int,
    ox: int,
    seed: int,
    grid: int,
    n: nat,
)
    requires
        lands(oy, ox, seed, grid, cells.len() as int),
        n <= seed * seed,
    ensures
        stamped(cells, src, oy, ox, seed, grid, n).len() == cells.len(),
    decreases n,
{
    if n > 0 {
        lemma_stamped_len(cells, src, oy, ox, seed, grid, (n - 1) as nat);
        assert(0 <= place_of(oy, ox, seed, grid, n - 1) < cells.len());
    }
}

/// One channel of a grid with all creatures on it.
fn people_channel<W: Real, S>(
    configs: &Vec<CreatureConfig<W, S>>,
    g: &CellGrid,
    c: usize,
    Ghost(num_channels): Ghost<int>,
) -> (cells: Vec<W>)
    requires
        g.grid_size * g.grid_size <= usize::MAX,
        g.holds(configs@.len() as int),
        have_seeds(configs@, *g, num_channels),
    ensures
        cells@.len() == g.grid_size * g.grid_size,
        functional::<W>() ==> cells@ == peopled(configs@, *g, c as int, configs@.len()),
{
    let area: usize = g.grid_size * g.grid_size;
    let zero = W::integer(0);
    let mut cells: Vec<W> = Vec::new();
    let mut t: usize = 0;
    while t < area
        invariant
            t <= area,
            cells@ == Seq::new(t as nat, |t: int| zero),
        decreases area - t,
    {
        cells.push(zero);
        t = t + 1;
        assert(cells@ =~= Seq::new(t as nat, |t: int| zero));
    }
    let mut i: usize = 0;
    assert(functional::<W>() ==> cells@ =~= peopled(configs@, *g, c as int, 0));
    while i < configs.len()
        invariant
            i <= configs@.len(),
            area == g.grid_size * g.grid_size,
            g.holds(configs@.len() as int),
            have_seeds(configs@, *g, num_channels),
            cells@.len() == area,
            functional::<W>() ==> cells@ == peopled(configs@, *g, c as int, i as nat),
        decreases configs@.len() - i,
    {
        let config = &configs[i];
        assert(configs@[i as int].num_channels <= configs@[i as int].seed_channels@.len());
        if c < config.num_channels {
            assert(g.seed_size * g.seed_size <= configs@[i as int].seed_channels@[c as int]@.len());
            assert(g.top(i as int) <= usize::MAX && g.left(i as int) <= usize::MAX);
            let row: usize = i / g.cells_per_row;
            let col: usize = i % g.cells_per_row;
            let oy: usize = row * g.cell_size;
            let ox: usize = col * g.cell_size;
            proof {
                assert forall|t: int| 0 <= t < g.seed_size * g.seed_size implies 0
                    <= #[trigger] place_of(
                    oy as int,
                    ox as int,
                    g.seed_size as int,
                    g.grid_size as int,
                    t,
                ) < area by {
                    assert(0 <= g.place(i as int, t) < area);
                }
                lemma_stamped_len(
                    cells@,
                    config.seed_channels@[c as int]@,
                    oy as int,
                    ox as int,
                    g.seed_size as int,
                    g.grid_size as int,
                    (g.seed_size * g.seed_size) as nat,
                );
            }
            stamp(&mut cells, &config.seed_channels[c], oy, ox, g.seed_size, g.grid_size);
        }
        i = i + 1;
    }
    cells
}

/// All channels of a grid with all creatures on it.
pub fn place_creatures<W: Real, S>(
    configs: &Vec<CreatureConfig<W, S>>,
    g: &CellGrid,
    num_channels: usize,
) -> (channels: Vec<Vec<W>>)
    requires
        g.grid_size * g.grid_size <= usize::MAX,
        g.holds(configs@.len() as int),
        have_seeds(configs@, *g, num_channels as int),
    ensures
        channels@.len() == num_channels,
        forall|c: int|
            0 <= c < num_channels ==> (#[trigger] channels@[c])@.len() == g.grid_size
                * g.grid_size,
        functional::<W>() ==> forall|c: int|
            0 <= c < num_channels ==> (#[trigger] channels@[c])@ == peopled(
                configs@,
                *g,
                c,
                configs@.len(),
            ),
{
    let mut channels: Vec<Vec<W>> = Vec::new();
    let mut c: usize = 0;
    while c < num_channels
        invariant
            c <= num_channels,
            g.grid_size * g.grid_size <= usize::MAX,
            g.holds(configs@.len() as int),
            have_seeds(configs@, *g, num_channels as int),
            channels@.len() == c,
            forall|d: int|
                0 <= d < c ==> (#[trigger] channels@[d])@.len() == g.grid_size * g.grid_size,
            functional::<W>() ==> forall|d: int|
                0 <= d < c ==> (#[trigger] channels@[d])@ == peopled(
                    configs@,
                    *g,
                    d,
                    configs@.len(),
                ),
        decreases num_channels - c,
    {
        channels.push(people_channel(configs, g, c, Ghost(num_channels as int)));
        c = c + 1;
    }
    channels
}

/// Where cells are no smaller than seeds, creatures stand beside one another: no two
/// numbers of the same seed and no numbers of two seeds share a place.
pub proof fn law_creatures_do_not_overlap(g: CellGrid, i: int, t: int, j: int, u: int)
    requires
        0 < g.seed_size <= g.cell_size,
        0 < g.cells_per_row,
        g.cells_per_row * g.cell_size <= g.grid_size,
        0 <= i,
        0 <= j,
        0 <= t < g.seed_size * g.seed_size,
        0 <= u < g.seed_size * g.seed_size,
        g.place(i, t) == g.place(j, u),
    ensures
        i == j,
        t == u,
{
    let seed = g.seed_size as int;
    let cell = g.cell_size as int;
    let grid = g.grid_size as int;
    let cpr = g.cells_per_row as int;
    lemma_place_parts(seed, cell, cpr, grid, i, t);
    lemma_place_parts(seed, cell, cpr, grid, j, u);
    let p = g.place(i, t);
    let y = p / grid;
    let x = p % grid;
    assert(y / cell == i / cpr && y / cell == j / cpr);
    assert(x / cell == i % cpr && x / cell == j % cpr);
    assert(y % cell == t / seed && y % cell == u / seed);
    assert(x % cell == t % seed && x % cell == u % seed);
    vstd::arithmetic::div_mod::lemma_fundamental_div_mod(i, cpr);
    vstd::arithmetic::div_mod::lemma_fundamental_div_mod(j, cpr);
    vstd::arithmetic::div_mod::lemma_fundamental_div_mod(t, seed);
    vstd::arithmetic::div_mod::lemma_fundamental_div_mod(u, seed);
}

/// What a place says of the creature and the number that stand there.
proof fn lemma_place_parts(seed: int, cell: int, cpr: int, grid: int, i: int, t: int)
    requires
        0 < seed <= cell,
        0 < cpr,
        cpr * cell <= grid,
        0 <= i,
        0 <= t < seed * seed,
    ensures
        ({
            let p = place_of((i / cpr) * cell, (i % cpr) * cell, seed, grid, t);
            &&& p / grid / cell == i / cpr
            &&& p / grid % cell == t / seed
            &&& p % grid / cell == i % cpr
            &&& p % grid % cell == t % seed
        }),
{
    let iy = t / seed;
    let ix = t % seed;
    let row = i / cpr;
    let col = i % cpr;
    assert(0 <= iy < seed) by (nonlinear_arith)
        requires
            0 <= t < seed * seed,
            seed > 0,
            iy == t / seed,
    ;
    vstd::arithmetic::div_mod::lemma_mod_bound(t, seed);
    vstd::arithmetic::div_mod::lemma_mod_bound(i, cpr);
    vstd::arithmetic::div_mod::lemma_div_pos_is_pos(i, cpr);
    let y = row * cell + iy;
    let x = col * cell + ix;
    assert(col * cell + cell <= cpr * cell && 0 <= col * cell) by (nonlinear_arith)
        requires
            0 <= col < cpr,
            cell > 0,
    ;
    assert(0 <= row * cell) by (nonlinear_arith)
        requires
            0 <= row,
            cell > 0,
    ;
    let p = place_of(row * cell, col * cell, seed, grid, t);
    assert(p == y * grid + x);
    vstd::arithmetic::div_mod::lemma_fundamental_div_mod_converse(p, grid, y, x);
    vstd::arithmetic::div_mod::lemma_fundamental_div_mod_converse(y, cell, row, iy);
    vstd::arithmetic::div_mod::lemma_fundamental_div_mod_converse(x, cell, col, ix);
}

/// Appends numbers.
fn extend<S: Copy>(out: &mut Vec<S>, more: &Vec<S>)
    ensures
        final(out)@ == old(out)@ + more@,
{
    let ghost had = out@;
    let mut i: usize = 0;
    assert(out@ =~= had + more@.take(0));
    while i < more.len()
        invariant
            i <= more@.len(),
            out@ == had + more@.take(i as int),
        decreases more@.len() - i,
    {
        out.push(more[i]);
        assert(out@ =~= had + more@.take(i + 1));
        i = i + 1;
    }
    assert(more@.take(i as int) =~= more@);
}

/// The growth centres of the first `n` creatures, one behind the other.
pub open spec fn all_m<W, S>(configs: Seq<CreatureConfig<W, S>>, n: nat) -> Seq<S>
    decreases n,
{
    if n == 0 {
        seq![]
    } else {
        all_m(configs, (n - 1) as nat) + configs[n - 1].m@
    }
}

/// The growth widths of the first `n` creatures, one behind the other.
pub open spec fn all_s<W, S>(configs: Seq<CreatureConfig<W, S>>, n: nat) -> Seq<S>
    decreases n,
{
    if n == 0 {
        seq![]
    } else {
        all_s(configs, (n - 1) as nat) + configs[n - 1].s@
    }
}

/// The growth weights of the first `n` creatures, one behind the other.
pub open spec fn all_h<W, S>(configs: Seq<CreatureConfig<W, S>>, n: nat) -> Seq<S>
    decreases n,
{
    if n == 0 {
        seq![]
    } else {
        all_h(configs, (n - 1) as nat) + configs[n - 1].h@
    }
}

/// The number of kernels of the first `n` creatures.
pub open spec fn kernels_until<W, S>(configs: Seq<CreatureConfig<W, S>>, n: nat) -> int
    decreases n,
{
    if n == 0 {
        0
    } else {
        kernels_until(configs, (n - 1) as nat) + configs[n - 1].num_kernels
    }
}

/// The kernels of all creatures: their growth, their number, and where those of each
/// creature start.
pub struct Population<S> {
    pub m: Vec<S>,
    pub s: Vec<S>,
    pub h: Vec<S>,
    pub num_kernels: usize,
    pub first_kernel: Vec<usize>,
}

/// More creatures have no fewer kernels.
pub proof fn lemma_kernels_grow<W, S>(configs: Seq<CreatureConfig<W, S>>, n: nat, m: nat)
    requires
        n <= m,
    ensures
        0 <= kernels_until(configs, n) <= kernels_until(configs, m),
    decreases m,
{
    if m > n {
        lemma_kernels_grow(configs, n, (m - 1) as nat);
    } else if n > 0 {
        lemma_kernels_grow(configs, (n - 1) as nat, (n - 1) as nat);
    }
}

/// Gathers the kernels of all creatures.
pub fn gather_growth<W, S: Copy>(configs: &Vec<CreatureConfig<W, S>>) -> (p: Population<S>)
    requires
        kernels_until(configs@, configs@.len()) <= usize::MAX,
    ensures
        p.m@ == all_m(configs@, configs@.len()),
        p.s@ == all_s(configs@, configs@.len()),
        p.h@ == all_h(configs@, configs@.len()),
        p.num_kernels == kernels_until(configs@, configs@.len()),
        p.first_kernel@.len() == configs@.len(),
        forall|i: int|
            0 <= i < configs@.len() ==> #[trigger] p.first_kernel@[i] == kernels_until(
                configs@,
                i as nat,
            ),
{
    let mut m: Vec<S> = Vec::new();
    let mut s: Vec<S> = Vec::new();
    let mut h: Vec<S> = Vec::new();
    let mut num_kernels: usize = 0;
    let mut first_kernel: Vec<usize> = Vec::new();
    let mut i: usize = 0;
    while i < configs.len()
        invariant
            i <= configs@.len(),
            kernels_until(configs@, configs@.len()) <= usize::MAX,
            m@ == all_m(configs@, i as nat),
            s@ == all_s(configs@, i as nat),
            h@ == all_h(configs@, i as nat),
            num_kernels == kernels_until(configs@, i as nat),
            first_kernel@.len() == i,
            forall|j: int|
                0 <= j < i ==> #[trigger] first_kernel@[j] == kernels_until(configs@, j as nat),
        decreases configs@.len() - i,
    {
        proof {
            lemma_kernels_grow(configs@, (i + 1) as nat, configs@.len());
        }
        extend(&mut m, &configs[i].m);
        extend(&mut s, &configs[i].s);
        extend(&mut h, &configs[i].h);
        first_kernel.push(num_kernels);
        num_kernels = num_kernels + configs[i].num_kernels;
        i = i + 1;
    }
    Population { m, s, h, num_kernels, first_kernel }
}

/// The input channel of each kernel, taken in turn.
pub fn round_robin_inputs(num_kernels: u32, num_channels: u32) -> (c0: Vec<u32>)
    requires
        num_channels > 0,
    ensures
        c0@.len() == num_kernels,
        forall|k: int| 0 <= k < num_kernels ==> #[trigger] c0@[k] == k % (num_channels as int),
{
    let mut c0: Vec<u32> = Vec::new();
    let mut k: u32 = 0;
    while k < num_kernels
        invariant
            k <= num_kernels,
            num_channels > 0,
            c0@.len() == k,
            forall|l: int| 0 <= l < k ==> #[trigger] c0@[l] == l % (num_channels as int),
        decreases num_kernels - k,
    {
        c0.push(k % num_channels);
        k = k + 1;
    }
    c0
}

/// The kernels below `n` that fall to a channel taken in turn, in order.
pub open spec fn turns_of(c: int, channels: int, n: nat) -> Seq<u32>
    decreases n,
{
    if n == 0 {
        seq![]
    } else if (n - 1) % channels == c {
        turns_of(c, channels, (n - 1) as nat).push((n - 1) as u32)
    } else {
        turns_of(c, channels, (n - 1) as nat)
    }
}

/// The kernels that feed each channel, taken in turn.
pub fn round_robin_outputs(num_kernels: u32, num_channels: u32) -> (c1: Vec<Vec<u32>>)
    requires
        num_channels > 0,
    ensures
        c1@.len() == num_channels,
        forall|c: int|
            0 <= c < num_channels ==> (#[trigger] c1@[c])@ == turns_of(
                c,
                num_channels as int,
                num_kernels as nat,
            ),
{
    let mut c1: Vec<Vec<u32>> = Vec::new();
    let mut c: u32 = 0;
    while c < num_channels
        invariant
            c <= num_channels,
            num_channels > 0,
            c1@.len() == c,
            forall|d: int|
                0 <= d < c ==> (#[trigger] c1@[d])@ == turns_of(
                    d,
                    num_channels as int,
                    num_kernels as nat,
                ),
        decreases num_channels - c,
    {
        let mut list: Vec<u32> = Vec::new();
        let mut k: u32 = 0;
        while k < num_kernels
            invariant
                k <= num_kernels,
                c < num_channels,
                list@ == turns_of(c as int, num_channels as int, k as nat),
            decreases num_kernels - k,
        {
            if k % num_channels == c {
                list.push(k);
            }
            k = k + 1;
        }
        c1.push(list);
        c = c + 1;
    }
    c1
}

} // verus!
