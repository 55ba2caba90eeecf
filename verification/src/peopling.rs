//! Where creatures stand, and whose kernels are whose.

use crate::complex::Complex;
use crate::creature::{
    gather_growth, load_kernels_fft, load_seed, place_creatures, round_robin_inputs,
    round_robin_outputs, CellGrid, CreatureConfig, Population,
};
use crate::scalar::Real;
use crate::settlement::{settle, Settlement};
use vstd::prelude::*;

verus! {

use crate::creature::{
    all_h, all_m, all_s, kernels_until, law_creatures_do_not_overlap, lemma_kernels_grow, lands,
    peopled, place_of, stamped, turns_of,
};
use crate::scalar::{functional, integer_of, of_bits_of};
use vstd::arithmetic::div_mod::{lemma_fundamental_div_mod_converse, lemma_mod_bound};

/// A place, counted row by row.
proof fn lemma_row_place(m: int, w: int, y: int, x: int)
    requires
        0 <= y < m,
        0 <= x < w,
    ensures
        0 <= y * w + x < m * w,
        (y * w + x) / w == y,
        (y * w + x) % w == x,
{
    let p = y * w + x;
    assert(0 <= p < m * w) by (nonlinear_arith)
        requires
            0 <= y < m,
            0 <= x < w,
            p == y * w + x,
    ;
    lemma_fundamental_div_mod_converse(p, w, y, x);
}

/// A loaded seed stands in the middle of the grid, row by row as it was, with nothing around it.
pub proof fn law_seeds_stand_in_the_middle<S: Real>(
    seed_channels: &Vec<Vec<S>>,
    seed: usize,
    grid: usize,
    padded: Vec<Vec<S>>,
    c: int,
    row: int,
    col: int,
)
    requires
        functional::<S>(),
        seed <= grid,
        grid * grid <= usize::MAX,
        call_ensures(load_seed::<S>, (seed_channels, seed, grid), padded),
        0 <= c < seed_channels@.len(),
        0 <= row < grid,
        0 <= col < grid,
    ensures
        ({
            let pad = (grid - seed) / 2;
            let y = row - pad;
            let x = col - pad;
            let got = padded@[c]@[row * grid + col];
            &&& 0 <= y < seed && 0 <= x < seed ==> got == seed_channels@[c]@[y * seed + x]
            &&& !(0 <= y < seed && 0 <= x < seed) ==> got == integer_of::<S>(0i64)
        }),
{
    lemma_row_place(grid as int, grid as int, row, col);
}

/// A file of spectra holds kernel after kernel, each row by row, each number as the words of its
/// real and its imaginary part, least significant byte first.
pub proof fn law_kernel_files_stand_in_order<S: Real>(
    data: &[u8],
    num_kernels: usize,
    size: usize,
    kernels: Vec<Vec<Complex<S>>>,
    k: int,
    y: int,
    x: int,
)
    requires
        functional::<S>(),
        data@.len() == num_kernels * (size * size) * 8,
        size * size <= usize::MAX,
        call_ensures(load_kernels_fft::<S>, (data, num_kernels, size), kernels),
        0 <= k < num_kernels,
        0 <= y < size,
        0 <= x < size,
    ensures
        ({
            let at = 8 * (k * (size * size) + (y * size + x));
            let got = kernels@[k]@[y * size + x];
            &&& got.re == of_bits_of::<S>(
                (data@[at] + 256 * data@[at + 1] + 65536 * data@[at + 2] + 16777216 * data@[at
                    + 3]) as u32,
            )
            &&& got.im == of_bits_of::<S>(
                (data@[at + 4] + 256 * data@[at + 5] + 65536 * data@[at + 6] + 16777216 * data@[at
                    + 7]) as u32,
            )
        }),
{
    lemma_row_place(size as int, size as int, y, x);
}

/// A place where no number of a seed is put stays as it was.
proof fn lemma_stamped_other<S>(
    cells: Seq<S>,
    src: Seq<S>,
    oy: int,
    ox: int,
    seed: int,
    grid: int,
    n: nat,
    p: int,
)
    requires
        lands(oy, ox, seed, grid, cells.len() as int),
        n <= seed * seed,
        0 <= p < cells.len(),
        forall|t: int| 0 <= t < n ==> #[trigger] place_of(oy, ox, seed, grid, t) != p,
    ensures
        stamped(cells, src, oy, ox, seed, grid, n).len() == cells.len(),
        stamped(cells, src, oy, ox, seed, grid, n)[p] == cells[p],
    decreases n,
{
    if n > 0 {
        lemma_stamped_other(cells, src, oy, ox, seed, grid, (n - 1) as nat, p);
        assert(place_of(oy, ox, seed, grid, n - 1) != p);
        assert(0 <= place_of(oy, ox, seed, grid, n - 1) < cells.len());
    }
}

/// A number of a seed is found where it was put.
proof fn lemma_stamped_here<S>(
    cells: Seq<S>,
    src: Seq<S>,
    oy: int,
    ox: int,
    seed: int,
    grid: int,
    n: nat,
    t: int,
)
    requires
        lands(oy, ox, seed, grid, cells.len() as int),
        n <= seed * seed,
        0 <= t < n,
        forall|u: int|
            t < u < n ==> #[trigger] place_of(oy, ox, seed, grid, u) != place_of(
                oy,
                ox,
                seed,
                grid,
                t,
            ),
    ensures
        stamped(cells, src, oy, ox, seed, grid, n).len() == cells.len(),
        stamped(cells, src, oy, ox, seed, grid, n)[place_of(oy, ox, seed, grid, t)] == src[t],
    decreases n,
{
    let m = (n - 1) as nat;
    assert(0 <= place_of(oy, ox, seed, grid, n - 1) < cells.len());
    assert(0 <= place_of(oy, ox, seed, grid, t) < cells.len());
    if t < m {
        lemma_stamped_here(cells, src, oy, ox, seed, grid, m, t);
        assert(place_of(oy, ox, seed, grid, n - 1) != place_of(oy, ox, seed, grid, t));
    } else {
        lemma_stamped_len(cells, src, oy, ox, seed, grid, m);
    }
}

/// Putting a seed on a grid keeps the number of cells.
proof fn lemma_stamped_len<S>(
    cells: Seq<S>,
    src: Seq<S>,
    oy: int,
    ox: int,
    seed: int,
    grid: int,
    n: nat,
)
    requires
        lands(oy, ox, seed, grid, cells.len() as int),
        n <= seed * seed,
    ensures
        stamped(cells, src, oy, ox, seed, grid, n).len() == cells.len(),
    decreases n,
{
    if n > 0 {
        lemma_stamped_len(cells, src, oy, ox, seed, grid, (n - 1) as nat);
    }
}

/// Whether seeds have room in their cells, and cells on the grid.
pub open spec fn roomy(g: CellGrid) -> bool {
    &&& 0 < g.seed_size <= g.cell_size
    &&& 0 < g.cells_per_row
    &&& g.cells_per_row * g.cell_size <= g.grid_size
}

/// A channel after the first creatures were put on the grid.
proof fn lemma_peopled<W: Real, S>(
    configs: Seq<CreatureConfig<W, S>>,
    g: CellGrid,
    c: int,
    n: nat,
    i: int,
    t: int,
    p: int,
)
    requires
        roomy(g),
        g.holds(n as int),
        n <= configs.len(),
        0 <= t < g.seed_size * g.seed_size,
        0 <= i,
        0 <= p < g.grid_size * g.grid_size,
    ensures
        peopled(configs, g, c, n).len() == g.grid_size * g.grid_size,
        i < n && c < configs[i].num_channels ==> peopled(configs, g, c, n)[g.place(i, t)]
            == configs[i].seed_channels@[c]@[t],
        (forall|j: int, u: int|
            0 <= j < n && 0 <= u < g.seed_size * g.seed_size && c < configs[j].num_channels
                ==> #[trigger] g.place(j, u) != p) ==> peopled(configs, g, c, n)[p] == integer_of::<
            W,
        >(0i64),
    decreases n,
{
    let area = g.grid_size * g.grid_size;
    if n > 0 {
        let m = (n - 1) as nat;
        let k = m as int;
        assert(g.holds(m as int));
        lemma_peopled(configs, g, c, m, i, t, p);
        let before = peopled(configs, g, c, m);
        let seed = g.seed_size as int;
        let grid = g.grid_size as int;
        if c < configs[k].num_channels {
            let src = configs[k].seed_channels@[c]@;
            let oy = g.top(k);
            let ox = g.left(k);
            let all = (seed * seed) as nat;
            assert(lands(oy, ox, seed, grid, area)) by {
                assert forall|u: int| 0 <= u < seed * seed implies 0 <= #[trigger] place_of(
                    oy,
                    ox,
                    seed,
                    grid,
                    u,
                ) < area by {
                    assert(0 <= g.place(k, u) < area);
                }
            }
            lemma_stamped_len(before, src, oy, ox, seed, grid, all);
            if i == k {
                assert forall|u: int| t < u < all implies #[trigger] place_of(
                    oy,
                    ox,
                    seed,
                    grid,
                    u,
                ) != place_of(oy, ox, seed, grid, t) by {
                    if g.place(k, u) == g.place(k, t) {
                        law_creatures_do_not_overlap(g, k, u, k, t);
                    }
                }
                lemma_stamped_here(before, src, oy, ox, seed, grid, all, t);
            } else if i < n {
                let q = g.place(i, t);
                assert(0 <= q < area);
                assert forall|u: int| 0 <= u < all implies #[trigger] place_of(
                    oy,
                    ox,
                    seed,
                    grid,
                    u,
                ) != q by {
                    if g.place(k, u) == g.place(i, t) {
                        law_creatures_do_not_overlap(g, k, u, i, t);
                    }
                }
                lemma_stamped_other(before, src, oy, ox, seed, grid, all, q);
            }
            if forall|j: int, u: int|
                0 <= j < n && 0 <= u < g.seed_size * g.seed_size && c < configs[j].num_channels
                    ==> #[trigger] g.place(j, u) != p {
                assert forall|u: int| 0 <= u < all implies #[trigger] place_of(
                    oy,
                    ox,
                    seed,
                    grid,
                    u,
                ) != p by {
                    assert(g.place(k, u) != p);
                }
                lemma_stamped_other(before, src, oy, ox, seed, grid, all, p);
            }
        }
    }
}

/// Creatures stand whole on the grid: creature `i` fills a square whose upper left corner is that
/// of its cell, cells being counted row by row, and holds its seed there, row by row, in every
/// channel that it has. A cell of the grid that no creature fills is empty.
pub proof fn law_creatures_stand_whole<W: Real, S>(
    configs: &Vec<CreatureConfig<W, S>>,
    g: &CellGrid,
    num_channels: usize,
    channels: Vec<Vec<W>>,
    c: int,
    i: int,
    y: int,
    x: int,
    p: int,
)
    requires
        functional::<W>(),
        roomy(*g),
        g.grid_size * g.grid_size <= usize::MAX,
        g.holds(configs@.len() as int),
        call_ensures(place_creatures::<W, S>, (configs, g, num_channels), channels),
        0 <= c < num_channels,
        0 <= i < configs@.len(),
        0 <= y < g.seed_size,
        0 <= x < g.seed_size,
        0 <= p < g.grid_size * g.grid_size,
    ensures
        ({
            let per_row = g.cells_per_row as int;
            let seed = g.seed_size as int;
            let row = (i / per_row) * g.cell_size + y;
            let col = (i % per_row) * g.cell_size + x;
            &&& c < configs@[i].num_channels ==> channels@[c]@[row * g.grid_size + col]
                == configs@[i].seed_channels@[c]@[y * seed + x]
            &&& (forall|j: int, v: int, u: int|
                0 <= j < configs@.len() && 0 <= v < seed && 0 <= u < seed && c
                    < configs@[j].num_channels ==> #[trigger] corner(*g, j, v, u) != p)
                ==> channels@[c]@[p] == integer_of::<W>(0i64)
        }),
{
    let seed = g.seed_size as int;
    let t = y * seed + x;
    lemma_row_place(seed, seed, y, x);
    lemma_peopled(configs@, *g, c, configs@.len(), i, t, p);
    assert(channels@[c]@ == peopled(configs@, *g, c, configs@.len()));
    if forall|j: int, v: int, u: int|
        0 <= j < configs@.len() && 0 <= v < seed && 0 <= u < seed && c < configs@[j].num_channels
            ==> #[trigger] corner(*g, j, v, u) != p {
        assert forall|j: int, u: int|
            0 <= j < configs@.len() && 0 <= u < g.seed_size * g.seed_size && c
                < configs@[j].num_channels implies #[trigger] g.place(j, u) != p by {
            let a = u / seed;
            let b = u % seed;
            lemma_mod_bound(u, seed);
            assert(0 <= a < seed) by (nonlinear_arith)
                requires
                    0 <= u < seed * seed,
                    seed > 0,
                    a == u / seed,
            ;
            assert(corner(*g, j, a, b) != p);
        }
    }
}

/// Where row `y` and column `x` of creature `i` stand.
pub open spec fn corner(g: CellGrid, i: int, y: int, x: int) -> int {
    ((i / (g.cells_per_row as int)) * g.cell_size + y) * g.grid_size + ((i % (
    g.cells_per_row as int)) * g.cell_size + x)
}

/// Kernels taken in turn: kernel `k` reads the channel that is its remainder by their number, and
/// a channel is fed by just the kernels whose remainder it is, in order.
pub proof fn law_kernels_take_turns(
    num_kernels: u32,
    num_channels: u32,
    c0: Vec<u32>,
    c1: Vec<Vec<u32>>,
    c: int,
    k: u32,
    i: int,
    j: int,
)
    requires
        num_channels > 0,
        call_ensures(round_robin_inputs, (num_kernels, num_channels), c0),
        call_ensures(round_robin_outputs, (num_kernels, num_channels), c1),
        0 <= c < num_channels,
        k < num_kernels,
        0 <= i < j < c1@[c]@.len(),
    ensures
        c0@[k as int] == k as int % num_channels as int,
        c1@[c]@.contains(k) <==> c0@[k as int] == c,
        c1@[c]@[i] < c1@[c]@[j],
{
    lemma_turns(c, num_channels as int, num_kernels as nat, k, i, j);
}

/// The kernels that fall to a channel.
proof fn lemma_turns(c: int, channels: int, n: nat, k: u32, i: int, j: int)
    requires
        channels > 0,
        n <= u32::MAX,
    ensures
        turns_of(c, channels, n).contains(k) <==> k < n && k as int % channels == c,
        0 <= i < j < turns_of(c, channels, n).len() ==> turns_of(c, channels, n)[i] < turns_of(
            c,
            channels,
            n,
        )[j],
        forall|x: int|
            0 <= x < turns_of(c, channels, n).len() ==> #[trigger] turns_of(c, channels, n)[x] < n,
    decreases n,
{
    if n > 0 {
        let m = (n - 1) as nat;
        let before = turns_of(c, channels, m);
        lemma_turns(c, channels, m, k, i, j);
        if m as int % channels == c {
            let after = before.push(m as u32);
            assert(turns_of(c, channels, n) == after);
            if before.contains(k) {
                let x = choose|x: int| 0 <= x < before.len() && before[x] == k;
                assert(after[x] == k);
            }
            if k == m {
                assert(after[before.len() as int] == k);
            }
        }
    }
}

/// Kernels of all creatures are gathered creature by creature: those of creature `i` start where
/// `first_kernel` says, and have its growth in order.
pub proof fn law_growth_is_gathered_by_creature<W, S: Copy>(
    configs: &Vec<CreatureConfig<W, S>>,
    p: Population<S>,
    i: int,
    j: int,
)
    requires
        kernels_until(configs@, configs@.len()) <= usize::MAX,
        call_ensures(gather_growth::<W, S>, (configs,), p),
        forall|k: int|
            0 <= k < configs@.len() ==> (#[trigger] configs@[k]).m@.len() == configs@[k].num_kernels
                && configs@[k].s@.len() == configs@[k].num_kernels && configs@[k].h@.len()
                == configs@[k].num_kernels,
        0 <= i < configs@.len(),
        0 <= j < configs@[i].num_kernels,
    ensures
        p.m@.len() == p.num_kernels,
        p.s@.len() == p.num_kernels,
        p.h@.len() == p.num_kernels,
        p.first_kernel@[0] == 0,
        i + 1 < configs@.len() ==> p.first_kernel@[i + 1] == p.first_kernel@[i]
            + configs@[i].num_kernels,
        i + 1 == configs@.len() ==> p.num_kernels == p.first_kernel@[i] + configs@[i].num_kernels,
        p.m@[p.first_kernel@[i] + j] == configs@[i].m@[j],
        p.s@[p.first_kernel@[i] + j] == configs@[i].s@[j],
        p.h@[p.first_kernel@[i] + j] == configs@[i].h@[j],
{
    lemma_gathered(configs@, configs@.len(), i, j);
    assert(p.first_kernel@[i] == kernels_until(configs@, i as nat));
    assert(p.first_kernel@[0] == kernels_until(configs@, 0));
    assert(kernels_until(configs@, (i + 1) as nat) == kernels_until(configs@, i as nat)
        + configs@[i].num_kernels);
}

/// Where the kernels of a creature stand among those of the first creatures.
proof fn lemma_gathered<W, S>(configs: Seq<CreatureConfig<W, S>>, n: nat, i: int, j: int)
    requires
        n <= configs.len(),
        forall|k: int|
            0 <= k < configs.len() ==> (#[trigger] configs[k]).m@.len() == configs[k].num_kernels
                && configs[k].s@.len() == configs[k].num_kernels && configs[k].h@.len()
                == configs[k].num_kernels,
        0 <= i < configs.len(),
        0 <= j < configs[i].num_kernels,
    ensures
        all_m(configs, n).len() == kernels_until(configs, n),
        all_s(configs, n).len() == kernels_until(configs, n),
        all_h(configs, n).len() == kernels_until(configs, n),
        i < n ==> {
            let at = kernels_until(configs, i as nat) + j;
            &&& 0 <= at < kernels_until(configs, n)
            &&& all_m(configs, n)[at] == configs[i].m@[j]
            &&& all_s(configs, n)[at] == configs[i].s@[j]
            &&& all_h(configs, n)[at] == configs[i].h@[j]
        },
    decreases n,
{
    if n > 0 {
        let m = (n - 1) as nat;
        lemma_gathered(configs, m, i, j);
        lemma_kernels_grow(configs, m, n);
        assert(configs[m as int].m@.len() == configs[m as int].num_kernels);
    }
}

/// A settled grid: where no cell size is given there are eight cells to a row, each creature
/// stands whole in its cell, and kernels take the channels in turn.
pub proof fn law_settled_creatures_stand_whole<W: Real, S: Copy>(
    configs: &Vec<CreatureConfig<W, S>>,
    grid_size: usize,
    cell_size: usize,
    out: Option<Settlement<W, S>>,
    c: int,
    i: int,
    y: int,
    x: int,
    k: u32,
)
    requires
        functional::<W>(),
        call_ensures(settle::<W, S>, (configs, grid_size, cell_size), out),
        out is Some,
        cell_size > 0 || grid_size >= 8,
        0 <= c < configs@[0].num_channels,
        0 <= i < configs@.len(),
        c < configs@[i].num_channels,
        0 <= y < configs@[0].seed_size,
        0 <= x < configs@[0].seed_size,
        configs@[0].seed_size <= (if cell_size == 0 {
            (grid_size / 8) as int
        } else {
            cell_size as int
        }),
    ensures
        ({
            let s = out->0;
            let cell = if cell_size == 0 {
                (grid_size / 8) as int
            } else {
                cell_size as int
            };
            let per_row = grid_size as int / cell;
            let seed = configs@[0].seed_size as int;
            let row = (i / per_row) * cell + y;
            let col = (i % per_row) * cell + x;
            &&& s.channels@[c]@[row * grid_size + col] == configs@[i].seed_channels@[c]@[y * seed
                + x]
            &&& k < s.population.num_kernels ==> s.c0@[k as int] == k as int
                % configs@[0].num_channels as int
            &&& k < s.population.num_kernels ==> (s.c1@[c]@.contains(k) <==> s.c0@[k as int] == c)
        }),
{
    let s = out->0;
    let g = s.cells;
    let seed = configs@[0].seed_size as int;
    let t = y * seed + x;
    lemma_row_place(seed, seed, y, x);
    let cell = g.cell_size as int;
    let per = g.cells_per_row as int;
    assert(g.holds(configs@.len() as int));
    assert(per == grid_size as int / cell);
    assert(per > 0);
    assert(per * cell <= grid_size) by (nonlinear_arith)
        requires
            per == grid_size as int / cell,
            cell > 0,
            grid_size >= 0,
    ;
    assert(roomy(g));
    assert(0 <= g.place(i, t) < g.grid_size * g.grid_size);
    lemma_peopled(configs@, g, c, configs@.len(), i, t, g.place(i, t));
    assert(s.channels@[c]@ == peopled(configs@, g, c, configs@.len()));
    if k < s.population.num_kernels {
        lemma_turns(
            c,
            s.num_channels as int,
            kernels_until(configs@, configs@.len()) as nat,
            k,
            0,
            0,
        );
    }
}

} // verus!
