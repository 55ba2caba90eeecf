//! A grid settled by creatures: where they stand, what their kernels read and feed.

use crate::creature::{
    gather_growth, place_creatures, round_robin_inputs, round_robin_outputs, CellGrid,
    CreatureConfig, Population,
};
use crate::scalar::Real;
use vstd::prelude::*;

verus! {

use crate::creature::{
    all_h, all_m, all_s, have_seeds, kernels_until, lemma_kernels_grow, peopled, place_of,
    turns_of,
};
use crate::scalar::functional;
use vstd::arithmetic::div_mod::{lemma_fundamental_div_mod_converse, lemma_mod_bound};

/// The number of the last place of a seed bounds all places of it.
proof fn lemma_last_place(oy: int, ox: int, seed: int, grid: int, t: int)
    requires
        0 <= oy,
        0 <= ox,
        0 < seed,
        0 <= grid,
        0 <= t < seed * seed,
    ensures
        0 <= place_of(oy, ox, seed, grid, t) <= place_of(oy, ox, seed, grid, seed * seed - 1),
        place_of(oy, ox, seed, grid, seed * seed - 1) == (oy + seed - 1) * grid + (ox + seed - 1),
{
    let y = t / seed;
    let x = t % seed;
    lemma_mod_bound(t, seed);
    assert(0 <= y < seed) by (nonlinear_arith)
        requires
            0 <= t < seed * seed,
            seed > 0,
            y == t / seed,
    ;
    let last = seed * seed - 1;
    assert(last == (seed - 1) * seed + (seed - 1)) by (nonlinear_arith)
        requires
            last == seed * seed - 1,
    ;
    lemma_fundamental_div_mod_converse(last, seed, seed - 1, seed - 1);
    assert(0 <= (oy + y) * grid <= (oy + seed - 1) * grid) by (nonlinear_arith)
        requires
            0 <= oy,
            0 <= y < seed,
            0 <= grid,
    ;
}

impl CellGrid {
    /// Whether one creature stands on the grid.
    pub open spec fn holds_one(self, i: int) -> bool {
        &&& self.top(i) <= usize::MAX
        &&& self.left(i) <= usize::MAX
        &&& forall|t: int|
            0 <= t < self.seed_size * self.seed_size ==> 0 <= #[trigger] self.place(i, t)
                < self.grid_size * self.grid_size
    }

    /// Whether a creature stands on the grid: its last number does.
    fn can_hold_one(&self, i: usize) -> (b: bool)
        requires
            self.cells_per_row > 0,
            self.grid_size * self.grid_size <= usize::MAX,
        ensures
            b == self.holds_one(i as int),
    {
        let row: usize = i / self.cells_per_row;
        let col: usize = i % self.cells_per_row;
        let ghost seed = self.seed_size as int;
        let ghost grid = self.grid_size as int;
        proof {
            let most = 0xffff_ffff_ffff_ffff as int;
            assert(row * self.cell_size <= most * most && col * self.cell_size <= most * most)
                by (nonlinear_arith)
                requires
                    0 <= row <= most,
                    0 <= col <= most,
                    0 <= self.cell_size <= most,
            ;
            assert(0 <= row * self.cell_size && 0 <= col * self.cell_size) by (nonlinear_arith)
                requires
                    0 <= row,
                    0 <= col,
                    0 <= self.cell_size,
            ;
        }
        let top: u128 = row as u128 * self.cell_size as u128;
        let left: u128 = col as u128 * self.cell_size as u128;
        if top > usize::MAX as u128 || left > usize::MAX as u128 {
            return false;
        }
        if self.seed_size == 0 {
            assert(seed * seed == 0);
            return true;
        }
        let reach: u128 = (self.seed_size - 1) as u128;
        let last_row: u128 = top + reach;
        let area: usize = self.grid_size * self.grid_size;
        proof {
            assert(seed * seed - 1 >= 0) by (nonlinear_arith)
                requires
                    seed > 0,
            ;
            assert forall|t: int| 0 <= t < seed * seed implies 0 <= #[trigger] self.place(
                i as int,
                t,
            ) <= last_row * grid + (left + reach) by {
                lemma_last_place(top as int, left as int, seed, grid, t);
            }
            lemma_last_place(top as int, left as int, seed, grid, seed * seed - 1);
            assert(self.place(i as int, seed * seed - 1) == last_row * grid + (left + reach));
        }
        if last_row >= self.grid_size as u128 {
            assert(last_row * grid >= grid * grid) by (nonlinear_arith)
                requires
                    last_row >= grid,
                    grid >= 0,
            ;
            return false;
        }
        assert(0 <= last_row * grid <= grid * grid) by (nonlinear_arith)
            requires
                0 <= last_row < grid,
        ;
        last_row * self.grid_size as u128 + (left + reach) < area as u128
    }

    /// Whether the first `n` creatures stand on the grid.
    pub fn can_hold(&self, n: usize) -> (b: bool)
        requires
            self.grid_size * self.grid_size <= usize::MAX,
        ensures
            b == self.holds(n as int),
    {
        if n == 0 {
            return true;
        }
        if self.cells_per_row == 0 {
            return false;
        }
        let mut i: usize = 0;
        while i < n
            invariant
                i <= n,
                self.cells_per_row > 0,
                self.grid_size * self.grid_size <= usize::MAX,
                forall|k: int| 0 <= k < i ==> #[trigger] self.holds_one(k),
            decreases n - i,
        {
            if !self.can_hold_one(i) {
                assert(!self.holds(n as int)) by {
                    if self.holds(n as int) {
                        assert(self.top(i as int) <= usize::MAX);
                        assert(self.holds_one(i as int));
                    }
                }
                return false;
            }
            i = i + 1;
        }
        assert forall|k: int, t: int|
            0 <= k < n && 0 <= t < self.seed_size * self.seed_size implies 0
            <= #[trigger] self.place(k, t) < self.grid_size * self.grid_size by {
            assert(self.holds_one(k));
        }
        assert forall|k: int| 0 <= k < n implies #[trigger] self.top(k) <= usize::MAX && self.left(
            k,
        ) <= usize::MAX by {
            assert(self.holds_one(k));
        }
        true
    }
}

/// Whether creatures have the seeds that a layout asks for, in no more than so many channels
/// unless seeds are empty.
pub fn seeds_complete<W, S>(
    configs: &Vec<CreatureConfig<W, S>>,
    g: &CellGrid,
    num_channels: usize,
) -> (b: bool)
    ensures
        b == have_seeds(configs@, *g, num_channels as int),
{
    let ghost n = num_channels as int;
    proof {
        let most = 0xffff_ffff_ffff_ffff as int;
        assert(0 <= g.seed_size * g.seed_size <= most * most) by (nonlinear_arith)
            requires
                0 <= g.seed_size <= most,
        ;
    }
    let area: u128 = g.seed_size as u128 * g.seed_size as u128;
    let mut i: usize = 0;
    while i < configs.len()
        invariant
            i <= configs@.len(),
            n == num_channels,
            area == g.seed_size * g.seed_size,
            forall|k: int|
                0 <= k < i ==> (#[trigger] configs@[k]).num_channels
                    <= configs@[k].seed_channels@.len() && (configs@[k].num_channels <= n
                    || g.seed_size == 0),
            forall|k: int, c: int|
                0 <= k < i && 0 <= c < configs@[k].num_channels ==> area <= (
                #[trigger] configs@[k].seed_channels@[c])@.len(),
        decreases configs@.len() - i,
    {
        let config = &configs[i];
        let channels: usize = config.num_channels;
        if (channels > num_channels && g.seed_size > 0) || channels > config.seed_channels.len() {
            assert(!have_seeds(configs@, *g, n)) by {
                assert(configs@[i as int].num_channels == channels);
            }
            return false;
        }
        let mut c: usize = 0;
        while c < channels
            invariant
                c <= channels,
                i < configs@.len(),
                *config == configs@[i as int],
                channels == config.num_channels,
                channels <= config.seed_channels@.len(),
                area == g.seed_size * g.seed_size,
                forall|d: int|
                    0 <= d < c ==> area <= (#[trigger] configs@[i as int].seed_channels@[d])@.len(),
            decreases channels - c,
        {
            if area > config.seed_channels[c].len() as u128 {
                assert(!have_seeds(configs@, *g, num_channels as int)) by {
                    assert(configs@[i as int].seed_channels@[c as int]@.len() < area);
                }
                return false;
            }
            c = c + 1;
        }
        i = i + 1;
    }
    true
}

/// The number of kernels of all creatures, where 32 bits can count them.
fn count_kernels<W, S>(configs: &Vec<CreatureConfig<W, S>>) -> (n: Option<u32>)
    ensures
        n is Some <==> kernels_until(configs@, configs@.len()) <= u32::MAX,
        n is Some ==> n->0 == kernels_until(configs@, configs@.len()),
{
    let mut total: u64 = 0;
    let mut i: usize = 0;
    while i < configs.len()
        invariant
            i <= configs@.len(),
            total == kernels_until(configs@, i as nat),
            total <= u32::MAX,
        decreases configs@.len() - i,
    {
        let more: u64 = configs[i].num_kernels as u64;
        if more > 0xffff_ffff || total + more > 0xffff_ffff {
            proof {
                lemma_kernels_grow(configs@, (i + 1) as nat, configs@.len());
            }
            return None;
        }
        total = total + more;
        i = i + 1;
    }
    Some(total as u32)
}

/// A settled grid: its layout, its channels, and the kernels of all creatures with the
/// channels that they read and feed.
pub struct Settlement<W, S> {
    pub cells: CellGrid,
    pub num_channels: usize,
    pub population: Population<S>,
    pub c0: Vec<u32>,
    pub c1: Vec<Vec<u32>>,
    pub channels: Vec<Vec<W>>,
}

/// The layout of a grid for creatures: where no cell size is given, eight cells make a
/// row.
pub open spec fn layout_of<W, S>(
    configs: Seq<CreatureConfig<W, S>>,
    grid_size: usize,
    cell_size: usize,
) -> CellGrid {
    let seed_size = configs[0].seed_size;
    let cell = if cell_size == 0 {
        (grid_size / 8) as usize
    } else {
        cell_size
    };
    CellGrid { seed_size, cell_size: cell, cells_per_row: grid_size / cell, grid_size }
}

/// Whether creatures can settle a grid: there is one, the first one says how many channels
/// there are and the others have no more (unless seeds are empty), cells have a size, every
/// creature stands on the grid with a whole seed, and channels and kernels can be counted in
/// 32 bits.
pub open spec fn can_settle<W, S>(
    configs: Seq<CreatureConfig<W, S>>,
    grid_size: usize,
    cell_size: usize,
) -> bool {
    let g = layout_of(configs, grid_size, cell_size);
    &&& configs.len() > 0
    &&& g.cell_size > 0
    &&& grid_size * grid_size <= usize::MAX
    &&& 0 < configs[0].num_channels <= u32::MAX
    &&& kernels_until(configs, configs.len()) <= u32::MAX
    &&& g.holds(configs.len() as int)
    &&& have_seeds(configs, g, configs[0].num_channels as int)
}

/// Settles a grid with creatures, one to a cell; kernels take channels in turn.
pub fn settle<W: Real, S: Copy>(
    configs: &Vec<CreatureConfig<W, S>>,
    grid_size: usize,
    cell_size: usize,
) -> (out: Option<Settlement<W, S>>)
    ensures
        out is Some <==> can_settle(configs@, grid_size, cell_size),
        out matches Some(s) ==> {
            let g = layout_of(configs@, grid_size, cell_size);
            let n = configs@.len();
            let kernels = kernels_until(configs@, n);
            &&& s.cells == g
            &&& s.num_channels == configs@[0].num_channels
            &&& s.population.num_kernels == kernels
            &&& s.population.m@ == all_m(configs@, n)
            &&& s.population.s@ == all_s(configs@, n)
            &&& s.population.h@ == all_h(configs@, n)
            &&& s.population.first_kernel@.len() == n
            &&& forall|i: int|
                0 <= i < n ==> #[trigger] s.population.first_kernel@[i] == kernels_until(
                    configs@,
                    i as nat,
                )
            &&& s.c0@.len() == kernels
            &&& forall|k: int|
                0 <= k < kernels ==> #[trigger] s.c0@[k] == k % (s.num_channels as int)
            &&& s.c1@.len() == s.num_channels
            &&& forall|c: int|
                0 <= c < s.num_channels ==> (#[trigger] s.c1@[c])@ == turns_of(
                    c,
                    s.num_channels as int,
                    kernels as nat,
                )
            &&& s.channels@.len() == s.num_channels
            &&& forall|c: int|
                0 <= c < s.num_channels ==> (#[trigger] s.channels@[c])@.len() == grid_size
                    * grid_size
            &&& functional::<W>() ==> forall|c: int|
                0 <= c < s.num_channels ==> (#[trigger] s.channels@[c])@ == peopled(
                    configs@,
                    g,
                    c,
                    n,
                )
        },
{
    if configs.len() == 0 {
        return None;
    }
    let seed_size: usize = configs[0].seed_size;
    let num_channels: usize = configs[0].num_channels;
    if cell_size == 0 && grid_size < 8 {
        return None;
    }
    let cells = CellGrid::new(grid_size, cell_size, seed_size);
    assert(cells == layout_of(configs@, grid_size, cell_size));
    if num_channels == 0 || num_channels as u64 > 0xffff_ffff {
        return None;
    }
    if grid_size.checked_mul(grid_size).is_none() {
        return None;
    }
    if !cells.can_hold(configs.len()) || !seeds_complete(configs, &cells, num_channels) {
        return None;
    }
    match count_kernels(configs) {
        None => None,
        Some(kernels) => {
            let population = gather_growth(configs);
            let c0 = round_robin_inputs(kernels, num_channels as u32);
            let c1 = round_robin_outputs(kernels, num_channels as u32);
            let channels = place_creatures(configs, &cells, num_channels);
            Some(Settlement { cells, num_channels, population, c0, c1, channels })
        },
    }
}

/// Where cells are no smaller than seeds and rows of cells fit the grid, creatures fit the grid
/// exactly when the seed of the last one ends within it.
pub proof fn law_creatures_fit_while_the_last_one_does(g: CellGrid, n: usize, b: bool)
    requires
        call_ensures(CellGrid::can_hold, (&g, n), b),
        0 < g.seed_size <= g.cell_size,
        0 < g.cells_per_row,
        g.cells_per_row * g.cell_size <= g.grid_size,
        n > 0,
    ensures
        b <==> ((n - 1) / g.cells_per_row as int) * g.cell_size + g.seed_size <= g.grid_size,
{
    let seed = g.seed_size as int;
    let cell = g.cell_size as int;
    let per = g.cells_per_row as int;
    let grid = g.grid_size as int;
    let last = n - 1;
    assert(b == g.holds(n as int));
    lemma_one_fits(g, last);
    assert(seed * seed - 1 >= 0) by (nonlinear_arith)
        requires
            seed > 0,
    ;
    if b {
        assert(g.top(last) <= usize::MAX);
        assert forall|t: int| 0 <= t < seed * seed implies 0 <= #[trigger] g.place(last, t) < grid
            * grid by {}
        assert(g.holds_one(last));
    }
    if g.top(last) + seed <= grid {
        assert forall|i: int| 0 <= i < n implies #[trigger] g.holds_one(i) by {
            lemma_one_fits(g, i);
            vstd::arithmetic::div_mod::lemma_div_is_ordered(i, last, per);
            assert((i / per) * cell <= (last / per) * cell) by (nonlinear_arith)
                requires
                    i / per <= last / per,
                    cell >= 0,
            ;
        }
        assert forall|i: int, t: int| 0 <= i < n && 0 <= t < seed * seed implies 0
            <= #[trigger] g.place(i, t) < grid * grid by {
            assert(g.holds_one(i));
        }
        assert forall|i: int| 0 <= i < n implies #[trigger] g.top(i) <= usize::MAX && g.left(i)
            <= usize::MAX by {
            assert(g.holds_one(i));
        }
    }
}

/// A creature in a cell that is no smaller than its seed stands on the grid when its last row
/// does.
proof fn lemma_one_fits(g: CellGrid, i: int)
    requires
        0 < g.seed_size <= g.cell_size,
        0 < g.cells_per_row,
        g.cells_per_row * g.cell_size <= g.grid_size,
        0 <= i,
    ensures
        g.holds_one(i) <==> g.top(i) + g.seed_size <= g.grid_size,
{
    let seed = g.seed_size as int;
    let cell = g.cell_size as int;
    let per = g.cells_per_row as int;
    let grid = g.grid_size as int;
    let oy = g.top(i);
    let ox = g.left(i);
    lemma_mod_bound(i, per);
    assert(0 <= oy) by (nonlinear_arith)
        requires
            oy == (i / per) * cell,
            i >= 0,
            per > 0,
            cell > 0,
    ;
    assert(0 <= ox && ox + cell <= grid) by (nonlinear_arith)
        requires
            ox == (i % per) * cell,
            0 <= i % per < per,
            per * cell <= grid,
            cell > 0,
    ;
    assert(seed * seed - 1 >= 0) by (nonlinear_arith)
        requires
            seed > 0,
    ;
    let end = seed * seed - 1;
    lemma_last_place(oy, ox, seed, grid, end);
    let p = g.place(i, end);
    assert(p == (oy + seed - 1) * grid + (ox + seed - 1));
    if oy + seed <= grid {
        assert((oy + seed - 1) * grid + grid <= grid * grid) by (nonlinear_arith)
            requires
                oy + seed <= grid,
                grid >= 0,
        ;
        assert forall|t: int| 0 <= t < seed * seed implies 0 <= #[trigger] g.place(i, t) < grid
            * grid by {
            lemma_last_place(oy, ox, seed, grid, t);
        }
    } else {
        assert((oy + seed - 1) * grid >= grid * grid) by (nonlinear_arith)
            requires
                oy + seed - 1 >= grid,
                grid >= 0,
        ;
        assert(p >= grid * grid);
    }
}

} // verus!
