//! Reintegration tracking: every cell's mass moves along the flow as a square and is
//! shared out among the cells that the square then covers.

use crate::field::{sum, Field, Plane, VectorField};
use crate::flow::shift::{roll_3d_axes01, roll_4d_axes01};
use crate::scalar::Real;
use vstd::prelude::*;

verus! {

use crate::field::unrolled_sum;
use crate::flow::shift::source;
use crate::scalar::{
    abs_of, at_most_of, clamp_of, count_of, decimal_of, exp_of, functional, integer_of, least_of,
    minus_of, neg_of, over_of, plus_of, times_of,
};

/// A way to move mass: the grid, the time step, the reach in cells, half the side of a
/// moving square, and whether the border is a wall.
pub struct Reintegration<S> {
    pub sx: usize,
    pub sy: usize,
    pub dt: S,
    pub dd: i32,
    pub sigma: S,
    pub wall: bool,
}

/// Whether a border is a wall.
pub open spec fn is_wall(border: Seq<char>) -> bool {
    border == "wall"@
}

/// Prepares to move mass.
pub fn build_reintegration<S: Real>(
    sx: usize,
    sy: usize,
    dt: S,
    dd: i32,
    sigma: S,
    border: &String,
) -> (r: Reintegration<S>)
    ensures
        r == (Reintegration { sx, sy, dt, dd, sigma, wall: is_wall(border@) }),
{
    let wall: bool = *border == "wall".to_owned();
    Reintegration { sx, sy, dt, dd, sigma, wall }
}

/// A field as a function of the place.
pub open spec fn field_fn<S>(x: &Field<S>) -> spec_fn(int, int, int) -> S {
    |i: int, j: int, c: int| x.at(i, j, c)
}

/// A vector field as a function of the place.
pub open spec fn vectors_fn<S>(f: &VectorField<S>) -> spec_fn(int, int, int, int) -> S {
    |i: int, j: int, a: int, c: int| f.at(i, j, a, c)
}

/// The middle of a cell along an axis: rows, then columns.
pub open spec fn middle<S: Real>(i: int, j: int, axis: int) -> S {
    plus_of(
        count_of::<S>(
            if axis == 0 {
                i
            } else {
                j
            } as usize,
        ),
        decimal_of::<S>(5i64, 1u32),
    )
}

impl<S: Real> Reintegration<S> {
    /// How many cells a side of the reach has.
    pub open spec fn side_cells(&self) -> int {
        2 * self.dd + 1
    }

    /// Whether the grid is square, the reach a machine number, and every range that numbers
    /// are held to has its ends in order.
    pub open spec fn wf(&self) -> bool {
        &&& self.sx == self.sy
        &&& self.dd >= 0
        &&& self.side_cells() * self.side_cells() <= i32::MAX
        &&& functional::<S>() ==> self.bounded()
    }

    /// Whether the ranges that numbers are held to have their ends in order: half a side of
    /// a square is no longer than the reach, not negative, and between walls no longer than
    /// half the grid.
    pub open spec fn bounded(&self) -> bool {
        &&& at_most_of(neg_of(self.farthest()), self.farthest())
        &&& at_most_of(integer_of::<S>(0i64), self.longest())
        &&& self.wall ==> at_most_of(
            self.sigma,
            minus_of(count_of::<S>(self.sx), self.sigma),
        )
    }

    /// The longest part of a square's side that can lie on a cell.
    pub open spec fn longest(&self) -> S {
        least_of(integer_of::<S>(1i64), times_of(integer_of::<S>(2i64), self.sigma))
    }

    /// How far the `o`-th offset moves along the rows.
    pub open spec fn offset_x(&self, o: int) -> int {
        o / self.side_cells() - self.dd
    }

    /// How far the `o`-th offset moves along the columns.
    pub open spec fn offset_y(&self, o: int) -> int {
        o % self.side_cells() - self.dd
    }

    /// How far a square can move: the reach less half its side.
    pub open spec fn farthest(&self) -> S {
        minus_of(integer_of::<S>(self.dd as i64), self.sigma)
    }

    /// Where the mass of a cell moves to.
    pub open spec fn target(&self, f: spec_fn(int, int, int, int) -> S, i: int, j: int, axis: int, c: int) -> S {
        let ma = self.farthest();
        let free = plus_of(
            middle::<S>(i, j, axis),
            clamp_of(times_of(f(i, j, axis, c), self.dt), neg_of(ma), ma),
        );
        if self.wall {
            clamp_of(free, self.sigma, minus_of(count_of::<S>(self.sx), self.sigma))
        } else {
            free
        }
    }

    /// How much of the side of a square that moved to `to` lies on the cell whose middle is
    /// `at`.
    pub open spec fn overlap(&self, at: S, to: S) -> S {
        clamp_of(
            plus_of(
                minus_of(decimal_of::<S>(5i64, 1u32), abs_of(minus_of(at, to))),
                self.sigma,
            ),
            integer_of::<S>(0i64),
            self.longest(),
        )
    }

    /// What share of the mass that the `o`-th offset brings lands on a cell.
    pub open spec fn share(&self, f: spec_fn(int, int, int, int) -> S, o: int, i: int, j: int, c: int) -> S {
        let si = source(self.sx as int, self.offset_x(o), i);
        let sj = source(self.sy as int, self.offset_y(o), j);
        let rows = self.overlap(middle::<S>(i, j, 0), self.target(f, si, sj, 0, c));
        let cols = self.overlap(middle::<S>(i, j, 1), self.target(f, si, sj, 1, c));
        over_of(
            times_of(rows, cols),
            times_of(times_of(integer_of::<S>(4i64), self.sigma), self.sigma),
        )
    }

    /// The mass that the first `n` offsets bring to a cell.
    pub open spec fn gathered(
        &self,
        x: spec_fn(int, int, int) -> S,
        f: spec_fn(int, int, int, int) -> S,
        i: int,
        j: int,
        c: int,
        n: nat,
    ) -> S
        decreases n,
    {
        if n == 0 {
            integer_of::<S>(0i64)
        } else {
            let o = n - 1;
            plus_of(
                self.gathered(x, f, i, j, c, o as nat),
                times_of(
                    x(
                        source(self.sx as int, self.offset_x(o), i),
                        source(self.sy as int, self.offset_y(o), j),
                        c,
                    ),
                    self.share(f, o, i, j, c),
                ),
            )
        }
    }

    /// The mass that all offsets bring to a cell.
    pub open spec fn advected(&self, x: spec_fn(int, int, int) -> S, f: spec_fn(int, int, int, int) -> S, i: int, j: int, c: int) -> S {
        self.gathered(x, f, i, j, c, (self.side_cells() * self.side_cells()) as nat)
    }

    /// Tells whether the ranges that numbers are held to have their ends in order.
    pub fn is_bounded(&self) -> (b: bool)
        ensures
            functional::<S>() ==> b == self.bounded(),
    {
        let ma = S::integer(self.dd as i64).minus(self.sigma);
        let clip_max = S::integer(1).least(S::integer(2).times(self.sigma));
        ma.neg().at_most(ma) && S::integer(0).at_most(clip_max) && (!self.wall
            || self.sigma.at_most(S::count(self.sx).minus(self.sigma)))
    }

    /// Where all mass moves to.
    fn targets(&self, f: &VectorField<S>) -> (mu: VectorField<S>)
        requires
            self.wf(),
            f.wf(),
            f.rows == self.sx,
            f.cols == self.sy,
            f.width == 2,
        ensures
            mu.of(f.rows as int, f.cols as int, 2, f.depth as int),
            functional::<S>() ==> forall|i: int, j: int, a: int, c: int|
                mu.has(i, j, a, c) ==> #[trigger] mu.at(i, j, a, c) == self.target(vectors_fn(f), i, j, a, c),
    {
        let ma = S::integer(self.dd as i64).minus(self.sigma);
        let g = |i: usize, j: usize, a: usize, c: usize| -> (m: S)
            requires
                f.has(i as int, j as int, a as int, c as int),
            ensures
                functional::<S>() ==> m == self.target(
                    vectors_fn(f),
                    i as int,
                    j as int,
                    a as int,
                    c as int,
                ),
            {
                let at = cell_middle::<S>(i, j, a);
                let free = at.plus(f.get(i, j, a, c).times(self.dt).clamp(ma.neg(), ma));
                if self.wall {
                    free.clamp(self.sigma, S::count(self.sx).minus(self.sigma))
                } else {
                    free
                }
            };
        VectorField::from(f.rows, f.cols, 2, f.depth, g)
    }

    /// The overlap of a square with a cell along one axis.
    fn overlap_at(&self, at: S, to: S) -> (side: S)
        ensures
            functional::<S>() ==> side == self.overlap(at, to),
    {
        let sz = S::decimal(5, 1).minus(at.minus(to).abs()).plus(self.sigma);
        let clip_max = S::integer(1).least(S::integer(2).times(self.sigma));
        sz.clamp(S::integer(0), clip_max)
    }

    /// The share that the `o`-th offset brings, read from rolled targets.
    fn share_at(&self, f: &VectorField<S>, mur: &VectorField<S>, Ghost(o): Ghost<int>, i: usize, j: usize, c: usize) -> (area: S)
        requires
            mur.wf(),
            mur.width == 2,
            mur.has(i as int, j as int, 0, c as int),
            functional::<S>() ==> forall|a: int|
                0 <= a < 2 ==> #[trigger] mur.at(i as int, j as int, a, c as int) == self.target(
                    vectors_fn(f),
                    source(self.sx as int, self.offset_x(o), i as int),
                    source(self.sy as int, self.offset_y(o), j as int),
                    a,
                    c as int,
                ),
        ensures
            functional::<S>() ==> area == self.share(vectors_fn(f), o, i as int, j as int, c as int),
    {
        let rows = self.overlap_at(cell_middle::<S>(i, j, 0), mur.get(i, j, 0, c));
        let cols = self.overlap_at(cell_middle::<S>(i, j, 1), mur.get(i, j, 1, c));
        rows.times(cols).over(S::integer(4).times(self.sigma).times(self.sigma))
    }

    /// How far the `o`-th offset moves.
    fn offset(&self, o: i32) -> (d: (i32, i32))
        requires
            self.wf(),
            0 <= o < self.side_cells() * self.side_cells(),
        ensures
            d.0 == self.offset_x(o as int),
            d.1 == self.offset_y(o as int),
    {
        proof {
            let n = self.side_cells();
            let x = o as int;
            assert(n <= n * n) by (nonlinear_arith)
                requires
                    n >= 1,
            ;
            assert(0 <= x / n < n && 0 <= x % n < n) by (nonlinear_arith)
                requires
                    0 <= x < n * n,
                    n >= 1,
            ;
        }
        let side: u32 = 2 * (self.dd as u32) + 1;
        let q: u32 = (o as u32) / side;
        let r: u32 = (o as u32) % side;
        (q as i32 - self.dd, r as i32 - self.dd)
    }

    /// Whether targets rolled by the `o`-th offset hold, at each cell, where the mass that
    /// this offset brings there was bound.
    spec fn rolled_targets(&self, mur: &VectorField<S>, f: &VectorField<S>, o: int) -> bool {
        &&& mur.of(f.rows as int, f.cols as int, 2, f.depth as int)
        &&& functional::<S>() ==> forall|i: int, j: int, a: int, c: int|
            mur.has(i, j, a, c) ==> #[trigger] mur.at(i, j, a, c) == self.target(
                vectors_fn(f),
                source(self.sx as int, self.offset_x(o), i),
                source(self.sy as int, self.offset_y(o), j),
                a,
                c,
            )
    }

    /// Rolls the targets by one offset.
    fn roll_targets(&self, mu: &VectorField<S>, f: &VectorField<S>, d: (i32, i32), Ghost(o): Ghost<int>) -> (mur: VectorField<S>)
        requires
            f.rows == self.sx,
            f.cols == self.sy,
            mu.of(f.rows as int, f.cols as int, 2, f.depth as int),
            functional::<S>() ==> forall|i: int, j: int, a: int, c: int|
                mu.has(i, j, a, c) ==> #[trigger] mu.at(i, j, a, c) == self.target(vectors_fn(f), i, j, a, c),
            d.0 == self.offset_x(o),
            d.1 == self.offset_y(o),
        ensures
            self.rolled_targets(&mur, f, o),
    {
        let mur = roll_4d_axes01(mu, d.0, d.1);
        proof {
            if functional::<S>() {
                assert forall|i: int, j: int, a: int, c: int| mur.has(i, j, a, c) implies
                    #[trigger] mur.at(i, j, a, c) == self.target(
                    vectors_fn(f),
                    source(self.sx as int, self.offset_x(o), i),
                    source(self.sy as int, self.offset_y(o), j),
                    a,
                    c,
                ) by {
                    vstd::arithmetic::div_mod::lemma_mod_bound(i - d.0, self.sx as int);
                    vstd::arithmetic::div_mod::lemma_mod_bound(j - d.1, self.sy as int);
                    let si = source(self.sx as int, d.0 as int, i);
                    let sj = source(self.sy as int, d.1 as int, j);
                    assert(mu.has(si, sj, a, c));
                    assert(mur.at(i, j, a, c) == mu.at(si, sj, a, c));
                }
            }
        }
        mur
    }

    /// Adds what one offset brings.
    fn add_offset(
        &self,
        before: &Field<S>,
        x: &Field<S>,
        f: &VectorField<S>,
        mur: &VectorField<S>,
        d: (i32, i32),
        Ghost(o): Ghost<int>,
    ) -> (after: Field<S>)
        requires
            x.wf(),
            x.rows == self.sx,
            x.cols == self.sy,
            x.depth == f.depth,
            f.rows == self.sx,
            f.cols == self.sy,
            self.rolled_targets(mur, f, o),
            d.0 == self.offset_x(o),
            d.1 == self.offset_y(o),
            o >= 0,
            before.of(x.rows as int, x.cols as int, x.depth as int),
            functional::<S>() ==> forall|i: int, j: int, c: int|
                before.has(i, j, c) ==> #[trigger] before.at(i, j, c) == self.gathered(
                    field_fn(x),
                    vectors_fn(f),
                    i,
                    j,
                    c,
                    o as nat,
                ),
        ensures
            after.of(x.rows as int, x.cols as int, x.depth as int),
            functional::<S>() ==> forall|i: int, j: int, c: int|
                after.has(i, j, c) ==> #[trigger] after.at(i, j, c) == self.gathered(
                    field_fn(x),
                    vectors_fn(f),
                    i,
                    j,
                    c,
                    (o + 1) as nat,
                ),
    {
        let rolled = roll_3d_axes01(x, d.0, d.1);
        let xr = &rolled;
        let g = |i: usize, j: usize, c: usize| -> (y: S)
            requires
                x.has(i as int, j as int, c as int),
            ensures
                functional::<S>() ==> y == self.gathered(
                    field_fn(x),
                    vectors_fn(f),
                    i as int,
                    j as int,
                    c as int,
                    (o + 1) as nat,
                ),
            {
                assert(mur.has(i as int, j as int, 0, c as int));
                assert(mur.has(i as int, j as int, 1, c as int));
                let area = self.share_at(f, mur, Ghost(o), i, j, c);
                before.get(i, j, c).plus(xr.get(i, j, c).times(area))
            };
        Field::from(x.rows, x.cols, x.depth, g)
    }

    /// Moves mass along a flow.
    pub fn advect(&self, x: &Field<S>, f: &VectorField<S>) -> (out: Field<S>)
        requires
            self.wf(),
            f.wf(),
            f.rows == self.sx,
            f.cols == self.sy,
            f.width == 2,
            x.of(self.sx as int, self.sy as int, f.depth as int),
        ensures
            out.of(self.sx as int, self.sy as int, f.depth as int),
            functional::<S>() ==> forall|i: int, j: int, c: int|
                out.has(i, j, c) ==> #[trigger] out.at(i, j, c) == self.advected(field_fn(x), vectors_fn(f), i, j, c),
    {
        let mu = self.targets(f);
        let zero = |i: usize, j: usize, c: usize| -> (y: S)
            ensures
                functional::<S>() ==> y == integer_of::<S>(0i64),
            { S::integer(0) };
        let mut result = Field::from(x.rows, x.cols, x.depth, zero);
        proof {
            let n = self.side_cells();
            assert(1 <= n <= n * n) by (nonlinear_arith)
                requires
                    n >= 1,
            ;
        }
        let side: i32 = 2 * self.dd + 1;
        let n: i32 = side * side;
        let mut o: i32 = 0;
        while o < n
            invariant
                0 <= o <= n,
                self.wf(),
                n == self.side_cells() * self.side_cells(),
                f.wf(),
                f.rows == self.sx,
                f.cols == self.sy,
                f.width == 2,
                x.of(self.sx as int, self.sy as int, f.depth as int),
                mu.of(f.rows as int, f.cols as int, 2, f.depth as int),
                functional::<S>() ==> forall|i: int, j: int, a: int, c: int|
                    mu.has(i, j, a, c) ==> #[trigger] mu.at(i, j, a, c) == self.target(
                        vectors_fn(f),
                        i,
                        j,
                        a,
                        c,
                    ),
                result.of(x.rows as int, x.cols as int, x.depth as int),
                functional::<S>() ==> forall|i: int, j: int, c: int|
                    result.has(i, j, c) ==> #[trigger] result.at(i, j, c) == self.gathered(
                        field_fn(x),
                        vectors_fn(f),
                        i,
                        j,
                        c,
                        o as nat,
                    ),
            decreases n - o,
        {
            let d: (i32, i32) = self.offset(o);
            let mur = self.roll_targets(&mu, f, d, Ghost(o as int));
            result = self.add_offset(&result, x, f, &mur, d, Ghost(o as int));
            o = o + 1;
        }
        result
    }
}

/// The middle of a cell along an axis.
fn cell_middle<S: Real>(i: usize, j: usize, axis: usize) -> (m: S)
    ensures
        functional::<S>() ==> m == middle::<S>(i as int, j as int, axis as int),
{
    let at: usize = if axis == 0 {
        i
    } else {
        j
    };
    S::count(at).plus(S::decimal(5, 1))
}

/// How the parameters of mass that comes together are mixed.
#[derive(Clone, Copy, PartialEq, Eq, Structural)]
pub enum Mix {
    /// In proportion to mass.
    Avg,
    /// In proportion to the exponential of mass, less one.
    Softmax,
    /// Not at all: parameters are added up.
    Plain,
}

/// The mix of a name; the stochastic mixes and unknown names add up.
pub open spec fn mix_of(name: Seq<char>) -> Mix {
    if name == "avg"@ {
        Mix::Avg
    } else if name == "softmax"@ {
        Mix::Softmax
    } else {
        Mix::Plain
    }
}

/// A way to move mass together with the parameters that it carries.
pub struct ReintegrationP<S> {
    pub base: Reintegration<S>,
    pub hidden_dims: usize,
    pub mix: Mix,
}

/// Prepares to move mass with parameters.
pub fn build_reintegration_p<S: Real>(
    sx: usize,
    sy: usize,
    dt: S,
    dd: i32,
    sigma: S,
    border: &String,
    hidden_dims: usize,
    mix: &String,
) -> (r: ReintegrationP<S>)
    ensures
        r.base == (Reintegration { sx, sy, dt, dd, sigma, wall: is_wall(border@) }),
        r.hidden_dims == hidden_dims,
        r.mix == mix_of(mix@),
{
    let base = build_reintegration(sx, sy, dt, dd, sigma, border);
    let mix: Mix = if *mix == "avg".to_owned() {
        Mix::Avg
    } else if *mix == "softmax".to_owned() {
        Mix::Softmax
    } else {
        Mix::Plain
    };
    ReintegrationP { base, hidden_dims, mix }
}

impl<S: Real> ReintegrationP<S> {
    /// What share of the parameters that the `o`-th offset brings lands on a cell: that of
    /// the mass of the last channel.
    pub open spec fn carried_share(
        &self,
        f: spec_fn(int, int, int, int) -> S,
        depth: int,
        o: int,
        i: int,
        j: int,
    ) -> S {
        if depth == 0 {
            integer_of::<S>(0i64)
        } else {
            self.base.share(f, o, i, j, depth - 1)
        }
    }

    /// The mass of all channels that the `o`-th offset brings to a cell.
    pub open spec fn brought(
        &self,
        x: spec_fn(int, int, int) -> S,
        f: spec_fn(int, int, int, int) -> S,
        depth: int,
        o: int,
        i: int,
        j: int,
    ) -> S {
        unrolled_sum(
            Seq::new(
                depth as nat,
                |c: int|
                    times_of(
                        x(
                            source(self.base.sx as int, self.base.offset_x(o), i),
                            source(self.base.sy as int, self.base.offset_y(o), j),
                            c,
                        ),
                        self.base.share(f, o, i, j, c),
                    ),
            ),
        )
    }

    /// How much the parameters that the `o`-th offset brings count at a cell: as much as the
    /// mass that it brings there, or the exponential of that mass less one. Both averages
    /// divide by the sum of these weights, so the share of a square that lies on the cell
    /// counts through the mass alone, and does not scale the parameters a second time: a
    /// cell that gets parameters from one square only takes them over whole. Otherwise they
    /// count by that share.
    pub open spec fn weight(
        &self,
        x: spec_fn(int, int, int) -> S,
        f: spec_fn(int, int, int, int) -> S,
        depth: int,
        o: int,
        i: int,
        j: int,
    ) -> S {
        match self.mix {
            Mix::Avg => self.brought(x, f, depth, o, i, j),
            Mix::Softmax => minus_of(
                exp_of(self.brought(x, f, depth, o, i, j)),
                integer_of::<S>(1i64),
            ),
            Mix::Plain => self.carried_share(f, depth, o, i, j),
        }
    }

    /// The parameters that the first `n` offsets bring to a cell, each as much as it counts.
    pub open spec fn carried(
        &self,
        x: spec_fn(int, int, int) -> S,
        h: spec_fn(int, int, int) -> S,
        f: spec_fn(int, int, int, int) -> S,
        depth: int,
        i: int,
        j: int,
        k: int,
        n: nat,
    ) -> S
        decreases n,
    {
        if n == 0 {
            integer_of::<S>(0i64)
        } else {
            let o = n - 1;
            plus_of(
                self.carried(x, h, f, depth, i, j, k, o as nat),
                times_of(
                    h(
                        source(self.base.sx as int, self.base.offset_x(o), i),
                        source(self.base.sy as int, self.base.offset_y(o), j),
                        k,
                    ),
                    self.weight(x, f, depth, o, i, j),
                ),
            )
        }
    }

    /// How much the parameters that the first `n` offsets bring to a cell count together.
    pub open spec fn counted(
        &self,
        x: spec_fn(int, int, int) -> S,
        f: spec_fn(int, int, int, int) -> S,
        depth: int,
        i: int,
        j: int,
        n: nat,
    ) -> S
        decreases n,
    {
        if n == 0 {
            integer_of::<S>(0i64)
        } else {
            plus_of(
                self.counted(x, f, depth, i, j, (n - 1) as nat),
                self.weight(x, f, depth, n - 1, i, j),
            )
        }
    }

    /// The mass of all channels that arrives at a cell.
    pub open spec fn arrived(
        &self,
        x: spec_fn(int, int, int) -> S,
        f: spec_fn(int, int, int, int) -> S,
        depth: int,
        i: int,
        j: int,
    ) -> S {
        unrolled_sum(Seq::new(depth as nat, |c: int| self.base.advected(x, f, i, j, c)))
    }

    /// The parameters of a cell after the movement: by mass, their sum over the mass that
    /// arrived; by exponentials, their sum over what they count together; else their sum.
    pub open spec fn advected_p(
        &self,
        x: spec_fn(int, int, int) -> S,
        h: spec_fn(int, int, int) -> S,
        f: spec_fn(int, int, int, int) -> S,
        depth: int,
        i: int,
        j: int,
        k: int,
    ) -> S {
        let n = (self.base.side_cells() * self.base.side_cells()) as nat;
        let tiny = decimal_of::<S>(1i64, 10u32);
        let p = self.carried(x, h, f, depth, i, j, k, n);
        match self.mix {
            Mix::Avg => over_of(p, plus_of(self.arrived(x, f, depth, i, j), tiny)),
            Mix::Softmax => over_of(p, plus_of(self.counted(x, f, depth, i, j, n), tiny)),
            Mix::Plain => p,
        }
    }

    /// The mass of all channels that one offset brings to a cell.
    fn brought_at(
        &self,
        xr: &Field<S>,
        x: &Field<S>,
        f: &VectorField<S>,
        mur: &VectorField<S>,
        Ghost(o): Ghost<int>,
        i: usize,
        j: usize,
    ) -> (mass: S)
        requires
            x.of(self.base.sx as int, self.base.sy as int, f.depth as int),
            f.rows == self.base.sx,
            f.cols == self.base.sy,
            self.base.rolled_targets(mur, f, o),
            xr.of(x.rows as int, x.cols as int, x.depth as int),
            forall|c: int|
                0 <= c < x.depth ==> #[trigger] xr.at(i as int, j as int, c) == x.at(
                    source(self.base.sx as int, self.base.offset_x(o), i as int),
                    source(self.base.sy as int, self.base.offset_y(o), j as int),
                    c,
                ),
            i < x.rows,
            j < x.cols,
        ensures
            functional::<S>() ==> mass == self.brought(
                field_fn(x),
                vectors_fn(f),
                f.depth as int,
                o,
                i as int,
                j as int,
            ),
    {
        let mut lane: Vec<S> = Vec::new();
        let mut c: usize = 0;
        let ghost all = Seq::new(
            f.depth as nat,
            |c: int|
                times_of(
                    field_fn(x)(
                        source(self.base.sx as int, self.base.offset_x(o), i as int),
                        source(self.base.sy as int, self.base.offset_y(o), j as int),
                        c,
                    ),
                    self.base.share(vectors_fn(f), o, i as int, j as int, c),
                ),
        );
        while c < f.depth
            invariant
                c <= f.depth,
                all.len() == f.depth,
                x.depth == f.depth,
                i < x.rows,
                j < x.cols,
                f.rows == x.rows,
                f.cols == x.cols,
                self.base.rolled_targets(mur, f, o),
                xr.of(x.rows as int, x.cols as int, x.depth as int),
                forall|c: int|
                    0 <= c < x.depth ==> #[trigger] xr.at(i as int, j as int, c) == x.at(
                        source(self.base.sx as int, self.base.offset_x(o), i as int),
                        source(self.base.sy as int, self.base.offset_y(o), j as int),
                        c,
                    ),
                all == Seq::new(
                    f.depth as nat,
                    |c: int|
                        times_of(
                            field_fn(x)(
                                source(self.base.sx as int, self.base.offset_x(o), i as int),
                                source(self.base.sy as int, self.base.offset_y(o), j as int),
                                c,
                            ),
                            self.base.share(vectors_fn(f), o, i as int, j as int, c),
                        ),
                ),
                lane@.len() == c,
                functional::<S>() ==> lane@ == all.take(c as int),
            decreases f.depth - c,
        {
            assert(mur.has(i as int, j as int, 0, c as int));
            assert(mur.has(i as int, j as int, 1, c as int));
            assert(xr.has(i as int, j as int, c as int));
            let area = self.base.share_at(f, mur, Ghost(o), i, j, c);
            lane.push(xr.get(i, j, c).times(area));
            assert(functional::<S>() ==> lane@ =~= all.take(c + 1));
            c = c + 1;
        }
        assert(all.take(c as int) =~= all);
        sum(lane.as_slice())
    }

    /// How much the parameters that one offset brings count at each cell.
    fn weights(
        &self,
        x: &Field<S>,
        f: &VectorField<S>,
        mur: &VectorField<S>,
        d: (i32, i32),
        Ghost(o): Ghost<int>,
    ) -> (w: Plane<S>)
        requires
            x.of(self.base.sx as int, self.base.sy as int, f.depth as int),
            f.rows == self.base.sx,
            f.cols == self.base.sy,
            self.base.rolled_targets(mur, f, o),
            d.0 == self.base.offset_x(o),
            d.1 == self.base.offset_y(o),
        ensures
            self.are_weights(&w, x, f, o),
    {
        let rolled = roll_3d_axes01(x, d.0, d.1);
        let xr = &rolled;
        let g = |i: usize, j: usize| -> (y: S)
            requires
                i < x.rows,
                j < x.cols,
            ensures
                functional::<S>() ==> y == self.weight(
                    field_fn(x),
                    vectors_fn(f),
                    f.depth as int,
                    o,
                    i as int,
                    j as int,
                ),
            {
                assert forall|c: int| 0 <= c < x.depth implies #[trigger] xr.at(
                    i as int,
                    j as int,
                    c,
                ) == x.at(
                    source(self.base.sx as int, self.base.offset_x(o), i as int),
                    source(self.base.sy as int, self.base.offset_y(o), j as int),
                    c,
                ) by {
                    assert(xr.has(i as int, j as int, c));
                }
                match self.mix {
                    Mix::Avg => self.brought_at(xr, x, f, mur, Ghost(o), i, j),
                    Mix::Softmax => self.brought_at(xr, x, f, mur, Ghost(o), i, j).exp().minus(
                        S::integer(1),
                    ),
                    Mix::Plain => {
                        if f.depth == 0 {
                            S::integer(0)
                        } else {
                            assert(mur.has(i as int, j as int, 0, f.depth - 1));
                            assert(mur.has(i as int, j as int, 1, f.depth - 1));
                            self.base.share_at(f, mur, Ghost(o), i, j, f.depth - 1)
                        }
                    },
                }
            };
        let w = Plane::from(x.rows, x.cols, g);
        proof {
            assert forall|i: int, j: int| w.has(i, j) implies call_ensures(
                g,
                (i as usize, j as usize),
                #[trigger] w.at(i, j),
            ) by {}
        }
        w
    }

    /// Whether a plane holds how much the parameters that one offset brings count.
    spec fn are_weights(&self, w: &Plane<S>, x: &Field<S>, f: &VectorField<S>, o: int) -> bool {
        &&& w.wf()
        &&& w.rows == x.rows
        &&& w.cols == x.cols
        &&& functional::<S>() ==> forall|i: int, j: int|
            w.has(i, j) ==> #[trigger] w.at(i, j) == self.weight(
                field_fn(x),
                vectors_fn(f),
                f.depth as int,
                o,
                i,
                j,
            )
    }

    /// Adds the parameters that one offset brings.
    fn carry_offset(
        &self,
        before: &Field<S>,
        x: &Field<S>,
        h: &Field<S>,
        f: &VectorField<S>,
        w: &Plane<S>,
        d: (i32, i32),
        Ghost(o): Ghost<int>,
    ) -> (after: Field<S>)
        requires
            x.of(self.base.sx as int, self.base.sy as int, f.depth as int),
            h.of(self.base.sx as int, self.base.sy as int, self.hidden_dims as int),
            self.are_weights(w, x, f, o),
            d.0 == self.base.offset_x(o),
            d.1 == self.base.offset_y(o),
            o >= 0,
            before.of(h.rows as int, h.cols as int, h.depth as int),
            functional::<S>() ==> forall|i: int, j: int, k: int|
                before.has(i, j, k) ==> #[trigger] before.at(i, j, k) == self.carried(
                    field_fn(x),
                    field_fn(h),
                    vectors_fn(f),
                    f.depth as int,
                    i,
                    j,
                    k,
                    o as nat,
                ),
        ensures
            after.of(h.rows as int, h.cols as int, h.depth as int),
            functional::<S>() ==> forall|i: int, j: int, k: int|
                after.has(i, j, k) ==> #[trigger] after.at(i, j, k) == self.carried(
                    field_fn(x),
                    field_fn(h),
                    vectors_fn(f),
                    f.depth as int,
                    i,
                    j,
                    k,
                    (o + 1) as nat,
                ),
    {
        let rolled = roll_3d_axes01(h, d.0, d.1);
        let hr = &rolled;
        let g = |i: usize, j: usize, k: usize| -> (y: S)
            requires
                h.has(i as int, j as int, k as int),
            ensures
                functional::<S>() ==> y == self.carried(
                    field_fn(x),
                    field_fn(h),
                    vectors_fn(f),
                    f.depth as int,
                    i as int,
                    j as int,
                    k as int,
                    (o + 1) as nat,
                ),
            {
                assert(w.has(i as int, j as int));
                before.get(i, j, k).plus(hr.get(i, j, k).times(w.get(i, j)))
            };
        Field::from(h.rows, h.cols, h.depth, g)
    }

    /// Adds how much the parameters that one offset brings count.
    fn count_offset(
        &self,
        before: &Plane<S>,
        x: &Field<S>,
        f: &VectorField<S>,
        w: &Plane<S>,
        Ghost(o): Ghost<int>,
    ) -> (after: Plane<S>)
        requires
            self.are_weights(w, x, f, o),
            o >= 0,
            before.wf(),
            before.rows == x.rows,
            before.cols == x.cols,
            functional::<S>() ==> forall|i: int, j: int|
                before.has(i, j) ==> #[trigger] before.at(i, j) == self.counted(
                    field_fn(x),
                    vectors_fn(f),
                    f.depth as int,
                    i,
                    j,
                    o as nat,
                ),
        ensures
            after.wf(),
            after.rows == x.rows,
            after.cols == x.cols,
            functional::<S>() ==> forall|i: int, j: int|
                after.has(i, j) ==> #[trigger] after.at(i, j) == self.counted(
                    field_fn(x),
                    vectors_fn(f),
                    f.depth as int,
                    i,
                    j,
                    (o + 1) as nat,
                ),
    {
        let g = |i: usize, j: usize| -> (y: S)
            requires
                i < x.rows,
                j < x.cols,
            ensures
                functional::<S>() ==> y == self.counted(
                    field_fn(x),
                    vectors_fn(f),
                    f.depth as int,
                    i as int,
                    j as int,
                    (o + 1) as nat,
                ),
            {
                assert(w.has(i as int, j as int));
                assert(before.has(i as int, j as int));
                before.get(i, j).plus(w.get(i, j))
            };
        let after = Plane::from(x.rows, x.cols, g);
        proof {
            assert forall|i: int, j: int| after.has(i, j) implies call_ensures(
                g,
                (i as usize, j as usize),
                #[trigger] after.at(i, j),
            ) by {}
        }
        after
    }

    /// Divides the parameters by what they are measured against.
    fn mix_all(&self, moved: &Field<S>, counted: &Plane<S>, carried: &Field<S>) -> (out: Field<S>)
        requires
            moved.wf(),
            counted.wf(),
            carried.wf(),
            moved.rows == carried.rows,
            moved.cols == carried.cols,
            counted.rows == carried.rows,
            counted.cols == carried.cols,
        ensures
            out.of(carried.rows as int, carried.cols as int, carried.depth as int),
            functional::<S>() ==> forall|i: int, j: int, k: int|
                out.has(i, j, k) ==> #[trigger] out.at(i, j, k) == (match self.mix {
                    Mix::Avg => over_of(
                        carried.at(i, j, k),
                        plus_of(
                            unrolled_sum(moved.cells@[i]@[j]@),
                            decimal_of::<S>(1i64, 10u32),
                        ),
                    ),
                    Mix::Softmax => over_of(
                        carried.at(i, j, k),
                        plus_of(counted.at(i, j), decimal_of::<S>(1i64, 10u32)),
                    ),
                    Mix::Plain => carried.at(i, j, k),
                }),
    {
        let g = |i: usize, j: usize, k: usize| -> (y: S)
            requires
                carried.has(i as int, j as int, k as int),
            ensures
                functional::<S>() ==> y == (match self.mix {
                    Mix::Avg => over_of(
                        carried.at(i as int, j as int, k as int),
                        plus_of(
                            unrolled_sum(moved.cells@[i as int]@[j as int]@),
                            decimal_of::<S>(1i64, 10u32),
                        ),
                    ),
                    Mix::Softmax => over_of(
                        carried.at(i as int, j as int, k as int),
                        plus_of(counted.at(i as int, j as int), decimal_of::<S>(1i64, 10u32)),
                    ),
                    Mix::Plain => carried.at(i as int, j as int, k as int),
                }),
            {
                let p = carried.get(i, j, k);
                assert(counted.has(i as int, j as int));
                match self.mix {
                    Mix::Avg => {
                        let mass = sum(moved.cells[i][j].as_slice());
                        p.over(mass.plus(S::decimal(1, 10)))
                    },
                    Mix::Softmax => p.over(counted.get(i, j).plus(S::decimal(1, 10))),
                    Mix::Plain => p,
                }
            };
        Field::from(carried.rows, carried.cols, carried.depth, g)
    }

    /// Moves mass along a flow, with the parameters that it carries.
    pub fn advect(&self, x: &Field<S>, h: &Field<S>, f: &VectorField<S>) -> (out: (
        Field<S>,
        Field<S>,
    ))
        requires
            self.base.wf(),
            f.wf(),
            f.rows == self.base.sx,
            f.cols == self.base.sy,
            f.width == 2,
            x.of(self.base.sx as int, self.base.sy as int, f.depth as int),
            h.of(self.base.sx as int, self.base.sy as int, self.hidden_dims as int),
        ensures
            out.0.of(self.base.sx as int, self.base.sy as int, f.depth as int),
            functional::<S>() ==> forall|i: int, j: int, c: int|
                out.0.has(i, j, c) ==> #[trigger] out.0.at(i, j, c) == self.base.advected(
                    field_fn(x),
                    vectors_fn(f),
                    i,
                    j,
                    c,
                ),
            out.1.of(self.base.sx as int, self.base.sy as int, self.hidden_dims as int),
            functional::<S>() ==> forall|i: int, j: int, k: int|
                out.1.has(i, j, k) ==> #[trigger] out.1.at(i, j, k) == self.advected_p(
                    field_fn(x),
                    field_fn(h),
                    vectors_fn(f),
                    f.depth as int,
                    i,
                    j,
                    k,
                ),
    {
        let base = &self.base;
        let mu = base.targets(f);
        let zero = |i: usize, j: usize, c: usize| -> (y: S)
            ensures
                functional::<S>() ==> y == integer_of::<S>(0i64),
            { S::integer(0) };
        let mut moved = Field::from(x.rows, x.cols, x.depth, zero);
        let mut carried = Field::from(h.rows, h.cols, h.depth, zero);
        let nothing = |i: usize, j: usize| -> (y: S)
            ensures
                functional::<S>() ==> y == integer_of::<S>(0i64),
            { S::integer(0) };
        let mut counted = Plane::from(x.rows, x.cols, nothing);
        proof {
            assert forall|i: int, j: int| counted.has(i, j) implies call_ensures(
                nothing,
                (i as usize, j as usize),
                #[trigger] counted.at(i, j),
            ) by {}
            let n = base.side_cells();
            assert(1 <= n <= n * n) by (nonlinear_arith)
                requires
                    n >= 1,
            ;
        }
        let side: i32 = 2 * base.dd + 1;
        let n: i32 = side * side;
        let mut o: i32 = 0;
        while o < n
            invariant
                0 <= o <= n,
                *base == self.base,
                self.base.wf(),
                n == self.base.side_cells() * self.base.side_cells(),
                f.wf(),
                f.rows == self.base.sx,
                f.cols == self.base.sy,
                f.width == 2,
                x.of(self.base.sx as int, self.base.sy as int, f.depth as int),
                h.of(self.base.sx as int, self.base.sy as int, self.hidden_dims as int),
                mu.of(f.rows as int, f.cols as int, 2, f.depth as int),
                functional::<S>() ==> forall|i: int, j: int, a: int, c: int|
                    mu.has(i, j, a, c) ==> #[trigger] mu.at(i, j, a, c) == self.base.target(
                        vectors_fn(f),
                        i,
                        j,
                        a,
                        c,
                    ),
                moved.of(x.rows as int, x.cols as int, x.depth as int),
                functional::<S>() ==> forall|i: int, j: int, c: int|
                    moved.has(i, j, c) ==> #[trigger] moved.at(i, j, c) == self.base.gathered(
                        field_fn(x),
                        vectors_fn(f),
                        i,
                        j,
                        c,
                        o as nat,
                    ),
                carried.of(h.rows as int, h.cols as int, h.depth as int),
                functional::<S>() ==> forall|i: int, j: int, k: int|
                    carried.has(i, j, k) ==> #[trigger] carried.at(i, j, k) == self.carried(
                        field_fn(x),
                        field_fn(h),
                        vectors_fn(f),
                        f.depth as int,
                        i,
                        j,
                        k,
                        o as nat,
                    ),
                counted.wf(),
                counted.rows == x.rows,
                counted.cols == x.cols,
                functional::<S>() ==> forall|i: int, j: int|
                    counted.has(i, j) ==> #[trigger] counted.at(i, j) == self.counted(
                        field_fn(x),
                        vectors_fn(f),
                        f.depth as int,
                        i,
                        j,
                        o as nat,
                    ),
            decreases n - o,
        {
            let d: (i32, i32) = base.offset(o);
            let mur = base.roll_targets(&mu, f, d, Ghost(o as int));
            moved = base.add_offset(&moved, x, f, &mur, d, Ghost(o as int));
            let w = self.weights(x, f, &mur, d, Ghost(o as int));
            carried = self.carry_offset(&carried, x, h, f, &w, d, Ghost(o as int));
            counted = self.count_offset(&counted, x, f, &w, Ghost(o as int));
            o = o + 1;
        }
        let mixed_p = self.mix_all(&moved, &counted, &carried);
        proof {
            if functional::<S>() {
                assert forall|i: int, j: int, k: int| mixed_p.has(i, j, k) implies
                    #[trigger] mixed_p.at(i, j, k) == self.advected_p(field_fn(x), field_fn(h), vectors_fn(f), f.depth as int, i, j, k) by {
                    assert(carried.has(i, j, k));
                    assert(counted.has(i, j));
                    let lane = Seq::new(
                        f.depth as nat,
                        |c: int| self.base.advected(field_fn(x), vectors_fn(f), i, j, c),
                    );
                    assert(moved.cells@[i]@[j]@ =~= lane) by {
                        assert forall|c: int| 0 <= c < f.depth implies moved.cells@[i]@[j]@[c]
                            == lane[c] by {
                            assert(moved.has(i, j, c));
                            assert(moved.at(i, j, c) == moved.cells@[i]@[j]@[c]);
                        }
                    }
                }
            }
        }
        (moved, mixed_p)
    }
}

impl<S: Real> Reintegration<S> {
    /// What the `o`-th offset brings depends on nothing but the flow on the grid.
    proof fn lemma_share_same(
        &self,
        f: spec_fn(int, int, int, int) -> S,
        g: spec_fn(int, int, int, int) -> S,
        o: int,
        i: int,
        j: int,
        c: int,
    )
        requires
            self.sx > 0,
            self.sy > 0,
            forall|p: int, q: int, a: int|
                0 <= p < self.sx && 0 <= q < self.sy && 0 <= a < 2 ==> #[trigger] f(p, q, a, c)
                    == g(p, q, a, c),
        ensures
            self.share(f, o, i, j, c) == self.share(g, o, i, j, c),
    {
        vstd::arithmetic::div_mod::lemma_mod_bound(i - self.offset_x(o), self.sx as int);
        vstd::arithmetic::div_mod::lemma_mod_bound(j - self.offset_y(o), self.sy as int);
    }

    /// The movement of mass depends on nothing but the flow on the grid.
    pub proof fn lemma_gathered_same(
        &self,
        x: spec_fn(int, int, int) -> S,
        f: spec_fn(int, int, int, int) -> S,
        g: spec_fn(int, int, int, int) -> S,
        i: int,
        j: int,
        c: int,
        n: nat,
    )
        requires
            self.sx > 0,
            self.sy > 0,
            forall|p: int, q: int, a: int|
                0 <= p < self.sx && 0 <= q < self.sy && 0 <= a < 2 ==> #[trigger] f(p, q, a, c)
                    == g(p, q, a, c),
        ensures
            self.gathered(x, f, i, j, c, n) == self.gathered(x, g, i, j, c, n),
        decreases n,
    {
        if n > 0 {
            self.lemma_gathered_same(x, f, g, i, j, c, (n - 1) as nat);
            self.lemma_share_same(f, g, n - 1, i, j, c);
        }
    }
}

impl<S: Real> ReintegrationP<S> {
    /// What counts depends on nothing but the flow on the grid.
    proof fn lemma_weight_same(
        &self,
        x: spec_fn(int, int, int) -> S,
        f: spec_fn(int, int, int, int) -> S,
        g: spec_fn(int, int, int, int) -> S,
        depth: int,
        o: int,
        i: int,
        j: int,
    )
        requires
            self.base.sx > 0,
            self.base.sy > 0,
            forall|p: int, q: int, a: int, c: int|
                0 <= p < self.base.sx && 0 <= q < self.base.sy && 0 <= a < 2 && 0 <= c < depth
                    ==> #[trigger] f(p, q, a, c) == g(p, q, a, c),
            depth >= 0,
        ensures
            self.weight(x, f, depth, o, i, j) == self.weight(x, g, depth, o, i, j),
    {
        if depth > 0 {
            self.base.lemma_share_same(f, g, o, i, j, depth - 1);
        }
        let si = source(self.base.sx as int, self.base.offset_x(o), i);
        let sj = source(self.base.sy as int, self.base.offset_y(o), j);
        let a = Seq::new(
            depth as nat,
            |c: int| times_of(x(si, sj, c), self.base.share(f, o, i, j, c)),
        );
        let b = Seq::new(
            depth as nat,
            |c: int| times_of(x(si, sj, c), self.base.share(g, o, i, j, c)),
        );
        assert forall|c: int| 0 <= c < depth implies a[c] == b[c] by {
            self.base.lemma_share_same(f, g, o, i, j, c);
        }
        assert(a =~= b);
        assert(self.brought(x, f, depth, o, i, j) == unrolled_sum(a)) by {
            assert(a =~= Seq::new(
                depth as nat,
                |c: int|
                    times_of(
                        x(
                            source(self.base.sx as int, self.base.offset_x(o), i),
                            source(self.base.sy as int, self.base.offset_y(o), j),
                            c,
                        ),
                        self.base.share(f, o, i, j, c),
                    ),
            ));
        }
        assert(self.brought(x, g, depth, o, i, j) == unrolled_sum(b)) by {
            assert(b =~= Seq::new(
                depth as nat,
                |c: int|
                    times_of(
                        x(
                            source(self.base.sx as int, self.base.offset_x(o), i),
                            source(self.base.sy as int, self.base.offset_y(o), j),
                            c,
                        ),
                        self.base.share(g, o, i, j, c),
                    ),
            ));
        }
    }

    /// The movement of parameters depends on nothing but the flow on the grid.
    pub proof fn lemma_carried_same(
        &self,
        x: spec_fn(int, int, int) -> S,
        h: spec_fn(int, int, int) -> S,
        f: spec_fn(int, int, int, int) -> S,
        g: spec_fn(int, int, int, int) -> S,
        depth: int,
        i: int,
        j: int,
        k: int,
        n: nat,
    )
        requires
            self.base.sx > 0,
            self.base.sy > 0,
            forall|p: int, q: int, a: int, c: int|
                0 <= p < self.base.sx && 0 <= q < self.base.sy && 0 <= a < 2 && 0 <= c < depth
                    ==> #[trigger] f(p, q, a, c) == g(p, q, a, c),
            depth >= 0,
        ensures
            self.carried(x, h, f, depth, i, j, k, n) == self.carried(x, h, g, depth, i, j, k, n),
            self.counted(x, f, depth, i, j, n) == self.counted(x, g, depth, i, j, n),
        decreases n,
    {
        if n > 0 {
            self.lemma_carried_same(x, h, f, g, depth, i, j, k, (n - 1) as nat);
            self.lemma_weight_same(x, f, g, depth, n - 1, i, j);
        }
    }

    /// What arrives depends on nothing but the flow on the grid.
    pub proof fn lemma_advected_p_same(
        &self,
        x: spec_fn(int, int, int) -> S,
        h: spec_fn(int, int, int) -> S,
        f: spec_fn(int, int, int, int) -> S,
        g: spec_fn(int, int, int, int) -> S,
        depth: int,
        i: int,
        j: int,
        k: int,
    )
        requires
            self.base.sx > 0,
            self.base.sy > 0,
            forall|p: int, q: int, a: int, c: int|
                0 <= p < self.base.sx && 0 <= q < self.base.sy && 0 <= a < 2 && 0 <= c < depth
                    ==> #[trigger] f(p, q, a, c) == g(p, q, a, c),
            depth >= 0,
        ensures
            self.advected_p(x, h, f, depth, i, j, k) == self.advected_p(x, h, g, depth, i, j, k),
    {
        let n = (self.base.side_cells() * self.base.side_cells()) as nat;
        self.lemma_carried_same(x, h, f, g, depth, i, j, k, n);
        let a = Seq::new(depth as nat, |c: int| self.base.advected(x, f, i, j, c));
        let b = Seq::new(depth as nat, |c: int| self.base.advected(x, g, i, j, c));
        assert forall|c: int| 0 <= c < depth implies a[c] == b[c] by {
            self.base.lemma_gathered_same(x, f, g, i, j, c, n);
        }
        assert(a =~= b);
    }
}

/// Mass moves alike with parameters and without: for equal arguments, what either movement
/// gives for the mass is the same.
pub proof fn law_both_movements_move_alike<S: Real>(
    r: &Reintegration<S>,
    p: &ReintegrationP<S>,
    x: &Field<S>,
    h: &Field<S>,
    f: &VectorField<S>,
    alone: Field<S>,
    loaded: (Field<S>, Field<S>),
    i: int,
    j: int,
    c: int,
)
    requires
        functional::<S>(),
        p.base == *r,
        call_ensures(Reintegration::<S>::advect, (r, x, f), alone),
        call_ensures(ReintegrationP::<S>::advect, (p, x, h, f), loaded),
        alone.has(i, j, c),
    ensures
        loaded.0.has(i, j, c),
        loaded.0.at(i, j, c) == alone.at(i, j, c),
{
}

} // verus!
