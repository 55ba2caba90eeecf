//! Planes, fields and vector fields: arrays of two, three and four axes.

use crate::scalar::Real;
use vstd::prelude::*;

verus! {

use crate::scalar::{functional, integer_of, plus_of};

/// Whether a list of rows is `h` rows of `w` entries.
pub open spec fn is_plane<T>(v: Seq<Vec<T>>, h: int, w: int) -> bool {
    &&& v.len() == h
    &&& forall|i: int| 0 <= i < h ==> (#[trigger] v[i])@.len() == w
}

/// Whether a list of planes is `h` rows of `w` cells of `c` entries.
pub open spec fn is_field<T>(v: Seq<Vec<Vec<T>>>, h: int, w: int, c: int) -> bool {
    &&& v.len() == h
    &&& forall|i: int| 0 <= i < h ==> is_plane((#[trigger] v[i])@, w, c)
}

/// Whether a list of fields is `h` rows of `w` cells of `a` vectors of `c` entries.
pub open spec fn is_vector_field<T>(
    v: Seq<Vec<Vec<Vec<T>>>>,
    h: int,
    w: int,
    a: int,
    c: int,
) -> bool {
    &&& v.len() == h
    &&& forall|i: int| 0 <= i < h ==> is_field((#[trigger] v[i])@, w, a, c)
}

/// A list made entry by entry.
pub fn list_from<T, F: Copy + Fn(usize) -> T>(n: usize, f: F) -> (v: Vec<T>)
    requires
        forall|i: usize| i < n ==> call_requires(f, (i,)),
    ensures
        v@.len() == n,
        forall|i: int|
            0 <= i < n ==> call_ensures(f, (i as usize,), #[trigger] v@[i]),
{
    let mut v: Vec<T> = Vec::new();
    let mut i: usize = 0;
    while i < n
        invariant
            i <= n,
            forall|i: usize| i < n ==> call_requires(f, (i,)),
            v@.len() == i,
            forall|k: int| 0 <= k < i ==> call_ensures(f, (k as usize,), #[trigger] v@[k]),
        decreases n - i,
    {
        let x = f(i);
        v.push(x);
        i = i + 1;
    }
    v
}

/// A plane made entry by entry.
fn raw_plane<T, F: Copy + Fn(usize, usize) -> T>(h: usize, w: usize, f: F) -> (v: Vec<Vec<T>>)
    requires
        forall|i: usize, j: usize| i < h && j < w ==> call_requires(f, (i, j)),
    ensures
        is_plane(v@, h as int, w as int),
        forall|i: int, j: int|
            0 <= i < h && 0 <= j < w ==> call_ensures(
                f,
                (i as usize, j as usize),
                #[trigger] v@[i]@[j],
            ),
{
    let mut v: Vec<Vec<T>> = Vec::new();
    let mut i: usize = 0;
    while i < h
        invariant
            i <= h,
            forall|i: usize, j: usize| i < h && j < w ==> call_requires(f, (i, j)),
            is_plane(v@, i as int, w as int),
            forall|k: int, j: int|
                0 <= k < i && 0 <= j < w ==> call_ensures(
                    f,
                    (k as usize, j as usize),
                    #[trigger] v@[k]@[j],
                ),
        decreases h - i,
    {
        let mut row: Vec<T> = Vec::new();
        let mut j: usize = 0;
        while j < w
            invariant
                i < h,
                j <= w,
                forall|i: usize, j: usize| i < h && j < w ==> call_requires(f, (i, j)),
                row@.len() == j,
                forall|l: int|
                    0 <= l < j ==> call_ensures(f, (i, l as usize), #[trigger] row@[l]),
            decreases w - j,
        {
            let x = f(i, j);
            row.push(x);
            j = j + 1;
        }
        let ghost had = v@;
        v.push(row);
        proof {
            assert forall|k: int, j: int| 0 <= k < i + 1 && 0 <= j < w implies call_ensures(
                f,
                (k as usize, j as usize),
                #[trigger] v@[k]@[j],
            ) by {
                if k < i {
                    assert(v@[k] == had[k]);
                    assert(call_ensures(f, (k as usize, j as usize), had[k]@[j]));
                } else {
                    assert(call_ensures(f, (i, j as usize), row@[j]));
                }
            }
        }
        i = i + 1;
    }
    v
}

/// A field made entry by entry.
fn raw_field<T, F: Copy + Fn(usize, usize, usize) -> T>(
    h: usize,
    w: usize,
    c: usize,
    f: F,
) -> (v: Vec<Vec<Vec<T>>>)
    requires
        forall|i: usize, j: usize, k: usize|
            i < h && j < w && k < c ==> call_requires(f, (i, j, k)),
    ensures
        is_field(v@, h as int, w as int, c as int),
        forall|i: int, j: int, k: int|
            0 <= i < h && 0 <= j < w && 0 <= k < c ==> call_ensures(
                f,
                (i as usize, j as usize, k as usize),
                #[trigger] v@[i]@[j]@[k],
            ),
{
    let mut v: Vec<Vec<Vec<T>>> = Vec::new();
    let mut i: usize = 0;
    while i < h
        invariant
            i <= h,
            forall|i: usize, j: usize, k: usize|
                i < h && j < w && k < c ==> call_requires(f, (i, j, k)),
            is_field(v@, i as int, w as int, c as int),
            forall|m: int, j: int, k: int|
                0 <= m < i && 0 <= j < w && 0 <= k < c ==> call_ensures(
                    f,
                    (m as usize, j as usize, k as usize),
                    #[trigger] v@[m]@[j]@[k],
                ),
        decreases h - i,
    {
        let g = |j: usize, k: usize| -> (x: T)
            requires
                call_requires(f, (i, j, k)),
            ensures
                call_ensures(f, (i, j, k), x),
            { f(i, j, k) };
        let row = raw_plane(w, c, g);
        let ghost had = v@;
        v.push(row);
        proof {
            assert forall|m: int, j: int, k: int|
                0 <= m < i + 1 && 0 <= j < w && 0 <= k < c implies call_ensures(
                f,
                (m as usize, j as usize, k as usize),
                #[trigger] v@[m]@[j]@[k],
            ) by {
                if m < i {
                    assert(v@[m] == had[m]);
                    assert(call_ensures(
                        f,
                        (m as usize, j as usize, k as usize),
                        had[m]@[j]@[k],
                    ));
                } else {
                    assert(call_ensures(g, (j as usize, k as usize), row@[j]@[k]));
                }
            }
        }
        i = i + 1;
    }
    v
}

/// A vector field made entry by entry.
fn raw_vector_field<T, F: Copy + Fn(usize, usize, usize, usize) -> T>(
    h: usize,
    w: usize,
    a: usize,
    c: usize,
    f: F,
) -> (v: Vec<Vec<Vec<Vec<T>>>>)
    requires
        forall|i: usize, j: usize, k: usize, l: usize|
            i < h && j < w && k < a && l < c ==> call_requires(f, (i, j, k, l)),
    ensures
        is_vector_field(v@, h as int, w as int, a as int, c as int),
        forall|i: int, j: int, k: int, l: int|
            0 <= i < h && 0 <= j < w && 0 <= k < a && 0 <= l < c ==> call_ensures(
                f,
                (i as usize, j as usize, k as usize, l as usize),
                #[trigger] v@[i]@[j]@[k]@[l],
            ),
{
    let mut v: Vec<Vec<Vec<Vec<T>>>> = Vec::new();
    let mut i: usize = 0;
    while i < h
        invariant
            i <= h,
            forall|i: usize, j: usize, k: usize, l: usize|
                i < h && j < w && k < a && l < c ==> call_requires(f, (i, j, k, l)),
            is_vector_field(v@, i as int, w as int, a as int, c as int),
            forall|m: int, j: int, k: int, l: int|
                0 <= m < i && 0 <= j < w && 0 <= k < a && 0 <= l < c ==> call_ensures(
                    f,
                    (m as usize, j as usize, k as usize, l as usize),
                    #[trigger] v@[m]@[j]@[k]@[l],
                ),
        decreases h - i,
    {
        let g = |j: usize, k: usize, l: usize| -> (x: T)
            requires
                call_requires(f, (i, j, k, l)),
            ensures
                call_ensures(f, (i, j, k, l), x),
            { f(i, j, k, l) };
        let row = raw_field(w, a, c, g);
        let ghost had = v@;
        v.push(row);
        proof {
            assert forall|m: int, j: int, k: int, l: int|
                0 <= m < i + 1 && 0 <= j < w && 0 <= k < a && 0 <= l < c implies call_ensures(
                f,
                (m as usize, j as usize, k as usize, l as usize),
                #[trigger] v@[m]@[j]@[k]@[l],
            ) by {
                if m < i {
                    assert(v@[m] == had[m]);
                    assert(call_ensures(
                        f,
                        (m as usize, j as usize, k as usize, l as usize),
                        had[m]@[j]@[k]@[l],
                    ));
                } else {
                    assert(call_ensures(
                        g,
                        (j as usize, k as usize, l as usize),
                        row@[j]@[k]@[l],
                    ));
                }
            }
        }
        i = i + 1;
    }
    v
}

/// An array of two axes.
pub struct Plane<T> {
    pub rows: usize,
    pub cols: usize,
    pub cells: Vec<Vec<T>>,
}

/// An array of three axes.
pub struct Field<T> {
    pub rows: usize,
    pub cols: usize,
    pub depth: usize,
    pub cells: Vec<Vec<Vec<T>>>,
}

/// An array of four axes: vectors of `width` components for each of `depth` channels.
pub struct VectorField<T> {
    pub rows: usize,
    pub cols: usize,
    pub width: usize,
    pub depth: usize,
    pub cells: Vec<Vec<Vec<Vec<T>>>>,
}

impl<T> Plane<T> {
    /// Whether the array has the entries that its extent says.
    pub open spec fn wf(&self) -> bool {
        is_plane(self.cells@, self.rows as int, self.cols as int)
    }

    /// The entry at a place.
    pub open spec fn at(&self, i: int, j: int) -> T {
        self.cells@[i]@[j]
    }

    /// Whether a place is in the array.
    pub open spec fn has(&self, i: int, j: int) -> bool {
        0 <= i < self.rows && 0 <= j < self.cols
    }

    /// An array made entry by entry.
    pub fn from<F: Copy + Fn(usize, usize) -> T>(rows: usize, cols: usize, f: F) -> (v: Self)
        requires
            forall|i: usize, j: usize| i < rows && j < cols ==> call_requires(f, (i, j)),
        ensures
            v.wf(),
            v.rows == rows,
            v.cols == cols,
            forall|i: int, j: int|
                v.has(i, j) ==> call_ensures(f, (i as usize, j as usize), #[trigger] v.at(i, j)),
    {
        Plane { rows, cols, cells: raw_plane(rows, cols, f) }
    }
}

impl<T: Copy> Plane<T> {
    /// The entry at a place.
    pub fn get(&self, i: usize, j: usize) -> (x: T)
        requires
            self.wf(),
            self.has(i as int, j as int),
        ensures
            x == self.at(i as int, j as int),
    {
        self.cells[i][j]
    }
}

impl<T> Field<T> {
    /// Whether the array has the entries that its extent says.
    pub open spec fn wf(&self) -> bool {
        is_field(self.cells@, self.rows as int, self.cols as int, self.depth as int)
    }

    /// The entry at a place.
    pub open spec fn at(&self, i: int, j: int, k: int) -> T {
        self.cells@[i]@[j]@[k]
    }

    /// Whether a place is in the array.
    pub open spec fn has(&self, i: int, j: int, k: int) -> bool {
        0 <= i < self.rows && 0 <= j < self.cols && 0 <= k < self.depth
    }

    /// Whether the array has the given extent.
    pub open spec fn of(&self, rows: int, cols: int, depth: int) -> bool {
        self.wf() && self.rows == rows && self.cols == cols && self.depth == depth
    }

    /// An array made entry by entry.
    pub fn from<F: Copy + Fn(usize, usize, usize) -> T>(
        rows: usize,
        cols: usize,
        depth: usize,
        f: F,
    ) -> (v: Self)
        requires
            forall|i: usize, j: usize, k: usize|
                i < rows && j < cols && k < depth ==> call_requires(f, (i, j, k)),
        ensures
            v.of(rows as int, cols as int, depth as int),
            forall|i: int, j: int, k: int|
                v.has(i, j, k) ==> call_ensures(
                    f,
                    (i as usize, j as usize, k as usize),
                    #[trigger] v.at(i, j, k),
                ),
    {
        Field { rows, cols, depth, cells: raw_field(rows, cols, depth, f) }
    }
}

impl<T: Copy> Field<T> {
    /// The entry at a place.
    pub fn get(&self, i: usize, j: usize, k: usize) -> (x: T)
        requires
            self.wf(),
            self.has(i as int, j as int, k as int),
        ensures
            x == self.at(i as int, j as int, k as int),
    {
        self.cells[i][j][k]
    }

    /// A copy of the array.
    pub fn copy(&self) -> (v: Self)
        requires
            self.wf(),
        ensures
            v.of(self.rows as int, self.cols as int, self.depth as int),
            forall|i: int, j: int, k: int|
                v.has(i, j, k) ==> #[trigger] v.at(i, j, k) == self.at(i, j, k),
    {
        let f = |i: usize, j: usize, k: usize| -> (x: T)
            requires
                self.wf(),
                self.has(i as int, j as int, k as int),
            ensures
                x == self.at(i as int, j as int, k as int),
            { self.get(i, j, k) };
        Field::from(self.rows, self.cols, self.depth, f)
    }
}

impl<T> VectorField<T> {
    /// Whether the array has the entries that its extent says.
    pub open spec fn wf(&self) -> bool {
        is_vector_field(
            self.cells@,
            self.rows as int,
            self.cols as int,
            self.width as int,
            self.depth as int,
        )
    }

    /// The entry at a place.
    pub open spec fn at(&self, i: int, j: int, a: int, k: int) -> T {
        self.cells@[i]@[j]@[a]@[k]
    }

    /// Whether a place is in the array.
    pub open spec fn has(&self, i: int, j: int, a: int, k: int) -> bool {
        0 <= i < self.rows && 0 <= j < self.cols && 0 <= a < self.width && 0 <= k < self.depth
    }

    /// Whether the array has the given extent.
    pub open spec fn of(&self, rows: int, cols: int, width: int, depth: int) -> bool {
        &&& self.wf()
        &&& self.rows == rows
        &&& self.cols == cols
        &&& self.width == width
        &&& self.depth == depth
    }

    /// An array made entry by entry.
    pub fn from<F: Copy + Fn(usize, usize, usize, usize) -> T>(
        rows: usize,
        cols: usize,
        width: usize,
        depth: usize,
        f: F,
    ) -> (v: Self)
        requires
            forall|i: usize, j: usize, a: usize, k: usize|
                i < rows && j < cols && a < width && k < depth ==> call_requires(f, (i, j, a, k)),
        ensures
            v.of(rows as int, cols as int, width as int, depth as int),
            forall|i: int, j: int, a: int, k: int|
                v.has(i, j, a, k) ==> call_ensures(
                    f,
                    (i as usize, j as usize, a as usize, k as usize),
                    #[trigger] v.at(i, j, a, k),
                ),
    {
        VectorField { rows, cols, width, depth, cells: raw_vector_field(rows, cols, width, depth, f) }
    }
}

impl<T: Copy> VectorField<T> {
    /// The entry at a place.
    pub fn get(&self, i: usize, j: usize, a: usize, k: usize) -> (x: T)
        requires
            self.wf(),
            self.has(i as int, j as int, a as int, k as int),
        ensures
            x == self.at(i as int, j as int, a as int, k as int),
    {
        self.cells[i][j][a][k]
    }
}

/// Lane `r` of the first `n` blocks of eight: the sum of every eighth number from `r` on.
pub open spec fn lane_sum<S: Real>(s: Seq<S>, r: int, n: nat) -> S
    decreases n,
{
    if n == 0 {
        integer_of::<S>(0i64)
    } else {
        plus_of(lane_sum(s, r, (n - 1) as nat), s[8 * (n - 1) + r])
    }
}

/// A start, and the `n` numbers from `from` on added to it one by one.
pub open spec fn tail_sum<S: Real>(start: S, s: Seq<S>, from: int, n: nat) -> S
    decreases n,
{
    if n == 0 {
        start
    } else {
        plus_of(tail_sum(start, s, from, (n - 1) as nat), s[from + n - 1])
    }
}

/// The sum of numbers in the order in which eight lanes are added: whole blocks of
/// eight lane by lane, lanes in pairs, then what is left one by one.
pub open spec fn unrolled_sum<S: Real>(s: Seq<S>) -> S {
    let n = s.len() / 8;
    let a0 = plus_of(
        integer_of::<S>(0i64),
        plus_of(lane_sum(s, 0, n), lane_sum(s, 4, n)),
    );
    let a1 = plus_of(a0, plus_of(lane_sum(s, 1, n), lane_sum(s, 5, n)));
    let a2 = plus_of(a1, plus_of(lane_sum(s, 2, n), lane_sum(s, 6, n)));
    let a3 = plus_of(a2, plus_of(lane_sum(s, 3, n), lane_sum(s, 7, n)));
    tail_sum(a3, s, 8 * n as int, (s.len() % 8) as nat)
}

/// Adds up one lane.
fn add_lane<S: Real>(xs: &[S], r: usize, n: usize) -> (sum: S)
    requires
        r < 8,
        8 * n <= xs@.len(),
    ensures
        functional::<S>() ==> sum == lane_sum(xs@, r as int, n as nat),
{
    let len: usize = xs.len();
    let mut sum = S::integer(0);
    let mut i: usize = 0;
    while i < n
        invariant
            i <= n,
            r < 8,
            8 * n <= len,
            len == xs@.len(),
            functional::<S>() ==> sum == lane_sum(xs@, r as int, i as nat),
        decreases n - i,
    {
        sum = sum.plus(xs[8 * i + r]);
        i = i + 1;
    }
    sum
}

/// Adds up numbers in eight lanes.
pub fn sum<S: Real>(xs: &[S]) -> (total: S)
    ensures
        functional::<S>() ==> total == unrolled_sum(xs@),
{
    let n: usize = xs.len() / 8;
    let mut acc = S::integer(0);
    acc = acc.plus(add_lane(xs, 0, n).plus(add_lane(xs, 4, n)));
    acc = acc.plus(add_lane(xs, 1, n).plus(add_lane(xs, 5, n)));
    acc = acc.plus(add_lane(xs, 2, n).plus(add_lane(xs, 6, n)));
    acc = acc.plus(add_lane(xs, 3, n).plus(add_lane(xs, 7, n)));
    let ghost start = acc;
    let len: usize = xs.len();
    let mut i: usize = 8 * n;
    while i < len
        invariant
            8 * n <= i <= len,
            len == xs@.len(),
            functional::<S>() ==> acc == tail_sum(start, xs@, 8 * n as int, (i - 8 * n) as nat),
        decreases len - i,
    {
        acc = acc.plus(xs[i]);
        i = i + 1;
    }
    acc
}

/// The first `n` rows of a plane, one behind the other.
pub open spec fn row_major<T>(v: Seq<Vec<T>>, n: nat) -> Seq<T>
    decreases n,
{
    if n == 0 {
        seq![]
    } else {
        row_major(v, (n - 1) as nat) + v[n - 1]@
    }
}

/// Where the entries of a plane stand in its rows one behind the other.
pub proof fn lemma_row_major_at<T>(v: Seq<Vec<T>>, h: int, w: int, n: nat)
    requires
        is_plane(v, h, w),
        n <= h,
        w >= 0,
    ensures
        row_major(v, n).len() == n * w,
        forall|i: int, j: int|
            0 <= i < n && 0 <= j < w ==> #[trigger] v[i]@[j] == row_major(v, n)[i * w + j],
    decreases n,
{
    if n == 0 {
        assert(0 * w == 0) by (nonlinear_arith);
    } else {
        let m = n - 1;
        lemma_row_major_at(v, h, w, m as nat);
        let a = row_major(v, m as nat);
        let b = row_major(v, n);
        assert(n * w == m * w + w) by (nonlinear_arith)
            requires
                n == m + 1,
        ;
        assert forall|i: int, j: int| 0 <= i < n && 0 <= j < w implies #[trigger] v[i]@[j] == b[i
            * w + j] by {
            if i < m {
                assert(i * w + w <= m * w && 0 <= i * w) by (nonlinear_arith)
                    requires
                        0 <= i < m,
                        w >= 0,
                ;
                assert(v[i]@[j] == a[i * w + j]);
            } else {
                assert(b[m * w + j] == v[m]@[j]);
            }
        }
    }
}

/// The values of a function at the places of a plane, row by row.
pub open spec fn raster<T>(h: nat, w: nat, f: spec_fn(int, int) -> T) -> Seq<T> {
    Seq::new(h * w, |t: int| f(t / (w as int), t % (w as int)))
}

/// A plane that holds the values of a function, row by row, is its raster.
pub proof fn lemma_raster<T>(v: Seq<Vec<T>>, h: nat, w: nat, f: spec_fn(int, int) -> T)
    requires
        is_plane(v, h as int, w as int),
        forall|i: int, j: int| 0 <= i < h && 0 <= j < w ==> #[trigger] v[i]@[j] == f(i, j),
    ensures
        row_major(v, h) == raster(h, w, f),
{
    lemma_row_major_at(v, h as int, w as int, h);
    let a = row_major(v, h);
    let b = raster(h, w, f);
    assert forall|t: int| 0 <= t < a.len() implies a[t] == b[t] by {
        let i = t / (w as int);
        let j = t % (w as int);
        let hh = h as int;
        let ww = w as int;
        assert(ww > 0) by (nonlinear_arith)
            requires
                0 <= t < hh * ww,
                hh >= 0,
                ww >= 0,
        ;
        assert(0 <= i < hh && 0 <= j < ww && t == i * ww + j) by (nonlinear_arith)
            requires
                0 <= t < hh * ww,
                ww > 0,
                i == t / ww,
                j == t % ww,
        ;
        assert(v[i]@[j] == a[i * w + j]);
    }
    assert(a =~= b);
}

/// All entries of a plane, row by row.
pub fn flatten<T: Copy>(v: &Vec<Vec<T>>) -> (flat: Vec<T>)
    ensures
        flat@ == row_major(v@, v@.len()),
{
    let mut flat: Vec<T> = Vec::new();
    let mut i: usize = 0;
    while i < v.len()
        invariant
            i <= v@.len(),
            flat@ == row_major(v@, i as nat),
        decreases v@.len() - i,
    {
        let row = &v[i];
        let ghost had = flat@;
        let mut j: usize = 0;
        assert(flat@ =~= had + row@.take(0));
        while j < row.len()
            invariant
                j <= row@.len(),
                flat@ == had + row@.take(j as int),
            decreases row@.len() - j,
        {
            flat.push(row[j]);
            assert(flat@ =~= had + row@.take(j + 1));
            j = j + 1;
        }
        assert(row@.take(j as int) =~= row@);
        i = i + 1;
    }
    flat
}

/// Flattened, a plane's rows stand one behind the other: entry `j` of row `i` stands behind `i`
/// whole rows and `j` entries.
pub proof fn law_rows_stand_behind_each_other<T: Copy>(
    v: &Vec<Vec<T>>,
    flat: Vec<T>,
    w: int,
    i: int,
    j: int,
)
    requires
        call_ensures(flatten::<T>, (v,), flat),
        is_plane(v@, v@.len() as int, w),
        0 <= i < v@.len(),
        0 <= j < w,
    ensures
        flat@.len() == v@.len() * w,
        flat@[i * w + j] == v@[i]@[j],
{
    lemma_row_major_at(v@, v@.len() as int, w, v@.len());
}

} // verus!
