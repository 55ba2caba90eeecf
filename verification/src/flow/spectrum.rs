//! Two-dimensional transforms of fields, on top of the host's one-dimensional ones.

use crate::complex::Complex;
use crate::field::{list_from, Field, Plane};
use crate::scalar::Real;
use vstd::prelude::*;

verus! {

use crate::scalar::{count_of, functional, over_of};

/// A host's one-dimensional transforms, of any length and without scaling. Nothing is
/// taken for granted about them: contracts speak of them under [`steady`].
pub trait Transform<S> {
    /// The forward transform.
    fn forward(&self, row: Vec<Complex<S>>) -> Vec<Complex<S>>;

    /// The inverse transform.
    fn inverse(&self, row: Vec<Complex<S>>) -> Vec<Complex<S>>;
}

/// Whether a transform may give `q` for `s`.
pub open spec fn may_give<S, T: Transform<S>>(
    t: &T,
    inverse: bool,
    s: Seq<Complex<S>>,
    q: Seq<Complex<S>>,
) -> bool {
    if inverse {
        exists|row: Vec<Complex<S>>, r: Vec<Complex<S>>|
            row@ == s && r@ == q && #[trigger] call_ensures(T::inverse, (t, row), r)
    } else {
        exists|row: Vec<Complex<S>>, r: Vec<Complex<S>>|
            row@ == s && r@ == q && #[trigger] call_ensures(T::forward, (t, row), r)
    }
}

/// What a transform gives.
pub open spec fn transformed<S, T: Transform<S>>(
    t: &T,
    inverse: bool,
    s: Seq<Complex<S>>,
) -> Seq<Complex<S>> {
    choose|q: Seq<Complex<S>>| may_give(t, inverse, s, q)
}

/// Whether a transform gives equal results for equal rows, and as many numbers as it is
/// given.
pub open spec fn steady<S, T: Transform<S>>(t: &T) -> bool {
    forall|inverse: bool, s: Seq<Complex<S>>, q: Seq<Complex<S>>|
        #[trigger] may_give(t, inverse, s, q) ==> q.len() == s.len() && q == transformed(
            t,
            inverse,
            s,
        )
}

/// Transforms one row; a transform that does not keep its length leaves it as it is.
fn transform<S: Copy, T: Transform<S>>(t: &T, inverse: bool, row: Vec<Complex<S>>) -> (r: Vec<
    Complex<S>,
>)
    ensures
        steady(t) ==> r@ == transformed(t, inverse, row@),
        r@.len() == row@.len(),
{
    let ghost s = row@;
    let n: usize = row.len();
    let given = &row;
    let entry = |i: usize| -> (x: Complex<S>)
        requires
            i < given@.len(),
        ensures
            x == given@[i as int],
        { given[i] };
    let copy = list_from(n, entry);
    proof {
        assert forall|i: int| 0 <= i < n implies #[trigger] copy@[i] == s[i] by {
            assert(call_ensures(entry, (i as usize,), copy@[i]));
        }
        assert(copy@ =~= s);
    }
    let r = if inverse {
        let r = t.inverse(copy);
        assert(call_ensures(T::inverse, (t, copy), r));
        r
    } else {
        let r = t.forward(copy);
        assert(call_ensures(T::forward, (t, copy), r));
        r
    };
    assert(may_give(t, inverse, s, r@));
    if r.len() == n {
        r
    } else {
        row
    }
}

/// Every row of a plane transformed.
pub open spec fn rows_transformed<S, T: Transform<S>>(
    t: &T,
    inverse: bool,
    f: spec_fn(int, int) -> Complex<S>,
    cols: nat,
) -> spec_fn(int, int) -> Complex<S> {
    |i: int, j: int| transformed(t, inverse, Seq::new(cols, |l: int| f(i, l)))[j]
}

/// Every column of a plane transformed.
pub open spec fn cols_transformed<S, T: Transform<S>>(
    t: &T,
    inverse: bool,
    f: spec_fn(int, int) -> Complex<S>,
    rows: nat,
) -> spec_fn(int, int) -> Complex<S> {
    |i: int, j: int| transformed(t, inverse, Seq::new(rows, |l: int| f(l, j)))[i]
}

/// Rows, then columns of a plane transformed.
pub open spec fn plane_transformed<S, T: Transform<S>>(
    t: &T,
    inverse: bool,
    f: spec_fn(int, int) -> Complex<S>,
    rows: nat,
    cols: nat,
) -> spec_fn(int, int) -> Complex<S> {
    cols_transformed(t, inverse, rows_transformed(t, inverse, f, cols), rows)
}

/// A channel of a field as a function of the place.
pub open spec fn channel_of<S>(f: &Field<S>, k: int) -> spec_fn(int, int) -> S {
    |i: int, j: int| f.at(i, j, k)
}

/// A two-dimensional transform depends on nothing but the plane.
pub proof fn lemma_plane_transformed_same<S, T: Transform<S>>(
    t: &T,
    inverse: bool,
    f: spec_fn(int, int) -> Complex<S>,
    g: spec_fn(int, int) -> Complex<S>,
    rows: nat,
    cols: nat,
    i: int,
    j: int,
)
    requires
        forall|a: int, b: int| 0 <= a < rows && 0 <= b < cols ==> #[trigger] f(a, b) == g(a, b),
        0 <= j < cols,
    ensures
        plane_transformed(t, inverse, f, rows, cols)(i, j) == plane_transformed(
            t,
            inverse,
            g,
            rows,
            cols,
        )(i, j),
{
    let rf = rows_transformed(t, inverse, f, cols);
    let rg = rows_transformed(t, inverse, g, cols);
    assert forall|a: int| 0 <= a < rows implies #[trigger] rf(a, j) == rg(a, j) by {
        assert(Seq::new(cols, |l: int| f(a, l)) =~= Seq::new(cols, |l: int| g(a, l)));
    }
    assert(Seq::new(rows, |l: int| rf(l, j)) =~= Seq::new(rows, |l: int| rg(l, j)));
}

/// Transforms the rows, then the columns of one channel; the result is column by column.
fn transform_channel<S: Copy, T: Transform<S>>(
    t: &T,
    inverse: bool,
    arr: &Field<Complex<S>>,
    k: usize,
) -> (cols: Vec<Vec<Complex<S>>>)
    requires
        arr.wf(),
        k < arr.depth,
    ensures
        cols@.len() == arr.cols,
        forall|j: int| 0 <= j < arr.cols ==> (#[trigger] cols@[j])@.len() == arr.rows,
        steady(t) ==> forall|i: int, j: int|
            0 <= i < arr.rows && 0 <= j < arr.cols ==> #[trigger] cols@[j]@[i]
                == plane_transformed(
                t,
                inverse,
                channel_of(arr, k as int),
                arr.rows as nat,
                arr.cols as nat,
            )(i, j),
{
    let ghost f = channel_of(arr, k as int);
    let row_of = |i: usize| -> (r: Vec<Complex<S>>)
        requires
            i < arr.rows,
        ensures
            r@.len() == arr.cols,
            steady(t) ==> r@ == transformed(
                t,
                inverse,
                Seq::new(arr.cols as nat, |l: int| arr.at(i as int, l, k as int)),
            ),
        {
            let entry = |j: usize| -> (x: Complex<S>)
                requires
                    arr.has(i as int, j as int, k as int),
                ensures
                    x == arr.at(i as int, j as int, k as int),
                { arr.get(i, j, k) };
            let row = list_from(arr.cols, entry);
            assert(row@ =~= Seq::new(arr.cols as nat, |l: int| arr.at(i as int, l, k as int)));
            transform(t, inverse, row)
        };
    let rows = list_from(arr.rows, row_of);
    let ghost rf = rows_transformed(t, inverse, f, arr.cols as nat);
    proof {
        assert forall|i: int, j: int|
            steady(t) && 0 <= i < arr.rows && 0 <= j < arr.cols implies
            #[trigger] rows@[i]@[j] == rf(i, j) by {
            assert(call_ensures(row_of, (i as usize,), rows@[i]));
            assert(Seq::new(arr.cols as nat, |l: int| arr.at(i, l, k as int)) =~= Seq::new(
                arr.cols as nat,
                |l: int| f(i, l),
            ));
        }
        assert forall|i: int| 0 <= i < arr.rows implies (#[trigger] rows@[i])@.len()
            == arr.cols by {
            assert(call_ensures(row_of, (i as usize,), rows@[i]));
        }
    }
    let middle = Plane { rows: arr.rows, cols: arr.cols, cells: rows };
    let m = &middle;
    let col_of = |j: usize| -> (r: Vec<Complex<S>>)
        requires
            j < arr.cols,
        ensures
            r@.len() == arr.rows,
            steady(t) ==> r@ == transformed(
                t,
                inverse,
                Seq::new(arr.rows as nat, |l: int| m.at(l, j as int)),
            ),
        {
            let entry = |i: usize| -> (x: Complex<S>)
                requires
                    m.has(i as int, j as int),
                ensures
                    x == m.at(i as int, j as int),
                { m.get(i, j) };
            let col = list_from(arr.rows, entry);
            assert(col@ =~= Seq::new(arr.rows as nat, |l: int| m.at(l, j as int)));
            transform(t, inverse, col)
        };
    let cols = list_from(arr.cols, col_of);
    proof {
        assert forall|j: int| 0 <= j < arr.cols implies (#[trigger] cols@[j])@.len()
            == arr.rows by {
            assert(call_ensures(col_of, (j as usize,), cols@[j]));
        }
        assert forall|i: int, j: int|
            steady(t) && 0 <= i < arr.rows && 0 <= j < arr.cols implies
            #[trigger] cols@[j]@[i] == plane_transformed(
            t,
            inverse,
            f,
            arr.rows as nat,
            arr.cols as nat,
        )(i, j) by {
            assert(call_ensures(col_of, (j as usize,), cols@[j]));
            assert(Seq::new(arr.rows as nat, |l: int| m.at(l, j)) =~= Seq::new(
                arr.rows as nat,
                |l: int| rf(l, j),
            )) by {
                assert forall|l: int| 0 <= l < arr.rows implies m.at(l, j) == rf(l, j) by {
                    assert(m.cells@[l]@[j] == rf(l, j));
                }
            }
        }
    }
    cols
}

/// Two-dimensional transforms of every channel of a field.
pub struct Fft2DPlanner<T> {
    pub planner: T,
}

impl<T> Fft2DPlanner<T> {
    /// Two-dimensional transforms on top of one-dimensional ones.
    pub fn new(planner: T) -> (p: Self)
        ensures
            p.planner == planner,
    {
        Fft2DPlanner { planner }
    }

    /// Transforms every channel.
    fn transform_channels<S: Copy>(&self, inverse: bool, arr: &Field<Complex<S>>) -> (chs: Vec<
        Vec<Vec<Complex<S>>>,
    >) where T: Transform<S>
        requires
            arr.wf(),
        ensures
            chs@.len() == arr.depth,
            forall|k: int, j: int|
                0 <= k < arr.depth && 0 <= j < arr.cols ==> (#[trigger] chs@[k]@[j])@.len()
                    == arr.rows,
            forall|k: int| 0 <= k < arr.depth ==> (#[trigger] chs@[k])@.len() == arr.cols,
            steady(&self.planner) ==> forall|i: int, j: int, k: int|
                arr.has(i, j, k) ==> #[trigger] chs@[k]@[j]@[i] == plane_transformed(
                    &self.planner,
                    inverse,
                    channel_of(arr, k),
                    arr.rows as nat,
                    arr.cols as nat,
                )(i, j),
    {
        let t = &self.planner;
        let of = |k: usize| -> (cols: Vec<Vec<Complex<S>>>)
            requires
                k < arr.depth,
            ensures
                cols@.len() == arr.cols,
                forall|j: int| 0 <= j < arr.cols ==> (#[trigger] cols@[j])@.len() == arr.rows,
                steady(t) ==> forall|i: int, j: int|
                    0 <= i < arr.rows && 0 <= j < arr.cols ==> #[trigger] cols@[j]@[i]
                        == plane_transformed(
                        t,
                        inverse,
                        channel_of(arr, k as int),
                        arr.rows as nat,
                        arr.cols as nat,
                    )(i, j),
            { transform_channel(t, inverse, arr, k) };
        let chs = list_from(arr.depth, of);
        proof {
            assert forall|k: int| 0 <= k < arr.depth implies call_ensures(
                of,
                (k as usize,),
                #[trigger] chs@[k],
            ) by {}
            assert forall|i: int, j: int, k: int| steady(t) && arr.has(i, j, k) implies
                #[trigger] chs@[k]@[j]@[i] == plane_transformed(
                &self.planner,
                inverse,
                channel_of(arr, k),
                arr.rows as nat,
                arr.cols as nat,
            )(i, j) by {
                assert(call_ensures(of, (k as usize,), chs@[k]));
            }
        }
        chs
    }

    /// The two-dimensional transform of every channel: rows, then columns.
    pub fn fft2<S: Copy>(&self, arr: &Field<Complex<S>>) -> (out: Field<Complex<S>>) where
        T: Transform<S>,

        requires
            arr.wf(),
        ensures
            out.of(arr.rows as int, arr.cols as int, arr.depth as int),
            steady(&self.planner) ==> forall|i: int, j: int, k: int|
                out.has(i, j, k) ==> #[trigger] out.at(i, j, k) == plane_transformed(
                    &self.planner,
                    false,
                    channel_of(arr, k),
                    arr.rows as nat,
                    arr.cols as nat,
                )(i, j),
    {
        let chs = self.transform_channels(false, arr);
        let cs = &chs;
        let f = |i: usize, j: usize, k: usize| -> (x: Complex<S>)
            requires
                arr.has(i as int, j as int, k as int),
            ensures
                x == cs@[k as int]@[j as int]@[i as int],
            {
                assert(cs@[k as int]@[j as int]@.len() == arr.rows);
                cs[k][j][i]
            };
        Field::from(arr.rows, arr.cols, arr.depth, f)
    }

    /// The inverse two-dimensional transform of every channel, divided by the number of
    /// cells.
    pub fn ifft2<S: Real>(&self, arr: &Field<Complex<S>>) -> (out: Field<Complex<S>>) where
        T: Transform<S>,

        requires
            arr.wf(),
            arr.rows * arr.cols <= usize::MAX,
        ensures
            out.of(arr.rows as int, arr.cols as int, arr.depth as int),
            functional::<S>() && steady(&self.planner) ==> forall|i: int, j: int, k: int|
                out.has(i, j, k) ==> #[trigger] out.at(i, j, k) == divided(
                    plane_transformed(
                        &self.planner,
                        true,
                        channel_of(arr, k),
                        arr.rows as nat,
                        arr.cols as nat,
                    )(i, j),
                    count_of::<S>((arr.rows * arr.cols) as usize),
                ),
    {
        let chs = self.transform_channels(true, arr);
        let cs = &chs;
        let norm = S::count(arr.rows * arr.cols);
        let f = |i: usize, j: usize, k: usize| -> (x: Complex<S>)
            requires
                arr.has(i as int, j as int, k as int),
            ensures
                functional::<S>() ==> x == divided(cs@[k as int]@[j as int]@[i as int], norm),
            {
                assert(cs@[k as int]@[j as int]@.len() == arr.rows);
                let v = cs[k][j][i];
                Complex { re: v.re.over(norm), im: v.im.over(norm) }
            };
        Field::from(arr.rows, arr.cols, arr.depth, f)
    }
}

/// A complex number divided by a real one.
pub open spec fn divided<S: Real>(v: Complex<S>, norm: S) -> Complex<S> {
    Complex { re: over_of(v.re, norm), im: over_of(v.im, norm) }
}

} // verus!
