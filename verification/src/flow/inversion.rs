//! The inverse transform of a field undoes the forward one, on a host whose transforms are
//! the discrete Fourier transform and its opposite.

use crate::complex::Complex;
use crate::field::Field;
use crate::flow::spectrum::{Fft2DPlanner, Transform};
use crate::scalar::Real;
use vstd::prelude::*;

verus! {

use crate::analysis::lemma_quotient;
use crate::exact::exact_as;
use crate::flow::spectrum::{
    channel_of, divided, plane_transformed, rows_transformed, steady, transformed,
};
use crate::mace::circle::val;
use crate::mace::fourier::vals;
use crate::mace::inverse::plane_vals;
use crate::mace::points::{pmul, pt};
use crate::mace::spectrum::{
    backwards, lemma_plane_rows_back, lemma_spectrum_same, lemma_spectrum_scale,
    lemma_there_and_back, plane_spectrum, roots, spectra, spectrum,
};
use crate::scalar::{count_of, functional};

/// Whether a host transforms `n` numbers as the powers `w` of a root of unity say: forwards
/// by that root, backwards by the opposite one, without dividing.
pub open spec fn is_fourier<S: Real, T: Transform<S>>(
    t: &T,
    v: spec_fn(S) -> real,
    w: spec_fn(int) -> (real, real),
    n: nat,
) -> bool {
    &&& roots(w, n)
    &&& forall|s: Seq<Complex<S>>, k: int|
        s.len() == n && 0 <= k < n ==> val(v, #[trigger] transformed(t, false, s)[k]) == spectrum(
            w,
            vals(v, s),
            n,
            k,
        )
    &&& forall|s: Seq<Complex<S>>, k: int|
        s.len() == n && 0 <= k < n ==> val(v, #[trigger] transformed(t, true, s)[k]) == spectrum(
            backwards(w),
            vals(v, s),
            n,
            k,
        )
}

/// A plane transformed one way is the spectrum of the columns of the spectra of its rows.
pub proof fn lemma_plane_spectrum<S: Real, T: Transform<S>>(
    t: &T,
    v: spec_fn(S) -> real,
    w: spec_fn(int) -> (real, real),
    u: spec_fn(int) -> (real, real),
    inverse: bool,
    f: spec_fn(int, int) -> Complex<S>,
    rows: nat,
    cols: nat,
    k: int,
    l: int,
)
    requires
        is_fourier(t, v, w, rows),
        is_fourier(t, v, u, cols),
        0 <= k < rows,
        0 <= l < cols,
    ensures
        val(v, plane_transformed(t, inverse, f, rows, cols)(k, l)) == plane_spectrum(
            if inverse {
                backwards(w)
            } else {
                w
            },
            if inverse {
                backwards(u)
            } else {
                u
            },
            plane_vals(v, f),
            rows,
            cols,
            k,
            l,
        ),
{
    let down = if inverse {
        backwards(w)
    } else {
        w
    };
    let along = if inverse {
        backwards(u)
    } else {
        u
    };
    let x = plane_vals(v, f);
    let half = rows_transformed(t, inverse, f, cols);
    let column = Seq::new(rows, |r: int| half(r, l));
    assert(val(v, transformed(t, inverse, column)[k]) == spectrum(
        down,
        vals(v, column),
        rows,
        k,
    ));
    let want = |i: int| spectrum(along, |j: int| x(i, j), cols, l);
    assert forall|i: int| 0 <= i < rows implies #[trigger] vals(v, column)(i) == want(i) by {
        let row = Seq::new(cols, |c: int| f(i, c));
        assert(val(v, transformed(t, inverse, row)[l]) == spectrum(
            along,
            vals(v, row),
            cols,
            l,
        ));
        lemma_spectrum_same(along, vals(v, row), |j: int| x(i, j), cols, l);
    }
    lemma_spectrum_same(down, vals(v, column), want, rows, k);
}

/// What was taken twice over and is divided by as much is what it was.
proof fn lemma_divided(z: real, a: nat, b: nat, c: nat)
    requires
        a > 0,
        b > 0,
        c == a * b,
    ensures
        c as real != 0real,
        ((z * a as real) * b as real) / (c as real) == z,
{
    let p = a as real;
    let q = b as real;
    let r = c as real;
    assert(r == p * q) by (nonlinear_arith)
        requires
            c == a * b,
            p == a as real,
            q == b as real,
            r == c as real,
    ;
    assert(c > 0) by (nonlinear_arith)
        requires
            a > 0,
            b > 0,
            c == a * b,
    ;
    assert((z * p) * q == z * r) by (nonlinear_arith)
        requires
            r == p * q,
    ;
    assert((z * r) / r == z) by (nonlinear_arith)
        requires
            r != 0real,
    ;
}

/// The inverse transform of the transform of a plane of any extent gives every number back,
/// where the host's transforms are Fourier transforms and arithmetic does not round.
pub proof fn law_ifft2_undoes_fft2<S: Real, T: Transform<S>>(
    t: &T,
    v: spec_fn(S) -> real,
    w: spec_fn(int) -> (real, real),
    u: spec_fn(int) -> (real, real),
    f: spec_fn(int, int) -> Complex<S>,
    rows: nat,
    cols: nat,
    a: int,
    b: int,
)
    requires
        exact_as(v),
        is_fourier(t, v, w, rows),
        is_fourier(t, v, u, cols),
        rows * cols <= usize::MAX,
        0 <= a < rows,
        0 <= b < cols,
    ensures
        val(
            v,
            divided(
                plane_transformed(
                    t,
                    true,
                    plane_transformed(t, false, f, rows, cols),
                    rows,
                    cols,
                )(a, b),
                count_of::<S>((rows * cols) as usize),
            ),
        ) == val(v, f(a, b)),
{
    let x = plane_vals(v, f);
    let there = plane_transformed(t, false, f, rows, cols);
    let y = plane_vals(v, there);
    let bw = backwards(w);
    let bu = backwards(u);
    let c = pt(cols as real);
    lemma_plane_spectrum(t, v, w, u, true, there, rows, cols, a, b);
    let column = |i: int| x(i, b);
    let down = spectra(w, column, rows);
    let scaled = |k: int| pmul(down(k), c);
    let found = |k: int| spectrum(bu, |l: int| y(k, l), cols, b);
    assert forall|k: int| 0 <= k < rows implies #[trigger] found(k) == scaled(k) by {
        let line = |l: int| y(k, l);
        let given = |l: int| plane_spectrum(w, u, x, rows, cols, k, l);
        assert forall|l: int| 0 <= l < cols implies #[trigger] line(l) == given(l) by {
            lemma_plane_spectrum(t, v, w, u, false, f, rows, cols, k, l);
        }
        lemma_spectrum_same(bu, line, given, cols, b);
        lemma_plane_rows_back(w, u, x, rows, cols, k, b);
    }
    lemma_spectrum_same(bw, found, scaled, rows, a);
    lemma_spectrum_scale(bw, down, rows, a, c);
    lemma_there_and_back(w, column, rows, a);
    let back = plane_transformed(t, true, there, rows, cols)(a, b);
    let z = x(a, b);
    assert(val(v, back) == pmul(pmul(z, pt(rows as real)), c));
    let p = rows as real;
    let q = cols as real;
    assert(pmul(pmul(z, pt(p)), pt(q)) == ((z.0 * p) * q, (z.1 * p) * q)) by {
        reveal(pmul);
    }
    let whole = rows * cols;
    lemma_divided(z.0, rows, cols, whole);
    lemma_divided(z.1, rows, cols, whole);
    assert(v(count_of::<S>(whole as usize)) == whole as real);
}

/// On a Fourier host, a transform of a field transforms every channel by itself, along the rows
/// and along the columns, and the inverse transform divides by the number of cells.
pub proof fn law_transforms_take_channels_apart<S: Real, T: Transform<S>>(
    planner: &Fft2DPlanner<T>,
    v: spec_fn(S) -> real,
    w: spec_fn(int) -> (real, real),
    u: spec_fn(int) -> (real, real),
    arr: &Field<Complex<S>>,
    out: Field<Complex<S>>,
    back: Field<Complex<S>>,
    k: int,
    l: int,
    c: int,
)
    requires
        exact_as(v),
        functional::<S>(),
        steady(&planner.planner),
        arr.wf(),
        is_fourier(&planner.planner, v, w, arr.rows as nat),
        is_fourier(&planner.planner, v, u, arr.cols as nat),
        arr.rows * arr.cols <= usize::MAX,
        call_ensures(Fft2DPlanner::<T>::fft2::<S>, (planner, arr), out),
        call_ensures(Fft2DPlanner::<T>::ifft2::<S>, (planner, arr), back),
        arr.has(k, l, c),
    ensures
        ({
            let x = |i: int, j: int| val(v, arr.at(i, j, c));
            let rows = arr.rows as nat;
            let cols = arr.cols as nat;
            let cells = (arr.rows * arr.cols) as real;
            let opposite = plane_spectrum(backwards(w), backwards(u), x, rows, cols, k, l);
            &&& val(v, out.at(k, l, c)) == plane_spectrum(w, u, x, rows, cols, k, l)
            &&& v(back.at(k, l, c).re) * cells == opposite.0
            &&& v(back.at(k, l, c).im) * cells == opposite.1
        }),
{
    let t = &planner.planner;
    let f = channel_of(arr, c);
    let rows = arr.rows as nat;
    let cols = arr.cols as nat;
    let x = |i: int, j: int| val(v, arr.at(i, j, c));
    let y = plane_vals(v, f);
    lemma_plane_spectrum(t, v, w, u, false, f, rows, cols, k, l);
    lemma_plane_spectrum(t, v, w, u, true, f, rows, cols, k, l);
    lemma_plane_spectrum_same(w, u, y, x, rows, cols, k, l);
    lemma_plane_spectrum_same(backwards(w), backwards(u), y, x, rows, cols, k, l);
    assert(out.has(k, l, c));
    assert(back.has(k, l, c));
    let whole = (arr.rows * arr.cols) as usize;
    assert(arr.rows * arr.cols > 0) by (nonlinear_arith)
        requires
            arr.rows > 0,
            arr.cols > 0,
    ;
    let n = whole as real;
    assert(v(count_of::<S>(whole)) == n);
    let got = plane_transformed(t, true, f, rows, cols)(k, l);
    lemma_quotient(v(got.re), n);
    lemma_quotient(v(got.im), n);
}

/// Spectra of equal planes are equal.
proof fn lemma_plane_spectrum_same(
    w: spec_fn(int) -> (real, real),
    u: spec_fn(int) -> (real, real),
    x: spec_fn(int, int) -> (real, real),
    y: spec_fn(int, int) -> (real, real),
    rows: nat,
    cols: nat,
    k: int,
    l: int,
)
    requires
        forall|i: int, j: int|
            0 <= i < rows && 0 <= j < cols ==> #[trigger] x(i, j) == y(i, j),
    ensures
        plane_spectrum(w, u, x, rows, cols, k, l) == plane_spectrum(w, u, y, rows, cols, k, l),
{
    let xs = |i: int| spectrum(u, |j: int| x(i, j), cols, l);
    let ys = |i: int| spectrum(u, |j: int| y(i, j), cols, l);
    assert forall|i: int| 0 <= i < rows implies #[trigger] xs(i) == ys(i) by {
        let a = |j: int| x(i, j);
        let b = |j: int| y(i, j);
        assert forall|j: int| 0 <= j < cols implies #[trigger] a(j) == b(j) by {
            assert(x(i, j) == y(i, j));
        }
        lemma_spectrum_same(u, a, b, cols, l);
    }
    lemma_spectrum_same(w, xs, ys, rows, k);
}

} // verus!
