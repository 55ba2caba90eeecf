//! What gradients measure, where arithmetic does not round.

use crate::field::{Field, Plane, VectorField};
use crate::flow::gradient::{convolve2d_same_3x3, sobel, sobel_x, sobel_y};
use crate::scalar::Real;
use vstd::prelude::*;

verus! {

use crate::exact::exact_as;
use crate::flow::gradient::{channel_fn, conv3, kx_of, ky_of, nabla, plane_fn};
use crate::scalar::{functional, integer_of};

/// The value of a plane at a place, nothing outside it.
pub open spec fn padded<S: Real>(
    v: spec_fn(S) -> real,
    p: spec_fn(int, int) -> S,
    h: int,
    w: int,
) -> spec_fn(int, int) -> real {
    |a: int, b: int|
        if 0 <= a < h && 0 <= b < w {
            v(p(a, b))
        } else {
            0real
        }
}

/// How much more lies behind a place along an axis than before it: of the rows beside it, or
/// the columns, the middle counts twice.
pub open spec fn rise(at: spec_fn(int, int) -> real, i: int, j: int, axis: int) -> real {
    if axis == 0 {
        (at(i + 1, j - 1) + 2real * at(i + 1, j) + at(i + 1, j + 1)) - (at(i - 1, j - 1) + 2real
            * at(i - 1, j) + at(i - 1, j + 1))
    } else {
        (at(i - 1, j + 1) + 2real * at(i, j + 1) + at(i + 1, j + 1)) - (at(i - 1, j - 1) + 2real
            * at(i, j - 1) + at(i + 1, j - 1))
    }
}

/// One term of a convolution.
proof fn lemma_term<S: Real>(
    v: spec_fn(S) -> real,
    p: spec_fn(int, int) -> S,
    h: int,
    w: int,
    k: spec_fn(int, int) -> S,
    i: int,
    j: int,
    t: nat,
    c: real,
)
    requires
        exact_as(v),
        1 <= t <= 9,
        v(k((t - 1) / 3, (t - 1) % 3)) == c,
    ensures
        v(conv3(p, h, w, k, i, j, t)) == v(conv3(p, h, w, k, i, j, (t - 1) as nat)) + padded(
            v,
            p,
            h,
            w,
        )(i - (t - 1) / 3 + 1, j - (t - 1) % 3 + 1) * c,
{
    let x = padded(v, p, h, w)(i - (t - 1) / 3 + 1, j - (t - 1) % 3 + 1);
    assert(0real * c == 0real) by (nonlinear_arith);
}

/// The gradient of a plane is how much it rises along an axis.
pub proof fn lemma_nabla<S: Real>(
    v: spec_fn(S) -> real,
    p: spec_fn(int, int) -> S,
    h: int,
    w: int,
    i: int,
    j: int,
    axis: int,
)
    requires
        exact_as(v),
    ensures
        v(nabla(p, h, w, i, j, axis)) == rise(padded(v, p, h, w), i, j, axis),
{
    let k = if axis == 0 {
        ky_of::<S>()
    } else {
        kx_of::<S>()
    };
    assert(v(integer_of::<S>(0i64)) == 0real);
    assert(v(integer_of::<S>(1i64)) == 1real);
    assert(v(integer_of::<S>(2i64)) == 2real);
    assert(v(integer_of::<S>(-1i64)) == -1real);
    assert(v(integer_of::<S>(-2i64)) == -2real);
    assert(v(conv3(p, h, w, k, i, j, 0)) == 0real);
    if axis == 0 {
        lemma_term(v, p, h, w, k, i, j, 1, 1real);
        lemma_term(v, p, h, w, k, i, j, 2, 2real);
        lemma_term(v, p, h, w, k, i, j, 3, 1real);
        lemma_term(v, p, h, w, k, i, j, 4, 0real);
        lemma_term(v, p, h, w, k, i, j, 5, 0real);
        lemma_term(v, p, h, w, k, i, j, 6, 0real);
        lemma_term(v, p, h, w, k, i, j, 7, -1real);
        lemma_term(v, p, h, w, k, i, j, 8, -2real);
        lemma_term(v, p, h, w, k, i, j, 9, -1real);
    } else {
        lemma_term(v, p, h, w, k, i, j, 1, 1real);
        lemma_term(v, p, h, w, k, i, j, 2, 0real);
        lemma_term(v, p, h, w, k, i, j, 3, -1real);
        lemma_term(v, p, h, w, k, i, j, 4, 2real);
        lemma_term(v, p, h, w, k, i, j, 5, 0real);
        lemma_term(v, p, h, w, k, i, j, 6, -2real);
        lemma_term(v, p, h, w, k, i, j, 7, 1real);
        lemma_term(v, p, h, w, k, i, j, 8, 0real);
        lemma_term(v, p, h, w, k, i, j, 9, -1real);
    }
}

/// The first component of a channel's gradient is how much the channel rises along the rows,
/// the second how much it rises along the columns, nothing lying outside the field.
pub proof fn law_gradients_are_rises<S: Real>(
    v: spec_fn(S) -> real,
    a: &Field<S>,
    out: VectorField<S>,
    i: int,
    j: int,
    axis: int,
    c: int,
)
    requires
        exact_as(v),
        functional::<S>(),
        call_ensures(sobel::<S>, (a,), out),
        out.has(i, j, axis, c),
    ensures
        ({
            let at = |p: int, q: int|
                if a.has(p, q, c) {
                    v(a.at(p, q, c))
                } else {
                    0real
                };
            &&& axis == 0 ==> v(out.at(i, j, axis, c)) == (at(i + 1, j - 1) + 2real * at(i + 1, j)
                + at(i + 1, j + 1)) - (at(i - 1, j - 1) + 2real * at(i - 1, j) + at(
                i - 1,
                j + 1,
            ))
            &&& axis == 1 ==> v(out.at(i, j, axis, c)) == (at(i - 1, j + 1) + 2real * at(i, j + 1)
                + at(i + 1, j + 1)) - (at(i - 1, j - 1) + 2real * at(i, j - 1) + at(
                i + 1,
                j - 1,
            ))
        }),
{
    lemma_nabla(v, channel_fn(a, c), a.rows as int, a.cols as int, i, j, axis);
}

/// The gradient of an even slope is eight times the slope, along the axis on which it rises,
/// at every place that has neighbours on all sides.
pub proof fn law_gradient_of_a_slope<S: Real>(
    v: spec_fn(S) -> real,
    p: spec_fn(int, int) -> S,
    h: int,
    w: int,
    i: int,
    j: int,
    down: real,
    along: real,
    start: real,
)
    requires
        exact_as(v),
        0 < i < h - 1,
        0 < j < w - 1,
        forall|a: int, b: int|
            0 <= a < h && 0 <= b < w ==> v(#[trigger] p(a, b)) == start + down * (a as real) + along
                * (b as real),
    ensures
        v(nabla(p, h, w, i, j, 0)) == 8real * down,
        v(nabla(p, h, w, i, j, 1)) == 8real * along,
{
    lemma_nabla(v, p, h, w, i, j, 0);
    lemma_nabla(v, p, h, w, i, j, 1);
    lemma_slope_at(v, p, h, w, i, j, down, along, start, -1, -1);
    lemma_slope_at(v, p, h, w, i, j, down, along, start, -1, 0);
    lemma_slope_at(v, p, h, w, i, j, down, along, start, -1, 1);
    lemma_slope_at(v, p, h, w, i, j, down, along, start, 0, -1);
    lemma_slope_at(v, p, h, w, i, j, down, along, start, 0, 1);
    lemma_slope_at(v, p, h, w, i, j, down, along, start, 1, -1);
    lemma_slope_at(v, p, h, w, i, j, down, along, start, 1, 0);
    lemma_slope_at(v, p, h, w, i, j, down, along, start, 1, 1);
}

/// A slope beside a place.
proof fn lemma_slope_at<S: Real>(
    v: spec_fn(S) -> real,
    p: spec_fn(int, int) -> S,
    h: int,
    w: int,
    i: int,
    j: int,
    down: real,
    along: real,
    start: real,
    a: int,
    b: int,
)
    requires
        0 < i < h - 1,
        0 < j < w - 1,
        -1 <= a <= 1,
        -1 <= b <= 1,
        forall|a: int, b: int|
            0 <= a < h && 0 <= b < w ==> v(#[trigger] p(a, b)) == start + down * (a as real) + along
                * (b as real),
    ensures
        padded(v, p, h, w)(i + a, j + b) == start + down * (i as real) + along * (j as real)
            + down * (a as real) + along * (b as real),
{
    let x = i as real;
    let y = a as real;
    assert((i + a) as real == x + y);
    assert(down * (x + y) == down * x + down * y) by (nonlinear_arith);
    let s = j as real;
    let t = b as real;
    assert((j + b) as real == s + t);
    assert(along * (s + t) == along * s + along * t) by (nonlinear_arith);
    assert(v(p(i + a, j + b)) == start + down * ((i + a) as real) + along * ((j + b) as real));
}

/// A convolution of the same extent adds up, at each place, the entries around it times the
/// kernel turned round: what lies below counts by the kernel's upper row, what lies to the right
/// by its left column; nothing lies outside.
pub proof fn law_convolution_turns_its_kernel<S: Real>(
    v: spec_fn(S) -> real,
    arr: &Plane<S>,
    kernel: &Plane<S>,
    out: Plane<S>,
    i: int,
    j: int,
)
    requires
        exact_as(v),
        functional::<S>(),
        call_ensures(convolve2d_same_3x3::<S>, (arr, kernel), out),
        out.has(i, j),
    ensures
        ({
            let at = |p: int, q: int|
                if arr.has(p, q) {
                    v(arr.at(p, q))
                } else {
                    0real
                };
            v(out.at(i, j)) == at(i + 1, j + 1) * v(kernel.at(0, 0)) + at(i + 1, j) * v(
                kernel.at(0, 1),
            ) + at(i + 1, j - 1) * v(kernel.at(0, 2)) + at(i, j + 1) * v(kernel.at(1, 0)) + at(
                i,
                j,
            ) * v(kernel.at(1, 1)) + at(i, j - 1) * v(kernel.at(1, 2)) + at(i - 1, j + 1) * v(
                kernel.at(2, 0),
            ) + at(i - 1, j) * v(kernel.at(2, 1)) + at(i - 1, j - 1) * v(kernel.at(2, 2))
        }),
{
    let p = plane_fn(arr);
    let k = plane_fn(kernel);
    let h = arr.rows as int;
    let w = arr.cols as int;
    assert(v(integer_of::<S>(0i64)) == 0real);
    assert(v(conv3(p, h, w, k, i, j, 0)) == 0real);
    lemma_term(v, p, h, w, k, i, j, 1, v(k(0, 0)));
    lemma_term(v, p, h, w, k, i, j, 2, v(k(0, 1)));
    lemma_term(v, p, h, w, k, i, j, 3, v(k(0, 2)));
    lemma_term(v, p, h, w, k, i, j, 4, v(k(1, 0)));
    lemma_term(v, p, h, w, k, i, j, 5, v(k(1, 1)));
    lemma_term(v, p, h, w, k, i, j, 6, v(k(1, 2)));
    lemma_term(v, p, h, w, k, i, j, 7, v(k(2, 0)));
    lemma_term(v, p, h, w, k, i, j, 8, v(k(2, 1)));
    lemma_term(v, p, h, w, k, i, j, 9, v(k(2, 2)));
}

/// The two gradients by themselves are the components of both together.
pub proof fn law_gradients_are_components<S: Real>(
    v: spec_fn(S) -> real,
    a: &Field<S>,
    down: Field<S>,
    along: Field<S>,
    i: int,
    j: int,
    c: int,
)
    requires
        exact_as(v),
        functional::<S>(),
        call_ensures(sobel_y::<S>, (a,), down),
        call_ensures(sobel_x::<S>, (a,), along),
        down.has(i, j, c),
        along.has(i, j, c),
    ensures
        ({
            let at = |p: int, q: int|
                if a.has(p, q, c) {
                    v(a.at(p, q, c))
                } else {
                    0real
                };
            &&& v(down.at(i, j, c)) == (at(i + 1, j - 1) + 2real * at(i + 1, j) + at(i + 1, j + 1))
                - (at(i - 1, j - 1) + 2real * at(i - 1, j) + at(i - 1, j + 1))
            &&& v(along.at(i, j, c)) == (at(i - 1, j + 1) + 2real * at(i, j + 1) + at(i + 1, j + 1))
                - (at(i - 1, j - 1) + 2real * at(i, j - 1) + at(i + 1, j - 1))
        }),
{
    lemma_nabla(v, channel_fn(a, c), a.rows as int, a.cols as int, i, j, 0);
    lemma_nabla(v, channel_fn(a, c), a.rows as int, a.cols as int, i, j, 1);
}

} // verus!
