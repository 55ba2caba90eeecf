//! Sobel gradients of planes and fields.

use crate::field::{list_from, Field, Plane, VectorField};
use crate::scalar::Real;
use vstd::prelude::*;

verus! {

use crate::scalar::{functional, integer_of, plus_of, times_of};

/// The first `t` terms of a 3x3 convolution at a place, added up; what lies outside the
/// plane counts as nothing.
pub open spec fn conv3<S: Real>(
    p: spec_fn(int, int) -> S,
    h: int,
    w: int,
    k: spec_fn(int, int) -> S,
    i: int,
    j: int,
    t: nat,
) -> S
    decreases t,
{
    if t == 0 {
        integer_of::<S>(0i64)
    } else {
        let di = (t - 1) / 3;
        let dj = (t - 1) % 3;
        let before = conv3(p, h, w, k, i, j, (t - 1) as nat);
        let ni = i - di + 1;
        let nj = j - dj + 1;
        if 0 <= ni < h && 0 <= nj < w {
            plus_of(before, times_of(p(ni, nj), k(di, dj)))
        } else {
            before
        }
    }
}

/// A convolution depends on nothing but the plane and the kernel.
pub proof fn lemma_conv3_same<S: Real>(
    p: spec_fn(int, int) -> S,
    q: spec_fn(int, int) -> S,
    h: int,
    w: int,
    k: spec_fn(int, int) -> S,
    l: spec_fn(int, int) -> S,
    i: int,
    j: int,
    t: nat,
)
    requires
        t <= 9,
        forall|a: int, b: int| 0 <= a < h && 0 <= b < w ==> #[trigger] p(a, b) == q(a, b),
        forall|a: int, b: int| 0 <= a < 3 && 0 <= b < 3 ==> #[trigger] k(a, b) == l(a, b),
    ensures
        conv3(p, h, w, k, i, j, t) == conv3(q, h, w, l, i, j, t),
    decreases t,
{
    if t > 0 {
        lemma_conv3_same(p, q, h, w, k, l, i, j, (t - 1) as nat);
    }
}

/// A plane as a function of the place.
pub open spec fn plane_fn<S>(p: &Plane<S>) -> spec_fn(int, int) -> S {
    |i: int, j: int| p.at(i, j)
}

/// A channel of a field as a function of the place.
pub open spec fn channel_fn<S>(f: &Field<S>, c: int) -> spec_fn(int, int) -> S {
    |i: int, j: int| f.at(i, j, c)
}

/// A 3x3 convolution at one place.
fn convolve_at<S: Real>(arr: &Plane<S>, kernel: &Plane<S>, i: usize, j: usize) -> (sum: S)
    requires
        arr.wf(),
        kernel.wf(),
        kernel.rows == 3,
        kernel.cols == 3,
        arr.has(i as int, j as int),
    ensures
        functional::<S>() ==> sum == conv3(
            plane_fn(arr),
            arr.rows as int,
            arr.cols as int,
            plane_fn(kernel),
            i as int,
            j as int,
            9,
        ),
{
    let mut sum = S::integer(0);
    let mut t: usize = 0;
    while t < 9
        invariant
            t <= 9,
            arr.wf(),
            kernel.wf(),
            kernel.rows == 3,
            kernel.cols == 3,
            arr.has(i as int, j as int),
            functional::<S>() ==> sum == conv3(
                plane_fn(arr),
                arr.rows as int,
                arr.cols as int,
                plane_fn(kernel),
                i as int,
                j as int,
                t as nat,
            ),
        decreases 9 - t,
    {
        let di: usize = t / 3;
        let dj: usize = t % 3;
        if i + 1 >= di && i + 1 - di < arr.rows && j + 1 >= dj && j + 1 - dj < arr.cols {
            sum = sum.plus(arr.get(i + 1 - di, j + 1 - dj).times(kernel.get(di, dj)));
        }
        t = t + 1;
    }
    sum
}

/// 2D convolution of the same extent with a 3x3 kernel.
pub fn convolve2d_same_3x3<S: Real>(arr: &Plane<S>, kernel: &Plane<S>) -> (out: Plane<S>)
    requires
        arr.wf(),
        kernel.wf(),
        kernel.rows == 3,
        kernel.cols == 3,
    ensures
        out.wf(),
        out.rows == arr.rows,
        out.cols == arr.cols,
        functional::<S>() ==> forall|i: int, j: int|
            out.has(i, j) ==> #[trigger] out.at(i, j) == conv3(
                plane_fn(arr),
                arr.rows as int,
                arr.cols as int,
                plane_fn(kernel),
                i,
                j,
                9,
            ),
{
    let f = |i: usize, j: usize| -> (y: S)
        requires
            arr.has(i as int, j as int),
        ensures
            functional::<S>() ==> y == conv3(
                plane_fn(arr),
                arr.rows as int,
                arr.cols as int,
                plane_fn(kernel),
                i as int,
                j as int,
                9,
            ),
        { convolve_at(arr, kernel, i, j) };
    Plane::from(arr.rows, arr.cols, f)
}

/// The kernel of the gradient along the columns.
pub open spec fn kx_of<S: Real>() -> spec_fn(int, int) -> S {
    |i: int, j: int|
        integer_of::<S>(
            (if j == 1 {
                0
            } else {
                (if i == 1 {
                    2int
                } else {
                    1
                }) * (if j == 0 {
                    1int
                } else {
                    -1
                })
            }) as i64,
        )
}

/// The kernel of the gradient along the rows.
pub open spec fn ky_of<S: Real>() -> spec_fn(int, int) -> S {
    |i: int, j: int| kx_of::<S>()(j, i)
}

/// The kernel of the gradient along the columns: 1 0 -1, 2 0 -2, 1 0 -1.
pub fn kx<S: Real>() -> (k: Plane<S>)
    ensures
        k.wf(),
        k.rows == 3,
        k.cols == 3,
        functional::<S>() ==> forall|i: int, j: int|
            k.has(i, j) ==> #[trigger] k.at(i, j) == kx_of::<S>()(i, j),
{
    let f = |i: usize, j: usize| -> (x: S)
        requires
            i < 3,
            j < 3,
        ensures
            functional::<S>() ==> x == kx_of::<S>()(i as int, j as int),
        {
            let weight: i64 = if i == 1 {
                2
            } else {
                1
            };
            if j == 1 {
                S::integer(0)
            } else if j == 0 {
                S::integer(weight)
            } else {
                S::integer(-weight)
            }
        };
    Plane::from(3, 3, f)
}

/// The kernel of the gradient along the rows: 1 2 1, 0 0 0, -1 -2 -1.
pub fn ky<S: Real>() -> (k: Plane<S>)
    ensures
        k.wf(),
        k.rows == 3,
        k.cols == 3,
        functional::<S>() ==> forall|i: int, j: int|
            k.has(i, j) ==> #[trigger] k.at(i, j) == ky_of::<S>()(i, j),
{
    let turned: Plane<S> = kx();
    let t = &turned;
    let f = |i: usize, j: usize| -> (x: S)
        requires
            i < 3,
            j < 3,
        ensures
            functional::<S>() ==> x == ky_of::<S>()(i as int, j as int),
        { t.get(j, i) };
    Plane::from(3, 3, f)
}

/// One channel of a field.
pub fn channel<S: Copy>(a: &Field<S>, c: usize) -> (p: Plane<S>)
    requires
        a.wf(),
        c < a.depth,
    ensures
        p.wf(),
        p.rows == a.rows,
        p.cols == a.cols,
        forall|i: int, j: int| p.has(i, j) ==> #[trigger] p.at(i, j) == a.at(i, j, c as int),
{
    let f = |i: usize, j: usize| -> (x: S)
        requires
            a.has(i as int, j as int, c as int),
        ensures
            x == a.at(i as int, j as int, c as int),
        { a.get(i, j, c) };
    Plane::from(a.rows, a.cols, f)
}

/// The gradient of a channel with the given kernel.
pub open spec fn gradient_at<S: Real>(
    a: &Field<S>,
    k: spec_fn(int, int) -> S,
    i: int,
    j: int,
    c: int,
) -> S {
    conv3(channel_fn(a, c), a.rows as int, a.cols as int, k, i, j, 9)
}

/// The gradients of all channels with one kernel.
fn gradients<S: Real>(a: &Field<S>, kernel: &Plane<S>) -> (planes: Vec<Plane<S>>)
    requires
        a.wf(),
        kernel.wf(),
        kernel.rows == 3,
        kernel.cols == 3,
    ensures
        planes@.len() == a.depth,
        forall|c: int|
            0 <= c < a.depth ==> {
                let p = #[trigger] planes@[c];
                &&& p.wf()
                &&& p.rows == a.rows
                &&& p.cols == a.cols
                &&& functional::<S>() ==> forall|i: int, j: int|
                    p.has(i, j) ==> #[trigger] p.at(i, j) == gradient_at(
                        a,
                        plane_fn(kernel),
                        i,
                        j,
                        c,
                    )
            },
{
    let f = |c: usize| -> (p: Plane<S>)
        requires
            c < a.depth,
        ensures
            p.wf(),
            p.rows == a.rows,
            p.cols == a.cols,
            functional::<S>() ==> forall|i: int, j: int|
                p.has(i, j) ==> #[trigger] p.at(i, j) == gradient_at(
                    a,
                    plane_fn(kernel),
                    i,
                    j,
                    c as int,
                ),
        {
            let slice = channel(a, c);
            let p = convolve2d_same_3x3(&slice, kernel);
            proof {
                if functional::<S>() {
                    assert forall|i: int, j: int| p.has(i, j) implies #[trigger] p.at(i, j)
                        == gradient_at(a, plane_fn(kernel), i, j, c as int) by {
                        lemma_conv3_same(
                            plane_fn(&slice),
                            channel_fn(a, c as int),
                            a.rows as int,
                            a.cols as int,
                            plane_fn(kernel),
                            plane_fn(kernel),
                            i,
                            j,
                            9,
                        );
                    }
                }
            }
            p
        };
    list_from(a.depth, f)
}

/// The gradients of all channels along the columns.
pub fn sobel_x<S: Real>(a: &Field<S>) -> (out: Field<S>)
    requires
        a.wf(),
    ensures
        out.of(a.rows as int, a.cols as int, a.depth as int),
        functional::<S>() ==> forall|i: int, j: int, c: int|
            out.has(i, j, c) ==> #[trigger] out.at(i, j, c) == gradient_at(
                a,
                kx_of::<S>(),
                i,
                j,
                c,
            ),
{
    let kernel: Plane<S> = kx();
    let planes = gradients(a, &kernel);
    let ps = &planes;
    let f = |i: usize, j: usize, c: usize| -> (x: S)
        requires
            a.has(i as int, j as int, c as int),
        ensures
            functional::<S>() ==> x == gradient_at(
                a,
                kx_of::<S>(),
                i as int,
                j as int,
                c as int,
            ),
        {
            proof {
                if functional::<S>() {
                    lemma_conv3_same(
                        channel_fn(a, c as int),
                        channel_fn(a, c as int),
                        a.rows as int,
                        a.cols as int,
                        plane_fn(&kernel),
                        kx_of::<S>(),
                        i as int,
                        j as int,
                        9,
                    );
                }
            }
            ps[c].get(i, j)
        };
    Field::from(a.rows, a.cols, a.depth, f)
}

/// The gradients of all channels along the rows.
pub fn sobel_y<S: Real>(a: &Field<S>) -> (out: Field<S>)
    requires
        a.wf(),
    ensures
        out.of(a.rows as int, a.cols as int, a.depth as int),
        functional::<S>() ==> forall|i: int, j: int, c: int|
            out.has(i, j, c) ==> #[trigger] out.at(i, j, c) == gradient_at(
                a,
                ky_of::<S>(),
                i,
                j,
                c,
            ),
{
    let kernel: Plane<S> = ky();
    let planes = gradients(a, &kernel);
    let ps = &planes;
    let f = |i: usize, j: usize, c: usize| -> (x: S)
        requires
            a.has(i as int, j as int, c as int),
        ensures
            functional::<S>() ==> x == gradient_at(
                a,
                ky_of::<S>(),
                i as int,
                j as int,
                c as int,
            ),
        {
            proof {
                if functional::<S>() {
                    lemma_conv3_same(
                        channel_fn(a, c as int),
                        channel_fn(a, c as int),
                        a.rows as int,
                        a.cols as int,
                        plane_fn(&kernel),
                        ky_of::<S>(),
                        i as int,
                        j as int,
                        9,
                    );
                }
            }
            ps[c].get(i, j)
        };
    Field::from(a.rows, a.cols, a.depth, f)
}

/// Component `axis` of the gradient of a plane: along the rows, then along the columns.
pub open spec fn nabla<S: Real>(
    p: spec_fn(int, int) -> S,
    h: int,
    w: int,
    i: int,
    j: int,
    axis: int,
) -> S {
    conv3(
        p,
        h,
        w,
        if axis == 0 {
            ky_of::<S>()
        } else {
            kx_of::<S>()
        },
        i,
        j,
        9,
    )
}

/// Component `axis` of the gradient of a channel.
pub open spec fn sobel_at<S: Real>(a: &Field<S>, i: int, j: int, axis: int, c: int) -> S {
    nabla(channel_fn(a, c), a.rows as int, a.cols as int, i, j, axis)
}

/// Both gradients of all channels.
pub fn sobel<S: Real>(a: &Field<S>) -> (out: VectorField<S>)
    requires
        a.wf(),
    ensures
        out.of(a.rows as int, a.cols as int, 2, a.depth as int),
        functional::<S>() ==> forall|i: int, j: int, axis: int, c: int|
            out.has(i, j, axis, c) ==> #[trigger] out.at(i, j, axis, c) == sobel_at(
                a,
                i,
                j,
                axis,
                c,
            ),
{
    let dy = sobel_y(a);
    let dx = sobel_x(a);
    let y = &dy;
    let x = &dx;
    let f = |i: usize, j: usize, axis: usize, c: usize| -> (g: S)
        requires
            a.has(i as int, j as int, c as int),
            axis < 2,
        ensures
            functional::<S>() ==> g == sobel_at(a, i as int, j as int, axis as int, c as int),
        {
            if axis == 0 {
                y.get(i, j, c)
            } else {
                x.get(i, j, c)
            }
        };
    VectorField::from(a.rows, a.cols, 2, a.depth, f)
}

} // verus!
