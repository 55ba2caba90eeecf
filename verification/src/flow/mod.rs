//! Flow Lenia on the host: kernels, growth, gradients, flow and reintegration
//! tracking.

pub mod conservation;
pub mod dynamics;
pub mod gradient;
pub mod gradient_laws;
pub mod inversion;
pub mod kernels;
pub mod normalisation;
pub mod potential;
pub mod reintegration;
pub mod shapes;
pub mod shift;
pub mod spectrum;
pub mod step;
pub mod transport;

use crate::field::{Field, Plane};
use crate::scalar::Real;
use vstd::prelude::*;

verus! {

use crate::scalar::{
    decimal_of, exp_of, functional, integer_of, minus_of, neg_of, over_of, plus_of, powi_of,
    tanh_of, times_of,
};

/// A smooth step from zero to one.
pub open spec fn sigmoid_of<S: Real>(x: S) -> S {
    times_of(
        decimal_of::<S>(5i64, 1u32),
        plus_of(tanh_of(over_of(x, integer_of::<S>(2i64))), integer_of::<S>(1i64)),
    )
}

/// A smooth step from zero to one: half of tanh(x / 2) + 1.
pub fn sigmoid<S: Real>(x: S) -> (y: S)
    ensures
        functional::<S>() ==> y == sigmoid_of(x),
{
    S::decimal(5, 1).times(x.over(S::integer(2)).tanh().plus(S::integer(1)))
}

/// One bump: b exp(-(x - a)^2 / w).
pub open spec fn bump<S: Real>(x: S, a: S, w: S, b: S) -> S {
    let diff = minus_of(x, a);
    times_of(b, exp_of(over_of(neg_of(times_of(diff, diff)), w)))
}

/// The first `n` bumps, added up.
pub open spec fn bumps<S: Real>(x: S, a: Seq<S>, w: Seq<S>, b: Seq<S>, n: nat) -> S
    decreases n,
{
    if n == 0 {
        integer_of::<S>(0i64)
    } else {
        let p = n - 1;
        plus_of(bumps(x, a, w, b, p as nat), bump(x, a[p], w[p], b[p]))
    }
}

/// The bumps at one point.
pub fn ker_f_at<S: Real>(x: S, a: &[S], w: &[S], b: &[S]) -> (y: S)
    requires
        w@.len() >= a@.len(),
        b@.len() >= a@.len(),
    ensures
        functional::<S>() ==> y == bumps(x, a@, w@, b@, a@.len()),
{
    let mut y = S::integer(0);
    let mut p: usize = 0;
    while p < a.len()
        invariant
            p <= a@.len(),
            w@.len() >= a@.len(),
            b@.len() >= a@.len(),
            functional::<S>() ==> y == bumps(x, a@, w@, b@, p as nat),
        decreases a@.len() - p,
    {
        let diff = x.minus(a[p]);
        y = y.plus(b[p].times(diff.times(diff).neg().over(w[p]).exp()));
        p = p + 1;
    }
    y
}

/// The sum of bumps b exp(-(x - a)^2 / w) at every entry of a plane.
pub fn ker_f<S: Real>(x: &Plane<S>, a: &[S], w: &[S], b: &[S]) -> (out: Plane<S>)
    requires
        x.wf(),
        w@.len() >= a@.len(),
        b@.len() >= a@.len(),
    ensures
        out.wf(),
        out.rows == x.rows,
        out.cols == x.cols,
        functional::<S>() ==> forall|i: int, j: int|
            out.has(i, j) ==> #[trigger] out.at(i, j) == bumps(x.at(i, j), a@, w@, b@, a@.len()),
{
    let f = |i: usize, j: usize| -> (y: S)
        requires
            x.has(i as int, j as int),
        ensures
            functional::<S>() ==> y == bumps(x.at(i as int, j as int), a@, w@, b@, a@.len()),
        { ker_f_at(x.get(i, j), a, w, b) };
    Plane::from(x.rows, x.cols, f)
}

/// A bell of height one at `m` of width `s`.
pub open spec fn bell_of<S: Real>(x: S, m: S, s: S) -> S {
    exp_of(
        over_of(neg_of(powi_of(over_of(minus_of(x, m), s), 2i32)), integer_of::<S>(2i64)),
    )
}

/// A bell of height one at `m` of width `s`: exp(-((x - m) / s)^2 / 2).
pub fn bell<S: Real>(x: S, m: S, s: S) -> (y: S)
    ensures
        functional::<S>() ==> y == bell_of(x, m, s),
{
    x.minus(m).over(s).powi(2).neg().over(S::integer(2)).exp()
}

/// Growth: a bell scaled to the range from minus one to one.
pub open spec fn growth_of<S: Real>(u: S, m: S, s: S) -> S {
    minus_of(times_of(bell_of(u, m, s), integer_of::<S>(2i64)), integer_of::<S>(1i64))
}

/// Growth at one point.
pub fn growth_at<S: Real>(u: S, m: S, s: S) -> (g: S)
    ensures
        functional::<S>() ==> g == growth_of(u, m, s),
{
    bell(u, m, s).times(S::integer(2)).minus(S::integer(1))
}

/// Growth of every kernel's potential.
pub fn growth<S: Real>(u: &Field<S>, m: &[S], s: &[S]) -> (out: Field<S>)
    requires
        u.wf(),
        m@.len() >= u.depth,
        s@.len() >= u.depth,
    ensures
        out.of(u.rows as int, u.cols as int, u.depth as int),
        functional::<S>() ==> forall|i: int, j: int, k: int|
            out.has(i, j, k) ==> #[trigger] out.at(i, j, k) == growth_of(
                u.at(i, j, k),
                m@[k],
                s@[k],
            ),
{
    let f = |i: usize, j: usize, k: usize| -> (g: S)
        requires
            u.has(i as int, j as int, k as int),
        ensures
            functional::<S>() ==> g == growth_of(
                u.at(i as int, j as int, k as int),
                m@[k as int],
                s@[k as int],
            ),
        { growth_at(u.get(i, j, k), m[k], s[k]) };
    Field::from(u.rows, u.cols, u.depth, f)
}

} // verus!
