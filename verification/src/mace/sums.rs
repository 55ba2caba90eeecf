//! Sums in order.

use crate::field::Plane;
use crate::scalar::Real;
use vstd::prelude::*;

verus! {

use crate::exact::{exact_as, lemma_rsum_same, rsum};
use crate::mace::fft::plane_fn;
use crate::scalar::{functional, integer_of, plus_of};

/// A start, and the first `n` values of a function added to it one by one.
pub open spec fn line_total<S: Real>(start: S, f: spec_fn(int) -> S, n: nat) -> S
    decreases n,
{
    if n == 0 {
        start
    } else {
        plus_of(line_total(start, f, (n - 1) as nat), f(n - 1))
    }
}

/// A start, and the values of a function on a plane added to it row by row.
pub open spec fn plane_total<S: Real>(
    start: S,
    f: spec_fn(int, int) -> S,
    rows: nat,
    cols: nat,
) -> S
    decreases rows,
{
    if rows == 0 {
        start
    } else {
        line_total(
            plane_total(start, f, (rows - 1) as nat, cols),
            |j: int| f(rows - 1, j),
            cols,
        )
    }
}

/// The mass of a channel: all its cells.
pub open spec fn mass_of<S: Real>(f: spec_fn(int, int) -> S, n: nat) -> S {
    plane_total(integer_of::<S>(0i64), f, n, n)
}

/// Adds all entries of a plane to a start, row by row.
pub fn add_plane<S: Real>(start: S, plane: &Plane<S>) -> (total: S)
    requires
        plane.wf(),
    ensures
        functional::<S>() ==> total == plane_total(
            start,
            plane_fn(plane),
            plane.rows as nat,
            plane.cols as nat,
        ),
{
    let mut total = start;
    let mut i: usize = 0;
    while i < plane.rows
        invariant
            i <= plane.rows,
            plane.wf(),
            functional::<S>() ==> total == plane_total(
                start,
                plane_fn(plane),
                i as nat,
                plane.cols as nat,
            ),
        decreases plane.rows - i,
    {
        let ghost row = |j: int| plane_fn(plane)(i as int, j);
        let ghost before = total;
        let mut j: usize = 0;
        while j < plane.cols
            invariant
                i < plane.rows,
                j <= plane.cols,
                plane.wf(),
                row == (|j: int| plane_fn(plane)(i as int, j)),
                functional::<S>() ==> total == line_total(before, row, j as nat),
            decreases plane.cols - j,
        {
            total = total.plus(plane.get(i, j));
            j = j + 1;
        }
        i = i + 1;
    }
    total
}

/// The mass of a channel.
pub fn channel_mass<S: Real>(channel: &Plane<S>) -> (mass: S)
    requires
        channel.wf(),
    ensures
        functional::<S>() ==> mass == plane_total(
            integer_of::<S>(0i64),
            plane_fn(channel),
            channel.rows as nat,
            channel.cols as nat,
        ),
{
    add_plane(S::integer(0), channel)
}

/// The entries of the first `n` planes added up.
pub open spec fn planes_total<S: Real>(planes: Seq<Plane<S>>, n: nat) -> S
    decreases n,
{
    if n == 0 {
        integer_of::<S>(0i64)
    } else {
        let p = planes[n - 1];
        plane_total(
            planes_total(planes, (n - 1) as nat),
            plane_fn(&p),
            p.rows as nat,
            p.cols as nat,
        )
    }
}

/// The mass of all channels together.
pub fn total_mass<S: Real>(channels: &Vec<Plane<S>>) -> (mass: S)
    requires
        forall|c: int| 0 <= c < channels@.len() ==> (#[trigger] channels@[c]).wf(),
    ensures
        functional::<S>() ==> mass == planes_total(channels@, channels@.len()),
{
    let mut total = S::integer(0);
    let mut c: usize = 0;
    while c < channels.len()
        invariant
            c <= channels@.len(),
            forall|c: int| 0 <= c < channels@.len() ==> (#[trigger] channels@[c]).wf(),
            functional::<S>() ==> total == planes_total(channels@, c as nat),
        decreases channels@.len() - c,
    {
        total = add_plane(total, &channels[c]);
        c = c + 1;
    }
    total
}

/// The sum of the first `n` values of a function.
pub open spec fn total<S: Real>(f: spec_fn(int) -> S, n: nat) -> S {
    line_total(integer_of::<S>(0i64), f, n)
}

/// Sums depend on nothing but the values that are added.
pub proof fn lemma_line_same<S: Real>(
    start: S,
    f: spec_fn(int) -> S,
    g: spec_fn(int) -> S,
    n: nat,
)
    requires
        forall|i: int| 0 <= i < n ==> #[trigger] f(i) == g(i),
    ensures
        line_total(start, f, n) == line_total(start, g, n),
    decreases n,
{
    if n > 0 {
        lemma_line_same(start, f, g, (n - 1) as nat);
        assert(f(n - 1) == g(n - 1));
    }
}

/// Sums of plane values depend on nothing but the values that are added.
pub proof fn lemma_plane_total_same<S: Real>(
    start: S,
    f: spec_fn(int, int) -> S,
    g: spec_fn(int, int) -> S,
    rows: nat,
    cols: nat,
)
    requires
        forall|i: int, j: int| 0 <= i < rows && 0 <= j < cols ==> #[trigger] f(i, j) == g(i, j),
    ensures
        plane_total(start, f, rows, cols) == plane_total(start, g, rows, cols),
    decreases rows,
{
    if rows > 0 {
        let m = (rows - 1) as nat;
        lemma_plane_total_same(start, f, g, m, cols);
        lemma_line_same(
            plane_total(start, f, m, cols),
            |j: int| f(rows - 1, j),
            |j: int| g(rows - 1, j),
            cols,
        );
    }
}

/// Sums in order are sums, where arithmetic does not round.
pub proof fn lemma_line_exact<S: Real>(
    v: spec_fn(S) -> real,
    start: S,
    f: spec_fn(int) -> S,
    n: nat,
)
    requires
        exact_as(v),
    ensures
        v(line_total(start, f, n)) == v(start) + rsum(|i: int| v(f(i)), n),
    decreases n,
{
    if n > 0 {
        lemma_line_exact(v, start, f, (n - 1) as nat);
    }
}

/// Sums over planes in order are sums, where arithmetic does not round.
pub proof fn lemma_plane_exact<S: Real>(
    v: spec_fn(S) -> real,
    start: S,
    f: spec_fn(int, int) -> S,
    rows: nat,
    cols: nat,
)
    requires
        exact_as(v),
    ensures
        v(plane_total(start, f, rows, cols)) == v(start) + rsum(
            |i: int| rsum(|j: int| v(f(i, j)), cols),
            rows,
        ),
    decreases rows,
{
    let by_rows = |i: int| rsum(|j: int| v(f(i, j)), cols);
    if rows > 0 {
        let m = (rows - 1) as nat;
        lemma_plane_exact(v, start, f, m, cols);
        let row = |j: int| f(rows - 1, j);
        lemma_line_exact(v, plane_total(start, f, m, cols), row, cols);
        lemma_rsum_same(|j: int| v(row(j)), |j: int| v(f(rows - 1, j)), cols);
        assert(by_rows(rows - 1) == rsum(|j: int| v(f(rows - 1, j)), cols));
    }
}

/// The mass of a channel is the sum of its cells, and the mass of a world that of its channels,
/// where arithmetic does not round.
pub proof fn law_masses_are_sums<S: Real>(
    v: spec_fn(S) -> real,
    channel: &Plane<S>,
    mass: S,
    channels: &Vec<Plane<S>>,
    whole: S,
)
    requires
        exact_as(v),
        functional::<S>(),
        call_ensures(channel_mass::<S>, (channel,), mass),
        call_ensures(total_mass::<S>, (channels,), whole),
    ensures
        v(mass) == rsum(
            |i: int| rsum(|j: int| v(channel.at(i, j)), channel.cols as nat),
            channel.rows as nat,
        ),
        v(whole) == rsum(
            |c: int|
                rsum(
                    |i: int| rsum(|j: int| v(channels@[c].at(i, j)), channels@[c].cols as nat),
                    channels@[c].rows as nat,
                ),
            channels@.len(),
        ),
{
    assert(v(integer_of::<S>(0i64)) == 0real);
    lemma_plane_sum(v, integer_of::<S>(0i64), channel);
    lemma_planes_sum(v, channels@, channels@.len());
}

/// What the cells of a plane add up to.
proof fn lemma_plane_sum<S: Real>(v: spec_fn(S) -> real, start: S, p: &Plane<S>)
    requires
        exact_as(v),
    ensures
        v(plane_total(start, plane_fn(p), p.rows as nat, p.cols as nat)) == v(start) + rsum(
            |i: int| rsum(|j: int| v(p.at(i, j)), p.cols as nat),
            p.rows as nat,
        ),
{
    let rows = p.rows as nat;
    let cols = p.cols as nat;
    let f = plane_fn(p);
    lemma_plane_exact(v, start, f, rows, cols);
    let a = |i: int| rsum(|j: int| v(f(i, j)), cols);
    let b = |i: int| rsum(|j: int| v(p.at(i, j)), cols);
    assert forall|i: int| 0 <= i < rows implies #[trigger] a(i) == b(i) by {
        lemma_rsum_same(|j: int| v(f(i, j)), |j: int| v(p.at(i, j)), cols);
    }
    lemma_rsum_same(a, b, rows);
}

/// What the cells of planes add up to.
proof fn lemma_planes_sum<S: Real>(v: spec_fn(S) -> real, planes: Seq<Plane<S>>, n: nat)
    requires
        exact_as(v),
    ensures
        v(planes_total(planes, n)) == rsum(
            |c: int|
                rsum(
                    |i: int| rsum(|j: int| v(planes[c].at(i, j)), planes[c].cols as nat),
                    planes[c].rows as nat,
                ),
            n,
        ),
    decreases n,
{
    if n == 0 {
        assert(v(integer_of::<S>(0i64)) == 0real);
    } else {
        let m = (n - 1) as nat;
        lemma_planes_sum(v, planes, m);
        lemma_plane_sum(v, planes_total(planes, m), &planes[m as int]);
    }
}

} // verus!
