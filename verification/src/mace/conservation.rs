//! Diffusion keeps mass.

use crate::complex::Complex;
use crate::field::Plane;
use crate::scalar::Real;
use vstd::prelude::*;

verus! {

use crate::exact::{
    exact_as, lemma_nonnegative, lemma_rsum2_same, lemma_rsum2_torus, lemma_rsum_exchange,
    lemma_rsum_nonnegative, lemma_rsum_reverse, lemma_rsum_same, lemma_rsum_scale, rsum, rsum2,
};
use crate::mace::fft::plane_fn;
use crate::mace::step::{
    affinity_of, are_squares, around, conv_of, diffused, neighbour, planes_fn, shares,
    stencil_of, stepped, z_of,
};
use crate::mace::sums::{
    lemma_line_exact, lemma_plane_exact, lemma_plane_total_same, mass_of, planes_total,
};
use crate::scalar::{exp_of, integer_of};
use vstd::arithmetic::div_mod::{
    lemma_add_mod_noop, lemma_mod_add_multiples_vanish, lemma_mod_bound, lemma_small_mod,
};

/// The opposite of a neighbour's neighbour is the place itself.
proof fn lemma_around_back(n: int, i: int, d: int)
    requires
        n > 0,
        0 <= i < n,
        0 <= d < 3,
    ensures
        around(n, around(n, i, 2 - d), d) == i,
        0 <= around(n, i, d) < n,
{
    lemma_mod_bound(i + d + n - 1, n);
    let x = i + (2 - d) + n - 1;
    lemma_add_mod_noop(x, d + n - 1, n);
    lemma_add_mod_noop(x % n, d + n - 1, n);
    assert((x % n) % n == x % n) by {
        lemma_mod_bound(x, n);
        lemma_small_mod((x % n) as nat, n as nat);
    }
    assert((x % n + (d + n - 1)) % n == (x + (d + n - 1)) % n);
    assert(x + (d + n - 1) == i + 2 * n);
    assert((i + 2 * n) % n == i) by {
        lemma_mod_add_multiples_vanish(i + n, n);
        lemma_mod_add_multiples_vanish(i, n);
        lemma_small_mod(i as nat, n as nat);
    }
}

/// The sum over neighbours, where arithmetic does not round.
pub proof fn lemma_stencil_exact<S: Real>(
    v: spec_fn(S) -> real,
    f: spec_fn(int, int) -> S,
    n: int,
    i: int,
    j: int,
)
    requires
        exact_as(v),
    ensures
        v(stencil_of(f, n, i, j)) == rsum(|t: int| v(neighbour(f, n, i, j)(t)), 9),
{
    lemma_line_exact(v, integer_of::<S>(0i64), neighbour(f, n, i, j), 9);
    assert(v(integer_of::<S>(0i64)) == 0real);
}

/// The mass of a channel, where arithmetic does not round.
proof fn lemma_mass_exact<S: Real>(v: spec_fn(S) -> real, f: spec_fn(int, int) -> S, n: nat)
    requires
        exact_as(v),
    ensures
        v(mass_of(f, n)) == rsum2(|i: int, j: int| v(f(i, j)), n),
{
    lemma_plane_exact(v, integer_of::<S>(0i64), f, n, n);
    assert(v(integer_of::<S>(0i64)) == 0real);
    let g = |i: int, j: int| v(f(i, j));
    let a = |i: int| rsum(|j: int| v(f(i, j)), n);
    let b = |i: int| rsum(|j: int| g(i, j), n);
    assert forall|i: int| 0 <= i < n implies #[trigger] a(i) == b(i) by {
        lemma_rsum_same(|j: int| v(f(i, j)), |j: int| g(i, j), n);
    }
    lemma_rsum_same(a, b, n);
}

/// Diffusion keeps the mass of a channel: mass is handed on, neither made nor lost,
/// wherever no neighbourhood has an affinity of zero and arithmetic does not round.
pub proof fn law_diffusion_keeps_mass<S: Real>(
    v: spec_fn(S) -> real,
    a: spec_fn(int, int) -> S,
    ch: spec_fn(int, int) -> S,
    n: nat,
)
    requires
        exact_as(v),
        n > 0,
        forall|i: int, j: int|
            0 <= i < n && 0 <= j < n ==> v(#[trigger] z_of(a, n as int)(i, j)) != 0real,
    ensures
        v(mass_of(diffused(a, ch, n as int), n)) == v(mass_of(ch, n)),
{
    let m = n as int;
    let q = shares(a, ch, m);
    let after = |i: int, j: int| v(diffused(a, ch, m)(i, j));
    let before = |i: int, j: int| v(ch(i, j));
    lemma_mass_exact(v, diffused(a, ch, m), n);
    lemma_mass_exact(v, ch, n);
    // What each cell draws, neighbour by neighbour.
    let drawn = |t: int, i: int, j: int| v(a(i, j)) * v(neighbour(q, m, i, j)(t));
    // What each cell gives, neighbour by neighbour.
    let given = |t: int, i: int, j: int| v(q(i, j)) * v(neighbour(a, m, i, j)(8 - t));
    assert forall|i: int, j: int| 0 <= i < n && 0 <= j < n implies #[trigger] after(i, j) == rsum(
        |t: int| drawn(t, i, j),
        9,
    ) by {
        let nb = |t: int| v(neighbour(q, m, i, j)(t));
        lemma_stencil_exact(v, q, m, i, j);
        lemma_rsum_scale(v(a(i, j)), nb, 9);
        lemma_rsum_same(|t: int| drawn(t, i, j), |t: int| v(a(i, j)) * nb(t), 9);
    }
    lemma_rsum2_same(after, |i: int, j: int| rsum(|t: int| drawn(t, i, j), 9), n);
    lemma_rsum_exchange(drawn, n, 9);
    lemma_rsum_exchange(given, n, 9);
    let drawn_masses = |t: int| rsum2(|i: int, j: int| drawn(t, i, j), n);
    let given_masses = |t: int| rsum2(|i: int, j: int| given(t, i, j), n);
    assert forall|t: int| 0 <= t < 9 implies #[trigger] drawn_masses(t) == given_masses(t) by {
        let f = |i: int, j: int| drawn(t, i, j);
        let di = 2 - t / 3;
        let dj = 2 - t % 3;
        assert((8 - t) / 3 == di && (8 - t) % 3 == dj);
        lemma_rsum2_torus(f, n, 1 - di, 1 - dj);
        let moved = |i: int, j: int| f((i - (1 - di)) % m, (j - (1 - dj)) % m);
        assert forall|i: int, j: int| 0 <= i < n && 0 <= j < n implies #[trigger] moved(i, j)
            == given(t, i, j) by {
            lemma_around_back(m, i, t / 3);
            lemma_around_back(m, j, t % 3);
            lemma_mod_add_multiples_vanish(i - (1 - di), m);
            lemma_mod_add_multiples_vanish(j - (1 - dj), m);
            let x = around(m, i, di);
            let y = around(m, j, dj);
            assert(x == (i - (1 - di)) % m && y == (j - (1 - dj)) % m);
            assert(neighbour(q, m, x, y)(t) == q(i, j));
            assert(neighbour(a, m, i, j)(8 - t) == a(x, y));
            let p = v(a(x, y));
            let s = v(q(i, j));
            assert(p * s == s * p) by (nonlinear_arith);
        }
        lemma_rsum2_same(moved, |i: int, j: int| given(t, i, j), n);
    }
    lemma_rsum_same(drawn_masses, given_masses, 9);
    assert forall|i: int, j: int| 0 <= i < n && 0 <= j < n implies #[trigger] before(i, j) == rsum(
        |t: int| given(t, i, j),
        9,
    ) by {
        let nb = |t: int| v(neighbour(a, m, i, j)(t));
        let back = |t: int| nb(8 - t);
        lemma_rsum_reverse(nb, 9);
        lemma_rsum_same(back, |t: int| nb(9 - 1 - t), 9);
        lemma_stencil_exact(v, a, m, i, j);
        let z = v(z_of(a, m)(i, j));
        assert(rsum(nb, 9) == z);
        let s = v(q(i, j));
        lemma_rsum_scale(s, back, 9);
        lemma_rsum_same(|t: int| given(t, i, j), |t: int| s * back(t), 9);
        let x = v(ch(i, j));
        assert(s == x / z);
        assert((x / z) * z == x) by (nonlinear_arith)
            requires
                z != 0real,
        ;
    }
    lemma_rsum2_same(before, |i: int, j: int| rsum(|t: int| given(t, i, j), 9), n);
}

/// A sum of positive numbers is positive.
pub proof fn lemma_rsum_positive(f: spec_fn(int) -> real, n: nat)
    requires
        n > 0,
        forall|i: int| 0 <= i < n ==> #[trigger] f(i) > 0real,
    ensures
        rsum(f, n) > 0real,
    decreases n,
{
    assert(f(n - 1) > 0real);
    if n > 1 {
        lemma_rsum_positive(f, (n - 1) as nat);
    } else {
        assert(rsum(f, 1) == rsum(f, 0) + f(0));
    }
}

/// A step keeps the mass of every channel, wherever arithmetic does not round and
/// exponentials are positive.
pub proof fn law_step_keeps_mass<S: Real>(
    v: spec_fn(S) -> real,
    channels: spec_fn(int, int, int) -> S,
    kernels: spec_fn(int, int, int) -> Complex<S>,
    c0: Seq<usize>,
    c1: Seq<usize>,
    mu: Seq<S>,
    sigma: Seq<S>,
    weight: Seq<S>,
    n: nat,
    c: int,
)
    requires
        exact_as(v),
        forall|x: S| v(#[trigger] exp_of(x)) > 0real,
        n > 0,
    ensures
        v(mass_of(stepped(channels, kernels, c0, c1, mu, sigma, weight, n, c), n)) == v(
            mass_of(|i: int, j: int| channels(c, i, j), n),
        ),
{
    let m = n as int;
    let a = affinity_of(conv_of(channels, kernels, c0, n), c1, mu, sigma, weight, c);
    let ch = |i: int, j: int| channels(c, i, j);
    assert forall|i: int, j: int| 0 <= i < n && 0 <= j < n implies v(
        #[trigger] z_of(a, m)(i, j),
    ) != 0real by {
        lemma_stencil_exact(v, a, m, i, j);
        lemma_rsum_positive(|t: int| v(neighbour(a, m, i, j)(t)), 9);
    }
    law_diffusion_keeps_mass(v, a, ch, n);
}

/// The mass of planes together, where arithmetic does not round.
proof fn lemma_planes_exact<S: Real>(
    v: spec_fn(S) -> real,
    planes: Seq<Plane<S>>,
    n: nat,
    k: nat,
)
    requires
        exact_as(v),
        are_squares(planes, n as int),
        k <= planes.len(),
    ensures
        v(planes_total(planes, k)) == rsum(|c: int| v(mass_of(plane_fn(&planes[c]), n)), k),
    decreases k,
{
    let masses = |c: int| v(mass_of(plane_fn(&planes[c]), n));
    if k == 0 {
        assert(v(integer_of::<S>(0i64)) == 0real);
    } else {
        let c = k - 1;
        lemma_planes_exact(v, planes, n, c as nat);
        let f = plane_fn(&planes[c]);
        assert(planes[c].wf());
        lemma_plane_exact(v, planes_total(planes, c as nat), f, n, n);
        lemma_plane_exact(v, integer_of::<S>(0i64), f, n, n);
        assert(v(integer_of::<S>(0i64)) == 0real);
        assert(masses(c) == v(mass_of(f, n)));
    }
}

/// Whether one step leads from one world of side `n` to another.
pub open spec fn leads<S: Real>(
    before: Seq<Plane<S>>,
    after: Seq<Plane<S>>,
    kernels: spec_fn(int, int, int) -> Complex<S>,
    c0: Seq<usize>,
    c1: Seq<usize>,
    mu: Seq<S>,
    sigma: Seq<S>,
    weight: Seq<S>,
    n: nat,
) -> bool {
    &&& are_squares(before, n as int)
    &&& are_squares(after, n as int)
    &&& after.len() == before.len()
    &&& forall|c: int, i: int, j: int|
        0 <= c < after.len() && 0 <= i < n && 0 <= j < n ==> #[trigger] after[c].at(i, j)
            == stepped(planes_fn(before), kernels, c0, c1, mu, sigma, weight, n, c)(i, j)
}

/// A world has the same mass after a step as before, wherever arithmetic does not round and
/// exponentials are positive.
pub proof fn law_world_keeps_mass<S: Real>(
    v: spec_fn(S) -> real,
    before: Seq<Plane<S>>,
    after: Seq<Plane<S>>,
    kernels: spec_fn(int, int, int) -> Complex<S>,
    c0: Seq<usize>,
    c1: Seq<usize>,
    mu: Seq<S>,
    sigma: Seq<S>,
    weight: Seq<S>,
    n: nat,
)
    requires
        exact_as(v),
        forall|x: S| v(#[trigger] exp_of(x)) > 0real,
        n > 0,
        leads(before, after, kernels, c0, c1, mu, sigma, weight, n),
    ensures
        v(planes_total(after, after.len())) == v(planes_total(before, before.len())),
{
    let k = before.len();
    lemma_planes_exact(v, before, n, k);
    lemma_planes_exact(v, after, n, k);
    let a = |c: int| v(mass_of(plane_fn(&after[c]), n));
    let b = |c: int| v(mass_of(plane_fn(&before[c]), n));
    assert forall|c: int| 0 <= c < k implies #[trigger] a(c) == b(c) by {
        let next = stepped(planes_fn(before), kernels, c0, c1, mu, sigma, weight, n, c);
        let old_channel = |i: int, j: int| planes_fn(before)(c, i, j);
        law_step_keeps_mass(v, planes_fn(before), kernels, c0, c1, mu, sigma, weight, n, c);
        let zero = integer_of::<S>(0i64);
        assert forall|i: int, j: int| 0 <= i < n && 0 <= j < n implies #[trigger] plane_fn(
            &after[c],
        )(i, j) == next(i, j) by {
            assert(after[c].at(i, j) == next(i, j));
        }
        lemma_plane_total_same(zero, plane_fn(&after[c]), next, n, n);
        lemma_plane_total_same(zero, plane_fn(&before[c]), old_channel, n, n);
    }
    lemma_rsum_same(a, b, k);
}

/// However long a world runs, it keeps its mass, wherever arithmetic does not round and
/// exponentials are positive.
pub proof fn law_run_keeps_mass<S: Real>(
    v: spec_fn(S) -> real,
    worlds: Seq<Seq<Plane<S>>>,
    kernels: spec_fn(int, int, int) -> Complex<S>,
    c0: Seq<usize>,
    c1: Seq<usize>,
    mu: Seq<S>,
    sigma: Seq<S>,
    weight: Seq<S>,
    n: nat,
)
    requires
        exact_as(v),
        forall|x: S| v(#[trigger] exp_of(x)) > 0real,
        n > 0,
        worlds.len() > 0,
        forall|k: int|
            0 <= k < worlds.len() - 1 ==> leads(
                worlds[k],
                #[trigger] worlds[k + 1],
                kernels,
                c0,
                c1,
                mu,
                sigma,
                weight,
                n,
            ),
    ensures
        v(planes_total(worlds.last(), worlds.last().len())) == v(
            planes_total(worlds[0], worlds[0].len()),
        ),
    decreases worlds.len(),
{
    if worlds.len() > 1 {
        let before = worlds.drop_last();
        let last = worlds.len() - 2;
        assert forall|k: int| 0 <= k < before.len() - 1 implies leads(
            before[k],
            #[trigger] before[k + 1],
            kernels,
            c0,
            c1,
            mu,
            sigma,
            weight,
            n,
        ) by {
            assert(worlds[k + 1] == before[k + 1]);
        }
        law_run_keeps_mass(v, before, kernels, c0, c1, mu, sigma, weight, n);
        let from = worlds[last];
        let to = worlds[last + 1];
        law_world_keeps_mass(v, from, to, kernels, c0, c1, mu, sigma, weight, n);
    }
}

/// A step makes no negative mass: a channel none of whose cells is negative has none
/// afterwards, wherever arithmetic does not round and exponentials are positive.
pub proof fn law_step_makes_no_negative_mass<S: Real>(
    v: spec_fn(S) -> real,
    channels: spec_fn(int, int, int) -> S,
    kernels: spec_fn(int, int, int) -> Complex<S>,
    c0: Seq<usize>,
    c1: Seq<usize>,
    mu: Seq<S>,
    sigma: Seq<S>,
    weight: Seq<S>,
    n: nat,
    c: int,
    i: int,
    j: int,
)
    requires
        exact_as(v),
        forall|x: S| v(#[trigger] exp_of(x)) > 0real,
        n > 0,
        forall|p: int, q: int|
            0 <= p < n && 0 <= q < n ==> v(#[trigger] channels(c, p, q)) >= 0real,
        0 <= i < n,
        0 <= j < n,
    ensures
        v(stepped(channels, kernels, c0, c1, mu, sigma, weight, n, c)(i, j)) >= 0real,
{
    let m = n as int;
    let a = affinity_of(conv_of(channels, kernels, c0, n), c1, mu, sigma, weight, c);
    let ch = |p: int, q: int| channels(c, p, q);
    let q = shares(a, ch, m);
    let around_it = |t: int| v(neighbour(q, m, i, j)(t));
    assert forall|t: int| 0 <= t < 9 implies #[trigger] around_it(t) >= 0real by {
        let x = around(m, i, t / 3);
        let y = around(m, j, t % 3);
        lemma_mod_bound(i + t / 3 + m - 1, m);
        lemma_mod_bound(j + t % 3 + m - 1, m);
        lemma_stencil_exact(v, a, m, x, y);
        lemma_rsum_positive(|s: int| v(neighbour(a, m, x, y)(s)), 9);
        assert(v(channels(c, x, y)) >= 0real);
        lemma_nonnegative(v(ch(x, y)), v(z_of(a, m)(x, y)));
    }
    lemma_stencil_exact(v, q, m, i, j);
    lemma_rsum_nonnegative(around_it, 9);
    lemma_nonnegative(v(a(i, j)), v(stencil_of(q, m, i, j)));
}

} // verus!
