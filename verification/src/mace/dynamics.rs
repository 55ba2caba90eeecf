//! What drives a Diffusion Lenia world, where arithmetic does not round: growth, affinity
//! and the handing on of mass.

use crate::complex::Complex;
use crate::scalar::Real;
use vstd::prelude::*;

verus! {

use crate::analysis::{
    exact_decimals, exact_exp, lemma_assoc, lemma_cancel, lemma_quotient, lemma_square, lemma_tens,
    lemma_times_order, tens,
};
use crate::exact::{exact_as, lemma_rsum_same, lemma_rsum_scale, rsum};
use crate::mace::conservation::{lemma_rsum_positive, lemma_stencil_exact};
use crate::mace::step::{
    affinity_of, around, bump_growth_of, conv_of, diffused, neighbour, shares, stencil_of, stepped,
    wsum_of, z_of,
};
use crate::scalar::{decimal_of, integer_of, minus_of, over_of, times_of};
use vstd::arithmetic::div_mod::{lemma_mod_add_multiples_vanish, lemma_mod_bound};

/// The exponent of a bump.
proof fn lemma_bump_exponent(d: real, s: real, e: real)
    requires
        s != 0real,
        e * (2real * (s * s)) == -(d * d),
    ensures
        ((-1real / 2real * d) * d) * (1real / (s * s)) == e,
{
    lemma_square(s);
    let ss = s * s;
    let i = 1real / ss;
    lemma_quotient(1real, ss);
    let dd = d * d;
    assert((-1real / 2real * d) * d == -dd / 2real) by (nonlinear_arith)
        requires
            dd == d * d,
    ;
    let f = (-dd / 2real) * i;
    assert(f * (2real * ss) == -(dd * (i * ss))) by (nonlinear_arith)
        requires
            f == (-dd / 2real) * i,
    ;
    assert(dd * 1real == dd) by (nonlinear_arith);
    lemma_cancel(f, e, 2real * ss);
}

/// Growth is a bump spread from minus one to one: the exponent `e` of the bump, times twice
/// the squared width, makes the squared distance from the middle negative. So it is one at
/// the middle, and depends on nothing but the squared distance in units of the width.
pub proof fn law_growth_is_a_bump<S: Real>(
    v: spec_fn(S) -> real,
    ex: spec_fn(real) -> real,
    u: S,
    m: S,
    s: S,
    e: real,
)
    requires
        exact_exp(v, ex),
        exact_decimals(v),
        v(s) != 0real,
        e * (2real * (v(s) * v(s))) == -((v(u) - v(m)) * (v(u) - v(m))),
    ensures
        v(bump_growth_of(u, m, s)) == 2real * ex(e) - 1real,
        v(u) == v(m) ==> v(bump_growth_of(u, m, s)) == 1real,
        -1real < v(bump_growth_of(u, m, s)) <= 1real,
{
    let d = v(u) - v(m);
    lemma_square(v(s));
    lemma_square(d);
    lemma_bump_exponent(d, v(s), e);
    lemma_tens();
    let half = decimal_of::<S>(-5i64, 1u32);
    assert(v(half) * tens(1) == -5real);
    assert(v(half) == -1real / 2real);
    assert(v(integer_of::<S>(1i64)) == 1real);
    assert(v(integer_of::<S>(2i64)) == 2real);
    let inv = over_of(integer_of::<S>(1i64), times_of(s, s));
    assert(v(inv) == 1real / (v(s) * v(s)));
    let diff = minus_of(u, m);
    assert(v(times_of(times_of(times_of(half, diff), diff), inv)) == e);
    let c = 2real * (v(s) * v(s));
    assert(0real * c == 0real) by (nonlinear_arith);
    lemma_times_order(0real, e, c);
    if d == 0real {
        assert(d * d == 0real) by (nonlinear_arith)
            requires
                d == 0real,
        ;
        lemma_cancel(e, 0real, c);
    }
}

/// The nearer a potential is to the middle in units of the width, the more it grows; stretching
/// distance and width alike changes nothing.
pub proof fn law_growth_falls_with_distance<S: Real>(
    v: spec_fn(S) -> real,
    ex: spec_fn(real) -> real,
    u: S,
    m: S,
    s: S,
    u2: S,
    m2: S,
    s2: S,
)
    requires
        exact_exp(v, ex),
        exact_decimals(v),
        v(s) != 0real,
        v(s2) != 0real,
    ensures
        ({
            let near = (v(u) - v(m)) * (v(u) - v(m)) / (v(s) * v(s));
            let far = (v(u2) - v(m2)) * (v(u2) - v(m2)) / (v(s2) * v(s2));
            &&& near < far ==> v(bump_growth_of(u, m, s)) > v(bump_growth_of(u2, m2, s2))
            &&& near == far ==> v(bump_growth_of(u, m, s)) == v(bump_growth_of(u2, m2, s2))
        }),
{
    let a = (v(u) - v(m)) * (v(u) - v(m));
    let b = (v(u2) - v(m2)) * (v(u2) - v(m2));
    let p = v(s) * v(s);
    let q = v(s2) * v(s2);
    lemma_square(v(s));
    lemma_square(v(s2));
    let near = a / p;
    let far = b / q;
    lemma_quotient(a, p);
    lemma_quotient(b, q);
    let e = -near / 2real;
    let f = -far / 2real;
    assert(e * (2real * p) == -(near * p)) by (nonlinear_arith)
        requires
            e == -near / 2real,
    ;
    assert(f * (2real * q) == -(far * q)) by (nonlinear_arith)
        requires
            f == -far / 2real,
    ;
    law_growth_is_a_bump(v, ex, u, m, s, e);
    law_growth_is_a_bump(v, ex, u2, m2, s2, f);
}

/// The growth that the first kernels bring to a channel, each as heavy as its weight.
proof fn lemma_wsum<S: Real>(
    v: spec_fn(S) -> real,
    ex: spec_fn(real) -> real,
    conv: spec_fn(int, int, int) -> S,
    c1: Seq<usize>,
    mu: Seq<S>,
    sigma: Seq<S>,
    weight: Seq<S>,
    c: int,
    i: int,
    j: int,
    e: spec_fn(int) -> real,
    n: nat,
)
    requires
        exact_exp(v, ex),
        exact_decimals(v),
        forall|k: int| 0 <= k < n ==> v(#[trigger] sigma[k]) != 0real,
        forall|k: int|
            0 <= k < n ==> #[trigger] e(k) * (2real * (v(sigma[k]) * v(sigma[k]))) == -((v(
                conv(k, i, j),
            ) - v(mu[k])) * (v(conv(k, i, j)) - v(mu[k]))),
    ensures
        v(wsum_of(conv, c1, mu, sigma, weight, c, i, j, n)) == rsum(
            |k: int|
                if c1[k] == c {
                    (2real * ex(e(k)) - 1real) * v(weight[k])
                } else {
                    0real
                },
            n,
        ),
    decreases n,
{
    assert(v(integer_of::<S>(0i64)) == 0real);
    if n > 0 {
        let k = n - 1;
        lemma_wsum(v, ex, conv, c1, mu, sigma, weight, c, i, j, e, k as nat);
        assert(v(sigma[k]) != 0real);
        law_growth_is_a_bump(v, ex, conv(k, i, j), mu[k], sigma[k], e(k));
    }
}

/// The affinity of a cell for a channel is the exponential of the growth of the kernels that
/// feed the channel, each as heavy as its weight: `e(k)` is the exponent of kernel `k`'s bump
/// at the cell.
pub proof fn law_affinity_is_weighted_growth<S: Real>(
    v: spec_fn(S) -> real,
    ex: spec_fn(real) -> real,
    conv: spec_fn(int, int, int) -> S,
    c1: Seq<usize>,
    mu: Seq<S>,
    sigma: Seq<S>,
    weight: Seq<S>,
    c: int,
    i: int,
    j: int,
    e: spec_fn(int) -> real,
)
    requires
        exact_exp(v, ex),
        exact_decimals(v),
        forall|k: int| 0 <= k < c1.len() ==> v(#[trigger] sigma[k]) != 0real,
        forall|k: int|
            0 <= k < c1.len() ==> #[trigger] e(k) * (2real * (v(sigma[k]) * v(sigma[k]))) == -((v(
                conv(k, i, j),
            ) - v(mu[k])) * (v(conv(k, i, j)) - v(mu[k]))),
    ensures
        v(affinity_of(conv, c1, mu, sigma, weight, c)(i, j)) == ex(
            rsum(
                |k: int|
                    if c1[k] == c {
                        (2real * ex(e(k)) - 1real) * v(weight[k])
                    } else {
                        0real
                    },
                c1.len(),
            ),
        ),
{
    lemma_wsum(v, ex, conv, c1, mu, sigma, weight, c, i, j, e, c1.len());
    assert(v(integer_of::<S>(1i64)) == 1real);
    let x = v(wsum_of(conv, c1, mu, sigma, weight, c, i, j, c1.len()));
    assert(1real * x == x) by (nonlinear_arith);
}

/// Neighbours on a torus.
proof fn lemma_around(n: int, i: int, d: int)
    requires
        n > 0,
    ensures
        around(n, i, d) == (i + d - 1) % n,
        0 <= around(n, i, d) < n,
{
    lemma_mod_add_multiples_vanish(i + d - 1, n);
    lemma_mod_bound(i + d + n - 1, n);
}

/// The affinity around a cell.
proof fn lemma_around_sum<S: Real>(
    v: spec_fn(S) -> real,
    a: spec_fn(int, int) -> S,
    f: spec_fn(int, int) -> real,
    n: int,
    p: int,
    q: int,
)
    requires
        exact_as(v),
        n > 0,
        forall|x: int, y: int| 0 <= x < n && 0 <= y < n ==> v(#[trigger] a(x, y)) == f(x, y),
    ensures
        v(stencil_of(a, n, p, q)) == rsum(
            |u: int| f((p + u / 3 - 1) % n, (q + u % 3 - 1) % n),
            9,
        ),
{
    lemma_stencil_exact(v, a, n, p, q);
    let g = |t: int| v(neighbour(a, n, p, q)(t));
    let h = |u: int| f((p + u / 3 - 1) % n, (q + u % 3 - 1) % n);
    assert forall|t: int| 0 <= t < 9 implies #[trigger] g(t) == h(t) by {
        lemma_around(n, p, t / 3);
        lemma_around(n, q, t % 3);
    }
    lemma_rsum_same(g, h, 9);
}

/// Diffusion hands mass on: of the mass of each of the nine cells around a cell, itself among
/// them, the cell gets the part that its affinity has in the affinity of the nine cells around
/// the giver. `f` gives the affinity of each cell.
pub proof fn law_diffusion_hands_on_by_affinity<S: Real>(
    v: spec_fn(S) -> real,
    a: spec_fn(int, int) -> S,
    ch: spec_fn(int, int) -> S,
    f: spec_fn(int, int) -> real,
    n: int,
    i: int,
    j: int,
)
    requires
        exact_as(v),
        n > 0,
        0 <= i < n,
        0 <= j < n,
        forall|x: int, y: int| 0 <= x < n && 0 <= y < n ==> v(#[trigger] a(x, y)) == f(x, y),
        forall|x: int, y: int| 0 <= x < n && 0 <= y < n ==> #[trigger] f(x, y) > 0real,
    ensures
        v(diffused(a, ch, n)(i, j)) == rsum(
            |t: int|
                {
                    let p = (i + t / 3 - 1) % n;
                    let q = (j + t % 3 - 1) % n;
                    v(ch(p, q)) * (f(i, j) / rsum(
                        |u: int| f((p + u / 3 - 1) % n, (q + u % 3 - 1) % n),
                        9,
                    ))
                },
            9,
        ),
{
    let s = shares(a, ch, n);
    let want = |t: int|
        {
            let p = (i + t / 3 - 1) % n;
            let q = (j + t % 3 - 1) % n;
            v(ch(p, q)) * (f(i, j) / rsum(
                |u: int| f((p + u / 3 - 1) % n, (q + u % 3 - 1) % n),
                9,
            ))
        };
    lemma_stencil_exact(v, s, n, i, j);
    let drawn = |t: int| v(neighbour(s, n, i, j)(t));
    let x = v(a(i, j));
    lemma_rsum_scale(x, drawn, 9);
    assert forall|t: int| 0 <= t < 9 implies x * #[trigger] drawn(t) == want(t) by {
        let p = (i + t / 3 - 1) % n;
        let q = (j + t % 3 - 1) % n;
        lemma_around(n, i, t / 3);
        lemma_around(n, j, t % 3);
        lemma_around_sum(v, a, f, n, p, q);
        let around_it = |u: int| f((p + u / 3 - 1) % n, (q + u % 3 - 1) % n);
        assert forall|u: int| 0 <= u < 9 implies #[trigger] around_it(u) > 0real by {
            lemma_mod_bound(p + u / 3 - 1, n);
            lemma_mod_bound(q + u % 3 - 1, n);
        }
        lemma_rsum_positive(around_it, 9);
        let z = rsum(around_it, 9);
        let m = v(ch(p, q));
        assert(v(z_of(a, n)(p, q)) == z);
        assert(drawn(t) == m / z);
        lemma_exchange(x, m, z);
    }
    lemma_rsum_same(|t: int| x * drawn(t), want, 9);
}

/// A part of a product is the product with a part.
proof fn lemma_exchange(x: real, m: real, z: real)
    requires
        z > 0real,
    ensures
        x * (m / z) == m * (x / z),
{
    let a = m / z;
    let b = x / z;
    lemma_quotient(m, z);
    lemma_quotient(x, z);
    assert((x * a) * z == x * m) by (nonlinear_arith)
        requires
            a * z == m,
    ;
    assert((m * b) * z == m * x) by (nonlinear_arith)
        requires
            b * z == x,
    ;
    lemma_assoc(x, m, 1real);
    lemma_cancel(x * a, m * b, z);
}

/// A step hands the mass of a channel on by the growth of the kernels that feed it: the
/// affinity of a cell is the exponential of that growth, weighted, and of the mass of each of
/// the nine cells around it the cell gets the part that its affinity has in that of the nine
/// cells around the giver. `e(k, p, q)` is the exponent of kernel `k`'s bump at a cell, from
/// the convolution of the kernel with the channel that it reads.
pub proof fn law_step_hands_on_by_growth<S: Real>(
    v: spec_fn(S) -> real,
    ex: spec_fn(real) -> real,
    channels: spec_fn(int, int, int) -> S,
    kernels: spec_fn(int, int, int) -> Complex<S>,
    c0: Seq<usize>,
    c1: Seq<usize>,
    mu: Seq<S>,
    sigma: Seq<S>,
    weight: Seq<S>,
    n: nat,
    c: int,
    e: spec_fn(int, int, int) -> real,
    i: int,
    j: int,
)
    requires
        exact_exp(v, ex),
        exact_decimals(v),
        0 <= i < n,
        0 <= j < n,
        forall|k: int| 0 <= k < c1.len() ==> v(#[trigger] sigma[k]) != 0real,
        forall|k: int, p: int, q: int|
            0 <= k < c1.len() ==> #[trigger] e(k, p, q) * (2real * (v(sigma[k]) * v(sigma[k])))
                == -((v(conv_of(channels, kernels, c0, n)(k, p, q)) - v(mu[k])) * (v(
                conv_of(channels, kernels, c0, n)(k, p, q),
            ) - v(mu[k]))),
    ensures
        ({
            let m = n as int;
            let affinity = |p: int, q: int|
                ex(
                    rsum(
                        |k: int|
                            if c1[k] == c {
                                (2real * ex(e(k, p, q)) - 1real) * v(weight[k])
                            } else {
                                0real
                            },
                        c1.len(),
                    ),
                );
            v(stepped(channels, kernels, c0, c1, mu, sigma, weight, n, c)(i, j)) == rsum(
                |t: int|
                    {
                        let p = (i + t / 3 - 1) % m;
                        let q = (j + t % 3 - 1) % m;
                        v(channels(c, p, q)) * (affinity(i, j) / rsum(
                            |u: int| affinity((p + u / 3 - 1) % m, (q + u % 3 - 1) % m),
                            9,
                        ))
                    },
                9,
            )
        }),
{
    let m = n as int;
    let conv = conv_of(channels, kernels, c0, n);
    let a = affinity_of(conv, c1, mu, sigma, weight, c);
    let ch = |p: int, q: int| channels(c, p, q);
    let affinity = |p: int, q: int|
        ex(
            rsum(
                |k: int|
                    if c1[k] == c {
                        (2real * ex(e(k, p, q)) - 1real) * v(weight[k])
                    } else {
                        0real
                    },
                c1.len(),
            ),
        );
    assert forall|p: int, q: int| 0 <= p < m && 0 <= q < m implies v(#[trigger] a(p, q))
        == affinity(p, q) by {
        let ek = |k: int| e(k, p, q);
        law_affinity_is_weighted_growth(v, ex, conv, c1, mu, sigma, weight, c, p, q, ek);
        lemma_rsum_same(
            |k: int|
                if c1[k] == c {
                    (2real * ex(ek(k)) - 1real) * v(weight[k])
                } else {
                    0real
                },
            |k: int|
                if c1[k] == c {
                    (2real * ex(e(k, p, q)) - 1real) * v(weight[k])
                } else {
                    0real
                },
            c1.len(),
        );
    }
    law_diffusion_hands_on_by_affinity(v, a, ch, affinity, m, i, j);
    lemma_rsum_same(
        |t: int|
            {
                let p = (i + t / 3 - 1) % m;
                let q = (j + t % 3 - 1) % m;
                v(ch(p, q)) * (affinity(i, j) / rsum(
                    |u: int| affinity((p + u / 3 - 1) % m, (q + u % 3 - 1) % m),
                    9,
                ))
            },
        |t: int|
            {
                let p = (i + t / 3 - 1) % m;
                let q = (j + t % 3 - 1) % m;
                v(channels(c, p, q)) * (affinity(i, j) / rsum(
                    |u: int| affinity((p + u / 3 - 1) % m, (q + u % 3 - 1) % m),
                    9,
                ))
            },
        9,
    );
}

} // verus!
