//! Arithmetic that does not round, and sums in it.
//!
//! The laws of this crate that speak of mass and of spectra hold of exact arithmetic. They
//! are stated of a function `v` that gives the real number for which each number stands.

use crate::scalar::Real;
use vstd::prelude::*;

verus! {

use crate::scalar::{
    abs_of, clamp_of, count_of, decimal_of, integer_of, least_of, minus_of, neg_of, over_of,
    plus_of, times_of,
};
use vstd::arithmetic::div_mod::{
    lemma_fundamental_div_mod_converse, lemma_mod_bound, lemma_small_mod,
};

/// A number held between two bounds.
pub open spec fn held(x: real, lo: real, hi: real) -> real {
    if x < lo {
        lo
    } else if x > hi {
        hi
    } else {
        x
    }
}

/// The size of a number.
pub open spec fn size(x: real) -> real {
    if x < 0real {
        -x
    } else {
        x
    }
}

/// Whether every number stands for a real one, and operations compute what they are named
/// after without rounding.
pub open spec fn exact_as<S: Real>(v: spec_fn(S) -> real) -> bool {
    &&& forall|n: i64| #[trigger] v(integer_of::<S>(n)) == n as real
    &&& forall|n: usize| #[trigger] v(count_of::<S>(n)) == n as real
    &&& v(decimal_of::<S>(5i64, 1u32)) == 1real / 2real
    &&& forall|a: S, b: S| #[trigger] v(plus_of(a, b)) == v(a) + v(b)
    &&& forall|a: S, b: S| #[trigger] v(minus_of(a, b)) == v(a) - v(b)
    &&& forall|a: S, b: S| #[trigger] v(times_of(a, b)) == v(a) * v(b)
    &&& forall|a: S, b: S| v(b) != 0real ==> #[trigger] v(over_of(a, b)) == v(a) / v(b)
    &&& forall|a: S| #[trigger] v(neg_of(a)) == -v(a)
    &&& forall|a: S| #[trigger] v(abs_of(a)) == size(v(a))
    &&& forall|a: S, b: S|
        #[trigger] v(least_of(a, b)) == (if v(a) < v(b) {
            v(a)
        } else {
            v(b)
        })
    &&& forall|a: S, lo: S, hi: S|
        v(lo) <= v(hi) ==> #[trigger] v(clamp_of(a, lo, hi)) == held(v(a), v(lo), v(hi))
}

/// The first `n` values of a function, added up.
pub open spec fn rsum(f: spec_fn(int) -> real, n: nat) -> real
    decreases n,
{
    if n == 0 {
        0real
    } else {
        rsum(f, (n - 1) as nat) + f(n - 1)
    }
}

/// The values of a function on a square of side `n`, added up.
pub open spec fn rsum2(f: spec_fn(int, int) -> real, n: nat) -> real {
    rsum(|i: int| rsum(|j: int| f(i, j), n), n)
}

/// A sum of numbers none of which is negative is not negative.
pub proof fn lemma_rsum_nonnegative(f: spec_fn(int) -> real, n: nat)
    requires
        forall|i: int| 0 <= i < n ==> #[trigger] f(i) >= 0real,
    ensures
        rsum(f, n) >= 0real,
    decreases n,
{
    if n > 0 {
        assert(f(n - 1) >= 0real);
        lemma_rsum_nonnegative(f, (n - 1) as nat);
    }
}

/// Numbers that are not negative have a product that is not, and a part that is not.
pub proof fn lemma_nonnegative(a: real, b: real)
    requires
        a >= 0real,
        b >= 0real,
    ensures
        a * b >= 0real,
        b > 0real ==> a / b >= 0real,
{
    assert(a * b >= 0real) by (nonlinear_arith)
        requires
            a >= 0real,
            b >= 0real,
    ;
    if b > 0real {
        assert(a / b >= 0real) by (nonlinear_arith)
            requires
                a >= 0real,
                b > 0real,
        ;
    }
}

/// Sums depend on nothing but the values that are added.
pub proof fn lemma_rsum_same(f: spec_fn(int) -> real, g: spec_fn(int) -> real, n: nat)
    requires
        forall|i: int| 0 <= i < n ==> #[trigger] f(i) == g(i),
    ensures
        rsum(f, n) == rsum(g, n),
    decreases n,
{
    if n > 0 {
        lemma_rsum_same(f, g, (n - 1) as nat);
        assert(f(n - 1) == g(n - 1));
    }
}

/// Sums over squares depend on nothing but the values that are added.
pub proof fn lemma_rsum2_same(f: spec_fn(int, int) -> real, g: spec_fn(int, int) -> real, n: nat)
    requires
        forall|i: int, j: int| 0 <= i < n && 0 <= j < n ==> #[trigger] f(i, j) == g(i, j),
    ensures
        rsum2(f, n) == rsum2(g, n),
{
    let a = |i: int| rsum(|j: int| f(i, j), n);
    let b = |i: int| rsum(|j: int| g(i, j), n);
    assert forall|i: int| 0 <= i < n implies #[trigger] a(i) == b(i) by {
        lemma_rsum_same(|j: int| f(i, j), |j: int| g(i, j), n);
    }
    lemma_rsum_same(a, b, n);
}

/// Sums add term by term.
pub proof fn lemma_rsum_plus(f: spec_fn(int) -> real, g: spec_fn(int) -> real, n: nat)
    ensures
        rsum(|i: int| f(i) + g(i), n) == rsum(f, n) + rsum(g, n),
    decreases n,
{
    if n > 0 {
        lemma_rsum_plus(f, g, (n - 1) as nat);
    }
}

/// A factor can be taken out of a sum.
pub proof fn lemma_rsum_scale(c: real, f: spec_fn(int) -> real, n: nat)
    ensures
        rsum(|i: int| c * f(i), n) == c * rsum(f, n),
    decreases n,
{
    if n == 0 {
        assert(c * 0real == 0real) by (nonlinear_arith);
    } else {
        let m = (n - 1) as nat;
        lemma_rsum_scale(c, f, m);
        let a = rsum(f, m);
        let b = f(n - 1);
        assert(c * (a + b) == c * a + c * b) by (nonlinear_arith);
    }
}

/// Sums over squares add term by term.
pub proof fn lemma_rsum2_plus(f: spec_fn(int, int) -> real, g: spec_fn(int, int) -> real, n: nat)
    ensures
        rsum2(|i: int, j: int| f(i, j) + g(i, j), n) == rsum2(f, n) + rsum2(g, n),
{
    let both = |i: int, j: int| f(i, j) + g(i, j);
    let a = |i: int| rsum(|j: int| f(i, j), n);
    let b = |i: int| rsum(|j: int| g(i, j), n);
    let c = |i: int| rsum(|j: int| both(i, j), n);
    assert forall|i: int| 0 <= i < n implies #[trigger] c(i) == a(i) + b(i) by {
        let fi = |j: int| f(i, j);
        let gi = |j: int| g(i, j);
        lemma_rsum_plus(fi, gi, n);
        lemma_rsum_same(|j: int| both(i, j), |j: int| fi(j) + gi(j), n);
    }
    lemma_rsum_plus(a, b, n);
    lemma_rsum_same(c, |i: int| a(i) + b(i), n);
}

/// A sum of nothing over a square is nothing.
pub proof fn lemma_rsum_zero(f: spec_fn(int) -> real, n: nat)
    requires
        forall|i: int| 0 <= i < n ==> #[trigger] f(i) == 0real,
    ensures
        rsum(f, n) == 0real,
    decreases n,
{
    if n > 0 {
        lemma_rsum_zero(f, (n - 1) as nat);
        assert(f(n - 1) == 0real);
    }
}

/// Sums over a square and over a list can be taken in either order.
pub proof fn lemma_rsum_exchange(g: spec_fn(int, int, int) -> real, n: nat, m: nat)
    ensures
        rsum2(|i: int, j: int| rsum(|o: int| g(o, i, j), m), n) == rsum(
            |o: int| rsum2(|i: int, j: int| g(o, i, j), n),
            m,
        ),
    decreases m,
{
    let whole = |i: int, j: int| rsum(|o: int| g(o, i, j), m);
    if m == 0 {
        let rows = |i: int| rsum(|j: int| whole(i, j), n);
        assert forall|i: int| 0 <= i < n implies #[trigger] rows(i) == 0real by {
            lemma_rsum_zero(|j: int| whole(i, j), n);
        }
        lemma_rsum_zero(rows, n);
    } else {
        let k = (m - 1) as nat;
        lemma_rsum_exchange(g, n, k);
        let most = |i: int, j: int| rsum(|o: int| g(o, i, j), k);
        let last = |i: int, j: int| g(m - 1, i, j);
        lemma_rsum2_plus(most, last, n);
        lemma_rsum2_same(whole, |i: int, j: int| most(i, j) + last(i, j), n);
        let by_o = |o: int| rsum2(|i: int, j: int| g(o, i, j), n);
        assert(by_o(m - 1) == rsum2(last, n));
    }
}

/// The first value can be added last.
pub proof fn lemma_rsum_first(f: spec_fn(int) -> real, n: nat)
    ensures
        rsum(f, n + 1) == rsum(|i: int| f(i + 1), n) + f(0),
    decreases n,
{
    if n == 0 {
        assert(rsum(f, 1) == rsum(f, 0) + f(0));
    } else {
        lemma_rsum_first(f, (n - 1) as nat);
    }
}

/// Values can be added in reverse order.
pub proof fn lemma_rsum_reverse(f: spec_fn(int) -> real, n: nat)
    ensures
        rsum(|i: int| f(n - 1 - i), n) == rsum(f, n),
    decreases n,
{
    if n > 0 {
        let m = (n - 1) as nat;
        let rest = |i: int| f(i + 1);
        lemma_rsum_first(f, m);
        lemma_rsum_reverse(rest, m);
        let back = |i: int| f(n - 1 - i);
        let rest_back = |i: int| rest(m - 1 - i);
        assert forall|i: int| 0 <= i < m implies #[trigger] back(i) == rest_back(i) by {
            assert(m - 1 - i + 1 == n - 1 - i);
        }
        lemma_rsum_same(back, rest_back, m);
        assert(rsum(back, n) == rsum(back, m) + back(n - 1));
    }
}

/// Values on a cycle can be added from the place before on.
pub proof fn lemma_rsum_back(f: spec_fn(int) -> real, n: nat)
    requires
        n > 0,
    ensures
        rsum(|i: int| f((i - 1) % (n as int)), n) == rsum(f, n),
{
    let m = n as int;
    let k = (n - 1) as nat;
    let back = |i: int| f((i - 1) % m);
    lemma_rsum_first(back, k);
    let rest = |i: int| back(i + 1);
    assert forall|i: int| 0 <= i < k implies #[trigger] rest(i) == f(i) by {
        lemma_small_mod(i as nat, n);
    }
    lemma_rsum_same(rest, f, k);
    assert((0 - 1) % m == m - 1) by {
        lemma_fundamental_div_mod_converse(-1, m, -1, m - 1);
    }
}

/// Values on a cycle can be added from any place on.
pub proof fn lemma_rsum_turn(f: spec_fn(int) -> real, n: nat, d: nat)
    requires
        n > 0,
    ensures
        rsum(|i: int| f((i - d) % (n as int)), n) == rsum(f, n),
    decreases d,
{
    let m = n as int;
    let turned = |i: int| f((i - d) % m);
    if d == 0 {
        assert forall|i: int| 0 <= i < n implies #[trigger] turned(i) == f(i) by {
            lemma_small_mod(i as nat, n);
        }
        lemma_rsum_same(turned, f, n);
    } else {
        let e = (d - 1) as nat;
        lemma_rsum_turn(f, n, e);
        let less = |i: int| f((i - e) % m);
        lemma_rsum_back(less, n);
        assert forall|i: int| 0 <= i < n implies #[trigger] turned(i) == less((i - 1) % m) by {
            vstd::arithmetic::div_mod::lemma_sub_mod_noop(i - 1, e as int, m);
            vstd::arithmetic::div_mod::lemma_sub_mod_noop((i - 1) % m, e as int, m);
            lemma_mod_bound(i - 1, m);
            lemma_small_mod(((i - 1) % m) as nat, n);
        }
        lemma_rsum_same(turned, |i: int| less((i - 1) % m), n);
    }
}

/// Values on a cycle can be added as they come from any place.
pub proof fn lemma_rsum_cycle(f: spec_fn(int) -> real, n: nat, d: int)
    requires
        n > 0,
    ensures
        rsum(|i: int| f((i - d) % (n as int)), n) == rsum(f, n),
{
    let m = n as int;
    let e = (d % m) as nat;
    lemma_mod_bound(d, m);
    lemma_rsum_turn(f, n, e);
    let a = |i: int| f((i - d) % m);
    let b = |i: int| f((i - e) % m);
    assert forall|i: int| 0 <= i < n implies #[trigger] a(i) == b(i) by {
        vstd::arithmetic::div_mod::lemma_sub_mod_noop(i, d, m);
        vstd::arithmetic::div_mod::lemma_sub_mod_noop(i, e as int, m);
        lemma_small_mod(e, n);
    }
    lemma_rsum_same(a, b, n);
}

/// Values on a torus can be added as they come from any place.
pub proof fn lemma_rsum2_torus(f: spec_fn(int, int) -> real, n: nat, dx: int, dy: int)
    requires
        n > 0,
    ensures
        rsum2(|i: int, j: int| f((i - dx) % (n as int), (j - dy) % (n as int)), n) == rsum2(
            f,
            n,
        ),
{
    let m = n as int;
    let rows = |p: int| rsum(|q: int| f(p, q), n);
    let moved = |i: int, j: int| f((i - dx) % m, (j - dy) % m);
    let moved_rows = |i: int| rsum(|j: int| moved(i, j), n);
    assert forall|i: int| 0 <= i < n implies #[trigger] moved_rows(i) == rows(
        (i - dx) % m,
    ) by {
        let row = |q: int| f((i - dx) % m, q);
        lemma_rsum_cycle(row, n, dy);
        lemma_rsum_same(|j: int| moved(i, j), |j: int| row((j - dy) % m), n);
    }
    lemma_rsum_same(moved_rows, |i: int| rows((i - dx) % m), n);
    lemma_rsum_cycle(rows, n, dx);
}

/// The sum of products over a table is the product of the sums over its rows and columns.
pub proof fn lemma_rsum_table(a: spec_fn(int) -> real, b: spec_fn(int) -> real, side: nat, rows: nat)
    requires
        side > 0,
    ensures
        rsum(|o: int| a(o / (side as int)) * b(o % (side as int)), rows * side) == rsum(a, rows)
            * rsum(b, side),
    decreases rows,
{
    let w = side as int;
    let g = |o: int| a(o / w) * b(o % w);
    if rows == 0 {
        assert(rows * side == 0) by (nonlinear_arith)
            requires
                rows == 0,
        ;
        let t = rsum(b, side);
        assert(0real * t == 0real) by (nonlinear_arith);
    } else {
        let k = (rows - 1) as nat;
        lemma_rsum_table(a, b, side, k);
        assert(rows * side == k * side + side) by (nonlinear_arith)
            requires
                rows == k + 1,
        ;
        lemma_rsum_row(a, b, side, k, side);
        let x = rsum(a, k);
        let y = a(rows - 1);
        let t = rsum(b, side);
        assert((x + y) * t == x * t + y * t) by (nonlinear_arith);
    }
}

/// The sum of products over a table with part of one more row.
pub proof fn lemma_rsum_row(
    a: spec_fn(int) -> real,
    b: spec_fn(int) -> real,
    side: nat,
    k: nat,
    part: nat,
)
    requires
        part <= side,
        side > 0,
    ensures
        rsum(|o: int| a(o / (side as int)) * b(o % (side as int)), k * side + part) == rsum(
            |o: int| a(o / (side as int)) * b(o % (side as int)),
            k * side,
        ) + a(k as int) * rsum(b, part),
    decreases part,
{
    let w = side as int;
    let g = |o: int| a(o / w) * b(o % w);
    let y = a(k as int);
    if part == 0 {
        assert(y * 0real == 0real) by (nonlinear_arith);
    } else {
        let p = (part - 1) as nat;
        lemma_rsum_row(a, b, side, k, p);
        let o = k * side + p;
        lemma_fundamental_div_mod_converse(o as int, w, k as int, p as int);
        assert(g(o as int) == y * b(p as int));
        let s = rsum(b, p);
        let t = b(p as int);
        assert(y * (s + t) == y * s + y * t) by (nonlinear_arith);
    }
}

/// Two sums can be taken in either order.
pub proof fn lemma_rsum_swap(f: spec_fn(int, int) -> real, m: nat, n: nat)
    ensures
        rsum(|i: int| rsum(|j: int| f(i, j), n), m) == rsum(|j: int| rsum(|i: int| f(i, j), m), n),
    decreases m,
{
    let columns = |j: int| rsum(|i: int| f(i, j), m);
    if m == 0 {
        lemma_rsum_zero(columns, n);
    } else {
        let k = (m - 1) as nat;
        lemma_rsum_swap(f, k, n);
        let most = |j: int| rsum(|i: int| f(i, j), k);
        let last = |j: int| f(m - 1, j);
        lemma_rsum_plus(most, last, n);
        lemma_rsum_same(columns, |j: int| most(j) + last(j), n);
    }
}

} // verus!
