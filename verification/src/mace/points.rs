//! Points of the plane of complex numbers, and their sums.

use vstd::prelude::*;

verus! {

/// The sum of two points of the plane of complex numbers.
pub open spec fn padd(a: (real, real), b: (real, real)) -> (real, real) {
    (a.0 + b.0, a.1 + b.1)
}

/// The product of two points of the plane of complex numbers.
#[verifier::opaque]
pub open spec fn pmul(a: (real, real), b: (real, real)) -> (real, real) {
    (a.0 * b.0 - a.1 * b.1, a.0 * b.1 + a.1 * b.0)
}

/// A point mirrored at the real axis.
pub open spec fn pconj(a: (real, real)) -> (real, real) {
    (a.0, -a.1)
}

/// A point of the real axis.
pub open spec fn pt(x: real) -> (real, real) {
    (x, 0real)
}

/// The first `n` points of a list, added up.
pub open spec fn psum(f: spec_fn(int) -> (real, real), n: nat) -> (real, real)
    decreases n,
{
    if n == 0 {
        pt(0real)
    } else {
        padd(psum(f, (n - 1) as nat), f(n - 1))
    }
}

/// Products of three numbers associate.
proof fn lemma_three(x: real, y: real, z: real)
    ensures
        (x * y) * z == x * (y * z),
{
    assert((x * y) * z == x * (y * z)) by (nonlinear_arith);
}

/// Products of numbers spread over sums and differences, on either side.
proof fn lemma_spread(x: real, y: real, z: real)
    ensures
        (x + y) * z == x * z + y * z,
        (x - y) * z == x * z - y * z,
        z * (x + y) == z * x + z * y,
        z * (x - y) == z * x - z * y,
{
    assert((x + y) * z == x * z + y * z) by (nonlinear_arith);
    assert((x - y) * z == x * z - y * z) by (nonlinear_arith);
    assert(z * (x + y) == z * x + z * y) by (nonlinear_arith);
    assert(z * (x - y) == z * x - z * y) by (nonlinear_arith);
}

/// Products with the simplest numbers.
proof fn lemma_simple(x: real)
    ensures
        0real * x == 0real,
        x * 0real == 0real,
        1real * x == x,
        x * 1real == x,
        -1real * x == -x,
        x * -1real == -x,
{
}

/// Products of points associate.
pub proof fn lemma_pmul_assoc(a: (real, real), b: (real, real), c: (real, real))
    ensures
        pmul(pmul(a, b), c) == pmul(a, pmul(b, c)),
{
    reveal(pmul);
    let (a0, a1) = a;
    let (b0, b1) = b;
    let (c0, c1) = c;
    lemma_spread(a0 * b0, a1 * b1, c0);
    lemma_spread(a0 * b0, a1 * b1, c1);
    lemma_spread(a0 * b1, a1 * b0, c0);
    lemma_spread(a0 * b1, a1 * b0, c1);
    lemma_spread(b0 * c0, b1 * c1, a0);
    lemma_spread(b0 * c0, b1 * c1, a1);
    lemma_spread(b0 * c1, b1 * c0, a0);
    lemma_spread(b0 * c1, b1 * c0, a1);
    lemma_three(a0, b0, c0);
    lemma_three(a0, b0, c1);
    lemma_three(a0, b1, c0);
    lemma_three(a0, b1, c1);
    lemma_three(a1, b0, c0);
    lemma_three(a1, b0, c1);
    lemma_three(a1, b1, c0);
    lemma_three(a1, b1, c1);
}

/// Products of points spread over sums.
pub proof fn lemma_pmul_spread(a: (real, real), b: (real, real), c: (real, real))
    ensures
        pmul(padd(a, b), c) == padd(pmul(a, c), pmul(b, c)),
{
    reveal(pmul);
    lemma_spread(a.0, b.0, c.0);
    lemma_spread(a.0, b.0, c.1);
    lemma_spread(a.1, b.1, c.0);
    lemma_spread(a.1, b.1, c.1);
}

/// Products with zero, one and minus one.
pub proof fn lemma_pmul_simple(c: (real, real))
    ensures
        pmul(pt(0real), c) == pt(0real),
        pmul(pt(1real), c) == c,
        pmul(c, pt(1real)) == c,
        pmul(c, pt(-1real)) == (-c.0, -c.1),
{
    reveal(pmul);
    lemma_simple(c.0);
    lemma_simple(c.1);
}

/// Sums depend on nothing but the points that are added.
pub proof fn lemma_psum_same(
    f: spec_fn(int) -> (real, real),
    g: spec_fn(int) -> (real, real),
    n: nat,
)
    requires
        forall|i: int| 0 <= i < n ==> #[trigger] f(i) == g(i),
    ensures
        psum(f, n) == psum(g, n),
    decreases n,
{
    if n > 0 {
        lemma_psum_same(f, g, (n - 1) as nat);
        assert(f(n - 1) == g(n - 1));
    }
}

/// A factor can be brought into a sum.
pub proof fn lemma_psum_scale(f: spec_fn(int) -> (real, real), w: (real, real), n: nat)
    ensures
        pmul(psum(f, n), w) == psum(|j: int| pmul(f(j), w), n),
    decreases n,
{
    lemma_pmul_simple(w);
    if n > 0 {
        lemma_pmul_spread(psum(f, (n - 1) as nat), f(n - 1), w);
        lemma_psum_scale(f, w, (n - 1) as nat);
    }
}

/// Sums add term by term.
pub proof fn lemma_psum_add(
    f: spec_fn(int) -> (real, real),
    g: spec_fn(int) -> (real, real),
    n: nat,
)
    ensures
        psum(|j: int| padd(f(j), g(j)), n) == padd(psum(f, n), psum(g, n)),
    decreases n,
{
    if n > 0 {
        lemma_psum_add(f, g, (n - 1) as nat);
    }
}

/// A sum over twice as many points is the sums over those at even and at odd places.
pub proof fn lemma_psum_halves(f: spec_fn(int) -> (real, real), m: nat)
    ensures
        psum(f, 2 * m) == padd(psum(|j: int| f(2 * j), m), psum(|j: int| f(2 * j + 1), m)),
    decreases m,
{
    if m > 0 {
        let k = (m - 1) as nat;
        lemma_psum_halves(f, k);
        assert(psum(f, 2 * m) == padd(psum(f, (2 * m - 1) as nat), f(2 * m - 1)));
        assert(psum(f, (2 * m - 1) as nat) == padd(psum(f, 2 * k), f(2 * m - 2)));
    }
}

/// Products of points commute.
pub proof fn lemma_pmul_comm(a: (real, real), b: (real, real))
    ensures
        pmul(a, b) == pmul(b, a),
{
    reveal(pmul);
    lemma_two(a.0, b.0);
    lemma_two(a.0, b.1);
    lemma_two(a.1, b.0);
    lemma_two(a.1, b.1);
}

/// Products of two numbers commute.
proof fn lemma_two(x: real, y: real)
    ensures
        x * y == y * x,
        x * -y == -(x * y),
        -x * y == -(x * y),
{
    assert(x * y == y * x) by (nonlinear_arith);
    assert(x * -y == -(x * y)) by (nonlinear_arith);
    assert(-x * y == -(x * y)) by (nonlinear_arith);
}

/// A product mirrored is the product of the mirrored points.
pub proof fn lemma_pconj_pmul(a: (real, real), b: (real, real))
    ensures
        pconj(pmul(a, b)) == pmul(pconj(a), pconj(b)),
        pconj(pconj(a)) == a,
{
    reveal(pmul);
    lemma_two(a.0, b.1);
    lemma_two(a.1, b.0);
    lemma_two(a.1, b.1);
    lemma_two(a.1, -b.1);
}

/// A point that a factor other than one leaves alone is zero.
pub proof fn lemma_left_alone(z: (real, real), w: (real, real))
    requires
        pmul(z, w) == z,
        w.0 != 1real,
    ensures
        z == pt(0real),
{
    reveal(pmul);
    let (a, b) = z;
    let d = w.0 - 1real;
    let s = w.1;
    lemma_spread(w.0, 1real, a);
    lemma_spread(w.0, 1real, b);
    lemma_simple(a);
    lemma_simple(b);
    assert(a * d == b * s);
    assert(b * d == -(a * s));
    let size = d * d + s * s;
    lemma_square(d, s);
    // (a d) d = (b s) d = (b d) s = -(a s) s, and the same with a and b swapped.
    lemma_three(a, d, d);
    lemma_three(a, s, s);
    lemma_three(b, d, d);
    lemma_three(b, s, s);
    lemma_three(b, s, d);
    lemma_three(b, d, s);
    lemma_three(a, s, d);
    lemma_three(a, d, s);
    lemma_two(s, d);
    lemma_two(a * s, s);
    lemma_two(a * s, d);
    lemma_spread(d * d, s * s, a);
    lemma_spread(d * d, s * s, b);
    assert((a * d) * d == -((a * s) * s));
    assert((b * d) * d == -((b * s) * s));
    assert(a * size == 0real);
    assert(b * size == 0real);
    lemma_no_divisor(a, size);
    lemma_no_divisor(b, size);
}

/// A sum of squares is positive where the first number is not zero.
proof fn lemma_square(d: real, s: real)
    requires
        d != 0real,
    ensures
        d * d + s * s > 0real,
{
    assert(d * d > 0real) by (nonlinear_arith)
        requires
            d != 0real,
    ;
    assert(s * s >= 0real) by (nonlinear_arith);
}

/// A product with a positive number is zero only for zero.
proof fn lemma_no_divisor(x: real, c: real)
    requires
        c > 0real,
        x * c == 0real,
    ensures
        x == 0real,
{
    assert(x == 0real) by (nonlinear_arith)
        requires
            x * c == 0real,
            c > 0real,
    ;
}

/// A sum of zeros.
pub proof fn lemma_psum_zero(f: spec_fn(int) -> (real, real), n: nat)
    requires
        forall|i: int| 0 <= i < n ==> #[trigger] f(i) == pt(0real),
    ensures
        psum(f, n) == pt(0real),
    decreases n,
{
    if n > 0 {
        lemma_psum_zero(f, (n - 1) as nat);
        assert(f(n - 1) == pt(0real));
    }
}

/// A sum of ones.
pub proof fn lemma_psum_ones(f: spec_fn(int) -> (real, real), n: nat)
    requires
        forall|i: int| 0 <= i < n ==> #[trigger] f(i) == pt(1real),
    ensures
        psum(f, n) == pt(n as real),
    decreases n,
{
    if n > 0 {
        lemma_psum_ones(f, (n - 1) as nat);
        assert(f(n - 1) == pt(1real));
    }
}

/// A sum with one point other than zero is that point.
pub proof fn lemma_psum_one(f: spec_fn(int) -> (real, real), n: nat, j: int)
    requires
        0 <= j < n,
        forall|i: int| 0 <= i < n && i != j ==> #[trigger] f(i) == pt(0real),
    ensures
        psum(f, n) == f(j),
    decreases n,
{
    if j == n - 1 {
        lemma_psum_zero(f, (n - 1) as nat);
    } else {
        lemma_psum_one(f, (n - 1) as nat, j);
        assert(f(n - 1) == pt(0real));
    }
}

/// A sum mirrored is the sum of the mirrored points.
pub proof fn lemma_psum_conj(f: spec_fn(int) -> (real, real), n: nat)
    ensures
        pconj(psum(f, n)) == psum(|i: int| pconj(f(i)), n),
    decreases n,
{
    if n > 0 {
        lemma_psum_conj(f, (n - 1) as nat);
    }
}

/// A sum that starts one later.
pub proof fn lemma_psum_next(f: spec_fn(int) -> (real, real), n: nat)
    ensures
        padd(psum(|i: int| f(i + 1), n), f(0)) == padd(psum(f, n), f(n as int)),
    decreases n,
{
    if n > 0 {
        lemma_psum_next(f, (n - 1) as nat);
    }
}

/// The order of two sums can be exchanged.
pub proof fn lemma_psum_exchange(f: spec_fn(int, int) -> (real, real), m: nat, n: nat)
    ensures
        psum(|i: int| psum(|j: int| f(i, j), n), m) == psum(|j: int| psum(|i: int| f(i, j), m), n),
    decreases m,
{
    let swapped = |j: int| psum(|i: int| f(i, j), m);
    if m == 0 {
        assert forall|j: int| 0 <= j < n implies #[trigger] swapped(j) == pt(0real) by {}
        lemma_psum_zero(swapped, n);
    } else {
        let k = (m - 1) as nat;
        lemma_psum_exchange(f, k, n);
        let a = |j: int| psum(|i: int| f(i, j), k);
        let b = |j: int| f(k as int, j);
        lemma_psum_add(a, b, n);
        let both = |j: int| padd(a(j), b(j));
        assert forall|j: int| 0 <= j < n implies #[trigger] swapped(j) == both(j) by {
            let column = |i: int| f(i, j);
            assert(psum(column, m) == padd(psum(column, k), column(k as int)));
        }
        lemma_psum_same(swapped, both, n);
    }
}

} // verus!
