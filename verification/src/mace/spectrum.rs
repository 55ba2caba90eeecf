//! Sums over roots of unity.

use vstd::prelude::*;

verus! {

use crate::mace::points::{
    lemma_left_alone, lemma_pmul_assoc, lemma_pmul_comm, lemma_pmul_simple,
    lemma_psum_exchange, lemma_psum_next, lemma_psum_one, lemma_psum_ones, lemma_psum_same,
    lemma_psum_scale, pconj, pmul, psum, pt,
};

/// Whether a list holds the powers of a root of unity, none of the first `n` but the first
/// being one.
#[verifier::opaque]
pub open spec fn roots(w: spec_fn(int) -> (real, real), n: nat) -> bool {
    &&& w(0) == pt(1real)
    &&& w(n as int) == pt(1real)
    &&& forall|a: int, b: int| #[trigger] pmul(w(a), w(b)) == w(a + b)
    &&& forall|a: int| #[trigger] pconj(w(a)) == w(-a)
    &&& forall|a: int| 0 < a < n ==> (#[trigger] w(a)).0 != 1real
}

/// Number `k` of the spectrum of `n` points.
pub open spec fn spectrum(
    w: spec_fn(int) -> (real, real),
    x: spec_fn(int) -> (real, real),
    n: nat,
    k: int,
) -> (real, real) {
    psum(|j: int| pmul(x(j), w(j * k)), n)
}

/// The spectrum of `n` points.
pub open spec fn spectra(
    w: spec_fn(int) -> (real, real),
    x: spec_fn(int) -> (real, real),
    n: nat,
) -> spec_fn(int) -> (real, real) {
    |k: int| spectrum(w, x, n, k)
}

/// The powers of the opposite root.
pub open spec fn backwards(w: spec_fn(int) -> (real, real)) -> spec_fn(int) -> (real, real) {
    |t: int| w(-t)
}

/// What holds of two powers of a root.
pub proof fn lemma_powers(w: spec_fn(int) -> (real, real), n: nat, a: int, b: int)
    requires
        roots(w, n),
    ensures
        pmul(w(a), w(b)) == w(a + b),
        pconj(w(a)) == w(-a),
        w(0) == pt(1real),
        w(n as int) == pt(1real),
        0 < a < n ==> w(a).0 != 1real,
{
    reveal(roots);
}

/// A power of one.
proof fn lemma_full_power(w: spec_fn(int) -> (real, real), n: nat, t: nat)
    requires
        roots(w, n),
    ensures
        w((t * n) as int) == pt(1real),
    decreases t,
{
    lemma_powers(w, n, 0, 0);
    if t == 0 {
        assert(0 * n == 0);
    } else {
        let u = (t - 1) as nat;
        lemma_full_power(w, n, u);
        lemma_powers(w, n, (u * n) as int, n as int);
        assert(u * n + n == t * n) by (nonlinear_arith)
            requires
                u == t - 1,
        ;
        lemma_pmul_simple(pt(1real));
    }
}

/// Whole rounds lead back, either way.
pub proof fn lemma_every_power(w: spec_fn(int) -> (real, real), n: nat, t: int)
    requires
        roots(w, n),
    ensures
        w(t * n) == pt(1real),
{
    if t >= 0 {
        lemma_full_power(w, n, t as nat);
        assert(t * n == (t as nat) * n);
    } else {
        let u = (-t) as nat;
        lemma_full_power(w, n, u);
        lemma_powers(w, n, (u * n) as int, 0);
        assert(-(u * n) == t * n) by (nonlinear_arith)
            requires
                u == -t,
        ;
    }
}

/// The powers of a root other than one cancel out.
proof fn lemma_cancel_out(w: spec_fn(int) -> (real, real), n: nat, t: int)
    requires
        roots(w, n),
        -n < t < n,
        t != 0,
    ensures
        psum(|k: int| w(t * k), n) == pt(0real),
{
    let f = |k: int| w(t * k);
    let sum = psum(f, n);
    let next = |k: int| f(k + 1);
    let turned = |k: int| pmul(f(k), w(t));
    assert forall|k: int| 0 <= k < n implies #[trigger] turned(k) == next(k) by {
        lemma_powers(w, n, t * k, t);
        assert(t * k + t == t * (k + 1)) by (nonlinear_arith);
    }
    lemma_psum_scale(f, w(t), n);
    lemma_psum_same(turned, next, n);
    lemma_psum_next(f, n);
    assert(t * 0 == 0);
    lemma_powers(w, n, t, 0);
    lemma_every_power(w, n, t);
    assert(f(n as int) == pt(1real));
    assert(pmul(sum, w(t)) == sum);
    assert(w(t).0 != 1real) by {
        if t < 0 {
            lemma_powers(w, n, -t, 0);
        }
    }
    lemma_left_alone(sum, w(t));
}

/// The spectrum of a spectrum by the opposite root gives every point back as often as there
/// are points.
pub proof fn lemma_there_and_back(
    w: spec_fn(int) -> (real, real),
    x: spec_fn(int) -> (real, real),
    n: nat,
    j: int,
)
    requires
        roots(w, n),
        0 <= j < n,
    ensures
        spectrum(backwards(w), spectra(w, x, n), n, j) == pmul(x(j), pt(n as real)),
{
    let f = |k: int, l: int| pmul(x(l), w((l - j) * k));
    let outer = |k: int| pmul(spectra(w, x, n)(k), backwards(w)(k * j));
    let rows = |k: int| psum(|l: int| f(k, l), n);
    assert forall|k: int| 0 <= k < n implies #[trigger] outer(k) == rows(k) by {
        let terms = |l: int| pmul(x(l), w(l * k));
        let back = w(-(k * j));
        lemma_psum_scale(terms, back, n);
        let scaled = |l: int| pmul(terms(l), back);
        let row = |l: int| f(k, l);
        assert forall|l: int| 0 <= l < n implies #[trigger] scaled(l) == row(l) by {
            lemma_pmul_assoc(x(l), w(l * k), back);
            lemma_powers(w, n, l * k, -(k * j));
            assert(l * k + -(k * j) == (l - j) * k) by (nonlinear_arith);
        }
        lemma_psum_same(scaled, row, n);
    }
    lemma_psum_same(outer, rows, n);
    lemma_psum_exchange(f, n, n);
    let columns = |l: int| psum(|k: int| f(k, l), n);
    assert forall|l: int| 0 <= l < n implies #[trigger] columns(l) == pmul(
        x(l),
        if l == j {
            pt(n as real)
        } else {
            pt(0real)
        },
    ) by {
        let powers = |k: int| w((l - j) * k);
        let column = |k: int| f(k, l);
        lemma_psum_scale(powers, x(l), n);
        let scaled = |k: int| pmul(powers(k), x(l));
        assert forall|k: int| 0 <= k < n implies #[trigger] scaled(k) == column(k) by {
            lemma_pmul_comm(powers(k), x(l));
        }
        lemma_psum_same(scaled, column, n);
        lemma_pmul_comm(psum(powers, n), x(l));
        if l == j {
            assert forall|k: int| 0 <= k < n implies #[trigger] powers(k) == pt(1real) by {
                assert((l - j) * k == 0) by (nonlinear_arith)
                    requires
                        l == j,
                ;
                lemma_powers(w, n, 0, 0);
            }
            lemma_psum_ones(powers, n);
        } else {
            lemma_cancel_out(w, n, l - j);
        }
    }
    assert forall|l: int| 0 <= l < n && l != j implies #[trigger] columns(l) == pt(0real) by {
        lemma_pmul_simple(x(l));
        lemma_pmul_comm(x(l), pt(0real));
    }
    lemma_psum_one(columns, n, j);
}

/// A spectrum depends on nothing but its points.
pub proof fn lemma_spectrum_same(
    w: spec_fn(int) -> (real, real),
    x: spec_fn(int) -> (real, real),
    y: spec_fn(int) -> (real, real),
    n: nat,
    k: int,
)
    requires
        forall|j: int| 0 <= j < n ==> #[trigger] x(j) == y(j),
    ensures
        spectrum(w, x, n, k) == spectrum(w, y, n, k),
{
    let f = |j: int| pmul(x(j), w(j * k));
    let g = |j: int| pmul(y(j), w(j * k));
    assert forall|j: int| 0 <= j < n implies #[trigger] f(j) == g(j) by {
        assert(x(j) == y(j));
    }
    lemma_psum_same(f, g, n);
}

/// A factor of all points is a factor of their spectrum.
pub proof fn lemma_spectrum_scale(
    w: spec_fn(int) -> (real, real),
    x: spec_fn(int) -> (real, real),
    n: nat,
    k: int,
    c: (real, real),
)
    ensures
        spectrum(w, |j: int| pmul(x(j), c), n, k) == pmul(spectrum(w, x, n, k), c),
{
    let scaled = |j: int| pmul(x(j), c);
    let f = |j: int| pmul(x(j), w(j * k));
    let g = |j: int| pmul(scaled(j), w(j * k));
    let h = |j: int| pmul(f(j), c);
    lemma_psum_scale(f, c, n);
    assert forall|j: int| 0 <= j < n implies #[trigger] g(j) == h(j) by {
        lemma_pmul_assoc(x(j), c, w(j * k));
        lemma_pmul_comm(c, w(j * k));
        lemma_pmul_assoc(x(j), w(j * k), c);
    }
    lemma_psum_same(g, h, n);
}

/// Two sums with factors of their own, taken in either order.
pub proof fn lemma_swap(
    a: spec_fn(int, int) -> (real, real),
    u: spec_fn(int) -> (real, real),
    t: spec_fn(int) -> (real, real),
    n: nat,
    m: nat,
)
    ensures
        psum(|l: int| pmul(psum(|i: int| pmul(a(i, l), u(i)), n), t(l)), m) == psum(
            |i: int| pmul(psum(|l: int| pmul(a(i, l), t(l)), m), u(i)),
            n,
        ),
{
    let f = |l: int, i: int| pmul(pmul(a(i, l), u(i)), t(l));
    let left = |l: int| pmul(psum(|i: int| pmul(a(i, l), u(i)), n), t(l));
    let right = |i: int| pmul(psum(|l: int| pmul(a(i, l), t(l)), m), u(i));
    let rows = |l: int| psum(|i: int| f(l, i), n);
    let columns = |i: int| psum(|l: int| f(l, i), m);
    assert forall|l: int| 0 <= l < m implies #[trigger] left(l) == rows(l) by {
        let inner = |i: int| pmul(a(i, l), u(i));
        lemma_psum_scale(inner, t(l), n);
        lemma_psum_same(|i: int| pmul(inner(i), t(l)), |i: int| f(l, i), n);
    }
    lemma_psum_same(left, rows, m);
    assert forall|i: int| 0 <= i < n implies #[trigger] right(i) == columns(i) by {
        let inner = |l: int| pmul(a(i, l), t(l));
        let scaled = |l: int| pmul(inner(l), u(i));
        let column = |l: int| f(l, i);
        lemma_psum_scale(inner, u(i), m);
        assert forall|l: int| 0 <= l < m implies #[trigger] scaled(l) == column(l) by {
            lemma_pmul_assoc(a(i, l), t(l), u(i));
            lemma_pmul_comm(t(l), u(i));
            lemma_pmul_assoc(a(i, l), u(i), t(l));
        }
        lemma_psum_same(scaled, column, m);
    }
    lemma_psum_same(right, columns, n);
    lemma_psum_exchange(f, m, n);
}

/// Number `(k, l)` of the spectrum of `n` rows of `m` points: that of the columns of the
/// spectra of the rows.
pub open spec fn plane_spectrum(
    w: spec_fn(int) -> (real, real),
    u: spec_fn(int) -> (real, real),
    x: spec_fn(int, int) -> (real, real),
    n: nat,
    m: nat,
    k: int,
    l: int,
) -> (real, real) {
    spectrum(w, |i: int| spectrum(u, |j: int| x(i, j), m, l), n, k)
}

/// Number `(k, l)` of the spectrum of a square of points.
pub open spec fn square_spectrum(
    w: spec_fn(int) -> (real, real),
    x: spec_fn(int, int) -> (real, real),
    n: nat,
    k: int,
    l: int,
) -> (real, real) {
    plane_spectrum(w, w, x, n, n, k, l)
}

/// The rows of the spectrum of a plane, brought back, are the spectra of its columns.
pub proof fn lemma_plane_rows_back(
    w: spec_fn(int) -> (real, real),
    r: spec_fn(int) -> (real, real),
    x: spec_fn(int, int) -> (real, real),
    n: nat,
    m: nat,
    k: int,
    b: int,
)
    requires
        roots(r, m),
        0 <= b < m,
    ensures
        spectrum(backwards(r), |l: int| plane_spectrum(w, r, x, n, m, k, l), m, b) == pmul(
            spectrum(w, |i: int| x(i, b), n, k),
            pt(m as real),
        ),
{
    let br = backwards(r);
    let a = |i: int, l: int| spectrum(r, |j: int| x(i, j), m, l);
    let u = |i: int| w(i * k);
    let t = |l: int| br(l * b);
    lemma_swap(a, u, t, n, m);
    let left = |l: int| pmul(psum(|i: int| pmul(a(i, l), u(i)), n), t(l));
    let given = |l: int| plane_spectrum(w, r, x, n, m, k, l);
    let want = |l: int| pmul(given(l), br(l * b));
    assert forall|l: int| 0 <= l < m implies #[trigger] want(l) == left(l) by {
        let row = |i: int| spectrum(r, |j: int| x(i, j), m, l);
        lemma_psum_same(|i: int| pmul(row(i), w(i * k)), |i: int| pmul(a(i, l), u(i)), n);
    }
    lemma_psum_same(want, left, m);
    let right = |i: int| pmul(psum(|l: int| pmul(a(i, l), t(l)), m), u(i));
    let column = |i: int| x(i, b);
    let scaled = |i: int| pmul(column(i), pt(m as real));
    let shown = |i: int| pmul(scaled(i), w(i * k));
    assert forall|i: int| 0 <= i < n implies #[trigger] right(i) == shown(i) by {
        let line = |j: int| x(i, j);
        lemma_there_and_back(r, line, m, b);
        let there = spectra(r, line, m);
        lemma_psum_same(|l: int| pmul(there(l), br(l * b)), |l: int| pmul(a(i, l), t(l)), m);
    }
    lemma_psum_same(right, shown, n);
    lemma_spectrum_scale(w, column, n, k, pt(m as real));
}

/// The rows of the spectrum of a square, brought back, are the spectra of its columns.
pub proof fn lemma_rows_back(
    w: spec_fn(int) -> (real, real),
    x: spec_fn(int, int) -> (real, real),
    n: nat,
    k: int,
    b: int,
)
    requires
        roots(w, n),
        0 <= b < n,
    ensures
        spectrum(backwards(w), |l: int| square_spectrum(w, x, n, k, l), n, b) == pmul(
            spectrum(w, |i: int| x(i, b), n, k),
            pt(n as real),
        ),
{
    lemma_plane_rows_back(w, w, x, n, n, k, b);
    lemma_spectrum_same(
        backwards(w),
        |l: int| square_spectrum(w, x, n, k, l),
        |l: int| plane_spectrum(w, w, x, n, n, k, l),
        n,
        b,
    );
}

/// The powers of the opposite root are powers of a root of unity too.
pub proof fn lemma_backwards(w: spec_fn(int) -> (real, real), n: nat)
    requires
        roots(w, n),
    ensures
        roots(backwards(w), n),
{
    reveal(roots);
    let bw = backwards(w);
    assert(pconj(w(n as int)) == w(-(n as int)));
    assert forall|a: int, b: int| #[trigger] pmul(bw(a), bw(b)) == bw(a + b) by {
        assert(pmul(w(-a), w(-b)) == w(-a + -b));
        assert(-a + -b == -(a + b));
    }
    assert forall|a: int| #[trigger] pconj(bw(a)) == bw(-a) by {
        assert(pconj(w(-a)) == w(-(-a)));
    }
    assert forall|a: int| 0 < a < n implies (#[trigger] bw(a)).0 != 1real by {
        assert(pconj(w(a)) == w(-a));
        assert(w(a).0 != 1real);
    }
}

/// Turning the root round twice changes nothing.
pub proof fn lemma_backwards_twice(
    w: spec_fn(int) -> (real, real),
    x: spec_fn(int) -> (real, real),
    n: nat,
    k: int,
)
    ensures
        spectrum(backwards(backwards(w)), x, n, k) == spectrum(w, x, n, k),
{
    let again = backwards(backwards(w));
    let f = |j: int| pmul(x(j), again(j * k));
    let g = |j: int| pmul(x(j), w(j * k));
    assert forall|j: int| 0 <= j < n implies #[trigger] f(j) == g(j) by {
        assert(-(-(j * k)) == j * k);
    }
    lemma_psum_same(f, g, n);
}

} // verus!
