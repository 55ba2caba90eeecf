//! Points of the circle and their angles.

use crate::complex::Complex;
use crate::scalar::Real;
use vstd::prelude::*;

verus! {

use crate::exact::exact_as;
use crate::mace::fft::turn;
use crate::mace::points::{lemma_pmul_assoc, lemma_pmul_simple, pconj, pmul, pt};
use crate::scalar::{
    cos_of, count_of, integer_of, neg_of, over_of, pi_of, sin_of, times_of,
};

/// The point for which a complex number stands.
pub open spec fn val<S: Real>(v: spec_fn(S) -> real, z: Complex<S>) -> (real, real) {
    (v(z.re), v(z.im))
}

/// Whether cosine and sine are what they are named after: they add angles, are even and
/// odd, half a turn leads to the opposite point, and nothing short of a whole turn leads
/// back.
#[verifier::opaque]
pub open spec fn exact_circle<S: Real>(
    v: spec_fn(S) -> real,
    co: spec_fn(real) -> real,
    si: spec_fn(real) -> real,
) -> bool {
    let p = v(pi_of::<S>());
    &&& exact_as(v)
    &&& forall|x: S| #[trigger] v(cos_of(x)) == co(v(x))
    &&& forall|x: S| #[trigger] v(sin_of(x)) == si(v(x))
    &&& forall|a: real, b: real| #[trigger] co(a + b) == co(a) * co(b) - si(a) * si(b)
    &&& forall|a: real, b: real| #[trigger] si(a + b) == si(a) * co(b) + co(a) * si(b)
    &&& forall|a: real| #[trigger] co(-a) == co(a)
    &&& forall|a: real| #[trigger] si(-a) == -si(a)
    &&& co(0real) == 1real
    &&& si(0real) == 0real
    &&& co(p) == -1real
    &&& si(p) == 0real
    &&& p > 0real
    &&& forall|a: real| 0real < a < 2real * p ==> #[trigger] co(a) != 1real
}

/// The point of the circle at an angle.
pub open spec fn on_circle(
    co: spec_fn(real) -> real,
    si: spec_fn(real) -> real,
    a: real,
) -> (real, real) {
    (co(a), si(a))
}

/// One of `n` parts of a whole turn backwards, `p` being half a turn.
pub open spec fn part(p: real, n: int) -> real {
    -(2real * p) / (n as real)
}

/// The angle of `t` of `n` parts of a whole turn backwards.
pub open spec fn angle(p: real, t: int, n: int) -> real {
    (t as real) * part(p, n)
}

/// All parts of a turn make a turn.
pub proof fn lemma_part(p: real, n: int)
    requires
        n > 0,
    ensures
        part(p, n) * (n as real) == -(2real * p),
{
    let c = n as real;
    let x = -(2real * p);
    assert((x / c) * c == x) by (nonlinear_arith)
        requires
            c > 0real,
    ;
}

/// A factor can be dropped from both sides.
pub proof fn lemma_cancel(x: real, y: real, c: real)
    requires
        c > 0real,
        x * c == y * c,
    ensures
        x == y,
{
    let d = x - y;
    assert(d * c == x * c - y * c) by (nonlinear_arith)
        requires
            d == x - y,
    ;
    assert(d == 0real) by (nonlinear_arith)
        requires
            d * c == 0real,
            c > 0real,
    ;
}

/// Two parts of twice as many make one.
pub proof fn lemma_part_half(p: real, m: int)
    requires
        m > 0,
    ensures
        2real * part(p, 2 * m) == part(p, m),
{
    let c = m as real;
    let w = part(p, 2 * m);
    lemma_part(p, m);
    lemma_part(p, 2 * m);
    assert((2 * m) as real == 2real * c);
    assert((2real * w) * c == w * (2real * c)) by (nonlinear_arith);
    lemma_cancel(2real * w, part(p, m), c);
}

/// Angles of parts add up.
pub proof fn lemma_angle_add(p: real, t: int, u: int, n: int)
    requires
        n > 0,
    ensures
        angle(p, t + u, n) == angle(p, t, n) + angle(p, u, n),
{
    let a = t as real;
    let b = u as real;
    let c = part(p, n);
    assert((t + u) as real == a + b);
    assert((a + b) * c == a * c + b * c) by (nonlinear_arith);
}

/// Twice as many parts of half the size make the same angle.
pub proof fn lemma_angle_half(p: real, t: int, m: int)
    requires
        m > 0,
    ensures
        angle(p, 2 * t, 2 * m) == angle(p, t, m),
{
    let a = t as real;
    let w = part(p, 2 * m);
    lemma_part_half(p, m);
    assert((2 * t) as real == 2real * a);
    assert((2real * a) * w == a * (2real * w)) by (nonlinear_arith);
}

/// Points of the circle multiply as their angles add.
pub proof fn lemma_circle_add<S: Real>(
    v: spec_fn(S) -> real,
    co: spec_fn(real) -> real,
    si: spec_fn(real) -> real,
    a: real,
    b: real,
)
    requires
        exact_circle(v, co, si),
    ensures
        on_circle(co, si, a + b) == pmul(on_circle(co, si, a), on_circle(co, si, b)),
{
    reveal(exact_circle);
    reveal(pmul);
    assert(si(a + b) == si(a) * co(b) + co(a) * si(b));
    assert(co(a + b) == co(a) * co(b) - si(a) * si(b));
}

/// Half a turn and no turn.
pub proof fn lemma_circle_marks<S: Real>(
    v: spec_fn(S) -> real,
    co: spec_fn(real) -> real,
    si: spec_fn(real) -> real,
    a: real,
)
    requires
        exact_circle(v, co, si),
    ensures
        exact_as(v),
        v(pi_of::<S>()) > 0real,
        on_circle(co, si, 0real) == pt(1real),
        on_circle(co, si, v(pi_of::<S>())) == pt(-1real),
        on_circle(co, si, -a) == pconj(on_circle(co, si, a)),
{
    reveal(exact_circle);
    assert(co(-a) == co(a));
    assert(si(-a) == -si(a));
}

/// What cosine and sine compute.
pub proof fn lemma_cos_sin<S: Real>(
    v: spec_fn(S) -> real,
    co: spec_fn(real) -> real,
    si: spec_fn(real) -> real,
    x: S,
)
    requires
        exact_circle(v, co, si),
    ensures
        v(cos_of(x)) == co(v(x)),
        v(sin_of(x)) == si(v(x)),
{
    reveal(exact_circle);
}

/// Whole turns lead back.
pub proof fn lemma_whole_turns<S: Real>(
    v: spec_fn(S) -> real,
    co: spec_fn(real) -> real,
    si: spec_fn(real) -> real,
    q: nat,
)
    requires
        exact_circle(v, co, si),
    ensures
        on_circle(co, si, (q as real) * (2real * v(pi_of::<S>()))) == pt(1real),
    decreases q,
{
    let p = v(pi_of::<S>());
    let w = 2real * p;
    lemma_circle_marks(v, co, si, p);
    if q == 0 {
        assert(0real * w == 0real) by (nonlinear_arith);
    } else {
        let r = (q - 1) as nat;
        lemma_whole_turns(v, co, si, r);
        let x = r as real;
        let a = x * w;
        assert(q as real == x + 1real);
        assert((x + 1real) * w == a + w) by (nonlinear_arith)
            requires
                a == x * w,
        ;
        lemma_circle_add(v, co, si, p, p);
        assert(p + p == w);
        lemma_pmul_simple(pt(-1real));
        lemma_circle_add(v, co, si, a, w);
        lemma_pmul_simple(pt(1real));
    }
}

/// An angle of whole turns leads back.
pub proof fn lemma_angle_whole<S: Real>(
    v: spec_fn(S) -> real,
    co: spec_fn(real) -> real,
    si: spec_fn(real) -> real,
    q: int,
    n: int,
)
    requires
        exact_circle(v, co, si),
        n > 0,
    ensures
        on_circle(co, si, angle(v(pi_of::<S>()), q * n, n)) == pt(1real),
{
    let p = v(pi_of::<S>());
    let w = 2real * p;
    let a = q as real;
    let c = n as real;
    let u = part(p, n);
    lemma_part(p, n);
    lemma_product_as_real(q, n);
    assert((a * c) * u == a * (u * c)) by (nonlinear_arith);
    assert(angle(p, q * n, n) == a * (-w));
    if q >= 0 {
        lemma_whole_turns(v, co, si, q as nat);
        assert(a * (-w) == -(a * w)) by (nonlinear_arith);
        lemma_circle_marks(v, co, si, a * w);
        assert(-0real == 0real);
    } else {
        lemma_whole_turns(v, co, si, (-q) as nat);
        assert((-q) as real == -a);
        assert(a * (-w) == (-a) * w) by (nonlinear_arith);
    }
}

/// Less than a whole turn does not lead back.
pub proof fn lemma_short<S: Real>(
    v: spec_fn(S) -> real,
    co: spec_fn(real) -> real,
    si: spec_fn(real) -> real,
    t: int,
    n: int,
)
    requires
        exact_circle(v, co, si),
        0 < t < n,
    ensures
        co(angle(v(pi_of::<S>()), t, n)) != 1real,
{
    let p = v(pi_of::<S>());
    let a = t as real;
    let c = n as real;
    let u = -part(p, n);
    lemma_part(p, n);
    lemma_circle_marks(v, co, si, a * u);
    assert(part(p, n) == -u);
    assert(u * c == -(-u * c)) by (nonlinear_arith);
    assert(u > 0real) by (nonlinear_arith)
        requires
            u * c > 0real,
            c > 0real,
    ;
    assert(a * u > 0real) by (nonlinear_arith)
        requires
            a > 0real,
            u > 0real,
    ;
    assert(a * u < u * c) by (nonlinear_arith)
        requires
            a < c,
            u > 0real,
    ;
    assert(a * -u == -(a * u)) by (nonlinear_arith);
    assert(co(a * u) != 1real) by {
        reveal(exact_circle);
    }
}

/// A product of integers as a product of reals.
pub proof fn lemma_product_as_real(a: int, b: int)
    ensures
        (a * b) as real == (a as real) * (b as real),
    decreases if a >= 0 {
        a
    } else {
        -a
    },
{
    let y = b as real;
    if a == 0 {
        assert(0 * b == 0);
        assert(0real * y == 0real) by (nonlinear_arith);
    } else if a > 0 {
        lemma_product_as_real(a - 1, b);
        let x = (a - 1) as real;
        assert(a * b == (a - 1) * b + b) by (nonlinear_arith);
        assert(a as real == x + 1real);
        assert((x + 1real) * y == x * y + y) by (nonlinear_arith);
    } else {
        lemma_product_as_real(a + 1, b);
        let x = (a + 1) as real;
        assert(a * b == (a + 1) * b - b) by (nonlinear_arith);
        assert(a as real == x - 1real);
        assert((x - 1real) * y == x * y - y) by (nonlinear_arith);
    }
}

/// The factor that joins two transforms is a point of the circle.
pub proof fn lemma_turn<S: Real>(
    v: spec_fn(S) -> real,
    co: spec_fn(real) -> real,
    si: spec_fn(real) -> real,
    h: nat,
    j: int,
)
    requires
        exact_circle(v, co, si),
        0 < h <= usize::MAX,
        0 <= j <= usize::MAX,
    ensures
        val(v, turn::<S>(h, j)) == on_circle(co, si, angle(v(pi_of::<S>()), j, 2 * h as int)),
{
    let p = v(pi_of::<S>());
    let a = h as real;
    let b = j as real;
    let quotient = over_of(neg_of(pi_of::<S>()), count_of::<S>(h as usize));
    let theta = times_of(quotient, count_of::<S>(j as usize));
    lemma_circle_marks(v, co, si, p);
    lemma_cos_sin(v, co, si, theta);
    assert(v(count_of::<S>(h as usize)) == a);
    let x = -p / a;
    assert(v(quotient) == x);
    assert(v(theta) == x * b);
    let w = part(p, 2 * h as int);
    lemma_part(p, 2 * h as int);
    assert((2 * h as int) as real == 2real * a);
    let minus = -p;
    assert((minus / a) * a == minus) by (nonlinear_arith)
        requires
            a > 0real,
    ;
    assert(w * (2real * a) == 2real * (w * a)) by (nonlinear_arith);
    lemma_cancel(x, w, a);
    assert(x * b == b * w) by (nonlinear_arith)
        requires
            x == w,
    ;
    assert(v(integer_of::<S>(1i64)) == 1real);
    let c = co(v(theta));
    let d = si(v(theta));
    assert(v(cos_of(theta)) == c);
    assert(v(sin_of(theta)) == d);
    assert(1real * c == c && 1real * d == d) by (nonlinear_arith);
}

/// One term of a transform, with a factor.
pub proof fn lemma_term<S: Real>(
    v: spec_fn(S) -> real,
    co: spec_fn(real) -> real,
    si: spec_fn(real) -> real,
    x: (real, real),
    t: int,
    u: int,
    n: int,
)
    requires
        exact_circle(v, co, si),
        n > 0,
    ensures
        pmul(
            pmul(x, on_circle(co, si, angle(v(pi_of::<S>()), t, n))),
            on_circle(co, si, angle(v(pi_of::<S>()), u, n)),
        ) == pmul(x, on_circle(co, si, angle(v(pi_of::<S>()), t + u, n))),
{
    let p = v(pi_of::<S>());
    lemma_angle_add(p, t, u, n);
    lemma_circle_add(v, co, si, angle(p, t, n), angle(p, u, n));
    lemma_pmul_assoc(
        x,
        on_circle(co, si, angle(p, t, n)),
        on_circle(co, si, angle(p, u, n)),
    );
}

/// Half a turn leads to the opposite point.
pub proof fn lemma_half_turn<S: Real>(
    v: spec_fn(S) -> real,
    co: spec_fn(real) -> real,
    si: spec_fn(real) -> real,
    m: int,
)
    requires
        exact_circle(v, co, si),
        m > 0,
    ensures
        on_circle(co, si, angle(v(pi_of::<S>()), m, 2 * m)) == pt(-1real),
{
    let p = v(pi_of::<S>());
    let c = m as real;
    let w = part(p, 2 * m);
    lemma_part(p, 2 * m);
    assert((2 * m) as real == 2real * c);
    assert(w * (2real * c) == 2real * (c * w)) by (nonlinear_arith);
    assert(angle(p, m, 2 * m) == -p);
    lemma_circle_marks(v, co, si, p);
    assert(-0real == 0real);
}

} // verus!
