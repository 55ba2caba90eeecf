//! Functions of real numbers that a host's functions stand for, where nothing is rounded.
//!
//! A law that speaks of an exponential, a root or a power says of it no more than what
//! stands here: how it grows, and where it is zero or one.

use crate::scalar::Real;
use vstd::prelude::*;

verus! {

use crate::exact::exact_as;
use crate::scalar::{
    at_most_of, below_of, decimal_of, exp_of, greatest_of, powf_of, powi_of, sqrt_of, tanh_of,
    to_byte_of, to_sample_of, to_size_of,
};

/// A power of ten.
pub open spec fn tens(p: nat) -> real
    decreases p,
{
    if p == 0 {
        1real
    } else {
        10real * tens((p - 1) as nat)
    }
}

/// The first powers of ten.
pub proof fn lemma_tens()
    ensures
        tens(1) == 10real,
        tens(2) == 100real,
        tens(3) == 1000real,
        tens(4) == 10000real,
        tens(5) == 100000real,
        tens(6) == 1000000real,
        tens(10) == 10000000000real,
{
    reveal_with_fuel(tens, 11);
}

/// Whether decimals are the numbers that they are written as.
pub open spec fn exact_decimals<S: Real>(v: spec_fn(S) -> real) -> bool {
    &&& exact_as(v)
    &&& forall|n: i64, p: u32|
        #[trigger] v(decimal_of::<S>(n, p)) * tens(p as nat) == n as real
}

/// Whether comparisons compare numbers.
pub open spec fn exact_order<S: Real>(v: spec_fn(S) -> real) -> bool {
    &&& exact_as(v)
    &&& forall|a: S, b: S| #[trigger] below_of(a, b) == (v(a) < v(b))
    &&& forall|a: S, b: S| #[trigger] at_most_of(a, b) == (v(a) <= v(b))
    &&& forall|a: S, b: S|
        #[trigger] v(greatest_of(a, b)) == (if v(a) < v(b) {
            v(b)
        } else {
            v(a)
        })
}

/// Whether square roots are square roots.
pub open spec fn exact_root<S: Real>(v: spec_fn(S) -> real) -> bool {
    &&& exact_as(v)
    &&& forall|x: S|
        v(x) >= 0real ==> v(#[trigger] sqrt_of(x)) >= 0real && v(sqrt_of(x)) * v(sqrt_of(x)) == v(x)
}

/// Whether squares are squares.
pub open spec fn exact_square<S: Real>(v: spec_fn(S) -> real) -> bool {
    &&& exact_as(v)
    &&& forall|x: S| v(#[trigger] powi_of(x, 2i32)) == v(x) * v(x)
}

/// Whether the exponential is `ex`, which grows, is positive, and is one at zero.
pub open spec fn exact_exp<S: Real>(v: spec_fn(S) -> real, ex: spec_fn(real) -> real) -> bool {
    &&& exact_as(v)
    &&& forall|x: S| v(#[trigger] exp_of(x)) == ex(v(x))
    &&& ex(0real) == 1real
    &&& forall|a: real| #[trigger] ex(a) > 0real
    &&& forall|a: real, b: real| a < b ==> #[trigger] ex(a) < #[trigger] ex(b)
}

/// Whether the hyperbolic tangent is `th`, which grows, is odd, and stays between minus one
/// and one.
pub open spec fn exact_tanh<S: Real>(v: spec_fn(S) -> real, th: spec_fn(real) -> real) -> bool {
    &&& exact_as(v)
    &&& forall|x: S| v(#[trigger] tanh_of(x)) == th(v(x))
    &&& th(0real) == 0real
    &&& forall|a: real| #[trigger] th(-a) == -th(a)
    &&& forall|a: real| -1real < #[trigger] th(a) < 1real
    &&& forall|a: real, b: real| a < b ==> #[trigger] th(a) < #[trigger] th(b)
}

/// Whether powers are `pw`: for a positive exponent a power grows with its base, from zero
/// at zero through one at one.
pub open spec fn exact_powf<S: Real>(
    v: spec_fn(S) -> real,
    pw: spec_fn(real, real) -> real,
) -> bool {
    &&& exact_as(v)
    &&& forall|x: S, e: S| v(x) >= 0real ==> v(#[trigger] powf_of(x, e)) == pw(v(x), v(e))
    &&& forall|e: real| e > 0real ==> #[trigger] pw(0real, e) == 0real
    &&& forall|e: real| e > 0real ==> #[trigger] pw(1real, e) == 1real
    &&& forall|a: real, b: real, e: real|
        e > 0real && 0real <= a < b ==> #[trigger] pw(a, e) < #[trigger] pw(b, e)
}

/// Whether a number becomes a byte by dropping its fraction.
pub open spec fn exact_bytes<S: Real>(v: spec_fn(S) -> real) -> bool {
    forall|x: S|
        0real <= v(x) < 256real ==> (#[trigger] to_byte_of(x)) as int as real <= v(x)
            < to_byte_of(x) as int as real + 1real
}

/// Whether a number becomes a count by dropping its fraction.
pub open spec fn exact_sizes<S: Real>(v: spec_fn(S) -> real) -> bool {
    forall|x: S|
        0real <= v(x) < 1000000real ==> (#[trigger] to_size_of(x)) as int as real <= v(x)
            < to_size_of(x) as int as real + 1real
}

/// Whether a number becomes a sample by dropping its fraction.
pub open spec fn exact_samples<S: Real>(v: spec_fn(S) -> real) -> bool {
    forall|x: S|
        -32768real <= v(x) <= 32767real ==> {
            let s = (#[trigger] to_sample_of(x)) as int as real;
            &&& v(x) >= 0real ==> s <= v(x) < s + 1real
            &&& v(x) <= 0real ==> s - 1real < v(x) <= s
        }
}

/// A factor other than zero can be cancelled.
pub proof fn lemma_cancel(a: real, b: real, c: real)
    requires
        a * c == b * c,
        c != 0real,
    ensures
        a == b,
{
    assert((a - b) * c == 0real) by (nonlinear_arith)
        requires
            a * c == b * c,
    ;
    let d = a - b;
    assert(d == 0real) by (nonlinear_arith)
        requires
            d * c == 0real,
            c != 0real,
    ;
}

/// Dividing and multiplying again.
pub proof fn lemma_quotient(a: real, b: real)
    requires
        b != 0real,
    ensures
        (a / b) * b == a,
{
    assert((a / b) * b == a) by (nonlinear_arith)
        requires
            b != 0real,
    ;
}

/// Squares are not negative.
pub proof fn lemma_square(a: real)
    ensures
        a * a >= 0real,
        a != 0real ==> a * a > 0real,
        (-a) * (-a) == a * a,
{
    assert(a * a >= 0real) by (nonlinear_arith);
    if a != 0real {
        assert(a * a > 0real) by (nonlinear_arith)
            requires
                a != 0real,
        ;
    }
    assert((-a) * (-a) == a * a) by (nonlinear_arith);
}

/// Of two numbers that are not negative, the larger one has the larger square.
pub proof fn lemma_square_order(a: real, b: real)
    requires
        a >= 0real,
        b >= 0real,
    ensures
        a < b <==> a * a < b * b,
        a == b <==> a * a == b * b,
{
    if a < b {
        assert(a * a < b * b) by (nonlinear_arith)
            requires
                0real <= a < b,
        ;
    } else if b < a {
        assert(b * b < a * a) by (nonlinear_arith)
            requires
                0real <= b < a,
        ;
    }
}

/// Of two factors of one positive number, the larger gives the larger product.
pub proof fn lemma_times_order(a: real, b: real, c: real)
    requires
        c > 0real,
    ensures
        a < b <==> a * c < b * c,
        a <= b <==> a * c <= b * c,
{
    if a < b {
        assert(a * c < b * c) by (nonlinear_arith)
            requires
                a < b,
                c > 0real,
        ;
    } else if b < a {
        assert(b * c < a * c) by (nonlinear_arith)
            requires
                b < a,
                c > 0real,
        ;
    }
}

/// What scales a product scales one of its factors.
pub proof fn lemma_assoc(a: real, b: real, c: real)
    ensures
        (a * b) * c == a * (b * c),
        (a * b) * c == (a * c) * b,
        a * b == b * a,
{
    assert((a * b) * c == a * (b * c)) by (nonlinear_arith);
    assert((a * b) * c == (a * c) * b) by (nonlinear_arith);
    assert(a * b == b * a) by (nonlinear_arith);
}

/// A product with a sum.
pub proof fn lemma_spread(a: real, b: real, c: real)
    ensures
        a * (b + c) == a * b + a * c,
        (b + c) * a == b * a + c * a,
{
    assert(a * (b + c) == a * b + a * c) by (nonlinear_arith);
    assert((b + c) * a == b * a + c * a) by (nonlinear_arith);
}

/// The root of a square.
pub proof fn lemma_root<S: Real>(v: spec_fn(S) -> real, x: S, r: real)
    requires
        exact_root(v),
        r >= 0real,
        v(x) == r * r,
    ensures
        v(sqrt_of(x)) == r,
{
    lemma_square(r);
    lemma_square_order(v(sqrt_of(x)), r);
}

/// A distance in units of a length.
pub proof fn lemma_scaled(d: real, r: real, h: real)
    requires
        r > 0real,
        h == r * d,
    ensures
        h / r == d,
{
    lemma_quotient(h, r);
    lemma_assoc(r, d, 1real);
    lemma_cancel(h / r, d, r);
}

/// A part of twice a square.
pub proof fn lemma_exponent(x: real, w: real, g: real)
    requires
        w != 0real,
        g * (2real * (w * w)) == x,
    ensures
        x / ((2real * w) * w) == g,
{
    lemma_square(w);
    let c = (2real * w) * w;
    let ww = w * w;
    assert(c == 2real * ww) by (nonlinear_arith)
        requires
            c == (2real * w) * w,
            ww == w * w,
    ;
    lemma_quotient(x, c);
    lemma_cancel(x / c, g, c);
}

} // verus!
