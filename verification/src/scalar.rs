//! The arithmetic that the simulations are written against.
//!
//! A [`Real`] is one floating-point type of the host. Nothing is taken for
//! granted about its operations: where a contract speaks of their results it
//! does so under [`functional`], which says no more than that an operation
//! gives the same result whenever it is given the same operands.

use vstd::prelude::*;

verus! {

/// A floating-point type of the host.
pub trait Real: Copy {
    /// The number closest to an integer.
    fn integer(n: i64) -> Self;

    /// The number closest to a count.
    fn count(n: usize) -> Self;

    /// The number closest to `digits` / 10^`places`.
    fn decimal(digits: i64, places: u32) -> Self;

    /// The number closest to half the circumference of the unit circle.
    fn pi() -> Self;

    /// The number closest to the circumference of the unit circle.
    fn tau() -> Self;

    /// A number above all others.
    fn infinity() -> Self;

    /// The number with the given single-precision bit pattern.
    fn of_bits(w: u32) -> Self;

    /// Sum.
    fn plus(self, other: Self) -> Self;

    /// Difference.
    fn minus(self, other: Self) -> Self;

    /// Product.
    fn times(self, other: Self) -> Self;

    /// Quotient.
    fn over(self, other: Self) -> Self;

    /// Remainder of the quotient truncated towards zero.
    fn rem(self, other: Self) -> Self;

    /// Negation.
    fn neg(self) -> Self;

    /// Integer power.
    fn powi(self, n: i32) -> Self;

    /// Power.
    fn powf(self, e: Self) -> Self;

    /// Exponential.
    fn exp(self) -> Self;

    /// Square root.
    fn sqrt(self) -> Self;

    /// Hyperbolic tangent.
    fn tanh(self) -> Self;

    /// Sine.
    fn sin(self) -> Self;

    /// Cosine.
    fn cos(self) -> Self;

    /// Magnitude.
    fn abs(self) -> Self;

    /// The smaller of two numbers.
    fn least(self, other: Self) -> Self;

    /// The larger of two numbers.
    fn greatest(self, other: Self) -> Self;

    /// The number held between two bounds, `lo` not above `hi`.
    fn clamp(self, lo: Self, hi: Self) -> Self;

    /// Whether this number is less than another.
    fn below(self, other: Self) -> bool;

    /// Whether this number is less than or equal to another.
    fn at_most(self, other: Self) -> bool;

    /// The integer part as a count, held to the range of the type.
    fn to_size(self) -> usize;

    /// The integer part as a byte, held to the range of the type.
    fn to_byte(self) -> u8;

    /// The integer part as a sample, held to the range of the type.
    fn to_sample(self) -> i16;

    /// The single-precision bit pattern.
    fn bits(self) -> u32;
}

/// What [`Real::integer`] gives.
pub open spec fn integer_of<S: Real>(n: i64) -> S {
    choose|r: S| #[trigger] call_ensures(S::integer, (n,), r)
}

/// What [`Real::count`] gives.
pub open spec fn count_of<S: Real>(n: usize) -> S {
    choose|r: S| #[trigger] call_ensures(S::count, (n,), r)
}

/// What [`Real::decimal`] gives.
pub open spec fn decimal_of<S: Real>(digits: i64, places: u32) -> S {
    choose|r: S| #[trigger] call_ensures(S::decimal, (digits, places), r)
}

/// What [`Real::pi`] gives.
pub open spec fn pi_of<S: Real>() -> S {
    choose|r: S| #[trigger] call_ensures(S::pi, (), r)
}

/// What [`Real::tau`] gives.
pub open spec fn tau_of<S: Real>() -> S {
    choose|r: S| #[trigger] call_ensures(S::tau, (), r)
}

/// What [`Real::infinity`] gives.
pub open spec fn infinity_of<S: Real>() -> S {
    choose|r: S| #[trigger] call_ensures(S::infinity, (), r)
}

/// What [`Real::of_bits`] gives.
pub open spec fn of_bits_of<S: Real>(w: u32) -> S {
    choose|r: S| #[trigger] call_ensures(S::of_bits, (w,), r)
}

/// What [`Real::plus`] gives.
pub open spec fn plus_of<S: Real>(x: S, other: S) -> S {
    choose|r: S| #[trigger] call_ensures(S::plus, (x, other), r)
}

/// What [`Real::minus`] gives.
pub open spec fn minus_of<S: Real>(x: S, other: S) -> S {
    choose|r: S| #[trigger] call_ensures(S::minus, (x, other), r)
}

/// What [`Real::times`] gives.
pub open spec fn times_of<S: Real>(x: S, other: S) -> S {
    choose|r: S| #[trigger] call_ensures(S::times, (x, other), r)
}

/// What [`Real::over`] gives.
pub open spec fn over_of<S: Real>(x: S, other: S) -> S {
    choose|r: S| #[trigger] call_ensures(S::over, (x, other), r)
}

/// What [`Real::rem`] gives.
pub open spec fn rem_of<S: Real>(x: S, other: S) -> S {
    choose|r: S| #[trigger] call_ensures(S::rem, (x, other), r)
}

/// What [`Real::neg`] gives.
pub open spec fn neg_of<S: Real>(x: S) -> S {
    choose|r: S| #[trigger] call_ensures(S::neg, (x,), r)
}

/// What [`Real::powi`] gives.
pub open spec fn powi_of<S: Real>(x: S, n: i32) -> S {
    choose|r: S| #[trigger] call_ensures(S::powi, (x, n), r)
}

/// What [`Real::powf`] gives.
pub open spec fn powf_of<S: Real>(x: S, e: S) -> S {
    choose|r: S| #[trigger] call_ensures(S::powf, (x, e), r)
}

/// What [`Real::exp`] gives.
pub open spec fn exp_of<S: Real>(x: S) -> S {
    choose|r: S| #[trigger] call_ensures(S::exp, (x,), r)
}

/// What [`Real::sqrt`] gives.
pub open spec fn sqrt_of<S: Real>(x: S) -> S {
    choose|r: S| #[trigger] call_ensures(S::sqrt, (x,), r)
}

/// What [`Real::tanh`] gives.
pub open spec fn tanh_of<S: Real>(x: S) -> S {
    choose|r: S| #[trigger] call_ensures(S::tanh, (x,), r)
}

/// What [`Real::sin`] gives.
pub open spec fn sin_of<S: Real>(x: S) -> S {
    choose|r: S| #[trigger] call_ensures(S::sin, (x,), r)
}

/// What [`Real::cos`] gives.
pub open spec fn cos_of<S: Real>(x: S) -> S {
    choose|r: S| #[trigger] call_ensures(S::cos, (x,), r)
}

/// What [`Real::abs`] gives.
pub open spec fn abs_of<S: Real>(x: S) -> S {
    choose|r: S| #[trigger] call_ensures(S::abs, (x,), r)
}

/// What [`Real::least`] gives.
pub open spec fn least_of<S: Real>(x: S, other: S) -> S {
    choose|r: S| #[trigger] call_ensures(S::least, (x, other), r)
}

/// What [`Real::greatest`] gives.
pub open spec fn greatest_of<S: Real>(x: S, other: S) -> S {
    choose|r: S| #[trigger] call_ensures(S::greatest, (x, other), r)
}

/// What [`Real::clamp`] gives.
pub open spec fn clamp_of<S: Real>(x: S, lo: S, hi: S) -> S {
    choose|r: S| #[trigger] call_ensures(S::clamp, (x, lo, hi), r)
}

/// What [`Real::below`] gives.
pub open spec fn below_of<S: Real>(x: S, other: S) -> bool {
    choose|r: bool| #[trigger] call_ensures(S::below, (x, other), r)
}

/// What [`Real::at_most`] gives.
pub open spec fn at_most_of<S: Real>(x: S, other: S) -> bool {
    choose|r: bool| #[trigger] call_ensures(S::at_most, (x, other), r)
}

/// What [`Real::to_size`] gives.
pub open spec fn to_size_of<S: Real>(x: S) -> usize {
    choose|r: usize| #[trigger] call_ensures(S::to_size, (x,), r)
}

/// What [`Real::to_byte`] gives.
pub open spec fn to_byte_of<S: Real>(x: S) -> u8 {
    choose|r: u8| #[trigger] call_ensures(S::to_byte, (x,), r)
}

/// What [`Real::to_sample`] gives.
pub open spec fn to_sample_of<S: Real>(x: S) -> i16 {
    choose|r: i16| #[trigger] call_ensures(S::to_sample, (x,), r)
}

/// What [`Real::bits`] gives.
pub open spec fn bits_of<S: Real>(x: S) -> u32 {
    choose|r: u32| #[trigger] call_ensures(S::bits, (x,), r)
}

/// Whether every operation gives equal results for equal operands.
pub open spec fn functional<S: Real>() -> bool {
    &&& forall|n: i64, r: S| #[trigger] call_ensures(S::integer, (n,), r) ==> r == integer_of::<S>(n)
    &&& forall|n: usize, r: S| #[trigger] call_ensures(S::count, (n,), r) ==> r == count_of::<S>(n)
    &&& forall|digits: i64, places: u32, r: S| #[trigger] call_ensures(S::decimal, (digits, places), r) ==> r == decimal_of::<S>(digits, places)
    &&& forall|r: S| #[trigger] call_ensures(S::pi, (), r) ==> r == pi_of::<S>()
    &&& forall|r: S| #[trigger] call_ensures(S::tau, (), r) ==> r == tau_of::<S>()
    &&& forall|r: S| #[trigger] call_ensures(S::infinity, (), r) ==> r == infinity_of::<S>()
    &&& forall|w: u32, r: S| #[trigger] call_ensures(S::of_bits, (w,), r) ==> r == of_bits_of::<S>(w)
    &&& forall|x: S, other: S, r: S| #[trigger] call_ensures(S::plus, (x, other), r) ==> r == plus_of::<S>(x, other)
    &&& forall|x: S, other: S, r: S| #[trigger] call_ensures(S::minus, (x, other), r) ==> r == minus_of::<S>(x, other)
    &&& forall|x: S, other: S, r: S| #[trigger] call_ensures(S::times, (x, other), r) ==> r == times_of::<S>(x, other)
    &&& forall|x: S, other: S, r: S| #[trigger] call_ensures(S::over, (x, other), r) ==> r == over_of::<S>(x, other)
    &&& forall|x: S, other: S, r: S| #[trigger] call_ensures(S::rem, (x, other), r) ==> r == rem_of::<S>(x, other)
    &&& forall|x: S, r: S| #[trigger] call_ensures(S::neg, (x,), r) ==> r == neg_of::<S>(x)
    &&& forall|x: S, n: i32, r: S| #[trigger] call_ensures(S::powi, (x, n), r) ==> r == powi_of::<S>(x, n)
    &&& forall|x: S, e: S, r: S| #[trigger] call_ensures(S::powf, (x, e), r) ==> r == powf_of::<S>(x, e)
    &&& forall|x: S, r: S| #[trigger] call_ensures(S::exp, (x,), r) ==> r == exp_of::<S>(x)
    &&& forall|x: S, r: S| #[trigger] call_ensures(S::sqrt, (x,), r) ==> r == sqrt_of::<S>(x)
    &&& forall|x: S, r: S| #[trigger] call_ensures(S::tanh, (x,), r) ==> r == tanh_of::<S>(x)
    &&& forall|x: S, r: S| #[trigger] call_ensures(S::sin, (x,), r) ==> r == sin_of::<S>(x)
    &&& forall|x: S, r: S| #[trigger] call_ensures(S::cos, (x,), r) ==> r == cos_of::<S>(x)
    &&& forall|x: S, r: S| #[trigger] call_ensures(S::abs, (x,), r) ==> r == abs_of::<S>(x)
    &&& forall|x: S, other: S, r: S| #[trigger] call_ensures(S::least, (x, other), r) ==> r == least_of::<S>(x, other)
    &&& forall|x: S, other: S, r: S| #[trigger] call_ensures(S::greatest, (x, other), r) ==> r == greatest_of::<S>(x, other)
    &&& forall|x: S, lo: S, hi: S, r: S| #[trigger] call_ensures(S::clamp, (x, lo, hi), r) ==> r == clamp_of::<S>(x, lo, hi)
    &&& forall|x: S, other: S, r: bool| #[trigger] call_ensures(S::below, (x, other), r) ==> r == below_of::<S>(x, other)
    &&& forall|x: S, other: S, r: bool| #[trigger] call_ensures(S::at_most, (x, other), r) ==> r == at_most_of::<S>(x, other)
    &&& forall|x: S, r: usize| #[trigger] call_ensures(S::to_size, (x,), r) ==> r == to_size_of::<S>(x)
    &&& forall|x: S, r: u8| #[trigger] call_ensures(S::to_byte, (x,), r) ==> r == to_byte_of::<S>(x)
    &&& forall|x: S, r: i16| #[trigger] call_ensures(S::to_sample, (x,), r) ==> r == to_sample_of::<S>(x)
    &&& forall|x: S, r: u32| #[trigger] call_ensures(S::bits, (x,), r) ==> r == bits_of::<S>(x)
}

} // verus!
