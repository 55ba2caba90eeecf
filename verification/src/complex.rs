//! Complex numbers over the host's arithmetic.

use crate::scalar::Real;
use vstd::prelude::*;

verus! {

use crate::exact::exact_as;
use crate::scalar::{bits_of, functional, integer_of, minus_of, neg_of, plus_of, times_of};

/// A complex number.
pub struct Complex<S> {
    pub re: S,
    pub im: S,
}

impl<S: Copy> Copy for Complex<S> {

}

impl<S: Copy> Clone for Complex<S> {
    fn clone(&self) -> (r: Self)
        ensures
            r == *self,
    {
        *self
    }
}

/// Sum.
pub open spec fn cplus_of<S: Real>(a: Complex<S>, b: Complex<S>) -> Complex<S> {
    Complex { re: plus_of(a.re, b.re), im: plus_of(a.im, b.im) }
}

/// Difference.
pub open spec fn cminus_of<S: Real>(a: Complex<S>, b: Complex<S>) -> Complex<S> {
    Complex { re: minus_of(a.re, b.re), im: minus_of(a.im, b.im) }
}

/// Product.
pub open spec fn ctimes_of<S: Real>(a: Complex<S>, b: Complex<S>) -> Complex<S> {
    Complex {
        re: minus_of(times_of(a.re, b.re), times_of(a.im, b.im)),
        im: plus_of(times_of(a.re, b.im), times_of(a.im, b.re)),
    }
}

/// The number with its imaginary part negated.
pub open spec fn conj_of<S: Real>(a: Complex<S>) -> Complex<S> {
    Complex { re: a.re, im: neg_of(a.im) }
}

impl<S: Real> Complex<S> {
    /// A real number.
    pub fn from_re(re: S) -> (r: Self)
        ensures
            functional::<S>() ==> r == (Complex { re, im: integer_of::<S>(0i64) }),
    {
        Complex { re, im: S::integer(0) }
    }

    /// Sum.
    pub fn plus(self, other: Self) -> (r: Self)
        ensures
            functional::<S>() ==> r == cplus_of(self, other),
    {
        Complex { re: self.re.plus(other.re), im: self.im.plus(other.im) }
    }

    /// Difference.
    pub fn minus(self, other: Self) -> (r: Self)
        ensures
            functional::<S>() ==> r == cminus_of(self, other),
    {
        Complex { re: self.re.minus(other.re), im: self.im.minus(other.im) }
    }

    /// Product.
    pub fn times(self, other: Self) -> (r: Self)
        ensures
            functional::<S>() ==> r == ctimes_of(self, other),
    {
        Complex {
            re: self.re.times(other.re).minus(self.im.times(other.im)),
            im: self.re.times(other.im).plus(self.im.times(other.re)),
        }
    }

    /// The number with its imaginary part negated.
    pub fn conj(self) -> (r: Self)
        ensures
            functional::<S>() ==> r == conj_of(self),
    {
        Complex { re: self.re, im: self.im.neg() }
    }
}

/// Numbers as single-precision words, real part before imaginary part.
pub open spec fn complex_words<S: Real>(data: Seq<Complex<S>>) -> Seq<u32> {
    Seq::new(
        2 * data.len(),
        |i: int|
            if i % 2 == 0 {
                bits_of(data[i / 2].re)
            } else {
                bits_of(data[i / 2].im)
            },
    )
}

/// Numbers as single-precision words.
pub open spec fn real_words<S: Real>(data: Seq<S>) -> Seq<u32> {
    Seq::new(data.len(), |i: int| bits_of(data[i]))
}

/// Packs complex numbers for a buffer.
pub fn pack_complex<S: Real>(data: &[Complex<S>]) -> (words: Vec<u32>)
    ensures
        words@.len() == 2 * data@.len(),
        functional::<S>() ==> words@ == complex_words(data@),
{
    let mut words: Vec<u32> = Vec::new();
    let mut i: usize = 0;
    while i < data.len()
        invariant
            i <= data@.len(),
            words@.len() == 2 * i,
            functional::<S>() ==> words@ == complex_words(data@).take(2 * i as int),
        decreases data@.len() - i,
    {
        words.push(data[i].re.bits());
        words.push(data[i].im.bits());
        proof {
            if functional::<S>() {
                let all = complex_words(data@);
                assert((2 * i) / 2 == i && (2 * i + 1) / 2 == i);
                assert(words@ =~= all.take(2 * (i + 1)));
            }
        }
        i = i + 1;
    }
    assert(complex_words(data@).take(2 * i as int) =~= complex_words(data@));
    words
}

/// Packs real numbers for a buffer.
pub fn pack_real<S: Real>(data: &[S]) -> (words: Vec<u32>)
    ensures
        words@.len() == data@.len(),
        functional::<S>() ==> words@ == real_words(data@),
{
    let mut words: Vec<u32> = Vec::new();
    let mut i: usize = 0;
    while i < data.len()
        invariant
            i <= data@.len(),
            words@.len() == i,
            functional::<S>() ==> words@ == real_words(data@).take(i as int),
        decreases data@.len() - i,
    {
        words.push(data[i].bits());
        assert(functional::<S>() ==> words@ =~= real_words(data@).take(i + 1));
        i = i + 1;
    }
    assert(real_words(data@).take(i as int) =~= real_words(data@));
    words
}

/// Packed complex numbers stand real part before imaginary part, packed real numbers one behind
/// the other, each as its single-precision word.
pub proof fn law_packed_numbers_stand_in_order<S: Real>(
    data: &[Complex<S>],
    words: Vec<u32>,
    plain: &[S],
    list: Vec<u32>,
    i: int,
    j: int,
)
    requires
        functional::<S>(),
        call_ensures(pack_complex::<S>, (data,), words),
        call_ensures(pack_real::<S>, (plain,), list),
        0 <= i < data@.len(),
        0 <= j < plain@.len(),
    ensures
        words@.len() == 2 * data@.len(),
        words@[2 * i] == bits_of(data@[i].re),
        words@[2 * i + 1] == bits_of(data@[i].im),
        list@.len() == plain@.len(),
        list@[j] == bits_of(plain@[j]),
{
    assert((2 * i) % 2 == 0 && (2 * i) / 2 == i);
    assert((2 * i + 1) % 2 == 1 && (2 * i + 1) / 2 == i);
}

/// Complex arithmetic, where arithmetic does not round: real and imaginary parts are added and
/// subtracted by themselves, products are those of numbers whose unit has the square minus one,
/// and a number times its mirror image is the square of its size.
pub proof fn law_complex_arithmetic<S: Real>(
    v: spec_fn(S) -> real,
    a: Complex<S>,
    b: Complex<S>,
    sum: Complex<S>,
    difference: Complex<S>,
    product: Complex<S>,
    mirrored: Complex<S>,
    own: Complex<S>,
)
    requires
        exact_as(v),
        functional::<S>(),
        call_ensures(Complex::<S>::plus, (a, b), sum),
        call_ensures(Complex::<S>::minus, (a, b), difference),
        call_ensures(Complex::<S>::times, (a, b), product),
        call_ensures(Complex::<S>::conj, (a,), mirrored),
        call_ensures(Complex::<S>::times, (a, mirrored), own),
    ensures
        v(sum.re) == v(a.re) + v(b.re) && v(sum.im) == v(a.im) + v(b.im),
        v(difference.re) == v(a.re) - v(b.re) && v(difference.im) == v(a.im) - v(b.im),
        v(mirrored.re) == v(a.re) && v(mirrored.im) == -v(a.im),
        v(own.re) == v(a.re) * v(a.re) + v(a.im) * v(a.im) && v(own.im) == 0real,
        v(product.re) == v(a.re) * v(b.re) - v(a.im) * v(b.im),
        v(product.im) == v(a.re) * v(b.im) + v(a.im) * v(b.re),
{
    let x = v(a.re);
    let y = v(a.im);
    assert(y * (-y) == -(y * y)) by (nonlinear_arith);
    assert(x * (-y) + y * x == 0real) by (nonlinear_arith);
}

} // verus!
