//! Fourier transforms of rows and planes whose lengths are powers of two.

use crate::complex::Complex;
use crate::field::{list_from, Plane};
use crate::scalar::Real;
use vstd::prelude::*;

verus! {

use crate::complex::{cminus_of, conj_of, cplus_of, ctimes_of};
use crate::scalar::{cos_of, count_of, functional, integer_of, neg_of, over_of, pi_of, sin_of, times_of};
use crate::twiddle::{law_reversal_is_involution, lemma_reversed_bound, reversed};
use vstd::arithmetic::power::pow;
use vstd::arithmetic::power2::{
    is_pow2, is_pow2_equiv, lemma2_to64, lemma_pow2_pos, lemma_pow2_unfold, pow2,
};

/// The number of a magnitude at an angle.
pub open spec fn polar_of<S: Real>(r: S, theta: S) -> Complex<S> {
    Complex { re: times_of(r, cos_of(theta)), im: times_of(r, sin_of(theta)) }
}

/// Adds two complex numbers.
pub fn cadd<S: Real>(a: Complex<S>, b: Complex<S>) -> (r: Complex<S>)
    ensures
        functional::<S>() ==> r == cplus_of(a, b),
{
    a.plus(b)
}

/// Subtracts two complex numbers.
pub fn csub<S: Real>(a: Complex<S>, b: Complex<S>) -> (r: Complex<S>)
    ensures
        functional::<S>() ==> r == cminus_of(a, b),
{
    a.minus(b)
}

/// Multiplies two complex numbers.
pub fn cmul<S: Real>(a: Complex<S>, b: Complex<S>) -> (r: Complex<S>)
    ensures
        functional::<S>() ==> r == ctimes_of(a, b),
{
    a.times(b)
}

/// Makes a complex number from polar coordinates.
pub fn cfrom_polar<S: Real>(r: S, theta: S) -> (z: Complex<S>)
    ensures
        functional::<S>() ==> z == polar_of(r, theta),
{
    Complex { re: r.times(theta.cos()), im: r.times(theta.sin()) }
}

/// The factor that joins entry `j` of two transforms of `half` entries.
pub open spec fn turn<S: Real>(half: nat, j: int) -> Complex<S> {
    polar_of(
        integer_of::<S>(1i64),
        times_of(
            over_of(neg_of(pi_of::<S>()), count_of::<S>(half as usize)),
            count_of::<S>(j as usize),
        ),
    )
}

/// The entries at even places.
pub open spec fn evens<T>(s: Seq<T>) -> Seq<T> {
    Seq::new(s.len() / 2, |t: int| s[2 * t])
}

/// The entries at odd places.
pub open spec fn odds<T>(s: Seq<T>) -> Seq<T> {
    Seq::new(s.len() / 2, |t: int| s[2 * t + 1])
}

/// The transform whose even and odd entries have the given transforms.
pub open spec fn merged<S: Real>(e: Seq<Complex<S>>, o: Seq<Complex<S>>) -> Seq<Complex<S>> {
    let h = e.len();
    Seq::new(
        2 * h,
        |k: int|
            if k < h {
                cplus_of(e[k], ctimes_of(o[k], turn::<S>(h, k)))
            } else {
                cminus_of(e[k - h], ctimes_of(o[k - h], turn::<S>(h, k - h)))
            },
    )
}

/// The forward transform of a row, by halves.
pub open spec fn fft_of<S: Real>(s: Seq<Complex<S>>) -> Seq<Complex<S>>
    decreases s.len(),
{
    if s.len() <= 1 {
        s
    } else {
        merged(fft_of(evens(s)), fft_of(odds(s)))
    }
}

/// Every `stride`-th entry from `from` on.
pub open spec fn strided<T>(s: Seq<T>, from: int, stride: int, len: nat) -> Seq<T> {
    Seq::new(len, |t: int| s[from + stride * t])
}

/// The number of bits below a power of two.
pub proof fn lemma_bits(n: nat) -> (bits: nat)
    requires
        is_pow2(n as int),
    ensures
        n == pow2(bits),
{
    is_pow2_equiv(n as int);
    choose|b: nat| pow(2, b) == n
}

/// A transform has as many entries as its row.
pub proof fn lemma_fft_len<S: Real>(s: Seq<Complex<S>>, bits: nat)
    requires
        s.len() == pow2(bits),
    ensures
        fft_of(s).len() == s.len(),
    decreases bits,
{
    lemma2_to64();
    if bits > 0 {
        lemma_pow2_unfold(bits);
        lemma_fft_len(evens(s), (bits - 1) as nat);
        lemma_fft_len(odds(s), (bits - 1) as nat);
        lemma_pow2_pos((bits - 1) as nat);
    }
}

/// The halves of a strided row are strided rows.
proof fn lemma_strided_halves<T>(s: Seq<T>, from: int, stride: int, len: nat)
    ensures
        evens(strided(s, from, stride, 2 * len)) == strided(s, from, 2 * stride, len),
        odds(strided(s, from, stride, 2 * len)) == strided(s, from + stride, 2 * stride, len),
{
    let whole = strided(s, from, stride, 2 * len);
    assert forall|t: int| 0 <= t < len implies #[trigger] evens(whole)[t] == strided(
        s,
        from,
        2 * stride,
        len,
    )[t] by {
        assert(stride * (2 * t) == (2 * stride) * t) by (nonlinear_arith);
    }
    assert forall|t: int| 0 <= t < len implies #[trigger] odds(whole)[t] == strided(
        s,
        from + stride,
        2 * stride,
        len,
    )[t] by {
        assert(stride * (2 * t + 1) == stride + (2 * stride) * t) by (nonlinear_arith);
    }
    assert(evens(whole) =~= strided(s, from, 2 * stride, len));
    assert(odds(whole) =~= strided(s, from + stride, 2 * stride, len));
}

/// The bits of `i` below a power of two, in reverse order.
fn reverse_below(n: usize, i: usize, Ghost(bits): Ghost<nat>) -> (r: usize)
    requires
        n == pow2(bits),
    ensures
        r == reversed(bits, i as nat),
        r < n,
    decreases bits,
{
    proof {
        lemma2_to64();
        lemma_reversed_bound(bits, i as nat);
        if bits > 0 {
            lemma_pow2_unfold(bits);
            lemma_pow2_pos((bits - 1) as nat);
        }
    }
    if n == 1 {
        0
    } else {
        let rest: usize = reverse_below(n / 2, i / 2, Ghost((bits - 1) as nat));
        if i % 2 == 0 {
            assert(0 * pow2((bits - 1) as nat) == 0);
            rest
        } else {
            assert(1 * pow2((bits - 1) as nat) == pow2((bits - 1) as nat));
            n / 2 + rest
        }
    }
}

/// Puts every entry at the place with the reverse of its bits.
fn permute<T: Copy>(data: &mut Vec<T>, Ghost(bits): Ghost<nat>)
    requires
        old(data)@.len() == pow2(bits),
    ensures
        final(data)@.len() == old(data)@.len(),
        forall|i: int|
            0 <= i < final(data)@.len() ==> #[trigger] final(data)@[i] == old(data)@[reversed(
                bits,
                i as nat,
            ) as int],
{
    let n: usize = data.len();
    let ghost s = data@;
    let mut i: usize = 0;
    while i < n
        invariant
            i <= n,
            n == pow2(bits),
            n == s.len(),
            data@.len() == n,
            forall|k: int|
                0 <= k < n ==> #[trigger] data@[k] == (if k < i || reversed(bits, k as nat) < i {
                    s[reversed(bits, k as nat) as int]
                } else {
                    s[k]
                }),
        decreases n - i,
    {
        let j: usize = reverse_below(n, i, Ghost(bits));
        let ghost before = data@;
        if i < j {
            let a = data[i];
            let b = data[j];
            data.set(i, b);
            data.set(j, a);
        }
        proof {
            assert forall|k: int| 0 <= k < n implies #[trigger] data@[k] == (if k < i + 1
                || reversed(bits, k as nat) < i + 1 {
                s[reversed(bits, k as nat) as int]
            } else {
                s[k]
            }) by {
                law_reversal_is_involution(bits, k as nat);
                law_reversal_is_involution(bits, i as nat);
                assert(before[k] == (if k < i || reversed(bits, k as nat) < i {
                    s[reversed(bits, k as nat) as int]
                } else {
                    s[k]
                }));
                assert(before[i as int] == (if reversed(bits, i as nat) < i {
                    s[reversed(bits, i as nat) as int]
                } else {
                    s[i as int]
                }));
                assert(before[j as int] == (if j < i || reversed(bits, j as nat) < i {
                    s[reversed(bits, j as nat) as int]
                } else {
                    s[j as int]
                }));
            }
        }
        i = i + 1;
    }
}

/// Joins the transforms of `half` entries at `i` and behind it.
fn join<S: Real>(data: &mut Vec<Complex<S>>, i: usize, half: usize)
    requires
        0 < half,
        i + 2 * half <= old(data)@.len(),
    ensures
        final(data)@.len() == old(data)@.len(),
        forall|k: int|
            0 <= k < old(data)@.len() && !(i <= k < i + 2 * half) ==> #[trigger] final(data)@[k]
                == old(data)@[k],
        functional::<S>() ==> final(data)@.subrange(i as int, i + 2 * half) == merged(
            old(data)@.subrange(i as int, i + half),
            old(data)@.subrange(i + half, i + 2 * half),
        ),
{
    let ghost s = data@;
    let ghost e = s.subrange(i as int, i + half);
    let ghost o = s.subrange(i + half, i + 2 * half);
    let angle = S::pi().neg().over(S::count(half));
    let n: usize = data.len();
    let mut j: usize = 0;
    while j < half
        invariant
            j <= half,
            0 < half,
            i + 2 * half <= n,
            n == s.len(),
            data@.len() == n,
            e == s.subrange(i as int, i + half),
            o == s.subrange(i + half, i + 2 * half),
            functional::<S>() ==> angle == over_of(neg_of(pi_of::<S>()), count_of::<S>(half)),
            forall|k: int|
                0 <= k < n && !(i <= k < i + j) && !(i + half <= k < i + half + j)
                    ==> #[trigger] data@[k] == s[k],
            functional::<S>() ==> forall|k: int|
                i <= k < i + j || i + half <= k < i + half + j ==> #[trigger] data@[k] == merged(
                    e,
                    o,
                )[k - i],
        decreases half - j,
    {
        let w = cfrom_polar(S::integer(1), angle.times(S::count(j)));
        let u = data[i + j];
        let v = cmul(data[i + j + half], w);
        data.set(i + j, cadd(u, v));
        data.set(i + j + half, csub(u, v));
        proof {
            if functional::<S>() {
                assert(w == turn::<S>(half as nat, j as int));
                assert(u == e[j as int]);
                assert(s[i + j + half] == o[j as int]);
                assert(data@[i + j] == merged(e, o)[j as int]);
                assert(data@[i + j + half] == merged(e, o)[j + half]);
            }
        }
        j = j + 1;
    }
    proof {
        if functional::<S>() {
            assert forall|k: int| 0 <= k < 2 * half implies data@.subrange(
                i as int,
                i + 2 * half,
            )[k] == merged(e, o)[k] by {
                assert(data@[i + k] == merged(e, o)[i + k - i]);
            }
            assert(data@.subrange(i as int, i + 2 * half) =~= merged(e, o));
        }
    }
}

/// Block `b` of `len` entries.
pub open spec fn block<T>(s: Seq<T>, b: int, len: int) -> Seq<T> {
    s.subrange(b * len, b * len + len)
}

/// Joins every two neighbouring transforms of `half` entries.
fn join_all<S: Real>(data: &mut Vec<Complex<S>>, half: usize, Ghost(count): Ghost<nat>)
    requires
        0 < half,
        old(data)@.len() == count * (2 * half),
    ensures
        final(data)@.len() == old(data)@.len(),
        functional::<S>() ==> forall|b: int|
            0 <= b < count ==> #[trigger] block(final(data)@, b, 2 * half) == merged(
                block(old(data)@, 2 * b, half as int),
                block(old(data)@, 2 * b + 1, half as int),
            ),
{
    let n: usize = data.len();
    let ghost s = data@;
    let mut i: usize = 0;
    let ghost mut done: int = 0;
    let ghost len: int = 2 * half;
    proof {
        assert(0 * len == 0) by (nonlinear_arith);
    }
    while i < n
        invariant
            0 < half,
            len == 2 * half,
            n == count * len,
            n == s.len(),
            data@.len() == n,
            0 <= done <= count,
            i == done * len,
            forall|k: int| i <= k < n ==> #[trigger] data@[k] == s[k],
            functional::<S>() ==> forall|b: int|
                0 <= b < done ==> #[trigger] block(data@, b, len) == merged(
                    block(s, 2 * b, half as int),
                    block(s, 2 * b + 1, half as int),
                ),
        decreases n - i,
    {
        proof {
            assert(done < count && done * len + len <= count * len) by (nonlinear_arith)
                requires
                    done * len < count * len,
                    len > 0,
            ;
        }
        let ghost before = data@;
        join(data, i, half);
        proof {
            if functional::<S>() {
                let h = half as int;
                assert((2 * done) * h == done * len && (2 * done + 1) * h == done * len + h)
                    by (nonlinear_arith)
                    requires
                        len == 2 * h,
                ;
                assert(block(s, 2 * done, h) =~= before.subrange(i as int, i + half));
                assert(block(s, 2 * done + 1, h) =~= before.subrange(i + half, i + 2 * half));
                assert forall|b: int| 0 <= b < done + 1 implies #[trigger] block(data@, b, len)
                    == merged(block(s, 2 * b, h), block(s, 2 * b + 1, h)) by {
                    if b < done {
                        assert(0 <= b * len && b * len + len <= done * len) by (nonlinear_arith)
                            requires
                                0 <= b < done,
                                len > 0,
                        ;
                        assert(block(data@, b, len) =~= block(before, b, len));
                    }
                }
            }
            assert((done + 1) * len == done * len + len) by (nonlinear_arith);
            done = done + 1;
        }
        i = i + 2 * half;
    }
    proof {
        assert(done == count) by (nonlinear_arith)
            requires
                done * len >= count * len,
                done <= count,
                len > 0,
        ;
    }
}

/// Transforms a row in place.
///
/// The output is in the order of frequency. Exponents are negative.
pub fn fft_1d<S: Real>(data: &mut Vec<Complex<S>>)
    requires
        is_pow2(old(data)@.len() as int),
    ensures
        final(data)@.len() == old(data)@.len(),
        functional::<S>() ==> final(data)@ == fft_of(old(data)@),
{
    let n: usize = data.len();
    let ghost s = data@;
    let ghost bits: nat = lemma_bits(n as nat);
    permute(data, Ghost(bits));
    let mut len: usize = 1;
    let ghost mut rest: nat = bits;
    proof {
        lemma_pow2_pos(bits);
        assert(n == pow2(rest) * 1);
        assert forall|b: int| 0 <= b < pow2(rest) implies #[trigger] block(data@, b, 1) == fft_of(
            strided(s, reversed(rest, b as nat) as int, pow2(rest) as int, 1),
        ) by {
            let one = strided(s, reversed(rest, b as nat) as int, pow2(rest) as int, 1);
            assert(b * 1 == b);
            assert(pow2(rest) * 0 == 0);
            assert(data@[b] == s[reversed(rest, b as nat) as int]);
            assert(block(data@, b, 1) =~= one);
        }
    }
    while len < n
        invariant
            0 < len <= n,
            n == s.len(),
            data@.len() == n,
            n == pow2(rest) * len,
            functional::<S>() ==> forall|b: int|
                0 <= b < pow2(rest) ==> #[trigger] block(data@, b, len as int) == fft_of(
                    strided(s, reversed(rest, b as nat) as int, pow2(rest) as int, len as nat),
                ),
        decreases n - len,
    {
        let half: usize = len;
        let ghost next = (rest - 1) as nat;
        let ghost before = data@;
        proof {
            lemma2_to64();
            if rest == 0 {
                assert(pow2(rest) * len == len) by (nonlinear_arith)
                    requires
                        pow2(rest) == 1,
                ;
            }
            lemma_pow2_unfold(rest);
            lemma_pow2_pos(next);
            let p = pow2(next) as int;
            let l = len as int;
            assert((2 * p) * l == p * (2 * l)) by (nonlinear_arith);
            assert(2 * l <= p * (2 * l)) by (nonlinear_arith)
                requires
                    p >= 1,
                    l > 0,
            ;
        }
        join_all(data, half, Ghost(pow2(next)));
        len = 2 * half;
        proof {
            if functional::<S>() {
                assert forall|b: int| 0 <= b < pow2(next) implies #[trigger] block(
                    data@,
                    b,
                    len as int,
                ) == fft_of(
                    strided(s, reversed(next, b as nat) as int, pow2(next) as int, len as nat),
                ) by {
                    let from = reversed(next, b as nat) as int;
                    let p = pow2(next) as int;
                    let whole = strided(s, from, p, len as nat);
                    lemma_strided_halves(s, from, p, half as nat);
                    assert((2 * b) as nat % 2 == 0 && (2 * b) as nat / 2 == b as nat);
                    assert((2 * b + 1) as nat % 2 == 1 && (2 * b + 1) as nat / 2 == b as nat);
                    assert(0 * pow2(next) == 0 && 1 * pow2(next) == pow2(next));
                    assert(reversed(rest, (2 * b) as nat) == from);
                    assert(reversed(rest, (2 * b + 1) as nat) == p + from);
                    assert(block(before, 2 * b, half as int) == fft_of(evens(whole)));
                    assert(block(before, 2 * b + 1, half as int) == fft_of(odds(whole)));
                    assert(whole.len() == len && len >= 2);
                }
            }
            rest = next;
        }
    }
    proof {
        assert(pow2(rest) == 1) by (nonlinear_arith)
            requires
                n == pow2(rest) * len,
                len == n,
                n > 0,
        ;
        if functional::<S>() {
            lemma_reversed_bound(rest, 0);
            assert(block(data@, 0, n as int) == fft_of(strided(s, 0, 1, n as nat)));
            assert(0 * n == 0);
            assert(block(data@, 0, n as int) =~= data@);
            assert(strided(s, 0, 1, n as nat) =~= s);
        }
    }
}

/// A row with its imaginary parts negated.
pub open spec fn conj_all<S: Real>(s: Seq<Complex<S>>) -> Seq<Complex<S>> {
    Seq::new(s.len(), |t: int| conj_of(s[t]))
}

/// A number with its imaginary part negated, divided.
pub open spec fn conj_over<S: Real>(x: Complex<S>, n: S) -> Complex<S> {
    Complex { re: over_of(x.re, n), im: over_of(neg_of(x.im), n) }
}

/// The inverse transform of a row: conjugate, transform, conjugate and scale.
pub open spec fn ifft_of<S: Real>(s: Seq<Complex<S>>) -> Seq<Complex<S>> {
    Seq::new(
        s.len(),
        |t: int| conj_over(fft_of(conj_all(s))[t], count_of::<S>(s.len() as usize)),
    )
}

/// Transforms a row back in place.
pub fn ifft_1d<S: Real>(data: &mut Vec<Complex<S>>)
    requires
        is_pow2(old(data)@.len() as int),
    ensures
        final(data)@.len() == old(data)@.len(),
        functional::<S>() ==> final(data)@ == ifft_of(old(data)@),
{
    let len: usize = data.len();
    let ghost s = data@;
    let mut i: usize = 0;
    while i < len
        invariant
            i <= len,
            len == s.len(),
            data@.len() == len,
            forall|t: int| i <= t < len ==> #[trigger] data@[t] == s[t],
            functional::<S>() ==> forall|t: int|
                0 <= t < i ==> #[trigger] data@[t] == conj_of(s[t]),
        decreases len - i,
    {
        data.set(i, data[i].conj());
        i = i + 1;
    }
    assert(functional::<S>() ==> data@ =~= conj_all(s));
    fft_1d(data);
    let n = S::count(len);
    let ghost mid = data@;
    i = 0;
    while i < len
        invariant
            i <= len,
            len == mid.len(),
            data@.len() == len,
            functional::<S>() ==> n == count_of::<S>(len),
            forall|t: int| i <= t < len ==> #[trigger] data@[t] == mid[t],
            functional::<S>() ==> forall|t: int|
                0 <= t < i ==> #[trigger] data@[t] == conj_over(mid[t], n),
        decreases len - i,
    {
        let x = data[i];
        data.set(i, Complex { re: x.re.over(n), im: x.im.neg().over(n) });
        i = i + 1;
    }
    assert(functional::<S>() ==> data@ =~= ifft_of(s));
}

/// A row transformed one way or the other.
pub open spec fn line_of<S: Real>(inverse: bool, s: Seq<Complex<S>>) -> Seq<Complex<S>> {
    if inverse {
        ifft_of(s)
    } else {
        fft_of(s)
    }
}

/// The entries of a plane.
pub open spec fn plane_fn<T>(g: &Plane<T>) -> spec_fn(int, int) -> T {
    |i: int, j: int| g.at(i, j)
}

/// A square plane with its rows transformed.
pub open spec fn rows_of<S: Real>(
    inverse: bool,
    f: spec_fn(int, int) -> Complex<S>,
    n: nat,
) -> spec_fn(int, int) -> Complex<S> {
    |i: int, j: int| line_of(inverse, Seq::new(n, |c: int| f(i, c)))[j]
}

/// A square plane with its rows, then its columns transformed.
pub open spec fn plane_of<S: Real>(
    inverse: bool,
    f: spec_fn(int, int) -> Complex<S>,
    n: nat,
) -> spec_fn(int, int) -> Complex<S> {
    |i: int, j: int|
        line_of(inverse, Seq::new(n, |r: int| rows_of(inverse, f, n)(r, j)))[i]
}

/// Whether a plane is a square that can be transformed.
pub open spec fn is_grid<T>(g: &Plane<T>, n: int) -> bool {
    g.wf() && g.rows == n && g.cols == n && is_pow2(n)
}

/// Transforms a row one way or the other.
fn transform<S: Real>(inverse: bool, data: &mut Vec<Complex<S>>)
    requires
        is_pow2(old(data)@.len() as int),
    ensures
        final(data)@.len() == old(data)@.len(),
        functional::<S>() ==> final(data)@ == line_of(inverse, old(data)@),
{
    if inverse {
        ifft_1d(data);
    } else {
        fft_1d(data);
    }
}

/// Transforms rows, then columns.
fn transform_plane<S: Real>(inverse: bool, grid: &Plane<Complex<S>>) -> (out: Plane<Complex<S>>)
    requires
        is_grid(grid, grid.rows as int),
    ensures
        is_grid(&out, grid.rows as int),
        functional::<S>() ==> forall|i: int, j: int|
            out.has(i, j) ==> #[trigger] out.at(i, j) == plane_of(
                inverse,
                plane_fn(grid),
                grid.rows as nat,
            )(i, j),
{
    let n: usize = grid.rows;
    let ghost f = plane_fn(grid);
    let mut rows: Vec<Vec<Complex<S>>> = Vec::new();
    let mut r: usize = 0;
    while r < n
        invariant
            r <= n,
            n == grid.rows,
            is_grid(grid, n as int),
            f == plane_fn(grid),
            rows@.len() == r,
            forall|i: int| 0 <= i < r ==> (#[trigger] rows@[i])@.len() == n,
            functional::<S>() ==> forall|i: int, j: int|
                0 <= i < r && 0 <= j < n ==> #[trigger] rows@[i]@[j] == rows_of(
                    inverse,
                    f,
                    n as nat,
                )(i, j),
        decreases n - r,
    {
        let entry = |c: usize| -> (x: Complex<S>)
            requires
                grid.wf(),
                grid.has(r as int, c as int),
            ensures
                x == grid.at(r as int, c as int),
            { grid.get(r, c) };
        let mut row = list_from(n, entry);
        proof {
            assert forall|c: int| 0 <= c < n implies row@[c] == f(r as int, c) by {
                assert(call_ensures(entry, (c as usize,), row@[c]));
            }
            assert(row@ =~= Seq::new(n as nat, |c: int| f(r as int, c)));
        }
        transform(inverse, &mut row);
        let ghost had = rows@;
        rows.push(row);
        proof {
            if functional::<S>() {
                assert forall|i: int, j: int|
                    0 <= i < r + 1 && 0 <= j < n implies #[trigger] rows@[i]@[j] == rows_of(
                    inverse,
                    f,
                    n as nat,
                )(i, j) by {
                    if i < r {
                        assert(rows@[i] == had[i]);
                        assert(had[i]@[j] == rows_of(inverse, f, n as nat)(i, j));
                    }
                }
            }
        }
        r = r + 1;
    }
    let rs = &rows;
    let mut cols: Vec<Vec<Complex<S>>> = Vec::new();
    let mut c: usize = 0;
    while c < n
        invariant
            c <= n,
            n == grid.rows,
            is_grid(grid, n as int),
            rs@.len() == n,
            forall|i: int| 0 <= i < n ==> (#[trigger] rs@[i])@.len() == n,
            functional::<S>() ==> forall|i: int, j: int|
                0 <= i < n && 0 <= j < n ==> #[trigger] rs@[i]@[j] == rows_of(
                    inverse,
                    f,
                    n as nat,
                )(i, j),
            cols@.len() == c,
            forall|j: int| 0 <= j < c ==> (#[trigger] cols@[j])@.len() == n,
            functional::<S>() ==> forall|j: int, i: int|
                0 <= j < c && 0 <= i < n ==> #[trigger] cols@[j]@[i] == plane_of(
                    inverse,
                    f,
                    n as nat,
                )(i, j),
        decreases n - c,
    {
        let entry = |i: usize| -> (x: Complex<S>)
            requires
                i < rs@.len(),
                c < rs@[i as int]@.len(),
            ensures
                x == rs@[i as int]@[c as int],
            { rs[i][c] };
        let mut col = list_from(n, entry);
        proof {
            assert forall|i: int| 0 <= i < n implies col@[i] == rs@[i]@[c as int] by {
                assert(call_ensures(entry, (i as usize,), col@[i]));
            }
            if functional::<S>() {
                assert(col@ =~= Seq::new(
                    n as nat,
                    |r: int| rows_of(inverse, f, n as nat)(r, c as int),
                ));
            }
        }
        transform(inverse, &mut col);
        let ghost had = cols@;
        cols.push(col);
        proof {
            if functional::<S>() {
                assert forall|j: int, i: int|
                    0 <= j < c + 1 && 0 <= i < n implies #[trigger] cols@[j]@[i] == plane_of(
                    inverse,
                    f,
                    n as nat,
                )(i, j) by {
                    if j < c {
                        assert(cols@[j] == had[j]);
                        assert(had[j]@[i] == plane_of(inverse, f, n as nat)(i, j));
                    }
                }
            }
        }
        c = c + 1;
    }
    let cs = &cols;
    let at = |i: usize, j: usize| -> (x: Complex<S>)
        requires
            j < cs@.len(),
            i < cs@[j as int]@.len(),
        ensures
            x == cs@[j as int]@[i as int],
        { cs[j][i] };
    let out = Plane::from(n, n, at);
    proof {
        if functional::<S>() {
            assert forall|i: int, j: int| out.has(i, j) implies #[trigger] out.at(i, j)
                == plane_of(inverse, f, n as nat)(i, j) by {
                assert(call_ensures(at, (i as usize, j as usize), out.at(i, j)));
                assert(cs@[j]@[i] == plane_of(inverse, f, n as nat)(i, j));
            }
        }
    }
    out
}

/// Transforms a square plane in place.
pub fn fft_2d<S: Real>(grid: &mut Plane<Complex<S>>)
    requires
        is_grid(old(grid), old(grid).rows as int),
    ensures
        is_grid(final(grid), old(grid).rows as int),
        functional::<S>() ==> forall|i: int, j: int|
            final(grid).has(i, j) ==> #[trigger] final(grid).at(i, j) == plane_of(
                false,
                plane_fn(old(grid)),
                old(grid).rows as nat,
            )(i, j),
{
    let out = transform_plane(false, grid);
    *grid = out;
}

/// Transforms a square plane back in place.
pub fn ifft_2d<S: Real>(grid: &mut Plane<Complex<S>>)
    requires
        is_grid(old(grid), old(grid).rows as int),
    ensures
        is_grid(final(grid), old(grid).rows as int),
        functional::<S>() ==> forall|i: int, j: int|
            final(grid).has(i, j) ==> #[trigger] final(grid).at(i, j) == plane_of(
                true,
                plane_fn(old(grid)),
                old(grid).rows as nat,
            )(i, j),
{
    let out = transform_plane(true, grid);
    *grid = out;
}

/// Moves the centre of a square plane of even side to its corners, and back.
pub fn ifftshift_2d<T: Copy>(grid: &mut Plane<T>)
    requires
        old(grid).wf(),
        old(grid).rows == old(grid).cols,
        old(grid).rows % 2 == 0,
    ensures
        final(grid).wf(),
        final(grid).rows == old(grid).rows,
        final(grid).cols == old(grid).cols,
        forall|i: int, j: int|
            final(grid).has(i, j) ==> #[trigger] final(grid).at(i, j) == old(grid).at(
                swapped(old(grid).rows as int, i),
                swapped(old(grid).rows as int, j),
            ),
{
    let n: usize = grid.rows;
    let h: usize = n / 2;
    let g = &*grid;
    let at = |i: usize, j: usize| -> (x: T)
        requires
            g.wf(),
            g.rows == n,
            g.cols == n,
            n == 2 * h,
            i < n,
            j < n,
        ensures
            x == g.at(swapped(n as int, i as int), swapped(n as int, j as int)),
        {
            let p: usize = if i < h {
                i + h
            } else {
                i - h
            };
            let q: usize = if j < h {
                j + h
            } else {
                j - h
            };
            g.get(p, q)
        };
    let out = Plane::from(n, n, at);
    proof {
        assert forall|i: int, j: int| out.has(i, j) implies #[trigger] out.at(i, j) == g.at(
            swapped(n as int, i),
            swapped(n as int, j),
        ) by {
            assert(call_ensures(at, (i as usize, j as usize), out.at(i, j)));
        }
    }
    *grid = out;
}

/// The place in the other half of an axis of even length.
pub open spec fn swapped(n: int, i: int) -> int {
    if i < n / 2 {
        i + n / 2
    } else {
        i - n / 2
    }
}

} // verus!
