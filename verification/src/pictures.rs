//! What pictures show, where arithmetic does not round.

use crate::field::{Field, Plane};
use crate::frame::{grey, rgb_pixels, save_frame_as_png, save_png, save_ppm, shade};
use crate::scalar::Real;
use vstd::prelude::*;

verus! {

use crate::analysis::{
    exact_bytes, exact_decimals, exact_order, exact_root, lemma_quotient, lemma_square_order,
    lemma_tens, lemma_times_order, tens,
};
use crate::bytes::decimal_digits;
use crate::exact::{exact_as, lemma_rsum_same, rsum};
use crate::frame::{
    cell_sum, cell_sums, grey_of, highest_of, lowest_of, packed_sum, packed_sums, ppm_header,
    ppm_pixels, shade_of,
};
use crate::scalar::{
    clamp_of, decimal_of, functional, infinity_of, integer_of, minus_of, neg_of, over_of, sqrt_of,
    times_of, to_byte_of,
};
use vstd::arithmetic::div_mod::lemma_fundamental_div_mod_converse;

/// A shade is the root of the mass, half as bright again: no mass is black, two thirds and more
/// are full, and in between the square of the shade follows the mass. More mass is no darker.
pub proof fn law_shade_is_the_root_of_mass<S: Real>(
    v: spec_fn(S) -> real,
    x: S,
    b: u8,
    y: S,
    c: u8,
)
    requires
        exact_decimals(v),
        exact_root(v),
        exact_bytes(v),
        functional::<S>(),
        call_ensures(shade::<S>, (x,), b),
        call_ensures(shade::<S>, (y,), c),
    ensures
        v(x) <= 0real ==> b == 0,
        3real * v(x) >= 2real ==> b == 255,
        0real <= v(x) && 3real * v(x) <= 2real ==> 2real * (b * b) as real <= 3real * 65025real * v(x),
        0real <= v(x) && 3real * v(x) <= 2real ==> 3real * 65025real * v(x) < 2real * ((b + 1) * (b
            + 1)) as real,
        v(x) <= v(y) ==> b <= c,
{
    let q = lemma_shade(v, x);
    let r = lemma_shade(v, y);
    let k = b as int;
    let l = c as int;
    if v(x) <= v(y) {
        lemma_square_order(q, r);
        assert(q <= r);
        assert(b <= c);
    }
    let h = 255real * q;
    lemma_square_order(b as int as real, h);
    lemma_square_order(h, b as int as real + 1real);
    assert(h * h == 65025real * (q * q)) by (nonlinear_arith)
        requires
            h == 255real * q,
    ;
    let z = b as int as real;
    assert((b * b) as real == z * z) by (nonlinear_arith)
        requires
            z == b as int as real,
    ;
    assert(((b + 1) * (b + 1)) as real == (z + 1real) * (z + 1real)) by (nonlinear_arith)
        requires
            z == b as int as real,
    ;
    if v(x) <= 0real {
        lemma_square_order(q, 0real);
        assert(0real * 0real == 0real);
    }
    if 3real * v(x) >= 2real {
        lemma_square_order(q, 1real);
        assert(1real * 1real == 1real);
    }
}

/// The root from which a shade is taken.
proof fn lemma_shade<S: Real>(v: spec_fn(S) -> real, x: S) -> (q: real)
    requires
        exact_decimals(v),
        exact_root(v),
        exact_bytes(v),
    ensures
        0real <= q <= 1real,
        q * q == (if v(x) <= 0real {
            0real
        } else if 3real * v(x) >= 2real {
            1real
        } else {
            3real * v(x) / 2real
        }),
        shade_of(x) as int as real <= 255real * q < shade_of(x) as int as real + 1real,
{
    lemma_tens();
    let f = decimal_of::<S>(15i64, 1u32);
    assert(v(f) * tens(1) == 15real);
    assert(v(f) == 3real / 2real);
    assert(v(integer_of::<S>(0i64)) == 0real);
    assert(v(integer_of::<S>(1i64)) == 1real);
    assert(v(integer_of::<S>(255i64)) == 255real);
    let bright = times_of(x, f);
    assert(v(bright) == v(x) * (3real / 2real));
    let m = clamp_of(bright, integer_of::<S>(0i64), integer_of::<S>(1i64));
    let q = v(sqrt_of(m));
    assert(0real <= v(m) <= 1real);
    assert(q >= 0real && q * q == v(m));
    lemma_square_order(q, 1real);
    assert(1real * 1real == 1real);
    let h = times_of(sqrt_of(m), integer_of::<S>(255i64));
    assert(v(h) == q * 255real);
    assert(to_byte_of(h) as int as real <= v(h));
    q
}

/// A pixel of a frame has the shades of its cell's three channels, red, green and blue, and of
/// no other cell's: the channels of the world follow one another, those of the frame are
/// side by side.
pub proof fn law_pixels_show_their_cells<S: Real>(
    data: &[S],
    shape: usize,
    pixels: Vec<u8>,
    i: int,
    j: int,
    c: int,
    b: u8,
)
    requires
        functional::<S>(),
        3 * (shape * shape) <= data@.len(),
        call_ensures(rgb_pixels::<S>, (data, shape), pixels),
        0 <= i < shape,
        0 <= j < shape,
        0 <= c < 3,
        call_ensures(shade::<S>, (data@[c * (shape * shape) + (i * shape + j)],), b),
    ensures
        pixels@.len() == 3 * (shape * shape),
        0 <= 3 * (i * shape + j) + c < pixels@.len(),
        pixels@[3 * (i * shape + j) + c] == b,
{
    let n = shape as int;
    let p = i * n + j;
    assert(0 <= p < n * n) by (nonlinear_arith)
        requires
            0 <= i < n,
            0 <= j < n,
            p == i * n + j,
    ;
    let k = 3 * p + c;
    assert(k % 3 == c && k / 3 == p);
}

/// A pixel of a PPM picture has the shades of its cell's three channels, row by row behind what
/// says how wide and how high the picture is and how bright full is.
pub proof fn law_ppm_shows_its_cells<S: Real>(
    channels: &Vec<Plane<S>>,
    n: int,
    file: Vec<u8>,
    i: int,
    j: int,
    c: int,
    b: u8,
)
    requires
        functional::<S>(),
        channels@.len() >= 3,
        channels@[0].rows == n,
        call_ensures(save_ppm::<S>, (channels,), file),
        0 <= i < n,
        0 <= j < n,
        0 <= c < 3,
        call_ensures(shade::<S>, (channels@[c].at(i, j),), b),
    ensures
        ({
            let side = decimal_digits(n as nat);
            let head = seq![80u8, 54, 10] + side + seq![32u8] + side + seq![10u8, 50, 53, 53, 10];
            &&& file@.len() == head.len() + 3 * (n * n)
            &&& file@.take(head.len() as int) == head
            &&& 0 <= head.len() + 3 * (i * n + j) + c < file@.len()
            &&& file@[head.len() + 3 * (i * n + j) + c] == b
        }),
{
    let p = i * n + j;
    assert(0 <= p < n * n) by (nonlinear_arith)
        requires
            0 <= i < n,
            0 <= j < n,
            p == i * n + j,
    ;
    let k = 3 * p + c;
    assert(k % 3 == c && k / 3 == p);
    lemma_fundamental_div_mod_converse(p, n, i, j);
    let side = decimal_digits(n as nat);
    let head = seq![80u8, 54, 10] + side + seq![32u8] + side + seq![10u8, 50, 53, 53, 10];
    assert(head == ppm_header(n as nat));
    assert(file@.take(head.len() as int) =~= head);
    assert(file@[head.len() + k] == ppm_pixels(channels@, n)[k]);
}

/// The number that decimal digits stand for.
pub open spec fn digits_number(s: Seq<u8>) -> int
    decreases s.len(),
{
    if s.len() == 0 {
        0
    } else {
        10 * digits_number(s.drop_last()) + (s.last() - 48)
    }
}

/// Decimal digits are digits, stand for their number, and do not start with a zero that says
/// nothing.
pub proof fn law_digits_say_their_number(n: nat)
    ensures
        digits_number(decimal_digits(n)) == n,
        decimal_digits(n).len() > 0,
        forall|i: int| 0 <= i < decimal_digits(n).len() ==> 48 <= #[trigger] decimal_digits(n)[i] <= 57,
        n > 0 ==> decimal_digits(n)[0] != 48,
    decreases n,
{
    let s = decimal_digits(n);
    if n < 10 {
        assert(s.drop_last() =~= Seq::<u8>::empty());
        assert(digits_number(s.drop_last()) == 0);
    } else {
        law_digits_say_their_number(n / 10);
        assert(s.drop_last() =~= decimal_digits(n / 10));
    }
}

/// The lowest and the highest of numbers that are below infinity.
proof fn lemma_bounds<S: Real>(v: spec_fn(S) -> real, values: Seq<S>, n: nat)
    requires
        exact_order(v),
        0 < n <= values.len(),
        forall|i: int| 0 <= i < n ==> v(#[trigger] values[i]) < v(infinity_of::<S>()),
        forall|i: int| 0 <= i < n ==> -v(infinity_of::<S>()) < v(#[trigger] values[i]),
    ensures
        forall|i: int|
            0 <= i < n ==> v(lowest_of(values, n)) <= v(#[trigger] values[i]) <= v(
                highest_of(values, n),
            ),
        exists|i: int| 0 <= i < n && v(lowest_of(values, n)) == v(#[trigger] values[i]),
        exists|i: int| 0 <= i < n && v(highest_of(values, n)) == v(#[trigger] values[i]),
    decreases n,
{
    let m = (n - 1) as nat;
    let low = lowest_of(values, n);
    let high = highest_of(values, n);
    assert(v(values[n - 1]) < v(infinity_of::<S>()));
    assert(-v(infinity_of::<S>()) < v(values[n - 1]));
    if m == 0 {
        assert(lowest_of(values, 0) == infinity_of::<S>());
        assert(highest_of(values, 0) == neg_of(infinity_of::<S>()));
        assert(v(low) == v(values[0]) && v(high) == v(values[0]));
    } else {
        lemma_bounds(v, values, m);
        let a = choose|i: int| 0 <= i < m && v(lowest_of(values, m)) == v(#[trigger] values[i]);
        let b = choose|i: int| 0 <= i < m && v(highest_of(values, m)) == v(#[trigger] values[i]);
        assert(v(low) == v(values[n - 1]) || v(low) == v(values[a]));
        assert(v(high) == v(values[n - 1]) || v(high) == v(values[b]));
    }
}

/// What a grey pixel says of its value.
proof fn lemma_grey<S: Real>(
    v: spec_fn(S) -> real,
    values: Seq<S>,
    x: spec_fn(int) -> real,
    lo: real,
    hi: real,
    a: int,
    b: int,
    i: int,
)
    requires
        exact_order(v),
        exact_bytes(v),
        forall|k: int| 0 <= k < values.len() ==> v(#[trigger] values[k]) == x(k),
        forall|k: int| 0 <= k < values.len() ==> #[trigger] x(k) < v(infinity_of::<S>()),
        forall|k: int| 0 <= k < values.len() ==> -v(infinity_of::<S>()) < #[trigger] x(k),
        forall|k: int| 0 <= k < values.len() ==> lo <= #[trigger] x(k) <= hi,
        0 <= a < values.len(),
        x(a) == lo,
        0 <= b < values.len(),
        x(b) == hi,
        0 <= i < values.len(),
    ensures
        ({
            let g = grey_of(values)[i] as int as real;
            &&& lo < hi ==> g * (hi - lo) <= 255real * (x(i) - lo) < (g + 1real) * (hi - lo)
            &&& lo == hi ==> grey_of(values)[i] == 0
        }),
{
    let n = values.len();
    assert forall|k: int| 0 <= k < n implies v(#[trigger] values[k]) < v(infinity_of::<S>())
        && -v(infinity_of::<S>()) < v(values[k]) by {
        assert(v(values[k]) == x(k));
    }
    lemma_bounds(v, values, n);
    let low = lowest_of(values, n);
    let high = highest_of(values, n);
    assert(v(low) <= v(values[a]) && v(values[a]) == x(a));
    assert(v(values[b]) <= v(high) && v(values[b]) == x(b));
    let p = choose|k: int| 0 <= k < n && v(low) == v(#[trigger] values[k]);
    let q = choose|k: int| 0 <= k < n && v(high) == v(#[trigger] values[k]);
    assert(v(values[p]) == x(p) && v(values[q]) == x(q));
    assert(v(low) == lo && v(high) == hi);
    let range = minus_of(high, low);
    assert(v(range) == hi - lo);
    assert(v(integer_of::<S>(0i64)) == 0real);
    assert(v(integer_of::<S>(255i64)) == 255real);
    assert(v(values[i]) == x(i));
    let g = grey_of(values)[i] as int as real;
    if lo < hi {
        let r = hi - lo;
        let d = x(i) - lo;
        let s = d / r;
        lemma_quotient(d, r);
        assert(0real * r == 0real && 1real * r == r) by (nonlinear_arith);
        lemma_times_order(0real, s, r);
        lemma_times_order(s, 1real, r);
        let t = times_of(over_of(minus_of(values[i], low), range), integer_of::<S>(255i64));
        assert(v(t) == s * 255real);
        assert(g <= s * 255real < g + 1real);
        let h = s * 255real;
        assert(h * r == 255real * d) by (nonlinear_arith)
            requires
                h == s * 255real,
                s * r == d,
        ;
        lemma_times_order(g, h, r);
        lemma_times_order(h, g + 1real, r);
    } else {
        let t = times_of(integer_of::<S>(0i64), integer_of::<S>(255i64));
        assert(v(t) == 0real);
    }
}

/// Shades of grey follow their values: the lowest is black, the highest white, and a shade lies
/// as far from black, of all shades, as its value lies above the lowest, of the whole range;
/// all is black where nothing differs.
pub proof fn law_grey_follows_values<S: Real>(
    v: spec_fn(S) -> real,
    values: &[S],
    pixels: Vec<u8>,
    a: int,
    b: int,
    i: int,
)
    requires
        exact_order(v),
        exact_bytes(v),
        functional::<S>(),
        call_ensures(grey::<S>, (values,), pixels),
        forall|k: int| 0 <= k < values@.len() ==> v(#[trigger] values@[k]) < v(infinity_of::<S>()),
        forall|k: int| 0 <= k < values@.len() ==> -v(infinity_of::<S>()) < v(#[trigger] values@[k]),
        0 <= a < values@.len(),
        0 <= b < values@.len(),
        forall|k: int|
            0 <= k < values@.len() ==> v(values@[a]) <= v(#[trigger] values@[k]) <= v(values@[b]),
        0 <= i < values@.len(),
    ensures
        ({
            let g = pixels@[i] as int as real;
            let range = v(values@[b]) - v(values@[a]);
            &&& pixels@[a] == 0
            &&& range > 0real ==> pixels@[b] == 255
            &&& range > 0real ==> g * range <= 255real * (v(values@[i]) - v(values@[a])) < (g
                + 1real) * range
            &&& range == 0real ==> pixels@[i] == 0
        }),
{
    let x = |k: int| v(values@[k]);
    let lo = x(a);
    let hi = x(b);
    let range = hi - lo;
    lemma_grey(v, values@, x, lo, hi, a, b, i);
    lemma_grey(v, values@, x, lo, hi, a, b, a);
    lemma_grey(v, values@, x, lo, hi, a, b, b);
    if range > 0real {
        let g = pixels@[a] as int as real;
        let h = pixels@[b] as int as real;
        assert(0real * range == 0real) by (nonlinear_arith);
        lemma_times_order(0real, g, range);
        lemma_times_order(255real, h + 1real, range);
        assert(g <= 0real);
        assert(h + 1real > 255real);
    }
}

/// Channels that follow one another are added up.
proof fn lemma_packed<S: Real>(v: spec_fn(S) -> real, data: Seq<S>, area: int, p: int, n: nat)
    requires
        exact_as(v),
    ensures
        v(packed_sum(data, area, p, n)) == rsum(|c: int| v(data[c * area + p]), n),
    decreases n,
{
    if n > 0 {
        lemma_packed(v, data, area, p, (n - 1) as nat);
    } else {
        assert(v(integer_of::<S>(0i64)) == 0real);
    }
}

/// The grey picture of a square world shows the mass of all channels of each cell: `x` gives it
/// cell by cell, the channels following one another. The emptiest cell is black, the fullest
/// white, the others in proportion.
pub proof fn law_grey_pictures_show_mass<S: Real>(
    v: spec_fn(S) -> real,
    data: &[S],
    size: usize,
    channels: nat,
    pixels: Vec<u8>,
    x: spec_fn(int) -> real,
    a: int,
    b: int,
    p: int,
)
    requires
        exact_order(v),
        exact_bytes(v),
        functional::<S>(),
        0 < size,
        size * size <= usize::MAX,
        data@.len() == channels * (size * size),
        call_ensures(save_png::<S>, (data, size), pixels),
        forall|k: int|
            0 <= k < size * size ==> #[trigger] x(k) == rsum(
                |c: int| v(data@[c * (size * size) + k]),
                channels,
            ),
        forall|k: int| 0 <= k < size * size ==> #[trigger] x(k) < v(infinity_of::<S>()),
        forall|k: int| 0 <= k < size * size ==> -v(infinity_of::<S>()) < #[trigger] x(k),
        0 <= a < size * size,
        0 <= b < size * size,
        forall|k: int| 0 <= k < size * size ==> x(a) <= #[trigger] x(k) <= x(b),
        0 <= p < size * size,
    ensures
        ({
            let g = pixels@[p] as int as real;
            let range = x(b) - x(a);
            &&& range > 0real ==> g * range <= 255real * (x(p) - x(a)) < (g + 1real) * range
            &&& range == 0real ==> pixels@[p] == 0
        }),
{
    let area = (size * size) as int;
    let values = packed_sums(data@, area);
    assert(data@.len() / area as nat == channels) by {
        assert(channels * area == area * channels) by (nonlinear_arith);
        lemma_fundamental_div_mod_converse(data@.len() as int, area, channels as int, 0);
    }
    assert forall|k: int| 0 <= k < values.len() implies v(#[trigger] values[k]) == x(k) by {
        lemma_packed(v, data@, area, k, channels);
        lemma_rsum_same(
            |c: int| v(data@[c * area + k]),
            |c: int| v(data@[c * (size * size) + k]),
            channels,
        );
        assert(x(k) == rsum(|c: int| v(data@[c * (size * size) + k]), channels));
    }
    lemma_grey(v, values, x, x(a), x(b), a, b, p);
}

/// The channels of a cell are added up.
proof fn lemma_cell<S: Real>(v: spec_fn(S) -> real, arr: &Field<S>, i: int, j: int, n: nat)
    requires
        exact_as(v),
    ensures
        v(cell_sum(arr, i, j, n)) == rsum(|c: int| v(arr.at(i, j, c)), n),
    decreases n,
{
    if n > 0 {
        lemma_cell(v, arr, i, j, (n - 1) as nat);
    } else {
        assert(v(integer_of::<S>(0i64)) == 0real);
    }
}

/// The grey picture of a field shows the mass of all channels of each cell, row by row: `x`
/// gives it by row and column. The emptiest cell is black, the fullest white, the others in
/// proportion.
pub proof fn law_grey_frames_show_mass<S: Real>(
    v: spec_fn(S) -> real,
    arr: &Field<S>,
    pixels: Vec<u8>,
    x: spec_fn(int, int) -> real,
    a: (int, int),
    b: (int, int),
    i: int,
    j: int,
)
    requires
        exact_order(v),
        exact_bytes(v),
        functional::<S>(),
        arr.wf(),
        arr.rows * arr.cols <= usize::MAX,
        call_ensures(save_frame_as_png::<S>, (arr,), pixels),
        forall|p: int, q: int|
            0 <= p < arr.rows && 0 <= q < arr.cols ==> #[trigger] x(p, q) == rsum(
                |c: int| v(arr.at(p, q, c)),
                arr.depth as nat,
            ),
        forall|p: int, q: int|
            0 <= p < arr.rows && 0 <= q < arr.cols ==> -v(infinity_of::<S>()) < #[trigger] x(p, q)
                < v(infinity_of::<S>()),
        0 <= a.0 < arr.rows,
        0 <= a.1 < arr.cols,
        0 <= b.0 < arr.rows,
        0 <= b.1 < arr.cols,
        forall|p: int, q: int|
            0 <= p < arr.rows && 0 <= q < arr.cols ==> x(a.0, a.1) <= #[trigger] x(p, q) <= x(
                b.0,
                b.1,
            ),
        0 <= i < arr.rows,
        0 <= j < arr.cols,
    ensures
        ({
            let g = pixels@[i * arr.cols + j] as int as real;
            let range = x(b.0, b.1) - x(a.0, a.1);
            &&& range > 0real ==> g * range <= 255real * (x(i, j) - x(a.0, a.1)) < (g + 1real)
                * range
            &&& range == 0real ==> pixels@[i * arr.cols + j] == 0
        }),
{
    let w = arr.cols as int;
    let h = arr.rows as int;
    let values = cell_sums(arr);
    let flat = |k: int| x(k / w, k % w);
    assert forall|k: int| 0 <= k < values.len() implies v(#[trigger] values[k]) == flat(k) && -v(
        infinity_of::<S>(),
    ) < flat(k) < v(infinity_of::<S>()) && x(a.0, a.1) <= flat(k) <= x(b.0, b.1) by {
        let p = k / w;
        let q = k % w;
        assert(0 <= p < h && 0 <= q < w) by (nonlinear_arith)
            requires
                0 <= k < h * w,
                w > 0,
                p == k / w,
                q == k % w,
        ;
        lemma_cell(v, arr, p, q, arr.depth as nat);
        assert(x(p, q) == rsum(|c: int| v(arr.at(p, q, c)), arr.depth as nat));
    }
    assert forall|k: int| 0 <= k < values.len() implies #[trigger] flat(k) < v(
        infinity_of::<S>(),
    ) by {
        assert(v(values[k]) == flat(k));
    }
    assert forall|k: int| 0 <= k < values.len() implies -v(infinity_of::<S>()) < #[trigger] flat(
        k,
    ) by {
        assert(v(values[k]) == flat(k));
    }
    assert forall|k: int| 0 <= k < values.len() implies x(a.0, a.1) <= #[trigger] flat(k) <= x(
        b.0,
        b.1,
    ) by {
        assert(v(values[k]) == flat(k));
    }
    lemma_flat(h, w, a.0, a.1);
    lemma_flat(h, w, b.0, b.1);
    lemma_flat(h, w, i, j);
    lemma_grey(
        v,
        values,
        flat,
        x(a.0, a.1),
        x(b.0, b.1),
        a.0 * w + a.1,
        b.0 * w + b.1,
        i * w + j,
    );
}

/// A place, counted row by row.
proof fn lemma_flat(h: int, w: int, i: int, j: int)
    requires
        0 <= i < h,
        0 <= j < w,
    ensures
        0 <= i * w + j < h * w,
        (i * w + j) / w == i,
        (i * w + j) % w == j,
{
    let p = i * w + j;
    assert(0 <= p < h * w) by (nonlinear_arith)
        requires
            0 <= i < h,
            0 <= j < w,
            p == i * w + j,
    ;
    lemma_fundamental_div_mod_converse(p, w, i, j);
}

} // verus!
