//! Pictures of worlds.

use crate::bytes::{push_all, push_decimal};
use crate::field::{Field, Plane};
use crate::scalar::Real;
use vstd::prelude::*;

verus! {

use crate::bytes::decimal_digits;
use crate::scalar::{
    below_of, clamp_of, decimal_of, functional, infinity_of, integer_of, minus_of, neg_of,
    over_of, plus_of, sqrt_of, times_of, to_byte_of,
};

/// The smallest of the first `n` values, or infinity where none is below it.
pub open spec fn lowest_of<S: Real>(values: Seq<S>, n: nat) -> S
    decreases n,
{
    if n == 0 {
        infinity_of::<S>()
    } else {
        let low = lowest_of(values, (n - 1) as nat);
        if below_of(values[n - 1], low) {
            values[n - 1]
        } else {
            low
        }
    }
}

/// The largest of the first `n` values, or minus infinity where none is above it.
pub open spec fn highest_of<S: Real>(values: Seq<S>, n: nat) -> S
    decreases n,
{
    if n == 0 {
        neg_of(infinity_of::<S>())
    } else {
        let high = highest_of(values, (n - 1) as nat);
        if below_of(high, values[n - 1]) {
            values[n - 1]
        } else {
            high
        }
    }
}

/// Values as shades of grey: the smallest black, the largest white; all black where they
/// do not differ.
pub open spec fn grey_of<S: Real>(values: Seq<S>) -> Seq<u8> {
    let low = lowest_of(values, values.len());
    let range = minus_of(highest_of(values, values.len()), low);
    Seq::new(
        values.len(),
        |i: int|
            to_byte_of(
                times_of(
                    if below_of(integer_of::<S>(0i64), range) {
                        over_of(minus_of(values[i], low), range)
                    } else {
                        integer_of::<S>(0i64)
                    },
                    integer_of::<S>(255i64),
                ),
            ),
    )
}

/// Values as shades of grey.
pub fn grey<S: Real>(values: &[S]) -> (pixels: Vec<u8>)
    ensures
        pixels@.len() == values@.len(),
        functional::<S>() ==> pixels@ == grey_of(values@),
{
    let mut min_val = S::infinity();
    let mut max_val = S::infinity().neg();
    let mut i: usize = 0;
    while i < values.len()
        invariant
            i <= values@.len(),
            functional::<S>() ==> min_val == lowest_of(values@, i as nat),
            functional::<S>() ==> max_val == highest_of(values@, i as nat),
        decreases values@.len() - i,
    {
        if values[i].below(min_val) {
            min_val = values[i];
        }
        if max_val.below(values[i]) {
            max_val = values[i];
        }
        i = i + 1;
    }
    let range = max_val.minus(min_val);
    let differ = S::integer(0).below(range);
    let mut pixels: Vec<u8> = Vec::new();
    i = 0;
    while i < values.len()
        invariant
            i <= values@.len(),
            functional::<S>() ==> min_val == lowest_of(values@, values@.len()),
            functional::<S>() ==> range == minus_of(
                highest_of(values@, values@.len()),
                min_val,
            ),
            functional::<S>() ==> differ == below_of(integer_of::<S>(0i64), range),
            pixels@.len() == i,
            functional::<S>() ==> pixels@ == grey_of(values@).take(i as int),
        decreases values@.len() - i,
    {
        let normalized = if differ {
            values[i].minus(min_val).over(range)
        } else {
            S::integer(0)
        };
        pixels.push(normalized.times(S::integer(255)).to_byte());
        assert(functional::<S>() ==> pixels@ =~= grey_of(values@).take(i + 1));
        i = i + 1;
    }
    assert(grey_of(values@).take(i as int) =~= grey_of(values@));
    pixels
}

/// The first `n` channels of pixel `p`, added up, where channels follow one another.
pub open spec fn packed_sum<S: Real>(data: Seq<S>, area: int, p: int, n: nat) -> S
    decreases n,
{
    if n == 0 {
        integer_of::<S>(0i64)
    } else {
        plus_of(packed_sum(data, area, p, (n - 1) as nat), data[(n - 1) * area + p])
    }
}

/// The channels of every pixel, added up, where channels follow one another.
pub open spec fn packed_sums<S: Real>(data: Seq<S>, area: int) -> Seq<S> {
    Seq::new(area as nat, |p: int| packed_sum(data, area, p, (data.len() / area as nat) as nat))
}

/// Adds up the channels of a pixel.
fn add_channels<S: Real>(data: &[S], area: usize, p: usize, channels: usize) -> (sum: S)
    requires
        p < area,
        channels * area <= data@.len(),
    ensures
        functional::<S>() ==> sum == packed_sum(data@, area as int, p as int, channels as nat),
{
    let len: usize = data.len();
    let mut sum = S::integer(0);
    let mut c: usize = 0;
    while c < channels
        invariant
            c <= channels,
            p < area,
            channels * area <= len,
            len == data@.len(),
            functional::<S>() ==> sum == packed_sum(data@, area as int, p as int, c as nat),
        decreases channels - c,
    {
        proof {
            assert(c * area + area <= channels * area && 0 <= c * area) by (nonlinear_arith)
                requires
                    0 <= c < channels,
                    area >= 0,
            ;
        }
        sum = sum.plus(data[c * area + p]);
        c = c + 1;
    }
    sum
}

/// The shades of grey of a square world whose channels follow one another.
pub fn save_png<S: Real>(data: &[S], size: usize) -> (pixels: Vec<u8>)
    requires
        0 < size,
        size * size <= usize::MAX,
    ensures
        pixels@.len() == size * size,
        functional::<S>() ==> pixels@ == grey_of(packed_sums(data@, size * size)),
{
    let area: usize = size * size;
    assert(area > 0) by (nonlinear_arith)
        requires
            area == size * size,
            size > 0,
    ;
    let num_channels: usize = data.len() / area;
    proof {
        vstd::arithmetic::div_mod::lemma_fundamental_div_mod(data@.len() as int, area as int);
        assert(num_channels * area <= data@.len()) by (nonlinear_arith)
            requires
                data@.len() == area * num_channels + data@.len() % (area as nat),
        ;
    }
    let mut sums: Vec<S> = Vec::new();
    let mut p: usize = 0;
    while p < area
        invariant
            p <= area,
            area > 0,
            num_channels == data@.len() / (area as nat),
            num_channels * area <= data@.len(),
            sums@.len() == p,
            functional::<S>() ==> sums@ == packed_sums(data@, area as int).take(p as int),
        decreases area - p,
    {
        sums.push(add_channels(data, area, p, num_channels));
        assert(functional::<S>() ==> sums@ =~= packed_sums(data@, area as int).take(p + 1));
        p = p + 1;
    }
    assert(packed_sums(data@, area as int).take(p as int) =~= packed_sums(data@, area as int));
    grey(sums.as_slice())
}

/// The first `n` channels of a cell, added up.
pub open spec fn cell_sum<S: Real>(arr: &Field<S>, i: int, j: int, n: nat) -> S
    decreases n,
{
    if n == 0 {
        integer_of::<S>(0i64)
    } else {
        plus_of(cell_sum(arr, i, j, (n - 1) as nat), arr.at(i, j, n - 1))
    }
}

/// The channels of every cell, added up, row by row.
pub open spec fn cell_sums<S: Real>(arr: &Field<S>) -> Seq<S> {
    Seq::new(
        (arr.rows * arr.cols) as nat,
        |p: int| cell_sum(arr, p / (arr.cols as int), p % (arr.cols as int), arr.depth as nat),
    )
}

/// Adds up the channels of a cell.
fn add_cell<S: Real>(arr: &Field<S>, i: usize, j: usize) -> (sum: S)
    requires
        arr.wf(),
        i < arr.rows,
        j < arr.cols,
    ensures
        functional::<S>() ==> sum == cell_sum(arr, i as int, j as int, arr.depth as nat),
{
    let mut sum = S::integer(0);
    let mut c: usize = 0;
    while c < arr.depth
        invariant
            c <= arr.depth,
            arr.wf(),
            i < arr.rows,
            j < arr.cols,
            functional::<S>() ==> sum == cell_sum(arr, i as int, j as int, c as nat),
        decreases arr.depth - c,
    {
        sum = sum.plus(arr.get(i, j, c));
        c = c + 1;
    }
    sum
}

/// The shades of grey of a field, row by row.
pub fn save_frame_as_png<S: Real>(arr: &Field<S>) -> (pixels: Vec<u8>)
    requires
        arr.wf(),
        arr.rows * arr.cols <= usize::MAX,
    ensures
        pixels@.len() == arr.rows * arr.cols,
        functional::<S>() ==> pixels@ == grey_of(cell_sums(arr)),
{
    let mut sums: Vec<S> = Vec::new();
    let area: usize = arr.rows * arr.cols;
    let mut p: usize = 0;
    while p < area
        invariant
            p <= area,
            area == arr.rows * arr.cols,
            arr.wf(),
            sums@.len() == p,
            functional::<S>() ==> sums@ == cell_sums(arr).take(p as int),
        decreases area - p,
    {
        let cols: usize = arr.cols;
        proof {
            let h = arr.rows as int;
            let w = cols as int;
            assert(w > 0 && 0 <= p as int / w < h) by (nonlinear_arith)
                requires
                    0 <= p < h * w,
                    h >= 0,
                    w >= 0,
            ;
        }
        sums.push(add_cell(arr, p / cols, p % cols));
        assert(functional::<S>() ==> sums@ =~= cell_sums(arr).take(p + 1));
        p = p + 1;
    }
    assert(cell_sums(arr).take(p as int) =~= cell_sums(arr));
    grey(sums.as_slice())
}

/// Mass as a shade of one colour: half as bright again, held from black to full, with
/// dark shades lifted.
pub open spec fn shade_of<S: Real>(x: S) -> u8 {
    to_byte_of(
        times_of(
            sqrt_of(
                clamp_of(
                    times_of(x, decimal_of::<S>(15i64, 1u32)),
                    integer_of::<S>(0i64),
                    integer_of::<S>(1i64),
                ),
            ),
            integer_of::<S>(255i64),
        ),
    )
}

/// Mass as a shade of one colour.
pub fn shade<S: Real>(x: S) -> (b: u8)
    ensures
        functional::<S>() ==> b == shade_of(x),
{
    x.times(S::decimal(15, 1)).clamp(S::integer(0), S::integer(1)).sqrt().times(
        S::integer(255),
    ).to_byte()
}

/// The colours of a square world of three channels that follow one another: red, green,
/// blue.
pub open spec fn rgb_of<S: Real>(data: Seq<S>, area: int) -> Seq<u8> {
    Seq::new((3 * area) as nat, |k: int| shade_of(data[(k % 3) * area + k / 3]))
}

/// The colours of a square world of three channels that follow one another.
pub fn rgb_pixels<S: Real>(data: &[S], shape: usize) -> (pixels: Vec<u8>)
    requires
        3 * (shape * shape) <= data@.len(),
    ensures
        pixels@.len() == 3 * (shape * shape),
        functional::<S>() ==> pixels@ == rgb_of(data@, shape * shape),
{
    let len: usize = data.len();
    let area: usize = shape * shape;
    let mut pixels: Vec<u8> = Vec::new();
    let mut p: usize = 0;
    while p < area
        invariant
            p <= area,
            3 * area <= len,
            len == data@.len(),
            pixels@.len() == 3 * p,
            functional::<S>() ==> pixels@ == rgb_of(data@, area as int).take(3 * p as int),
        decreases area - p,
    {
        pixels.push(shade(data[p]));
        pixels.push(shade(data[area + p]));
        pixels.push(shade(data[2 * area + p]));
        proof {
            if functional::<S>() {
                assert((3 * p) % 3 == 0 && (3 * p) / 3 == p);
                assert((3 * p + 1) % 3 == 1 && (3 * p + 1) / 3 == p);
                assert((3 * p + 2) % 3 == 2 && (3 * p + 2) / 3 == p);
                let a = area as int;
                assert(((3 * p) % 3) * a == 0 && ((3 * p + 1) % 3) * a == a && ((3 * p + 2) % 3) * a
                    == 2 * a) by (nonlinear_arith)
                    requires
                        (3 * p) % 3 == 0,
                        (3 * p + 1) % 3 == 1,
                        (3 * p + 2) % 3 == 2,
                ;
                assert(pixels@ =~= rgb_of(data@, area as int).take(3 * (p + 1)));
            }
        }
        p = p + 1;
    }
    assert(rgb_of(data@, area as int).take(3 * p as int) =~= rgb_of(data@, area as int));
    pixels
}

/// What stands before the pixels of a square PPM picture.
pub open spec fn ppm_header(n: nat) -> Seq<u8> {
    seq![80u8, 54, 10] + decimal_digits(n) + seq![32u8] + decimal_digits(n) + seq![
        10u8,
        50,
        53,
        53,
        10,
    ]
}

/// The pixels of a square world of three channels, row by row.
pub open spec fn ppm_pixels<S: Real>(channels: Seq<Plane<S>>, n: int) -> Seq<u8> {
    Seq::new(
        (3 * (n * n)) as nat,
        |k: int| shade_of(channels[k % 3].at(k / 3 / n, k / 3 % n)),
    )
}

/// A square world of three channels as a PPM picture.
pub fn save_ppm<S: Real>(channels: &Vec<Plane<S>>) -> (file: Vec<u8>)
    requires
        channels@.len() >= 3,
        forall|c: int|
            0 <= c < 3 ==> (#[trigger] channels@[c]).wf() && channels@[c].rows
                == channels@[0].rows && channels@[c].cols == channels@[0].rows,
        channels@[0].rows * channels@[0].rows <= usize::MAX,
    ensures
        file@.len() == ppm_header(channels@[0].rows as nat).len() + 3 * (channels@[0].rows
            * channels@[0].rows),
        functional::<S>() ==> file@ == ppm_header(channels@[0].rows as nat) + ppm_pixels(
            channels@,
            channels@[0].rows as int,
        ),
{
    let n: usize = channels[0].rows;
    let mut file: Vec<u8> = Vec::new();
    push_all(&mut file, [80u8, 54, 10].as_slice());
    push_decimal(&mut file, n);
    push_all(&mut file, [32u8].as_slice());
    push_decimal(&mut file, n);
    push_all(&mut file, [10u8, 50, 53, 53, 10].as_slice());
    let ghost header = ppm_header(n as nat);
    assert(file@ =~= header);
    let area: usize = n * n;
    let ghost all = ppm_pixels(channels@, n as int);
    let mut p: usize = 0;
    assert(file@ =~= header + all.take(0));
    while p < area
        invariant
            p <= area,
            area == n * n,
            channels@.len() >= 3,
            forall|c: int|
                0 <= c < 3 ==> (#[trigger] channels@[c]).wf() && channels@[c].rows == n
                    && channels@[c].cols == n,
            all == ppm_pixels(channels@, n as int),
            file@.len() == header.len() + 3 * p,
            functional::<S>() ==> file@ == header + all.take(3 * p as int),
        decreases area - p,
    {
        proof {
            let m = n as int;
            assert(m > 0 && 0 <= p as int / m < m) by (nonlinear_arith)
                requires
                    0 <= p < m * m,
                    m >= 0,
            ;
        }
        let i: usize = p / n;
        let j: usize = p % n;
        assert(channels@[0].wf() && channels@[1].wf() && channels@[2].wf());
        file.push(shade(channels[0].get(i, j)));
        file.push(shade(channels[1].get(i, j)));
        file.push(shade(channels[2].get(i, j)));
        proof {
            if functional::<S>() {
                assert((3 * p) % 3 == 0 && (3 * p) / 3 == p);
                assert((3 * p + 1) % 3 == 1 && (3 * p + 1) / 3 == p);
                assert((3 * p + 2) % 3 == 2 && (3 * p + 2) / 3 == p);
                assert(file@ =~= header + all.take(3 * (p + 1)));
            }
        }
        p = p + 1;
    }
    assert(all.take(3 * p as int) =~= all);
    file
}

} // verus!
