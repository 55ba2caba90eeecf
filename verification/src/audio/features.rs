//! What a picture sounds like: the mean and the spread of its channels.

use crate::scalar::Real;
use vstd::prelude::*;

verus! {

use crate::scalar::{
    bits_of, count_of, functional, greatest_of, integer_of, minus_of, of_bits_of, over_of,
    plus_of, times_of,
};

/// The mean and the variance of each channel.
pub struct AudioFeatures<S> {
    pub channel_means: Vec<S>,
    pub channel_variances: Vec<S>,
}

impl<S> AudioFeatures<S> {
    /// Whether there are three channels.
    pub open spec fn wf(&self) -> bool {
        self.channel_means@.len() == 3 && self.channel_variances@.len() == 3
    }
}

/// A byte as a share of the brightest one.
pub open spec fn level_of<W: Real>(b: u8) -> W {
    over_of(count_of::<W>(b as usize), integer_of::<W>(255i64))
}

/// The levels of a channel of the first `n` pixels, added up.
pub open spec fn level_sum<W: Real>(rgb: Seq<u8>, ch: int, n: nat) -> W
    decreases n,
{
    if n == 0 {
        integer_of::<W>(0i64)
    } else {
        plus_of(level_sum(rgb, ch, (n - 1) as nat), level_of(rgb[3 * (n - 1) + ch]))
    }
}

/// The squares of the levels of a channel of the first `n` pixels, added up.
pub open spec fn square_sum<W: Real>(rgb: Seq<u8>, ch: int, n: nat) -> W
    decreases n,
{
    if n == 0 {
        integer_of::<W>(0i64)
    } else {
        let v = level_of::<W>(rgb[3 * (n - 1) + ch]);
        plus_of(square_sum(rgb, ch, (n - 1) as nat), times_of(v, v))
    }
}

/// A number of one width as a number of another, through single precision.
pub open spec fn narrowed_of<W: Real, S: Real>(x: W) -> S {
    of_bits_of::<S>(bits_of(x))
}

/// The mean level of a channel.
pub open spec fn mean_of<W: Real, S: Real>(rgb: Seq<u8>, ch: int, n: usize) -> S {
    narrowed_of::<W, S>(over_of(level_sum::<W>(rgb, ch, n as nat), count_of::<W>(n)))
}

/// The variance of the levels of a channel: the mean square less the squared mean, and
/// not below zero.
pub open spec fn variance_of<W: Real, S: Real>(rgb: Seq<u8>, ch: int, n: usize) -> S {
    let mean = mean_of::<W, S>(rgb, ch, n);
    let mean_sq = narrowed_of::<W, S>(
        over_of(square_sum::<W>(rgb, ch, n as nat), count_of::<W>(n)),
    );
    greatest_of(minus_of(mean_sq, times_of(mean, mean)), integer_of::<S>(0i64))
}

/// The sums of the levels of a channel and of their squares.
fn level_sums<W: Real>(render_rgb: &[u8], ch: usize, n: usize) -> (sums: (W, W))
    requires
        ch < 3,
        3 * n <= render_rgb@.len(),
    ensures
        functional::<W>() ==> sums.0 == level_sum::<W>(render_rgb@, ch as int, n as nat),
        functional::<W>() ==> sums.1 == square_sum::<W>(render_rgb@, ch as int, n as nat),
{
    let len: usize = render_rgb.len();
    let mut sum = W::integer(0);
    let mut sum_sq = W::integer(0);
    let mut i: usize = 0;
    while i < n
        invariant
            i <= n,
            ch < 3,
            3 * n <= len,
            len == render_rgb@.len(),
            functional::<W>() ==> sum == level_sum::<W>(render_rgb@, ch as int, i as nat),
            functional::<W>() ==> sum_sq == square_sum::<W>(render_rgb@, ch as int, i as nat),
        decreases n - i,
    {
        let v = W::count(render_rgb[3 * i + ch] as usize).over(W::integer(255));
        sum = sum.plus(v);
        sum_sq = sum_sq.plus(v.times(v));
        i = i + 1;
    }
    (sum, sum_sq)
}

/// The mean and the variance of each channel of a square picture.
///
/// Sums are taken in the wide arithmetic `W`, results are handed on in `S`.
pub fn extract_features<W: Real, S: Real>(render_rgb: &[u8], grid_size: usize) -> (f: AudioFeatures<
    S,
>)
    requires
        grid_size * grid_size * 3 <= render_rgb@.len(),
    ensures
        f.wf(),
        functional::<W>() && functional::<S>() ==> forall|ch: int|
            0 <= ch < 3 ==> #[trigger] f.channel_means@[ch] == mean_of::<W, S>(
                render_rgb@,
                ch,
                (grid_size * grid_size) as usize,
            ),
        functional::<W>() && functional::<S>() ==> forall|ch: int|
            0 <= ch < 3 ==> #[trigger] f.channel_variances@[ch] == variance_of::<W, S>(
                render_rgb@,
                ch,
                (grid_size * grid_size) as usize,
            ),
{
    let len: usize = render_rgb.len();
    let n: usize = grid_size * grid_size;
    let n_f = W::count(n);
    let mut channel_means: Vec<S> = Vec::new();
    let mut channel_variances: Vec<S> = Vec::new();
    let mut ch: usize = 0;
    while ch < 3
        invariant
            ch <= 3,
            3 * n <= render_rgb@.len(),
            functional::<W>() ==> n_f == count_of::<W>(n),
            channel_means@.len() == ch,
            channel_variances@.len() == ch,
            functional::<W>() && functional::<S>() ==> forall|c: int|
                0 <= c < ch ==> #[trigger] channel_means@[c] == mean_of::<W, S>(
                    render_rgb@,
                    c,
                    n,
                ),
            functional::<W>() && functional::<S>() ==> forall|c: int|
                0 <= c < ch ==> #[trigger] channel_variances@[c] == variance_of::<W, S>(
                    render_rgb@,
                    c,
                    n,
                ),
        decreases 3 - ch,
    {
        let sums = level_sums::<W>(render_rgb, ch, n);
        let mean = S::of_bits(sums.0.over(n_f).bits());
        let mean_sq = S::of_bits(sums.1.over(n_f).bits());
        channel_means.push(mean);
        channel_variances.push(mean_sq.minus(mean.times(mean)).greatest(S::integer(0)));
        ch = ch + 1;
    }
    AudioFeatures { channel_means, channel_variances }
}

} // verus!
