//! How a synthesiser answers a film, where arithmetic does not round: what is heard of a
//! picture, when pings are fired, and how their sound is filtered, echoed and limited.

use crate::audio::features::{extract_features, AudioFeatures};
use crate::audio::synth::DELAY_BUFFER_SIZE;
use crate::scalar::Real;
use vstd::prelude::*;

verus! {

use crate::analysis::{
    exact_decimals, exact_exp, exact_order, exact_samples, exact_tanh, lemma_cancel, lemma_quotient,
    lemma_square, lemma_tens, lemma_times_order, tens,
};
use crate::audio::features::{
    level_of, level_sum, mean_of, narrowed_of, square_sum, variance_of,
};
use crate::audio::synth::{
    change_of, delay_read, echo_of, fed_back, filtered_of, framed, heard, heard_channel, mix_of, ping_of,
    played, rate_of, sample_of, sampled, thinned, total_change_of, tremolo_of, tremolo_turn,
    triggered, SynthView,
};
use crate::audio::voice::exact_sine;
use crate::exact::{exact_as, lemma_rsum_nonnegative, lemma_rsum_same, rsum, size};
use crate::scalar::{
    count_of, decimal_of, functional, integer_of, neg_of, over_of, plus_of, rem_of, tanh_of,
    tau_of, times_of,
};

/// The low-pass filter follows what is heard: each sample it goes the same part of the way, one
/// less the exponential of -1400 turns over the rate.
pub proof fn law_filter_follows_what_is_heard<S: Real>(
    v: spec_fn(S) -> real,
    ex: spec_fn(real) -> real,
    s: SynthView<S>,
    right: bool,
    i: usize,
    a: real,
)
    requires
        exact_exp(v, ex),
        s.sample_rate > 0,
        v(tau_of::<S>()) > 0real,
        a * (s.sample_rate as int as real) == -1400real * v(tau_of::<S>()),
    ensures
        ({
            let state = if right {
                v(s.lp_state_r)
            } else {
                v(s.lp_state_l)
            };
            let now = v(
                mix_of(s.pings, tremolo_of(s, i), rate_of(s), right, s.pings.len()),
            );
            let got = v(filtered_of(s, right, i));
            &&& got - state == (1real - ex(a)) * (now - state)
            &&& 0real < ex(a) < 1real
            &&& v(sampled(s, i).lp_state_l) == v(filtered_of(s, false, i))
            &&& v(sampled(s, i).lp_state_r) == v(filtered_of(s, true, i))
        }),
{
    let r = s.sample_rate as int as real;
    let t = v(tau_of::<S>());
    assert(v(rate_of(s)) == r && r > 0real);
    assert(v(integer_of::<S>(1i64)) == 1real);
    assert(v(integer_of::<S>(1400i64)) == 1400real);
    let x = over_of(
        times_of(neg_of(tau_of::<S>()), integer_of::<S>(1400i64)),
        rate_of(s),
    );
    assert(v(x) == (-t * 1400real) / r);
    lemma_quotient(-t * 1400real, r);
    lemma_cancel(v(x), a, r);
    assert(0real * r == 0real) by (nonlinear_arith);
    lemma_times_order(a, 0real, r);
    assert(ex(a) < ex(0real));
}

/// The tremolo swings between 0.7 and 1, six times in a second, from where the last frame left
/// off.
pub proof fn law_tremolo_swings<S: Real>(
    v: spec_fn(S) -> real,
    sn: spec_fn(real) -> real,
    s: SynthView<S>,
    i: usize,
    a: real,
)
    requires
        exact_decimals(v),
        exact_sine(v, sn),
        s.sample_rate > 0,
        (a - v(s.tremolo_phase)) * (s.sample_rate as int as real) == 6real * v(tau_of::<S>()) * (
        i as int as real),
    ensures
        100real * v(tremolo_of(s, i)) == 85real + 15real * sn(a),
        70real <= 100real * v(tremolo_of(s, i)) <= 100real,
{
    lemma_tens();
    assert(v(decimal_of::<S>(15i64, 2u32)) * tens(2) == 15real);
    assert(v(decimal_of::<S>(85i64, 2u32)) * tens(2) == 85real);
    assert(v(integer_of::<S>(6i64)) == 6real);
    let r = s.sample_rate as int as real;
    let t = v(tau_of::<S>());
    let n = i as int as real;
    let turn = v(tremolo_turn(s, i));
    assert(turn == ((t * 6real) * n) / r);
    lemma_quotient((t * 6real) * n, r);
    assert((t * 6real) * n == 6real * t * n) by (nonlinear_arith);
    lemma_cancel(turn, a - v(s.tremolo_phase), r);
    let y = sn(a);
    assert(v(tremolo_of(s, i)) == y * (15real / 100real) + 85real / 100real) by {
        assert(v(decimal_of::<S>(15i64, 2u32)) == 15real / 100real);
    }
}

/// The tremolo goes on from frame to frame: after `n` samples its phase has turned on as far as
/// six turns a second take it, but for whole turns, which are counted. `k` is how many turns a
/// remainder leaves out.
pub proof fn law_tremolo_goes_on<S: Real>(
    v: spec_fn(S) -> real,
    s: SynthView<S>,
    n: usize,
    k: spec_fn(S) -> int,
) -> (turns: int)
    requires
        exact_as(v),
        s.sample_rate > 0,
        forall|x: S| #[trigger]
            v(rem_of(x, tau_of::<S>())) == v(x) - (k(x) as real) * v(tau_of::<S>()),
    ensures
        (v(framed(s, n).tremolo_phase) + (turns as real) * v(tau_of::<S>()) - v(s.tremolo_phase))
            * (s.sample_rate as int as real) == 6real * v(tau_of::<S>()) * (n as int as real),
{
    let r = s.sample_rate as int as real;
    let t = v(tau_of::<S>());
    let m = n as int as real;
    let x = plus_of(s.tremolo_phase, tremolo_turn(s, n));
    let turn = v(tremolo_turn(s, n));
    assert(v(integer_of::<S>(6i64)) == 6real);
    assert(turn == ((t * 6real) * m) / r);
    lemma_quotient((t * 6real) * m, r);
    assert((t * 6real) * m == 6real * t * m) by (nonlinear_arith);
    let turns = k(x);
    assert(v(framed(s, n).tremolo_phase) + (turns as real) * t - v(s.tremolo_phase) == turn);
    turns
}

/// A place of the echo's memory, around its end.
pub open spec fn wrapped(x: int) -> int {
    if x < DELAY_BUFFER_SIZE {
        x
    } else {
        x - DELAY_BUFFER_SIZE
    }
}

/// What one sample does to the echo's memory.
proof fn lemma_echo_step<S: Real>(s: SynthView<S>, i: usize)
    requires
        s.delay_buffer.len() == DELAY_BUFFER_SIZE,
        s.delay_pos < DELAY_BUFFER_SIZE,
    ensures
        sampled(s, i).delay_buffer.len() == DELAY_BUFFER_SIZE,
        sampled(s, i).delay_pos == wrapped(s.delay_pos + 2),
        sampled(s, i).delay_buffer[s.delay_pos as int] == fed_back(s, false, i),
        sampled(s, i).delay_buffer[wrapped(s.delay_pos + 1)] == fed_back(s, true, i),
        forall|q: int|
            0 <= q < DELAY_BUFFER_SIZE && q != s.delay_pos && q != wrapped(s.delay_pos + 1)
                ==> #[trigger] sampled(s, i).delay_buffer[q] == s.delay_buffer[q],
{
    let n = DELAY_BUFFER_SIZE as int;
    let p = s.delay_pos as int;
    assert((p + 1) % n == wrapped(p + 1));
    assert((p + 2) % n == wrapped(p + 2));
    let l = fed_back(s, false, i);
    let r = fed_back(s, true, i);
    let b = s.delay_buffer.update(p, l).update(wrapped(p + 1), r);
    assert(sampled(s, i).delay_buffer == b);
}

/// What was fed into the echo stays there until its memory has gone round.
proof fn lemma_echo_kept<S: Real>(s: SynthView<S>, t: nat, j: nat)
    requires
        played(s, t).delay_buffer.len() == DELAY_BUFFER_SIZE,
        played(s, t).delay_pos < DELAY_BUFFER_SIZE,
        1 <= j,
        2 * j < DELAY_BUFFER_SIZE,
    ensures
        ({
            let from = played(s, t);
            let to = played(s, t + j);
            &&& to.delay_buffer.len() == DELAY_BUFFER_SIZE
            &&& to.delay_pos == wrapped(from.delay_pos + 2 * j)
            &&& to.delay_buffer[from.delay_pos as int] == fed_back(from, false, t as usize)
            &&& to.delay_buffer[wrapped(from.delay_pos + 1)] == fed_back(from, true, t as usize)
        }),
    decreases j,
{
    let from = played(s, t);
    let m = (t + j - 1) as nat;
    let before = played(s, m);
    assert(played(s, t + j) == sampled(before, m as usize));
    let p = from.delay_pos as int;
    if j > 1 {
        let k = (j - 1) as nat;
        lemma_echo_kept(s, t, k);
        assert(t + k == m);
        lemma_echo_step(before, m as usize);
        let q = wrapped(p + 2 * k);
        assert(before.delay_pos == q);
        assert(wrapped(q + 2) == wrapped(p + 2 * j));
        assert(p != q && p != wrapped(q + 1));
        assert(wrapped(p + 1) != q && wrapped(p + 1) != wrapped(q + 1));
    } else {
        assert(m == t);
        lemma_echo_step(from, t as usize);
    }
}

/// What is heard comes back from the other side: what the left side feeds into the echo returns
/// on the right 3307 samples later, and what the right side feeds returns on the left 3308
/// samples later.
pub proof fn law_echoes_return<S: Real>(s: SynthView<S>, t: nat)
    requires
        played(s, t).delay_buffer.len() == DELAY_BUFFER_SIZE,
        played(s, t).delay_pos < DELAY_BUFFER_SIZE,
    ensures
        echo_of(played(s, t + 3307), true) == fed_back(played(s, t), false, t as usize),
        echo_of(played(s, t + 3308), false) == fed_back(played(s, t), true, t as usize),
{
    lemma_echo_kept(s, t, 3307);
    lemma_echo_kept(s, t, 3308);
    let p = played(s, t).delay_pos as int;
    let a = played(s, t + 3307);
    let b = played(s, t + 3308);
    assert(delay_read(a.delay_pos, true) == p);
    assert(delay_read(b.delay_pos, false) == wrapped(p + 1));
}

/// What is fed into the echo is the filtered sound and 0.35 of the echo itself, so an echo dies
/// away.
pub proof fn law_echoes_die_away<S: Real>(
    v: spec_fn(S) -> real,
    s: SynthView<S>,
    right: bool,
    i: usize,
)
    requires
        exact_decimals(v),
    ensures
        100real * v(fed_back(s, right, i)) == 100real * v(filtered_of(s, right, i)) + 35real * v(
            echo_of(s, right),
        ),
{
    lemma_tens();
    let f = decimal_of::<S>(35i64, 2u32);
    assert(v(f) * tens(2) == 35real);
    assert(v(f) == 35real / 100real);
    let e = v(echo_of(s, right));
    assert(v(times_of(echo_of(s, right), f)) == e * (35real / 100real));
}

/// A sample is the filtered sound and 0.3 of the echo, five times as loud and smoothly limited:
/// `y` is that sound, and the sample is its hyperbolic tangent of the whole range, without the
/// fraction.
pub proof fn law_samples_are_limited_sound<S: Real>(
    v: spec_fn(S) -> real,
    th: spec_fn(real) -> real,
    s: SynthView<S>,
    right: bool,
    i: usize,
    y: real,
)
    requires
        exact_decimals(v),
        exact_tanh(v, th),
        exact_samples(v),
        y == 5real * v(filtered_of(s, right, i)) + (3real / 2real) * v(echo_of(s, right)),
    ensures
        ({
            let out = sample_of(s, right, i) as int as real;
            &&& y >= 0real ==> 0real <= out <= 32767real * th(y) < out + 1real
            &&& y <= 0real ==> out - 1real < 32767real * th(y) <= out <= 0real
        }),
{
    lemma_tens();
    let f = decimal_of::<S>(30i64, 2u32);
    assert(v(f) * tens(2) == 30real);
    assert(v(f) == 30real / 100real);
    assert(v(integer_of::<S>(5i64)) == 5real);
    assert(v(integer_of::<S>(32767i64)) == 32767real);
    assert(v(integer_of::<S>(-32768i64)) == -32768real);
    let e = v(echo_of(s, right));
    let wet = plus_of(filtered_of(s, right, i), times_of(echo_of(s, right), f));
    assert(v(times_of(echo_of(s, right), f)) == e * (30real / 100real));
    assert(v(times_of(wet, integer_of::<S>(5i64))) == y);
    assert(y > 0real ==> th(0real) < th(y));
    assert(y < 0real ==> th(y) < th(0real));
    let out = tanh_of(times_of(wet, integer_of::<S>(5i64)));
    assert(v(times_of(out, integer_of::<S>(32767i64))) == th(y) * 32767real);
}

/// A channel that does not wait fires exactly when its spread changed by 0.000001 or more. The
/// ping is that of the channel, the brightness and the change; either way the channel remembers
/// the spread, and the others are left alone.
pub proof fn law_changes_fire_pings<S: Real>(
    v: spec_fn(S) -> real,
    s: SynthView<S>,
    ch: int,
    variance: S,
    brightness: S,
)
    requires
        exact_decimals(v),
        exact_order(v),
        s.wf(),
        0 <= ch < 3,
    ensures
        ({
            let next = heard_channel(s, ch, variance, brightness);
            let change = change_of(s, ch, variance);
            let fires = s.channels[ch].cooldown <= 1 && 1000000real * size(
                v(variance) - v(s.channels[ch].prev_variance),
            ) >= 1real;
            &&& v(change) == size(v(variance) - v(s.channels[ch].prev_variance))
            &&& fires ==> next.pings == thinned(s.pings).push(
                ping_of(s.channels[ch].base_freq, brightness, change, ch, s.noise_seed),
            )
            &&& !fires ==> next.pings == s.pings && next.noise_seed == s.noise_seed
            &&& next.channels[ch].prev_variance == variance
            &&& next.channels[ch].base_freq == s.channels[ch].base_freq
            &&& forall|c: int| 0 <= c < 3 && c != ch ==> #[trigger] next.channels[c] == s.channels[c]
        }),
{
    lemma_tens();
    let least = decimal_of::<S>(1i64, 6u32);
    assert(v(least) * tens(6) == 1real);
    assert(v(least) == 1real / 1000000real);
}

/// Hearing a channel keeps what the others remember.
proof fn lemma_heard_keeps<S: Real>(
    s: SynthView<S>,
    ch: int,
    variance: S,
    brightness: S,
)
    requires
        s.channels.len() == 3,
        0 <= ch < 3,
    ensures
        ({
            let next = heard_channel(s, ch, variance, brightness);
            &&& next.channels.len() == 3
            &&& next.channels[ch].prev_variance == variance
            &&& forall|c: int| 0 <= c < 3 && c != ch ==> #[trigger] next.channels[c] == s.channels[c]
        }),
{
}

/// Activity follows change: after a frame that is not the first it is 0.85 of what it was and
/// 0.15 of the changes of all channels together; every channel remembers its spread.
pub proof fn law_activity_follows_change<S: Real>(
    v: spec_fn(S) -> real,
    s: SynthView<S>,
    variances: Seq<S>,
    means: Seq<S>,
)
    requires
        exact_decimals(v),
        s.wf(),
        variances.len() == 3,
        means.len() == 3,
    ensures
        ({
            let next = triggered(s, variances, means);
            &&& s.has_prev_frame ==> 100real * v(next.smoothed_activity) == 85real * v(
                s.smoothed_activity,
            ) + 15real * rsum(
                |c: int| size(v(variances[c]) - v(s.channels[c].prev_variance)),
                3,
            )
            &&& !s.has_prev_frame ==> next.smoothed_activity == s.smoothed_activity && next.pings
                == s.pings
            &&& next.has_prev_frame || s.has_prev_frame
            &&& forall|c: int|
                0 <= c < 3 ==> (#[trigger] next.channels[c]).prev_variance == variances[c]
        }),
{
    let next = triggered(s, variances, means);
    if s.has_prev_frame {
        lemma_tens();
        let old_part = decimal_of::<S>(85i64, 2u32);
        let new_part = decimal_of::<S>(15i64, 2u32);
        assert(v(old_part) * tens(2) == 85real);
        assert(v(new_part) * tens(2) == 15real);
        assert(v(old_part) == 85real / 100real);
        assert(v(new_part) == 15real / 100real);
        assert(v(integer_of::<S>(0i64)) == 0real);
        let h0 = heard(s, variances, means, 0);
        let h1 = heard(s, variances, means, 1);
        let h2 = heard(s, variances, means, 2);
        let h3 = heard(s, variances, means, 3);
        assert(h0 == s);
        assert(h1 == heard_channel(h0, 0, variances[0], means[0]));
        lemma_heard_keeps(h0, 0, variances[0], means[0]);
        assert(h2 == heard_channel(h1, 1, variances[1], means[1]));
        lemma_heard_keeps(h1, 1, variances[1], means[1]);
        assert(h3 == heard_channel(h2, 2, variances[2], means[2]));
        lemma_heard_keeps(h2, 2, variances[2], means[2]);
        assert(h2.channels[2] == h1.channels[2] && h1.channels[2] == s.channels[2]);
        assert(h1.channels[1] == s.channels[1]);
        assert(h3.channels[0] == h2.channels[0] && h2.channels[0] == h1.channels[0]);
        assert(h3.channels[1] == h2.channels[1]);
        let f = |c: int| size(v(variances[c]) - v(s.channels[c].prev_variance));
        let t0 = total_change_of(s, variances, means, 0);
        let t1 = total_change_of(s, variances, means, 1);
        let t2 = total_change_of(s, variances, means, 2);
        let t3 = total_change_of(s, variances, means, 3);
        assert(v(t0) == 0real);
        assert(t1 == plus_of(t0, change_of(h0, 0, variances[0])));
        assert(v(t1) == f(0));
        assert(t2 == plus_of(t1, change_of(h1, 1, variances[1])));
        assert(v(t2) == f(0) + f(1));
        assert(t3 == plus_of(t2, change_of(h2, 2, variances[2])));
        assert(v(t3) == f(0) + f(1) + f(2));
        assert(rsum(f, 0) == 0real);
        assert(rsum(f, 1) == rsum(f, 0) + f(0));
        assert(rsum(f, 2) == rsum(f, 1) + f(1));
        assert(rsum(f, 3) == rsum(f, 2) + f(2));
        assert(v(next.smoothed_activity) == v(s.smoothed_activity) * (85real / 100real) + v(t3) * (
        15real / 100real));
    }
}

/// Levels and their squares, added up.
proof fn lemma_levels<W: Real>(v: spec_fn(W) -> real, rgb: Seq<u8>, ch: int, n: nat)
    requires
        exact_as(v),
    ensures
        v(level_sum::<W>(rgb, ch, n)) == rsum(|p: int| rgb[3 * p + ch] as int as real / 255real, n),
        v(square_sum::<W>(rgb, ch, n)) == rsum(
            |p: int|
                (rgb[3 * p + ch] as int as real / 255real) * (rgb[3 * p + ch] as int as real
                    / 255real),
            n,
        ),
    decreases n,
{
    assert(v(integer_of::<W>(0i64)) == 0real);
    assert(v(integer_of::<W>(255i64)) == 255real);
    if n > 0 {
        lemma_levels(v, rgb, ch, (n - 1) as nat);
        let b = rgb[3 * (n - 1) + ch];
        assert(v(count_of::<W>(b as usize)) == b as int as real);
        assert(v(level_of::<W>(b)) == b as int as real / 255real);
    }
}

/// Squares of deviations, added up.
proof fn lemma_deviations(l: spec_fn(int) -> real, m: real, n: nat)
    ensures
        rsum(|p: int| (l(p) - m) * (l(p) - m), n) == rsum(|p: int| l(p) * l(p), n) - 2real * m
            * rsum(l, n) + (n as real) * (m * m),
    decreases n,
{
    if n == 0 {
        let z = m * m;
        assert(0real * z == 0real && 2real * m * 0real == 0real) by (nonlinear_arith);
    } else {
        let k = (n - 1) as nat;
        lemma_deviations(l, m, k);
        let x = l(n - 1);
        let s = rsum(l, k);
        let z = m * m;
        let c = k as real;
        assert((x - m) * (x - m) == x * x - 2real * m * x + m * m) by (nonlinear_arith);
        assert(2real * m * (s + x) == 2real * m * s + 2real * m * x) by (nonlinear_arith);
        assert((c + 1real) * z == c * z + z) by (nonlinear_arith);
        assert(n as real == c + 1real);
    }
}

/// What is heard of a picture: the mean of a channel is the mean of its bytes, of 255, and the
/// spread is the mean of the squares by which they deviate from it.
pub proof fn law_features_are_mean_and_spread<W: Real, S: Real>(
    vw: spec_fn(W) -> real,
    v: spec_fn(S) -> real,
    rgb: &[u8],
    side: usize,
    f: AudioFeatures<S>,
    ch: int,
)
    requires
        exact_as(vw),
        exact_order(v),
        forall|x: W| v(#[trigger] narrowed_of::<W, S>(x)) == vw(x),
        functional::<W>(),
        functional::<S>(),
        0 < side,
        side * side * 3 <= rgb@.len(),
        call_ensures(extract_features::<W, S>, (rgb, side), f),
        0 <= ch < 3,
    ensures
        ({
            let n = (side * side) as nat;
            let level = |p: int| rgb@[3 * p + ch] as int as real / 255real;
            let mean = v(f.channel_means@[ch]);
            &&& mean * (n as real) == rsum(level, n)
            &&& v(f.channel_variances@[ch]) * (n as real) == rsum(
                |p: int| (level(p) - mean) * (level(p) - mean),
                n,
            )
        }),
{
    let n = (side * side) as nat;
    assert(n > 0) by (nonlinear_arith)
        requires
            n == side * side,
            side > 0,
    ;
    assert(side * side <= side * side * 3);
    assert(rgb.len() == rgb@.len());
    let u = n as usize;
    let c = n as real;
    let level = |p: int| rgb@[3 * p + ch] as int as real / 255real;
    let mean = v(f.channel_means@[ch]);
    let sq = |p: int| level(p) * level(p);
    lemma_levels(vw, rgb@, ch, n);
    lemma_rsum_same(|p: int| rgb@[3 * p + ch] as int as real / 255real, level, n);
    lemma_rsum_same(
        |p: int|
            (rgb@[3 * p + ch] as int as real / 255real) * (rgb@[3 * p + ch] as int as real
                / 255real),
        sq,
        n,
    );
    assert(vw(count_of::<W>(u)) == c);
    assert(f.channel_means@[ch] == mean_of::<W, S>(rgb@, ch, u));
    assert(f.channel_variances@[ch] == variance_of::<W, S>(rgb@, ch, u));
    let total = rsum(level, n);
    let squares = rsum(sq, n);
    assert(mean == total / c);
    lemma_quotient(total, c);
    let mean_sq = squares / c;
    lemma_quotient(squares, c);
    lemma_deviations(level, mean, n);
    let dev = |p: int| (level(p) - mean) * (level(p) - mean);
    assert forall|p: int| 0 <= p < n implies #[trigger] dev(p) >= 0real by {
        lemma_square(level(p) - mean);
    }
    lemma_rsum_nonnegative(dev, n);
    let d = rsum(dev, n);
    let mm = mean * mean;
    assert(2real * mean * total == 2real * (c * mm)) by (nonlinear_arith)
        requires
            mean * c == total,
            mm == mean * mean,
    ;
    lemma_rsum_same(|p: int| (level(p) - mean) * (level(p) - mean), dev, n);
    lemma_rsum_same(|p: int| level(p) * level(p), sq, n);
    assert(d == squares - c * mm);
    assert((mean_sq - mm) * c == squares - c * mm) by (nonlinear_arith)
        requires
            mean_sq * c == squares,
    ;
    let spread = mean_sq - mm;
    assert(0real * c == 0real) by (nonlinear_arith);
    lemma_times_order(spread, 0real, c);
    assert(v(integer_of::<S>(0i64)) == 0real);
}

} // verus!
