//! Without change there is no sound, where arithmetic does not round.

use crate::audio::synth::ChannelState;
use crate::scalar::Real;
use vstd::prelude::*;

verus! {

use crate::audio::synth::{
    aged_all, alpha_of, change_of, delay_read, echo_of, fed_back, filtered_of, framed,
    fresh, heard, heard_channel, mix_of, played, rate_of, sample_of, sampled, samples_of,
    tremolo_of, triggered, SynthView, DELAY_BUFFER_SIZE,
};
use crate::exact::exact_as;
use crate::scalar::{
    abs_of, below_of, decimal_of, integer_of, minus_of, tanh_of, to_sample_of,
};

/// Whether arithmetic does not round, no change is below the smallest change that is heard,
/// and what stands for zero limits to zero and sounds like nothing.
pub open spec fn exact_sound<S: Real>(v: spec_fn(S) -> real) -> bool {
    &&& exact_as(v)
    &&& forall|x: S| below_of(#[trigger] abs_of(minus_of(x, x)), decimal_of::<S>(1i64, 6u32))
    &&& forall|x: S| v(x) == 0real ==> v(#[trigger] tanh_of(x)) == 0real
    &&& forall|x: S| v(x) == 0real ==> #[trigger] to_sample_of(x) == 0
}

/// Whether nothing sounds: no pings, filters at rest, no echo.
pub open spec fn quiet<S: Real>(v: spec_fn(S) -> real, s: SynthView<S>) -> bool {
    &&& s.pings.len() == 0
    &&& v(s.lp_state_l) == 0real
    &&& v(s.lp_state_r) == 0real
    &&& s.delay_buffer.len() == DELAY_BUFFER_SIZE
    &&& s.delay_pos < DELAY_BUFFER_SIZE
    &&& forall|i: int| 0 <= i < s.delay_buffer.len() ==> v(#[trigger] s.delay_buffer[i]) == 0real
}

/// Nothing is still nothing times anything.
proof fn lemma_nothing(x: real)
    ensures
        0real * x == 0real,
        x * 0real == 0real,
{
    assert(0real * x == 0real && x * 0real == 0real) by (nonlinear_arith);
}

/// On one side of a quiet synthesiser, filter and echo stay at rest.
proof fn lemma_quiet_side<S: Real>(
    v: spec_fn(S) -> real,
    s: SynthView<S>,
    right: bool,
    i: usize,
)
    requires
        exact_as(v),
        quiet(v, s),
    ensures
        v(filtered_of(s, right, i)) == 0real,
        v(echo_of(s, right)) == 0real,
        v(fed_back(s, right, i)) == 0real,
{
    let state = if right {
        s.lp_state_r
    } else {
        s.lp_state_l
    };
    let heard = mix_of(s.pings, tremolo_of(s, i), rate_of(s), right, s.pings.len());
    assert(heard == integer_of::<S>(0i64));
    assert(v(heard) == 0real);
    assert(v(minus_of(heard, state)) == 0real);
    lemma_nothing(v(alpha_of(s)));
    let at = delay_read(s.delay_pos, right);
    assert(0 <= at < DELAY_BUFFER_SIZE);
    assert(v(s.delay_buffer[at]) == 0real);
    lemma_nothing(v(decimal_of::<S>(35i64, 2u32)));
}

/// Every sample of a synthesiser without pings, filter state and echo is zero.
pub proof fn law_quiet_samples_are_zero<S: Real>(
    v: spec_fn(S) -> real,
    s: SynthView<S>,
    right: bool,
    i: usize,
)
    requires
        exact_sound(v),
        quiet(v, s),
    ensures
        sample_of(s, right, i) == 0,
        quiet(v, sampled(s, i)),
{
    lemma_quiet_side(v, s, false, i);
    lemma_quiet_side(v, s, true, i);
    lemma_nothing(v(decimal_of::<S>(30i64, 2u32)));
    lemma_nothing(5real);
    lemma_nothing(32767real);
    assert(v(integer_of::<S>(5i64)) == 5real);
    assert(v(integer_of::<S>(32767i64)) == 32767real);
    assert(v(integer_of::<S>(-32768i64)) == -32768real);
    let next = sampled(s, i);
    assert(aged_all(s.pings, rate_of(s)).len() == 0);
    assert forall|k: int| 0 <= k < next.delay_buffer.len() implies v(
        #[trigger] next.delay_buffer[k],
    ) == 0real by {
        assert(v(s.delay_buffer[k]) == 0real);
    }
}

/// A quiet synthesiser stays quiet while it plays.
proof fn lemma_quiet_played<S: Real>(v: spec_fn(S) -> real, s: SynthView<S>, n: nat)
    requires
        exact_sound(v),
        quiet(v, s),
    ensures
        quiet(v, played(s, n)),
    decreases n,
{
    if n > 0 {
        lemma_quiet_played(v, s, (n - 1) as nat);
        law_quiet_samples_are_zero(v, played(s, (n - 1) as nat), false, (n - 1) as usize);
    }
}

/// A quiet synthesiser plays nothing but zeros, and is quiet afterwards.
pub proof fn law_quiet_frames_are_zero<S: Real>(v: spec_fn(S) -> real, s: SynthView<S>, n: usize)
    requires
        exact_sound(v),
        quiet(v, s),
    ensures
        samples_of(s, n as nat) == Seq::new(2 * n as nat, |k: int| 0i16),
        quiet(v, framed(s, n)),
{
    let out = samples_of(s, n as nat);
    assert forall|k: int| 0 <= k < out.len() implies #[trigger] out[k] == 0 by {
        let t = (k / 2) as nat;
        lemma_quiet_played(v, s, t);
        law_quiet_samples_are_zero(v, played(s, t), k % 2 == 1, t as usize);
    }
    assert(out =~= Seq::new(2 * n as nat, |k: int| 0i16));
    lemma_quiet_played(v, s, n as nat);
}

/// Whether a synthesiser compares with the given spreads: it has heard them last, or nothing
/// yet.
pub open spec fn follows<S: Real>(s: SynthView<S>, variances: Seq<S>) -> bool {
    &&& s.channels.len() == 3
    &&& s.has_prev_frame ==> forall|ch: int|
        0 <= ch < 3 ==> (#[trigger] s.channels[ch]).prev_variance == variances[ch]
}

/// Hearing one channel without change keeps everything but the wait of that channel.
proof fn lemma_unchanged_channel<S: Real>(
    v: spec_fn(S) -> real,
    s: SynthView<S>,
    ch: int,
    variance: S,
    brightness: S,
)
    requires
        exact_sound(v),
        s.channels.len() == 3,
        0 <= ch < 3,
        s.channels[ch].prev_variance == variance,
    ensures
        ({
            let next = heard_channel(s, ch, variance, brightness);
            &&& next == (SynthView { channels: next.channels, ..s })
            &&& next.channels.len() == 3
            &&& forall|c: int|
                0 <= c < 3 ==> (#[trigger] next.channels[c]).prev_variance
                    == s.channels[c].prev_variance
        }),
{
    assert(below_of(abs_of(minus_of(variance, variance)), decimal_of::<S>(1i64, 6u32)));
    assert(change_of(s, ch, variance) == abs_of(minus_of(variance, variance)));
    let state = s.channels[ch];
    let cooldown = if state.cooldown > 0 {
        (state.cooldown - 1) as usize
    } else {
        state.cooldown
    };
    let next = heard_channel(s, ch, variance, brightness);
    assert(next.channels == s.channels.update(
        ch,
        ChannelState { cooldown, prev_variance: variance, base_freq: state.base_freq },
    ));
}

/// Hearing a frame without change keeps a quiet synthesiser quiet.
proof fn lemma_unchanged_frame<S: Real>(
    v: spec_fn(S) -> real,
    s: SynthView<S>,
    variances: Seq<S>,
    means: Seq<S>,
)
    requires
        exact_sound(v),
        quiet(v, s),
        follows(s, variances),
    ensures
        quiet(v, triggered(s, variances, means)),
        follows(triggered(s, variances, means), variances),
{
    if s.has_prev_frame {
        let a = heard(s, variances, means, 1);
        let b = heard(s, variances, means, 2);
        assert(heard(s, variances, means, 0) == s);
        assert(s.channels[0].prev_variance == variances[0]);
        assert(s.channels[1].prev_variance == variances[1]);
        assert(s.channels[2].prev_variance == variances[2]);
        assert(a == heard_channel(s, 0, variances[0], means[0]));
        lemma_unchanged_channel(v, s, 0, variances[0], means[0]);
        assert(a.channels[1].prev_variance == variances[1]);
        assert(b == heard_channel(a, 1, variances[1], means[1]));
        lemma_unchanged_channel(v, a, 1, variances[1], means[1]);
        assert(b.channels[2].prev_variance == variances[2]);
        let c = heard(s, variances, means, 3);
        assert(c == heard_channel(b, 2, variances[2], means[2]));
        lemma_unchanged_channel(v, b, 2, variances[2], means[2]);
        assert forall|ch: int| 0 <= ch < 3 implies (#[trigger] c.channels[ch]).prev_variance
            == variances[ch] by {
            assert(b.channels[ch].prev_variance == a.channels[ch].prev_variance);
            assert(a.channels[ch].prev_variance == s.channels[ch].prev_variance);
        }
    }
}

/// Playing does not change what a synthesiser compares with.
proof fn lemma_played_follows<S: Real>(s: SynthView<S>, n: nat)
    ensures
        played(s, n).channels == s.channels,
        played(s, n).has_prev_frame == s.has_prev_frame,
    decreases n,
{
    if n > 0 {
        lemma_played_follows(s, (n - 1) as nat);
    }
}

/// A synthesiser after the first `t` frames: frame `i` has the given spreads, brightness
/// `means[i]` and `counts[i]` samples.
pub open spec fn after_frames<S: Real>(
    s: SynthView<S>,
    variances: Seq<S>,
    means: Seq<Seq<S>>,
    counts: Seq<usize>,
    t: nat,
) -> SynthView<S>
    decreases t,
{
    if t == 0 {
        s
    } else {
        framed(
            triggered(
                after_frames(s, variances, means, counts, (t - 1) as nat),
                variances,
                means[t - 1],
            ),
            counts[t - 1],
        )
    }
}

/// A synthesiser is quiet after any number of frames whose spread does not change.
proof fn lemma_quiet_frames<S: Real>(
    v: spec_fn(S) -> real,
    s: SynthView<S>,
    variances: Seq<S>,
    means: Seq<Seq<S>>,
    counts: Seq<usize>,
    t: nat,
)
    requires
        exact_sound(v),
        quiet(v, s),
        follows(s, variances),
    ensures
        quiet(v, after_frames(s, variances, means, counts, t)),
        follows(after_frames(s, variances, means, counts, t), variances),
    decreases t,
{
    if t > 0 {
        let m = (t - 1) as nat;
        let before = after_frames(s, variances, means, counts, m);
        lemma_quiet_frames(v, s, variances, means, counts, m);
        lemma_unchanged_frame(v, before, variances, means[t - 1]);
        let told = triggered(before, variances, means[t - 1]);
        law_quiet_frames_are_zero(v, told, counts[t - 1]);
        lemma_played_follows(told, counts[t - 1] as nat);
    }
}

/// There is no continuous noise: every frame that a new synthesiser plays is silent as long
/// as the spread of no channel changes, however the brightness does.
pub proof fn law_no_change_no_sound<S: Real>(
    v: spec_fn(S) -> real,
    sample_rate: u32,
    variances: Seq<S>,
    means: Seq<Seq<S>>,
    counts: Seq<usize>,
    t: int,
)
    requires
        exact_sound(v),
        variances.len() == 3,
        means.len() == counts.len(),
        0 <= t < counts.len(),
    ensures
        samples_of(
            triggered(
                after_frames(fresh::<S>(sample_rate), variances, means, counts, t as nat),
                variances,
                means[t],
            ),
            counts[t] as nat,
        ) == Seq::new(2 * counts[t] as nat, |k: int| 0i16),
{
    let start = fresh::<S>(sample_rate);
    assert(v(integer_of::<S>(0i64)) == 0real);
    assert(quiet(v, start));
    lemma_quiet_frames(v, start, variances, means, counts, t as nat);
    let before = after_frames(start, variances, means, counts, t as nat);
    lemma_unchanged_frame(v, before, variances, means[t]);
    law_quiet_frames_are_zero(v, triggered(before, variances, means[t]), counts[t]);
}

} // verus!
