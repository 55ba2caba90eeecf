//! The synthesiser: when pings are fired and what they sound like.

use crate::audio::features::{extract_features, AudioFeatures};
use crate::scalar::Real;
use vstd::prelude::*;

verus! {

use crate::audio::features::{mean_of, variance_of};
use crate::scalar::{
    abs_of, at_most_of, below_of, clamp_of, count_of, decimal_of, exp_of, functional,
    greatest_of, integer_of, least_of, minus_of, neg_of, over_of, plus_of, powf_of, rem_of,
    sin_of, tanh_of, tau_of, times_of, to_sample_of, to_size_of,
};

/// How many pings may sound at once.
pub const MAX_PINGS: usize = 10;

/// The length of the shortest ping in samples.
pub const PING_MIN_SAMPLES: usize = 250;

/// The length of the longest ping in samples.
pub const PING_MAX_SAMPLES: usize = 3000;

/// The fewest frames between pings of a channel.
pub const COOLDOWN_MIN: usize = 2;

/// The most frames between pings of a channel.
pub const COOLDOWN_MAX: usize = 10;

/// The length of the echo's memory.
pub const DELAY_BUFFER_SIZE: usize = 16384;

/// How far back the echo reaches.
pub const DELAY_TIME_SAMPLES: usize = 6615;

/// A tone that sweeps from one frequency to another and dies away.
pub struct Ping<S> {
    pub phase: S,
    pub freq_start: S,
    pub freq_end: S,
    /// Samples that are left.
    pub remaining: usize,
    pub total_duration: usize,
    pub amplitude: S,
    /// From left, zero, to right, one.
    pub pan: S,
}

impl<S: Copy> Copy for Ping<S> {

}

impl<S: Copy> Clone for Ping<S> {
    fn clone(&self) -> (r: Self)
        ensures
            r == *self,
    {
        *self
    }
}

/// What the synthesiser keeps of a channel.
pub struct ChannelState<S> {
    pub cooldown: usize,
    pub prev_variance: S,
    pub base_freq: S,
}

impl<S: Copy> Copy for ChannelState<S> {

}

impl<S: Copy> Clone for ChannelState<S> {
    fn clone(&self) -> (r: Self)
        ensures
            r == *self,
    {
        *self
    }
}

/// A synthesiser.
pub struct AudioSynth<S> {
    pub sample_rate: u32,
    pub pings: Vec<Ping<S>>,
    pub channels: Vec<ChannelState<S>>,
    /// Whether a frame was heard before; the first one fires nothing.
    pub has_prev_frame: bool,
    pub delay_buffer: Vec<S>,
    pub delay_pos: usize,
    pub lp_state_l: S,
    pub lp_state_r: S,
    pub tremolo_phase: S,
    pub noise_seed: u32,
    pub smoothed_activity: S,
}

/// A synthesiser as a value.
#[verifier::ext_equal]
pub struct SynthView<S> {
    pub sample_rate: u32,
    pub pings: Seq<Ping<S>>,
    pub channels: Seq<ChannelState<S>>,
    pub has_prev_frame: bool,
    pub delay_buffer: Seq<S>,
    pub delay_pos: usize,
    pub lp_state_l: S,
    pub lp_state_r: S,
    pub tremolo_phase: S,
    pub noise_seed: u32,
    pub smoothed_activity: S,
}

impl<S> View for AudioSynth<S> {
    type V = SynthView<S>;

    open spec fn view(&self) -> SynthView<S> {
        SynthView {
            sample_rate: self.sample_rate,
            pings: self.pings@,
            channels: self.channels@,
            has_prev_frame: self.has_prev_frame,
            delay_buffer: self.delay_buffer@,
            delay_pos: self.delay_pos,
            lp_state_l: self.lp_state_l,
            lp_state_r: self.lp_state_r,
            tremolo_phase: self.tremolo_phase,
            noise_seed: self.noise_seed,
            smoothed_activity: self.smoothed_activity,
        }
    }
}

/// Whether a ping sounds still, and is no longer than a ping may be.
pub open spec fn ping_ok<S>(p: Ping<S>) -> bool {
    &&& 0 < p.remaining <= p.total_duration
    &&& PING_MIN_SAMPLES <= p.total_duration <= PING_MAX_SAMPLES
}

impl<S> SynthView<S> {
    /// Three channels, no more pings than may sound at once, and an echo in its place.
    pub open spec fn wf(self) -> bool {
        &&& self.channels.len() == 3
        &&& self.pings.len() <= MAX_PINGS
        &&& forall|i: int| 0 <= i < self.pings.len() ==> ping_ok(#[trigger] self.pings[i])
        &&& forall|c: int|
            0 <= c < 3 ==> (#[trigger] self.channels[c]).cooldown <= COOLDOWN_MAX
        &&& self.delay_buffer.len() == DELAY_BUFFER_SIZE
        &&& self.delay_pos < DELAY_BUFFER_SIZE
    }
}

/// The next state of the noise generator.
pub open spec fn next_seed(seed: u32) -> u32 {
    ((seed * 1103515245 + 12345) % 4294967296) as u32
}

/// A state of the noise generator as a number from zero to one.
pub open spec fn noise_of<S: Real>(seed: u32) -> S {
    over_of(count_of::<S>(seed as usize), count_of::<S>(4294967295usize))
}

/// A number between two bounds.
pub open spec fn spread_of<S: Real>(noise: S, min: S, max: S) -> S {
    plus_of(min, times_of(noise, minus_of(max, min)))
}

impl<S: Real> Ping<S> {
    /// Whether samples are left.
    pub fn is_alive(&self) -> (b: bool)
        ensures
            b == (self.remaining > 0),
    {
        self.remaining > 0
    }

    /// The frequency at this point of the sweep.
    pub fn current_freq(&self) -> (f: S)
        ensures
            functional::<S>() ==> f == freq_of(*self),
    {
        let t = S::integer(1).minus(S::count(self.remaining).over(S::count(self.total_duration)));
        self.freq_start.plus(self.freq_end.minus(self.freq_start).times(t))
    }
}

/// The frequency of a ping: straight from its start to its end.
pub open spec fn freq_of<S: Real>(p: Ping<S>) -> S {
    let t = minus_of(
        integer_of::<S>(1i64),
        over_of(count_of::<S>(p.remaining), count_of::<S>(p.total_duration)),
    );
    plus_of(p.freq_start, times_of(minus_of(p.freq_end, p.freq_start), t))
}

/// The first of the quietest of the first `n` pings.
pub open spec fn quietest<S: Real>(pings: Seq<Ping<S>>, n: nat) -> int
    decreases n,
{
    if n <= 1 {
        0
    } else {
        let best = quietest(pings, (n - 1) as nat);
        if below_of(pings[n - 1].amplitude, pings[best].amplitude) {
            n - 1
        } else {
            best
        }
    }
}

/// The quietest ping is one of the pings.
pub proof fn lemma_quietest_bound<S: Real>(pings: Seq<Ping<S>>, n: nat)
    requires
        0 < n,
    ensures
        0 <= quietest(pings, n) < n,
    decreases n,
{
    if n > 1 {
        lemma_quietest_bound(pings, (n - 1) as nat);
    }
}

/// The pings after one was let go where no other has room.
pub open spec fn thinned<S: Real>(pings: Seq<Ping<S>>) -> Seq<Ping<S>> {
    if pings.len() >= MAX_PINGS {
        pings.remove(quietest(pings, pings.len()))
    } else {
        pings
    }
}

/// How large a change is, from none to one.
pub open spec fn change_norm_of<S: Real>(change: S) -> S {
    least_of(over_of(change, decimal_of::<S>(5i64, 5u32)), integer_of::<S>(1i64))
}

/// A share of a count, not above the count.
pub open spec fn share_of<S: Real>(whole: usize, share: S) -> usize {
    let n = to_size_of(times_of(count_of::<S>(whole), share));
    if n <= whole {
        n
    } else {
        whole
    }
}

/// The length of a ping: a larger change sounds longer.
pub open spec fn duration_of<S: Real>(change: S) -> usize {
    (PING_MIN_SAMPLES + share_of(2750, change_norm_of(change))) as usize
}

/// The frames until a channel may fire again: a larger change waits less.
pub open spec fn cooldown_of<S: Real>(change: S) -> usize {
    (COOLDOWN_MIN + share_of(
        8,
        minus_of(integer_of::<S>(1i64), change_norm_of(change)),
    )) as usize
}

/// The loudness of a ping.
pub open spec fn amplitude_of<S: Real>(change: S) -> S {
    greatest_of(
        least_of(times_of(change, integer_of::<S>(23400i64)), decimal_of::<S>(95i64, 2u32)),
        decimal_of::<S>(10i64, 2u32),
    )
}

/// Where a channel sounds from left to right.
pub open spec fn base_pan_of<S: Real>(ch: int) -> S {
    if ch == 0 {
        decimal_of::<S>(15i64, 2u32)
    } else if ch == 1 {
        decimal_of::<S>(5i64, 1u32)
    } else {
        decimal_of::<S>(85i64, 2u32)
    }
}

/// The ping that a channel fires.
pub open spec fn ping_of<S: Real>(base: S, brightness: S, change: S, ch: int, seed: u32) -> Ping<S> {
    let center = times_of(
        base,
        plus_of(decimal_of::<S>(8i64, 1u32), times_of(brightness, decimal_of::<S>(5i64, 1u32))),
    );
    let s1 = next_seed(seed);
    let s2 = next_seed(s1);
    let s3 = next_seed(s2);
    let sweep_up = below_of(decimal_of::<S>(5i64, 1u32), noise_of::<S>(s1));
    Ping {
        phase: spread_of(noise_of::<S>(s3), integer_of::<S>(0i64), tau_of::<S>()),
        freq_start: if sweep_up {
            times_of(center, decimal_of::<S>(6i64, 1u32))
        } else {
            times_of(center, decimal_of::<S>(15i64, 1u32))
        },
        freq_end: if sweep_up {
            times_of(center, decimal_of::<S>(14i64, 1u32))
        } else {
            times_of(center, decimal_of::<S>(5i64, 1u32))
        },
        remaining: duration_of(change),
        total_duration: duration_of(change),
        amplitude: amplitude_of(change),
        pan: clamp_of(
            plus_of(
                base_pan_of::<S>(ch),
                spread_of(
                    noise_of::<S>(s2),
                    decimal_of::<S>(-2i64, 1u32),
                    decimal_of::<S>(2i64, 1u32),
                ),
            ),
            integer_of::<S>(0i64),
            integer_of::<S>(1i64),
        ),
    }
}

/// The synthesiser after a channel fired a ping.
pub open spec fn fired<S: Real>(
    v: SynthView<S>,
    ch: int,
    change: S,
    brightness: S,
) -> SynthView<S> {
    SynthView {
        pings: thinned(v.pings).push(
            ping_of(v.channels[ch].base_freq, brightness, change, ch, v.noise_seed),
        ),
        channels: v.channels.update(
            ch,
            ChannelState { cooldown: cooldown_of(change), ..v.channels[ch] },
        ),
        noise_seed: next_seed(next_seed(next_seed(v.noise_seed))),
        ..v
    }
}

/// How much a channel's spread changed.
pub open spec fn change_of<S: Real>(v: SynthView<S>, ch: int, variance: S) -> S {
    abs_of(minus_of(variance, v.channels[ch].prev_variance))
}

/// The synthesiser after it heard one channel of a frame.
pub open spec fn heard_channel<S: Real>(
    v: SynthView<S>,
    ch: int,
    variance: S,
    brightness: S,
) -> SynthView<S> {
    let state = v.channels[ch];
    let cooldown = if state.cooldown > 0 {
        (state.cooldown - 1) as usize
    } else {
        state.cooldown
    };
    let change = change_of(v, ch, variance);
    let next = SynthView {
        channels: v.channels.update(
            ch,
            ChannelState { cooldown, prev_variance: variance, base_freq: state.base_freq },
        ),
        ..v
    };
    if cooldown > 0 || below_of(change, decimal_of::<S>(1i64, 6u32)) {
        next
    } else {
        fired(next, ch, change, brightness)
    }
}

/// The synthesiser after it heard the first `n` channels of a frame.
pub open spec fn heard<S: Real>(
    v: SynthView<S>,
    variances: Seq<S>,
    means: Seq<S>,
    n: nat,
) -> SynthView<S>
    decreases n,
{
    if n == 0 {
        v
    } else {
        heard_channel(
            heard(v, variances, means, (n - 1) as nat),
            n - 1,
            variances[n - 1],
            means[n - 1],
        )
    }
}

/// The changes of the first `n` channels, added up.
pub open spec fn total_change_of<S: Real>(
    v: SynthView<S>,
    variances: Seq<S>,
    means: Seq<S>,
    n: nat,
) -> S
    decreases n,
{
    if n == 0 {
        integer_of::<S>(0i64)
    } else {
        plus_of(
            total_change_of(v, variances, means, (n - 1) as nat),
            change_of(
                heard(v, variances, means, (n - 1) as nat),
                n - 1,
                variances[n - 1],
            ),
        )
    }
}

/// The synthesiser after it heard a frame: the first one only sets what later ones are
/// compared with.
pub open spec fn triggered<S: Real>(
    v: SynthView<S>,
    variances: Seq<S>,
    means: Seq<S>,
) -> SynthView<S> {
    if v.has_prev_frame {
        SynthView {
            smoothed_activity: plus_of(
                times_of(v.smoothed_activity, decimal_of::<S>(85i64, 2u32)),
                times_of(
                    total_change_of(v, variances, means, 3),
                    decimal_of::<S>(15i64, 2u32),
                ),
            ),
            ..heard(v, variances, means, 3)
        }
    } else {
        SynthView {
            channels: Seq::new(
                3,
                |c: int| ChannelState { prev_variance: variances[c], ..v.channels[c] },
            ),
            has_prev_frame: true,
            ..v
        }
    }
}

/// A new synthesiser.
pub open spec fn fresh<S: Real>(sample_rate: u32) -> SynthView<S> {
    let zero = integer_of::<S>(0i64);
    SynthView {
        sample_rate,
        pings: seq![],
        channels: seq![
            ChannelState {
                cooldown: 0,
                prev_variance: zero,
                base_freq: integer_of::<S>(100i64),
            },
            ChannelState {
                cooldown: 0,
                prev_variance: zero,
                base_freq: integer_of::<S>(300i64),
            },
            ChannelState {
                cooldown: 0,
                prev_variance: zero,
                base_freq: integer_of::<S>(750i64),
            },
        ],
        has_prev_frame: false,
        delay_buffer: Seq::new(DELAY_BUFFER_SIZE as nat, |i: int| zero),
        delay_pos: 0,
        lp_state_l: zero,
        lp_state_r: zero,
        tremolo_phase: zero,
        noise_seed: 0xC0FFEE,
        smoothed_activity: zero,
    }
}

/// A share of a count.
fn share<S: Real>(whole: usize, part: S) -> (n: usize)
    ensures
        n <= whole,
        functional::<S>() ==> n == share_of(whole, part),
{
    let n: usize = S::count(whole).times(part).to_size();
    if n <= whole {
        n
    } else {
        whole
    }
}

/// Where a channel sounds from left to right.
fn base_pan<S: Real>(ch: usize) -> (p: S)
    ensures
        functional::<S>() ==> p == base_pan_of::<S>(ch as int),
{
    if ch == 0 {
        S::decimal(15, 2)
    } else if ch == 1 {
        S::decimal(5, 1)
    } else {
        S::decimal(85, 2)
    }
}

impl<S: Real> AudioSynth<S> {
    /// A synthesiser that has heard nothing.
    pub fn new(sample_rate: u32) -> (s: Self)
        ensures
            s@.wf(),
            functional::<S>() ==> s@ == fresh::<S>(sample_rate),
    {
        let zero = S::integer(0);
        let mut channels: Vec<ChannelState<S>> = Vec::new();
        channels.push(
            ChannelState { cooldown: 0, prev_variance: zero, base_freq: S::integer(100) },
        );
        channels.push(
            ChannelState { cooldown: 0, prev_variance: zero, base_freq: S::integer(300) },
        );
        channels.push(
            ChannelState { cooldown: 0, prev_variance: zero, base_freq: S::integer(750) },
        );
        let mut delay_buffer: Vec<S> = Vec::new();
        let mut i: usize = 0;
        while i < DELAY_BUFFER_SIZE
            invariant
                i <= DELAY_BUFFER_SIZE,
                delay_buffer@ == Seq::new(i as nat, |i: int| zero),
            decreases DELAY_BUFFER_SIZE - i,
        {
            delay_buffer.push(zero);
            i = i + 1;
            assert(delay_buffer@ =~= Seq::new(i as nat, |i: int| zero));
        }
        let s = AudioSynth {
            sample_rate,
            pings: Vec::new(),
            channels,
            has_prev_frame: false,
            delay_buffer,
            delay_pos: 0,
            lp_state_l: zero,
            lp_state_r: zero,
            tremolo_phase: zero,
            noise_seed: 0xC0FFEE,
            smoothed_activity: zero,
        };
        assert(functional::<S>() ==> s@ =~= fresh::<S>(sample_rate));
        s
    }

    /// How lively the picture was of late.
    pub fn activity_level(&self) -> (a: S)
        ensures
            a == self@.smoothed_activity,
    {
        self.smoothed_activity
    }

    /// A number from zero to one.
    fn rand(&mut self) -> (x: S)
        ensures
            final(self)@ == (SynthView {
                noise_seed: next_seed(old(self)@.noise_seed),
                ..old(self)@
            }),
            functional::<S>() ==> x == noise_of::<S>(next_seed(old(self)@.noise_seed)),
    {
        let wide: u64 = self.noise_seed as u64 * 1103515245 + 12345;
        self.noise_seed = (wide % 4294967296) as u32;
        S::count(self.noise_seed as usize).over(S::count(4294967295))
    }

    /// A number between two bounds.
    fn rand_range(&mut self, min: S, max: S) -> (x: S)
        ensures
            final(self)@ == (SynthView {
                noise_seed: next_seed(old(self)@.noise_seed),
                ..old(self)@
            }),
            functional::<S>() ==> x == spread_of(
                noise_of::<S>(next_seed(old(self)@.noise_seed)),
                min,
                max,
            ),
    {
        min.plus(self.rand().times(max.minus(min)))
    }

    /// The mean and the variance of each channel of a square picture.
    pub fn extract_features<W: Real>(&self, render_rgb: &[u8], grid_size: usize) -> (f: AudioFeatures<
        S,
    >)
        requires
            grid_size * grid_size * 3 <= render_rgb@.len(),
        ensures
            f.wf(),
            functional::<W>() && functional::<S>() ==> forall|ch: int|
                0 <= ch < 3 ==> #[trigger] f.channel_means@[ch] == mean_of::<W, S>(
                    render_rgb@,
                    ch,
                    (grid_size * grid_size) as usize,
                ),
            functional::<W>() && functional::<S>() ==> forall|ch: int|
                0 <= ch < 3 ==> #[trigger] f.channel_variances@[ch] == variance_of::<W, S>(
                    render_rgb@,
                    ch,
                    (grid_size * grid_size) as usize,
                ),
    {
        extract_features::<W, S>(render_rgb, grid_size)
    }

    /// Lets the quietest ping go where no other has room.
    fn make_room(&mut self)
        requires
            old(self)@.wf(),
        ensures
            final(self)@.pings.len() < MAX_PINGS,
            final(self)@.wf(),
            final(self)@ == (SynthView { pings: final(self)@.pings, ..old(self)@ }),
            functional::<S>() ==> final(self)@.pings == thinned(old(self)@.pings),
    {
        let len: usize = self.pings.len();
        if len >= MAX_PINGS {
            let mut best: usize = 0;
            let mut i: usize = 1;
            while i < len
                invariant
                    1 <= i <= len,
                    best < i,
                    len == self@.pings.len(),
                    functional::<S>() ==> best == quietest(self@.pings, i as nat),
                decreases len - i,
            {
                if self.pings[i].amplitude.below(self.pings[best].amplitude) {
                    best = i;
                }
                i = i + 1;
            }
            self.pings.remove(best);
        }
    }

    /// Fires a ping.
    fn fire_ping(&mut self, ch: usize, change: S, features: &AudioFeatures<S>)
        requires
            old(self)@.wf(),
            features.wf(),
            ch < 3,
        ensures
            final(self)@.wf(),
            functional::<S>() ==> final(self)@ == fired(
                old(self)@,
                ch as int,
                change,
                features.channel_means@[ch as int],
            ),
    {
        let ghost v = self@;
        self.make_room();
        let ghost roomy = self@;
        let base = self.channels[ch].base_freq;
        let brightness = features.channel_means[ch];
        let center = base.times(S::decimal(8, 1).plus(brightness.times(S::decimal(5, 1))));
        let first = self.rand();
        let sweep_up = S::decimal(5, 1).below(first);
        let freq_start = if sweep_up {
            center.times(S::decimal(6, 1))
        } else {
            center.times(S::decimal(15, 1))
        };
        let freq_end = if sweep_up {
            center.times(S::decimal(14, 1))
        } else {
            center.times(S::decimal(5, 1))
        };
        let change_norm = change.over(S::decimal(5, 5)).least(S::integer(1));
        let duration: usize = PING_MIN_SAMPLES + share(
            PING_MAX_SAMPLES - PING_MIN_SAMPLES,
            change_norm,
        );
        let amplitude = change.times(S::integer(23400)).least(S::decimal(95, 2)).greatest(
            S::decimal(10, 2),
        );
        let shift = self.rand_range(S::decimal(-2, 1), S::decimal(2, 1));
        let pan = base_pan::<S>(ch).plus(shift).clamp(S::integer(0), S::integer(1));
        let cooldown: usize = COOLDOWN_MIN + share(
            COOLDOWN_MAX - COOLDOWN_MIN,
            S::integer(1).minus(change_norm),
        );
        let was = self.channels[ch];
        self.channels.set(
            ch,
            ChannelState { cooldown, prev_variance: was.prev_variance, base_freq: was.base_freq },
        );
        let phase = self.rand_range(S::integer(0), S::tau());
        let ping = Ping {
            phase,
            freq_start,
            freq_end,
            remaining: duration,
            total_duration: duration,
            amplitude,
            pan,
        };
        self.pings.push(ping);
        proof {
            if functional::<S>() {
                let brightness = features.channel_means@[ch as int];
                let want = fired(v, ch as int, change, brightness);
                assert(ping == ping_of(base, brightness, change, ch as int, v.noise_seed));
                assert(self@.pings =~= want.pings);
                assert(self@.channels =~= want.channels);
            }
        }
    }

    /// Hears one channel of a frame.
    fn hear_channel(&mut self, ch: usize, features: &AudioFeatures<S>) -> (change: S)
        requires
            old(self)@.wf(),
            features.wf(),
            ch < 3,
        ensures
            final(self)@.wf(),
            functional::<S>() ==> final(self)@ == heard_channel(
                old(self)@,
                ch as int,
                features.channel_variances@[ch as int],
                features.channel_means@[ch as int],
            ),
            functional::<S>() ==> change == change_of(
                old(self)@,
                ch as int,
                features.channel_variances@[ch as int],
            ),
    {
        let ghost v = self@;
        let was = self.channels[ch];
        let variance = features.channel_variances[ch];
        let cooldown: usize = if was.cooldown > 0 {
            was.cooldown - 1
        } else {
            was.cooldown
        };
        assert(v.channels[ch as int].cooldown <= COOLDOWN_MAX);
        let change = variance.minus(was.prev_variance).abs();
        self.channels.set(
            ch,
            ChannelState { cooldown, prev_variance: variance, base_freq: was.base_freq },
        );
        proof {
            assert(self@.wf()) by {
                assert forall|c: int| 0 <= c < 3 implies (#[trigger] self@.channels[c]).cooldown
                    <= COOLDOWN_MAX by {
                    assert(v.channels[c].cooldown <= COOLDOWN_MAX);
                }
            }
        }
        if !(cooldown > 0 || change.below(S::decimal(1, 6))) {
            self.fire_ping(ch, change, features);
        }
        change
    }

    /// Hears a frame, and fires what it calls for.
    fn trigger_pings(&mut self, features: &AudioFeatures<S>)
        requires
            old(self)@.wf(),
            features.wf(),
        ensures
            final(self)@.wf(),
            functional::<S>() ==> final(self)@ == triggered(
                old(self)@,
                features.channel_variances@,
                features.channel_means@,
            ),
    {
        let ghost v = self@;
        let ghost vs = features.channel_variances@;
        let ghost ms = features.channel_means@;
        if !self.has_prev_frame {
            let mut ch: usize = 0;
            while ch < 3
                invariant
                    ch <= 3,
                    v.wf(),
                    features.wf(),
                    vs == features.channel_variances@,
                    self@ == (SynthView { channels: self@.channels, ..v }),
                    self@.channels.len() == 3,
                    forall|c: int|
                        0 <= c < 3 ==> #[trigger] self@.channels[c] == (if c < ch {
                            ChannelState { prev_variance: vs[c], ..v.channels[c] }
                        } else {
                            v.channels[c]
                        }),
                decreases 3 - ch,
            {
                let was = self.channels[ch];
                self.channels.set(
                    ch,
                    ChannelState {
                        cooldown: was.cooldown,
                        prev_variance: features.channel_variances[ch],
                        base_freq: was.base_freq,
                    },
                );
                ch = ch + 1;
            }
            self.has_prev_frame = true;
            proof {
                assert(self@ =~= triggered(v, vs, ms));
                assert forall|c: int| 0 <= c < 3 implies (#[trigger] self@.channels[c]).cooldown
                    <= COOLDOWN_MAX by {
                    assert(v.channels[c].cooldown <= COOLDOWN_MAX);
                }
            }
        } else {
            let mut total_change = S::integer(0);
            let mut ch: usize = 0;
            while ch < 3
                invariant
                    ch <= 3,
                    self@.wf(),
                    features.wf(),
                    vs == features.channel_variances@,
                    ms == features.channel_means@,
                    functional::<S>() ==> self@ == heard(v, vs, ms, ch as nat),
                    functional::<S>() ==> total_change == total_change_of(v, vs, ms, ch as nat),
                decreases 3 - ch,
            {
                let change = self.hear_channel(ch, features);
                total_change = total_change.plus(change);
                ch = ch + 1;
            }
            let ghost after = self@;
            self.smoothed_activity = self.smoothed_activity.times(S::decimal(85, 2)).plus(
                total_change.times(S::decimal(15, 2)),
            );
            proof {
                if functional::<S>() {
                    lemma_activity_kept(v, vs, ms, 3);
                    assert(self@ =~= triggered(v, vs, ms));
                }
            }
        }
    }
}

/// Hearing channels leaves the activity as it was.
proof fn lemma_activity_kept<S: Real>(v: SynthView<S>, vs: Seq<S>, ms: Seq<S>, n: nat)
    ensures
        heard(v, vs, ms, n).smoothed_activity == v.smoothed_activity,
    decreases n,
{
    if n > 0 {
        lemma_activity_kept(v, vs, ms, (n - 1) as nat);
    }
}

/// How loud a ping is at this point of its life: a fast attack, then decay.
pub open spec fn envelope_of<S: Real>(p: Ping<S>) -> S {
    let progress = over_of(count_of::<S>(p.remaining), count_of::<S>(p.total_duration));
    let knee = decimal_of::<S>(93i64, 2u32);
    let env = if below_of(knee, progress) {
        times_of(minus_of(integer_of::<S>(1i64), progress), integer_of::<S>(14i64))
    } else {
        powf_of(over_of(progress, knee), decimal_of::<S>(16i64, 1u32))
    };
    clamp_of(env, integer_of::<S>(0i64), integer_of::<S>(1i64))
}

/// The phase of a ping one sample on.
pub open spec fn next_phase<S: Real>(p: Ping<S>, sr: S) -> S {
    let phase = plus_of(p.phase, over_of(times_of(tau_of::<S>(), freq_of(p)), sr));
    if at_most_of(tau_of::<S>(), phase) {
        minus_of(phase, tau_of::<S>())
    } else {
        phase
    }
}

/// What a ping sounds like at one sample: a sine and a little of its octave.
pub open spec fn tone_of<S: Real>(p: Ping<S>, tremolo: S, sr: S) -> S {
    let env = envelope_of(p);
    let harm2 = times_of(
        times_of(
            sin_of(times_of(next_phase(p, sr), integer_of::<S>(2i64))),
            decimal_of::<S>(15i64, 2u32),
        ),
        env,
    );
    times_of(
        times_of(times_of(plus_of(sin_of(p.phase), harm2), env), p.amplitude),
        tremolo,
    )
}

/// A ping one sample on.
pub open spec fn aged<S: Real>(p: Ping<S>, sr: S) -> Ping<S> {
    if p.remaining > 0 {
        Ping { phase: next_phase(p, sr), remaining: (p.remaining - 1) as usize, ..p }
    } else {
        p
    }
}

/// What the first `n` pings sound like together on one side.
pub open spec fn mix_of<S: Real>(
    pings: Seq<Ping<S>>,
    tremolo: S,
    sr: S,
    right: bool,
    n: nat,
) -> S
    decreases n,
{
    if n == 0 {
        integer_of::<S>(0i64)
    } else {
        let before = mix_of(pings, tremolo, sr, right, (n - 1) as nat);
        let p = pings[n - 1];
        if p.remaining > 0 {
            plus_of(
                before,
                times_of(
                    tone_of(p, tremolo, sr),
                    if right {
                        p.pan
                    } else {
                        minus_of(integer_of::<S>(1i64), p.pan)
                    },
                ),
            )
        } else {
            before
        }
    }
}

/// The pings that still sound.
pub open spec fn alive_of<S>(pings: Seq<Ping<S>>) -> Seq<Ping<S>>
    decreases pings.len(),
{
    if pings.len() == 0 {
        seq![]
    } else if pings.last().remaining > 0 {
        alive_of(pings.drop_last()).push(pings.last())
    } else {
        alive_of(pings.drop_last())
    }
}

/// All pings one sample on, without those that ended.
pub open spec fn aged_all<S: Real>(pings: Seq<Ping<S>>, sr: S) -> Seq<Ping<S>> {
    alive_of(Seq::new(pings.len(), |i: int| aged(pings[i], sr)))
}

/// The rate of a synthesiser as a number.
pub open spec fn rate_of<S: Real>(v: SynthView<S>) -> S {
    count_of::<S>(v.sample_rate as usize)
}

/// How fast the low-pass filter follows.
pub open spec fn alpha_of<S: Real>(v: SynthView<S>) -> S {
    minus_of(
        integer_of::<S>(1i64),
        exp_of(
            over_of(
                times_of(neg_of(tau_of::<S>()), integer_of::<S>(1400i64)),
                rate_of(v),
            ),
        ),
    )
}

/// How far the tremolo turns in a number of samples.
pub open spec fn tremolo_turn<S: Real>(v: SynthView<S>, n: usize) -> S {
    over_of(
        times_of(times_of(tau_of::<S>(), integer_of::<S>(6i64)), count_of::<S>(n)),
        rate_of(v),
    )
}

/// The tremolo at sample `i` of a frame.
pub open spec fn tremolo_of<S: Real>(v: SynthView<S>, i: usize) -> S {
    plus_of(
        times_of(
            sin_of(plus_of(tremolo_turn(v, i), v.tremolo_phase)),
            decimal_of::<S>(15i64, 2u32),
        ),
        decimal_of::<S>(85i64, 2u32),
    )
}

/// The low-pass filter one sample on.
pub open spec fn filtered_of<S: Real>(v: SynthView<S>, right: bool, i: usize) -> S {
    let state = if right {
        v.lp_state_r
    } else {
        v.lp_state_l
    };
    let heard = mix_of(v.pings, tremolo_of(v, i), rate_of(v), right, v.pings.len());
    plus_of(state, times_of(alpha_of(v), minus_of(heard, state)))
}

/// Where the echo is read.
pub open spec fn delay_read(v_pos: usize, right: bool) -> int {
    let read = (v_pos + DELAY_BUFFER_SIZE - DELAY_TIME_SAMPLES) % (DELAY_BUFFER_SIZE as int);
    if right {
        (read + 1) % (DELAY_BUFFER_SIZE as int)
    } else {
        read
    }
}

/// The echo on one side.
pub open spec fn echo_of<S: Real>(v: SynthView<S>, right: bool) -> S {
    v.delay_buffer[delay_read(v.delay_pos, right)]
}

/// The sample on one side: filter and echo, limited.
pub open spec fn sample_of<S: Real>(v: SynthView<S>, right: bool, i: usize) -> i16 {
    let wet = plus_of(
        filtered_of(v, right, i),
        times_of(echo_of(v, right), decimal_of::<S>(30i64, 2u32)),
    );
    let out = tanh_of(times_of(wet, integer_of::<S>(5i64)));
    to_sample_of(
        clamp_of(
            times_of(out, integer_of::<S>(32767i64)),
            integer_of::<S>(-32768i64),
            integer_of::<S>(32767i64),
        ),
    )
}

/// What the echo remembers on one side.
pub open spec fn fed_back<S: Real>(v: SynthView<S>, right: bool, i: usize) -> S {
    plus_of(
        filtered_of(v, right, i),
        times_of(echo_of(v, right), decimal_of::<S>(35i64, 2u32)),
    )
}

/// The synthesiser one sample on.
pub open spec fn sampled<S: Real>(v: SynthView<S>, i: usize) -> SynthView<S> {
    let size = DELAY_BUFFER_SIZE as int;
    SynthView {
        pings: aged_all(v.pings, rate_of(v)),
        lp_state_l: filtered_of(v, false, i),
        lp_state_r: filtered_of(v, true, i),
        delay_buffer: v.delay_buffer.update(v.delay_pos as int, fed_back(v, false, i)).update(
            (v.delay_pos + 1) % size,
            fed_back(v, true, i),
        ),
        delay_pos: ((v.delay_pos + 2) % size) as usize,
        ..v
    }
}

/// The synthesiser after `n` samples of a frame.
pub open spec fn played<S: Real>(v: SynthView<S>, n: nat) -> SynthView<S>
    decreases n,
{
    if n == 0 {
        v
    } else {
        sampled(played(v, (n - 1) as nat), (n - 1) as usize)
    }
}

/// The first `n` samples of a frame, left before right.
pub open spec fn samples_of<S: Real>(v: SynthView<S>, n: nat) -> Seq<i16> {
    Seq::new(
        2 * n,
        |k: int| sample_of(played(v, (k / 2) as nat), k % 2 == 1, (k / 2) as usize),
    )
}

/// The synthesiser after a frame: what was heard, played, and the tremolo moved on.
pub open spec fn framed<S: Real>(v: SynthView<S>, n: usize) -> SynthView<S> {
    SynthView {
        tremolo_phase: rem_of(plus_of(v.tremolo_phase, tremolo_turn(v, n)), tau_of::<S>()),
        ..played(v, n as nat)
    }
}

/// Pings that still sound are some of the pings.
proof fn lemma_alive<S>(pings: Seq<Ping<S>>)
    ensures
        alive_of(pings).len() <= pings.len(),
        forall|i: int|
            0 <= i < alive_of(pings).len() ==> (#[trigger] alive_of(pings)[i]).remaining > 0
                && pings.contains(alive_of(pings)[i]),
    decreases pings.len(),
{
    if pings.len() > 0 {
        let rest = pings.drop_last();
        lemma_alive(rest);
        assert forall|i: int| 0 <= i < alive_of(pings).len() implies (#[trigger] alive_of(
            pings,
        )[i]).remaining > 0 && pings.contains(alive_of(pings)[i]) by {
            if i < alive_of(rest).len() {
                let x = alive_of(rest)[i];
                assert(alive_of(pings)[i] == x);
                let k = choose|k: int| 0 <= k < rest.len() && rest[k] == x;
                assert(pings[k] == x);
            } else {
                assert(pings[pings.len() - 1] == alive_of(pings)[i]);
            }
        }
    }
}

/// What one ping sounds like, and the ping one sample on.
fn sound<S: Real>(ping: &Ping<S>, tremolo: S, sr: S) -> (out: (S, Ping<S>))
    requires
        ping.remaining > 0,
    ensures
        out.1.remaining == ping.remaining - 1,
        out.1.total_duration == ping.total_duration,
        functional::<S>() ==> out.0 == tone_of(*ping, tremolo, sr),
        functional::<S>() ==> out.1 == aged(*ping, sr),
{
    let progress = S::count(ping.remaining).over(S::count(ping.total_duration));
    let env = if S::decimal(93, 2).below(progress) {
        S::integer(1).minus(progress).times(S::integer(14))
    } else {
        progress.over(S::decimal(93, 2)).powf(S::decimal(16, 1))
    };
    let env = env.clamp(S::integer(0), S::integer(1));
    let freq = ping.current_freq();
    let phase_inc = S::tau().times(freq).over(sr);
    let tone = ping.phase.sin();
    let mut phase = ping.phase.plus(phase_inc);
    if S::tau().at_most(phase) {
        phase = phase.minus(S::tau());
    }
    let harm2 = phase.times(S::integer(2)).sin().times(S::decimal(15, 2)).times(env);
    let sample = tone.plus(harm2).times(env).times(ping.amplitude).times(tremolo);
    let next = Ping {
        phase,
        freq_start: ping.freq_start,
        freq_end: ping.freq_end,
        remaining: ping.remaining - 1,
        total_duration: ping.total_duration,
        amplitude: ping.amplitude,
        pan: ping.pan,
    };
    (sample, next)
}

impl<S: Real> AudioSynth<S> {
    /// Mixes all pings and moves them one sample on.
    fn mix(&mut self, tremolo: S, sr: S) -> (out: (S, S))
        requires
            old(self)@.wf(),
        ensures
            final(self)@.wf(),
            final(self)@ == (SynthView { pings: final(self)@.pings, ..old(self)@ }),
            functional::<S>() ==> final(self)@.pings == aged_all(old(self)@.pings, sr),
            functional::<S>() ==> out.0 == mix_of(
                old(self)@.pings,
                tremolo,
                sr,
                false,
                old(self)@.pings.len(),
            ),
            functional::<S>() ==> out.1 == mix_of(
                old(self)@.pings,
                tremolo,
                sr,
                true,
                old(self)@.pings.len(),
            ),
    {
        let ghost v = self@;
        let mut left = S::integer(0);
        let mut right = S::integer(0);
        let mut kept: Vec<Ping<S>> = Vec::new();
        let ghost mut aged_so_far: Seq<Ping<S>> = seq![];
        let mut k: usize = 0;
        assert(alive_of(aged_so_far) =~= kept@);
        while k < self.pings.len()
            invariant
                k <= self@.pings.len(),
                self@ == v,
                v.wf(),
                aged_so_far.len() == k,
                kept@ == alive_of(aged_so_far),
                forall|i: int|
                    0 <= i < k ==> (#[trigger] aged_so_far[i]).remaining
                        <= aged_so_far[i].total_duration && PING_MIN_SAMPLES
                        <= aged_so_far[i].total_duration <= PING_MAX_SAMPLES,
                functional::<S>() ==> forall|i: int|
                    0 <= i < k ==> #[trigger] aged_so_far[i] == aged(v.pings[i], sr),
                functional::<S>() ==> left == mix_of(v.pings, tremolo, sr, false, k as nat),
                functional::<S>() ==> right == mix_of(v.pings, tremolo, sr, true, k as nat),
            decreases self@.pings.len() - k,
        {
            let ping = self.pings[k];
            assert(ping_ok(v.pings[k as int]));
            let out = sound(&ping, tremolo, sr);
            left = left.plus(out.0.times(S::integer(1).minus(ping.pan)));
            right = right.plus(out.0.times(ping.pan));
            proof {
                let before = aged_so_far;
                aged_so_far = before.push(out.1);
                assert(aged_so_far.drop_last() =~= before);
            }
            if out.1.is_alive() {
                kept.push(out.1);
            }
            k = k + 1;
        }
        proof {
            lemma_alive(aged_so_far);
            if functional::<S>() {
                assert(aged_so_far =~= Seq::new(v.pings.len(), |i: int| aged(v.pings[i], sr)));
            }
            assert forall|i: int| 0 <= i < kept@.len() implies ping_ok(#[trigger] kept@[i]) by {
                let x = alive_of(aged_so_far)[i];
                let m = choose|m: int| 0 <= m < aged_so_far.len() && aged_so_far[m] == x;
                assert(aged_so_far[m].remaining <= aged_so_far[m].total_duration);
            }
        }
        self.pings = kept;
        (left, right)
    }

    /// Plays one sample.
    fn play_sample(&mut self, i: usize, lp_alpha: S, sr: S) -> (out: (i16, i16))
        requires
            old(self)@.wf(),
            functional::<S>() ==> sr == rate_of(old(self)@),
            functional::<S>() ==> lp_alpha == alpha_of(old(self)@),
        ensures
            final(self)@.wf(),
            final(self)@.sample_rate == old(self)@.sample_rate,
            final(self)@.tremolo_phase == old(self)@.tremolo_phase,
            functional::<S>() ==> final(self)@ == sampled(old(self)@, i),
            functional::<S>() ==> out.0 == sample_of(old(self)@, false, i),
            functional::<S>() ==> out.1 == sample_of(old(self)@, true, i),
    {
        let ghost v = self@;
        let t = S::count(i);
        let tremolo = S::tau().times(S::integer(6)).times(t).over(sr).plus(
            self.tremolo_phase,
        ).sin().times(S::decimal(15, 2)).plus(S::decimal(85, 2));
        let sides = self.mix(tremolo, sr);
        self.lp_state_l = self.lp_state_l.plus(lp_alpha.times(sides.0.minus(self.lp_state_l)));
        self.lp_state_r = self.lp_state_r.plus(lp_alpha.times(sides.1.minus(self.lp_state_r)));
        let filtered_l = self.lp_state_l;
        let filtered_r = self.lp_state_r;
        let delay_read: usize = (self.delay_pos + DELAY_BUFFER_SIZE - DELAY_TIME_SAMPLES)
            % DELAY_BUFFER_SIZE;
        let echo_l = self.delay_buffer[delay_read];
        let echo_r = self.delay_buffer[(delay_read + 1) % DELAY_BUFFER_SIZE];
        let wet_l = filtered_l.plus(echo_l.times(S::decimal(30, 2)));
        let wet_r = filtered_r.plus(echo_r.times(S::decimal(30, 2)));
        let pos: usize = self.delay_pos;
        self.delay_buffer.set(pos, filtered_l.plus(echo_l.times(S::decimal(35, 2))));
        self.delay_buffer.set(
            (pos + 1) % DELAY_BUFFER_SIZE,
            filtered_r.plus(echo_r.times(S::decimal(35, 2))),
        );
        self.delay_pos = (pos + 2) % DELAY_BUFFER_SIZE;
        let out_l = wet_l.times(S::integer(5)).tanh();
        let out_r = wet_r.times(S::integer(5)).tanh();
        let l: i16 = out_l.times(S::integer(32767)).clamp(
            S::integer(-32768),
            S::integer(32767),
        ).to_sample();
        let r: i16 = out_r.times(S::integer(32767)).clamp(
            S::integer(-32768),
            S::integer(32767),
        ).to_sample();
        proof {
            if functional::<S>() {
                assert(tremolo == tremolo_of(v, i));
                assert(self@ =~= sampled(v, i));
            }
        }
        (l, r)
    }

    /// Hears a frame and plays it: `num_samples` samples for each side, left before right.
    pub fn generate_frame(&mut self, features: &AudioFeatures<S>, num_samples: usize) -> (output: Vec<
        i16,
    >)
        requires
            old(self)@.wf(),
            features.wf(),
            2 * num_samples <= usize::MAX,
        ensures
            final(self)@.wf(),
            output@.len() == 2 * num_samples,
            functional::<S>() ==> final(self)@ == framed(
                triggered(
                    old(self)@,
                    features.channel_variances@,
                    features.channel_means@,
                ),
                num_samples,
            ),
            functional::<S>() ==> output@ == samples_of(
                triggered(
                    old(self)@,
                    features.channel_variances@,
                    features.channel_means@,
                ),
                num_samples as nat,
            ),
    {
        self.trigger_pings(features);
        let ghost v = self@;
        let sr = S::count(self.sample_rate as usize);
        let lp_alpha = S::integer(1).minus(S::tau().neg().times(S::integer(1400)).over(sr).exp());
        let mut output: Vec<i16> = Vec::new();
        let mut i: usize = 0;
        assert(output@ =~= samples_of(v, 0));
        while i < num_samples
            invariant
                i <= num_samples,
                2 * num_samples <= usize::MAX,
                self@.wf(),
                self@.sample_rate == v.sample_rate,
                self@.tremolo_phase == v.tremolo_phase,
                output@.len() == 2 * i,
                functional::<S>() ==> sr == rate_of(v),
                functional::<S>() ==> lp_alpha == alpha_of(v),
                functional::<S>() ==> self@ == played(v, i as nat),
                functional::<S>() ==> output@ == samples_of(v, i as nat),
            decreases num_samples - i,
        {
            let out = self.play_sample(i, lp_alpha, sr);
            output.push(out.0);
            output.push(out.1);
            proof {
                if functional::<S>() {
                    let next = samples_of(v, (i + 1) as nat);
                    assert((2 * i) / 2 == i && (2 * i) % 2 == 0);
                    assert((2 * i + 1) / 2 == i && (2 * i + 1) % 2 == 1);
                    assert(output@ =~= next);
                }
            }
            i = i + 1;
        }
        self.tremolo_phase = self.tremolo_phase.plus(
            S::tau().times(S::integer(6)).times(S::count(num_samples)).over(sr),
        );
        self.tremolo_phase = self.tremolo_phase.rem(S::tau());
        proof {
            if functional::<S>() {
                assert(self@ =~= framed(v, num_samples));
            }
        }
        output
    }
}

/// The first frame fires nothing: it only sets what later frames are compared with.
pub proof fn law_first_frame_is_silent<S: Real>(sample_rate: u32, variances: Seq<S>, means: Seq<S>)
    ensures
        triggered(fresh::<S>(sample_rate), variances, means).pings.len() == 0,
        triggered(fresh::<S>(sample_rate), variances, means).has_prev_frame,
{
}

/// A frame in which no channel's spread changed fires nothing, where a number that is taken
/// from itself leaves less than the smallest change that is heard.
pub proof fn law_no_change_stays_silent<S: Real>(
    v: SynthView<S>,
    variances: Seq<S>,
    means: Seq<S>,
)
    requires
        v.wf(),
        variances.len() == 3,
        means.len() == 3,
        forall|ch: int| 0 <= ch < 3 ==> #[trigger] variances[ch] == v.channels[ch].prev_variance,
        forall|x: S| below_of(#[trigger] abs_of(minus_of(x, x)), decimal_of::<S>(1i64, 6u32)),
    ensures
        triggered(v, variances, means).pings == v.pings,
{
    let a = heard(v, variances, means, 1);
    let b = heard(v, variances, means, 2);
    assert(heard(v, variances, means, 0) == v);
    assert(variances[0] == v.channels[0].prev_variance);
    assert(below_of(abs_of(minus_of(variances[0], variances[0])), decimal_of::<S>(1i64, 6u32)));
    assert(a == heard_channel(v, 0, variances[0], means[0]));
    assert(a.pings == v.pings && a.channels[1] == v.channels[1] && a.channels[2] == v.channels[2]);
    assert(variances[1] == v.channels[1].prev_variance);
    assert(below_of(abs_of(minus_of(variances[1], variances[1])), decimal_of::<S>(1i64, 6u32)));
    assert(b == heard_channel(a, 1, variances[1], means[1]));
    assert(b.pings == v.pings && b.channels[2] == v.channels[2]);
    assert(variances[2] == v.channels[2].prev_variance);
    assert(below_of(abs_of(minus_of(variances[2], variances[2])), decimal_of::<S>(1i64, 6u32)));
    assert(heard(v, variances, means, 3) == heard_channel(b, 2, variances[2], means[2]));
}

/// A channel that waits fires nothing, and waits one frame less.
pub proof fn law_cooldown_silences<S: Real>(
    v: SynthView<S>,
    ch: int,
    variance: S,
    brightness: S,
)
    requires
        v.wf(),
        0 <= ch < 3,
        v.channels[ch].cooldown > 1,
    ensures
        heard_channel(v, ch, variance, brightness).pings == v.pings,
        heard_channel(v, ch, variance, brightness).channels[ch].cooldown == v.channels[ch].cooldown
            - 1,
{
}

/// A ping that was fired sounds for 250 to 3000 samples, its channel then waits 2 to 10
/// frames, and no more than ten pings sound at once.
pub proof fn law_pings_stay_sparse<S: Real>(v: SynthView<S>, ch: int, change: S, brightness: S)
    requires
        v.wf(),
        0 <= ch < 3,
    ensures
        fired(v, ch, change, brightness).pings.len() <= MAX_PINGS,
        PING_MIN_SAMPLES <= fired(v, ch, change, brightness).pings.last().remaining
            <= PING_MAX_SAMPLES,
        COOLDOWN_MIN <= fired(v, ch, change, brightness).channels[ch].cooldown <= COOLDOWN_MAX,
{
    if v.pings.len() >= MAX_PINGS {
        lemma_quietest_bound(v.pings, v.pings.len());
    }
}

/// A new synthesiser knows three channels of 100, 300 and 750 Hertz that may fire at once, and
/// makes no sound of its own.
pub proof fn law_new_synthesisers_are_tuned_and_quiet<S: Real>(sample_rate: u32, s: AudioSynth<S>)
    requires
        functional::<S>(),
        call_ensures(AudioSynth::<S>::new, (sample_rate,), s),
    ensures
        s.sample_rate == sample_rate,
        s.pings@.len() == 0,
        s.channels@.len() == 3,
        forall|c: int| 0 <= c < 3 ==> (#[trigger] s.channels@[c]).cooldown == 0,
        s.channels@[0].base_freq == integer_of::<S>(100i64),
        s.channels@[1].base_freq == integer_of::<S>(300i64),
        s.channels@[2].base_freq == integer_of::<S>(750i64),
        !s.has_prev_frame,
        s.delay_buffer@.len() == DELAY_BUFFER_SIZE,
        forall|i: int|
            0 <= i < DELAY_BUFFER_SIZE ==> #[trigger] s.delay_buffer@[i] == integer_of::<S>(0i64),
        s.lp_state_l == integer_of::<S>(0i64),
        s.lp_state_r == integer_of::<S>(0i64),
        s.smoothed_activity == integer_of::<S>(0i64),
{
    let v = fresh::<S>(sample_rate);
    assert(s@ == v);
    assert(s@.channels == s.channels@ && s@.delay_buffer == s.delay_buffer@ && s@.pings == s.pings@);
}

/// Noise is a congruential sequence: it starts from 12345 at zero, and seeds one apart lead to
/// seeds 1103515245 apart, around 2^32; odd and even take turns.
pub proof fn law_noise_is_congruential(seed: u32)
    requires
        seed < u32::MAX,
    ensures
        next_seed(0) == 12345,
        (next_seed((seed + 1) as u32) - next_seed(seed) - 1103515245) % 4294967296 == 0,
        next_seed(seed) % 2 != seed % 2,
{
    let m = 4294967296int;
    let x = seed * 1103515245 + 12345;
    let y = (seed + 1) * 1103515245 + 12345;
    assert(y == x + 1103515245) by (nonlinear_arith)
        requires
            x == seed * 1103515245 + 12345,
            y == (seed + 1) * 1103515245 + 12345,
    ;
    assert(x % m == x - m * (x / m));
    assert(y % m == y - m * (y / m));
    let d = (y % m) - (x % m) - 1103515245;
    assert(d == m * (x / m - y / m)) by (nonlinear_arith)
        requires
            y == x + 1103515245,
            x % m == x - m * (x / m),
            y % m == y - m * (y / m),
            d == (y % m) - (x % m) - 1103515245,
    ;
    vstd::arithmetic::div_mod::lemma_mod_multiples_basic(x / m - y / m, m);
    assert(d == (x / m - y / m) * m) by (nonlinear_arith)
        requires
            d == m * (x / m - y / m),
    ;
}

} // verus!
