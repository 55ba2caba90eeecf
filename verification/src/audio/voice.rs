//! What a ping sounds like, where arithmetic does not round: how loud, how high, and from
//! where.

use crate::audio::synth::{
    Ping, COOLDOWN_MAX, COOLDOWN_MIN, MAX_PINGS, PING_MAX_SAMPLES, PING_MIN_SAMPLES,
};
use crate::scalar::Real;
use vstd::prelude::*;

verus! {

use crate::analysis::{
    exact_decimals, exact_order, exact_powf, exact_sizes, lemma_assoc, lemma_cancel,
    lemma_quotient, lemma_spread, lemma_tens, lemma_times_order, tens,
};
use crate::audio::synth::{
    aged, aged_all, alive_of, amplitude_of, base_pan_of, change_norm_of, cooldown_of, duration_of,
    envelope_of, freq_of, mix_of, next_phase, next_seed, noise_of, ping_of, quietest, share_of,
    spread_of, thinned, tone_of,
};
use crate::exact::{exact_as, held, rsum};
use crate::scalar::{
    below_of, count_of, decimal_of, functional, integer_of, minus_of, over_of, plus_of, powf_of,
    sin_of, tau_of, times_of, to_size_of,
};

/// How loud a ping is: `q` is its progress in units of the knee, which lies at 0.93.
proof fn lemma_envelope<S: Real>(
    v: spec_fn(S) -> real,
    pw: spec_fn(real, real) -> real,
    p: Ping<S>,
    q: real,
)
    requires
        exact_decimals(v),
        exact_order(v),
        exact_powf(v, pw),
        0 < p.total_duration,
        p.remaining <= p.total_duration,
        q * (93real * (p.total_duration as real)) == 100real * (p.remaining as real),
    ensures
        100 * p.remaining > 93 * p.total_duration ==> v(envelope_of(p)) * (p.total_duration as real)
            == 14real * (p.total_duration as real - p.remaining as real),
        100 * p.remaining <= 93 * p.total_duration ==> v(envelope_of(p)) == pw(q, 8real / 5real)
            && 0real <= q <= 1real,
        0real <= v(envelope_of(p)) <= 1real,
{
    let r = p.remaining as real;
    let t = p.total_duration as real;
    assert(t > 0real && r >= 0real);
    lemma_tens();
    let knee = decimal_of::<S>(93i64, 2u32);
    assert(v(knee) * tens(2) == 93real);
    assert(v(knee) == 93real / 100real);
    let e = decimal_of::<S>(16i64, 1u32);
    assert(v(e) * tens(1) == 16real);
    assert(v(e) == 8real / 5real);
    assert(v(integer_of::<S>(0i64)) == 0real);
    assert(v(integer_of::<S>(1i64)) == 1real);
    assert(v(integer_of::<S>(14i64)) == 14real);
    let progress = over_of(count_of::<S>(p.remaining), count_of::<S>(p.total_duration));
    let x = v(progress);
    assert(x == r / t);
    lemma_quotient(r, t);
    lemma_times_order(93real / 100real, x, t);
    assert((93real / 100real) * t < r <==> 100 * p.remaining > 93 * p.total_duration);
    assert(below_of(knee, progress) == (100 * p.remaining > 93 * p.total_duration));
    assert(1real * t == t && 0real * t == 0real) by (nonlinear_arith);
    lemma_times_order(x, 1real, t);
    lemma_times_order(0real, x, t);
    if 100 * p.remaining > 93 * p.total_duration {
        let y = (1real - x) * 14real;
        assert(0real <= y <= 1real);
        lemma_spread(t, 1real, -x);
        assert(((1real - x) * 14real) * t == 14real * (t - x * t)) by (nonlinear_arith);
    } else {
        let k = 93real * t;
        let z = over_of(progress, knee);
        assert(v(z) == x / (93real / 100real));
        assert(v(z) * (93real / 100real) == x);
        assert(v(z) * k == 100real * r) by (nonlinear_arith)
            requires
                v(z) * (93real / 100real) == x,
                x * t == r,
                k == 93real * t,
        ;
        lemma_cancel(v(z), q, k);
        assert(0real <= q <= 1real);
        assert(v(powf_of(z, e)) == pw(q, 8real / 5real));
        assert(q > 0real ==> pw(0real, 8real / 5real) < pw(q, 8real / 5real));
        assert(q < 1real ==> pw(q, 8real / 5real) < pw(1real, 8real / 5real));
    }
}

/// The progress of a ping in units of the knee.
proof fn lemma_progress<S>(p: Ping<S>) -> (q: real)
    requires
        0 < p.total_duration,
    ensures
        q * (93real * (p.total_duration as real)) == 100real * (p.remaining as real),
{
    let k = 93real * (p.total_duration as real);
    lemma_quotient(100real * (p.remaining as real), k);
    100real * (p.remaining as real) / k
}

/// A ping swells fast and dies away: it starts from nothing and swells evenly while more than
/// 0.93 of its samples are left; at 0.93 it is at its full loudness, and from there on it is the
/// quieter the fewer samples are left, down to nothing. It is never louder than full.
pub proof fn law_pings_swell_and_die_away<S: Real>(
    v: spec_fn(S) -> real,
    pw: spec_fn(real, real) -> real,
    sooner: Ping<S>,
    later: Ping<S>,
)
    requires
        exact_decimals(v),
        exact_order(v),
        exact_powf(v, pw),
        0 < sooner.total_duration,
        later.total_duration == sooner.total_duration,
        later.remaining < sooner.remaining <= sooner.total_duration,
    ensures
        0real <= v(envelope_of(sooner)) <= 1real,
        sooner.remaining == sooner.total_duration ==> v(envelope_of(sooner)) == 0real,
        100 * later.remaining > 93 * later.total_duration ==> v(envelope_of(sooner)) < v(
            envelope_of(later),
        ) && v(envelope_of(later)) * (later.total_duration as real) == 14real * (
        later.total_duration as real - later.remaining as real),
        100 * sooner.remaining == 93 * sooner.total_duration ==> v(envelope_of(sooner)) == 1real,
        100 * sooner.remaining <= 93 * sooner.total_duration ==> v(envelope_of(later)) < v(
            envelope_of(sooner),
        ),
        later.remaining == 0 ==> v(envelope_of(later)) == 0real,
{
    let t = sooner.total_duration as real;
    let q = lemma_progress(sooner);
    let u = lemma_progress(later);
    lemma_envelope(v, pw, sooner, q);
    lemma_envelope(v, pw, later, u);
    let a = v(envelope_of(sooner));
    let b = v(envelope_of(later));
    let k = 93real * t;
    assert(k > 0real);
    lemma_times_order(u, q, k);
    lemma_times_order(a, b, t);
    assert(0real * t == 0real && 0real * k == 0real && 1real * k == k) by (nonlinear_arith);
    if sooner.remaining == sooner.total_duration {
        lemma_cancel(a, 0real, t);
    }
    if 100 * sooner.remaining == 93 * sooner.total_duration {
        lemma_cancel(q, 1real, k);
        assert(pw(1real, 8real / 5real) == 1real);
    }
    if later.remaining == 0 {
        lemma_cancel(u, 0real, k);
        assert(pw(0real, 8real / 5real) == 0real);
    }
    if 100 * sooner.remaining <= 93 * sooner.total_duration {
        assert(pw(u, 8real / 5real) < pw(q, 8real / 5real));
    }
}

/// A ping sweeps evenly from the frequency that it starts with to the one that it ends with.
pub proof fn law_pings_sweep_evenly<S: Real>(v: spec_fn(S) -> real, p: Ping<S>, f: S)
    requires
        exact_as(v),
        functional::<S>(),
        0 < p.total_duration,
        call_ensures(Ping::<S>::current_freq, (&p,), f),
    ensures
        v(f) * (p.total_duration as real) == v(p.freq_start) * (p.remaining as real) + v(p.freq_end)
            * (p.total_duration as real - p.remaining as real),
{
    let r = p.remaining as real;
    let t = p.total_duration as real;
    let s = v(p.freq_start);
    let d = v(p.freq_end) - s;
    assert(v(integer_of::<S>(1i64)) == 1real);
    let x = r / t;
    lemma_quotient(r, t);
    let y = 1real - x;
    assert(v(freq_of(p)) == s + d * y);
    assert(y * t == t - r) by (nonlinear_arith)
        requires
            y == 1real - x,
            x * t == r,
    ;
    assert((s + d * y) * t == s * t + d * (y * t)) by (nonlinear_arith);
    let e = v(p.freq_end);
    assert(d * (t - r) == e * (t - r) - s * (t - r)) by (nonlinear_arith)
        requires
            d == e - s,
    ;
    assert(s * (t - r) == s * t - s * r) by (nonlinear_arith);
}

/// In a sample, the phase of a ping turns by its frequency over the rate, of a whole turn, and
/// a whole turn is left out; so a phase within a turn stays within.
pub proof fn law_phase_turns_with_frequency<S: Real>(v: spec_fn(S) -> real, p: Ping<S>, sr: S)
    requires
        exact_order(v),
        v(sr) > 0real,
    ensures
        ({
            let turn = v(tau_of::<S>());
            let step = v(next_phase(p, sr)) - v(p.phase);
            &&& step * v(sr) == turn * v(freq_of(p)) || (step + turn) * v(sr) == turn * v(freq_of(p))
            &&& 0real <= v(p.phase) < turn && 0real <= turn * v(freq_of(p)) < turn * v(sr)
                ==> 0real <= v(next_phase(p, sr)) < turn
        }),
{
    let turn = v(tau_of::<S>());
    let f = v(freq_of(p));
    let s = v(sr);
    let x = (turn * f) / s;
    lemma_quotient(turn * f, s);
    assert(0real * s == 0real) by (nonlinear_arith);
    lemma_times_order(0real, x, s);
    lemma_times_order(x, turn, s);
}

/// Whether the sine is `sn`, which stays between minus one and one.
pub open spec fn exact_sine<S: Real>(v: spec_fn(S) -> real, sn: spec_fn(real) -> real) -> bool {
    &&& exact_as(v)
    &&& forall|x: S| v(#[trigger] sin_of(x)) == sn(v(x))
    &&& forall|a: real| -1real <= #[trigger] sn(a) <= 1real
}

/// A ping sounds like a sine and a little of its octave, as loud as its envelope, its amplitude
/// and the tremolo say; without any of these it is silent.
pub proof fn law_pings_are_as_loud_as_their_envelope<S: Real>(
    v: spec_fn(S) -> real,
    sn: spec_fn(real) -> real,
    p: Ping<S>,
    tremolo: S,
    sr: S,
)
    requires
        exact_decimals(v),
        exact_sine(v, sn),
    ensures
        ({
            let loud = v(envelope_of(p)) * v(p.amplitude) * v(tremolo);
            let octave = sn(2real * v(next_phase(p, sr)));
            &&& 100real * v(tone_of(p, tremolo, sr)) == (100real * sn(v(p.phase)) + 15real * (octave
                * v(envelope_of(p)))) * loud
            &&& loud == 0real ==> v(tone_of(p, tremolo, sr)) == 0real
        }),
{
    lemma_tens();
    assert(v(decimal_of::<S>(15i64, 2u32)) * tens(2) == 15real);
    assert(v(integer_of::<S>(2i64)) == 2real);
    let e = v(envelope_of(p));
    let a = v(p.amplitude);
    let t = v(tremolo);
    let n = next_phase(p, sr);
    assert(v(times_of(n, integer_of::<S>(2i64))) == 2real * v(n));
    let o = sn(2real * v(n));
    let b = sn(v(p.phase));
    let h = (o * (15real / 100real)) * e;
    assert(h == (15real / 100real) * (o * e)) by (nonlinear_arith)
        requires
            h == (o * (15real / 100real)) * e,
    ;
    let s = b + h;
    assert(v(tone_of(p, tremolo, sr)) == ((s * e) * a) * t);
    lemma_assoc(s, e, a);
    lemma_assoc(s, e * a, t);
    let loud = (e * a) * t;
    assert(v(tone_of(p, tremolo, sr)) == s * loud);
    assert(100real * (s * loud) == (100real * s) * loud) by (nonlinear_arith);
    assert(s * 0real == 0real) by (nonlinear_arith);
}

/// A ping is split between left and right by where it sounds from: what it brings to both sides
/// together is its sound, and what it brings to the right is its share there. Pings that ended
/// bring nothing.
pub proof fn law_pings_are_split_by_side<S: Real>(
    v: spec_fn(S) -> real,
    pings: Seq<Ping<S>>,
    tremolo: S,
    sr: S,
    n: nat,
)
    requires
        exact_as(v),
    ensures
        v(mix_of(pings, tremolo, sr, true, n)) == rsum(
            |i: int|
                if pings[i].remaining > 0 {
                    v(tone_of(pings[i], tremolo, sr)) * v(pings[i].pan)
                } else {
                    0real
                },
            n,
        ),
        v(mix_of(pings, tremolo, sr, false, n)) + v(mix_of(pings, tremolo, sr, true, n)) == rsum(
            |i: int|
                if pings[i].remaining > 0 {
                    v(tone_of(pings[i], tremolo, sr))
                } else {
                    0real
                },
            n,
        ),
    decreases n,
{
    assert(v(integer_of::<S>(0i64)) == 0real);
    assert(v(integer_of::<S>(1i64)) == 1real);
    if n > 0 {
        law_pings_are_split_by_side(v, pings, tremolo, sr, (n - 1) as nat);
        let p = pings[n - 1];
        let x = v(tone_of(p, tremolo, sr));
        let a = v(p.pan);
        assert(x * (1real - a) + x * a == x) by (nonlinear_arith);
    }
}

/// A sample on, every ping has one sample less and a phase that moved on, and is otherwise as
/// it was, in the same order; those without samples are gone.
pub proof fn law_pings_age<S: Real>(pings: Seq<Ping<S>>, sr: S)
    requires
        forall|i: int| 0 <= i < pings.len() ==> (#[trigger] pings[i]).remaining > 0,
    ensures
        aged_all(pings, sr) == Seq::new(
            pings.len(),
            |i: int|
                Ping {
                    phase: next_phase(pings[i], sr),
                    remaining: (pings[i].remaining - 1) as usize,
                    ..pings[i]
                },
        ).filter(|p: Ping<S>| p.remaining > 0),
{
    let a = Seq::new(pings.len(), |i: int| aged(pings[i], sr));
    let b = Seq::new(
        pings.len(),
        |i: int|
            Ping {
                phase: next_phase(pings[i], sr),
                remaining: (pings[i].remaining - 1) as usize,
                ..pings[i]
            },
    );
    assert(a =~= b);
    lemma_alive_filters(a);
}

/// The pings that still sound, picked out.
proof fn lemma_alive_filters<S>(pings: Seq<Ping<S>>)
    ensures
        alive_of(pings) == pings.filter(|p: Ping<S>| p.remaining > 0),
    decreases pings.len(),
{
    reveal(Seq::filter);
    if pings.len() > 0 {
        lemma_alive_filters(pings.drop_last());
    }
}

/// The one that is let go where no other has room is one of the quietest.
pub proof fn law_the_quietest_is_let_go<S: Real>(
    v: spec_fn(S) -> real,
    pings: Seq<Ping<S>>,
    n: nat,
    i: int,
)
    requires
        exact_order(v),
        0 < n <= pings.len(),
        0 <= i < n,
    ensures
        0 <= quietest(pings, n) < n,
        v(pings[quietest(pings, n)].amplitude) <= v(pings[i].amplitude),
        pings.len() >= MAX_PINGS && n == pings.len() ==> thinned(pings) == pings.remove(
            quietest(pings, n),
        ),
        pings.len() < MAX_PINGS ==> thinned(pings) == pings,
    decreases n,
{
    if n > 1 {
        let m = (n - 1) as nat;
        law_the_quietest_is_let_go(v, pings, m, 0);
        if i < m {
            law_the_quietest_is_let_go(v, pings, m, i);
        }
    }
}

/// How large a change is: nothing at none, one at 0.00005 and above, in proportion between.
proof fn lemma_change_norm<S: Real>(v: spec_fn(S) -> real, change: S)
    requires
        exact_decimals(v),
        v(change) >= 0real,
    ensures
        0real <= v(change_norm_of(change)) <= 1real,
        20000real * v(change) >= 1real ==> v(change_norm_of(change)) == 1real,
        20000real * v(change) <= 1real ==> v(change_norm_of(change)) == 20000real * v(change),
{
    lemma_tens();
    let small = decimal_of::<S>(5i64, 5u32);
    assert(v(small) * tens(5) == 5real);
    assert(v(small) == 1real / 20000real);
    assert(v(integer_of::<S>(1i64)) == 1real);
    let x = v(change) / (1real / 20000real);
    assert(x == 20000real * v(change));
}

/// A share of a count.
proof fn lemma_share<S: Real>(v: spec_fn(S) -> real, whole: usize, share: S)
    requires
        exact_as(v),
        exact_sizes(v),
        whole <= 10000,
        0real <= v(share) <= 1real,
    ensures
        share_of(whole, share) as int as real <= (whole as int as real) * v(share),
        (whole as int as real) * v(share) < share_of(whole, share) as int as real + 1real,
{
    let w = whole as int as real;
    let s = v(share);
    let x = times_of(count_of::<S>(whole), share);
    assert(v(x) == w * s);
    assert(0real <= w * s <= w) by (nonlinear_arith)
        requires
            0real <= s <= 1real,
            w >= 0real,
    ;
    let n = to_size_of(x);
    assert(n as int as real <= v(x));
}

/// A larger change sounds longer and waits less until the next: a ping has 250 samples and as
/// much of 2750 more as the change is of 0.00005, and the wait is 2 frames and as much of 8
/// more as the change falls short of it.
pub proof fn law_larger_changes_sound_longer<S: Real>(v: spec_fn(S) -> real, change: S, larger: S)
    requires
        exact_decimals(v),
        exact_sizes(v),
        0real <= v(change) <= v(larger),
    ensures
        duration_of(change) <= duration_of(larger),
        cooldown_of(larger) <= cooldown_of(change),
        PING_MIN_SAMPLES <= duration_of(change) <= PING_MAX_SAMPLES,
        COOLDOWN_MIN <= cooldown_of(change) <= COOLDOWN_MAX,
        v(change) == 0real ==> duration_of(change) == 250 && cooldown_of(change) == 10,
        20000real * v(change) >= 1real ==> duration_of(change) == 3000 && cooldown_of(change) == 2,
        20000real * v(change) <= 1real ==> (duration_of(change) - 250) as real <= 55000000real * v(
            change,
        ) < (duration_of(change) - 249) as real,
        20000real * v(change) <= 1real ==> (cooldown_of(change) - 2) as real <= 8real - 160000real
            * v(change) < (cooldown_of(change) - 1) as real,
{
    lemma_change_norm(v, change);
    lemma_change_norm(v, larger);
    let a = change_norm_of(change);
    let b = change_norm_of(larger);
    assert(v(a) <= v(b));
    assert(v(integer_of::<S>(1i64)) == 1real);
    let ra = minus_of(integer_of::<S>(1i64), a);
    let rb = minus_of(integer_of::<S>(1i64), b);
    lemma_share(v, 2750, a);
    lemma_share(v, 2750, b);
    lemma_share(v, 8, ra);
    lemma_share(v, 8, rb);
    let da = share_of(2750, a) as int;
    let db = share_of(2750, b) as int;
    let ca = share_of(8, ra) as int;
    let cb = share_of(8, rb) as int;
    assert(da as real <= 2750real * v(a) < da as real + 1real);
    assert(db as real <= 2750real * v(b) < db as real + 1real);
    assert(ca as real <= 8real * (1real - v(a)) < ca as real + 1real);
    assert(cb as real <= 8real * (1real - v(b)) < cb as real + 1real);
    assert((da as real) < (db + 1) as real);
    assert((cb as real) < (ca + 1) as real);
}

/// A ping is as loud as 23400 times the change, between 0.1 and 0.95.
pub proof fn law_larger_changes_sound_louder<S: Real>(v: spec_fn(S) -> real, change: S)
    requires
        exact_decimals(v),
        exact_order(v),
    ensures
        100real * v(amplitude_of(change)) == held(2340000real * v(change), 10real, 95real),
{
    lemma_tens();
    assert(v(decimal_of::<S>(95i64, 2u32)) * tens(2) == 95real);
    assert(v(decimal_of::<S>(10i64, 2u32)) * tens(2) == 10real);
    assert(v(integer_of::<S>(23400i64)) == 23400real);
    assert(v(times_of(change, integer_of::<S>(23400i64))) == 23400real * v(change));
}

/// A noise lies between zero and one.
proof fn lemma_noise<S: Real>(v: spec_fn(S) -> real, seed: u32)
    requires
        exact_as(v),
        usize::MAX >= 4294967295,
    ensures
        0real <= v(noise_of::<S>(seed)) <= 1real,
        v(noise_of::<S>(seed)) * 4294967295real == seed as int as real,
{
    let m = 4294967295real;
    assert(v(count_of::<S>(seed as usize)) == seed as int as real);
    assert(v(count_of::<S>(4294967295usize)) == m);
    let x = v(noise_of::<S>(seed));
    lemma_quotient(seed as int as real, m);
    assert(0real * m == 0real && 1real * m == m);
    lemma_times_order(0real, x, m);
    lemma_times_order(x, 1real, m);
}

/// The ping that a channel fires: it sweeps up or down around the channel's frequency, raised
/// by the brightness, is as loud and as long as the change says, sounds from near where the
/// channel sits (left, middle, right), and starts anywhere in a turn.
pub proof fn law_pings_are_tuned_to_their_channel<S: Real>(
    v: spec_fn(S) -> real,
    base: S,
    brightness: S,
    change: S,
    ch: int,
    seed: u32,
)
    requires
        exact_decimals(v),
        exact_order(v),
        v(tau_of::<S>()) > 0real,
        0 <= ch < 3,
        usize::MAX >= 4294967295,
    ensures
        ({
            let p = ping_of(base, brightness, change, ch, seed);
            let center = v(base) * (8real + 5real * v(brightness));
            let seat = if ch == 0 {
                15real
            } else if ch == 1 {
                50real
            } else {
                85real
            };
            let up = 2real * (next_seed(seed) as int as real) > 4294967295real;
            &&& up ==> 100real * v(p.freq_start) == 6real * center && 100real * v(p.freq_end)
                == 14real * center
            &&& !up ==> 100real * v(p.freq_start) == 15real * center && 100real * v(p.freq_end)
                == 5real * center
            &&& p.remaining == duration_of(change)
            &&& p.total_duration == duration_of(change)
            &&& p.amplitude == amplitude_of(change)
            &&& 0real <= v(p.pan) <= 1real
            &&& seat - 20real <= 100real * v(p.pan) <= seat + 20real
            &&& 0real <= v(p.phase) <= v(tau_of::<S>())
        }),
{
    lemma_tens();
    assert(v(decimal_of::<S>(8i64, 1u32)) * tens(1) == 8real);
    assert(v(decimal_of::<S>(6i64, 1u32)) * tens(1) == 6real);
    assert(v(decimal_of::<S>(15i64, 1u32)) * tens(1) == 15real);
    assert(v(decimal_of::<S>(14i64, 1u32)) * tens(1) == 14real);
    assert(v(decimal_of::<S>(5i64, 1u32)) * tens(1) == 5real);
    assert(v(decimal_of::<S>(2i64, 1u32)) * tens(1) == 2real);
    assert(v(decimal_of::<S>(-2i64, 1u32)) * tens(1) == -2real);
    assert(v(decimal_of::<S>(15i64, 2u32)) * tens(2) == 15real);
    assert(v(decimal_of::<S>(85i64, 2u32)) * tens(2) == 85real);
    assert(v(integer_of::<S>(0i64)) == 0real);
    assert(v(integer_of::<S>(1i64)) == 1real);
    let s1 = next_seed(seed);
    let s2 = next_seed(s1);
    let s3 = next_seed(s2);
    lemma_noise(v, s1);
    lemma_noise(v, s2);
    lemma_noise(v, s3);
    let b = v(base);
    let l = v(brightness);
    let raised = plus_of(
        decimal_of::<S>(8i64, 1u32),
        times_of(brightness, decimal_of::<S>(5i64, 1u32)),
    );
    assert(10real * v(raised) == 8real + 5real * l);
    let y = v(raised);
    let c = times_of(base, raised);
    let center = b * (8real + 5real * l);
    assert(10real * v(c) == center) by (nonlinear_arith)
        requires
            v(c) == b * y,
            10real * y == 8real + 5real * l,
            center == b * (8real + 5real * l),
    ;
    let six = decimal_of::<S>(6i64, 1u32);
    let fourteen = decimal_of::<S>(14i64, 1u32);
    let fifteen = decimal_of::<S>(15i64, 1u32);
    let five = decimal_of::<S>(5i64, 1u32);
    assert(v(six) == 6real / 10real);
    assert(v(fourteen) == 14real / 10real);
    assert(v(fifteen) == 15real / 10real);
    assert(v(five) == 5real / 10real);
    assert(v(times_of(c, six)) == v(c) * (6real / 10real));
    assert(v(times_of(c, fourteen)) == v(c) * (14real / 10real));
    assert(v(times_of(c, fifteen)) == v(c) * (15real / 10real));
    assert(v(times_of(c, five)) == v(c) * (5real / 10real));
    let n1 = v(noise_of::<S>(s1));
    assert(n1 * 4294967295real == s1 as int as real);
    assert(below_of(five, noise_of::<S>(s1)) == (2real * (s1 as int as real) > 4294967295real));
    let turn = v(tau_of::<S>());
    let n3 = v(noise_of::<S>(s3));
    assert(0real <= n3 * turn <= turn) by (nonlinear_arith)
        requires
            0real <= n3 <= 1real,
            turn > 0real,
    ;
    let n2 = v(noise_of::<S>(s2));
    let lo = decimal_of::<S>(-2i64, 1u32);
    let hi = decimal_of::<S>(2i64, 1u32);
    assert(v(minus_of(hi, lo)) == 4real / 10real);
    assert(v(spread_of(noise_of::<S>(s2), lo, hi)) == -2real / 10real + n2 * (4real / 10real));
    let p = ping_of(base, brightness, change, ch, seed);
    let wide = minus_of(tau_of::<S>(), integer_of::<S>(0i64));
    assert(v(wide) == turn);
    assert(v(times_of(noise_of::<S>(s3), wide)) == n3 * turn);
    assert(v(p.phase) == n3 * turn);
    let seat = if ch == 0 {
        15real
    } else if ch == 1 {
        50real
    } else {
        85real
    };
    assert(100real * v(base_pan_of::<S>(ch)) == seat);
    let shifted = plus_of(base_pan_of::<S>(ch), spread_of(noise_of::<S>(s2), lo, hi));
    assert(v(p.pan) == held(v(shifted), 0real, 1real));
}

} // verus!
