//! How the samples of a sound are spread over the frames of a film.

use vstd::prelude::*;

verus! {

/// The samples of each frame: every frame has `samples_per_frame`, and the first
/// `remainder_frames` have one more.
#[derive(Clone, Copy, PartialEq, Eq, Structural)]
pub struct SoundPlan {
    pub samples_per_frame: usize,
    pub remainder_frames: usize,
}

/// The number of frames of a film.
pub fn total_frames(seconds: u32, fps: u32) -> (n: u64)
    ensures
        n == seconds * fps,
{
    proof {
        assert(seconds * fps <= 0xffff_ffff * 0xffff_ffff) by (nonlinear_arith)
            requires
                seconds <= 0xffff_ffff,
                fps <= 0xffff_ffff,
        ;
    }
    seconds as u64 * fps as u64
}

/// Spreads the samples of a film over its frames.
pub fn plan_sound(seconds: u32, fps: u32, sample_rate: u32) -> (plan: SoundPlan)
    requires
        0 < seconds * fps <= usize::MAX,
        seconds * sample_rate <= usize::MAX,
    ensures
        plan.samples_per_frame == (seconds * sample_rate) / (seconds * fps),
        plan.remainder_frames == (seconds * sample_rate) % (seconds * fps),
{
    let total_samples: usize = seconds as usize * sample_rate as usize;
    let frames: usize = total_frames(seconds, fps) as usize;
    SoundPlan {
        samples_per_frame: total_samples / frames,
        remainder_frames: total_samples % frames,
    }
}

impl SoundPlan {
    /// The number of samples of a frame.
    pub open spec fn samples(self, step: int) -> int {
        if step < self.remainder_frames {
            self.samples_per_frame + 1
        } else {
            self.samples_per_frame as int
        }
    }

    /// The number of samples of a frame.
    pub fn samples_for(&self, step: usize) -> (n: usize)
        requires
            self.samples_per_frame < usize::MAX,
        ensures
            n == self.samples(step as int),
    {
        if step < self.remainder_frames {
            self.samples_per_frame + 1
        } else {
            self.samples_per_frame
        }
    }

    /// The samples of the first `n` frames.
    pub open spec fn samples_until(self, n: nat) -> int
        decreases n,
    {
        if n == 0 {
            0
        } else {
            self.samples_until((n - 1) as nat) + self.samples(n - 1)
        }
    }

    /// The samples of the first frames, counted at once.
    proof fn lemma_samples_until(self, n: nat)
        ensures
            self.samples_until(n) == n * self.samples_per_frame + (if n < self.remainder_frames {
                n as int
            } else {
                self.remainder_frames as int
            }),
        decreases n,
    {
        if n > 0 {
            self.lemma_samples_until((n - 1) as nat);
            let s = self.samples_per_frame as int;
            assert(n * s == (n - 1) * s + s) by (nonlinear_arith);
        } else {
            assert(0 * self.samples_per_frame == 0);
        }
    }
}

/// The frames of a film together have all its samples, no two frames differing by more
/// than one.
pub proof fn law_frames_share_all_samples(plan: SoundPlan, seconds: u32, fps: u32, sample_rate: u32)
    requires
        0 < seconds * fps,
        plan.samples_per_frame == (seconds * sample_rate) / (seconds * fps),
        plan.remainder_frames == (seconds * sample_rate) % (seconds * fps),
    ensures
        plan.samples_until((seconds * fps) as nat) == seconds * sample_rate,
        forall|a: int, b: int| #[trigger] plan.samples(a) <= #[trigger] plan.samples(b) + 1,
{
    let frames = (seconds * fps) as int;
    let samples = (seconds * sample_rate) as int;
    plan.lemma_samples_until(frames as nat);
    assert(0 <= samples) by (nonlinear_arith)
        requires
            samples == seconds * sample_rate,
            seconds >= 0,
            sample_rate >= 0,
    ;
    vstd::arithmetic::div_mod::lemma_fundamental_div_mod(samples, frames);
    vstd::arithmetic::div_mod::lemma_mod_bound(samples, frames);
}

/// A film has as many frames as its seconds have together, and its frames together have as many
/// samples as its seconds; no two frames differ by more than one sample, and no later frame has
/// more than an earlier one.
pub proof fn law_films_are_filled_with_sound(
    seconds: u32,
    fps: u32,
    sample_rate: u32,
    frames: u64,
    plan: SoundPlan,
    a: usize,
    b: usize,
    x: usize,
    y: usize,
)
    requires
        0 < seconds * fps <= usize::MAX,
        seconds * sample_rate <= usize::MAX,
        call_ensures(total_frames, (seconds, fps), frames),
        call_ensures(plan_sound, (seconds, fps, sample_rate), plan),
        plan.samples_per_frame < usize::MAX,
        a <= b,
        call_ensures(SoundPlan::samples_for, (&plan, a), x),
        call_ensures(SoundPlan::samples_for, (&plan, b), y),
    ensures
        frames == seconds * fps,
        plan.samples_until(frames as nat) == seconds * sample_rate,
        plan.samples_until((a + 1) as nat) == plan.samples_until(a as nat) + x,
        y <= x <= y + 1,
{
    law_frames_share_all_samples(plan, seconds, fps, sample_rate);
}

} // verus!
