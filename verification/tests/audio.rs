use lenia_ca::audio::features::AudioFeatures;
use lenia_ca::audio::plan::{plan_sound, total_frames};
use lenia_ca::audio::synth::{AudioSynth, COOLDOWN_MAX, COOLDOWN_MIN, MAX_PINGS};
use lenia_ca::audio::wav::write_wav;
use lenia_ca::scalar::Real;

#[derive(Clone, Copy, Debug, PartialEq, PartialOrd)]
struct F32(f32);

impl Real for F32 {
    fn integer(n: i64) -> Self {
        F32(n as f32)
    }
    fn count(n: usize) -> Self {
        F32(n as f32)
    }
    fn decimal(digits: i64, places: u32) -> Self {
        F32(format!("{}e-{}", digits, places).parse().unwrap())
    }
    fn pi() -> Self {
        F32(std::f32::consts::PI)
    }
    fn tau() -> Self {
        F32(std::f32::consts::TAU)
    }
    fn infinity() -> Self {
        F32(f32::INFINITY)
    }
    fn of_bits(w: u32) -> Self {
        F32(f32::from_bits(w) as f32)
    }
    fn plus(self, other: Self) -> Self {
        F32(self.0 + other.0)
    }
    fn minus(self, other: Self) -> Self {
        F32(self.0 - other.0)
    }
    fn times(self, other: Self) -> Self {
        F32(self.0 * other.0)
    }
    fn over(self, other: Self) -> Self {
        F32(self.0 / other.0)
    }
    fn rem(self, other: Self) -> Self {
        F32(self.0 % other.0)
    }
    fn neg(self) -> Self {
        F32(-self.0)
    }
    fn powi(self, n: i32) -> Self {
        F32(self.0.powi(n))
    }
    fn powf(self, e: Self) -> Self {
        F32(self.0.powf(e.0))
    }
    fn exp(self) -> Self {
        F32(self.0.exp())
    }
    fn sqrt(self) -> Self {
        F32(self.0.sqrt())
    }
    fn tanh(self) -> Self {
        F32(self.0.tanh())
    }
    fn sin(self) -> Self {
        F32(self.0.sin())
    }
    fn cos(self) -> Self {
        F32(self.0.cos())
    }
    fn abs(self) -> Self {
        F32(self.0.abs())
    }
    fn least(self, other: Self) -> Self {
        F32(self.0.min(other.0))
    }
    fn greatest(self, other: Self) -> Self {
        F32(self.0.max(other.0))
    }
    fn clamp(self, lo: Self, hi: Self) -> Self {
        F32(self.0.clamp(lo.0, hi.0))
    }
    fn below(self, other: Self) -> bool {
        self.0 < other.0
    }
    fn at_most(self, other: Self) -> bool {
        self.0 <= other.0
    }
    fn to_size(self) -> usize {
        self.0 as usize
    }
    fn to_byte(self) -> u8 {
        self.0 as u8
    }
    fn to_sample(self) -> i16 {
        self.0 as i16
    }
    fn bits(self) -> u32 {
        (self.0 as f32).to_bits()
    }
}
#[derive(Clone, Copy, Debug, PartialEq, PartialOrd)]
struct F64(f64);

impl Real for F64 {
    fn integer(n: i64) -> Self {
        F64(n as f64)
    }
    fn count(n: usize) -> Self {
        F64(n as f64)
    }
    fn decimal(digits: i64, places: u32) -> Self {
        F64(format!("{}e-{}", digits, places).parse().unwrap())
    }
    fn pi() -> Self {
        F64(std::f64::consts::PI)
    }
    fn tau() -> Self {
        F64(std::f64::consts::TAU)
    }
    fn infinity() -> Self {
        F64(f64::INFINITY)
    }
    fn of_bits(w: u32) -> Self {
        F64(f32::from_bits(w) as f64)
    }
    fn plus(self, other: Self) -> Self {
        F64(self.0 + other.0)
    }
    fn minus(self, other: Self) -> Self {
        F64(self.0 - other.0)
    }
    fn times(self, other: Self) -> Self {
        F64(self.0 * other.0)
    }
    fn over(self, other: Self) -> Self {
        F64(self.0 / other.0)
    }
    fn rem(self, other: Self) -> Self {
        F64(self.0 % other.0)
    }
    fn neg(self) -> Self {
        F64(-self.0)
    }
    fn powi(self, n: i32) -> Self {
        F64(self.0.powi(n))
    }
    fn powf(self, e: Self) -> Self {
        F64(self.0.powf(e.0))
    }
    fn exp(self) -> Self {
        F64(self.0.exp())
    }
    fn sqrt(self) -> Self {
        F64(self.0.sqrt())
    }
    fn tanh(self) -> Self {
        F64(self.0.tanh())
    }
    fn sin(self) -> Self {
        F64(self.0.sin())
    }
    fn cos(self) -> Self {
        F64(self.0.cos())
    }
    fn abs(self) -> Self {
        F64(self.0.abs())
    }
    fn least(self, other: Self) -> Self {
        F64(self.0.min(other.0))
    }
    fn greatest(self, other: Self) -> Self {
        F64(self.0.max(other.0))
    }
    fn clamp(self, lo: Self, hi: Self) -> Self {
        F64(self.0.clamp(lo.0, hi.0))
    }
    fn below(self, other: Self) -> bool {
        self.0 < other.0
    }
    fn at_most(self, other: Self) -> bool {
        self.0 <= other.0
    }
    fn to_size(self) -> usize {
        self.0 as usize
    }
    fn to_byte(self) -> u8 {
        self.0 as u8
    }
    fn to_sample(self) -> i16 {
        self.0 as i16
    }
    fn bits(self) -> u32 {
        (self.0 as f32).to_bits()
    }
}

fn features(variance: f32) -> AudioFeatures<F32> {
    AudioFeatures {
        channel_means: vec![F32(0.5), F32(0.5), F32(0.5)],
        channel_variances: vec![F32(variance), F32(variance), F32(variance)],
    }
}

#[test]
fn features_of_a_checkered_picture() {
    let synth = AudioSynth::<F32>::new(44100);
    // Red is black and white in turn, green is full, blue is dark.
    let rgb = [0, 255, 0, 255, 255, 0, 0, 255, 0, 255, 255, 0];
    let f = synth.extract_features::<F64>(&rgb, 2);
    assert_eq!(f.channel_means, vec![F32(0.5), F32(1.0), F32(0.0)]);
    assert_eq!(f.channel_variances, vec![F32(0.25), F32(0.0), F32(0.0)]);
}

#[test]
fn new_synth_is_silent() {
    let mut synth = AudioSynth::<F32>::new(44100);
    assert_eq!(synth.activity_level().0, 0.0);
    let out = synth.generate_frame(&features(0.2), 50);
    assert_eq!(out, vec![0i16; 100]);
    assert_eq!(synth.pings.len(), 0);
    assert!(synth.has_prev_frame);
}

#[test]
fn a_change_fires_a_ping_for_each_channel() {
    let mut synth = AudioSynth::<F32>::new(44100);
    synth.generate_frame(&features(0.2), 10);
    let out = synth.generate_frame(&features(0.3), 400);
    assert_eq!(out.len(), 800);
    assert!(out.iter().any(|&x| x != 0));
    assert_eq!(synth.pings.len(), 3);
    for p in &synth.pings {
        assert!(250 <= p.total_duration && p.total_duration <= 3000);
        assert_eq!(p.remaining, p.total_duration - 400);
        assert_eq!(p.amplitude.0, 0.95);
    }
    for c in &synth.channels {
        assert!(COOLDOWN_MIN <= c.cooldown && c.cooldown <= COOLDOWN_MAX);
    }
    let change = 0.3f32 - 0.2;
    let total = 0.0 + change + change + change;
    assert_eq!(synth.activity_level().0, 0.0 * 0.85 + total * 0.15);
}

#[test]
fn a_small_change_fires_nothing() {
    let mut synth = AudioSynth::<F32>::new(44100);
    synth.generate_frame(&features(0.0), 10);
    synth.generate_frame(&features(0.0000005), 10);
    assert_eq!(synth.pings.len(), 0);
}

#[test]
fn a_channel_waits_between_pings() {
    let mut synth = AudioSynth::<F32>::new(44100);
    synth.generate_frame(&features(0.0), 1);
    synth.generate_frame(&features(0.5), 1);
    assert_eq!(synth.pings.len(), 3);
    let wait = synth.channels[0].cooldown;
    assert_eq!(wait, 2);
    synth.generate_frame(&features(0.0), 1);
    assert_eq!(synth.pings.len(), 3);
    assert_eq!(synth.channels[0].cooldown, 1);
    synth.generate_frame(&features(0.5), 1);
    assert_eq!(synth.pings.len(), 6);
}

#[test]
fn no_more_than_ten_pings_sound() {
    let mut synth = AudioSynth::<F32>::new(44100);
    for i in 0..40 {
        synth.generate_frame(&features(if i % 2 == 0 { 0.0 } else { 0.5 }), 1);
        assert!(synth.pings.len() <= MAX_PINGS);
    }
    assert_eq!(synth.pings.len(), 10);
}

#[test]
fn noise_of_the_first_ping() {
    let mut synth = AudioSynth::<F32>::new(44100);
    synth.generate_frame(&features(0.0), 1);
    synth.generate_frame(&features(0.5), 0);
    let step = |s: u32| s.wrapping_mul(1_103_515_245).wrapping_add(12_345);
    let s1 = step(0xC0FFEE);
    let s2 = step(s1);
    let s3 = step(s2);
    let noise = |s: u32| s as f32 / u32::MAX as f32;
    let p = &synth.pings[0];
    assert_eq!(p.phase.0, 0.0 + noise(s3) * (std::f32::consts::TAU - 0.0));
    assert_eq!(p.pan.0, (0.15 + (-0.2 + noise(s2) * (0.2 - -0.2f32))).clamp(0.0, 1.0));
    let center = 100.0 * (0.8 + 0.5 * 0.5f32);
    if noise(s1) > 0.5 {
        assert_eq!((p.freq_start.0, p.freq_end.0), (center * 0.6, center * 1.4));
    } else {
        assert_eq!((p.freq_start.0, p.freq_end.0), (center * 1.5, center * 0.5));
    }
}

#[test]
fn sweep_starts_at_its_start() {
    let mut synth = AudioSynth::<F32>::new(44100);
    synth.generate_frame(&features(0.0), 1);
    synth.generate_frame(&features(0.5), 0);
    let p = synth.pings[0];
    assert!(p.is_alive());
    assert_eq!(p.current_freq().0, p.freq_start.0);
}

#[test]
fn frames_share_all_samples() {
    assert_eq!(total_frames(60, 60), 3600);
    let plan = plan_sound(3, 7, 44100);
    assert_eq!(plan.samples_per_frame, 6300);
    assert_eq!(plan.remainder_frames, 0);
    let plan = plan_sound(1, 7, 100);
    let all: usize = (0..7).map(|s| plan.samples_for(s)).sum();
    assert_eq!(all, 100);
    assert_eq!(plan.samples_for(0), 15);
    assert_eq!(plan.samples_for(1), 15);
    assert_eq!(plan.samples_for(2), 14);
}

#[test]
fn wav_of_two_samples() {
    let file = write_wav(&[1, -2], 44100, 2);
    let want: Vec<u8> = [
        b"RIFF".to_vec(),
        40u32.to_le_bytes().to_vec(),
        b"WAVEfmt ".to_vec(),
        16u32.to_le_bytes().to_vec(),
        1u16.to_le_bytes().to_vec(),
        2u16.to_le_bytes().to_vec(),
        44100u32.to_le_bytes().to_vec(),
        176400u32.to_le_bytes().to_vec(),
        4u16.to_le_bytes().to_vec(),
        16u16.to_le_bytes().to_vec(),
        b"data".to_vec(),
        4u32.to_le_bytes().to_vec(),
        1i16.to_le_bytes().to_vec(),
        (-2i16).to_le_bytes().to_vec(),
    ]
    .concat();
    assert_eq!(file, want);
}

#[test]
fn wav_states_its_size() {
    let file = write_wav(&[0; 10], 8000, 1);
    assert_eq!(file.len(), 64);
    assert_eq!(file[4..8], 56u32.to_le_bytes());
    assert_eq!(file[40..44], 20u32.to_le_bytes());
}

#[test]
fn no_change_fires_nothing() {
    let mut synth = AudioSynth::<F32>::new(44100);
    synth.generate_frame(&features(0.3), 10);
    let out = synth.generate_frame(&features(0.3), 20);
    assert_eq!(out, vec![0i16; 40]);
    assert_eq!(synth.pings.len(), 0);
}

#[test]
fn every_frame_is_silent_while_nothing_changes() {
    let mut synth = AudioSynth::<F32>::new(44100);
    for t in 0..50 {
        let frame = AudioFeatures {
            channel_means: vec![F32(t as f32 / 50.0), F32(0.5), F32(1.0)],
            channel_variances: vec![F32(0.1), F32(0.2), F32(0.3)],
        };
        assert_eq!(synth.generate_frame(&frame, 100 + t), vec![0i16; 2 * (100 + t)]);
    }
}
