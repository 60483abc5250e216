use minecraft_player::audio::Sound;
use minecraft_player::spectrum::{
    bin_frequency, is_planned_length, mel_weight, plan_for, weigh_spectrum, FftBin, Plan, Processor,
};
use std::cell::Cell;
use rustfft::{num_complex::Complex, FftPlanner};

fn count(n: usize) -> f32 {
    n as f32
}

fn log10(x: f32) -> f32 {
    x.log10()
}

fn hamming(n: usize) -> Vec<f32> {
    apodize::hamming_iter(n).map(|x| x as f32).collect()
}

fn forward(buffer: Vec<(f32, f32)>) -> Vec<(f32, f32)> {
    let mut complex: Vec<Complex<f32>> = buffer.iter().map(|(re, im)| Complex { re: *re, im: *im }).collect();
    FftPlanner::new().plan_fft_forward(complex.len()).process(&mut complex);
    complex.iter().map(|c| (c.re, c.im)).collect()
}

fn inverse(buffer: Vec<(f32, f32)>) -> Vec<(f32, f32)> {
    let mut complex: Vec<Complex<f32>> = buffer.iter().map(|(re, im)| Complex { re: *re, im: *im }).collect();
    FftPlanner::new().plan_fft_inverse(complex.len()).process(&mut complex);
    complex.iter().map(|c| (c.re, c.im)).collect()
}

fn same(buffer: Vec<(f32, f32)>) -> Vec<(f32, f32)> {
    buffer
}

fn tone(hz: f32, sample_rate: usize, duration_ms: usize) -> Sound<f32> {
    let len = (sample_rate * duration_ms) / 1000;
    let samples = (0..len)
        .map(|index| (2.0 * std::f32::consts::PI * hz * (index as f32 / sample_rate as f32)).sin())
        .collect();
    Sound { samples, sample_rate }
}

/// The weight, written as one formula.
fn weight_by_formula(freq: f32) -> f32 {
    let mel_freq = (2595.0 * (1.0 + (freq / 700.0)).log10()) / 24000.0;
    let high_pass = freq / (freq * freq + 100.0 * 100.0) + 0.4;
    (mel_freq * 2.0) * high_pass.min(1.0)
}

#[test]
fn planned_lengths_are_one_tick_at_the_two_common_rates() {
    assert!(is_planned_length(2205));
    assert!(is_planned_length(2400));
    assert!(!is_planned_length(2401));
    assert!(!is_planned_length(0));
}

#[test]
fn empty_bin_is_all_zero() {
    let bin = FftBin::empty(0.0f32);
    assert_eq!((bin.freq, bin.re, bin.im), (0.0, 0.0, 0.0));
}

#[test]
fn bin_frequency_is_index_times_rate_over_length() {
    assert_eq!(bin_frequency(&count, 0, 48000, 2400), 0.0f32);
    assert_eq!(bin_frequency(&count, 1, 48000, 2400), 20.0f32);
    assert_eq!(bin_frequency(&count, 15, 48000, 2400), 300.0f32);
    assert_eq!(bin_frequency(&count, 3, 44100, 2205), 60.0f32);
}

#[test]
fn mel_weight_follows_the_formula() {
    for freq in [0.0f32, 20.0, 100.0, 300.0, 700.0, 1000.0, 4000.0, 12000.0, 23980.0] {
        assert_eq!(mel_weight(&count, &log10, freq), weight_by_formula(freq));
    }
    assert_eq!(mel_weight(&count, &log10, 0.0f32), 0.0);
    // At 700 Hz: 2·2595·log10(2)/24000 · (700/500000 + 0.4).
    let at_700 = mel_weight(&count, &log10, 700.0f32);
    assert!((at_700 - 0.026130).abs() < 1e-5);
}

#[test]
fn mel_weight_caps_the_high_pass_term_at_one() {
    // With a count that makes the constant 4/10 large, the high-pass term exceeds 1 and
    // only twice the mel term is left.
    let inflated = |n: usize| if n == 4 { 40.0f32 } else { n as f32 };
    let freq = 700.0f32;
    let mel_term = (2595.0 * (1.0f32 + freq / 700.0).log10()) / 24000.0;
    assert_eq!(mel_weight(&inflated, &log10, freq), mel_term * 2.0 * 1.0);
}

#[test]
fn weighting_scales_both_parts_and_keeps_the_frequency() {
    let spectrum = vec![
        FftBin { freq: 0.0f32, re: 3.0, im: -2.0 },
        FftBin { freq: 700.0, re: 1.0, im: 2.0 },
        FftBin { freq: 4000.0, re: -1.0, im: 0.5 },
    ];
    let weighted = weigh_spectrum(&spectrum, &count, &log10);
    assert_eq!(weighted.len(), 3);
    for (before, after) in spectrum.iter().zip(&weighted) {
        let w = weight_by_formula(before.freq);
        assert_eq!(after.freq, before.freq);
        assert_eq!(after.re, before.re * w);
        assert_eq!(after.im, before.im * w);
    }
}

#[test]
fn fft_windows_the_samples_and_names_the_bins() {
    let processor = Processor::new(|n: usize| vec![0.5f32; n], same, same);
    let sound = Sound { samples: vec![2.0f32, 4.0, -6.0, 8.0], sample_rate: 100 };
    let bins = processor.fft(sound, 0.0, &count);
    let seen: Vec<(f32, f32, f32)> = bins.iter().map(|b| (b.freq, b.re, b.im)).collect();
    assert_eq!(seen, vec![(0.0, 1.0, 0.0), (25.0, 2.0, 0.0), (50.0, -3.0, 0.0), (75.0, 4.0, 0.0)]);
}

#[test]
fn ifft_returns_the_real_parts() {
    let processor = Processor::new(hamming, same, |buffer: Vec<(f32, f32)>| {
        buffer.iter().map(|(re, im)| (re + im, 99.0)).collect::<Vec<(f32, f32)>>()
    });
    let spectrum = vec![FftBin { freq: 0.0f32, re: 1.0, im: 2.0 }, FftBin { freq: 5.0, re: -4.0, im: 0.5 }];
    assert_eq!(processor.ifft(spectrum), vec![3.0, -3.5]);
}

#[test]
fn fft_of_a_tone_peaks_at_its_frequency() {
    let processor = Processor::new(hamming, forward, inverse);
    let bins = processor.fft(tone(300.0, 48000, 50), 0.0, &count);
    assert_eq!(bins.len(), 2400);
    let half = &bins[..1200];
    let loudest = half
        .iter()
        .max_by(|a, b| (a.re * a.re + a.im * a.im).partial_cmp(&(b.re * b.re + b.im * b.im)).unwrap())
        .unwrap();
    assert_eq!(loudest.freq, 300.0);
}

#[test]
fn mel_keeps_length_and_rate_of_a_tick() {
    let processor = Processor::new(hamming, forward, inverse);
    let mut sound = tone(300.0, 48000, 50);
    assert_eq!(sound.samples.len(), 2400);
    let before = sound.samples.clone();
    sound.mel(&processor, 0.0, &count, &log10);
    assert_eq!(sound.samples.len(), 2400);
    assert_eq!(sound.sample_rate, 48000);
    assert!(sound.samples.iter().all(|x| x.is_finite()));
    assert!(sound.samples != before);
}

#[test]
fn mel_works_at_any_length() {
    let processor = Processor::new(hamming, forward, inverse);
    let mut sound = tone(440.0, 44100, 50);
    sound.mel(&processor, 0.0, &count, &log10);
    assert_eq!(sound.samples.len(), 2205);
    let mut odd = Sound { samples: vec![0.25f32; 37], sample_rate: 8000 };
    odd.mel(&processor, 0.0, &count, &log10);
    assert_eq!(odd.samples.len(), 37);
    assert_eq!(odd.sample_rate, 8000);
}

#[test]
fn a_kept_plan_is_used_and_nothing_is_made() {
    let kept = vec![(2205usize, "a"), (2400, "b"), (2400, "c")];
    let made = Cell::new(0usize);
    let make = |_length: usize| {
        made.set(made.get() + 1);
        "fresh"
    };
    assert!(matches!(plan_for(&kept, 2400, &make), Plan::Cached(1)));
    assert!(matches!(plan_for(&kept, 2205, &make), Plan::Cached(0)));
    assert_eq!(made.get(), 0);
}

#[test]
fn a_missing_plan_is_made_each_time_and_not_kept() {
    let kept = vec![(2205usize, 1usize), (2400, 2)];
    let made = Cell::new(0usize);
    let make = |length: usize| {
        made.set(made.get() + 1);
        length * 10
    };
    assert!(matches!(plan_for(&kept, 37, &make), Plan::Fresh(370)));
    assert!(matches!(plan_for(&kept, 37, &make), Plan::Fresh(370)));
    assert_eq!(made.get(), 2);
    assert_eq!(kept, vec![(2205, 1), (2400, 2)]);
    assert!(matches!(plan_for(&Vec::<(usize, usize)>::new(), 2400, &make), Plan::Fresh(24000)));
}
