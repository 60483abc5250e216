use minecraft_player::algebra::{columns_from_vecs, feature_matrix, matrix_from_vecs, normalize_to_global};
use minecraft_player::audio::{chunk_ticks, permute_with_pitch, Pitch, Sound};
use minecraft_player::nnls::{cpu_pgd_nnls, DevicePlan, Kernel, SolveError};
use minecraft_player::pipeline::{decompose, ratio_value, refine_activations, Backend, Ratio, Settings};
use minecraft_player::schedule::schedule;

fn no_upload(_plan: DevicePlan<f32>) -> Result<(), String> {
    Err("no device".to_string())
}

fn no_launch(_kernel: Kernel, _buffers: ()) -> Result<(), String> {
    Err("no device".to_string())
}

fn no_download(_buffers: ()) -> Result<Vec<f32>, String> {
    Err("no device".to_string())
}

fn rank(amplitude: f32) -> u64 {
    amplitude.to_bits() as u64
}

fn count(n: usize) -> f32 {
    n as f32
}

#[test]
fn default_settings() {
    let settings = Settings::default();
    assert_eq!(settings.pitch_resolution, 256);
    assert_eq!(settings.target_rate, 48000);
    assert_eq!(settings.tick_ms, 50);
    assert_eq!(settings.solver_iterations, 128);
    assert_eq!(settings.solver_step, Ratio { num: 1, den: 1000000 });
    assert_eq!(settings.activation_epsilon, Ratio { num: 1, den: 100000 });
    assert_eq!(settings.top_k, 64);
    assert_eq!(settings.backend, Backend::Accelerated);
}

#[test]
fn ratio_values_are_the_usual_constants() {
    let settings = Settings::default();
    assert_eq!(ratio_value(&count, settings.solver_step), 1e-6f32);
    assert_eq!(ratio_value(&count, settings.activation_epsilon), 1e-5f32);
    assert_eq!(ratio_value(&count, Ratio { num: 3, den: 4 }), 0.75f32);
}

#[test]
fn refined_activations_peak_at_one_and_drop_the_faint() {
    let mut h = matrix_from_vecs(vec![vec![4.0f32, 0.00002, 1.0], vec![0.0, 2.0, 0.0004]]).unwrap();
    refine_activations(&mut h, 1e-5, 0.0);
    assert_eq!(h.data, vec![1.0, 0.0, 0.25, 0.0, 0.5, 0.0001]);
    assert_eq!(h.dim(), (2, 3));
}

#[test]
fn refined_zero_activations_stay_zero() {
    let mut h = matrix_from_vecs(vec![vec![0.0f32, 0.0], vec![0.0, 0.0]]).unwrap();
    refine_activations(&mut h, 1e-5, 0.0);
    assert_eq!(h.data, vec![0.0; 4]);
}

#[test]
fn a_recording_made_of_one_palette_entry_is_found_again() {
    // Two sources of one tick each at 100 Hz (5 samples); R = 2 gives pitches 1/2 and 2.
    // Only pitch 1/2 leaves a whole tick.
    let ramp = Sound { samples: vec![0.0f32, 1.0, 2.0, 3.0, 4.0], sample_rate: 100 };
    let spike = Sound { samples: vec![0.0f32, 0.0, 8.0, 0.0, 0.0], sample_rate: 100 };
    let palette = permute_with_pitch(vec![("ramp".to_string(), ramp), ("spike".to_string(), spike)], 2, 1.0, &count);
    assert_eq!(palette.len(), 2);
    let keys: Vec<_> = palette.iter().map(|e| e.0.clone()).collect();
    let features: Vec<Vec<f32>> = palette.iter().map(|e| e.1.samples.clone()).collect();
    let w = minecraft_player::algebra::columns_from_vecs(features.clone()).unwrap();

    // The recording: the second palette entry, then the first.
    let mut recording = features[1].clone();
    recording.extend(features[0].clone());
    recording.extend(vec![0.5f32; 3]);
    let chunks = chunk_ticks(&recording, 100);
    assert_eq!(chunks.len(), 2);
    let v = minecraft_player::algebra::columns_from_vecs(chunks.iter().map(|c| c.samples.clone()).collect()).unwrap();

    let mut h = cpu_pgd_nnls(&v, &w, 500, 0.01, 0.0);
    normalize_to_global(&mut h, 0.0);
    refine_activations(&mut h, 1e-5, 0.0);
    let records = schedule(&h, &keys, 1, &|x: f32| x.to_bits() as u64);
    assert_eq!(records.len(), 2);
    assert_eq!(records[0].entries[0].identifier, "spike");
    assert_eq!(records[1].entries[0].identifier, "ramp");
}

#[test]
fn decompose_on_the_host_schedules_every_tick() {
    let mut bins = columns_from_vecs(vec![vec![0.0f32, 2.0, 0.0], vec![4.0, 0.0, 0.0]]).unwrap();
    let mut chunks = columns_from_vecs(vec![vec![2.0f32, 0.0, 0.0], vec![0.0, 1.0, 0.0], vec![2.0, 1.0, 0.0]]).unwrap();
    let palette = vec![("low".to_string(), Pitch { num: 1, den: 2 }), ("high".to_string(), Pitch { num: 2, den: 1 })];
    let mut settings = Settings::default();
    settings.backend = Backend::Reference;
    settings.solver_iterations = 300;
    settings.top_k = 1;

    let records =
        decompose(&mut chunks, &mut bins, &palette, &settings, 0.05, 1e-5, 0.0, &no_upload, &no_launch, &no_download, &rank)
            .ok()
            .unwrap();

    // Both matrices were normalised to their greatest cell.
    assert_eq!(bins.data, vec![0.0, 1.0, 0.5, 0.0, 0.0, 0.0]);
    assert_eq!(chunks.data, vec![1.0, 0.0, 1.0, 0.0, 0.5, 0.5, 0.0, 0.0, 0.0]);

    assert_eq!(records.len(), 3);
    let named: Vec<(usize, &str)> = records.iter().map(|r| (r.tick, r.entries[0].identifier.as_str())).collect();
    assert_eq!(named, vec![(0, "high"), (1, "low"), (2, "high")]);
    assert!(records.iter().all(|r| r.stop_first && r.entries.len() == 1));
}

#[test]
fn decompose_hands_on_the_failure_of_the_device() {
    let mut bins = columns_from_vecs(vec![vec![1.0f32, 2.0]]).unwrap();
    let mut chunks = columns_from_vecs(vec![vec![2.0f32, 4.0]]).unwrap();
    let palette = vec![("only".to_string(), Pitch { num: 1, den: 1 })];
    let settings = Settings::default();
    assert_eq!(settings.backend, Backend::Accelerated);
    let outcome =
        decompose(&mut chunks, &mut bins, &palette, &settings, 0.05, 1e-5, 0.0, &no_upload, &no_launch, &no_download, &rank);
    assert!(matches!(outcome, Err(SolveError::Device(reason)) if reason == "no device"));
}

#[test]
fn prepare_plays_scales_and_resamples() {
    // 4 samples at 2 Hz: at pitch 2 they are 2 samples, at volume 0.5 half as loud, and
    // at 6 Hz six samples over the same span.
    let mut sound = Sound { samples: vec![0.0f32, 1.0, 8.0, 3.0], sample_rate: 2 };
    sound.prepare(Pitch { num: 2, den: 1 }, 0.5, 6, 1.0, &count);
    assert_eq!(sound.sample_rate, 6);
    assert_eq!(sound.samples.len(), 6);
    assert_eq!(sound.samples[0], 0.0);
    assert_eq!(sound.samples[5], 4.0);
    assert!((sound.samples[1] - 0.8).abs() < 1e-6);
}

#[test]
fn prepare_comes_out_at_the_target_rate_whenever_samples_come_out() {
    // Unit pitch and a length that stays: the samples stay, the rate is the target.
    let mut sound = Sound { samples: vec![1.0f32, 2.0], sample_rate: 44100 };
    sound.prepare(Pitch { num: 1, den: 1 }, 1.0, 48000, 1.0, &count);
    assert_eq!(sound.samples, vec![1.0, 2.0]);
    assert_eq!(sound.sample_rate, 48000);

    // Nothing comes out: the rate stays.
    let mut gone = Sound { samples: vec![1.0f32], sample_rate: 48000 };
    gone.prepare(Pitch { num: 1, den: 1 }, 1.0, 100, 1.0, &count);
    assert!(gone.samples.is_empty());
    assert_eq!(gone.sample_rate, 48000);
}

#[test]
fn an_input_without_a_tick_gives_an_empty_schedule() {
    let mut bins = feature_matrix(vec![vec![0.0f32, 2.0, 0.0], vec![4.0, 0.0, 0.0]], 3).unwrap();
    let mut chunks = feature_matrix(Vec::<Vec<f32>>::new(), 3).unwrap();
    assert_eq!(chunks.dim(), (3, 0));
    let palette = vec![("low".to_string(), Pitch { num: 1, den: 2 }), ("high".to_string(), Pitch { num: 2, den: 1 })];
    let mut settings = Settings::default();
    settings.backend = Backend::Reference;
    let records =
        decompose(&mut chunks, &mut bins, &palette, &settings, 0.05, 1e-5, 0.0, &no_upload, &no_launch, &no_download, &rank)
            .ok()
            .unwrap();
    assert!(records.is_empty());
}

#[test]
fn an_empty_palette_gives_ticks_without_entries() {
    let mut bins = feature_matrix(Vec::<Vec<f32>>::new(), 3).unwrap();
    let mut chunks = feature_matrix(vec![vec![2.0f32, 0.0, 0.0], vec![0.0, 1.0, 0.0]], 3).unwrap();
    let palette: Vec<(String, Pitch)> = Vec::new();
    let mut settings = Settings::default();
    settings.backend = Backend::Reference;
    let records =
        decompose(&mut chunks, &mut bins, &palette, &settings, 0.05, 1e-5, 0.0, &no_upload, &no_launch, &no_download, &rank)
            .ok()
            .unwrap();
    assert_eq!(records.len(), 2);
    assert!(records.iter().all(|record| record.entries.is_empty() && record.stop_first));
    assert_eq!(records[1].tick, 1);
}
