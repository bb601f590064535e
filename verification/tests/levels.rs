use audio_levels::analyze_audio_rms;

// The two numeric stages as the WebAssembly boundary supplies them.

const MIN_RMS: f32 = 1.0e-10;

fn calculate_rms(chunk: &[f32]) -> f32 {
    if chunk.is_empty() {
        return 0.0;
    }
    let sum_sq: f64 = chunk.iter().map(|&sample| (sample as f64) * (sample as f64)).sum();
    ((sum_sq / chunk.len() as f64).sqrt()) as f32
}

fn rms_to_dbfs(rms: f32) -> f32 {
    let rms_clamped = rms.max(MIN_RMS);
    20.0 * rms_clamped.log10()
}

fn levels_of(samples: &[f32], chunk_size: usize) -> Vec<f32> {
    analyze_audio_rms(samples, chunk_size, calculate_rms, rms_to_dbfs)
}

fn bits_of(levels: &[f32]) -> Vec<u32> {
    levels.iter().map(|level| level.to_bits()).collect()
}

#[test]
fn full_scale_chunk_is_zero_dbfs() {
    let levels = levels_of(&[1.0, 1.0, 1.0, 1.0], 4);
    assert_eq!(levels, vec![0.0]);
}

#[test]
fn silent_chunk_is_at_the_floor() {
    let levels = levels_of(&[0.0, 0.0, 0.0], 3);
    assert_eq!(levels, vec![-200.0]);
    assert_eq!(levels[0], 20.0 * MIN_RMS.log10());
}

#[test]
fn short_last_chunk_is_measured_on_its_own() {
    let levels = levels_of(&[1.0, 1.0, 1.0], 2);
    assert_eq!(levels, vec![0.0, 0.0]);
}

#[test]
fn empty_buffer_gives_empty_profile() {
    let levels = levels_of(&[], 10);
    assert_eq!(levels, Vec::<f32>::new());
}

#[test]
fn zero_chunk_size_gives_empty_profile() {
    let levels = levels_of(&[0.5], 0);
    assert_eq!(levels, Vec::<f32>::new());
}

#[test]
fn silence_of_any_length_is_at_the_floor() {
    let floor = 20.0 * MIN_RMS.log10();
    for length in 1usize..40 {
        let samples = vec![0.0f32; length];
        let levels = levels_of(&samples, length);
        assert_eq!(levels, vec![floor]);
        assert!(levels[0] > f32::NEG_INFINITY);
    }
}

#[test]
fn amplitude_below_the_floor_is_raised_to_it() {
    let floor = 20.0 * MIN_RMS.log10();
    assert_eq!(levels_of(&[1.0e-12, -1.0e-12], 2), vec![floor]);
    assert_eq!(levels_of(&[1.0e-20], 1), vec![floor]);
    assert_eq!(rms_to_dbfs(-1.0), floor);
    assert_eq!(rms_to_dbfs(0.0), floor);
    assert_eq!(rms_to_dbfs(MIN_RMS), floor);
}

#[test]
fn rms_of_equal_magnitudes_is_the_magnitude() {
    for &magnitude in &[0.001f32, 0.25, 0.5, 0.75, 1.0, 3.0] {
        for length in 1usize..20 {
            let mut samples = vec![magnitude; length];
            for (index, sample) in samples.iter_mut().enumerate() {
                if index % 2 == 1 {
                    *sample = -*sample;
                }
            }
            let rms = calculate_rms(&samples);
            assert!((rms - magnitude).abs() <= magnitude * 1.0e-6);
        }
    }
}

#[test]
fn rms_of_nothing_is_zero() {
    assert_eq!(calculate_rms(&[]), 0.0);
}

#[test]
fn half_scale_is_about_six_decibels_down() {
    let levels = levels_of(&[0.5, -0.5, 0.5, -0.5], 4);
    assert_eq!(levels.len(), 1);
    assert!((levels[0] - (-6.0206)).abs() < 1.0e-3);
}

#[test]
fn samples_beyond_full_scale_are_taken_as_they_are() {
    let levels = levels_of(&[2.0, -2.0], 2);
    assert_eq!(levels.len(), 1);
    assert!((levels[0] - 6.0206).abs() < 1.0e-3);
}

#[test]
fn infinite_sample_gives_infinite_level() {
    let levels = levels_of(&[f32::INFINITY, 0.0], 2);
    assert_eq!(levels, vec![f32::INFINITY]);
}

#[test]
fn mixed_chunks_keep_their_places() {
    let levels = levels_of(&[1.0, 1.0, 0.0, 0.0, 0.5], 2);
    assert_eq!(levels.len(), 3);
    assert_eq!(levels[0], 0.0);
    assert_eq!(levels[1], 20.0 * MIN_RMS.log10());
    assert!((levels[2] - (-6.0206)).abs() < 1.0e-3);
}

#[test]
fn ten_millisecond_windows_at_48_khz() {
    let samples = vec![1.0f32; 1000];
    let levels = levels_of(&samples, 480);
    assert_eq!(levels, vec![0.0, 0.0, 0.0]);
}

#[test]
fn repeated_analysis_is_bit_identical() {
    let samples: Vec<f32> = (0..1000).map(|index| ((index * 37 % 201) as f32 - 100.0) / 100.0).collect();
    let first = levels_of(&samples, 48);
    let second = levels_of(&samples, 48);
    assert_eq!(first.len(), 21);
    assert_eq!(bits_of(&first), bits_of(&second));
}

#[test]
fn louder_chunk_has_no_lower_level() {
    let quiet: Vec<f32> = vec![0.1, -0.2, 0.05, 0.3];
    let loud: Vec<f32> = quiet.iter().map(|sample| sample * 2.0).collect();
    let quiet_level = levels_of(&quiet, 4)[0];
    let loud_level = levels_of(&loud, 4)[0];
    assert!(loud_level > quiet_level);
    assert!((loud_level - quiet_level - 6.0206).abs() < 1.0e-3);
}

#[test]
fn scaling_below_the_floor_keeps_the_level() {
    let quiet: Vec<f32> = vec![1.0e-13, -1.0e-13];
    let louder: Vec<f32> = quiet.iter().map(|sample| sample * 3.0).collect();
    assert_eq!(levels_of(&quiet, 2), levels_of(&louder, 2));
}
