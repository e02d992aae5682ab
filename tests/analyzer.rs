use hue_flow_core::analyzer::{
    band_totals, loudness, FftAnalyzer, SpectrumBin, PEAK_FLOOR, PEAK_INITIAL,
};
use hue_flow_core::models::LEVEL_MAX;
use spectrum_analyzer::scaling::divide_by_N;
use spectrum_analyzer::windows::hann_window;
use spectrum_analyzer::{samples_fft_to_spectrum, FrequencyLimit};

fn to_pcm(samples: &[f32]) -> Vec<i16> {
    samples
        .iter()
        .map(|&s| (s.clamp(-1.0, 1.0) * 32767.0) as i16)
        .collect()
}

fn transform(analyzer: &FftAnalyzer, pcm: &[i16]) -> Option<Vec<SpectrumBin>> {
    let input: Vec<f32> = analyzer
        .fft_input(pcm)
        .iter()
        .map(|&s| s as f32 / 32767.0)
        .collect();
    let windowed = hann_window(&input);
    let spectrum = samples_fft_to_spectrum(
        &windowed,
        analyzer.sampling_rate,
        FrequencyLimit::Range(20.0, 20000.0),
        Some(&divide_by_N),
    )
    .ok()?;
    Some(
        spectrum
            .data()
            .iter()
            .map(|(f, v)| SpectrumBin {
                freq_hz: f.val() as u32,
                magnitude: (v.val() * 1_000_000.0) as u32,
            })
            .collect(),
    )
}

fn run(analyzer: &mut FftAnalyzer, samples: &[f32]) -> hue_flow_core::models::AudioSpectrum {
    let pcm = to_pcm(samples);
    let bins = transform(analyzer, &pcm);
    analyzer.process(&pcm, bins.as_deref())
}

fn sine(freq: f32, rate: f32, n: usize) -> Vec<f32> {
    (0..n)
        .map(|i| (2.0 * std::f32::consts::PI * freq * (i as f32 / rate)).sin())
        .collect()
}

#[test]
fn test_analyzer_creation_and_processing() {
    let mut analyzer = FftAnalyzer::new(1024);
    let samples = vec![0.0; 1024];
    let spectrum = run(&mut analyzer, &samples);

    assert_eq!(spectrum.bass, 0);
    assert_eq!(spectrum.mids, 0);
    assert_eq!(spectrum.highs, 0);
    assert_eq!(spectrum.energy, 0);
}

#[test]
fn test_analyzer_with_sine_wave() {
    let mut analyzer = FftAnalyzer::new(1024);
    analyzer.set_sampling_rate(44100);

    let samples = sine(100.0, 44100.0, 1024);
    let spectrum = run(&mut analyzer, &samples);

    assert!(spectrum.bass > LEVEL_MAX / 2);
    assert!(spectrum.mids < LEVEL_MAX / 5);
    assert!(spectrum.highs < LEVEL_MAX / 10);
}

#[test]
fn agc_reaches_full_level_after_loud_start() {
    let mut analyzer = FftAnalyzer::new(1024);
    let loud = sine(100.0, 44100.0, 1024);
    run(&mut analyzer, &loud);
    let quiet: Vec<f32> = loud.iter().map(|s| s * 0.25).collect();
    let first = run(&mut analyzer, &quiet);
    assert!(first.bass < LEVEL_MAX);
    let mut last = first;
    for _ in 0..200 {
        last = run(&mut analyzer, &quiet);
    }
    assert_eq!(last.bass, LEVEL_MAX);
}

#[test]
fn agc_peak_decays_to_floor_under_silence() {
    let mut analyzer = FftAnalyzer::new(1024);
    let silence = vec![0.0f32; 1024];
    let mut previous = analyzer.peak_estimate();
    assert_eq!(previous, PEAK_INITIAL);
    for _ in 0..300 {
        let s = run(&mut analyzer, &silence);
        assert_eq!((s.bass, s.mids, s.highs), (0, 0, 0));
        assert!(analyzer.peak_estimate() <= previous);
        previous = analyzer.peak_estimate();
    }
    assert_eq!(analyzer.peak_estimate(), PEAK_FLOOR);
}

#[test]
fn agc_decay_is_one_percent() {
    let mut analyzer = FftAnalyzer::new(4);
    let pcm = vec![0i16; 4];
    let bins: Vec<SpectrumBin> = vec![];
    analyzer.process(&pcm, Some(&bins[..]));
    assert_eq!(analyzer.peak_estimate(), 9900);
}

#[test]
fn failed_transform_keeps_loudness_and_peak() {
    let mut analyzer = FftAnalyzer::new(1024);
    let pcm = vec![16384i16; 8];
    let s = analyzer.process(&pcm, None);
    assert_eq!((s.bass, s.mids, s.highs), (0, 0, 0));
    assert_eq!(s.energy, 5000);
    assert_eq!(analyzer.peak_estimate(), PEAK_INITIAL);
}

#[test]
fn empty_block_is_degraded_not_fatal() {
    let mut analyzer = FftAnalyzer::new(1024);
    let pcm: Vec<i16> = vec![];
    let bins = transform(&analyzer, &pcm);
    let s = analyzer.process(&pcm, bins.as_deref());
    assert_eq!(s.energy, 0);
}

#[test]
fn normalisation_divides_by_new_peak() {
    let mut analyzer = FftAnalyzer::new(4);
    let bins = vec![
        SpectrumBin { freq_hz: 100, magnitude: 40_000 },
        SpectrumBin { freq_hz: 1000, magnitude: 10_000 },
        SpectrumBin { freq_hz: 5000, magnitude: 20_000 },
        SpectrumBin { freq_hz: 25_000, magnitude: 999_999 },
    ];
    let s = analyzer.process(&[0, 0, 0, 0], Some(&bins[..]));
    assert_eq!(analyzer.peak_estimate(), 40_000);
    assert_eq!((s.bass, s.mids, s.highs), (10000, 2500, 5000));
}

#[test]
fn band_edges() {
    let bins = vec![
        SpectrumBin { freq_hz: 19, magnitude: 1 },
        SpectrumBin { freq_hz: 20, magnitude: 2 },
        SpectrumBin { freq_hz: 249, magnitude: 4 },
        SpectrumBin { freq_hz: 250, magnitude: 8 },
        SpectrumBin { freq_hz: 3999, magnitude: 16 },
        SpectrumBin { freq_hz: 4000, magnitude: 32 },
        SpectrumBin { freq_hz: 20000, magnitude: 64 },
        SpectrumBin { freq_hz: 20001, magnitude: 128 },
    ];
    assert_eq!(band_totals(&bins), (6, 24, 96));
}

#[test]
fn loudness_is_root_mean_square() {
    assert_eq!(loudness(&[]), 0);
    assert_eq!(loudness(&[32767, -32767]), LEVEL_MAX);
    assert_eq!(loudness(&[-32768, -32768]), LEVEL_MAX);
    assert_eq!(loudness(&[3000, 4000]), 1078);
}

#[test]
fn transform_input_is_cut_or_padded() {
    let analyzer = FftAnalyzer::new(4);
    assert_eq!(analyzer.fft_input(&[1, 2]), vec![1, 2, 0, 0]);
    assert_eq!(analyzer.fft_input(&[1, 2, 3, 4, 5]), vec![1, 2, 3, 4]);
}
