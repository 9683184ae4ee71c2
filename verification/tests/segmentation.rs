//! Segmentation pieces and laws on concrete values.

use fluidvad::segmentation::{pad_speech_runs, padding_fits_in, speech_runs};
use fluidvad::{
    segment_from_probabilities, segment_from_probabilities_checked, Probability,
    DetectorConfig, FRAME_SIZE, SAMPLE_RATE,
};

fn p(value: f32) -> Probability {
    Probability::from_bits(value.to_bits())
}

fn probs_of(values: &[f32]) -> Vec<Probability> {
    values.iter().map(|v| p(*v)).collect()
}

fn ranges(values: &[f32], total: usize, cfg: &DetectorConfig) -> Vec<(usize, usize)> {
    segment_from_probabilities(&probs_of(values), total, cfg)
        .iter()
        .map(|s| (s.start_sample(), s.end_sample()))
        .collect()
}

#[test]
fn default_config_is_the_seconds_defaults_at_16k() {
    let c = DetectorConfig::default();
    let sr = SAMPLE_RATE as f64;
    assert_eq!(c.threshold.to_bits(), 0.5f32.to_bits());
    assert_eq!(c.negative_threshold.to_bits(), (0.5f32 - 0.15f32).max(0.01).to_bits());
    assert_eq!(c.silence_threshold_for_split.to_bits(), 0.3f32.to_bits());
    assert_eq!(c.min_speech_samples, (0.15 * sr) as usize);
    assert_eq!(c.min_silence_samples, (0.75 * sr) as usize);
    assert_eq!(c.speech_pad_samples, (0.1 * sr) as usize);
    assert_eq!(
        c.max_speech_samples,
        ((14.0 * sr) as i64 - (FRAME_SIZE + 2 * c.speech_pad_samples) as i64) as usize
    );
    assert_eq!(c.min_silence_at_max_speech_samples, (0.098 * sr) as usize);
    assert!(c.use_max_possible_silence_at_max_speech);
}

#[test]
fn exact_regions_of_known_inputs() {
    let cfg = DetectorConfig::default();
    let mut v = vec![0.05f32; 10];
    v.extend(vec![0.95f32; 40]);
    v.extend(vec![0.05f32; 40]);
    assert_eq!(ranges(&v, v.len() * FRAME_SIZE, &cfg), vec![(3520, 27200)]);

    let mut v = vec![0.95f32; 30];
    v.extend(vec![0.05f32; 30]);
    v.extend(vec![0.95f32; 30]);
    v.extend(vec![0.05f32; 40]);
    assert_eq!(ranges(&v, v.len() * FRAME_SIZE, &cfg), vec![(0, 16960), (29120, 47680)]);

    let mut v = vec![0.95f32; 220];
    v.extend(vec![0.10f32; 4]);
    v.extend(vec![0.95f32; 300]);
    v.extend(vec![0.05f32; 40]);
    assert_eq!(ranges(&v, v.len() * FRAME_SIZE, &cfg), vec![(0, 113664), (113664, 269888)]);
}

#[test]
fn raw_runs_then_padding() {
    let cfg = DetectorConfig::default();
    let mut v = vec![0.05f32; 10];
    v.extend(vec![0.95f32; 40]);
    v.extend(vec![0.05f32; 40]);
    let total = v.len() * FRAME_SIZE;
    let runs = speech_runs(&probs_of(&v), total, &cfg);
    assert_eq!(runs, vec![(5120, 25600)]);
    assert!(padding_fits_in(&runs, cfg.speech_pad_samples));
    assert_eq!(pad_speech_runs(runs, total, &cfg), vec![(3520, 27200)]);
}

#[test]
fn forced_split_prefers_latest_of_equally_long_candidates() {
    let cfg = DetectorConfig {
        max_speech_samples: 20 * FRAME_SIZE,
        min_silence_at_max_speech_samples: 0,
        ..DetectorConfig::default()
    };
    let mut v = vec![0.95f32; 10];
    v.extend(vec![0.2f32; 2]);
    v.extend(vec![0.95f32; 3]);
    v.extend(vec![0.2f32; 2]);
    v.extend(vec![0.95f32; 30]);
    v.extend(vec![0.05f32; 30]);
    let total = v.len() * FRAME_SIZE;
    let want = vec![(0, 8192), (8192, 19712), (19712, 32320)];
    assert_eq!(ranges(&v, total, &cfg), want);
    // no candidate below the split threshold: the most recent one is taken
    let latest = DetectorConfig {
        silence_threshold_for_split: p(0.1),
        use_max_possible_silence_at_max_speech: false,
        ..cfg
    };
    assert_eq!(ranges(&v, total, &latest), want);
    // or the longest one
    let mut w = vec![0.95f32; 10];
    w.extend(vec![0.2f32; 2]);
    w.extend(vec![0.95f32; 3]);
    w.extend(vec![0.2f32; 3]);
    w.extend(vec![0.95f32; 30]);
    w.extend(vec![0.05f32; 30]);
    let longest = DetectorConfig { silence_threshold_for_split: p(0.1), ..cfg };
    assert_eq!(
        ranges(&w, w.len() * FRAME_SIZE, &longest),
        vec![(0, 8448), (8448, 20224), (20224, 32832)]
    );
}

#[test]
fn regions_are_cut_at_the_audio_length() {
    let cfg = DetectorConfig::default();
    let mut v = vec![0.95f32; 40];
    v.extend(vec![0.05f32; 40]);
    assert_eq!(ranges(&v, 10000, &cfg), vec![(0, 10000)]);
}

#[test]
fn regions_are_ordered_within_audio_and_long_enough() {
    let cfg = DetectorConfig::default();
    let v: Vec<f32> = (0..2000)
        .map(|i| {
            let x = ((i * 7919) % 97) as f32 / 97.0;
            if (i / 60) % 3 == 0 { x * 0.3 } else { 0.4 + x * 0.6 }
        })
        .collect();
    let total = v.len() * FRAME_SIZE;
    let segs = ranges(&v, total, &cfg);
    assert!(!segs.is_empty());
    for (s, e) in &segs {
        assert!(s < e && *e <= total);
        assert!(e - s >= cfg.min_speech_samples);
        assert!(e - s <= cfg.max_speech_samples + FRAME_SIZE + 2 * cfg.speech_pad_samples);
    }
    for w in segs.windows(2) {
        assert!(w[0].1 <= w[1].0);
    }
}

#[test]
fn checked_segmentation_reports_overflow() {
    let huge = DetectorConfig { speech_pad_samples: usize::MAX, ..DetectorConfig::default() };
    let mut v = vec![0.95f32; 40];
    v.extend(vec![0.05f32; 40]);
    let probs = probs_of(&v);
    let total = v.len() * FRAME_SIZE;
    assert!(segment_from_probabilities_checked(&probs, total, &huge).is_none());
    // with no speech there is nothing to pad
    let quiet = probs_of(&vec![0.05f32; 80]);
    assert_eq!(segment_from_probabilities_checked(&quiet, total, &huge).map(|s| s.len()), Some(0));
    let ok = segment_from_probabilities_checked(&probs, total, &DetectorConfig::default()).unwrap();
    assert_eq!(ok.len(), 1);
    assert_eq!((ok[0].start_sample(), ok[0].end_sample()), (0, 22080));
}
