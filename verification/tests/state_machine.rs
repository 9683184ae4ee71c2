//! Segmentation tests with synthetic probability sequences.

use fluidvad::{
    segment_from_probabilities, DetectorConfig, EntryThreshold, Probability, VadSegment,
    VadSegmentationConfig, FRAME_SIZE, SAMPLE_RATE,
};

fn config() -> DetectorConfig {
    DetectorConfig::default()
}

/// frames -> samples
fn s(frames: usize) -> usize {
    frames * FRAME_SIZE
}

fn p(value: f32) -> Probability {
    Probability::from_bits(value.to_bits())
}

fn probs_of(values: &[f32]) -> Vec<Probability> {
    values.iter().map(|v| p(*v)).collect()
}

fn seconds(sample: usize) -> f64 {
    sample as f64 / SAMPLE_RATE as f64
}

fn start_time(seg: &VadSegment) -> f64 {
    seconds(seg.start_sample())
}

fn end_time(seg: &VadSegment) -> f64 {
    seconds(seg.end_sample())
}

fn duration(seg: &VadSegment) -> f64 {
    end_time(seg) - start_time(seg)
}

#[test]
fn empty_input_yields_no_segments() {
    assert!(segment_from_probabilities(&[], 0, &config()).is_empty());
    assert!(segment_from_probabilities(&[p(0.9)], 0, &config()).is_empty());
}

#[test]
fn all_silence_yields_no_segments() {
    let probs = probs_of(&vec![0.05f32; 100]);
    assert!(segment_from_probabilities(&probs, s(100), &config()).is_empty());
}

#[test]
fn basic_speech_run_is_detected_with_padding() {
    // 10 silence, 40 speech, 40 silence (min_silence 0.75s = 23.4 frames)
    let mut values = vec![0.05f32; 10];
    values.extend(vec![0.95f32; 40]);
    values.extend(vec![0.05f32; 40]);
    let probs = probs_of(&values);
    let total = s(probs.len());
    let segs = segment_from_probabilities(&probs, total, &config());
    assert_eq!(segs.len(), 1);
    let pad = 0.1;
    let expected_start = (s(10) as f64 / SAMPLE_RATE as f64) - pad;
    let expected_end = (s(50) as f64 / SAMPLE_RATE as f64) + pad;
    assert!((start_time(&segs[0]) - expected_start).abs() < 1e-9, "{:?}", segs[0]);
    assert!((end_time(&segs[0]) - expected_end).abs() < 1e-9, "{:?}", segs[0]);
}

#[test]
fn short_blip_below_min_speech_is_dropped() {
    // 0.15s min speech = 4.7 frames; a 3-frame blip must be dropped
    let mut values = vec![0.05f32; 10];
    values.extend(vec![0.95f32; 3]);
    values.extend(vec![0.05f32; 40]);
    let probs = probs_of(&values);
    let segs = segment_from_probabilities(&probs, s(probs.len()), &config());
    assert!(segs.is_empty(), "{segs:?}");
}

#[test]
fn brief_dip_does_not_split_segment() {
    // dip of 5 frames (0.16s) < min_silence (0.75s): one segment
    let mut values = vec![0.95f32; 30];
    values.extend(vec![0.05f32; 5]);
    values.extend(vec![0.95f32; 30]);
    values.extend(vec![0.05f32; 40]);
    let probs = probs_of(&values);
    let segs = segment_from_probabilities(&probs, s(probs.len()), &config());
    assert_eq!(segs.len(), 1, "{segs:?}");
}

#[test]
fn long_silence_splits_segments() {
    // 30 frames silence (0.96s) > min_silence: two segments
    let mut values = vec![0.95f32; 30];
    values.extend(vec![0.05f32; 30]);
    values.extend(vec![0.95f32; 30]);
    values.extend(vec![0.05f32; 40]);
    let probs = probs_of(&values);
    let segs = segment_from_probabilities(&probs, s(probs.len()), &config());
    assert_eq!(segs.len(), 2, "{segs:?}");
    assert!(end_time(&segs[0]) < start_time(&segs[1]));
}

#[test]
fn hysteresis_keeps_segment_open_between_thresholds() {
    // probs between negative (0.35) and entry (0.5) must not close the segment
    let mut values = vec![0.95f32; 20];
    values.extend(vec![0.40f32; 30]); // in the hysteresis band
    values.extend(vec![0.95f32; 20]);
    values.extend(vec![0.05f32; 40]);
    let probs = probs_of(&values);
    let segs = segment_from_probabilities(&probs, s(probs.len()), &config());
    assert_eq!(segs.len(), 1, "{segs:?}");
}

#[test]
fn max_speech_duration_forces_split_at_candidate_silence() {
    // continuous speech far beyond 14s with a mid dip below silence_threshold_for_split
    let mut values = vec![0.95f32; 220]; // ~7s
    values.extend(vec![0.10f32; 4]); // candidate silence (0.128s > minSilenceAtMaxSpeech 0.098s), below 0.3
    values.extend(vec![0.95f32; 300]); // ~9.6s, total > 14s
    values.extend(vec![0.05f32; 40]);
    let probs = probs_of(&values);
    let segs = segment_from_probabilities(&probs, s(probs.len()), &config());
    assert!(segs.len() >= 2, "expected forced split, got {segs:?}");
    for seg in &segs {
        assert!(duration(seg) <= 14.0 + 0.3, "segment too long: {seg:?}");
    }
}

#[test]
fn close_segments_share_padding_without_overlap() {
    // Force a split with a gap (5 frames = 0.16s) smaller than 2*padding (0.2s)
    // by lowering min_silence: the padding pass must split the gap in half
    // rather than overlap the segments.
    let cfg = DetectorConfig {
        min_silence_samples: (0.1f64 * SAMPLE_RATE as f64) as usize,
        ..DetectorConfig::default()
    };
    let mut values = vec![0.95f32; 30];
    values.extend(vec![0.05f32; 5]);
    values.extend(vec![0.95f32; 30]);
    values.extend(vec![0.05f32; 40]);
    let probs = probs_of(&values);
    let segs = segment_from_probabilities(&probs, s(probs.len()), &cfg);
    assert_eq!(segs.len(), 2, "{segs:?}");
    assert!(
        end_time(&segs[0]) <= start_time(&segs[1]),
        "padding must not overlap: {segs:?}"
    );
    // gap was split in half: boundaries meet in the middle of the silence
    let gap_mid = (s(30) + s(35)) as f64 / 2.0 / SAMPLE_RATE as f64;
    assert!(
        (end_time(&segs[0]) - gap_mid).abs() < 0.02,
        "{segs:?} mid={gap_mid}"
    );
}

#[test]
fn pinned_negative_threshold_derives_entry_threshold() {
    let settings = VadSegmentationConfig {
        negative_threshold: Some(p(0.2)),
        ..VadSegmentationConfig::default()
    };
    // entry = 0.2 + 0.15 = 0.35: probs of 0.4 must now trigger
    let entry = match settings.effective_threshold() {
        EntryThreshold::PinnedExitPlusOffset { exit, offset } => {
            p(f32::from_bits(exit.to_bits()) + f32::from_bits(offset.to_bits()))
        }
        EntryThreshold::Configured(t) => t,
    };
    let cfg = DetectorConfig {
        threshold: entry,
        negative_threshold: p(0.2),
        ..DetectorConfig::default()
    };
    let mut values = vec![0.40f32; 30];
    values.extend(vec![0.05f32; 40]);
    let probs = probs_of(&values);
    let segs = segment_from_probabilities(&probs, s(probs.len()), &cfg);
    assert_eq!(segs.len(), 1, "{segs:?}");
}
