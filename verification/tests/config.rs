//! Settings range checks.

use fluidvad::{ConfigError, DurationSetting, EntryThreshold, Probability, Seconds, VadOptions, VadSegmentationConfig};

fn p(value: f32) -> Probability {
    Probability::from_bits(value.to_bits())
}

fn secs(value: f64) -> Seconds {
    Seconds::from_bits(value.to_bits())
}

#[test]
fn defaults_are_valid_and_match_the_documented_values() {
    let c = VadSegmentationConfig::default();
    assert_eq!(c.validate(), Ok(()));
    assert_eq!(f32::from_bits(c.threshold.to_bits()), 0.5);
    assert_eq!(f64::from_bits(c.min_speech_duration.to_bits()), 0.15);
    assert_eq!(f64::from_bits(c.min_silence_duration.to_bits()), 0.75);
    assert_eq!(f64::from_bits(c.max_speech_duration.to_bits()), 14.0);
    assert_eq!(f64::from_bits(c.speech_padding.to_bits()), 0.1);
    assert_eq!(f32::from_bits(c.silence_threshold_for_split.to_bits()), 0.3);
    assert_eq!(c.negative_threshold, None);
    assert_eq!(f32::from_bits(c.negative_threshold_offset.to_bits()), 0.15);
    assert_eq!(f64::from_bits(c.min_silence_at_max_speech.to_bits()), 0.098);
    assert!(c.use_max_possible_silence_at_max_speech);
    assert_eq!(c.effective_threshold(), EntryThreshold::Configured(c.threshold));
    let pinned = VadSegmentationConfig { negative_threshold: Some(p(0.2)), ..c };
    assert_eq!(
        pinned.effective_threshold(),
        EntryThreshold::PinnedExitPlusOffset { exit: p(0.2), offset: p(0.15) }
    );
}

#[test]
fn out_of_range_settings_are_reported_in_order() {
    let d = VadSegmentationConfig::default();
    let bad = |c: VadSegmentationConfig| c.validate().unwrap_err();
    assert_eq!(bad(VadSegmentationConfig { threshold: p(f32::NAN), ..d }), ConfigError::Threshold);
    assert_eq!(bad(VadSegmentationConfig { threshold: p(1.5), ..d }), ConfigError::Threshold);
    assert_eq!(
        bad(VadSegmentationConfig { negative_threshold: Some(p(-0.1)), ..d }),
        ConfigError::NegativeThreshold
    );
    assert_eq!(
        bad(VadSegmentationConfig { negative_threshold: Some(p(0.6)), ..d }),
        ConfigError::NegativeThresholdAboveThreshold
    );
    assert_eq!(
        bad(VadSegmentationConfig { negative_threshold_offset: p(-0.01), ..d }),
        ConfigError::NegativeThresholdOffset
    );
    assert_eq!(
        bad(VadSegmentationConfig { negative_threshold_offset: p(f32::NAN), ..d }),
        ConfigError::NegativeThresholdOffset
    );
    assert_eq!(
        bad(VadSegmentationConfig { silence_threshold_for_split: p(2.0), ..d }),
        ConfigError::SilenceThresholdForSplit
    );
    assert_eq!(
        bad(VadSegmentationConfig { min_speech_duration: secs(f64::INFINITY), ..d }),
        ConfigError::Duration(DurationSetting::MinSpeechDuration)
    );
    assert_eq!(
        bad(VadSegmentationConfig { min_silence_duration: secs(-1.0), ..d }),
        ConfigError::Duration(DurationSetting::MinSilenceDuration)
    );
    assert_eq!(
        bad(VadSegmentationConfig { speech_padding: secs(f64::NAN), ..d }),
        ConfigError::Duration(DurationSetting::SpeechPadding)
    );
    assert_eq!(
        bad(VadSegmentationConfig { min_silence_at_max_speech: secs(-0.5), ..d }),
        ConfigError::Duration(DurationSetting::MinSilenceAtMaxSpeech)
    );
    assert_eq!(
        bad(VadSegmentationConfig { max_speech_duration: secs(0.0), ..d }),
        ConfigError::MaxSpeechDuration
    );
    assert_eq!(
        bad(VadSegmentationConfig { max_speech_duration: secs(f64::NAN), ..d }),
        ConfigError::MaxSpeechDuration
    );
    // two violations: the first is reported
    assert_eq!(
        bad(VadSegmentationConfig { threshold: p(-1.0), speech_padding: secs(-1.0), ..d }),
        ConfigError::Threshold
    );
}

#[test]
fn edge_values_are_accepted() {
    let d = VadSegmentationConfig::default();
    assert!(VadSegmentationConfig { max_speech_duration: secs(f64::INFINITY), ..d }.validate().is_ok());
    assert!(VadSegmentationConfig { speech_padding: secs(-0.0), ..d }.validate().is_ok());
    assert!(VadSegmentationConfig { threshold: p(1.0), negative_threshold: Some(p(1.0)), ..d }.validate().is_ok());
    assert!(VadSegmentationConfig { threshold: p(0.0), negative_threshold: Some(p(-0.0)), ..d }.validate().is_ok());
}

#[test]
fn options_override_only_what_is_given() {
    let d = VadSegmentationConfig::default();
    assert_eq!(VadOptions::new().to_config(), d);
    assert_eq!(VadOptions::default(), VadOptions::new());
    let mut o = VadOptions::new();
    o.set_threshold(p(0.6));
    o.set_min_speech_duration(secs(0.2));
    o.set_min_silence_duration(secs(0.5));
    o.set_max_speech_duration(secs(f64::INFINITY));
    o.set_speech_padding(secs(0.05));
    o.set_negative_threshold(p(0.4));
    let c = o.to_config();
    assert_eq!(c.threshold, p(0.6));
    assert_eq!(c.min_speech_duration, secs(0.2));
    assert_eq!(c.min_silence_duration, secs(0.5));
    assert_eq!(c.max_speech_duration, secs(f64::INFINITY));
    assert_eq!(c.speech_padding, secs(0.05));
    assert_eq!(c.negative_threshold, Some(p(0.4)));
    assert_eq!(c.silence_threshold_for_split, d.silence_threshold_for_split);
    assert_eq!(c.negative_threshold_offset, d.negative_threshold_offset);
    assert_eq!(c.min_silence_at_max_speech, d.min_silence_at_max_speech);
    assert!(c.use_max_possible_silence_at_max_speech);
    let mut only = VadOptions::new();
    only.set_speech_padding(secs(0.3));
    assert_eq!(only.to_config(), VadSegmentationConfig { speech_padding: secs(0.3), ..d });
}
