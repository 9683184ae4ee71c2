//! User-facing segmentation settings, with thresholds as binary32 values and
//! durations in seconds as binary64 values, both held by their bit patterns,
//! and the range check that accepts or refuses them.

use vstd::prelude::*;

use crate::probability::{Probability, INFINITY_BITS, ONE_BITS, SIGN_BIT};

verus! {

/// Sign bit of a binary64 value.
pub const SIGN_BIT_64: u64 = 0x8000_0000_0000_0000;

/// Bit pattern of binary64 `+inf`; larger magnitudes encode NaNs.
pub const INFINITY_BITS_64: u64 = 0x7ff0_0000_0000_0000;

/// A duration in seconds: a binary64 value given by its bit pattern.
#[derive(Clone, Copy, Debug, PartialEq, Eq, Structural)]
pub struct Seconds {
    pub bits: u64,
}

impl Seconds {
    /// The bit pattern without its sign bit.
    pub open spec fn magnitude(self) -> int {
        if self.bits >= SIGN_BIT_64 {
            self.bits - SIGN_BIT_64
        } else {
            self.bits as int
        }
    }

    /// Whether the value is a NaN.
    pub open spec fn is_nan_spec(self) -> bool {
        self.magnitude() > INFINITY_BITS_64
    }

    /// Whether the value is neither infinite nor NaN.
    pub open spec fn is_finite_spec(self) -> bool {
        self.magnitude() < INFINITY_BITS_64
    }

    /// `self < 0.0`: negative and not a zero (nor a NaN).
    pub open spec fn is_negative_spec(self) -> bool {
        !self.is_nan_spec() && self.bits >= SIGN_BIT_64 && self.magnitude() > 0
    }

    /// `self <= 0.0`: a zero of either sign or a negative value (not a NaN).
    pub open spec fn is_nonpositive_spec(self) -> bool {
        !self.is_nan_spec() && (self.bits >= SIGN_BIT_64 || self.magnitude() == 0)
    }

    /// The value with the given bit pattern.
    pub fn from_bits(bits: u64) -> (s: Seconds)
        ensures
            s.bits == bits,
    {
        Seconds { bits }
    }

    /// The bit pattern of the value.
    pub fn to_bits(self) -> (bits: u64)
        ensures
            bits == self.bits,
    {
        self.bits
    }

    fn magnitude_exec(self) -> (m: u64)
        ensures
            m == self.magnitude(),
    {
        if self.bits >= SIGN_BIT_64 {
            self.bits - SIGN_BIT_64
        } else {
            self.bits
        }
    }

    /// Whether the value is a NaN.
    pub fn is_nan(self) -> (r: bool)
        ensures
            r == self.is_nan_spec(),
    {
        self.magnitude_exec() > INFINITY_BITS_64
    }

    /// Whether the value is neither infinite nor NaN.
    pub fn is_finite(self) -> (r: bool)
        ensures
            r == self.is_finite_spec(),
    {
        self.magnitude_exec() < INFINITY_BITS_64
    }

    /// `self < 0.0`.
    pub fn is_negative(self) -> (r: bool)
        ensures
            r == self.is_negative_spec(),
    {
        !self.is_nan() && self.bits >= SIGN_BIT_64 && self.magnitude_exec() > 0
    }

    /// `self <= 0.0`.
    pub fn is_nonpositive(self) -> (r: bool)
        ensures
            r == self.is_nonpositive_spec(),
    {
        !self.is_nan() && (self.bits >= SIGN_BIT_64 || self.magnitude_exec() == 0)
    }
}

/// Segmentation behaviour configuration.
#[derive(Clone, Copy, Debug, PartialEq, Eq, Structural)]
pub struct VadSegmentationConfig {
    /// Entry threshold: a frame with probability at or above it starts or continues speech.
    pub threshold: Probability,
    /// Minimum speech run to keep.
    pub min_speech_duration: Seconds,
    /// Silence needed to close a segment.
    pub min_silence_duration: Seconds,
    /// Split segments longer than this (`+inf` disables).
    pub max_speech_duration: Seconds,
    /// Padding added around each segment.
    pub speech_padding: Seconds,
    /// A candidate split silence must dip to this probability to be preferred.
    pub silence_threshold_for_split: Probability,
    /// Pins the exit threshold; `None` derives it from `threshold - negative_threshold_offset`.
    pub negative_threshold: Option<Probability>,
    /// Offset used to derive the exit threshold when `negative_threshold` is `None`.
    pub negative_threshold_offset: Probability,
    /// Minimum silence considered a split candidate once a segment exceeds the maximum.
    pub min_silence_at_max_speech: Seconds,
    /// With no candidate below `silence_threshold_for_split`, split at the
    /// longest candidate silence (`true`) or the most recent one (`false`).
    pub use_max_possible_silence_at_max_speech: bool,
}

/// The source of the entry threshold in effect.
#[derive(Clone, Copy, Debug, PartialEq, Eq, Structural)]
pub enum EntryThreshold {
    /// The configured `threshold` itself.
    Configured(Probability),
    /// The pinned exit threshold plus the offset, summed as binary32 values.
    PinnedExitPlusOffset { exit: Probability, offset: Probability },
}

/// Which duration setting is out of range.
#[derive(Clone, Copy, Debug, PartialEq, Eq, Structural)]
pub enum DurationSetting {
    MinSpeechDuration,
    MinSilenceDuration,
    SpeechPadding,
    MinSilenceAtMaxSpeech,
}

/// A setting out of range, as [`VadSegmentationConfig::validate`] reports it.
#[derive(Clone, Copy, Debug, PartialEq, Eq, Structural)]
pub enum ConfigError {
    /// `threshold` is NaN or outside `[0, 1]`.
    Threshold,
    /// A pinned `negative_threshold` is NaN or outside `[0, 1]`.
    NegativeThreshold,
    /// A pinned `negative_threshold` exceeds `threshold`.
    NegativeThresholdAboveThreshold,
    /// `negative_threshold_offset` is NaN or negative.
    NegativeThresholdOffset,
    /// `silence_threshold_for_split` is NaN or outside `[0, 1]`.
    SilenceThresholdForSplit,
    /// A duration is infinite, NaN or negative.
    Duration(DurationSetting),
    /// `max_speech_duration` is NaN or not positive.
    MaxSpeechDuration,
}

/// Whether a binary32 value lies in `[0, 1]` (a NaN does not).
pub open spec fn in_unit(v: Probability) -> bool {
    v.ieee_ge(Probability { bits: 0 }) && v.ieee_le(Probability { bits: ONE_BITS })
}

/// Whether a duration is a non-negative finite number.
pub open spec fn duration_ok(d: Seconds) -> bool {
    d.is_finite_spec() && !d.is_negative_spec()
}

/// The first range violation of a configuration, checked in this order:
/// threshold; pinned exit threshold, then its order against the threshold;
/// offset; split threshold; minimum speech, minimum silence, padding and
/// split-candidate durations; maximum speech duration (where `+inf` is
/// allowed).
pub open spec fn first_violation(c: VadSegmentationConfig) -> Option<ConfigError> {
    if !in_unit(c.threshold) {
        Some(ConfigError::Threshold)
    } else if c.negative_threshold is Some && !in_unit(c.negative_threshold->0) {
        Some(ConfigError::NegativeThreshold)
    } else if c.negative_threshold is Some && c.threshold.ieee_lt(c.negative_threshold->0) {
        Some(ConfigError::NegativeThresholdAboveThreshold)
    } else if c.negative_threshold_offset.is_nan_spec() || c.negative_threshold_offset.ieee_lt(
        Probability { bits: 0 },
    ) {
        Some(ConfigError::NegativeThresholdOffset)
    } else if !in_unit(c.silence_threshold_for_split) {
        Some(ConfigError::SilenceThresholdForSplit)
    } else if !duration_ok(c.min_speech_duration) {
        Some(ConfigError::Duration(DurationSetting::MinSpeechDuration))
    } else if !duration_ok(c.min_silence_duration) {
        Some(ConfigError::Duration(DurationSetting::MinSilenceDuration))
    } else if !duration_ok(c.speech_padding) {
        Some(ConfigError::Duration(DurationSetting::SpeechPadding))
    } else if !duration_ok(c.min_silence_at_max_speech) {
        Some(ConfigError::Duration(DurationSetting::MinSilenceAtMaxSpeech))
    } else if c.max_speech_duration.is_nan_spec() || c.max_speech_duration.is_nonpositive_spec() {
        Some(ConfigError::MaxSpeechDuration)
    } else {
        None
    }
}

/// The binary32 values in `[0, 1]` by their bits: `+0.0` up to `1.0`, and `-0.0`.
pub open spec fn unit_interval_bits(v: Probability) -> bool {
    v.bits <= ONE_BITS || v.bits == SIGN_BIT
}

/// The binary32 values that are not NaN and not below zero, by their bits:
/// `+0.0` up to `+inf`, and `-0.0`.
pub open spec fn nonnegative_bits(v: Probability) -> bool {
    v.bits <= INFINITY_BITS || v.bits == SIGN_BIT
}

/// The durations that are finite and not below zero, by their bits: `+0.0`
/// up to the largest finite value, and `-0.0`.
pub open spec fn finite_nonnegative_bits(d: Seconds) -> bool {
    d.bits < INFINITY_BITS_64 || d.bits == SIGN_BIT_64
}

/// The durations above zero, `+inf` included, by their bits.
pub open spec fn positive_or_infinite_bits(d: Seconds) -> bool {
    0 < d.bits <= INFINITY_BITS_64
}

/// The pinned exit threshold, if any, lies in `[0, 1]`.
pub open spec fn pinned_exit_in_range(c: VadSegmentationConfig) -> bool {
    match c.negative_threshold {
        Some(n) => unit_interval_bits(n),
        None => true,
    }
}

/// The pinned exit threshold, if any, is not above the entry threshold.
pub open spec fn pinned_exit_not_above_entry(c: VadSegmentationConfig) -> bool {
    match c.negative_threshold {
        Some(n) => n.order_key() <= c.threshold.order_key(),
        None => true,
    }
}

/// Every setting but the maximum speech duration is in range.
pub open spec fn settings_before_max_in_range(c: VadSegmentationConfig) -> bool {
    &&& unit_interval_bits(c.threshold)
    &&& pinned_exit_in_range(c)
    &&& pinned_exit_not_above_entry(c)
    &&& nonnegative_bits(c.negative_threshold_offset)
    &&& unit_interval_bits(c.silence_threshold_for_split)
    &&& finite_nonnegative_bits(c.min_speech_duration)
    &&& finite_nonnegative_bits(c.min_silence_duration)
    &&& finite_nonnegative_bits(c.speech_padding)
    &&& finite_nonnegative_bits(c.min_silence_at_max_speech)
}

/// What the range check accepts, stated on the bit patterns: a configuration
/// passes exactly when the thresholds lie in `[0, 1]` with a pinned exit
/// threshold not above the entry threshold, the offset is a number not below
/// zero, the four durations are finite and not below zero, and the maximum
/// speech duration is above zero or `+inf`. Otherwise the error names the
/// first setting out of range, in that order.
pub proof fn lemma_accepted_settings_are_in_range(c: VadSegmentationConfig)
    ensures
        first_violation(c) is None <==> settings_before_max_in_range(c) && positive_or_infinite_bits(
            c.max_speech_duration,
        ),
        first_violation(c) == Some(ConfigError::Threshold) <==> !unit_interval_bits(c.threshold),
        first_violation(c) == Some(ConfigError::NegativeThreshold) <==> unit_interval_bits(c.threshold)
            && !pinned_exit_in_range(c),
        first_violation(c) == Some(ConfigError::NegativeThresholdAboveThreshold) <==> unit_interval_bits(
            c.threshold,
        ) && pinned_exit_in_range(c) && !pinned_exit_not_above_entry(c),
        first_violation(c) == Some(ConfigError::NegativeThresholdOffset) <==> unit_interval_bits(
            c.threshold,
        ) && pinned_exit_in_range(c) && pinned_exit_not_above_entry(c) && !nonnegative_bits(
            c.negative_threshold_offset,
        ),
        first_violation(c) == Some(ConfigError::SilenceThresholdForSplit) <==> unit_interval_bits(
            c.threshold,
        ) && pinned_exit_in_range(c) && pinned_exit_not_above_entry(c) && nonnegative_bits(
            c.negative_threshold_offset,
        ) && !unit_interval_bits(c.silence_threshold_for_split),
        first_violation(c) == Some(ConfigError::Duration(DurationSetting::MinSpeechDuration))
            <==> unit_interval_bits(c.threshold) && pinned_exit_in_range(c)
            && pinned_exit_not_above_entry(c) && nonnegative_bits(c.negative_threshold_offset)
            && unit_interval_bits(c.silence_threshold_for_split) && !finite_nonnegative_bits(
            c.min_speech_duration,
        ),
        first_violation(c) == Some(ConfigError::Duration(DurationSetting::MinSilenceDuration))
            <==> unit_interval_bits(c.threshold) && pinned_exit_in_range(c)
            && pinned_exit_not_above_entry(c) && nonnegative_bits(c.negative_threshold_offset)
            && unit_interval_bits(c.silence_threshold_for_split) && finite_nonnegative_bits(
            c.min_speech_duration,
        ) && !finite_nonnegative_bits(c.min_silence_duration),
        first_violation(c) == Some(ConfigError::Duration(DurationSetting::SpeechPadding))
            <==> unit_interval_bits(c.threshold) && pinned_exit_in_range(c)
            && pinned_exit_not_above_entry(c) && nonnegative_bits(c.negative_threshold_offset)
            && unit_interval_bits(c.silence_threshold_for_split) && finite_nonnegative_bits(
            c.min_speech_duration,
        ) && finite_nonnegative_bits(c.min_silence_duration) && !finite_nonnegative_bits(
            c.speech_padding,
        ),
        first_violation(c) == Some(ConfigError::Duration(DurationSetting::MinSilenceAtMaxSpeech))
            <==> unit_interval_bits(c.threshold) && pinned_exit_in_range(c)
            && pinned_exit_not_above_entry(c) && nonnegative_bits(c.negative_threshold_offset)
            && unit_interval_bits(c.silence_threshold_for_split) && finite_nonnegative_bits(
            c.min_speech_duration,
        ) && finite_nonnegative_bits(c.min_silence_duration) && finite_nonnegative_bits(
            c.speech_padding,
        ) && !finite_nonnegative_bits(c.min_silence_at_max_speech),
        first_violation(c) == Some(ConfigError::MaxSpeechDuration) <==> settings_before_max_in_range(c)
            && !positive_or_infinite_bits(c.max_speech_duration),
{
}

fn in_unit_exec(v: Probability) -> (r: bool)
    ensures
        r == in_unit(v),
{
    v.ge(Probability { bits: 0 }) && v.le(Probability::one())
}

fn duration_ok_exec(d: Seconds) -> (r: bool)
    ensures
        r == duration_ok(d),
{
    d.is_finite() && !d.is_negative()
}

impl Default for VadSegmentationConfig {
    /// Threshold 0.5, minimum speech 0.15 s, minimum silence 0.75 s, maximum
    /// speech 14 s, padding 0.1 s, split preference 0.3, exit threshold
    /// derived with offset 0.15, split candidates above 0.098 s, longest
    /// candidate preferred.
    fn default() -> (c: Self)
        ensures
            c == VadSegmentationConfig::spec_default(),
    {
        VadSegmentationConfig {
            threshold: Probability { bits: 0x3f00_0000u32 },
            min_speech_duration: Seconds { bits: 0x3fc3_3333_3333_3333u64 },
            min_silence_duration: Seconds { bits: 0x3fe8_0000_0000_0000u64 },
            max_speech_duration: Seconds { bits: 0x402c_0000_0000_0000u64 },
            speech_padding: Seconds { bits: 0x3fb9_9999_9999_999au64 },
            silence_threshold_for_split: Probability { bits: 0x3e99_999au32 },
            negative_threshold: None,
            negative_threshold_offset: Probability { bits: 0x3e19_999au32 },
            min_silence_at_max_speech: Seconds { bits: 0x3fb9_1687_2b02_0c4au64 },
            use_max_possible_silence_at_max_speech: true,
        }
    }
}

impl VadSegmentationConfig {
    /// The default settings.
    pub open spec fn spec_default() -> VadSegmentationConfig {
        VadSegmentationConfig {
            threshold: Probability { bits: 0x3f00_0000u32 },
            min_speech_duration: Seconds { bits: 0x3fc3_3333_3333_3333u64 },
            min_silence_duration: Seconds { bits: 0x3fe8_0000_0000_0000u64 },
            max_speech_duration: Seconds { bits: 0x402c_0000_0000_0000u64 },
            speech_padding: Seconds { bits: 0x3fb9_9999_9999_999au64 },
            silence_threshold_for_split: Probability { bits: 0x3e99_999au32 },
            negative_threshold: None,
            negative_threshold_offset: Probability { bits: 0x3e19_999au32 },
            min_silence_at_max_speech: Seconds { bits: 0x3fb9_1687_2b02_0c4au64 },
            use_max_possible_silence_at_max_speech: true,
        }
    }

    /// Where the entry threshold in effect comes from: with the exit
    /// threshold pinned at `n`, it is `n + negative_threshold_offset` (a
    /// binary32 sum, left to the caller); otherwise it is `threshold`.
    pub fn effective_threshold(&self) -> (r: EntryThreshold)
        ensures
            r == match self.negative_threshold {
                Some(n) => EntryThreshold::PinnedExitPlusOffset {
                    exit: n,
                    offset: self.negative_threshold_offset,
                },
                None => EntryThreshold::Configured(self.threshold),
            },
    {
        match self.negative_threshold {
            Some(n) => EntryThreshold::PinnedExitPlusOffset {
                exit: n,
                offset: self.negative_threshold_offset,
            },
            None => EntryThreshold::Configured(self.threshold),
        }
    }

    /// Checks every setting's range, NaN refused: `Ok` exactly when no
    /// setting is out of range, else the first violation.
    pub fn validate(&self) -> (r: Result<(), ConfigError>)
        ensures
            r is Ok <==> first_violation(*self) is None,
            r matches Err(e) ==> first_violation(*self) == Some(e),
    {
        if !in_unit_exec(self.threshold) {
            return Err(ConfigError::Threshold);
        }
        if let Some(n) = self.negative_threshold {
            if !in_unit_exec(n) {
                return Err(ConfigError::NegativeThreshold);
            }
            if self.threshold.lt(n) {
                return Err(ConfigError::NegativeThresholdAboveThreshold);
            }
        }
        if self.negative_threshold_offset.is_nan() || self.negative_threshold_offset.lt(
            Probability { bits: 0 },
        ) {
            return Err(ConfigError::NegativeThresholdOffset);
        }
        if !in_unit_exec(self.silence_threshold_for_split) {
            return Err(ConfigError::SilenceThresholdForSplit);
        }
        if !duration_ok_exec(self.min_speech_duration) {
            return Err(ConfigError::Duration(DurationSetting::MinSpeechDuration));
        }
        if !duration_ok_exec(self.min_silence_duration) {
            return Err(ConfigError::Duration(DurationSetting::MinSilenceDuration));
        }
        if !duration_ok_exec(self.speech_padding) {
            return Err(ConfigError::Duration(DurationSetting::SpeechPadding));
        }
        if !duration_ok_exec(self.min_silence_at_max_speech) {
            return Err(ConfigError::Duration(DurationSetting::MinSilenceAtMaxSpeech));
        }
        if self.max_speech_duration.is_nan() || self.max_speech_duration.is_nonpositive() {
            return Err(ConfigError::MaxSpeechDuration);
        }
        Ok(())
    }
}

/// Configuration options: each one given overrides the default setting.
#[derive(Clone, Copy, Debug, PartialEq, Eq, Structural)]
pub struct VadOptions {
    pub threshold: Option<Probability>,
    pub min_speech_duration: Option<Seconds>,
    pub min_silence_duration: Option<Seconds>,
    pub max_speech_duration: Option<Seconds>,
    pub speech_padding: Option<Seconds>,
    pub negative_threshold: Option<Probability>,
}

/// The value given, or the default.
pub open spec fn given_or<T>(given: Option<T>, default: T) -> T {
    match given {
        Some(v) => v,
        None => default,
    }
}

impl VadOptions {
    /// No option given.
    pub fn new() -> (o: Self)
        ensures
            o.threshold is None,
            o.min_speech_duration is None,
            o.min_silence_duration is None,
            o.max_speech_duration is None,
            o.speech_padding is None,
            o.negative_threshold is None,
    {
        VadOptions {
            threshold: None,
            min_speech_duration: None,
            min_silence_duration: None,
            max_speech_duration: None,
            speech_padding: None,
            negative_threshold: None,
        }
    }

    pub fn set_threshold(&mut self, v: Probability)
        ensures
            *final(self) == (VadOptions { threshold: Some(v), ..*old(self) }),
    {
        self.threshold = Some(v);
    }

    pub fn set_min_speech_duration(&mut self, v: Seconds)
        ensures
            *final(self) == (VadOptions { min_speech_duration: Some(v), ..*old(self) }),
    {
        self.min_speech_duration = Some(v);
    }

    pub fn set_min_silence_duration(&mut self, v: Seconds)
        ensures
            *final(self) == (VadOptions { min_silence_duration: Some(v), ..*old(self) }),
    {
        self.min_silence_duration = Some(v);
    }

    pub fn set_max_speech_duration(&mut self, v: Seconds)
        ensures
            *final(self) == (VadOptions { max_speech_duration: Some(v), ..*old(self) }),
    {
        self.max_speech_duration = Some(v);
    }

    pub fn set_speech_padding(&mut self, v: Seconds)
        ensures
            *final(self) == (VadOptions { speech_padding: Some(v), ..*old(self) }),
    {
        self.speech_padding = Some(v);
    }

    pub fn set_negative_threshold(&mut self, v: Probability)
        ensures
            *final(self) == (VadOptions { negative_threshold: Some(v), ..*old(self) }),
    {
        self.negative_threshold = Some(v);
    }

    /// The default configuration with every given option put in.
    pub fn to_config(self) -> (c: VadSegmentationConfig)
        ensures
            ({
                let d = VadSegmentationConfig::spec_default();
                c == VadSegmentationConfig {
                    threshold: given_or(self.threshold, d.threshold),
                    min_speech_duration: given_or(self.min_speech_duration, d.min_speech_duration),
                    min_silence_duration: given_or(self.min_silence_duration, d.min_silence_duration),
                    max_speech_duration: given_or(self.max_speech_duration, d.max_speech_duration),
                    speech_padding: given_or(self.speech_padding, d.speech_padding),
                    negative_threshold: match self.negative_threshold {
                        Some(v) => Some(v),
                        None => d.negative_threshold,
                    },
                    ..d
                }
            }),
    {
        let mut cfg = VadSegmentationConfig::default();
        if let Some(v) = self.threshold {
            cfg.threshold = v;
        }
        if let Some(v) = self.min_speech_duration {
            cfg.min_speech_duration = v;
        }
        if let Some(v) = self.min_silence_duration {
            cfg.min_silence_duration = v;
        }
        if let Some(v) = self.max_speech_duration {
            cfg.max_speech_duration = v;
        }
        if let Some(v) = self.speech_padding {
            cfg.speech_padding = v;
        }
        cfg.negative_threshold = match self.negative_threshold {
            Some(v) => Some(v),
            None => cfg.negative_threshold,
        };
        cfg
    }
}

impl Default for VadOptions {
    fn default() -> (o: Self)
        ensures
            o == (VadOptions {
                threshold: None,
                min_speech_duration: None,
                min_silence_duration: None,
                max_speech_duration: None,
                speech_padding: None,
                negative_threshold: None,
            }),
    {
        VadOptions::new()
    }
}

} // verus!
