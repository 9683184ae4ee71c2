//! Voice activity detection: the decision logic around a frame-level speech
//! model. Offline segmentation turns per-frame speech probabilities into
//! padded speech regions; the streaming detector turns them into start/end
//! events with hysteresis.

pub mod config;
pub mod model;
pub mod probability;
pub mod segmentation;
pub mod streaming;

pub use config::{ConfigError, DurationSetting, EntryThreshold, Seconds, VadOptions, VadSegmentationConfig};
pub use model::{split_frames, FluidVadError, ModelState, CONTEXT_SIZE, FRAME_SIZE, SAMPLE_RATE, STATE_SIZE};
pub use probability::Probability;
pub use segmentation::{
    segment_from_probabilities, segment_from_probabilities_checked, VadSegment,
    DetectorConfig,
};
pub use streaming::{
    streaming_state_machine, VadStreamEvent, VadStreamEventKind, VadStreamFrameResult,
    VadStreamState, VadStreamer,
};
