//! Streaming state machine and streamer tests with synthetic probabilities.

use fluidvad::{
    streaming_state_machine, Probability, DetectorConfig, VadStreamEvent,
    VadStreamEventKind, VadStreamFrameResult, VadStreamState, VadStreamer, FRAME_SIZE,
};

fn p(value: f32) -> Probability {
    Probability::from_bits(value.to_bits())
}

fn run(values: &[f32], state: &mut VadStreamState) -> Vec<(usize, VadStreamEvent)> {
    let cfg = DetectorConfig::default();
    let mut events = Vec::new();
    for (i, v) in values.iter().enumerate() {
        if let Some(e) = streaming_state_machine(p(*v), FRAME_SIZE, state, &cfg) {
            events.push((i, e));
        }
    }
    events
}

/// Feeds `samples` through a streamer in chunks of `chunk`, scoring each frame
/// by its first sample.
fn push_all(streamer: &mut VadStreamer<f32>, samples: &[f32], chunk: usize) -> Vec<VadStreamFrameResult> {
    let mut results = Vec::new();
    for piece in samples.chunks(chunk) {
        streamer.buffer(piece);
        let frames = streamer.ready_frames();
        let probs: Vec<Probability> = frames.iter().map(|f| p(f[0])).collect();
        assert!(streamer.run_fits_in(&probs));
        results.extend(streamer.accept(&probs));
    }
    results
}

#[test]
fn speech_start_points_padding_before_the_frame() {
    let mut state = VadStreamState::initial();
    let mut values = vec![0.05f32; 10];
    values.push(0.95);
    let events = run(&values, &mut state);
    assert_eq!(events.len(), 1);
    assert_eq!(events[0].0, 10);
    assert!(events[0].1.is_start());
    // processed 11 frames = 5632 samples, minus padding 1600 and one frame
    assert_eq!(events[0].1.sample_index, 3520);
    assert!(state.triggered);
    assert_eq!(state.processed_samples, 5632);
}

#[test]
fn start_at_stream_begin_saturates_at_zero() {
    let mut state = VadStreamState::initial();
    let events = run(&[0.95], &mut state);
    assert_eq!(events.len(), 1);
    assert_eq!(events[0].1.sample_index, 0);
}

#[test]
fn speech_end_after_min_silence() {
    let mut state = VadStreamState::initial();
    let mut values = vec![0.05f32; 10];
    values.extend(vec![0.95f32; 40]);
    values.extend(vec![0.05f32; 30]);
    let events = run(&values, &mut state);
    assert_eq!(events.len(), 2);
    assert_eq!(events[1].0, 74);
    assert!(events[1].1.is_end());
    assert_eq!(events[1].1.kind, VadStreamEventKind::SpeechEnd);
    assert_eq!(events[1].1.sample_index, 27200);
    assert!(!state.triggered);
    assert_eq!(state.temp_end_sample, None);
}

#[test]
fn hysteresis_band_holds_speech_open() {
    let mut state = VadStreamState::initial();
    let mut values = vec![0.95f32; 5];
    values.extend(vec![0.40f32; 100]);
    let events = run(&values, &mut state);
    assert_eq!(events.len(), 1);
    assert!(state.triggered);
}

#[test]
fn events_alternate_on_mixed_input() {
    let mut state = VadStreamState::initial();
    let mut values = vec![0.05f32; 10];
    values.extend(vec![0.95f32; 40]);
    values.extend(vec![0.05f32; 30]);
    values.extend(vec![0.40f32; 5]);
    values.extend(vec![0.95f32; 3]);
    values.extend(vec![0.05f32; 26]);
    let events = run(&values, &mut state);
    let got: Vec<(usize, bool, u64)> = events
        .iter()
        .map(|(i, e)| (*i, e.is_start(), e.sample_index))
        .collect();
    assert_eq!(
        got,
        vec![(10, true, 3520), (74, false, 27200), (85, true, 41920), (112, false, 46656)]
    );
    let mut expect_start = true;
    for (_, e) in &events {
        assert_eq!(e.is_start(), expect_start);
        assert_eq!(e.is_end(), !expect_start);
        expect_start = !expect_start;
    }
    assert!(!state.triggered);
    assert_eq!(state.processed_samples, 58368);
}

#[test]
fn nan_probability_changes_nothing_but_the_counter() {
    let mut state = VadStreamState::initial();
    let events = run(&[f32::NAN, 0.95, f32::NAN], &mut state);
    assert_eq!(events.len(), 1);
    assert_eq!(events[0].0, 1);
    assert!(state.triggered);
    assert_eq!(state.processed_samples, 3 * FRAME_SIZE as u64);
}

#[test]
fn streamer_consumes_whole_frames_of_any_chunking() {
    let samples: Vec<f32> = (0..40_000).map(|i| if (i / 4096) % 2 == 0 { 0.9 } else { 0.0 }).collect();
    let mut streamer: VadStreamer<f32> = VadStreamer::new(DetectorConfig::default());
    let results = push_all(&mut streamer, &samples, 1000);
    assert_eq!(results.len(), samples.len() / FRAME_SIZE);
    assert_eq!(streamer.processed_samples(), (results.len() * FRAME_SIZE) as u64);
}

#[test]
fn streamer_matches_one_shot_push() {
    let samples: Vec<f32> = (0..50_000).map(|i| if (i / 20_000) % 2 == 0 { 0.9 } else { 0.0 }).collect();
    let mut a: VadStreamer<f32> = VadStreamer::new(DetectorConfig::default());
    let mut b: VadStreamer<f32> = VadStreamer::new(DetectorConfig::default());
    let ra = push_all(&mut a, &samples, 333);
    let rb = push_all(&mut b, &samples, samples.len());
    assert_eq!(ra.len(), rb.len());
    for (x, y) in ra.iter().zip(rb.iter()) {
        assert_eq!(x.probability, y.probability);
        assert_eq!(x.event, y.event);
    }
    assert_eq!(a.is_speaking(), b.is_speaking());
    let starts = ra.iter().filter(|r| r.event.map_or(false, |e| e.is_start())).count();
    let ends = ra.iter().filter(|r| r.event.map_or(false, |e| e.is_end())).count();
    assert_eq!(starts, 2);
    assert_eq!(ends, 1);
    assert!(a.is_speaking());
}

#[test]
fn streamer_keeps_partial_frame_until_completed() {
    let mut streamer: VadStreamer<f32> = VadStreamer::new(DetectorConfig::default());
    streamer.buffer(&vec![0.5f32; 700]);
    let frames = streamer.ready_frames();
    assert_eq!(frames.len(), 1);
    assert_eq!(frames[0].len(), FRAME_SIZE);
    let results = streamer.accept(&[p(0.1)]);
    assert_eq!(results.len(), 1);
    assert_eq!(streamer.ready_frames().len(), 0);
    streamer.buffer(&vec![0.5f32; 324]);
    assert_eq!(streamer.ready_frames().len(), 1);
    assert_eq!(streamer.processed_samples(), 512);
}

#[test]
fn streamer_reset_drops_state_and_buffer() {
    let mut streamer: VadStreamer<f32> = VadStreamer::new(DetectorConfig::default());
    streamer.buffer(&vec![0.9f32; 1500]);
    let probs = vec![p(0.95), p(0.95)];
    let results = streamer.accept(&probs);
    assert!(results[0].event.unwrap().is_start());
    assert!(streamer.is_speaking());
    streamer.reset();
    assert!(!streamer.is_speaking());
    assert_eq!(streamer.processed_samples(), 0);
    assert_eq!(streamer.ready_frames().len(), 0);
    assert_eq!(streamer.config().speech_pad_samples, 1600);
}

#[test]
fn initial_state_is_default() {
    let a = VadStreamState::initial();
    let b = VadStreamState::default();
    assert_eq!(a, b);
    assert!(!a.triggered);
    assert_eq!(a.temp_end_sample, None);
    assert_eq!(a.processed_samples, 0);
}

#[test]
fn run_fits_rejects_counter_overflow() {
    let cfg = DetectorConfig { speech_pad_samples: usize::MAX, ..DetectorConfig::default() };
    let streamer: VadStreamer<f32> = VadStreamer::new(cfg);
    // a start would compute padding + frame, past u64
    assert!(!streamer.run_fits_in(&[p(0.95)]));
    assert!(streamer.run_fits_in(&[p(0.05)]));
}

#[test]
fn each_end_lies_past_its_start_across_pushes() {
    let samples: Vec<f32> = (0..120_000)
        .map(|i| if (i / 9_000) % 3 == 0 { 0.9 } else { 0.0 })
        .collect();
    let mut streamer: VadStreamer<f32> = VadStreamer::new(DetectorConfig::default());
    let results = push_all(&mut streamer, &samples, 777);
    let events: Vec<VadStreamEvent> = results.iter().filter_map(|r| r.event).collect();
    assert!(events.len() >= 4);
    for (k, e) in events.iter().enumerate() {
        assert_eq!(e.is_start(), k % 2 == 0);
        if e.is_end() {
            assert!(e.sample_index > events[k - 1].sample_index);
        }
    }
    assert_eq!(streamer.is_speaking(), events.last().map_or(false, |e| e.is_start()));
}
