//! Streaming detection: one speech probability per frame drives a hysteresis
//! state machine that emits a start event when speech begins and an end
//! event once the silence after it is long enough.

use vstd::prelude::*;

use crate::model::{frames_of, rest_of, split_frames, FRAME_SIZE};
use crate::probability::Probability;
use crate::segmentation::DetectorConfig;

verus! {

/// Kind of a speech boundary.
#[derive(Clone, Copy, Debug, PartialEq, Eq, Structural)]
pub enum VadStreamEventKind {
    SpeechStart,
    SpeechEnd,
}

/// A speech boundary event.
#[derive(Clone, Copy, Debug, PartialEq, Eq, Structural)]
pub struct VadStreamEvent {
    pub kind: VadStreamEventKind,
    /// Sample the boundary refers to, padding applied.
    pub sample_index: u64,
}

impl VadStreamEvent {
    /// Whether this is a speech start.
    pub fn is_start(&self) -> (r: bool)
        ensures
            r == (self.kind == VadStreamEventKind::SpeechStart),
    {
        match self.kind {
            VadStreamEventKind::SpeechStart => true,
            VadStreamEventKind::SpeechEnd => false,
        }
    }

    /// Whether this is a speech end.
    pub fn is_end(&self) -> (r: bool)
        ensures
            r == (self.kind == VadStreamEventKind::SpeechEnd),
    {
        match self.kind {
            VadStreamEventKind::SpeechStart => false,
            VadStreamEventKind::SpeechEnd => true,
        }
    }
}

/// Hysteresis state carried between frames.
#[derive(Clone, Copy, Debug, PartialEq, Eq, Structural)]
pub struct VadStreamState {
    /// Inside speech.
    pub triggered: bool,
    /// Sample count at which the silence in progress inside speech began.
    pub temp_end_sample: Option<u64>,
    /// Samples consumed so far.
    pub processed_samples: u64,
}

/// The state before any frame.
pub open spec fn stream_initial() -> VadStreamState {
    VadStreamState { triggered: false, temp_end_sample: None, processed_samples: 0 }
}

impl VadStreamState {
    /// Fresh state: outside speech, nothing consumed.
    pub fn initial() -> (s: Self)
        ensures
            s == stream_initial(),
    {
        VadStreamState { triggered: false, temp_end_sample: None, processed_samples: 0 }
    }
}

impl Default for VadStreamState {
    fn default() -> (s: Self)
        ensures
            s == stream_initial(),
    {
        VadStreamState::initial()
    }
}

/// Result of processing one frame.
#[derive(Clone, Copy, Debug)]
pub struct VadStreamFrameResult {
    pub probability: Probability,
    pub event: Option<VadStreamEvent>,
}

/// `a - b`, or 0 where that is negative.
pub open spec fn sub_or_zero(a: int, b: int) -> int {
    if a >= b {
        a - b
    } else {
        0
    }
}

/// One step of the state machine on a chunk of `chunk` samples with speech
/// probability `prob`: the next state and the event emitted, if any.
///
/// Speech enters at the entry threshold; the start event points `pad`
/// samples before the chunk. Inside speech, a frame below the exit threshold
/// starts (or continues) a silence; once the silence has lasted the minimum,
/// speech ends at the silence start plus `pad`, one chunk earlier.
pub open spec fn stream_step(
    s: VadStreamState,
    prob: Probability,
    chunk: int,
    cfg: DetectorConfig,
) -> (VadStreamState, Option<VadStreamEvent>) {
    let processed = s.processed_samples + chunk;
    let pad = cfg.speech_pad_samples as int;
    if prob.ieee_ge(cfg.threshold) {
        (
            VadStreamState {
                triggered: true,
                temp_end_sample: None,
                processed_samples: processed as u64,
            },
            if s.triggered {
                None
            } else {
                Some(
                    VadStreamEvent {
                        kind: VadStreamEventKind::SpeechStart,
                        sample_index: sub_or_zero(processed, pad + chunk) as u64,
                    },
                )
            },
        )
    } else if prob.ieee_lt(cfg.negative_threshold) && s.triggered {
        let silence_start: int = match s.temp_end_sample {
            Some(t) => t as int,
            None => processed,
        };
        if processed - silence_start >= cfg.min_silence_samples {
            (
                VadStreamState {
                    triggered: false,
                    temp_end_sample: None,
                    processed_samples: processed as u64,
                },
                Some(
                    VadStreamEvent {
                        kind: VadStreamEventKind::SpeechEnd,
                        sample_index: sub_or_zero(silence_start + pad, chunk) as u64,
                    },
                ),
            )
        } else {
            (
                VadStreamState {
                    triggered: true,
                    temp_end_sample: Some(silence_start as u64),
                    processed_samples: processed as u64,
                },
                None,
            )
        }
    } else {
        (
            VadStreamState {
                triggered: s.triggered,
                temp_end_sample: s.temp_end_sample,
                processed_samples: processed as u64,
            },
            None,
        )
    }
}

/// Whether a step keeps its arithmetic within `u64`: the sample counter,
/// the start index before padding, and the padded end index.
pub open spec fn step_fits(
    s: VadStreamState,
    prob: Probability,
    chunk: int,
    cfg: DetectorConfig,
) -> bool {
    let processed = s.processed_samples + chunk;
    let pad = cfg.speech_pad_samples as int;
    &&& processed <= u64::MAX
    &&& (prob.ieee_ge(cfg.threshold) && !s.triggered ==> pad + chunk <= u64::MAX)
    &&& (!prob.ieee_ge(cfg.threshold) && prob.ieee_lt(cfg.negative_threshold) && s.triggered) ==> {
        let silence_start: int = match s.temp_end_sample {
            Some(t) => t as int,
            None => processed,
        };
        &&& silence_start <= processed
        &&& (processed - silence_start >= cfg.min_silence_samples ==> silence_start + pad
            <= u64::MAX)
    }
}

/// The state machine run over a sequence of frame probabilities: the final
/// state and, per frame, the event emitted.
pub open spec fn stream_run(
    s: VadStreamState,
    probs: Seq<Probability>,
    chunk: int,
    cfg: DetectorConfig,
) -> (VadStreamState, Seq<Option<VadStreamEvent>>)
    decreases probs.len(),
{
    if probs.len() == 0 {
        (s, Seq::empty())
    } else {
        let prev = stream_run(s, probs.drop_last(), chunk, cfg);
        let next = stream_step(prev.0, probs.last(), chunk, cfg);
        (next.0, prev.1.push(next.1))
    }
}

/// Whether every step of a run keeps its arithmetic within `u64`.
pub open spec fn run_fits(
    s: VadStreamState,
    probs: Seq<Probability>,
    chunk: int,
    cfg: DetectorConfig,
) -> bool
    decreases probs.len(),
{
    probs.len() == 0 || (run_fits(s, probs.drop_last(), chunk, cfg) && step_fits(
        stream_run(s, probs.drop_last(), chunk, cfg).0,
        probs.last(),
        chunk,
        cfg,
    ))
}

fn step_fits_exec(
    s: &VadStreamState,
    prob: Probability,
    chunk: usize,
    config: &DetectorConfig,
) -> (r: bool)
    ensures
        r == step_fits(*s, prob, chunk as int, *config),
{
    let chunk = chunk as u64;
    if s.processed_samples > u64::MAX - chunk {
        return false;
    }
    let processed = s.processed_samples + chunk;
    let pad = config.speech_pad_samples as u64;
    let speech = prob.ge(config.threshold);
    if speech && !s.triggered && pad > u64::MAX - chunk {
        return false;
    }
    if !speech && prob.lt(config.negative_threshold) && s.triggered {
        let silence_start = match s.temp_end_sample {
            Some(t) => t,
            None => processed,
        };
        if silence_start > processed {
            return false;
        }
        if processed - silence_start >= config.min_silence_samples as u64 && silence_start > u64::MAX
            - pad {
            return false;
        }
    }
    true
}

/// The state machine: consumes a chunk of `chunk_sample_count` samples whose
/// speech probability is `probability` and returns the boundary it crosses,
/// if any.
pub fn streaming_state_machine(
    probability: Probability,
    chunk_sample_count: usize,
    state: &mut VadStreamState,
    config: &DetectorConfig,
) -> (event: Option<VadStreamEvent>)
    requires
        step_fits(*old(state), probability, chunk_sample_count as int, *config),
    ensures
        (*final(state), event) == stream_step(
            *old(state),
            probability,
            chunk_sample_count as int,
            *config,
        ),
{
    let chunk = chunk_sample_count as u64;
    state.processed_samples = state.processed_samples + chunk;
    let speech_pad_samples = config.speech_pad_samples as u64;
    let min_silence_samples = config.min_silence_samples as u64;
    if probability.ge(config.threshold) {
        state.temp_end_sample = None;
        if !state.triggered {
            state.triggered = true;
            let back = speech_pad_samples + chunk;
            let raw_start = if state.processed_samples >= back {
                state.processed_samples - back
            } else {
                0
            };
            return Some(
                VadStreamEvent { kind: VadStreamEventKind::SpeechStart, sample_index: raw_start },
            );
        }
    } else if probability.lt(config.negative_threshold) && state.triggered {
        if state.temp_end_sample.is_none() {
            state.temp_end_sample = Some(state.processed_samples);
        }
        match state.temp_end_sample {
            Some(silence_start) => {
                if state.processed_samples - silence_start >= min_silence_samples {
                    let padded = silence_start + speech_pad_samples;
                    let raw_end = if padded >= chunk {
                        padded - chunk
                    } else {
                        0
                    };
                    state.triggered = false;
                    state.temp_end_sample = None;
                    return Some(
                        VadStreamEvent { kind: VadStreamEventKind::SpeechEnd, sample_index: raw_end },
                    );
                }
            },
            None => {},
        }
    }
    None
}

/// Events emitted by a run, in order, without the frames that emit none.
pub open spec fn emitted(events: Seq<Option<VadStreamEvent>>) -> Seq<VadStreamEvent>
    decreases events.len(),
{
    if events.len() == 0 {
        Seq::empty()
    } else {
        match events.last() {
            Some(e) => emitted(events.drop_last()).push(e),
            None => emitted(events.drop_last()),
        }
    }
}

proof fn lemma_run_prefix(s: VadStreamState, probs: Seq<Probability>, i: int, chunk: int, cfg: DetectorConfig)
    requires
        0 <= i < probs.len(),
    ensures
        probs.take(i + 1).drop_last() == probs.take(i),
        probs.take(i + 1).last() == probs[i],
        stream_run(s, probs.take(i + 1), chunk, cfg) == ({
            let prev = stream_run(s, probs.take(i), chunk, cfg);
            let next = stream_step(prev.0, probs[i], chunk, cfg);
            (next.0, prev.1.push(next.1))
        }),
        run_fits(s, probs.take(i + 1), chunk, cfg) == (run_fits(s, probs.take(i), chunk, cfg)
            && step_fits(stream_run(s, probs.take(i), chunk, cfg).0, probs[i], chunk, cfg)),
{
    assert(probs.take(i + 1).drop_last() =~= probs.take(i));
}

/// Convenience streaming detector: keeps the hysteresis state and a buffer
/// of samples not yet consumed, so that callers can push chunks of any
/// length; the frames it hands out are scored outside and fed back, one
/// probability per frame.
pub struct VadStreamer<S> {
    config: DetectorConfig,
    state: VadStreamState,
    pending: Vec<S>,
}

impl<S: Copy> VadStreamer<S> {
    /// The settings.
    pub closed spec fn config_view(&self) -> DetectorConfig {
        self.config
    }

    /// The hysteresis state.
    pub closed spec fn state_view(&self) -> VadStreamState {
        self.state
    }

    /// Samples buffered and not yet consumed.
    pub closed spec fn pending_view(&self) -> Seq<S> {
        self.pending@
    }

    /// A detector in the initial state with an empty buffer.
    pub fn new(config: DetectorConfig) -> (r: Self)
        ensures
            r.config_view() == config,
            r.state_view() == stream_initial(),
            r.pending_view() == Seq::<S>::empty(),
    {
        VadStreamer { config, state: VadStreamState::initial(), pending: Vec::new() }
    }

    /// Appends samples to the buffer.
    pub fn buffer(&mut self, samples: &[S])
        ensures
            final(self).pending_view() == old(self).pending_view() + samples@,
            final(self).state_view() == old(self).state_view(),
            final(self).config_view() == old(self).config_view(),
    {
        let mut i: usize = 0;
        let ghost before = self.pending@;
        while i < samples.len()
            invariant
                i <= samples@.len(),
                self.pending@ == before + samples@.subrange(0, i as int),
                self.state == old(self).state,
                self.config == old(self).config,
            decreases samples@.len() - i,
        {
            self.pending.push(samples[i]);
            i = i + 1;
            assert(self.pending@ =~= before + samples@.subrange(0, i as int));
        }
        assert(samples@.subrange(0, samples@.len() as int) =~= samples@);
    }

    /// The whole frames waiting in the buffer, in order.
    pub fn ready_frames(&self) -> (frames: Vec<Vec<S>>)
        ensures
            frames@.len() == self.pending_view().len() as int / FRAME_SIZE as int,
            forall|k: int|
                0 <= k < frames@.len() ==> #[trigger] frames@[k]@ == self.pending_view().subrange(
                    k * FRAME_SIZE,
                    k * FRAME_SIZE + FRAME_SIZE,
                ),
            frames@.map_values(|f: Vec<S>| f@) == frames_of(self.pending_view()),
    {
        let frames = split_frames(self.pending.as_slice());
        assert(frames@.map_values(|f: Vec<S>| f@) =~= frames_of(self.pending_view()));
        frames
    }

    /// Whether consuming frames with these probabilities keeps the state
    /// machine's arithmetic within `u64`.
    pub fn run_fits_in(&self, probabilities: &[Probability]) -> (r: bool)
        ensures
            r == run_fits(self.state_view(), probabilities@, FRAME_SIZE as int, self.config_view()),
    {
        let mut st = self.state;
        let mut i: usize = 0;
        while i < probabilities.len()
            invariant
                i <= probabilities@.len(),
                run_fits(self.state, probabilities@.take(i as int), FRAME_SIZE as int, self.config),
                st == stream_run(self.state, probabilities@.take(i as int), FRAME_SIZE as int, self.config).0,
            decreases probabilities@.len() - i,
        {
            proof {
                lemma_run_prefix(self.state, probabilities@, i as int, FRAME_SIZE as int, self.config);
            }
            if !step_fits_exec(&st, probabilities[i], FRAME_SIZE, &self.config) {
                proof {
                    lemma_run_fits_prefix(
                        self.state,
                        probabilities@,
                        i + 1,
                        FRAME_SIZE as int,
                        self.config,
                    );
                }
                return false;
            }
            let _ = streaming_state_machine(probabilities[i], FRAME_SIZE, &mut st, &self.config);
            i = i + 1;
        }
        assert(probabilities@.take(probabilities@.len() as int) =~= probabilities@);
        true
    }

    /// Consumes one frame from the buffer for each probability, in order,
    /// running the state machine on it; returns one result per frame.
    pub fn accept(&mut self, probabilities: &[Probability]) -> (results: Vec<VadStreamFrameResult>)
        requires
            probabilities@.len() * FRAME_SIZE <= old(self).pending_view().len(),
            run_fits(old(self).state_view(), probabilities@, FRAME_SIZE as int, old(self).config_view()),
        ensures
            final(self).config_view() == old(self).config_view(),
            final(self).pending_view() == old(self).pending_view().subrange(
                probabilities@.len() * FRAME_SIZE,
                old(self).pending_view().len() as int,
            ),
            probabilities@.len() == frames_of(old(self).pending_view()).len()
                ==> final(self).pending_view() == rest_of(old(self).pending_view()),
            final(self).state_view() == stream_run(
                old(self).state_view(),
                probabilities@,
                FRAME_SIZE as int,
                old(self).config_view(),
            ).0,
            results@.len() == probabilities@.len(),
            forall|k: int|
                0 <= k < results@.len() ==> #[trigger] results@[k] == (VadStreamFrameResult {
                    probability: probabilities@[k],
                    event: stream_run(
                        old(self).state_view(),
                        probabilities@,
                        FRAME_SIZE as int,
                        old(self).config_view(),
                    ).1[k],
                }),
    {
        let ghost s0 = self.state;
        let mut results: Vec<VadStreamFrameResult> = Vec::new();
        let mut i: usize = 0;
        while i < probabilities.len()
            invariant
                i <= probabilities@.len(),
                self.config == old(self).config,
                self.pending == old(self).pending,
                s0 == old(self).state,
                run_fits(s0, probabilities@, FRAME_SIZE as int, self.config),
                self.state == stream_run(s0, probabilities@.take(i as int), FRAME_SIZE as int, self.config).0,
                results@.len() == i,
                forall|k: int|
                    0 <= k < i ==> #[trigger] results@[k] == (VadStreamFrameResult {
                        probability: probabilities@[k],
                        event: stream_run(s0, probabilities@.take(i as int), FRAME_SIZE as int, self.config).1[k],
                    }),
            decreases probabilities@.len() - i,
        {
            proof {
                lemma_run_prefix(s0, probabilities@, i as int, FRAME_SIZE as int, self.config);
                lemma_run_fits_prefix(s0, probabilities@, i + 1, FRAME_SIZE as int, self.config);
                lemma_run_len(s0, probabilities@.take(i as int), FRAME_SIZE as int, self.config);
            }
            let probability = probabilities[i];
            let event = streaming_state_machine(probability, FRAME_SIZE, &mut self.state, &self.config);
            results.push(VadStreamFrameResult { probability, event });
            i = i + 1;
        }
        assert(probabilities@.take(probabilities@.len() as int) =~= probabilities@);
        assert(self.pending@.len() == self.pending.len());
        let consumed = probabilities.len() * FRAME_SIZE;
        let mut rest: Vec<S> = Vec::new();
        let mut j: usize = consumed;
        while j < self.pending.len()
            invariant
                consumed <= j <= self.pending@.len(),
                rest@ == self.pending@.subrange(consumed as int, j as int),
                self.config == old(self).config,
                s0 == old(self).state,
            decreases self.pending@.len() - j,
        {
            rest.push(self.pending[j]);
            j = j + 1;
            assert(rest@ =~= self.pending@.subrange(consumed as int, j as int));
        }
        self.pending = rest;
        results
    }

    /// Samples consumed so far (a partial frame in the buffer excluded).
    pub fn processed_samples(&self) -> (r: u64)
        ensures
            r == self.state_view().processed_samples,
    {
        self.state.processed_samples
    }

    /// Whether the detector is inside speech.
    pub fn is_speaking(&self) -> (r: bool)
        ensures
            r == self.state_view().triggered,
    {
        self.state.triggered
    }

    /// Back to the initial state, with the buffer dropped.
    pub fn reset(&mut self)
        ensures
            final(self).state_view() == stream_initial(),
            final(self).pending_view() == Seq::<S>::empty(),
            final(self).config_view() == old(self).config_view(),
    {
        self.state = VadStreamState::initial();
        self.pending.clear();
    }

    /// The settings this detector was built with.
    pub fn config(&self) -> (r: &DetectorConfig)
        ensures
            *r == self.config_view(),
    {
        &self.config
    }
}

proof fn lemma_run_len(s: VadStreamState, probs: Seq<Probability>, chunk: int, cfg: DetectorConfig)
    ensures
        stream_run(s, probs, chunk, cfg).1.len() == probs.len(),
    decreases probs.len(),
{
    if probs.len() > 0 {
        lemma_run_len(s, probs.drop_last(), chunk, cfg);
    }
}

proof fn lemma_run_fits_prefix(s: VadStreamState, probs: Seq<Probability>, n: int, chunk: int, cfg: DetectorConfig)
    requires
        0 <= n <= probs.len(),
    ensures
        run_fits(s, probs, chunk, cfg) ==> run_fits(s, probs.take(n), chunk, cfg),
    decreases probs.len() - n,
{
    if n < probs.len() {
        lemma_run_fits_prefix(s, probs, n + 1, chunk, cfg);
        assert(probs.take(n + 1).drop_last() =~= probs.take(n));
    } else {
        assert(probs.take(n) =~= probs);
    }
}

proof fn lemma_emitted_push(events: Seq<Option<VadStreamEvent>>, e: Option<VadStreamEvent>)
    ensures
        emitted(events.push(e)) == match e {
            Some(x) => emitted(events).push(x),
            None => emitted(events),
        },
{
    assert(events.push(e).drop_last() =~= events);
}

/// Speech boundaries alternate: from a state outside speech the events of
/// any run go start, end, start, end, ...; from inside speech they begin
/// with an end. The detector is inside speech after the run exactly when
/// the last event was a start (or, with no event, when it was before).
pub proof fn lemma_events_alternate(
    s: VadStreamState,
    probs: Seq<Probability>,
    chunk: int,
    cfg: DetectorConfig,
)
    ensures
        ({
            let run = stream_run(s, probs, chunk, cfg);
            let events = emitted(run.1);
            let offset: int = if s.triggered {
                1
            } else {
                0
            };
            &&& forall|k: int|
                0 <= k < events.len() ==> ((#[trigger] events[k]).kind == VadStreamEventKind::SpeechStart
                    <==> (k + offset) % 2 == 0)
            &&& run.0.triggered <==> (events.len() + offset) % 2 == 1
        }),
    decreases probs.len(),
{
    if probs.len() > 0 {
        lemma_events_alternate(s, probs.drop_last(), chunk, cfg);
        let prev = stream_run(s, probs.drop_last(), chunk, cfg);
        let next = stream_step(prev.0, probs.last(), chunk, cfg);
        lemma_emitted_push(prev.1, next.1);
        let before = emitted(prev.1);
        let after = emitted(prev.1.push(next.1));
        assert forall|k: int| 0 <= k < after.len() implies ((#[trigger] after[k]).kind
            == VadStreamEventKind::SpeechStart <==> (k + if s.triggered {
            1int
        } else {
            0int
        }) % 2 == 0) by {
            if k < before.len() {
                assert(after[k] == before[k]);
            }
        }
    }
}

/// Every step consumes its chunk: after a run over `probs`, the sample
/// counter has advanced by one chunk per probability.
pub proof fn lemma_run_counts_samples(
    s: VadStreamState,
    probs: Seq<Probability>,
    chunk: int,
    cfg: DetectorConfig,
)
    requires
        0 <= chunk,
        run_fits(s, probs, chunk, cfg),
    ensures
        stream_run(s, probs, chunk, cfg).0.processed_samples == s.processed_samples + probs.len() * chunk,
    decreases probs.len(),
{
    if probs.len() > 0 {
        lemma_run_counts_samples(s, probs.drop_last(), chunk, cfg);
        assert((probs.len() - 1) * chunk + chunk == probs.len() * chunk) by (nonlinear_arith);
    }
}

/// Pushing samples and then scoring every whole frame that is ready
/// consumes whole frames only: `(buffered + pushed) / FRAME_SIZE` frames are
/// scored, the rest of the samples stays buffered (less than one frame), and
/// the sample counter advances by the samples scored, so that counter plus
/// buffer always equals everything pushed.
pub proof fn lemma_push_consumes_whole_frames<S>(
    buffered: Seq<S>,
    pushed: Seq<S>,
    probs: Seq<Probability>,
    state: VadStreamState,
    cfg: DetectorConfig,
    remaining: Seq<S>,
    next_state: VadStreamState,
)
    requires
        probs.len() == (buffered.len() + pushed.len()) as int / FRAME_SIZE as int,
        run_fits(state, probs, FRAME_SIZE as int, cfg),
        remaining == (buffered + pushed).subrange(
            probs.len() * FRAME_SIZE,
            (buffered + pushed).len() as int,
        ),
        next_state == stream_run(state, probs, FRAME_SIZE as int, cfg).0,
    ensures
        remaining.len() == (buffered.len() + pushed.len()) as int % FRAME_SIZE as int,
        remaining.len() < FRAME_SIZE,
        next_state.processed_samples + remaining.len() == state.processed_samples + buffered.len()
            + pushed.len(),
{
    lemma_run_counts_samples(state, probs, FRAME_SIZE as int, cfg);
}

/// Hysteresis: a frame whose probability lies between the exit threshold
/// (included) and the entry threshold (excluded) neither starts nor ends
/// speech, nor starts a silence; it only consumes its chunk.
pub proof fn lemma_band_frame_holds_state(
    s: VadStreamState,
    prob: Probability,
    chunk: int,
    cfg: DetectorConfig,
)
    requires
        !prob.ieee_ge(cfg.threshold),
        !prob.ieee_lt(cfg.negative_threshold),
    ensures
        stream_step(s, prob, chunk, cfg).1 is None,
        stream_step(s, prob, chunk, cfg).0.triggered == s.triggered,
        stream_step(s, prob, chunk, cfg).0.temp_end_sample == s.temp_end_sample,
{
}

/// The event after the `k`-th, if the `k`-th is a start, is an end at a
/// later sample.
pub open spec fn end_follows_start_at(events: Seq<VadStreamEvent>, k: int) -> bool {
    events[k].kind == VadStreamEventKind::SpeechStart ==> events[k + 1].kind
        == VadStreamEventKind::SpeechEnd && events[k + 1].sample_index > events[k].sample_index
}

/// Every start is followed by an end at a later sample, or by nothing.
pub open spec fn ends_follow_starts(events: Seq<VadStreamEvent>) -> bool {
    forall|k: int| 0 <= k < events.len() - 1 ==> #[trigger] end_follows_start_at(events, k)
}

/// What a state inside speech keeps of the start that opened it: the start
/// index lies at most one chunk plus the padding behind the counter, and a
/// pending silence start, padded, lies past it.
spec fn open_speech_bound(st: VadStreamState, events: Seq<VadStreamEvent>, pad: int, chunk: int) -> bool {
    &&& st.triggered ==> {
        &&& events.len() > 0
        &&& events.last().kind == VadStreamEventKind::SpeechStart
        &&& st.processed_samples >= chunk
        &&& events.last().sample_index <= sub_or_zero(st.processed_samples as int, pad + chunk)
        &&& (st.temp_end_sample matches Some(t) ==> t + pad - chunk > events.last().sample_index && t
            + pad - chunk > 0)
    }
    &&& !st.triggered ==> (events.len() == 0 || events.last().kind == VadStreamEventKind::SpeechEnd)
}

proof fn lemma_ends_follow_starts_push(events: Seq<VadStreamEvent>, e: VadStreamEvent)
    requires
        ends_follow_starts(events),
        events.len() > 0 && events.last().kind == VadStreamEventKind::SpeechStart ==> e.kind
            == VadStreamEventKind::SpeechEnd && e.sample_index > events.last().sample_index,
    ensures
        ends_follow_starts(events.push(e)),
{
    let after = events.push(e);
    assert forall|k: int| 0 <= k < after.len() - 1 implies #[trigger] end_follows_start_at(after, k) by {
        if k + 1 < events.len() {
            assert(end_follows_start_at(events, k));
            assert(after[k] == events[k]);
            assert(after[k + 1] == events[k + 1]);
        } else {
            assert(after[k] == events.last());
            assert(after[k + 1] == e);
        }
    }
}

#[verifier::spinoff_prover]
proof fn lemma_open_speech_step(
    st: VadStreamState,
    events: Seq<VadStreamEvent>,
    prob: Probability,
    chunk: int,
    cfg: DetectorConfig,
)
    requires
        chunk > 0,
        open_speech_bound(st, events, cfg.speech_pad_samples as int, chunk),
        ends_follow_starts(events),
        step_fits(st, prob, chunk, cfg),
    ensures
        ({
            let next = stream_step(st, prob, chunk, cfg);
            let after = match next.1 {
                Some(e) => events.push(e),
                None => events,
            };
            &&& open_speech_bound(next.0, after, cfg.speech_pad_samples as int, chunk)
            &&& ends_follow_starts(after)
        }),
{
    let next = stream_step(st, prob, chunk, cfg);
    match next.1 {
        Some(e) => {
            if st.triggered {
                assert(e.kind == VadStreamEventKind::SpeechEnd);
                assert(e.sample_index > events.last().sample_index);
            } else {
                assert(e.kind == VadStreamEventKind::SpeechStart);
            }
            lemma_ends_follow_starts_push(events, e);
        },
        None => {},
    }
}

proof fn lemma_open_speech_bound(s: VadStreamState, probs: Seq<Probability>, chunk: int, cfg: DetectorConfig)
    requires
        !s.triggered,
        chunk > 0,
        run_fits(s, probs, chunk, cfg),
    ensures
        open_speech_bound(
            stream_run(s, probs, chunk, cfg).0,
            emitted(stream_run(s, probs, chunk, cfg).1),
            cfg.speech_pad_samples as int,
            chunk,
        ),
        ends_follow_starts(emitted(stream_run(s, probs, chunk, cfg).1)),
    decreases probs.len(),
{
    if probs.len() > 0 {
        lemma_open_speech_bound(s, probs.drop_last(), chunk, cfg);
        let prev = stream_run(s, probs.drop_last(), chunk, cfg);
        let next = stream_step(prev.0, probs.last(), chunk, cfg);
        lemma_emitted_push(prev.1, next.1);
        lemma_open_speech_step(prev.0, emitted(prev.1), probs.last(), chunk, cfg);
    }
}

/// Each end of speech lies past the start it closes: from a state outside
/// speech, in the events of any run with chunks of at least one sample, every
/// start is followed by an end (or by nothing), at a larger sample index.
pub proof fn lemma_end_follows_start(
    s: VadStreamState,
    probs: Seq<Probability>,
    chunk: int,
    cfg: DetectorConfig,
)
    requires
        !s.triggered,
        chunk > 0,
        run_fits(s, probs, chunk, cfg),
    ensures
        ends_follow_starts(emitted(stream_run(s, probs, chunk, cfg).1)),
{
    lemma_open_speech_bound(s, probs, chunk, cfg);
}

/// A run over two sequences one after the other is the run over their
/// concatenation: the second picks up the state the first left, the events
/// follow each other, and the arithmetic fits over the whole exactly when it
/// fits over both parts.
pub proof fn lemma_run_append(
    s: VadStreamState,
    p1: Seq<Probability>,
    p2: Seq<Probability>,
    chunk: int,
    cfg: DetectorConfig,
)
    ensures
        stream_run(s, p1 + p2, chunk, cfg) == ({
            let first = stream_run(s, p1, chunk, cfg);
            let second = stream_run(first.0, p2, chunk, cfg);
            (second.0, first.1 + second.1)
        }),
        run_fits(s, p1 + p2, chunk, cfg) == (run_fits(s, p1, chunk, cfg) && run_fits(
            stream_run(s, p1, chunk, cfg).0,
            p2,
            chunk,
            cfg,
        )),
    decreases p2.len(),
{
    let first = stream_run(s, p1, chunk, cfg);
    if p2.len() == 0 {
        assert(p1 + p2 =~= p1);
        assert(first.1 + stream_run(first.0, p2, chunk, cfg).1 =~= first.1);
    } else {
        lemma_run_append(s, p1, p2.drop_last(), chunk, cfg);
        assert((p1 + p2).drop_last() =~= p1 + p2.drop_last());
        assert((p1 + p2).last() == p2.last());
        let prev_second = stream_run(first.0, p2.drop_last(), chunk, cfg);
        let step = stream_step(prev_second.0, p2.last(), chunk, cfg);
        assert((first.1 + prev_second.1).push(step.1) =~= first.1 + prev_second.1.push(step.1));
    }
}

proof fn lemma_emitted_append(e1: Seq<Option<VadStreamEvent>>, e2: Seq<Option<VadStreamEvent>>)
    ensures
        emitted(e1 + e2) == emitted(e1) + emitted(e2),
    decreases e2.len(),
{
    if e2.len() == 0 {
        assert(e1 + e2 =~= e1);
        assert(emitted(e1) + emitted(e2) =~= emitted(e1));
    } else {
        lemma_emitted_append(e1, e2.drop_last());
        assert((e1 + e2).drop_last() =~= e1 + e2.drop_last());
        assert((e1 + e2).last() == e2.last());
        match e2.last() {
            Some(x) => {
                assert((emitted(e1) + emitted(e2.drop_last())).push(x) =~= emitted(e1) + emitted(
                    e2.drop_last(),
                ).push(x));
            },
            None => {},
        }
    }
}

/// Speech boundaries keep their order across pushes: starting outside
/// speech, the events of one batch of frames followed by those of the next
/// (run from the state the first left) go start, end, start, ...; each end
/// lies past the start before it; and the detector is inside speech
/// afterwards exactly when the last event was a start.
pub proof fn lemma_pushes_keep_event_order(
    s: VadStreamState,
    p1: Seq<Probability>,
    p2: Seq<Probability>,
    chunk: int,
    cfg: DetectorConfig,
)
    requires
        !s.triggered,
        chunk > 0,
        run_fits(s, p1, chunk, cfg),
        run_fits(stream_run(s, p1, chunk, cfg).0, p2, chunk, cfg),
    ensures
        ({
            let first = stream_run(s, p1, chunk, cfg);
            let second = stream_run(first.0, p2, chunk, cfg);
            let events = emitted(first.1) + emitted(second.1);
            &&& forall|k: int|
                0 <= k < events.len() ==> ((#[trigger] events[k]).kind
                    == VadStreamEventKind::SpeechStart <==> k % 2 == 0)
            &&& ends_follow_starts(events)
            &&& second.0.triggered <==> (events.len() > 0 && events.last().kind
                == VadStreamEventKind::SpeechStart)
        }),
{
    let first = stream_run(s, p1, chunk, cfg);
    let second = stream_run(first.0, p2, chunk, cfg);
    let whole = stream_run(s, p1 + p2, chunk, cfg);
    let events = emitted(first.1) + emitted(second.1);
    assert(whole.0 == second.0 && whole.1 == first.1 + second.1 && run_fits(s, p1 + p2, chunk, cfg))
        by {
        lemma_run_append(s, p1, p2, chunk, cfg);
    }
    assert(emitted(whole.1) == events) by {
        lemma_emitted_append(first.1, second.1);
    }
    assert(ends_follow_starts(events)) by {
        lemma_end_follows_start(s, p1 + p2, chunk, cfg);
    }
    lemma_events_alternate_from_outside(s, p1 + p2, chunk, cfg);
}

proof fn lemma_events_alternate_from_outside(
    s: VadStreamState,
    probs: Seq<Probability>,
    chunk: int,
    cfg: DetectorConfig,
)
    requires
        !s.triggered,
    ensures
        ({
            let run = stream_run(s, probs, chunk, cfg);
            let events = emitted(run.1);
            &&& forall|k: int|
                0 <= k < events.len() ==> ((#[trigger] events[k]).kind
                    == VadStreamEventKind::SpeechStart <==> k % 2 == 0)
            &&& run.0.triggered <==> (events.len() > 0 && events.last().kind
                == VadStreamEventKind::SpeechStart)
        }),
{
    lemma_events_alternate(s, probs, chunk, cfg);
    let events = emitted(stream_run(s, probs, chunk, cfg).1);
    if events.len() > 0 {
        let n = events.len() - 1;
        assert(events.last() == events[n]);
    }
}

/// Framing does not depend on how samples arrive: the frames of `x`, then
/// the frames of what stays of `x` followed by `b`, are the frames of `x`
/// followed by `b`; and what stays at the end is the same.
pub proof fn lemma_frames_append<S>(x: Seq<S>, b: Seq<S>)
    ensures
        frames_of(x) + frames_of(rest_of(x) + b) == frames_of(x + b),
        rest_of(rest_of(x) + b) == rest_of(x + b),
{
    let f = FRAME_SIZE as int;
    let k1 = x.len() as int / f;
    let r = rest_of(x);
    let xb = x + b;
    assert(r + b =~= xb.subrange(k1 * f, xb.len() as int));
    assert(k1 * f <= x.len()) by (nonlinear_arith)
        requires
            k1 == x.len() as int / 512,
            f == 512,
    ;
    let m = (r + b).len() as int;
    assert(m == xb.len() - k1 * f);
    assert(m / f + k1 == xb.len() as int / f && (m / f) * f + k1 * f == (xb.len() as int / f) * f) by (nonlinear_arith)
        requires
            m == xb.len() - k1 * f,
            f == 512,
            k1 >= 0,
            m >= 0,
    ;
    let lhs = frames_of(x) + frames_of(r + b);
    let rhs = frames_of(xb);
    assert forall|k: int| 0 <= k < rhs.len() implies #[trigger] lhs[k] == rhs[k] by {
        if k < k1 {
            assert(k * f + f <= x.len()) by (nonlinear_arith)
                requires
                    k < k1,
                    k1 == x.len() as int / 512,
                    f == 512,
            ;
            assert(lhs[k] == frames_of(x)[k]);
            assert(frames_of(x)[k] =~= rhs[k]);
        } else {
            let j = k - k1;
            assert(lhs[k] == frames_of(r + b)[j]);
            assert(j * f + k1 * f == k * f) by (nonlinear_arith)
                requires
                    j == k - k1,
            ;
            assert(j * f + f <= m) by (nonlinear_arith)
                requires
                    j < m / 512,
                    f == 512,
                    j >= 0,
                    m >= 0,
            ;
            assert(frames_of(r + b)[j] =~= rhs[k]);
        }
    }
    assert(lhs =~= rhs);
    assert(rest_of(r + b) =~= rest_of(xb));
}

/// Chunking does not matter: pushing `a` and then `b` into a streamer
/// holding `pending` hands out, frame by frame, the frames that pushing
/// `a + b` at once would, and leaves the same samples buffered. Scoring those
/// frames with the same probabilities `ps`, the two batches together emit
/// the same events as the single one and leave the same state.
pub proof fn lemma_two_pushes_equal_one<S>(
    pending: Seq<S>,
    a: Seq<S>,
    b: Seq<S>,
    s: VadStreamState,
    ps: Seq<Probability>,
    cfg: DetectorConfig,
)
    requires
        ps.len() == frames_of(pending + a + b).len(),
    ensures
        ({
            let x = pending + a;
            let k1 = frames_of(x).len() as int;
            let first = stream_run(s, ps.take(k1), FRAME_SIZE as int, cfg);
            let second = stream_run(first.0, ps.skip(k1), FRAME_SIZE as int, cfg);
            &&& frames_of(x) + frames_of(rest_of(x) + b) == frames_of(pending + a + b)
            &&& rest_of(rest_of(x) + b) == rest_of(pending + a + b)
            &&& ps.take(k1).len() == frames_of(x).len()
            &&& ps.skip(k1).len() == frames_of(rest_of(x) + b).len()
            &&& (run_fits(s, ps, FRAME_SIZE as int, cfg) <==> run_fits(s, ps.take(k1), FRAME_SIZE as int, cfg)
                && run_fits(first.0, ps.skip(k1), FRAME_SIZE as int, cfg))
            &&& second.0 == stream_run(s, ps, FRAME_SIZE as int, cfg).0
            &&& first.1 + second.1 == stream_run(s, ps, FRAME_SIZE as int, cfg).1
        }),
{
    let x = pending + a;
    lemma_frames_append(x, b);
    assert(x + b =~= pending + a + b);
    let k1 = frames_of(x).len() as int;
    assert(ps =~= ps.take(k1) + ps.skip(k1));
    lemma_run_append(s, ps.take(k1), ps.skip(k1), FRAME_SIZE as int, cfg);
}

/// All samples of a sequence of chunks, in order.
pub open spec fn concat_all<S>(chunks: Seq<Seq<S>>) -> Seq<S>
    decreases chunks.len(),
{
    if chunks.len() == 0 {
        Seq::empty()
    } else {
        chunks[0] + concat_all(chunks.drop_first())
    }
}

/// The frames handed out when the chunks are pushed one after the other
/// into a buffer holding `pending`, every ready frame taken after each push.
pub open spec fn frames_handed_out<S>(pending: Seq<S>, chunks: Seq<Seq<S>>) -> Seq<Seq<S>>
    decreases chunks.len(),
{
    if chunks.len() == 0 {
        Seq::empty()
    } else {
        frames_of(pending + chunks[0]) + frames_handed_out(
            rest_of(pending + chunks[0]),
            chunks.drop_first(),
        )
    }
}

/// What stays buffered after those pushes.
pub open spec fn buffered_after<S>(pending: Seq<S>, chunks: Seq<Seq<S>>) -> Seq<S>
    decreases chunks.len(),
{
    if chunks.len() == 0 {
        pending
    } else {
        buffered_after(rest_of(pending + chunks[0]), chunks.drop_first())
    }
}

/// Over any number of pushes, each followed by taking every ready frame, the
/// frames handed out are the frames of everything pushed, and what stays
/// buffered is its tail of less than one frame. From an empty buffer that is
/// `total / FRAME_SIZE` frames for `total` samples pushed.
pub proof fn lemma_pushes_frame_the_concatenation<S>(pending: Seq<S>, chunks: Seq<Seq<S>>)
    requires
        pending.len() < FRAME_SIZE,
    ensures
        frames_handed_out(pending, chunks) == frames_of(pending + concat_all(chunks)),
        buffered_after(pending, chunks) == rest_of(pending + concat_all(chunks)),
        frames_handed_out(pending, chunks).len() == (pending.len() + concat_all(chunks).len()) as int
            / FRAME_SIZE as int,
        buffered_after(pending, chunks).len() < FRAME_SIZE,
    decreases chunks.len(),
{
    if chunks.len() == 0 {
        assert(pending + concat_all(chunks) =~= pending);
        let n = pending.len() as int;
        assert(n / 512 == 0) by (nonlinear_arith)
            requires
                0 <= n < 512,
        ;
        assert(rest_of(pending) =~= pending);
        assert(frames_of(pending) =~= Seq::<Seq<S>>::empty());
    } else {
        let x = pending + chunks[0];
        let n = x.len() as int;
        assert(n - (n / 512) * 512 < 512) by (nonlinear_arith)
            requires
                n >= 0,
        ;
        assert((n / 512) * 512 <= n) by (nonlinear_arith)
            requires
                n >= 0,
        ;
        assert(rest_of(x).len() < FRAME_SIZE);
        lemma_pushes_frame_the_concatenation(rest_of(x), chunks.drop_first());
        lemma_frames_append(x, concat_all(chunks.drop_first()));
        assert(x + concat_all(chunks.drop_first()) =~= pending + concat_all(chunks));
    }
}

/// Scoring every frame handed out over a run of pushes advances the sample
/// counter by one frame per score: by the frames of everything pushed.
pub proof fn lemma_pushes_count_samples<S>(
    chunks: Seq<Seq<S>>,
    s: VadStreamState,
    ps: Seq<Probability>,
    cfg: DetectorConfig,
)
    requires
        ps.len() == frames_handed_out(Seq::<S>::empty(), chunks).len(),
        run_fits(s, ps, FRAME_SIZE as int, cfg),
    ensures
        ps.len() == concat_all(chunks).len() as int / FRAME_SIZE as int,
        stream_run(s, ps, FRAME_SIZE as int, cfg).0.processed_samples == s.processed_samples
            + ps.len() * FRAME_SIZE,
{
    lemma_pushes_frame_the_concatenation(Seq::<S>::empty(), chunks);
    lemma_run_counts_samples(s, ps, FRAME_SIZE as int, cfg);
}

/// Every silence in progress began after each speech frame of the run so
/// far: it started no earlier than the end of the frame following it.
spec fn silence_after_speech(
    st: VadStreamState,
    p0: int,
    probs: Seq<Probability>,
    chunk: int,
    cfg: DetectorConfig,
) -> bool {
    forall|i: int|
        0 <= i < probs.len() && (#[trigger] probs[i]).ieee_ge(cfg.threshold) ==> (
        st.temp_end_sample matches Some(t) ==> t >= p0 + (i + 2) * chunk)
}

/// Every end event of a run lies at least the padding past the end of each
/// speech frame before it.
pub open spec fn ends_after_speech(
    p0: int,
    probs: Seq<Probability>,
    events: Seq<Option<VadStreamEvent>>,
    chunk: int,
    cfg: DetectorConfig,
) -> bool {
    forall|i: int, j: int|
        0 <= i < j < probs.len() && (#[trigger] probs[i]).ieee_ge(cfg.threshold) && (
        #[trigger] events[j]) is Some && events[j]->0.kind == VadStreamEventKind::SpeechEnd
            ==> events[j]->0.sample_index >= p0 + (i + 1) * chunk + cfg.speech_pad_samples
}

proof fn lemma_ends_after_speech_run(s: VadStreamState, probs: Seq<Probability>, chunk: int, cfg: DetectorConfig)
    requires
        chunk >= 0,
        run_fits(s, probs, chunk, cfg),
    ensures
        silence_after_speech(
            stream_run(s, probs, chunk, cfg).0,
            s.processed_samples as int,
            probs,
            chunk,
            cfg,
        ),
        ends_after_speech(
            s.processed_samples as int,
            probs,
            stream_run(s, probs, chunk, cfg).1,
            chunk,
            cfg,
        ),
    decreases probs.len(),
{
    if probs.len() > 0 {
        let n = probs.len() - 1;
        let pre = probs.drop_last();
        lemma_ends_after_speech_run(s, pre, chunk, cfg);
        lemma_run_counts_samples(s, pre, chunk, cfg);
        lemma_run_len(s, pre, chunk, cfg);
        let prev = stream_run(s, pre, chunk, cfg);
        let next = stream_step(prev.0, probs.last(), chunk, cfg);
        let p0 = s.processed_samples as int;
        assert(prev.0.processed_samples == p0 + n * chunk);
        assert(step_fits(prev.0, probs[n], chunk, cfg));
        assert((n + 1) * chunk == n * chunk + chunk) by (nonlinear_arith);
        assert forall|i: int|
            0 <= i < probs.len() && (#[trigger] probs[i]).ieee_ge(cfg.threshold) implies (
            next.0.temp_end_sample matches Some(t) ==> t >= p0 + (i + 2) * chunk) by {
            if i < n {
                assert(pre[i] == probs[i]);
                assert((i + 2) * chunk <= (n + 1) * chunk) by (nonlinear_arith)
                    requires
                        i < n,
                        chunk >= 0,
                ;
            }
        }
        let events = prev.1.push(next.1);
        assert forall|i: int, j: int|
            0 <= i < j < probs.len() && (#[trigger] probs[i]).ieee_ge(cfg.threshold) && (
            #[trigger] events[j]) is Some && events[j]->0.kind == VadStreamEventKind::SpeechEnd
                implies events[j]->0.sample_index >= p0 + (i + 1) * chunk + cfg.speech_pad_samples by {
            assert(pre[i] == probs[i]);
            assert((i + 1) * chunk + chunk == (i + 2) * chunk) by (nonlinear_arith);
            assert((i + 1) * chunk <= n * chunk) by (nonlinear_arith)
                requires
                    i < n,
                    chunk >= 0,
            ;
            if j < n {
                assert(events[j] == prev.1[j]);
            }
        }
    }
}

/// Speech ends no earlier than the padding past its last speech frame: in
/// any run, an end event emitted after a frame at or above the entry
/// threshold lies at least the padding past that frame's end, so a silence
/// interrupted by speech is forgotten and the end is measured from the
/// silence after the last speech.
pub proof fn lemma_end_not_before_last_speech(
    s: VadStreamState,
    probs: Seq<Probability>,
    chunk: int,
    cfg: DetectorConfig,
)
    requires
        chunk >= 0,
        run_fits(s, probs, chunk, cfg),
    ensures
        ends_after_speech(
            s.processed_samples as int,
            probs,
            stream_run(s, probs, chunk, cfg).1,
            chunk,
            cfg,
        ),
{
    lemma_ends_after_speech_run(s, probs, chunk, cfg);
}

/// The first frame below the exit threshold after the last frame at or above
/// the entry threshold, in a sequence of frame probabilities; the length of
/// the sequence when there is none (or when the last frame is speech).
pub open spec fn first_silence_since_speech(probs: Seq<Probability>, cfg: DetectorConfig) -> int
    decreases probs.len(),
{
    if probs.len() == 0 {
        0
    } else if probs.last().ieee_ge(cfg.threshold) {
        probs.len() as int
    } else {
        let f = first_silence_since_speech(probs.drop_last(), cfg);
        if f < probs.len() - 1 {
            f
        } else if probs.last().ieee_lt(cfg.negative_threshold) {
            probs.len() - 1
        } else {
            probs.len() as int
        }
    }
}

proof fn lemma_first_silence_bound(probs: Seq<Probability>, cfg: DetectorConfig)
    ensures
        0 <= first_silence_since_speech(probs, cfg) <= probs.len(),
    decreases probs.len(),
{
    if probs.len() > 0 {
        lemma_first_silence_bound(probs.drop_last(), cfg);
    }
}

/// Inside speech, the silence in progress started at the end of the first
/// silence frame since the last speech frame, if there is one.
spec fn silence_tracked(st: VadStreamState, p0: int, probs: Seq<Probability>, chunk: int, cfg: DetectorConfig) -> bool {
    let n = probs.len() as int;
    let f = first_silence_since_speech(probs, cfg);
    &&& st.processed_samples == p0 + n * chunk
    &&& st.triggered ==> st.temp_end_sample == if f < n {
        Some((p0 + (f + 1) * chunk) as u64)
    } else {
        None
    }
}

proof fn lemma_silence_tracked(s: VadStreamState, probs: Seq<Probability>, chunk: int, cfg: DetectorConfig)
    requires
        !s.triggered,
        chunk >= 0,
        run_fits(s, probs, chunk, cfg),
    ensures
        silence_tracked(stream_run(s, probs, chunk, cfg).0, s.processed_samples as int, probs, chunk, cfg),
        probs.len() > 0 ==> (stream_run(s, probs, chunk, cfg).1.last() matches Some(e) ==> e.sample_index
            == if e.kind == VadStreamEventKind::SpeechStart {
            sub_or_zero(s.processed_samples + (probs.len() - 1) * chunk, cfg.speech_pad_samples as int)
        } else {
            s.processed_samples + first_silence_since_speech(probs, cfg) * chunk + cfg.speech_pad_samples
        }),
    decreases probs.len(),
{
    if probs.len() > 0 {
        let n = probs.len() - 1;
        let pre = probs.drop_last();
        lemma_silence_tracked(s, pre, chunk, cfg);
        lemma_first_silence_bound(pre, cfg);
        let p0 = s.processed_samples as int;
        let f = first_silence_since_speech(pre, cfg);
        assert((n + 1) * chunk == n * chunk + chunk) by (nonlinear_arith);
        assert((f + 1) * chunk == f * chunk + chunk) by (nonlinear_arith);
        assert(f * chunk <= n * chunk) by (nonlinear_arith)
            requires
                f <= n,
                chunk >= 0,
        ;
        assert(0 <= f * chunk) by (nonlinear_arith)
            requires
                f >= 0,
                chunk >= 0,
        ;
        assert(0 <= n * chunk) by (nonlinear_arith)
            requires
                n >= 0,
                chunk >= 0,
        ;
    }
}

/// Where the streaming events point, from a state outside speech: a start
/// emitted at frame `j` lies the padding before that frame (or at 0), and an
/// end emitted at frame `j` lies the padding past the start of the first
/// frame below the exit threshold after the last frame at or above the entry
/// threshold, among frames `0..=j`.
pub proof fn lemma_event_positions(s: VadStreamState, probs: Seq<Probability>, chunk: int, cfg: DetectorConfig)
    requires
        !s.triggered,
        chunk >= 0,
        run_fits(s, probs, chunk, cfg),
    ensures
        forall|j: int|
            0 <= j < probs.len() && (#[trigger] stream_run(s, probs, chunk, cfg).1[j]) is Some ==> ({
                let e = stream_run(s, probs, chunk, cfg).1[j]->0;
                e.sample_index == if e.kind == VadStreamEventKind::SpeechStart {
                    sub_or_zero(s.processed_samples + j * chunk, cfg.speech_pad_samples as int)
                } else {
                    s.processed_samples + first_silence_since_speech(probs.take(j + 1), cfg) * chunk
                        + cfg.speech_pad_samples
                }
            }),
{
    let run = stream_run(s, probs, chunk, cfg);
    assert forall|j: int|
        0 <= j < probs.len() && (#[trigger] stream_run(s, probs, chunk, cfg).1[j]) is Some implies ({
            let e = stream_run(s, probs, chunk, cfg).1[j]->0;
            e.sample_index == if e.kind == VadStreamEventKind::SpeechStart {
                sub_or_zero(s.processed_samples + j * chunk, cfg.speech_pad_samples as int)
            } else {
                s.processed_samples + first_silence_since_speech(probs.take(j + 1), cfg) * chunk
                    + cfg.speech_pad_samples
            }
        }) by {
        let head = probs.take(j + 1);
        let tail = probs.skip(j + 1);
        assert(probs =~= head + tail);
        lemma_run_append(s, head, tail, chunk, cfg);
        lemma_run_len(s, head, chunk, cfg);
        let first = stream_run(s, head, chunk, cfg);
        assert(run.1 == first.1 + stream_run(first.0, tail, chunk, cfg).1);
        assert(run.1[j] == first.1[j]);
        assert(first.1.last() == first.1[j]);
        lemma_silence_tracked(s, head, chunk, cfg);
    }
}

} // verus!
