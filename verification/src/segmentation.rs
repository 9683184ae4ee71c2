//! Offline speech segmentation: per-frame speech probabilities become padded
//! speech regions, measured in samples.
//!
//! The detector scans the frames once with an entry/exit hysteresis, drops
//! speech runs shorter than the minimum, force-splits runs that grow past the
//! maximum duration at the best silence seen inside them, then pads every run
//! and shares short gaps between neighbours instead of letting them overlap.

use vstd::prelude::*;

use crate::model::FRAME_SIZE;
use crate::probability::{Probability, ONE_BITS};

verus! {

/// What the segmentation and streaming detectors read from their settings:
/// the entry and exit thresholds in effect, as binary32 values, and every
/// duration converted to samples.
#[derive(Clone, Copy, Debug)]
pub struct DetectorConfig {
    /// Entry threshold: a frame with probability at or above it starts or continues speech.
    pub threshold: Probability,
    /// Exit threshold: a frame below it, inside speech, counts as silence.
    pub negative_threshold: Probability,
    /// A candidate split silence whose lowest probability is at or below this is preferred.
    pub silence_threshold_for_split: Probability,
    /// Speech runs shorter than this are dropped.
    pub min_speech_samples: usize,
    /// Silence needed to close a speech run.
    pub min_silence_samples: usize,
    /// Runs longer than this are split; `usize::MAX` disables splitting.
    pub max_speech_samples: usize,
    /// Padding added around each run.
    pub speech_pad_samples: usize,
    /// Silences longer than this inside a run become split candidates.
    pub min_silence_at_max_speech_samples: usize,
    /// With no candidate below `silence_threshold_for_split`, split at the
    /// longest candidate (`true`) or at the most recent one (`false`).
    pub use_max_possible_silence_at_max_speech: bool,
}

impl Default for DetectorConfig {
    /// The defaults at 16 kHz: entry 0.5, exit 0.35 (0.5 - 0.15 in binary32),
    /// split preference 0.3, minimum speech 0.15 s, minimum silence 0.75 s,
    /// maximum speech 14 s less one frame and twice the padding, padding 0.1 s,
    /// split candidates above 0.098 s, longest candidate preferred.
    fn default() -> (c: Self)
        ensures
            c.threshold.bits == 0x3f00_0000u32,
            c.negative_threshold.bits == 0x3eb3_3333u32,
            c.silence_threshold_for_split.bits == 0x3e99_999au32,
            c.min_speech_samples == 2400,
            c.min_silence_samples == 12000,
            c.max_speech_samples == 220288,
            c.speech_pad_samples == 1600,
            c.min_silence_at_max_speech_samples == 1568,
            c.use_max_possible_silence_at_max_speech,
    {
        DetectorConfig {
            threshold: Probability { bits: 0x3f00_0000u32 },
            negative_threshold: Probability { bits: 0x3eb3_3333u32 },
            silence_threshold_for_split: Probability { bits: 0x3e99_999au32 },
            min_speech_samples: 2400,
            min_silence_samples: 12000,
            max_speech_samples: 220288,
            speech_pad_samples: 1600,
            min_silence_at_max_speech_samples: 1568,
            use_max_possible_silence_at_max_speech: true,
        }
    }
}

/// A detected speech region, in samples: `start_sample..end_sample`.
#[derive(Clone, Copy, Debug, PartialEq, Eq, Structural)]
pub struct VadSegment {
    pub start_sample: usize,
    pub end_sample: usize,
}

impl VadSegment {
    /// First sample of the region.
    pub fn start_sample(&self) -> (r: usize)
        ensures
            r == self.start_sample,
    {
        self.start_sample
    }

    /// One past the last sample of the region.
    pub fn end_sample(&self) -> (r: usize)
        ensures
            r == self.end_sample,
    {
        self.end_sample
    }
}

/// A silence inside a speech run that may serve as a forced split point.
#[derive(Clone, Copy, Debug)]
pub struct CandidateSilence {
    /// First sample of the silence.
    pub start: usize,
    /// Its length in samples.
    pub duration: usize,
    /// The lowest probability seen during it.
    pub min_probability: Probability,
}

/// The detector's state between frames.
pub struct ScanState {
    /// Inside a speech run.
    pub triggered: bool,
    /// First sample of the current run.
    pub speech_start: usize,
    /// First sample of the silence in progress inside the run, if any.
    pub temp_end: Option<usize>,
    /// Lowest probability of that silence so far.
    pub temp_min: Option<Probability>,
    /// Split candidates of the current run, oldest first.
    pub candidates: Seq<CandidateSilence>,
    /// Closed speech runs, oldest first.
    pub speeches: Seq<(usize, usize)>,
}

/// `a - b`, or 0 where that is negative.
pub open spec fn sat_sub(a: int, b: int) -> int {
    if a >= b {
        a - b
    } else {
        0
    }
}

/// Keeps the run `start..end` when it is long enough, its end cut at the audio length.
pub open spec fn flush(
    speeches: Seq<(usize, usize)>,
    start: usize,
    end: usize,
    cfg: DetectorConfig,
    audio: usize,
) -> Seq<(usize, usize)> {
    if end > start && end - start >= cfg.min_speech_samples {
        speeches.push(
            (
                start,
                if end < audio {
                    end
                } else {
                    audio
                },
            ),
        )
    } else {
        speeches
    }
}

/// The candidates after a speech frame at sample `fs` ends the silence in
/// progress: that silence joins them when it lasted more than the minimum.
pub open spec fn record_silence(s: ScanState, fs: int, cfg: DetectorConfig) -> Seq<CandidateSilence> {
    match s.temp_end {
        Some(t) => if fs - t > cfg.min_silence_at_max_speech_samples {
            s.candidates.push(
                CandidateSilence {
                    start: t,
                    duration: (fs - t) as usize,
                    min_probability: match s.temp_min {
                        Some(v) => v,
                        None => Probability { bits: ONE_BITS },
                    },
                },
            )
        } else {
            s.candidates
        },
        None => s.candidates,
    }
}

/// Whether a candidate takes part in the search: all of them, or those that
/// dip to the split preference threshold.
pub open spec fn eligible(c: CandidateSilence, cfg: DetectorConfig, any: bool) -> bool {
    any || c.min_probability.ieee_le(cfg.silence_threshold_for_split)
}

/// Index of the longest eligible candidate among the first `n`; of equally
/// long ones, the last.
pub open spec fn last_longest(
    cands: Seq<CandidateSilence>,
    cfg: DetectorConfig,
    any: bool,
    n: int,
) -> Option<int>
    decreases n,
{
    if n <= 0 {
        None
    } else {
        let prev = last_longest(cands, cfg, any, n - 1);
        if eligible(cands[n - 1], cfg, any) {
            match prev {
                Some(j) => if cands[n - 1].duration >= cands[j].duration {
                    Some(n - 1)
                } else {
                    Some(j)
                },
                None => Some(n - 1),
            }
        } else {
            prev
        }
    }
}

proof fn lemma_last_longest_in_range(
    cands: Seq<CandidateSilence>,
    cfg: DetectorConfig,
    any: bool,
    n: int,
)
    ensures
        last_longest(cands, cfg, any, n) matches Some(k) ==> 0 <= k < n,
    decreases n,
{
    if n > 0 {
        lemma_last_longest_in_range(cands, cfg, any, n - 1);
    }
}

/// The chosen split is one of the candidates.
proof fn lemma_chosen_split_is_candidate(cands: Seq<CandidateSilence>, cfg: DetectorConfig)
    ensures
        chosen_split(cands, cfg) matches Some(c) ==> exists|k: int|
            0 <= k < cands.len() && cands[k] == c,
{
    lemma_last_longest_in_range(cands, cfg, false, cands.len() as int);
    lemma_last_longest_in_range(cands, cfg, true, cands.len() as int);
    if let Some(c) = chosen_split(cands, cfg) {
        match last_longest(cands, cfg, false, cands.len() as int) {
            Some(k) => assert(cands[k] == c),
            None => if cfg.use_max_possible_silence_at_max_speech {
                let k = last_longest(cands, cfg, true, cands.len() as int).unwrap();
                assert(cands[k] == c);
            } else {
                assert(cands[cands.len() - 1] == c);
            },
        }
    }
}

/// A candidate whose lowest probability reaches the split preference threshold.
pub open spec fn dips_to_split_threshold(c: CandidateSilence, cfg: DetectorConfig) -> bool {
    c.min_probability.ieee_le(cfg.silence_threshold_for_split)
}

/// Candidate `k` is the longest of the candidates taken into account (all of
/// them, or those dipping to the split preference threshold), and the latest
/// of those equally long.
pub open spec fn latest_longest_at(
    cands: Seq<CandidateSilence>,
    cfg: DetectorConfig,
    all: bool,
    k: int,
) -> bool {
    &&& 0 <= k < cands.len()
    &&& (all || dips_to_split_threshold(cands[k], cfg))
    &&& forall|j: int|
        0 <= j < cands.len() && (all || dips_to_split_threshold(#[trigger] cands[j], cfg))
            ==> cands[j].duration <= cands[k].duration
    &&& forall|j: int|
        k < j < cands.len() && (all || dips_to_split_threshold(#[trigger] cands[j], cfg))
            ==> cands[j].duration < cands[k].duration
}

proof fn lemma_last_longest_is_longest(
    cands: Seq<CandidateSilence>,
    cfg: DetectorConfig,
    any: bool,
    n: int,
)
    requires
        0 <= n <= cands.len(),
    ensures
        last_longest(cands, cfg, any, n) is None <==> forall|j: int|
            0 <= j < n ==> !eligible(#[trigger] cands[j], cfg, any),
        last_longest(cands, cfg, any, n) matches Some(k) ==> latest_longest_at(
            cands.take(n),
            cfg,
            any,
            k,
        ),
    decreases n,
{
    if n > 0 {
        lemma_last_longest_is_longest(cands, cfg, any, n - 1);
        let pre = cands.take(n - 1);
        let cur = cands.take(n);
        assert forall|j: int| 0 <= j < n - 1 implies #[trigger] cur[j] == pre[j] && cur[j]
            == cands[j] by {}
        assert(cur[n - 1] == cands[n - 1]);
    }
}

/// How an over-long run picks its split point: with no candidate there is
/// none; if some candidate dips to the split preference threshold, the
/// longest of those (the latest of equally long ones); otherwise the longest
/// of all when that option is on, or else the latest candidate.
pub proof fn lemma_split_picks_longest_pause(cands: Seq<CandidateSilence>, cfg: DetectorConfig)
    ensures
        cands.len() == 0 ==> chosen_split(cands, cfg) is None,
        (exists|j: int| 0 <= j < cands.len() && dips_to_split_threshold(#[trigger] cands[j], cfg))
            ==> exists|k: int|
            latest_longest_at(cands, cfg, false, k) && chosen_split(cands, cfg) == Some(
                #[trigger] cands[k],
            ),
        (forall|j: int| 0 <= j < cands.len() ==> !dips_to_split_threshold(#[trigger] cands[j], cfg))
            && cands.len() > 0 && cfg.use_max_possible_silence_at_max_speech ==> exists|k: int|
            latest_longest_at(cands, cfg, true, k) && chosen_split(cands, cfg) == Some(
                #[trigger] cands[k],
            ),
        (forall|j: int| 0 <= j < cands.len() ==> !dips_to_split_threshold(#[trigger] cands[j], cfg))
            && cands.len() > 0 && !cfg.use_max_possible_silence_at_max_speech ==> chosen_split(
            cands,
            cfg,
        ) == Some(cands.last()),
{
    let n = cands.len() as int;
    lemma_last_longest_is_longest(cands, cfg, false, n);
    lemma_last_longest_is_longest(cands, cfg, true, n);
    assert(cands.take(n) =~= cands);
    if let Some(k) = last_longest(cands, cfg, false, n) {
        assert(latest_longest_at(cands, cfg, false, k));
    }
    if let Some(k) = last_longest(cands, cfg, true, n) {
        assert(latest_longest_at(cands, cfg, true, k));
        assert(eligible(cands[k], cfg, true));
    } else {
        if n > 0 {
            assert(eligible(cands[0], cfg, true));
        }
    }
}

/// The silence at which an over-long run is split: the longest one that dips
/// to the split threshold; failing that, the longest or the latest one.
pub open spec fn chosen_split(cands: Seq<CandidateSilence>, cfg: DetectorConfig) -> Option<
    CandidateSilence,
> {
    if cands.len() == 0 {
        None
    } else {
        match last_longest(cands, cfg, false, cands.len() as int) {
            Some(k) => Some(cands[k]),
            None => if cfg.use_max_possible_silence_at_max_speech {
                match last_longest(cands, cfg, true, cands.len() as int) {
                    Some(k) => Some(cands[k]),
                    None => None,
                }
            } else {
                Some(cands.last())
            },
        }
    }
}

/// Forced split of the current run at frame start `fs`.
pub open spec fn split_run(s: ScanState, fs: int, cfg: DetectorConfig, audio: usize) -> ScanState {
    let chosen = chosen_split(s.candidates, cfg);
    let split_end: usize = match chosen {
        Some(c) => c.start,
        None => fs as usize,
    };
    let speeches = flush(s.speeches, s.speech_start, split_end, cfg, audio);
    match chosen {
        Some(c) => if c.start + c.duration < fs {
            ScanState {
                triggered: true,
                speech_start: (c.start + c.duration) as usize,
                temp_end: None,
                temp_min: None,
                candidates: Seq::empty(),
                speeches,
            }
        } else {
            ScanState {
                triggered: false,
                speech_start: s.speech_start,
                temp_end: None,
                temp_min: None,
                candidates: Seq::empty(),
                speeches,
            }
        },
        None => ScanState {
            triggered: false,
            speech_start: s.speech_start,
            temp_end: None,
            temp_min: None,
            candidates: Seq::empty(),
            speeches,
        },
    }
}

/// A frame below the exit threshold inside speech: the silence in progress
/// starts or goes on, and closes the run once it is long enough.
pub open spec fn silence_frame(
    s: ScanState,
    fs: int,
    prob: Probability,
    cfg: DetectorConfig,
    audio: usize,
) -> ScanState {
    if prob.ieee_lt(cfg.negative_threshold) && s.triggered {
        let te: usize = match s.temp_end {
            Some(t) => t,
            None => fs as usize,
        };
        let tm = match s.temp_min {
            Some(v) => v.ieee_min(prob),
            None => prob,
        };
        if fs - te >= cfg.min_silence_samples {
            ScanState {
                triggered: false,
                speech_start: s.speech_start,
                temp_end: None,
                temp_min: None,
                candidates: Seq::empty(),
                speeches: flush(s.speeches, s.speech_start, te, cfg, audio),
            }
        } else {
            ScanState {
                triggered: s.triggered,
                speech_start: s.speech_start,
                temp_end: Some(te),
                temp_min: Some(tm),
                candidates: s.candidates,
                speeches: s.speeches,
            }
        }
    } else {
        s
    }
}

/// One frame of the scan: frame `index` starts at sample `index * FRAME_SIZE`.
pub open spec fn scan_step(
    s: ScanState,
    index: int,
    prob: Probability,
    cfg: DetectorConfig,
    audio: usize,
) -> ScanState {
    let fs = index * FRAME_SIZE;
    let speech = prob.ieee_ge(cfg.threshold);
    if speech && !s.triggered {
        ScanState {
            triggered: true,
            speech_start: fs as usize,
            temp_end: None,
            temp_min: None,
            candidates: record_silence(s, fs, cfg),
            speeches: s.speeches,
        }
    } else {
        let s1 = if speech {
            ScanState {
                triggered: s.triggered,
                speech_start: s.speech_start,
                temp_end: None,
                temp_min: None,
                candidates: record_silence(s, fs, cfg),
                speeches: s.speeches,
            }
        } else {
            s
        };
        if s1.triggered && cfg.max_speech_samples < usize::MAX && sat_sub(fs, s1.speech_start as int)
            > cfg.max_speech_samples {
            let s2 = split_run(s1, fs, cfg, audio);
            if s2.triggered {
                silence_frame(s2, fs, prob, cfg, audio)
            } else {
                s2
            }
        } else {
            silence_frame(s1, fs, prob, cfg, audio)
        }
    }
}

/// The state before any frame.
pub open spec fn scan_initial() -> ScanState {
    ScanState {
        triggered: false,
        speech_start: 0,
        temp_end: None,
        temp_min: None,
        candidates: Seq::empty(),
        speeches: Seq::empty(),
    }
}

/// The state after the first `n` frames.
pub open spec fn scan(probs: Seq<Probability>, n: int, cfg: DetectorConfig, audio: usize) -> ScanState
    decreases n,
{
    if n <= 0 {
        scan_initial()
    } else {
        scan_step(scan(probs, n - 1, cfg, audio), n - 1, probs[n - 1], cfg, audio)
    }
}

/// The speech runs of a probability sequence, before padding: a run still
/// open after the last frame ends at the audio length.
pub open spec fn speech_runs_of(probs: Seq<Probability>, cfg: DetectorConfig, audio: usize) -> Seq<
    (usize, usize),
> {
    let s = scan(probs, probs.len() as int, cfg, audio);
    if s.triggered {
        flush(s.speeches, s.speech_start, audio, cfg, audio)
    } else {
        s.speeches
    }
}

/// How far the boundary between run `i - 1` and run `i` moves into the
/// silence between them: the padding, or half the silence when that is
/// shorter than two paddings.
pub open spec fn boundary_shift(runs: Seq<(usize, usize)>, i: int, pad: usize) -> int {
    let silence = sat_sub(runs[i].0 as int, runs[i - 1].1 as int);
    if silence < 2 * pad {
        silence / 2
    } else {
        pad as int
    }
}

/// Start of run `i` after padding.
pub open spec fn padded_start(runs: Seq<(usize, usize)>, i: int, pad: usize) -> usize {
    if i == 0 {
        sat_sub(runs[0].0 as int, pad as int) as usize
    } else {
        sat_sub(runs[i].0 as int, boundary_shift(runs, i, pad)) as usize
    }
}

/// End of run `i` after padding, cut at the audio length.
pub open spec fn padded_end(runs: Seq<(usize, usize)>, i: int, pad: usize, audio: usize) -> usize {
    let grown = runs[i].1 + if i == runs.len() - 1 {
        pad as int
    } else {
        boundary_shift(runs, i + 1, pad)
    };
    (if grown < audio {
        grown
    } else {
        audio as int
    }) as usize
}

/// All runs after padding.
pub open spec fn padded_runs(runs: Seq<(usize, usize)>, pad: usize, audio: usize) -> Seq<(usize, usize)> {
    Seq::new(runs.len(), |i: int| (padded_start(runs, i, pad), padded_end(runs, i, pad, audio)))
}

/// A run with its start cut at the audio length and its end clamped between
/// that start and the audio length.
pub open spec fn clamp_run(r: (usize, usize), audio: usize) -> (usize, usize) {
    let start = if r.0 < audio {
        r.0
    } else {
        audio
    };
    let end = if r.1 < start {
        start
    } else if r.1 > audio {
        audio
    } else {
        r.1
    };
    (start, end)
}

/// The clamped runs that are not empty, in order.
pub open spec fn keep_nonempty(runs: Seq<(usize, usize)>, audio: usize) -> Seq<(usize, usize)>
    decreases runs.len(),
{
    if runs.len() == 0 {
        Seq::empty()
    } else {
        let prev = keep_nonempty(runs.drop_last(), audio);
        let c = clamp_run(runs.last(), audio);
        if c.1 > c.0 {
            prev.push(c)
        } else {
            prev
        }
    }
}

/// The padded, clamped speech regions made of a list of runs.
pub open spec fn regions_of_runs(runs: Seq<(usize, usize)>, cfg: DetectorConfig, audio: usize) -> Seq<
    (usize, usize),
> {
    keep_nonempty(padded_runs(runs, cfg.speech_pad_samples, audio), audio)
}

/// The speech regions of a probability sequence, as `(start, end)` in samples.
pub open spec fn speech_regions(probs: Seq<Probability>, cfg: DetectorConfig, audio: usize) -> Seq<
    (usize, usize),
> {
    if probs.len() == 0 || audio == 0 {
        Seq::empty()
    } else {
        regions_of_runs(speech_runs_of(probs, cfg, audio), cfg, audio)
    }
}

/// Whether padding a list of runs stays within `usize`: the last run grows
/// by the padding, and with two runs or more twice the padding is compared
/// with each gap.
pub open spec fn padding_fits(runs: Seq<(usize, usize)>, pad: usize) -> bool {
    runs.len() == 0 || ((runs.len() >= 2 ==> 2 * pad <= usize::MAX) && runs.last().1 + pad
        <= usize::MAX)
}

/// Whether every frame's first sample fits in `usize`.
pub open spec fn frames_fit(n: int) -> bool {
    n * FRAME_SIZE <= usize::MAX + FRAME_SIZE
}

/// The scan bounds that keep its arithmetic in range before the frame
/// starting at sample `limit`.
pub open spec fn scan_bounded(s: ScanState, limit: int) -> bool {
    &&& (s.temp_end matches Some(t) ==> t < limit)
    &&& forall|k: int|
        0 <= k < s.candidates.len() ==> s.candidates[k].start + s.candidates[k].duration < limit
}

struct Scanner {
    triggered: bool,
    speech_start: usize,
    temp_end: Option<usize>,
    temp_min: Option<Probability>,
    candidates: Vec<CandidateSilence>,
    speeches: Vec<(usize, usize)>,
}

impl View for Scanner {
    type V = ScanState;

    closed spec fn view(&self) -> ScanState {
        ScanState {
            triggered: self.triggered,
            speech_start: self.speech_start,
            temp_end: self.temp_end,
            temp_min: self.temp_min,
            candidates: self.candidates@,
            speeches: self.speeches@,
        }
    }
}

fn flush_speech(
    speeches: &mut Vec<(usize, usize)>,
    start: usize,
    end: usize,
    config: &DetectorConfig,
    audio: usize,
)
    ensures
        final(speeches)@ == flush(old(speeches)@, start, end, *config, audio),
{
    if end > start && end - start >= config.min_speech_samples {
        let cut = if end < audio {
            end
        } else {
            audio
        };
        speeches.push((start, cut));
    }
}

fn longest_candidate(cands: &Vec<CandidateSilence>, config: &DetectorConfig, any: bool) -> (r:
    Option<usize>)
    ensures
        match r {
            Some(k) => last_longest(cands@, *config, any, cands@.len() as int) == Some(k as int),
            None => last_longest(cands@, *config, any, cands@.len() as int) is None,
        },
        r matches Some(k) ==> k < cands@.len(),
{
    let mut best: Option<usize> = None;
    let mut i: usize = 0;
    while i < cands.len()
        invariant
            i <= cands@.len(),
            match best {
                Some(k) => last_longest(cands@, *config, any, i as int) == Some(k as int),
                None => last_longest(cands@, *config, any, i as int) is None,
            },
            best matches Some(k) ==> k < i,
        decreases cands@.len() - i,
    {
        let c = cands[i];
        if any || c.min_probability.le(config.silence_threshold_for_split) {
            best =
            match best {
                Some(j) => if c.duration >= cands[j].duration {
                    Some(i)
                } else {
                    Some(j)
                },
                None => Some(i),
            };
        }
        i = i + 1;
    }
    best
}

fn choose_split(cands: &Vec<CandidateSilence>, config: &DetectorConfig) -> (r: Option<
    CandidateSilence,
>)
    ensures
        r == chosen_split(cands@, *config),
{
    if cands.len() == 0 {
        return None;
    }
    match longest_candidate(cands, config, false) {
        Some(k) => Some(cands[k]),
        None => {
            if config.use_max_possible_silence_at_max_speech {
                match longest_candidate(cands, config, true) {
                    Some(k) => Some(cands[k]),
                    None => None,
                }
            } else {
                Some(cands[cands.len() - 1])
            }
        },
    }
}

impl Scanner {
    fn new() -> (s: Scanner)
        ensures
            s@ == scan_initial(),
    {
        Scanner {
            triggered: false,
            speech_start: 0,
            temp_end: None,
            temp_min: None,
            candidates: Vec::new(),
            speeches: Vec::new(),
        }
    }

    fn step(
        &mut self,
        index: usize,
        prob: Probability,
        config: &DetectorConfig,
        audio: usize,
    )
        requires
            index * FRAME_SIZE <= usize::MAX,
            scan_bounded(old(self)@, index * FRAME_SIZE),
        ensures
            final(self)@ == scan_step(old(self)@, index as int, prob, *config, audio),
            scan_bounded(final(self)@, (index + 1) * FRAME_SIZE),
    {
        let ghost s0 = self@;
        let frame_start = index * FRAME_SIZE;
        let speech = prob.ge(config.threshold);
        if speech {
            match self.temp_end {
                Some(t) => {
                    let silence_duration = frame_start - t;
                    if silence_duration > config.min_silence_at_max_speech_samples {
                        let min_probability = match self.temp_min {
                            Some(v) => v,
                            None => Probability::one(),
                        };
                        self.candidates.push(
                            CandidateSilence { start: t, duration: silence_duration, min_probability },
                        );
                    }
                },
                None => {},
            }
            assert(self.candidates@ == record_silence(s0, frame_start as int, *config));
            self.temp_end = None;
            self.temp_min = None;
            if !self.triggered {
                self.triggered = true;
                self.speech_start = frame_start;
                return;
            }
        }
        let ghost s1 = self@;
        if self.triggered && config.max_speech_samples < usize::MAX {
            let current_duration = if frame_start >= self.speech_start {
                frame_start - self.speech_start
            } else {
                0
            };
            if current_duration > config.max_speech_samples {
                let chosen = choose_split(&self.candidates, config);
                let split_end = match chosen {
                    Some(c) => c.start,
                    None => frame_start,
                };
                flush_speech(&mut self.speeches, self.speech_start, split_end, config, audio);
                let resume: Option<usize> = match chosen {
                    Some(c) => {
                        proof {
                            lemma_chosen_split_is_candidate(self.candidates@, *config);
                        }
                        let ns = c.start + c.duration;
                        if ns < frame_start {
                            Some(ns)
                        } else {
                            None
                        }
                    },
                    None => None,
                };
                match resume {
                    Some(ns) => {
                        self.triggered = true;
                        self.speech_start = ns;
                    },
                    None => {
                        self.triggered = false;
                    },
                }
                self.candidates.clear();
                self.temp_end = None;
                self.temp_min = None;
                assert(self@ == split_run(s1, frame_start as int, *config, audio));
                if !self.triggered {
                    return;
                }
            }
        }
        if prob.lt(config.negative_threshold) && self.triggered {
            if self.temp_end.is_none() {
                self.temp_end = Some(frame_start);
            }
            self.temp_min = Some(
                match self.temp_min {
                    Some(v) => v.min(prob),
                    None => prob,
                },
            );
            match self.temp_end {
                Some(start_silence) => {
                    if frame_start - start_silence >= config.min_silence_samples {
                        flush_speech(
                            &mut self.speeches,
                            self.speech_start,
                            start_silence,
                            config,
                            audio,
                        );
                        self.triggered = false;
                        self.temp_end = None;
                        self.temp_min = None;
                        self.candidates.clear();
                        return;
                    }
                },
                None => {},
            }
        }
    }
}

/// The speech runs of a probability sequence (one probability per frame of
/// [`FRAME_SIZE`] samples), before padding.
pub fn speech_runs(
    probabilities: &[Probability],
    audio_length_samples: usize,
    config: &DetectorConfig,
) -> (runs: Vec<(usize, usize)>)
    requires
        frames_fit(probabilities@.len() as int),
    ensures
        runs@ == speech_runs_of(probabilities@, *config, audio_length_samples),
{
    let mut scanner = Scanner::new();
    let n = probabilities.len();
    let mut index: usize = 0;
    while index < n
        invariant
            n == probabilities@.len(),
            index <= n,
            frames_fit(n as int),
            scanner@ == scan(probabilities@, index as int, *config, audio_length_samples),
            scan_bounded(scanner@, index * FRAME_SIZE),
        decreases n - index,
    {
        scanner.step(index, probabilities[index], config, audio_length_samples);
        index = index + 1;
    }
    if scanner.triggered {
        flush_speech(
            &mut scanner.speeches,
            scanner.speech_start,
            audio_length_samples,
            config,
            audio_length_samples,
        );
    }
    scanner.speeches
}

/// Whether padding a list of runs stays within `usize`, as a check.
pub fn padding_fits_in(runs: &Vec<(usize, usize)>, pad: usize) -> (r: bool)
    ensures
        r == padding_fits(runs@, pad),
{
    let n = runs.len();
    if n == 0 {
        return true;
    }
    if n >= 2 && pad > usize::MAX / 2 {
        return false;
    }
    runs[n - 1].1 <= usize::MAX - pad
}

/// Pads every run, shares gaps shorter than two paddings between the runs
/// on either side, clamps the runs to the audio and drops the empty ones.
pub fn pad_speech_runs(runs: Vec<(usize, usize)>, audio_length_samples: usize, config: &DetectorConfig) -> (regions: Vec<(usize, usize)>)
    requires
        padding_fits(runs@, config.speech_pad_samples),
    ensures
        regions@ == regions_of_runs(runs@, *config, audio_length_samples),
{
    let ghost raw = runs@;
    let audio = audio_length_samples;
    let pad = config.speech_pad_samples;
    let mut adjusted = runs;
    let n = adjusted.len();
    let mut index: usize = 0;
    while index < n
        invariant
            n == adjusted@.len(),
            raw.len() == n,
            index <= n,
            pad == config.speech_pad_samples,
            padding_fits(raw, pad),
            forall|j: int|
                0 <= j < index ==> #[trigger] adjusted@[j] == (
                    padded_start(raw, j, pad),
                    padded_end(raw, j, pad, audio),
                ),
            index < n ==> adjusted@[index as int] == (
                if index == 0 {
                    raw[0].0
                } else {
                    padded_start(raw, index as int, pad)
                },
                raw[index as int].1,
            ),
            forall|j: int| index < j < n ==> #[trigger] adjusted@[j] == raw[j],
        decreases n - index,
    {
        if index == 0 {
            let (s0, e0) = adjusted[0];
            adjusted[0] = (
                if s0 >= pad {
                    s0 - pad
                } else {
                    0
                },
                e0,
            );
        }
        if index < n - 1 {
            let (s, e) = adjusted[index];
            let (ns, ne) = adjusted[index + 1];
            assert(2 * pad <= usize::MAX);
            let silence = if ns >= e {
                ns - e
            } else {
                0
            };
            let shift = if silence < 2 * pad {
                silence / 2
            } else {
                pad
            };
            assert(shift == boundary_shift(raw, index + 1, pad));
            let grown = e + shift;
            adjusted[index] = (
                s,
                if grown < audio {
                    grown
                } else {
                    audio
                },
            );
            adjusted[index + 1] = (
                if ns >= shift {
                    ns - shift
                } else {
                    0
                },
                ne,
            );
        } else {
            let (s, e) = adjusted[index];
            let grown = e + pad;
            adjusted[index] = (
                s,
                if grown < audio {
                    grown
                } else {
                    audio
                },
            );
        }
        index = index + 1;
    }
    assert(adjusted@ =~= padded_runs(raw, pad, audio));
    let mut regions: Vec<(usize, usize)> = Vec::new();
    let mut i: usize = 0;
    while i < n
        invariant
            n == adjusted@.len(),
            i <= n,
            regions@ == keep_nonempty(adjusted@.subrange(0, i as int), audio),
        decreases n - i,
    {
        let (s, e) = adjusted[i];
        let start = if s < audio {
            s
        } else {
            audio
        };
        let end = if e < start {
            start
        } else if e > audio {
            audio
        } else {
            e
        };
        assert(adjusted@.subrange(0, i + 1).drop_last() =~= adjusted@.subrange(0, i as int));
        if end > start {
            regions.push((start, end));
        }
        i = i + 1;
    }
    assert(adjusted@.subrange(0, n as int) =~= adjusted@);
    regions
}

/// The regions kept are non-empty and lie within the audio.
pub proof fn lemma_kept_regions_within_audio(runs: Seq<(usize, usize)>, audio: usize)
    ensures
        forall|i: int|
            0 <= i < keep_nonempty(runs, audio).len() ==> {
                let r = #[trigger] keep_nonempty(runs, audio)[i];
                r.0 < r.1 <= audio
            },
    decreases runs.len(),
{
    if runs.len() > 0 {
        lemma_kept_regions_within_audio(runs.drop_last(), audio);
        let prev = keep_nonempty(runs.drop_last(), audio);
        let all = keep_nonempty(runs, audio);
        assert forall|i: int| 0 <= i < all.len() implies {
            let r = #[trigger] all[i];
            r.0 < r.1 <= audio
        } by {
            if i < prev.len() {
                assert(all[i] == prev[i]);
            }
        }
    }
}

fn to_segments(regions: Vec<(usize, usize)>, total_samples: usize) -> (segments: Vec<VadSegment>)
    requires
        forall|i: int| 0 <= i < regions@.len() ==> #[trigger] regions@[i].0 < regions@[i].1 <= total_samples,
    ensures
        segments@.len() == regions@.len(),
        forall|i: int|
            0 <= i < regions@.len() ==> #[trigger] segments@[i] == (VadSegment {
                start_sample: regions@[i].0,
                end_sample: regions@[i].1,
            }),
{
    let mut segments: Vec<VadSegment> = Vec::new();
    let mut i: usize = 0;
    while i < regions.len()
        invariant
            i <= regions@.len(),
            segments@.len() == i,
            forall|j: int| 0 <= j < regions@.len() ==> #[trigger] regions@[j].0 < regions@[j].1 <= total_samples,
            forall|j: int|
                0 <= j < i ==> #[trigger] segments@[j] == (VadSegment {
                    start_sample: regions@[j].0,
                    end_sample: regions@[j].1,
                }),
        decreases regions@.len() - i,
    {
        let (s, e) = regions[i];
        let start = if s < total_samples {
            s
        } else {
            total_samples
        };
        let end = if e < start {
            start
        } else if e > total_samples {
            total_samples
        } else {
            e
        };
        segments.push(VadSegment { start_sample: start, end_sample: end });
        i = i + 1;
    }
    segments
}

/// Whether the segments are the regions, in order.
pub open spec fn segments_are(segments: Seq<VadSegment>, regions: Seq<(usize, usize)>) -> bool {
    &&& segments.len() == regions.len()
    &&& forall|i: int|
        0 <= i < regions.len() ==> #[trigger] segments[i] == (VadSegment {
            start_sample: regions[i].0,
            end_sample: regions[i].1,
        })
}

/// Whether segmenting stays within `usize`: every frame start fits, and so
/// does padding the speech runs.
pub open spec fn segmentation_fits(probs: Seq<Probability>, cfg: DetectorConfig, audio: usize) -> bool {
    probs.len() == 0 || audio == 0 || (frames_fit(probs.len() as int) && padding_fits(
        speech_runs_of(probs, cfg, audio),
        cfg.speech_pad_samples,
    ))
}

/// Segments a sequence of frame probabilities (one per [`FRAME_SIZE`]
/// samples of audio `total_samples` long) into speech regions.
pub fn segment_from_probabilities(
    probabilities: &[Probability],
    total_samples: usize,
    config: &DetectorConfig,
) -> (segments: Vec<VadSegment>)
    requires
        segmentation_fits(probabilities@, *config, total_samples),
    ensures
        segments_are(segments@, speech_regions(probabilities@, *config, total_samples)),
{
    if probabilities.len() == 0 || total_samples == 0 {
        return Vec::new();
    }
    let runs = speech_runs(probabilities, total_samples, config);
    let regions = pad_speech_runs(runs, total_samples, config);
    proof {
        lemma_kept_regions_within_audio(
            padded_runs(runs@, config.speech_pad_samples, total_samples),
            total_samples,
        );
    }
    to_segments(regions, total_samples)
}

/// [`segment_from_probabilities`] for every input: `None` exactly where
/// its arithmetic would leave `usize`.
pub fn segment_from_probabilities_checked(
    probabilities: &[Probability],
    total_samples: usize,
    config: &DetectorConfig,
) -> (segments: Option<Vec<VadSegment>>)
    ensures
        segments is Some <==> segmentation_fits(probabilities@, *config, total_samples),
        segments matches Some(segs) ==> segments_are(
            segs@,
            speech_regions(probabilities@, *config, total_samples),
        ),
{
    if probabilities.len() == 0 || total_samples == 0 {
        return Some(Vec::new());
    }
    if probabilities.len() - 1 > usize::MAX / FRAME_SIZE {
        assert(!frames_fit(probabilities@.len() as int)) by (nonlinear_arith)
            requires
                probabilities@.len() - 1 > (usize::MAX as int) / (FRAME_SIZE as int),
        ;
        return None;
    }
    assert(frames_fit(probabilities@.len() as int)) by (nonlinear_arith)
        requires
            probabilities@.len() - 1 <= (usize::MAX as int) / (FRAME_SIZE as int),
    ;
    let runs = speech_runs(probabilities, total_samples, config);
    if !padding_fits_in(&runs, config.speech_pad_samples) {
        return None;
    }
    let regions = pad_speech_runs(runs, total_samples, config);
    proof {
        lemma_kept_regions_within_audio(
            padded_runs(runs@, config.speech_pad_samples, total_samples),
            total_samples,
        );
    }
    Some(to_segments(regions, total_samples))
}

/// Runs in order: each ends before (or where) every later one starts, starts
/// strictly increase, and each run either is non-empty or was cut to nothing
/// by the audio length.
pub open spec fn runs_ordered(sp: Seq<(usize, usize)>, audio: usize) -> bool {
    &&& forall|i: int, j: int|
        0 <= i < j < sp.len() ==> #[trigger] sp[i].1 <= #[trigger] sp[j].0 && sp[i].0 < sp[j].0
    &&& forall|i: int|
        0 <= i < sp.len() ==> #[trigger] sp[i].1 <= audio && (sp[i].0 < sp[i].1 || (sp[i].1 == audio
            && audio <= sp[i].0))
}

/// What holds of the scan after `n` frames, the next frame starting at `n * FRAME_SIZE`.
pub open spec fn scan_order_inv(s: ScanState, n: int, audio: usize) -> bool {
    let fsn = n * FRAME_SIZE;
    &&& runs_ordered(s.speeches, audio)
    &&& forall|i: int|
        0 <= i < s.speeches.len() ==> #[trigger] s.speeches[i].1 <= fsn && s.speeches[i].0 < fsn
    &&& scan_bounded(s, fsn)
    &&& forall|k: int| 0 <= k < s.candidates.len() ==> #[trigger] s.candidates[k].duration > 0
    &&& (!s.triggered ==> s.temp_end is None && s.candidates.len() == 0)
    &&& (s.triggered ==> {
        &&& s.speech_start < fsn
        &&& (s.temp_end matches Some(t) ==> s.speech_start <= t)
        &&& forall|k: int|
            0 <= k < s.candidates.len() ==> s.speech_start <= #[trigger] s.candidates[k].start
        &&& forall|i: int|
            0 <= i < s.speeches.len() ==> #[trigger] s.speeches[i].1 <= s.speech_start
                && s.speeches[i].0 < s.speech_start
    })
}

proof fn lemma_flush_ordered(
    sp: Seq<(usize, usize)>,
    start: usize,
    end: usize,
    cfg: DetectorConfig,
    audio: usize,
)
    requires
        runs_ordered(sp, audio),
        forall|i: int| 0 <= i < sp.len() ==> #[trigger] sp[i].1 <= start && sp[i].0 < start,
    ensures
        runs_ordered(flush(sp, start, end, cfg, audio), audio),
{
    let f = flush(sp, start, end, cfg, audio);
    if f.len() > sp.len() {
        assert forall|i: int, j: int| 0 <= i < j < f.len() implies #[trigger] f[i].1 <= #[trigger] f[j].0 && f[i].0 < f[j].0 by {
            if j < sp.len() {
                assert(f[i] == sp[i] && f[j] == sp[j]);
            } else {
                assert(f[i] == sp[i]);
            }
        }
        assert forall|i: int| 0 <= i < f.len() implies #[trigger] f[i].1 <= audio && (f[i].0 < f[i].1 || (f[i].1 == audio && audio <= f[i].0)) by {
            if i < sp.len() {
                assert(f[i] == sp[i]);
            }
        }
    }
}

proof fn lemma_order_inv_later(s: ScanState, n: int, m: int, audio: usize)
    requires
        scan_order_inv(s, n, audio),
        0 <= n <= m,
    ensures
        scan_order_inv(s, m, audio),
{
    assert(n * FRAME_SIZE <= m * FRAME_SIZE) by (nonlinear_arith)
        requires
            n <= m,
    ;
}

proof fn lemma_split_order(s: ScanState, n: int, cfg: DetectorConfig, audio: usize)
    requires
        0 <= n,
        n * FRAME_SIZE <= usize::MAX,
        scan_order_inv(s, n + 1, audio),
        s.triggered,
        s.speech_start <= n * FRAME_SIZE,
    ensures
        scan_order_inv(split_run(s, n * FRAME_SIZE, cfg, audio), n + 1, audio),
        split_run(s, n * FRAME_SIZE, cfg, audio).triggered ==> split_run(
            s,
            n * FRAME_SIZE,
            cfg,
            audio,
        ).speech_start < n * FRAME_SIZE,
{
    let fs = n * FRAME_SIZE;
    let chosen = chosen_split(s.candidates, cfg);
    lemma_chosen_split_is_candidate(s.candidates, cfg);
    let split_end: usize = match chosen {
        Some(c) => c.start,
        None => fs as usize,
    };
    lemma_flush_ordered(s.speeches, s.speech_start, split_end, cfg, audio);
    let r = split_run(s, fs, cfg, audio);
    let f = flush(s.speeches, s.speech_start, split_end, cfg, audio);
    assert(r.speeches == f);
    assert forall|i: int| 0 <= i < f.len() implies #[trigger] f[i].1 <= (n + 1) * FRAME_SIZE && f[i].0 < (n + 1) * FRAME_SIZE by {
        if i < s.speeches.len() {
            assert(f[i] == s.speeches[i]);
        }
    }
    if let Some(c) = chosen {
        let k = choose|k: int| 0 <= k < s.candidates.len() && s.candidates[k] == c;
        assert(s.speech_start <= s.candidates[k].start);
        assert(s.candidates[k].duration > 0);
        if r.triggered {
            assert forall|i: int| 0 <= i < f.len() implies #[trigger] f[i].1 <= r.speech_start && f[i].0 < r.speech_start by {
                if i < s.speeches.len() {
                    assert(f[i] == s.speeches[i]);
                }
            }
        }
    }
}

proof fn lemma_silence_order(
    s: ScanState,
    n: int,
    prob: Probability,
    cfg: DetectorConfig,
    audio: usize,
)
    requires
        0 <= n,
        n * FRAME_SIZE <= usize::MAX,
        scan_order_inv(s, n + 1, audio),
        s.triggered ==> s.speech_start <= n * FRAME_SIZE,
    ensures
        scan_order_inv(silence_frame(s, n * FRAME_SIZE, prob, cfg, audio), n + 1, audio),
{
    let fs = n * FRAME_SIZE;
    if prob.ieee_lt(cfg.negative_threshold) && s.triggered {
        let te: usize = match s.temp_end {
            Some(t) => t,
            None => fs as usize,
        };
        lemma_flush_ordered(s.speeches, s.speech_start, te, cfg, audio);
        let f = flush(s.speeches, s.speech_start, te, cfg, audio);
        assert forall|i: int| 0 <= i < f.len() implies #[trigger] f[i].1 <= (n + 1) * FRAME_SIZE && f[i].0 < (n + 1) * FRAME_SIZE by {
            if i < s.speeches.len() {
                assert(f[i] == s.speeches[i]);
            }
        }
        let r = silence_frame(s, fs, prob, cfg, audio);
        if fs - te >= cfg.min_silence_samples {
            assert(r.speeches == f);
            assert(scan_order_inv(r, n + 1, audio));
        } else {
            assert(r.speeches == s.speeches);
            assert(r.temp_end == Some(te));
            assert(te < (n + 1) * FRAME_SIZE);
            assert(scan_bounded(r, (n + 1) * FRAME_SIZE));
            assert(scan_order_inv(r, n + 1, audio));
        }
    }
}

proof fn lemma_step_order(
    s: ScanState,
    n: int,
    prob: Probability,
    cfg: DetectorConfig,
    audio: usize,
)
    requires
        0 <= n,
        n * FRAME_SIZE <= usize::MAX,
        scan_order_inv(s, n, audio),
    ensures
        scan_order_inv(scan_step(s, n, prob, cfg, audio), n + 1, audio),
{
    let fs = n * FRAME_SIZE;
    lemma_order_inv_later(s, n, n + 1, audio);
    let speech = prob.ieee_ge(cfg.threshold);
    if speech && !s.triggered {
    } else {
        let s1 = if speech {
            ScanState {
                triggered: s.triggered,
                speech_start: s.speech_start,
                temp_end: None,
                temp_min: None,
                candidates: record_silence(s, fs, cfg),
                speeches: s.speeches,
            }
        } else {
            s
        };
        assert(scan_order_inv(s1, n + 1, audio));
        if s1.triggered && cfg.max_speech_samples < usize::MAX && sat_sub(fs, s1.speech_start as int)
            > cfg.max_speech_samples {
            lemma_split_order(s1, n, cfg, audio);
            let s2 = split_run(s1, fs, cfg, audio);
            if s2.triggered {
                lemma_silence_order(s2, n, prob, cfg, audio);
            }
        } else {
            lemma_silence_order(s1, n, prob, cfg, audio);
        }
    }
}

proof fn lemma_scan_order(probs: Seq<Probability>, n: int, cfg: DetectorConfig, audio: usize)
    requires
        0 <= n,
        frames_fit(n),
    ensures
        scan_order_inv(scan(probs, n, cfg, audio), n, audio),
    decreases n,
{
    if n > 0 {
        lemma_scan_order(probs, n - 1, cfg, audio);
        lemma_step_order(scan(probs, n - 1, cfg, audio), n - 1, probs[n - 1], cfg, audio);
    }
}

proof fn lemma_runs_ordered(probs: Seq<Probability>, cfg: DetectorConfig, audio: usize)
    requires
        frames_fit(probs.len() as int),
    ensures
        runs_ordered(speech_runs_of(probs, cfg, audio), audio),
{
    let n = probs.len() as int;
    lemma_scan_order(probs, n, cfg, audio);
    let st = scan(probs, n, cfg, audio);
    if st.triggered {
        lemma_flush_ordered(st.speeches, st.speech_start, audio, cfg, audio);
    }
}

proof fn lemma_padded_ordered(runs: Seq<(usize, usize)>, pad: usize, audio: usize)
    requires
        runs_ordered(runs, audio),
    ensures
        forall|i: int|
            0 <= i < runs.len() ==> #[trigger] padded_runs(runs, pad, audio)[i].1 <= audio,
        forall|i: int, j: int|
            0 <= i < j < runs.len() ==> #[trigger] padded_runs(runs, pad, audio)[i].1
                <= #[trigger] padded_runs(runs, pad, audio)[j].0,
{
    let p = padded_runs(runs, pad, audio);
    assert forall|i: int, j: int| 0 <= i < j < runs.len() implies #[trigger] p[i].1 <= #[trigger] p[j].0 by {
        let shift = boundary_shift(runs, i + 1, pad);
        assert(runs[i].1 <= runs[i + 1].0);
        assert(runs[i].1 + shift <= runs[i + 1].0 - shift);
        assert(p[i].1 <= runs[i + 1].0 - shift);
        assert(p[i + 1].0 == runs[i + 1].0 - shift);
        if j > i + 1 {
            let shift_j = boundary_shift(runs, j, pad);
            assert(runs[j - 1].1 <= runs[j].0);
            assert(runs[j - 1].1 + shift_j <= runs[j].0 - shift_j);
            assert(p[j].0 >= runs[j - 1].1);
            if runs[j - 1].0 < runs[j - 1].1 {
                if i + 1 < j - 1 {
                    assert(runs[i + 1].0 < runs[j - 1].0);
                }
            } else {
                assert(runs[j - 1].1 == audio);
            }
        }
    }
}

proof fn lemma_keep_all(runs: Seq<(usize, usize)>, audio: usize, pred: spec_fn((usize, usize)) -> bool)
    requires
        forall|i: int|
            0 <= i < runs.len() && clamp_run(#[trigger] runs[i], audio).1 > clamp_run(runs[i], audio).0
                ==> pred(clamp_run(runs[i], audio)),
    ensures
        forall|k: int| 0 <= k < keep_nonempty(runs, audio).len() ==> pred(#[trigger] keep_nonempty(runs, audio)[k]),
    decreases runs.len(),
{
    if runs.len() > 0 {
        let prefix = runs.drop_last();
        assert forall|i: int|
            0 <= i < prefix.len() && clamp_run(#[trigger] prefix[i], audio).1 > clamp_run(prefix[i], audio).0
                implies pred(clamp_run(prefix[i], audio)) by {
            assert(prefix[i] == runs[i]);
        }
        lemma_keep_all(prefix, audio, pred);
        let prev = keep_nonempty(prefix, audio);
        let all = keep_nonempty(runs, audio);
        assert(runs.last() == runs[runs.len() - 1]);
        assert forall|k: int| 0 <= k < all.len() implies pred(#[trigger] all[k]) by {
            if k < prev.len() {
                assert(all[k] == prev[k]);
            }
        }
    }
}

proof fn lemma_keep_ordered(runs: Seq<(usize, usize)>, audio: usize)
    requires
        forall|i: int| 0 <= i < runs.len() ==> #[trigger] runs[i].1 <= audio,
        forall|i: int, j: int| 0 <= i < j < runs.len() ==> #[trigger] runs[i].1 <= #[trigger] runs[j].0,
    ensures
        forall|k: int, l: int|
            0 <= k < l < keep_nonempty(runs, audio).len() ==> #[trigger] keep_nonempty(runs, audio)[k].1
                <= #[trigger] keep_nonempty(runs, audio)[l].0,
    decreases runs.len(),
{
    if runs.len() > 0 {
        let prefix = runs.drop_last();
        assert forall|i: int| 0 <= i < prefix.len() implies #[trigger] prefix[i].1 <= audio by {
            assert(prefix[i] == runs[i]);
        }
        assert forall|i: int, j: int| 0 <= i < j < prefix.len() implies #[trigger] prefix[i].1 <= #[trigger] prefix[j].0 by {
            assert(prefix[i] == runs[i] && prefix[j] == runs[j]);
        }
        lemma_keep_ordered(prefix, audio);
        let last = runs[runs.len() - 1];
        let c = clamp_run(last, audio);
        let bound = c.0;
        let pred = |x: (usize, usize)| x.1 <= bound;
        assert forall|i: int|
            0 <= i < prefix.len() && clamp_run(#[trigger] prefix[i], audio).1 > clamp_run(prefix[i], audio).0
                implies pred(clamp_run(prefix[i], audio)) by {
            assert(prefix[i] == runs[i]);
            assert(runs[i].1 <= last.0);
        }
        lemma_keep_all(prefix, audio, pred);
        let prev = keep_nonempty(prefix, audio);
        let all = keep_nonempty(runs, audio);
        assert forall|k: int, l: int| 0 <= k < l < all.len() implies #[trigger] all[k].1 <= #[trigger] all[l].0 by {
            if l < prev.len() {
                assert(all[k] == prev[k] && all[l] == prev[l]);
            } else {
                assert(all[k] == prev[k]);
                assert(pred(prev[k]));
            }
        }
    }
}

/// Speech regions are non-empty, lie within the audio, and come in order
/// without overlapping: padding never makes neighbours overlap.
pub proof fn lemma_regions_ordered(probs: Seq<Probability>, cfg: DetectorConfig, audio: usize)
    requires
        frames_fit(probs.len() as int),
    ensures
        forall|i: int|
            0 <= i < speech_regions(probs, cfg, audio).len() ==> {
                let r = #[trigger] speech_regions(probs, cfg, audio)[i];
                r.0 < r.1 <= audio
            },
        forall|i: int, j: int|
            0 <= i < j < speech_regions(probs, cfg, audio).len() ==> #[trigger] speech_regions(
                probs,
                cfg,
                audio,
            )[i].1 <= #[trigger] speech_regions(probs, cfg, audio)[j].0,
{
    if !(probs.len() == 0 || audio == 0) {
        let runs = speech_runs_of(probs, cfg, audio);
        lemma_runs_ordered(probs, cfg, audio);
        lemma_padded_ordered(runs, cfg.speech_pad_samples, audio);
        let p = padded_runs(runs, cfg.speech_pad_samples, audio);
        lemma_keep_ordered(p, audio);
        lemma_kept_regions_within_audio(p, audio);
    }
}

proof fn lemma_scan_silent(probs: Seq<Probability>, n: int, cfg: DetectorConfig, audio: usize)
    requires
        0 <= n <= probs.len(),
        forall|i: int| 0 <= i < probs.len() ==> !(#[trigger] probs[i]).ieee_ge(cfg.threshold),
    ensures
        scan(probs, n, cfg, audio) == scan_initial(),
    decreases n,
{
    if n > 0 {
        lemma_scan_silent(probs, n - 1, cfg, audio);
        assert(!probs[n - 1].ieee_ge(cfg.threshold));
    }
}

/// Where no frame reaches the entry threshold, no speech region is found.
pub proof fn lemma_silence_yields_no_regions(probs: Seq<Probability>, cfg: DetectorConfig, audio: usize)
    requires
        forall|i: int| 0 <= i < probs.len() ==> !(#[trigger] probs[i]).ieee_ge(cfg.threshold),
    ensures
        speech_regions(probs, cfg, audio).len() == 0,
{
    lemma_scan_silent(probs, probs.len() as int, cfg, audio);
    let runs = speech_runs_of(probs, cfg, audio);
    assert(runs.len() == 0);
    let p = padded_runs(runs, cfg.speech_pad_samples, audio);
    assert(p.len() == 0);
}

/// With `audio` covering the frames up to the `n`-th, every run closed so
/// far is non-empty and at least the minimum speech length.
pub open spec fn runs_long_enough(sp: Seq<(usize, usize)>, min: usize) -> bool {
    forall|i: int| 0 <= i < sp.len() ==> #[trigger] sp[i].0 < sp[i].1 && sp[i].1 - sp[i].0 >= min
}

proof fn lemma_step_min(s: ScanState, n: int, prob: Probability, cfg: DetectorConfig, audio: usize)
    requires
        0 <= n,
        n * FRAME_SIZE <= usize::MAX,
        scan_order_inv(s, n, audio),
        (n + 1) * FRAME_SIZE <= audio,
        runs_long_enough(s.speeches, cfg.min_speech_samples),
    ensures
        runs_long_enough(scan_step(s, n, prob, cfg, audio).speeches, cfg.min_speech_samples),
{
    let fs = n * FRAME_SIZE;
    let r = scan_step(s, n, prob, cfg, audio);
    let speech = prob.ieee_ge(cfg.threshold);
    if !(speech && !s.triggered) {
        let s1 = if speech {
            ScanState {
                triggered: s.triggered,
                speech_start: s.speech_start,
                temp_end: None,
                temp_min: None,
                candidates: record_silence(s, fs, cfg),
                speeches: s.speeches,
            }
        } else {
            s
        };
        let split = s1.triggered && cfg.max_speech_samples < usize::MAX && sat_sub(fs, s1.speech_start as int) > cfg.max_speech_samples;
        let s2 = if split { split_run(s1, fs, cfg, audio) } else { s1 };
        if split {
            lemma_chosen_split_is_candidate(s1.candidates, cfg);
            if let Some(c) = chosen_split(s1.candidates, cfg) {
                let k = choose|k: int| 0 <= k < s1.candidates.len() && s1.candidates[k] == c;
                if s1.candidates.len() > s.candidates.len() {
                    if k < s.candidates.len() {
                        assert(s1.candidates[k] == s.candidates[k]);
                    }
                } else {
                    assert(s1.candidates[k] == s.candidates[k]);
                }
                assert(c.start < fs);
            }
            assert(runs_long_enough(s2.speeches, cfg.min_speech_samples));
        }
        if !split || s2.triggered {
            if prob.ieee_lt(cfg.negative_threshold) && s2.triggered {
                match s2.temp_end {
                    Some(t) => {
                        if split {
                            assert(s2.temp_end is None);
                        } else if speech {
                            assert(s2.temp_end is None);
                        } else {
                            assert(t < fs);
                        }
                    },
                    None => {},
                }
            }
            assert(r == silence_frame(s2, fs, prob, cfg, audio));
        }
    }
}

proof fn lemma_scan_min(probs: Seq<Probability>, n: int, cfg: DetectorConfig, audio: usize)
    requires
        0 <= n,
        frames_fit(n),
        n * FRAME_SIZE <= audio,
    ensures
        runs_long_enough(scan(probs, n, cfg, audio).speeches, cfg.min_speech_samples),
    decreases n,
{
    if n > 0 {
        lemma_scan_min(probs, n - 1, cfg, audio);
        lemma_scan_order(probs, n - 1, cfg, audio);
        lemma_step_min(scan(probs, n - 1, cfg, audio), n - 1, probs[n - 1], cfg, audio);
    }
}

/// Where the audio covers every frame, each speech region is at least the
/// minimum speech length: shorter runs are dropped, and padding only grows
/// what is kept.
pub proof fn lemma_regions_long_enough(probs: Seq<Probability>, cfg: DetectorConfig, audio: usize)
    requires
        frames_fit(probs.len() as int),
        probs.len() * FRAME_SIZE <= audio,
    ensures
        forall|i: int|
            0 <= i < speech_regions(probs, cfg, audio).len() ==> {
                let r = #[trigger] speech_regions(probs, cfg, audio)[i];
                r.1 - r.0 >= cfg.min_speech_samples
            },
{
    if !(probs.len() == 0 || audio == 0) {
        let n = probs.len() as int;
        lemma_scan_min(probs, n, cfg, audio);
        let st = scan(probs, n, cfg, audio);
        let runs = speech_runs_of(probs, cfg, audio);
        assert(runs_long_enough(runs, cfg.min_speech_samples));
        lemma_runs_ordered(probs, cfg, audio);
        let pad = cfg.speech_pad_samples;
        let p = padded_runs(runs, pad, audio);
        let min = cfg.min_speech_samples;
        let pred = |x: (usize, usize)| x.1 - x.0 >= min;
        assert forall|i: int|
            0 <= i < p.len() && clamp_run(#[trigger] p[i], audio).1 > clamp_run(p[i], audio).0
                implies pred(clamp_run(p[i], audio)) by {
            assert(runs[i].0 < runs[i].1 && runs[i].1 - runs[i].0 >= min);
            assert(runs[i].1 <= audio);
            assert(p[i].0 <= runs[i].0);
            assert(p[i].1 >= runs[i].1);
        }
        lemma_keep_all(p, audio, pred);
    }
}

/// Whether a sample position lies on a frame boundary.
pub open spec fn on_frame(x: int) -> bool {
    x % (FRAME_SIZE as int) == 0
}

/// Every position the scan keeps lies on a frame boundary, and so does every
/// candidate's duration.
pub open spec fn scan_aligned(s: ScanState) -> bool {
    &&& on_frame(s.speech_start as int)
    &&& (s.temp_end matches Some(t) ==> on_frame(t as int))
    &&& forall|k: int|
        0 <= k < s.candidates.len() ==> on_frame(#[trigger] s.candidates[k].start as int)
            && on_frame(s.candidates[k].duration as int)
}

proof fn lemma_on_frame_mul(n: int)
    ensures
        on_frame(n * FRAME_SIZE),
{
    assert((n * 512) % 512 == 0) by (nonlinear_arith);
}

proof fn lemma_on_frame_arith(a: int, b: int)
    requires
        on_frame(a),
        on_frame(b),
    ensures
        on_frame(a + b),
        on_frame(a - b),
        a > b ==> a - b >= FRAME_SIZE,
{
    assert(((a + b) % 512 == 0) && ((a - b) % 512 == 0) && (a > b ==> a - b >= 512)) by (nonlinear_arith)
        requires
            a % 512 == 0,
            b % 512 == 0,
    ;
}

proof fn lemma_step_aligned(s: ScanState, n: int, prob: Probability, cfg: DetectorConfig, audio: usize)
    requires
        0 <= n,
        n * FRAME_SIZE <= usize::MAX,
        scan_order_inv(s, n, audio),
        scan_aligned(s),
    ensures
        scan_aligned(scan_step(s, n, prob, cfg, audio)),
{
    let fs = n * FRAME_SIZE;
    lemma_on_frame_mul(n);
    let r = scan_step(s, n, prob, cfg, audio);
    let rec = record_silence(s, fs, cfg);
    if let Some(t) = s.temp_end {
        lemma_on_frame_arith(fs, t as int);
    }
    assert forall|k: int| 0 <= k < rec.len() implies on_frame(#[trigger] rec[k].start as int)
        && on_frame(rec[k].duration as int) by {
        if k < s.candidates.len() {
            assert(rec[k] == s.candidates[k]);
        }
    }
    let speech = prob.ieee_ge(cfg.threshold);
    if !(speech && !s.triggered) {
        let s1 = if speech {
            ScanState {
                triggered: s.triggered,
                speech_start: s.speech_start,
                temp_end: None,
                temp_min: None,
                candidates: rec,
                speeches: s.speeches,
            }
        } else {
            s
        };
        assert(scan_aligned(s1));
        let split = s1.triggered && cfg.max_speech_samples < usize::MAX && sat_sub(fs, s1.speech_start as int) > cfg.max_speech_samples;
        if split {
            lemma_chosen_split_is_candidate(s1.candidates, cfg);
            if let Some(c) = chosen_split(s1.candidates, cfg) {
                let k = choose|k: int| 0 <= k < s1.candidates.len() && s1.candidates[k] == c;
                lemma_on_frame_arith(s1.candidates[k].start as int, s1.candidates[k].duration as int);
            }
            assert(scan_aligned(split_run(s1, fs, cfg, audio)));
        }
    }
}

proof fn lemma_scan_aligned(probs: Seq<Probability>, n: int, cfg: DetectorConfig, audio: usize)
    requires
        0 <= n,
        frames_fit(n),
    ensures
        scan_aligned(scan(probs, n, cfg, audio)),
    decreases n,
{
    if n > 0 {
        lemma_scan_aligned(probs, n - 1, cfg, audio);
        lemma_scan_order(probs, n - 1, cfg, audio);
        lemma_step_aligned(scan(probs, n - 1, cfg, audio), n - 1, probs[n - 1], cfg, audio);
    }
}

/// Runs no longer than the maximum plus one frame.
pub open spec fn runs_short_enough(sp: Seq<(usize, usize)>, max: int) -> bool {
    forall|i: int| 0 <= i < sp.len() ==> #[trigger] sp[i].1 - sp[i].0 <= max + FRAME_SIZE
}

/// While inside speech after `n` frames, the run reaches back at most the
/// maximum from the last frame start, and every closed run is at most the
/// maximum plus one frame long.
pub open spec fn run_length_inv(s: ScanState, n: int, cfg: DetectorConfig) -> bool {
    let last = n * FRAME_SIZE - FRAME_SIZE;
    let max = cfg.max_speech_samples as int;
    &&& s.triggered ==> last - s.speech_start <= max
    &&& runs_short_enough(s.speeches, max)
}

proof fn lemma_step_max(s: ScanState, n: int, prob: Probability, cfg: DetectorConfig, audio: usize)
    requires
        0 <= n,
        n * FRAME_SIZE <= usize::MAX,
        cfg.max_speech_samples < usize::MAX,
        scan_order_inv(s, n, audio),
        scan_aligned(s),
        run_length_inv(s, n, cfg),
    ensures
        run_length_inv(scan_step(s, n, prob, cfg, audio), n + 1, cfg),
{
    let fs = n * FRAME_SIZE;
    let max = cfg.max_speech_samples as int;
    let r = scan_step(s, n, prob, cfg, audio);
    let speech = prob.ieee_ge(cfg.threshold);
    assert((n + 1) * FRAME_SIZE - FRAME_SIZE == fs);
    lemma_on_frame_mul(n);
    if !(speech && !s.triggered) {
        let s1 = if speech {
            ScanState {
                triggered: s.triggered,
                speech_start: s.speech_start,
                temp_end: None,
                temp_min: None,
                candidates: record_silence(s, fs, cfg),
                speeches: s.speeches,
            }
        } else {
            s
        };
        lemma_step_aligned(s, n, prob, cfg, audio);
        let rec = record_silence(s, fs, cfg);
        if let Some(t) = s.temp_end {
            lemma_on_frame_arith(fs, t as int);
        }
        assert forall|k: int| 0 <= k < rec.len() implies on_frame(#[trigger] rec[k].start as int)
            && on_frame(rec[k].duration as int) by {
            if k < s.candidates.len() {
                assert(rec[k] == s.candidates[k]);
            }
        }
        assert(scan_aligned(s1));
        let split = s1.triggered && cfg.max_speech_samples < usize::MAX && sat_sub(fs, s1.speech_start as int) > cfg.max_speech_samples;
        let s2 = if split { split_run(s1, fs, cfg, audio) } else { s1 };
        if split {
            lemma_chosen_split_is_candidate(s1.candidates, cfg);
            if let Some(c) = chosen_split(s1.candidates, cfg) {
                let k = choose|k: int| 0 <= k < s1.candidates.len() && s1.candidates[k] == c;
                if s1.candidates.len() > s.candidates.len() {
                    if k < s.candidates.len() {
                        assert(s1.candidates[k] == s.candidates[k]);
                    }
                } else {
                    assert(s1.candidates[k] == s.candidates[k]);
                }
                assert(c.start < fs);
                assert(s.speech_start <= c.start);
                assert(c.duration > 0);
                lemma_on_frame_arith(c.duration as int, 0);
                assert(c.duration >= FRAME_SIZE);
            }
            assert(runs_short_enough(s2.speeches, max));
            if s2.triggered {
                assert(fs - s2.speech_start <= max);
            }
        }
        if !split || s2.triggered {
            if !split && s2.triggered {
                assert(fs - s2.speech_start <= max);
            }
            if prob.ieee_lt(cfg.negative_threshold) && s2.triggered {
                match s2.temp_end {
                    Some(t) => {
                        if split {
                            assert(s2.temp_end is None);
                        } else if speech {
                            assert(s2.temp_end is None);
                        } else {
                            assert(t < fs);
                            assert(s.speech_start <= t);
                        }
                    },
                    None => {},
                }
            }
            assert(r == silence_frame(s2, fs, prob, cfg, audio));
        }
    }
}

proof fn lemma_scan_max(probs: Seq<Probability>, n: int, cfg: DetectorConfig, audio: usize)
    requires
        0 <= n,
        frames_fit(n),
        cfg.max_speech_samples < usize::MAX,
    ensures
        run_length_inv(scan(probs, n, cfg, audio), n, cfg),
    decreases n,
{
    if n > 0 {
        lemma_scan_max(probs, n - 1, cfg, audio);
        lemma_scan_order(probs, n - 1, cfg, audio);
        lemma_scan_aligned(probs, n - 1, cfg, audio);
        lemma_step_max(scan(probs, n - 1, cfg, audio), n - 1, probs[n - 1], cfg, audio);
    }
}

/// Where splitting is enabled and the audio ends within the last frame,
/// no speech region is longer than the maximum speech length plus one frame
/// and the padding on both sides: with the maximum derived as the maximum
/// duration less one frame and two paddings, no region exceeds that duration.
pub proof fn lemma_regions_short_enough(probs: Seq<Probability>, cfg: DetectorConfig, audio: usize)
    requires
        frames_fit(probs.len() as int),
        cfg.max_speech_samples < usize::MAX,
        audio <= probs.len() * FRAME_SIZE,
    ensures
        forall|i: int|
            0 <= i < speech_regions(probs, cfg, audio).len() ==> {
                let r = #[trigger] speech_regions(probs, cfg, audio)[i];
                r.1 - r.0 <= cfg.max_speech_samples + FRAME_SIZE + 2 * cfg.speech_pad_samples
            },
{
    if !(probs.len() == 0 || audio == 0) {
        let n = probs.len() as int;
        let max = cfg.max_speech_samples as int;
        lemma_scan_max(probs, n, cfg, audio);
        lemma_scan_order(probs, n, cfg, audio);
        let st = scan(probs, n, cfg, audio);
        let runs = speech_runs_of(probs, cfg, audio);
        assert(runs_short_enough(runs, max));
        let pad = cfg.speech_pad_samples;
        let p = padded_runs(runs, pad, audio);
        let bound = max + FRAME_SIZE + 2 * pad;
        let pred = |x: (usize, usize)| x.1 - x.0 <= bound;
        assert forall|i: int|
            0 <= i < p.len() && clamp_run(#[trigger] p[i], audio).1 > clamp_run(p[i], audio).0
                implies pred(clamp_run(p[i], audio)) by {
            assert(runs[i].1 - runs[i].0 <= max + FRAME_SIZE);
            assert(p[i].0 >= runs[i].0 - pad);
            assert(p[i].1 <= runs[i].1 + pad);
        }
        lemma_keep_all(p, audio, pred);
    }
}

/// Every candidate outlasts the minimum pause for a split.
pub open spec fn candidates_outlast(cands: Seq<CandidateSilence>, min: usize) -> bool {
    forall|k: int| 0 <= k < cands.len() ==> #[trigger] cands[k].duration > min
}

proof fn lemma_step_candidates_outlast(
    s: ScanState,
    n: int,
    prob: Probability,
    cfg: DetectorConfig,
    audio: usize,
)
    requires
        0 <= n,
        n * FRAME_SIZE <= usize::MAX,
        candidates_outlast(s.candidates, cfg.min_silence_at_max_speech_samples),
    ensures
        candidates_outlast(
            scan_step(s, n, prob, cfg, audio).candidates,
            cfg.min_silence_at_max_speech_samples,
        ),
{
    let fs = n * FRAME_SIZE;
    let rec = record_silence(s, fs, cfg);
    assert forall|k: int| 0 <= k < rec.len() implies #[trigger] rec[k].duration
        > cfg.min_silence_at_max_speech_samples by {
        if k < s.candidates.len() {
            assert(rec[k] == s.candidates[k]);
        }
    }
    let speech = prob.ieee_ge(cfg.threshold);
    if !(speech && !s.triggered) {
        let s1 = if speech {
            ScanState {
                triggered: s.triggered,
                speech_start: s.speech_start,
                temp_end: None,
                temp_min: None,
                candidates: rec,
                speeches: s.speeches,
            }
        } else {
            s
        };
        assert(candidates_outlast(s1.candidates, cfg.min_silence_at_max_speech_samples));
        let s2 = split_run(s1, fs, cfg, audio);
        assert(s2.candidates.len() == 0);
    }
}

/// Only real pauses become split points: every silence the scan keeps as a
/// place to split an over-long run lasted longer than
/// `min_silence_at_max_speech_samples`; shorter dips are never recorded, so a
/// run with no longer pause is cut where it passes the maximum.
pub proof fn lemma_split_candidates_outlast_minimum(
    probs: Seq<Probability>,
    n: int,
    cfg: DetectorConfig,
    audio: usize,
)
    requires
        0 <= n,
        frames_fit(n),
    ensures
        forall|k: int|
            0 <= k < scan(probs, n, cfg, audio).candidates.len() ==> #[trigger] scan(
                probs,
                n,
                cfg,
                audio,
            ).candidates[k].duration > cfg.min_silence_at_max_speech_samples,
    decreases n,
{
    if n > 0 {
        lemma_split_candidates_outlast_minimum(probs, n - 1, cfg, audio);
        lemma_step_candidates_outlast(scan(probs, n - 1, cfg, audio), n - 1, probs[n - 1], cfg, audio);
    }
}

proof fn lemma_speech_frame_keeps_run(
    s: ScanState,
    n: int,
    prob: Probability,
    cfg: DetectorConfig,
    audio: usize,
)
    requires
        0 <= n,
        n * FRAME_SIZE <= cfg.max_speech_samples,
        s.triggered ==> s.speech_start <= n * FRAME_SIZE,
        prob.ieee_ge(cfg.threshold),
        !prob.ieee_lt(cfg.negative_threshold),
    ensures
        scan_step(s, n, prob, cfg, audio).triggered,
        scan_step(s, n, prob, cfg, audio).speech_start == if s.triggered {
            s.speech_start as int
        } else {
            n * FRAME_SIZE
        },
{
}

proof fn lemma_speech_tail_keeps_run(
    probs: Seq<Probability>,
    i: int,
    m: int,
    cfg: DetectorConfig,
    audio: usize,
)
    requires
        0 <= i < m <= probs.len(),
        frames_fit(probs.len() as int),
        forall|k: int|
            i <= k < probs.len() ==> (#[trigger] probs[k]).ieee_ge(cfg.threshold)
                && !probs[k].ieee_lt(cfg.negative_threshold),
        (probs.len() - 1) * FRAME_SIZE <= cfg.max_speech_samples,
    ensures
        scan(probs, m, cfg, audio).triggered,
        scan(probs, m, cfg, audio).speech_start <= i * FRAME_SIZE,
    decreases m,
{
    let prev = scan(probs, m - 1, cfg, audio);
    assert((m - 1) * FRAME_SIZE <= (probs.len() - 1) * FRAME_SIZE) by (nonlinear_arith)
        requires
            m <= probs.len(),
    ;
    assert(i * FRAME_SIZE <= (m - 1) * FRAME_SIZE) by (nonlinear_arith)
        requires
            i <= m - 1,
    ;
    if m - 1 > i {
        lemma_speech_tail_keeps_run(probs, i, m - 1, cfg, audio);
    } else {
        lemma_scan_order(probs, m - 1, cfg, audio);
    }
    assert(probs[m - 1].ieee_ge(cfg.threshold) && !probs[m - 1].ieee_lt(cfg.negative_threshold));
    lemma_speech_frame_keeps_run(prev, m - 1, probs[m - 1], cfg, audio);
}

/// Speech that lasts to the end of the audio is kept up to the end: when
/// every frame from frame `i` on is speech (at or above the entry threshold
/// and not below the exit threshold), no forced split can happen, and the
/// audio from frame `i` on is long enough to be kept, the last region ends at
/// the audio length and covers every sample from frame `i` on.
pub proof fn lemma_speech_tail_reaches_audio_end(
    probs: Seq<Probability>,
    i: int,
    cfg: DetectorConfig,
    audio: usize,
)
    requires
        0 <= i < probs.len(),
        frames_fit(probs.len() as int),
        forall|k: int|
            i <= k < probs.len() ==> (#[trigger] probs[k]).ieee_ge(cfg.threshold)
                && !probs[k].ieee_lt(cfg.negative_threshold),
        (probs.len() - 1) * FRAME_SIZE <= cfg.max_speech_samples,
        i * FRAME_SIZE < audio,
        i * FRAME_SIZE + cfg.min_speech_samples <= audio,
    ensures
        speech_regions(probs, cfg, audio).len() > 0,
        speech_regions(probs, cfg, audio).last().1 == audio,
        speech_regions(probs, cfg, audio).last().0 <= i * FRAME_SIZE,
{
    let n = probs.len() as int;
    lemma_speech_tail_keeps_run(probs, i, n, cfg, audio);
    let st = scan(probs, n, cfg, audio);
    let runs = speech_runs_of(probs, cfg, audio);
    assert(runs == st.speeches.push((st.speech_start, audio)));
    let pad = cfg.speech_pad_samples;
    let p = padded_runs(runs, pad, audio);
    let last = runs.len() - 1;
    assert(p.last() == (padded_start(runs, last, pad), padded_end(runs, last, pad, audio)));
    assert(padded_end(runs, last, pad, audio) == audio);
    if last > 0 {
        assert(boundary_shift(runs, last, pad) >= 0);
    }
    assert(padded_start(runs, last, pad) <= st.speech_start);
    assert(clamp_run(p.last(), audio) == p.last());
    assert(keep_nonempty(p, audio) == keep_nonempty(p.drop_last(), audio).push(p.last()));
}

/// The silence in progress, if any, began at a frame below the exit
/// threshold; every candidate began at such a frame and ended where a frame
/// at or above the entry threshold starts.
pub open spec fn pauses_bounded_by_frames(s: ScanState, probs: Seq<Probability>, cfg: DetectorConfig) -> bool {
    &&& (s.temp_end matches Some(t) ==> forall|m: int|
        m * FRAME_SIZE == t ==> (#[trigger] probs[m]).ieee_lt(cfg.negative_threshold))
    &&& forall|k: int, m: int|
        0 <= k < s.candidates.len() && m * FRAME_SIZE == (#[trigger] s.candidates[k]).start ==> (
        #[trigger] probs[m]).ieee_lt(cfg.negative_threshold)
    &&& forall|k: int, m: int|
        0 <= k < s.candidates.len() && m * FRAME_SIZE == (#[trigger] s.candidates[k]).start
            + s.candidates[k].duration ==> (#[trigger] probs[m]).ieee_ge(cfg.threshold)
}

proof fn lemma_step_pauses_bounded(
    s: ScanState,
    probs: Seq<Probability>,
    n: int,
    cfg: DetectorConfig,
    audio: usize,
)
    requires
        0 <= n,
        n * FRAME_SIZE <= usize::MAX,
        scan_order_inv(s, n, audio),
        pauses_bounded_by_frames(s, probs, cfg),
    ensures
        pauses_bounded_by_frames(scan_step(s, n, probs[n], cfg, audio), probs, cfg),
{
    let fs = n * FRAME_SIZE;
    let prob = probs[n];
    let rec = record_silence(s, fs, cfg);
    assert forall|k: int, m: int|
        0 <= k < rec.len() && m * FRAME_SIZE == (#[trigger] rec[k]).start implies (
        #[trigger] probs[m]).ieee_lt(cfg.negative_threshold) by {
        if k < s.candidates.len() {
            assert(rec[k] == s.candidates[k]);
        }
    }
    if prob.ieee_ge(cfg.threshold) {
        assert forall|k: int, m: int|
            0 <= k < rec.len() && m * FRAME_SIZE == (#[trigger] rec[k]).start + rec[k].duration
                implies (#[trigger] probs[m]).ieee_ge(cfg.threshold) by {
            if k < s.candidates.len() {
                assert(rec[k] == s.candidates[k]);
            } else {
                assert(rec[k].start + rec[k].duration == fs);
                assert(m == n);
            }
        }
    }
}

proof fn lemma_scan_pauses_bounded(probs: Seq<Probability>, n: int, cfg: DetectorConfig, audio: usize)
    requires
        0 <= n,
        frames_fit(n),
    ensures
        pauses_bounded_by_frames(scan(probs, n, cfg, audio), probs, cfg),
    decreases n,
{
    if n > 0 {
        lemma_scan_pauses_bounded(probs, n - 1, cfg, audio);
        lemma_scan_order(probs, n - 1, cfg, audio);
        lemma_step_pauses_bounded(scan(probs, n - 1, cfg, audio), probs, n - 1, cfg, audio);
    }
}

/// Split candidates are pauses found in the input: each begins at the start
/// of a frame below the exit threshold and ends at the start of a frame at or
/// above the entry threshold.
pub proof fn lemma_split_candidates_are_pauses(
    probs: Seq<Probability>,
    n: int,
    cfg: DetectorConfig,
    audio: usize,
)
    requires
        0 <= n,
        frames_fit(n),
    ensures
        forall|k: int, m: int|
            0 <= k < scan(probs, n, cfg, audio).candidates.len() && m * FRAME_SIZE == (
            #[trigger] scan(probs, n, cfg, audio).candidates[k]).start ==> (
            #[trigger] probs[m]).ieee_lt(cfg.negative_threshold),
        forall|k: int, m: int|
            0 <= k < scan(probs, n, cfg, audio).candidates.len() && m * FRAME_SIZE == (
            #[trigger] scan(probs, n, cfg, audio).candidates[k]).start + scan(
                probs,
                n,
                cfg,
                audio,
            ).candidates[k].duration ==> (#[trigger] probs[m]).ieee_ge(cfg.threshold),
{
    lemma_scan_pauses_bounded(probs, n, cfg, audio);
}

} // verus!
