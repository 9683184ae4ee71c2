//! Frame geometry of the speech model and the framing of sample buffers.

use vstd::prelude::*;

verus! {

/// Sample rate the model operates at.
pub const SAMPLE_RATE: usize = 16000;

/// New samples consumed per inference frame (32 ms at 16 kHz).
pub const FRAME_SIZE: usize = 512;

/// Samples of trailing context prepended to each frame.
pub const CONTEXT_SIZE: usize = 64;

/// Width of the recurrent hidden and cell states.
pub const STATE_SIZE: usize = 128;

/// Errors surfaced by the detector.
#[derive(Debug)]
pub enum FluidVadError {
    /// The model failed to load or optimize.
    ModelLoad(String),
    /// Inference failed.
    Inference(String),
    /// A frame whose length is not [`FRAME_SIZE`].
    BadFrameSize { expected: usize, got: usize },
}

/// Appends `tail` to `out`.
fn append<S: Copy>(out: &mut Vec<S>, tail: &[S])
    ensures
        final(out)@ == old(out)@ + tail@,
{
    let ghost before = out@;
    let mut i: usize = 0;
    while i < tail.len()
        invariant
            i <= tail@.len(),
            out@ == before + tail@.subrange(0, i as int),
        decreases tail@.len() - i,
    {
        out.push(tail[i]);
        i = i + 1;
        assert(out@ =~= before + tail@.subrange(0, i as int));
    }
    assert(tail@.subrange(0, tail@.len() as int) =~= tail@);
}

/// `n` copies of `value`.
fn filled<S: Copy>(value: S, n: usize) -> (v: Vec<S>)
    ensures
        v@ == Seq::new(n as nat, |_i: int| value),
{
    let mut v: Vec<S> = Vec::new();
    let mut i: usize = 0;
    while i < n
        invariant
            i <= n,
            v@ == Seq::new(i as nat, |_i: int| value),
        decreases n - i,
    {
        v.push(value);
        i = i + 1;
        assert(v@ =~= Seq::new(i as nat, |_i: int| value));
    }
    v
}

/// Recurrent state carried between frames: the hidden and cell states and
/// the audio context prepended to the next frame.
pub struct ModelState<S> {
    pub hidden: Vec<S>,
    pub cell: Vec<S>,
    pub context: Vec<S>,
}

impl<S: Copy> ModelState<S> {
    /// Fresh state, every value `zero`.
    pub fn initial(zero: S) -> (s: Self)
        ensures
            s.hidden@ == Seq::new(STATE_SIZE as nat, |_i: int| zero),
            s.cell@ == Seq::new(STATE_SIZE as nat, |_i: int| zero),
            s.context@ == Seq::new(CONTEXT_SIZE as nat, |_i: int| zero),
    {
        ModelState {
            hidden: filled(zero, STATE_SIZE),
            cell: filled(zero, STATE_SIZE),
            context: filled(zero, CONTEXT_SIZE),
        }
    }

    /// The two model inputs for a frame: the context followed by the frame,
    /// and the hidden state followed by the cell state. A frame of any other
    /// length than [`FRAME_SIZE`] is refused.
    pub fn inputs(&self, frame: &[S]) -> (r: Result<(Vec<S>, Vec<S>), FluidVadError>)
        ensures
            r is Ok <==> frame@.len() == FRAME_SIZE,
            r matches Ok((audio, recurrent)) ==> audio@ == self.context@ + frame@
                && recurrent@ == self.hidden@ + self.cell@,
            r matches Err(e) ==> e == (FluidVadError::BadFrameSize {
                expected: FRAME_SIZE,
                got: frame@.len() as usize,
            }),
    {
        if frame.len() != FRAME_SIZE {
            return Err(FluidVadError::BadFrameSize { expected: FRAME_SIZE, got: frame.len() });
        }
        let mut audio: Vec<S> = Vec::new();
        append(&mut audio, self.context.as_slice());
        append(&mut audio, frame);
        assert(audio@ =~= self.context@ + frame@);
        let mut recurrent: Vec<S> = Vec::new();
        append(&mut recurrent, self.hidden.as_slice());
        append(&mut recurrent, self.cell.as_slice());
        assert(recurrent@ =~= self.hidden@ + self.cell@);
        Ok((audio, recurrent))
    }

    /// The state after a frame, from the model's flattened recurrent output
    /// (hidden state, then cell state): the context is the frame's last
    /// [`CONTEXT_SIZE`] samples.
    pub fn next(recurrent: &[S], frame: &[S]) -> (s: Self)
        requires
            recurrent@.len() >= STATE_SIZE,
            frame@.len() == FRAME_SIZE,
        ensures
            s.hidden@ == recurrent@.subrange(0, STATE_SIZE as int),
            s.cell@ == recurrent@.subrange(STATE_SIZE as int, recurrent@.len() as int),
            s.context@ == frame@.subrange(FRAME_SIZE - CONTEXT_SIZE, FRAME_SIZE as int),
    {
        ModelState {
            hidden: slice_range(recurrent, 0, STATE_SIZE),
            cell: slice_range(recurrent, STATE_SIZE, recurrent.len()),
            context: slice_range(frame, FRAME_SIZE - CONTEXT_SIZE, FRAME_SIZE),
        }
    }
}

/// The elements `from..to` of a slice.
fn slice_range<S: Copy>(s: &[S], from: usize, to: usize) -> (v: Vec<S>)
    requires
        from <= to <= s@.len(),
    ensures
        v@ == s@.subrange(from as int, to as int),
{
    let mut v: Vec<S> = Vec::new();
    let mut i: usize = from;
    while i < to
        invariant
            from <= i <= to,
            to <= s@.len(),
            v@ == s@.subrange(from as int, i as int),
        decreases to - i,
    {
        v.push(s[i]);
        i = i + 1;
        assert(v@ =~= s@.subrange(from as int, i as int));
    }
    v
}

/// The whole frames of a buffer, in order.
pub open spec fn frames_of<S>(x: Seq<S>) -> Seq<Seq<S>> {
    Seq::new(
        (x.len() as int / FRAME_SIZE as int) as nat,
        |k: int| x.subrange(k * FRAME_SIZE, k * FRAME_SIZE + FRAME_SIZE),
    )
}

/// What stays of a buffer once its whole frames are taken.
pub open spec fn rest_of<S>(x: Seq<S>) -> Seq<S> {
    x.subrange((x.len() as int / FRAME_SIZE as int) * FRAME_SIZE, x.len() as int)
}

/// The whole frames of a buffer, in order; a tail shorter than a frame is
/// left out.
pub fn split_frames<S: Copy>(samples: &[S]) -> (frames: Vec<Vec<S>>)
    ensures
        frames@.len() == samples@.len() as int / FRAME_SIZE as int,
        forall|k: int|
            0 <= k < frames@.len() ==> #[trigger] frames@[k]@ == samples@.subrange(
                k * FRAME_SIZE,
                k * FRAME_SIZE + FRAME_SIZE,
            ),
        frames@.map_values(|f: Vec<S>| f@) == frames_of(samples@),
{
    let n = samples.len();
    let count = n / FRAME_SIZE;
    let mut frames: Vec<Vec<S>> = Vec::new();
    let mut k: usize = 0;
    while k < count
        invariant
            n == samples@.len(),
            count == samples@.len() as int / FRAME_SIZE as int,
            k <= count,
            frames@.len() == k,
            forall|m: int|
                0 <= m < k ==> #[trigger] frames@[m]@ == samples@.subrange(
                    m * FRAME_SIZE,
                    m * FRAME_SIZE + FRAME_SIZE,
                ),
        decreases count - k,
    {
        assert(k * FRAME_SIZE + FRAME_SIZE <= samples@.len()) by (nonlinear_arith)
            requires
                k < count,
                count == samples@.len() as int / FRAME_SIZE as int,
        ;
        assert(k * FRAME_SIZE + FRAME_SIZE <= n);
        let base = k * FRAME_SIZE;
        let mut frame: Vec<S> = Vec::new();
        let mut j: usize = 0;
        while j < FRAME_SIZE
            invariant
                base == k * FRAME_SIZE,
                base + FRAME_SIZE <= samples@.len(),
                j <= FRAME_SIZE,
                frame@ == samples@.subrange(base as int, base + j),
            decreases FRAME_SIZE - j,
        {
            frame.push(samples[base + j]);
            j = j + 1;
            assert(frame@ =~= samples@.subrange(base as int, base + j));
        }
        frames.push(frame);
        k = k + 1;
    }
    assert(frames@.map_values(|f: Vec<S>| f@) =~= frames_of(samples@));
    frames
}

} // verus!
