# fluidvad

Voice activity detection around the Silero v6 speech model: the decision
logic, verified with Verus, and a thin unverified shell that runs the model.

- `src/` — the verified library.
  - `probability.rs`: binary32 values held by their bit patterns, with the
    IEEE-754 comparisons and `min` the detectors use.
  - `config.rs`: the user-facing settings (binary32 thresholds, binary64
    durations in seconds) and their range check.
  - `model.rs`: frame geometry, the model's recurrent state bookkeeping and
    the framing of sample buffers.
  - `segmentation.rs`: offline segmentation of per-frame probabilities into
    padded speech regions, with its laws (regions ordered and within the
    audio, short runs dropped, long runs split, silence yields nothing).
  - `streaming.rs`: the streaming hysteresis state machine and the buffering
    streamer, with its laws (events alternate and each end lies past its
    start, whole frames consumed, chunking does not change the frames, the
    events or the final state).
- `app/` — model inference with tract, float settings converted to the
  library's types, and the wasm-bindgen bindings. The model is read at run
  time from `models/silero_vad_16k_v6.nnef.tar` under the working directory.
- `tests/` — tests of the library on synthetic probability sequences.
