//! Model state bookkeeping and framing.

use fluidvad::{split_frames, FluidVadError, ModelState, CONTEXT_SIZE, FRAME_SIZE, STATE_SIZE};

#[test]
fn initial_state_is_all_zero() {
    let s = ModelState::initial(0.0f32);
    assert_eq!(s.hidden, vec![0.0f32; STATE_SIZE]);
    assert_eq!(s.cell, vec![0.0f32; STATE_SIZE]);
    assert_eq!(s.context, vec![0.0f32; CONTEXT_SIZE]);
}

#[test]
fn inputs_refuse_wrong_frame_length() {
    let s = ModelState::initial(0.0f32);
    match s.inputs(&vec![0.0f32; 100]) {
        Err(FluidVadError::BadFrameSize { expected, got }) => {
            assert_eq!(expected, FRAME_SIZE);
            assert_eq!(got, 100);
        }
        other => panic!("unexpected {other:?}"),
    }
}

#[test]
fn inputs_prepend_context_and_join_hidden_and_cell() {
    let s = ModelState {
        hidden: vec![1u32; STATE_SIZE],
        cell: vec![2u32; STATE_SIZE],
        context: (0..CONTEXT_SIZE as u32).collect(),
    };
    let frame: Vec<u32> = (1000..1000 + FRAME_SIZE as u32).collect();
    let (audio, recurrent) = s.inputs(&frame).expect("whole frame");
    assert_eq!(audio.len(), CONTEXT_SIZE + FRAME_SIZE);
    assert_eq!(audio[0], 0);
    assert_eq!(audio[CONTEXT_SIZE - 1], CONTEXT_SIZE as u32 - 1);
    assert_eq!(audio[CONTEXT_SIZE], 1000);
    assert_eq!(audio[CONTEXT_SIZE + FRAME_SIZE - 1], 1000 + FRAME_SIZE as u32 - 1);
    assert_eq!(recurrent.len(), 2 * STATE_SIZE);
    assert_eq!(recurrent[STATE_SIZE - 1], 1);
    assert_eq!(recurrent[STATE_SIZE], 2);
}

#[test]
fn next_state_splits_output_and_keeps_frame_tail() {
    let flat: Vec<u32> = (0..2 * STATE_SIZE as u32).collect();
    let frame: Vec<u32> = (0..FRAME_SIZE as u32).collect();
    let s = ModelState::next(&flat, &frame);
    assert_eq!(s.hidden, (0..STATE_SIZE as u32).collect::<Vec<_>>());
    assert_eq!(s.cell, (STATE_SIZE as u32..2 * STATE_SIZE as u32).collect::<Vec<_>>());
    assert_eq!(s.context.len(), CONTEXT_SIZE);
    assert_eq!(s.context[0], (FRAME_SIZE - CONTEXT_SIZE) as u32);
    assert_eq!(s.context[CONTEXT_SIZE - 1], FRAME_SIZE as u32 - 1);
}

#[test]
fn split_frames_drops_the_tail() {
    let samples: Vec<u32> = (0..1300).collect();
    let frames = split_frames(&samples);
    assert_eq!(frames.len(), 2);
    assert_eq!(frames[1][0], 512);
    assert_eq!(frames[1][511], 1023);
    assert!(split_frames(&samples[..511]).is_empty());
}

#[test]
fn error_variants_carry_their_message() {
    let e = FluidVadError::Inference(String::from("boom"));
    assert!(matches!(e, FluidVadError::Inference(ref m) if m == "boom"));
}
