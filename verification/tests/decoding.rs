use muviz::decoding::{
    analysis_decode_step, analysis_read_step, interleave_planes, playback_decode_step,
    playback_format, playback_read_step, stream_format, FormatError, PacketStep, SampleQueue,
    StreamError,
};

#[test]
fn interleaving_two_channels() {
    let planes = vec![vec![1.0f32, 2.0, 3.0], vec![10.0, 20.0, 30.0]];
    let mut out = vec![-1.0f32];
    interleave_planes(&planes, 2, 3, &mut out);
    assert_eq!(out, vec![-1.0, 1.0, 10.0, 2.0, 20.0, 3.0, 30.0]);
}

#[test]
fn interleaving_uses_only_the_given_frames_and_channels() {
    let planes = vec![vec![1, 2, 3], vec![4, 5, 6], vec![7, 8, 9]];
    let mut out = Vec::new();
    interleave_planes(&planes, 2, 2, &mut out);
    assert_eq!(out, vec![1, 4, 2, 5]);
    let mut none: Vec<i32> = Vec::new();
    interleave_planes(&planes, 0, 3, &mut none);
    assert!(none.is_empty());
}

#[test]
fn analysis_loop_policy() {
    assert_eq!(analysis_read_step(None), PacketStep::Use);
    assert_eq!(analysis_read_step(Some(StreamError::Io)), PacketStep::End);
    assert_eq!(analysis_read_step(Some(StreamError::Decode)), PacketStep::Fail);
    assert_eq!(analysis_read_step(Some(StreamError::Other)), PacketStep::Fail);
    assert_eq!(analysis_decode_step(None), PacketStep::Use);
    assert_eq!(analysis_decode_step(Some(StreamError::Decode)), PacketStep::Skip);
    assert_eq!(analysis_decode_step(Some(StreamError::Io)), PacketStep::Fail);
    assert_eq!(analysis_decode_step(Some(StreamError::Other)), PacketStep::Fail);
}

#[test]
fn playback_loop_policy() {
    assert_eq!(playback_read_step(None), PacketStep::Use);
    assert_eq!(playback_read_step(Some(StreamError::Io)), PacketStep::End);
    assert_eq!(playback_read_step(Some(StreamError::Other)), PacketStep::End);
    assert_eq!(playback_decode_step(Some(StreamError::Decode)), PacketStep::Skip);
    assert_eq!(playback_decode_step(Some(StreamError::Io)), PacketStep::End);
    assert_eq!(playback_decode_step(None), PacketStep::Use);
}

#[test]
fn stream_format_errors() {
    assert_eq!(stream_format(false, Some(44_100), Some(2)), Err(FormatError::NoDefaultTrack));
    assert_eq!(stream_format(true, None, Some(2)), Err(FormatError::UnknownSampleRate));
    assert_eq!(stream_format(true, None, None), Err(FormatError::UnknownSampleRate));
    assert_eq!(stream_format(true, Some(48_000), None), Err(FormatError::UnknownChannelLayout));
    assert_eq!(stream_format(true, Some(48_000), Some(6)), Ok((48_000, 6)));
}

#[test]
fn playback_format_defaults() {
    assert_eq!(playback_format(None, None), (2, 44_100));
    assert_eq!(playback_format(Some(48_000), Some(1)), (1, 48_000));
    assert_eq!(playback_format(Some(22_050), Some(65_537)), (1, 22_050));
}

#[test]
fn queue_hands_out_samples_in_order() {
    let mut q: SampleQueue<f32> = SampleQueue::new();
    assert!(q.needs_refill());
    assert_eq!(q.take_next(), None);
    q.refill(vec![0.5, -0.5]);
    assert!(!q.needs_refill());
    assert_eq!(q.take_next(), Some(0.5));
    assert_eq!(q.take_next(), Some(-0.5));
    assert!(q.needs_refill());
    assert_eq!(q.take_next(), None);
    q.refill(vec![1.0, 2.0, 3.0]);
    assert_eq!(q.take_next(), Some(1.0));
    q.refill(vec![9.0]);
    assert_eq!(q.take_next(), Some(9.0));
    q.refill(vec![4.0]);
    q.clear();
    assert!(q.needs_refill());
    assert_eq!(q.take_next(), None);
}

#[test]
fn empty_refill_still_needs_refill() {
    let mut q: SampleQueue<i16> = SampleQueue::new();
    q.refill(Vec::new());
    assert!(q.needs_refill());
    assert_eq!(q.take_next(), None);
}
