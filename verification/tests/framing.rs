use muviz::framing::{frame_windows, local_mean_bounds, padded_window, phase_positions};
use muviz::stft::Stft;
use muviz::{HOP_SIZE, RESAMPLE_CHUNK_SIZE, SAMPLE_RATE, WINDOW_SIZE};

#[test]
fn constants() {
    assert_eq!(SAMPLE_RATE, 44_100);
    assert_eq!(WINDOW_SIZE, 2048);
    assert_eq!(HOP_SIZE, 512);
    assert_eq!(RESAMPLE_CHUNK_SIZE, 4096);
}

#[test]
fn windows_cover_the_signal() {
    assert_eq!(frame_windows(10, 4, 3), vec![(0, 4), (3, 7), (6, 10), (9, 10)]);
    assert_eq!(frame_windows(9, 4, 3), vec![(0, 4), (3, 7), (6, 9)]);
    assert_eq!(frame_windows(0, 4, 3), vec![]);
    assert_eq!(frame_windows(1, 2048, 512), vec![(0, 1)]);
}

#[test]
fn frame_count_is_ceiling() {
    for len in 0..50usize {
        for hop in 1..7usize {
            let w = frame_windows(len, 5, hop);
            assert_eq!(w.len(), (len + hop - 1) / hop);
        }
    }
    // A typical track: 3 minutes at 44.1 kHz.
    let len = 3 * 60 * 44_100;
    assert_eq!(frame_windows(len, 2048, 512).len(), 15_504);
}

#[test]
fn resampler_chunks() {
    assert_eq!(frame_windows(10, 4, 4), vec![(0, 4), (4, 8), (8, 10)]);
}

#[test]
fn padded_window_pads_past_the_end() {
    let s = [1.0f32, 2.0, 3.0];
    assert_eq!(padded_window(&s, 1, 4, 0.0), vec![2.0, 3.0, 0.0, 0.0]);
    assert_eq!(padded_window(&s, 0, 2, 0.0), vec![1.0, 2.0]);
    assert_eq!(padded_window(&s, 5, 2, 9.0), vec![9.0, 9.0]);
    assert_eq!(padded_window(&s, 0, 0, 0.0), Vec::<f32>::new());
}

#[test]
fn local_mean_neighbourhood() {
    assert_eq!(local_mean_bounds(0, 32, 100), (0, 32));
    assert_eq!(local_mean_bounds(50, 32, 100), (18, 82));
    assert_eq!(local_mean_bounds(99, 32, 100), (67, 99));
    assert_eq!(local_mean_bounds(0, 32, 1), (0, 0));
}

#[test]
fn phase_positions_step() {
    assert_eq!(phase_positions(2, 5, 20), vec![2, 7, 12, 17]);
    assert_eq!(phase_positions(0, 5, 5), vec![0]);
    assert_eq!(phase_positions(7, 5, 5), vec![]);
}

#[test]
fn stft_shape() {
    let stft = Stft::new(2048, 512);
    assert_eq!(stft.window_size(), 2048);
    assert_eq!(stft.hop_size(), 512);
    assert_eq!(stft.num_bins(), 1025);
    assert_eq!(Stft::new(7, 2).num_bins(), 4);
    assert_eq!(stft.frames(1000), vec![(0, 1000), (512, 1000)]);
}

#[test]
fn windows_cover_every_sample_when_window_reaches_hop() {
    let len = 23;
    let w = frame_windows(len, 5, 4);
    for x in 0..len {
        assert!(w.iter().any(|&(s, e)| s <= x && x < e));
    }
    for &(s, e) in &w {
        assert!(s < len && s <= e && e <= len && e - s <= 5);
    }
}

#[test]
fn empty_signal_has_no_windows_whatever_the_hop() {
    assert_eq!(frame_windows(0, 4, 0), vec![]);
    assert_eq!(muviz::stft::Stft::new(2048, 0).frames(0), vec![]);
}
