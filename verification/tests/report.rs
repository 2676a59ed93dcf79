use muviz::report::{csv_header, median_positions};

fn names() -> Vec<String> {
    ["sub", "bass", "low_mid", "mid", "high_mid", "high"].iter().map(|s| s.to_string()).collect()
}

#[test]
fn header_without_bands() {
    let h = csv_header(0, 0, &names());
    assert_eq!(h.len(), 1 + 4 * 3 + 4 * 7);
    assert_eq!(h[0], "filename");
    assert_eq!(&h[1..5], &["rms_min", "rms_max", "rms_avg", "rms_med"]);
    assert_eq!(h[5], "spectral_flux_min");
    assert_eq!(h[12], "spectral_flatness_med");
    assert_eq!(h[13], "lane_left_min");
    assert_eq!(h[h.len() - 1], "beat_strength_med");
}

#[test]
fn header_with_bands() {
    let h = csv_header(6, 2, &names());
    assert_eq!(h.len(), 1 + 12 + 24 + 8 + 28);
    assert_eq!(h[13], "band_energy_sub_min");
    assert_eq!(h[13 + 4 * 5 + 3], "band_energy_high_med");
    assert_eq!(h[37], "band_flux_sub_min");
    assert_eq!(h[44], "band_flux_bass_med");
    assert_eq!(h[45], "lane_left_min");
}

#[test]
fn unknown_band_names() {
    let h = csv_header(7, 0, &names());
    assert_eq!(h[13 + 4 * 6], "band_energy_unknown_min");
    let h = csv_header(0, 1, &Vec::new());
    assert_eq!(h[13], "band_flux_unknown_min");
}

#[test]
fn median_positions_by_parity() {
    assert_eq!(median_positions(0), None);
    assert_eq!(median_positions(1), Some((0, 0)));
    assert_eq!(median_positions(5), Some((2, 2)));
    assert_eq!(median_positions(4), Some((1, 2)));
}
