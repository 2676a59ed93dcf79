use muviz::mesh::{append_offset_indices, catmull_rom_indices, dash_ranges, triangle_strip_indices};

#[test]
fn strip_of_two_rings_of_three() {
    // Ring 0: vertices 0, 1, 2; ring 1: vertices 3, 4, 5.
    assert_eq!(
        triangle_strip_indices(2, 3),
        vec![0, 1, 3, 1, 4, 3, 1, 2, 4, 2, 5, 4]
    );
}

#[test]
fn strip_sizes_and_ranges() {
    assert_eq!(triangle_strip_indices(1, 8), Vec::<u32>::new());
    assert_eq!(triangle_strip_indices(5, 1), Vec::<u32>::new());
    let r = triangle_strip_indices(4, 8);
    assert_eq!(r.len(), 6 * 3 * 7);
    assert!(r.iter().all(|&i| i < 32));
    assert_eq!(*r.iter().max().unwrap(), 31);
    // Second quad of the third ring.
    let q = 2 * 7 + 1;
    assert_eq!(&r[6 * q..6 * q + 6], &[17, 18, 25, 18, 26, 25]);
}

#[test]
fn dashes_along_a_track() {
    assert_eq!(dash_ranges(100, 20, 20), vec![(0, 20), (40, 60), (80, 100)]);
    assert_eq!(dash_ranges(50, 20, 20), vec![(0, 20), (40, 50)]);
    // A last dash of a single point is dropped.
    assert_eq!(dash_ranges(41, 20, 20), vec![(0, 20)]);
    assert_eq!(dash_ranges(42, 20, 20), vec![(0, 20), (40, 42)]);
    // One-point dashes are never drawn.
    assert_eq!(dash_ranges(10, 1, 0), vec![]);
}

#[test]
fn dash_period_saturates() {
    assert_eq!(dash_ranges(10, 5, usize::MAX - 5), vec![(0, 5)]);
}

#[test]
fn offset_indices_are_shifted() {
    let mut dst = vec![0, 1, 2];
    append_offset_indices(&mut dst, &vec![0, 1, 3], 4);
    assert_eq!(dst, vec![0, 1, 2, 4, 5, 7]);
}

#[test]
fn spline_indices_clamp() {
    assert_eq!(catmull_rom_indices(0, 10), (0, 0, 1, 2));
    assert_eq!(catmull_rom_indices(5, 10), (4, 5, 6, 7));
    assert_eq!(catmull_rom_indices(8, 10), (7, 8, 9, 9));
    assert_eq!(catmull_rom_indices(20, 10), (9, 9, 9, 9));
    assert_eq!(catmull_rom_indices(3, 1), (0, 0, 0, 0));
}

#[test]
fn dashes_are_on_the_track_and_disjoint() {
    for len in 0..60usize {
        for d in 1..6usize {
            for s in 0..4usize {
                let r = dash_ranges(len, d, s);
                for &(a, b) in &r {
                    assert!(a + 2 <= b && b <= len && b - a <= d);
                    assert_eq!(a % (d + s), 0);
                }
                for w in r.windows(2) {
                    assert!(w[0].1 <= w[1].0);
                }
            }
        }
    }
}

#[test]
fn single_ring_with_empty_profile_has_no_indices() {
    assert_eq!(triangle_strip_indices(1, 0), Vec::<u32>::new());
}
