use graphics_lib::framebuffer::{buffer_len, pixel_of_index, pixel_offset, CHANNELS};

#[test]
fn buffer_of_a_small_render_has_four_floats_per_pixel() {
    assert_eq!(buffer_len(64, 36), Some(64 * 36 * 4));
    assert_eq!(buffer_len(64, 36), Some(9216));
    assert_eq!(CHANNELS, 4);
}

#[test]
fn empty_image_has_empty_buffer() {
    assert_eq!(buffer_len(0, 36), Some(0));
    assert_eq!(buffer_len(64, 0), Some(0));
}

#[test]
fn oversized_image_has_no_buffer() {
    assert_eq!(buffer_len(usize::MAX, 2), None);
    assert_eq!(buffer_len(usize::MAX / 4 + 1, 1), None);
    assert_eq!(buffer_len(usize::MAX / 4, 1), Some(usize::MAX / 4 * 4));
}

#[test]
fn pixel_offsets_are_row_major() {
    assert_eq!(pixel_offset(0, 0, 64, 36), 0);
    assert_eq!(pixel_offset(1, 0, 64, 36), 4);
    assert_eq!(pixel_offset(0, 1, 64, 36), 256);
    assert_eq!(pixel_offset(63, 35, 64, 36), 9212);
}

#[test]
fn pixel_index_reads_back_to_column_and_row() {
    assert_eq!(pixel_of_index(0, 64), (0, 0));
    assert_eq!(pixel_of_index(65, 64), (1, 1));
    assert_eq!(pixel_of_index(2303, 64), (63, 35));
    for idx in 0..64 * 36 {
        let (i, j) = pixel_of_index(idx, 64);
        assert_eq!(pixel_offset(i, j, 64, 36), idx * 4);
    }
}

#[test]
fn distinct_pixels_never_share_a_slot() {
    let (w, h) = (7, 5);
    let mut seen = vec![false; buffer_len(w, h).unwrap()];
    for j in 0..h {
        for i in 0..w {
            let o = pixel_offset(i, j, w, h);
            for k in o..o + 4 {
                assert!(!seen[k]);
                seen[k] = true;
            }
        }
    }
    assert!(seen.iter().all(|&s| s));
}
