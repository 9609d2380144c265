use posecam::pixels::packed_input_fits;
use posecam::pixels::flatten_pixels;
use posecam::pixels::rgb_to_bgr_matrix;
use posecam::pixels::rgb_to_matrix;

fn sample() -> Vec<u8> {
    (1..=12).collect()
}

#[test]
fn rgb_to_matrix_keeps_channel_order() {
    let m = rgb_to_matrix(sample(), 2, 2);
    assert_eq!(
        m,
        vec![vec![(1, 2, 3), (4, 5, 6)], vec![(7, 8, 9), (10, 11, 12)]]
    );
}

#[test]
fn rgb_to_bgr_matrix_swaps_red_and_blue() {
    let m = rgb_to_bgr_matrix(sample(), 2, 2);
    assert_eq!(
        m,
        vec![vec![(3, 2, 1), (6, 5, 4)], vec![(9, 8, 7), (12, 11, 10)]]
    );
}

#[test]
fn rgb_to_matrix_ignores_trailing_bytes() {
    let mut buffer = sample();
    buffer.push(99);
    let m = rgb_to_matrix(buffer, 3, 1);
    assert_eq!(m, vec![vec![(1, 2, 3), (4, 5, 6), (7, 8, 9)]]);
}

#[test]
fn rgb_to_matrix_of_empty_rows() {
    let m = rgb_to_matrix(vec![], 0, 3);
    assert_eq!(m, vec![Vec::<(u8, u8, u8)>::new(); 3]);
}

#[test]
fn flatten_pixels_lays_rows_out_in_order() {
    let rows = vec![vec![(1, 2, 3)], vec![], vec![(4, 5, 6), (7, 8, 9)]];
    assert_eq!(flatten_pixels(&rows), vec![1, 2, 3, 4, 5, 6, 7, 8, 9]);
}

#[test]
fn flatten_of_matrix_gives_back_the_buffer() {
    let m = rgb_to_matrix(sample(), 2, 2);
    assert_eq!(flatten_pixels(&m), sample());
}

#[test]
fn flatten_of_bgr_matrix_swaps_every_pixel() {
    let m = rgb_to_bgr_matrix(sample(), 4, 1);
    assert_eq!(flatten_pixels(&m), vec![3, 2, 1, 6, 5, 4, 9, 8, 7, 12, 11, 10]);
}

#[test]
fn packed_input_fits_checks_the_size() {
    assert!(packed_input_fits(12, 2, 2));
    assert!(!packed_input_fits(11, 2, 2));
    assert!(packed_input_fits(0, 0, 9));
    assert!(!packed_input_fits(usize::MAX, usize::MAX, 2));
}
