use posecam::color::yuyv_input_fits;
use posecam::color::clip;
use posecam::color::yuv422_to_rgb;

#[test]
fn clip_keeps_values_in_range() {
    assert_eq!(clip(0), 0);
    assert_eq!(clip(17), 17);
    assert_eq!(clip(255), 255);
}

#[test]
fn clip_clamps_out_of_range_values() {
    assert_eq!(clip(-1), 0);
    assert_eq!(clip(-70000), 0);
    assert_eq!(clip(256), 255);
    assert_eq!(clip(65390), 255);
}

#[test]
fn yuv_black_and_white_pair() {
    let rgb = yuv422_to_rgb(&[16, 128, 235, 128], 2, 1);
    assert_eq!(rgb, vec![0, 0, 0, 255, 255, 255]);
}

#[test]
fn yuv_saturated_colours() {
    let rgb = yuv422_to_rgb(&[81, 90, 240, 240, 145, 54, 34, 34], 4, 1);
    assert_eq!(rgb, vec![255, 0, 0, 255, 185, 184, 0, 255, 1, 0, 126, 0]);
}

#[test]
fn yuv_negative_intermediate_values_clip_to_zero() {
    let rgb = yuv422_to_rgb(&[50, 200, 60, 30], 2, 1);
    assert_eq!(rgb, vec![0, 91, 185, 0, 103, 196]);
}

#[test]
fn yuv_odd_width_leaves_last_column_black() {
    let rgb = yuv422_to_rgb(&[81, 90, 145, 240, 41, 240, 110, 110], 3, 2);
    assert_eq!(
        rgb,
        vec![255, 0, 0, 255, 74, 74, 0, 0, 0, 0, 0, 255, 81, 80, 255, 0, 0, 0]
    );
}

#[test]
fn yuv_empty_frame() {
    assert_eq!(yuv422_to_rgb(&[], 0, 0), Vec::<u8>::new());
    assert_eq!(yuv422_to_rgb(&[], 1, 3), vec![0u8; 9]);
}

#[test]
fn yuv_neutral_chroma_gives_gray() {
    let rgb = yuv422_to_rgb(&[100, 128, 200, 128], 2, 1);
    assert_eq!(rgb[0], rgb[1]);
    assert_eq!(rgb[1], rgb[2]);
    assert_eq!(rgb[3], rgb[4]);
    assert_eq!(rgb[4], rgb[5]);
}

#[test]
fn yuyv_input_fits_checks_the_last_group() {
    assert!(yuyv_input_fits(4, 2, 1));
    assert!(!yuyv_input_fits(3, 2, 1));
    assert!(yuyv_input_fits(8, 3, 2));
    assert!(!yuyv_input_fits(7, 3, 2));
    assert!(yuyv_input_fits(1280 * 720 * 2, 1280, 720));
    assert!(!yuyv_input_fits(1280 * 720 * 2 - 1, 1280, 720));
    assert!(yuyv_input_fits(0, 1, 5));
    assert!(!yuyv_input_fits(usize::MAX, usize::MAX, 2));
}

#[test]
fn yuv_pair_with_equal_luma_gives_equal_pixels() {
    let rgb = yuv422_to_rgb(&[90, 60, 90, 200, 30, 128, 30, 128], 4, 1);
    assert_eq!(rgb[0..3], rgb[3..6]);
    assert_eq!(rgb[6..9], rgb[9..12]);
}

#[test]
fn yuv_brighter_luma_never_darkens() {
    let dark = yuv422_to_rgb(&[60, 90, 70, 200], 2, 1);
    let bright = yuv422_to_rgb(&[61, 90, 70, 200], 2, 1);
    for k in 0..3 {
        assert!(dark[k] <= bright[k]);
    }
    assert_eq!(dark[3..6], bright[3..6]);
}

#[test]
fn yuv_larger_u_raises_blue_lowers_green() {
    let low = yuv422_to_rgb(&[120, 100, 120, 140], 2, 1);
    let high = yuv422_to_rgb(&[120, 150, 120, 140], 2, 1);
    assert_eq!(low[0], high[0]);
    assert!(low[1] >= high[1]);
    assert!(low[2] <= high[2]);
}

#[test]
fn yuv_larger_v_raises_red_lowers_green() {
    let low = yuv422_to_rgb(&[120, 100, 120, 100], 2, 1);
    let high = yuv422_to_rgb(&[120, 100, 120, 160], 2, 1);
    assert!(low[0] <= high[0]);
    assert!(low[1] >= high[1]);
    assert_eq!(low[2], high[2]);
}

#[test]
fn yuv_ignores_bytes_past_the_frame() {
    let a = yuv422_to_rgb(&[81, 90, 240, 240, 1, 2, 3], 2, 1);
    let b = yuv422_to_rgb(&[81, 90, 240, 240], 2, 1);
    assert_eq!(a, b);
    assert_eq!(yuv422_to_rgb(&[5, 6, 7], 0, 4), Vec::<u8>::new());
}
