use posecam::frame::build_response;
use posecam::frame::decode_length_header;
use posecam::frame::encode_length_header;
use posecam::frame::split_response;

#[test]
fn header_is_big_endian_u32() {
    assert_eq!(encode_length_header(1_843_200), [0x00, 0x1c, 0x20, 0x00]);
    assert_eq!(encode_length_header(0), [0, 0, 0, 0]);
    assert_eq!(decode_length_header([0, 0, 1, 0]), 256);
    assert_eq!(decode_length_header([0x12, 0x34, 0x56, 0x78]), 0x1234_5678);
}

#[test]
fn header_round_trip() {
    for len in [0usize, 1, 255, 256, 65_536, 2_764_800, u32::MAX as usize] {
        assert_eq!(decode_length_header(encode_length_header(len)), len);
    }
}

#[test]
fn header_of_oversized_length_wraps() {
    if usize::BITS > 32 {
        let len = (1usize << 32) + 5;
        assert_eq!(encode_length_header(len), [0, 0, 0, 5]);
    }
}

#[test]
fn response_is_header_results_image() {
    let response = build_response(&[1, 2], &[3]);
    assert_eq!(response, vec![0, 0, 0, 3, 1, 2, 3]);
}

#[test]
fn response_round_trip() {
    let results: Vec<u8> = vec![8, 0, 0, 0, 0, 0, 0, 0, 9, 9];
    let image: Vec<u8> = (0..30).collect();
    let response = build_response(&results, &image);
    let mut header = [0u8; 4];
    header.copy_from_slice(&response[..4]);
    let body = &response[4..];
    assert_eq!(decode_length_header(header), body.len());
    let (r, i) = split_response(body, results.len());
    assert_eq!(r, results);
    assert_eq!(i, image);
}

#[test]
fn split_response_at_the_ends() {
    let (r, i) = split_response(&[1, 2, 3], 0);
    assert_eq!(r, Vec::<u8>::new());
    assert_eq!(i, vec![1, 2, 3]);
    let (r, i) = split_response(&[1, 2, 3], 3);
    assert_eq!(r, vec![1, 2, 3]);
    assert_eq!(i, Vec::<u8>::new());
}
