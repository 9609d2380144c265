use posecam::memory::RustMemoryDriver;
use posecam::memory::BUFFER_SIZE;

#[test]
fn new_device_reads_zeros() {
    let mut driver = RustMemoryDriver::init();
    let mut out = [7u8; 4];
    assert_eq!(driver.read(&mut out, 0), 4);
    assert_eq!(out, [0, 0, 0, 0]);
}

#[test]
fn read_after_write_returns_written_bytes() {
    let mut driver = RustMemoryDriver::init();
    assert_eq!(driver.write(&[1, 2, 3], 10), 3);
    let mut out = [0u8; 3];
    assert_eq!(driver.read(&mut out, 10), 3);
    assert_eq!(out, [1, 2, 3]);
}

#[test]
fn write_near_the_end_is_cut_short() {
    let mut driver = RustMemoryDriver::init();
    assert_eq!(driver.write(&[9, 8, 7, 6, 5], BUFFER_SIZE - 2), 2);
    let mut out = [1u8; 5];
    assert_eq!(driver.read(&mut out, BUFFER_SIZE - 3), 3);
    assert_eq!(out, [0, 9, 8, 1, 1]);
}

#[test]
fn transfers_at_the_end_move_nothing() {
    let mut driver = RustMemoryDriver::init();
    assert_eq!(driver.write(&[1, 2], BUFFER_SIZE), 0);
    let mut out = [5u8; 2];
    assert_eq!(driver.read(&mut out, BUFFER_SIZE), 0);
    assert_eq!(out, [5, 5]);
}

#[test]
fn write_leaves_neighbouring_bytes() {
    let mut driver = RustMemoryDriver::init();
    driver.write(&[1, 1, 1, 1], 0);
    driver.write(&[2, 2], 1);
    let mut out = [0u8; 4];
    driver.read(&mut out, 0);
    assert_eq!(out, [1, 2, 2, 1]);
}

#[test]
fn second_write_overrides_first() {
    let mut driver = RustMemoryDriver::init();
    driver.write(&[1, 2, 3], 5);
    driver.write(&[4, 5, 6], 5);
    let mut out = [0u8; 3];
    driver.read(&mut out, 5);
    assert_eq!(out, [4, 5, 6]);
}

#[test]
fn whole_storage_round_trip() {
    let mut driver = RustMemoryDriver::init();
    let data: Vec<u8> = (0..2000).map(|i| (i % 251) as u8).collect();
    assert_eq!(driver.write(&data, 0), BUFFER_SIZE);
    let mut out = vec![0u8; 2000];
    assert_eq!(driver.read(&mut out, 0), BUFFER_SIZE);
    assert_eq!(&out[..BUFFER_SIZE], &data[..BUFFER_SIZE]);
    assert!(out[BUFFER_SIZE..].iter().all(|b| *b == 0));
}

#[test]
fn read_into_empty_buffer() {
    let mut driver = RustMemoryDriver::init();
    let mut out: [u8; 0] = [];
    assert_eq!(driver.read(&mut out, 3), 0);
}
