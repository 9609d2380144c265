use posecam::counter::decode_counter;
use posecam::counter::encode_counter;
use posecam::counter::increment_counter;
use posecam::counter::increment_counter_times;
use posecam::counter::next_counter_bytes;
use posecam::memory::RustMemoryDriver;

#[test]
fn encode_and_decode_use_native_byte_order() {
    assert_eq!(encode_counter(0x0102_0304_0506_0708), 0x0102_0304_0506_0708u64.to_ne_bytes());
    assert_eq!(decode_counter(258u64.to_ne_bytes()), 258);
    assert_eq!(decode_counter(encode_counter(12345)), 12345);
}

#[test]
fn next_counter_bytes_adds_one() {
    assert_eq!(next_counter_bytes(41u64.to_ne_bytes()), 42u64.to_ne_bytes());
    assert_eq!(next_counter_bytes(255u64.to_ne_bytes()), 256u64.to_ne_bytes());
}

#[test]
fn increment_counter_adds_one_and_keeps_the_rest() {
    let mut driver = RustMemoryDriver::init();
    driver.write(&[0, 0, 0, 0, 0, 0, 0, 0, 77], 0);
    increment_counter(&mut driver);
    increment_counter(&mut driver);
    let mut out = [0u8; 9];
    driver.read(&mut out, 0);
    let mut counter = [0u8; 8];
    counter.copy_from_slice(&out[..8]);
    assert_eq!(u64::from_ne_bytes(counter), 2);
    assert_eq!(out[8], 77);
}

#[test]
fn ten_workers_of_a_thousand_increments() {
    let mut driver = RustMemoryDriver::init();
    driver.write(b"00000000", 0);
    for _ in 0..10 {
        increment_counter_times(&mut driver, 1000);
    }
    let mut buf64 = [0u8; 8];
    driver.read(&mut buf64, 0);
    assert_eq!(decode_counter(buf64), u64::from_ne_bytes(*b"00000000") + 10000);
}
