use posecam::control::average_nanos;
use posecam::control::is_exit_key;
use posecam::control::Measurement;
use posecam::control::TRIALS;
use posecam::control::measurement_buffer;
use posecam::control::operation_named;
use posecam::control::run_operation;
use posecam::control::Operation;
use posecam::memory::RustMemoryDriver;

#[test]
fn exit_keys() {
    assert!(!is_exit_key(-1));
    assert!(!is_exit_key(0));
    assert!(!is_exit_key(255));
    assert!(is_exit_key(27));
    assert!(is_exit_key(113));
    assert!(is_exit_key(256));
}

#[test]
fn operation_names() {
    assert!(matches!(operation_named("write"), Some(Operation::Write)));
    assert!(matches!(operation_named("read"), Some(Operation::Read)));
    assert!(operation_named("Write").is_none());
    assert!(operation_named("").is_none());
    assert!(operation_named("reads").is_none());
}

#[test]
fn measurement_buffer_is_an_eighth_of_the_size() {
    assert_eq!(measurement_buffer(64), vec![0u8; 8]);
    assert_eq!(measurement_buffer(1), Vec::<u8>::new());
    assert_eq!(measurement_buffer(65536).len(), 8192);
}

#[test]
fn run_operation_dispatches_by_name() {
    let mut driver = RustMemoryDriver::init();
    let mut data = [4u8, 5, 6];
    run_operation(&mut driver, "write", &mut data);
    let mut out = [0u8; 3];
    run_operation(&mut driver, "read", &mut out);
    assert_eq!(out, [4, 5, 6]);
    let mut other = [9u8; 3];
    run_operation(&mut driver, "erase", &mut other);
    assert_eq!(other, [9, 9, 9]);
    run_operation(&mut driver, "read", &mut other);
    assert_eq!(other, [4, 5, 6]);
}

#[test]
fn average_rounds_towards_zero() {
    assert_eq!(average_nanos(105), 10);
    assert_eq!(average_nanos(0), 0);
    assert_eq!(average_nanos(-15), -1);
    assert_eq!(average_nanos(-20), -2);
}

#[test]
fn measurement_takes_ten_trials_and_averages() {
    let mut m = Measurement::new();
    let mut taken = 0;
    while !m.is_done() {
        m.record(100, 100 + 7 + taken as i64);
        taken += 1;
    }
    assert_eq!(taken, TRIALS);
    assert_eq!(m.total_nanos(), 70 + 45);
    assert_eq!(m.average(), 11);
}

#[test]
fn measurement_with_clock_wrapping_backwards() {
    let mut m = Measurement::new();
    m.record(999_999_990, 5);
    assert_eq!(m.total_nanos(), -999_999_985);
    assert!(!m.is_done());
    assert_eq!(m.average(), -99_999_998);
}
