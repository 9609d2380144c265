use vstd::prelude::*;
use crate::byte_order::lemma_byte_range_of_words;
use crate::byte_order::lemma_ne_value_of_bytes;
use crate::byte_order::ne_bytes;
use crate::byte_order::ne_value;
use crate::byte_order::u64_from_ne_bytes;
use crate::byte_order::u64_to_ne_bytes;
use crate::memory::overwrite;
use crate::memory::RustMemoryDriver;
use crate::memory::BUFFER_SIZE;

verus! {

/// The shared counter: the number held, in the machine's byte order, by the
/// first eight bytes of the device's storage.
pub open spec fn counter_value(memory: Seq<u8>) -> nat {
    ne_value(memory.take(8))
}

/// The number that eight counter bytes hold, in the machine's byte order.
pub fn decode_counter(bytes: [u8; 8]) -> (value: u64)
    ensures
        value as nat == ne_value(bytes@),
{
    u64_from_ne_bytes(bytes)
}

/// The eight bytes, in the machine's byte order, that hold `value`.
pub fn encode_counter(value: u64) -> (bytes: [u8; 8])
    ensures
        bytes@ == ne_bytes(value as nat, 8),
        ne_value(bytes@) == value,
{
    let bytes = u64_to_ne_bytes(value);
    proof {
        lemma_byte_range_of_words();
        lemma_ne_value_of_bytes(value as nat, 8);
    }
    bytes
}

/// The counter bytes that follow `bytes`: the number they hold, plus one.
pub fn next_counter_bytes(bytes: [u8; 8]) -> (next: [u8; 8])
    requires
        ne_value(bytes@) < u64::MAX,
    ensures
        next@ == ne_bytes(ne_value(bytes@) + 1, 8),
        ne_value(next@) == ne_value(bytes@) + 1,
{
    let mut value = decode_counter(bytes);
    value += 1;
    encode_counter(value)
}

/// Adds one to the device's counter: reads its eight bytes at offset zero,
/// and writes back the bytes of the number they hold plus one. The rest of
/// the storage is left as it was.
pub fn increment_counter(driver: &mut RustMemoryDriver)
    requires
        counter_value(old(driver)@) < u64::MAX,
    ensures
        final(driver)@.len() == BUFFER_SIZE,
        final(driver)@ == overwrite(
            old(driver)@,
            0,
            ne_bytes(counter_value(old(driver)@) + 1, 8),
        ),
        counter_value(final(driver)@) == counter_value(old(driver)@) + 1,
        final(driver)@.skip(8) == old(driver)@.skip(8),
{
    proof {
        lemma_byte_range_of_words();
        use_type_invariant(&*driver);
        driver.lemma_len();
    }
    let mut buf_64: [u8; 8] = [0u8; 8];
    driver.read(&mut buf_64, 0);
    assert(buf_64@ =~= old(driver)@.take(8));
    buf_64 = next_counter_bytes(buf_64);
    driver.write(&buf_64, 0);
    proof {
        lemma_ne_value_of_bytes(counter_value(old(driver)@) + 1, 8);
        assert(buf_64@.take(8) =~= buf_64@);
        assert(driver@.take(8) =~= buf_64@);
        assert(driver@.skip(8) =~= old(driver)@.skip(8));
    }
}

/// Adds one to the device's counter `n` times, as one worker of a
/// concurrent counting test does; bytes past the counter keep their value.
pub fn increment_counter_times(driver: &mut RustMemoryDriver, n: usize)
    requires
        counter_value(old(driver)@) + n <= u64::MAX,
    ensures
        final(driver)@.len() == BUFFER_SIZE,
        counter_value(final(driver)@) == counter_value(old(driver)@) + n,
        final(driver)@.skip(8) == old(driver)@.skip(8),
{
    proof {
        use_type_invariant(&*driver);
        driver.lemma_len();
    }
    let ghost start = driver@;
    let mut i: usize = 0;
    while i < n
        invariant
            driver@.len() == BUFFER_SIZE,
            start.len() == BUFFER_SIZE,
            i <= n,
            counter_value(start) + n <= u64::MAX,
            counter_value(driver@) == counter_value(start) + i,
            driver@.skip(8) == start.skip(8),
        decreases n - i,
    {
        increment_counter(driver);
        i += 1;
    }
}

} // verus!
