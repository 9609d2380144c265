use vstd::prelude::*;
use vstd::string::StringSliceAdditionalSpecFns;
use crate::memory::overwrite;
use crate::memory::transfer_count;
use crate::memory::RustMemoryDriver;
use crate::memory::BUFFER_SIZE;

verus! {

/// Number of timed repetitions of each measured operation.
pub const TRIALS: usize = 10;

/// Whether the key code returned by the window's key poll ends the capture
/// loop: any key pressed, where 255 stands for none.
pub fn is_exit_key(key: i32) -> (stop: bool)
    ensures
        stop == (key > 0 && key != 255),
{
    key > 0 && key != 255
}

/// Whether two byte strings are equal.
fn bytes_equal(a: &[u8], b: &[u8]) -> (equal: bool)
    ensures
        equal == (a@ == b@),
{
    if a.len() != b.len() {
        return false;
    }
    let mut k: usize = 0;
    while k < a.len()
        invariant
            a@.len() == b@.len(),
            k <= a@.len(),
            forall|j: int| 0 <= j < k ==> a@[j] == b@[j],
        decreases a@.len() - k,
    {
        if a[k] != b[k] {
            return false;
        }
        k += 1;
    }
    assert(a@ =~= b@);
    true
}

/// A device operation whose duration is measured.
pub enum Operation {
    Write,
    Read,
}

/// The operation that `name` names: `"write"` or `"read"`; any other name
/// names none.
pub fn operation_named(name: &str) -> (op: Option<Operation>)
    ensures
        op == Some(Operation::Write) <==> name.spec_bytes() == "write".spec_bytes(),
        op == Some(Operation::Read) <==> name.spec_bytes() == "read".spec_bytes(),
        op is None <==> name.spec_bytes() != "write".spec_bytes() && name.spec_bytes()
            != "read".spec_bytes(),
{
    proof {
        reveal_strlit("write");
        reveal_strlit("read");
        assert(vstd::string::is_ascii("write"));
        assert(vstd::string::is_ascii("read"));
        vstd::string::is_ascii_spec_bytes("write");
        vstd::string::is_ascii_spec_bytes("read");
        assert("write".spec_bytes().len() != "read".spec_bytes().len());
    }
    if bytes_equal(name.as_bytes(), "write".as_bytes()) {
        Some(Operation::Write)
    } else if bytes_equal(name.as_bytes(), "read".as_bytes()) {
        Some(Operation::Read)
    } else {
        None
    }
}

/// The buffer that a measurement of `size` moves: `size / 8` zero bytes.
pub fn measurement_buffer(size: usize) -> (buffer: Vec<u8>)
    ensures
        buffer@ == Seq::new((size / 8) as nat, |i: int| 0u8),
{
    let len = size / 8;
    let mut buffer: Vec<u8> = Vec::new();
    let mut k: usize = 0;
    while k < len
        invariant
            k <= len,
            buffer@ == Seq::new(k as nat, |i: int| 0u8),
        decreases len - k,
    {
        buffer.push(0u8);
        k += 1;
    }
    buffer
}

/// One timed step of a measurement: writes `buffer` to the device, or reads
/// the device into it, at offset zero, as `name` says; any other name does
/// nothing.
pub fn run_operation(driver: &mut RustMemoryDriver, name: &str, buffer: &mut [u8])
    ensures
        final(driver)@.len() == BUFFER_SIZE,
        name.spec_bytes() == "write".spec_bytes() ==> {
            &&& final(driver)@ == overwrite(
                old(driver)@,
                0,
                old(buffer)@.take(transfer_count(old(buffer)@.len() as int, 0)),
            )
            &&& final(buffer)@ == old(buffer)@
        },
        name.spec_bytes() == "read".spec_bytes() ==> {
            let count = transfer_count(old(buffer)@.len() as int, 0);
            &&& final(driver)@ == old(driver)@
            &&& final(buffer)@ == old(driver)@.take(count) + old(buffer)@.skip(count)
        },
        name.spec_bytes() != "write".spec_bytes() && name.spec_bytes() != "read".spec_bytes() ==> {
            &&& final(driver)@ == old(driver)@
            &&& final(buffer)@ == old(buffer)@
        },
{
    proof {
        use_type_invariant(&*driver);
        driver.lemma_len();
    }
    match operation_named(name) {
        Some(Operation::Write) => {
            driver.write(buffer, 0);
        },
        Some(Operation::Read) => {
            driver.read(buffer, 0);
        },
        None => {},
    }
}

/// The mean duration of `TRIALS` timed runs that took `total` nanoseconds
/// together, rounded towards zero.
pub fn average_nanos(total: i64) -> (mean: i64)
    ensures
        mean as int == (if total >= 0 {
            total as int / TRIALS as int
        } else {
            -((-total as int) / TRIALS as int)
        }),
{
    total / TRIALS as i64
}

/// The running record of one measurement: how many timed trials it has
/// taken, and their summed duration in nanoseconds.
pub struct Measurement {
    trials_done: usize,
    total_time: i64,
}

impl Measurement {
    /// Trials taken so far.
    pub closed spec fn trials(&self) -> nat {
        self.trials_done as nat
    }

    /// Summed duration of the trials taken so far.
    pub closed spec fn total(&self) -> int {
        self.total_time as int
    }

    /// A measurement with no trial taken.
    pub fn new() -> (m: Measurement)
        ensures
            m.trials() == 0,
            m.total() == 0,
    {
        Measurement { trials_done: 0, total_time: 0 }
    }

    /// Summed duration, in nanoseconds, of the trials taken so far.
    pub fn total_nanos(&self) -> (total: i64)
        ensures
            total == self.total(),
    {
        self.total_time
    }

    /// Whether the measurement has taken its `TRIALS` trials.
    pub fn is_done(&self) -> (done: bool)
        ensures
            done == (self.trials() >= TRIALS),
    {
        self.trials_done >= TRIALS
    }

    /// Records a trial whose clock read `start` before the operation and
    /// `end` after it.
    pub fn record(&mut self, start: i64, end: i64)
        requires
            old(self).trials() < TRIALS,
            i64::MIN <= end - start <= i64::MAX,
            i64::MIN <= old(self).total() + (end - start) <= i64::MAX,
        ensures
            final(self).trials() == old(self).trials() + 1,
            final(self).total() == old(self).total() + (end - start),
    {
        let elapsed_time = end - start;
        self.total_time = self.total_time + elapsed_time;
        self.trials_done = self.trials_done + 1;
    }

    /// The mean duration of the `TRIALS` trials, rounded towards zero, as
    /// `average_nanos` gives it of their sum.
    pub fn average(&self) -> (mean: i64)
        ensures
            mean as int == (if self.total() >= 0 {
                self.total() / TRIALS as int
            } else {
                -((-self.total()) / TRIALS as int)
            }),
    {
        average_nanos(self.total_time)
    }
}

} // verus!
