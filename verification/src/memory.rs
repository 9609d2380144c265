use vstd::prelude::*;

verus! {

/// Size in bytes of the memory device's storage.
pub const BUFFER_SIZE: usize = 1024;

/// How many bytes a read or write of a `len`-byte buffer at `offset` moves:
/// the buffer's length, cut to what lies between `offset` and the end of the
/// storage.
pub open spec fn transfer_count(len: int, offset: int) -> int {
    let available = if offset < BUFFER_SIZE {
        BUFFER_SIZE - offset
    } else {
        0
    };
    if len < available {
        len
    } else {
        available
    }
}

/// `memory` with the bytes from `offset` on replaced by `bytes`.
pub open spec fn overwrite(memory: Seq<u8>, offset: int, bytes: Seq<u8>) -> Seq<u8> {
    memory.take(offset) + bytes + memory.skip(offset + bytes.len())
}

/// The fixed-size byte storage of the memory device.
pub struct MemoryBuffer {
    data: Vec<u8>,
}

impl View for MemoryBuffer {
    type V = Seq<u8>;

    closed spec fn view(&self) -> Seq<u8> {
        self.data@
    }
}

impl MemoryBuffer {
    /// The storage holds exactly `BUFFER_SIZE` bytes.
    pub closed spec fn wf(&self) -> bool {
        self.data@.len() == BUFFER_SIZE
    }

    /// Storage of `BUFFER_SIZE` zero bytes.
    pub fn new() -> (buffer: MemoryBuffer)
        ensures
            buffer.wf(),
            buffer@ == Seq::new(BUFFER_SIZE as nat, |i: int| 0u8),
    {
        let mut data: Vec<u8> = Vec::new();
        let mut n: usize = 0;
        while n < BUFFER_SIZE
            invariant
                n <= BUFFER_SIZE,
                data@ == Seq::new(n as nat, |i: int| 0u8),
            decreases BUFFER_SIZE - n,
        {
            data.push(0u8);
            n += 1;
        }
        MemoryBuffer { data }
    }
}

/// A memory device: reads and writes move bytes between callers' buffers and
/// the device's storage, at an offset. The storage lives in the device
/// value; users that must see one storage share one device.
pub struct RustMemoryDriver {
    memory: MemoryBuffer,
}

impl View for RustMemoryDriver {
    type V = Seq<u8>;

    closed spec fn view(&self) -> Seq<u8> {
        self.memory@
    }
}

impl RustMemoryDriver {
    /// The device's storage holds exactly `BUFFER_SIZE` bytes; every device
    /// keeps this invariant.
    #[verifier::type_invariant]
    pub closed spec fn wf(&self) -> bool {
        self.memory.wf()
    }

    /// The storage of a valid device is `BUFFER_SIZE` bytes long; every
    /// device is valid, as `use_type_invariant` shows of it.
    pub proof fn lemma_len(&self)
        requires
            self.wf(),
        ensures
            self@.len() == BUFFER_SIZE,
    {
    }

    /// A device whose storage holds `BUFFER_SIZE` zero bytes.
    pub fn init() -> (driver: RustMemoryDriver)
        ensures
            driver@ == Seq::new(BUFFER_SIZE as nat, |i: int| 0u8),
    {
        RustMemoryDriver { memory: MemoryBuffer::new() }
    }

    /// Reads data from the device's storage, starting at `offset`, into
    /// `outbuf`; returns how many bytes were copied. Bytes of `outbuf` past
    /// that count are left as they were.
    pub fn read(&mut self, outbuf: &mut [u8], offset: usize) -> (count: usize)
        requires
            offset <= BUFFER_SIZE,
        ensures
            final(self)@.len() == BUFFER_SIZE,
            final(self)@ == old(self)@,
            count == transfer_count(old(outbuf)@.len() as int, offset as int),
            offset + old(outbuf)@.len() <= BUFFER_SIZE ==> count == old(outbuf)@.len(),
            offset + old(outbuf)@.len() > BUFFER_SIZE ==> count == BUFFER_SIZE - offset,
            final(outbuf)@ == old(self)@.subrange(offset as int, offset + count) + old(
                outbuf,
            )@.skip(count as int),
    {
        proof {
            use_type_invariant(&*self);
        }
        let available = BUFFER_SIZE.saturating_sub(offset);
        let count = if outbuf.len() < available {
            outbuf.len()
        } else {
            available
        };
        let ghost before = outbuf@;
        let mut k: usize = 0;
        while k < count
            invariant
                self.memory.data@.len() == BUFFER_SIZE,
                offset <= BUFFER_SIZE,
                count <= BUFFER_SIZE - offset,
                count <= before.len(),
                k <= count,
                outbuf@.len() == before.len(),
                forall|j: int| 0 <= j < k ==> #[trigger] outbuf@[j] == self@[offset + j],
                forall|j: int| k <= j < before.len() ==> #[trigger] outbuf@[j] == before[j],
            decreases count - k,
        {
            outbuf[k] = self.memory.data[offset + k];
            k += 1;
        }
        assert(outbuf@ =~= self@.subrange(offset as int, offset + count) + before.skip(
            count as int,
        ));
        count
    }

    /// Writes data from `inbuf` into the device's storage, starting at
    /// `offset`; returns how many bytes were copied. Storage outside the
    /// written range is left as it was.
    pub fn write(&mut self, inbuf: &[u8], offset: usize) -> (count: usize)
        requires
            offset <= BUFFER_SIZE,
        ensures
            final(self)@.len() == BUFFER_SIZE,
            count == transfer_count(inbuf@.len() as int, offset as int),
            offset + inbuf@.len() <= BUFFER_SIZE ==> count == inbuf@.len(),
            offset + inbuf@.len() > BUFFER_SIZE ==> count == BUFFER_SIZE - offset,
            final(self)@ == overwrite(old(self)@, offset as int, inbuf@.take(count as int)),
    {
        proof {
            use_type_invariant(&*self);
        }
        let available = BUFFER_SIZE.saturating_sub(offset);
        let count = if inbuf.len() < available {
            inbuf.len()
        } else {
            available
        };
        let ghost before = self.memory.data@;
        let mut k: usize = 0;
        while k < count
            invariant
                self.wf(),
                before.len() == BUFFER_SIZE,
                offset <= BUFFER_SIZE,
                count <= BUFFER_SIZE - offset,
                count <= inbuf@.len(),
                k <= count,
                forall|j: int|
                    0 <= j < BUFFER_SIZE ==> #[trigger] self.memory.data@[j] == if offset <= j < offset + k {
                        inbuf@[j - offset]
                    } else {
                        before[j]
                    },
            decreases count - k,
        {
            self.memory.data[offset + k] = inbuf[k];
            k += 1;
        }
        assert(self.memory.data@ =~= overwrite(before, offset as int, inbuf@.take(count as int)));
        count
    }
}

/// Reading back, at the offset of a write and into a buffer as long as the
/// written one, gives the bytes that the write stored; the storage keeps its
/// size.
pub proof fn lemma_read_after_write(memory: Seq<u8>, offset: int, data: Seq<u8>)
    requires
        memory.len() == BUFFER_SIZE,
        0 <= offset <= BUFFER_SIZE,
    ensures
        ({
            let count = transfer_count(data.len() as int, offset);
            let written = overwrite(memory, offset, data.take(count));
            &&& written.len() == BUFFER_SIZE
            &&& written.subrange(offset, offset + count) == data.take(count)
        }),
{
    let count = transfer_count(data.len() as int, offset);
    let written = overwrite(memory, offset, data.take(count));
    assert(written.subrange(offset, offset + count) =~= data.take(count));
}

/// Storage outside the range that a write moves keeps its bytes.
pub proof fn lemma_write_keeps_other_bytes(memory: Seq<u8>, offset: int, data: Seq<u8>, j: int)
    requires
        memory.len() == BUFFER_SIZE,
        0 <= offset <= BUFFER_SIZE,
        0 <= j < BUFFER_SIZE,
        !(offset <= j < offset + transfer_count(data.len() as int, offset)),
    ensures
        overwrite(memory, offset, data.take(transfer_count(data.len() as int, offset)))[j]
            == memory[j],
{
}

/// A second write of as many bytes at the same offset replaces the first
/// entirely.
pub proof fn lemma_write_overrides_write(
    memory: Seq<u8>,
    offset: int,
    first: Seq<u8>,
    second: Seq<u8>,
)
    requires
        memory.len() == BUFFER_SIZE,
        0 <= offset <= BUFFER_SIZE,
        first.len() == second.len(),
    ensures
        ({
            let count = transfer_count(first.len() as int, offset);
            overwrite(overwrite(memory, offset, first.take(count)), offset, second.take(count))
                == overwrite(memory, offset, second.take(count))
        }),
{
    let count = transfer_count(first.len() as int, offset);
    assert(overwrite(overwrite(memory, offset, first.take(count)), offset, second.take(count))
        =~= overwrite(memory, offset, second.take(count)));
}

/// A transfer at an offset within the storage moves the whole buffer when
/// it fits between the offset and the end of the storage, and otherwise
/// exactly the bytes up to the end.
pub proof fn lemma_transfer_count_is_min(len: int, offset: int)
    requires
        0 <= len,
        0 <= offset <= BUFFER_SIZE,
    ensures
        offset + len <= BUFFER_SIZE ==> transfer_count(len, offset) == len,
        offset + len > BUFFER_SIZE ==> transfer_count(len, offset) == BUFFER_SIZE - offset,
{
}

} // verus!
