use vstd::prelude::*;
use vstd::endian::Endian;
use vstd::endian::endianness;

verus! {

/// `256` raised to the power `count`: the number of values that `count`
/// bytes can hold.
pub open spec fn byte_range(count: nat) -> nat
    decreases count,
{
    if count == 0 {
        1
    } else {
        256 * byte_range((count - 1) as nat)
    }
}

/// Four bytes hold the values of a `u32`, eight those of a `u64`.
pub proof fn lemma_byte_range_of_words()
    ensures
        byte_range(4) == 0x1_0000_0000,
        byte_range(8) == 0x1_0000_0000_0000_0000,
{
    reveal_with_fuel(byte_range, 9);
}

/// The number whose little-endian bytes are `bytes` (least significant
/// byte first).
pub open spec fn le_value(bytes: Seq<u8>) -> nat
    decreases bytes.len(),
{
    if bytes.len() == 0 {
        0
    } else {
        bytes[0] as nat + 256 * le_value(bytes.drop_first())
    }
}

/// The `count` least significant bytes of `value`, least significant first.
pub open spec fn le_bytes(value: nat, count: nat) -> Seq<u8>
    decreases count,
{
    if count == 0 {
        Seq::empty()
    } else {
        seq![(value % 256) as u8] + le_bytes(value / 256, (count - 1) as nat)
    }
}

/// The number whose big-endian bytes are `bytes` (most significant byte
/// first).
pub open spec fn be_value(bytes: Seq<u8>) -> nat {
    le_value(bytes.reverse())
}

/// The `count` least significant bytes of `value`, most significant first.
pub open spec fn be_bytes(value: nat, count: nat) -> Seq<u8> {
    le_bytes(value, count).reverse()
}

/// The number that `bytes` hold in the byte order of the machine that runs
/// the code.
pub open spec fn ne_value(bytes: Seq<u8>) -> nat {
    match endianness() {
        Endian::Little => le_value(bytes),
        Endian::Big => be_value(bytes),
    }
}

/// The `count` bytes of `value` in the byte order of the machine that runs
/// the code.
pub open spec fn ne_bytes(value: nat, count: nat) -> Seq<u8> {
    match endianness() {
        Endian::Little => le_bytes(value, count),
        Endian::Big => be_bytes(value, count),
    }
}

/// A little-endian number of `bytes.len()` bytes is below `256` to that
/// power.
pub proof fn lemma_le_value_bound(bytes: Seq<u8>)
    ensures
        le_value(bytes) < byte_range(bytes.len()),
    decreases bytes.len(),
{
    if bytes.len() > 0 {
        lemma_le_value_bound(bytes.drop_first());
    }
}

/// Writing a value in `count` little-endian bytes and reading them back
/// gives the value, when it fits.
pub proof fn lemma_le_value_of_bytes(value: nat, count: nat)
    requires
        value < byte_range(count),
    ensures
        le_bytes(value, count).len() == count,
        le_value(le_bytes(value, count)) == value,
    decreases count,
{
    if count > 0 {
        let rest = le_bytes(value / 256, (count - 1) as nat);
        lemma_le_value_of_bytes(value / 256, (count - 1) as nat);
        let bytes = le_bytes(value, count);
        assert(bytes.drop_first() =~= rest);
    }
}

/// Reading little-endian bytes as a number and writing it back in as many
/// bytes gives the same bytes.
pub proof fn lemma_le_bytes_of_value(bytes: Seq<u8>)
    ensures
        le_bytes(le_value(bytes), bytes.len()) == bytes,
    decreases bytes.len(),
{
    if bytes.len() > 0 {
        let rest = bytes.drop_first();
        lemma_le_bytes_of_value(rest);
        let v = le_value(bytes);
        assert(v % 256 == bytes[0] as nat);
        assert(v / 256 == le_value(rest));
        assert(le_bytes(v, bytes.len()) =~= bytes);
    }
}

/// Writing a value in `count` big-endian bytes and reading them back gives
/// the value, when it fits.
pub proof fn lemma_be_value_of_bytes(value: nat, count: nat)
    requires
        value < byte_range(count),
    ensures
        be_bytes(value, count).len() == count,
        be_value(be_bytes(value, count)) == value,
{
    lemma_le_value_of_bytes(value, count);
    assert(be_bytes(value, count).reverse() =~= le_bytes(value, count));
}

/// Reading big-endian bytes as a number and writing it back in as many
/// bytes gives the same bytes.
pub proof fn lemma_be_bytes_of_value(bytes: Seq<u8>)
    ensures
        be_bytes(be_value(bytes), bytes.len()) == bytes,
{
    lemma_le_bytes_of_value(bytes.reverse());
    assert(le_bytes(le_value(bytes.reverse()), bytes.len()).reverse() =~= bytes);
}

/// A big-endian number of `bytes.len()` bytes is below `256` to that power.
pub proof fn lemma_be_value_bound(bytes: Seq<u8>)
    ensures
        be_value(bytes) < byte_range(bytes.len()),
{
    lemma_le_value_bound(bytes.reverse());
}

/// Writing a value in `count` bytes of the machine's byte order and reading
/// them back gives the value, when it fits.
pub proof fn lemma_ne_value_of_bytes(value: nat, count: nat)
    requires
        value < byte_range(count),
    ensures
        ne_bytes(value, count).len() == count,
        ne_value(ne_bytes(value, count)) == value,
{
    lemma_le_value_of_bytes(value, count);
    lemma_be_value_of_bytes(value, count);
}

/// Reading bytes in the machine's byte order as a number and writing it
/// back in as many bytes gives the same bytes.
pub proof fn lemma_ne_bytes_of_value(bytes: Seq<u8>)
    ensures
        ne_bytes(ne_value(bytes), bytes.len()) == bytes,
        ne_value(bytes) < byte_range(bytes.len()),
{
    lemma_le_bytes_of_value(bytes);
    lemma_be_bytes_of_value(bytes);
    lemma_le_value_bound(bytes);
    lemma_be_value_bound(bytes);
}

/// Four big-endian bytes hold `b0 * 2^24 + b1 * 2^16 + b2 * 2^8 + b3`.
pub proof fn lemma_be_value_of_four(bytes: Seq<u8>)
    requires
        bytes.len() == 4,
    ensures
        be_value(bytes) == bytes[0] as int * 16777216 + bytes[1] as int * 65536 + bytes[2] as int
            * 256 + bytes[3] as int,
{
    let r = bytes.reverse();
    reveal_with_fuel(le_value, 5);
    assert(r.drop_first() =~= seq![bytes[2], bytes[1], bytes[0]]);
    assert(r.drop_first().drop_first() =~= seq![bytes[1], bytes[0]]);
    assert(r.drop_first().drop_first().drop_first() =~= seq![bytes[0]]);
    assert(r.drop_first().drop_first().drop_first().drop_first() =~= Seq::<u8>::empty());
}

/// The four big-endian bytes of a value below `2^32` are its base-256
/// digits, most significant first.
pub proof fn lemma_be_bytes_of_four(value: nat)
    requires
        value < 0x1_0000_0000,
    ensures
        be_bytes(value, 4) == seq![
            (value / 16777216) as u8,
            ((value / 65536) % 256) as u8,
            ((value / 256) % 256) as u8,
            (value % 256) as u8,
        ],
{
    reveal_with_fuel(le_bytes, 5);
    assert(value / 256 / 256 == value / 65536);
    assert(value / 65536 / 256 == value / 16777216);
    assert(value / 16777216 < 256);
    assert(be_bytes(value, 4) =~= seq![
        (value / 16777216) as u8,
        ((value / 65536) % 256) as u8,
        ((value / 256) % 256) as u8,
        (value % 256) as u8,
    ]);
}

/// Eight little-endian bytes hold `sum of b_i * 256^i`.
pub proof fn lemma_le_value_of_eight(bytes: Seq<u8>)
    requires
        bytes.len() == 8,
    ensures
        le_value(bytes) == bytes[0] as int + bytes[1] as int * 0x100 + bytes[2] as int * 0x1_0000
            + bytes[3] as int * 0x100_0000 + bytes[4] as int * 0x1_0000_0000 + bytes[5] as int
            * 0x100_0000_0000 + bytes[6] as int * 0x1_0000_0000_0000 + bytes[7] as int
            * 0x100_0000_0000_0000,
{
    reveal_with_fuel(le_value, 9);
    assert(bytes.drop_first() =~= bytes.subrange(1, 8));
    assert(bytes.subrange(1, 8).drop_first() =~= bytes.subrange(2, 8));
    assert(bytes.subrange(2, 8).drop_first() =~= bytes.subrange(3, 8));
    assert(bytes.subrange(3, 8).drop_first() =~= bytes.subrange(4, 8));
    assert(bytes.subrange(4, 8).drop_first() =~= bytes.subrange(5, 8));
    assert(bytes.subrange(5, 8).drop_first() =~= bytes.subrange(6, 8));
    assert(bytes.subrange(6, 8).drop_first() =~= bytes.subrange(7, 8));
    assert(bytes.subrange(7, 8).drop_first() =~= Seq::<u8>::empty());
}

/// Eight big-endian bytes hold the same number as the eight bytes in
/// reverse order read little-endian.
pub proof fn lemma_be_value_of_eight(bytes: Seq<u8>)
    requires
        bytes.len() == 8,
    ensures
        be_value(bytes) == bytes[7] as int + bytes[6] as int * 0x100 + bytes[5] as int * 0x1_0000
            + bytes[4] as int * 0x100_0000 + bytes[3] as int * 0x1_0000_0000 + bytes[2] as int
            * 0x100_0000_0000 + bytes[1] as int * 0x1_0000_0000_0000 + bytes[0] as int
            * 0x100_0000_0000_0000,
{
    lemma_le_value_of_eight(bytes.reverse());
}

/// `u32::from_be_bytes`: the number that four bytes hold, most significant
/// byte first.
#[verifier::external_body]
pub(crate) fn u32_from_be_bytes(bytes: [u8; 4]) -> (value: u32)
    ensures
        value as nat == be_value(bytes@),
{
    u32::from_be_bytes(bytes)
}

/// `u32::to_be_bytes`: the four bytes of a number, most significant first.
#[verifier::external_body]
pub(crate) fn u32_to_be_bytes(value: u32) -> (bytes: [u8; 4])
    ensures
        bytes@ == be_bytes(value as nat, 4),
{
    value.to_be_bytes()
}

/// `u64::from_ne_bytes`: the number that eight bytes hold in the byte order
/// of the machine.
#[verifier::external_body]
pub(crate) fn u64_from_ne_bytes(bytes: [u8; 8]) -> (value: u64)
    ensures
        value as nat == ne_value(bytes@),
{
    u64::from_ne_bytes(bytes)
}

/// `u64::to_ne_bytes`: the eight bytes of a number in the byte order of the
/// machine.
#[verifier::external_body]
pub(crate) fn u64_to_ne_bytes(value: u64) -> (bytes: [u8; 8])
    ensures
        bytes@ == ne_bytes(value as nat, 8),
{
    value.to_ne_bytes()
}

} // verus!
