use vstd::prelude::*;
use crate::byte_order::be_bytes;
use crate::byte_order::be_value;
use crate::byte_order::lemma_be_value_of_bytes;
use crate::byte_order::lemma_byte_range_of_words;
use crate::byte_order::u32_from_be_bytes;
use crate::byte_order::u32_to_be_bytes;

verus! {

/// Length of the header that precedes every message between camera client
/// and inference server: the message length as a big-endian `u32`.
pub const HEADER_LEN: usize = 4;

/// The header announcing a message of `len` bytes: `len` cut to 32 bits,
/// most significant byte first.
pub open spec fn length_header(len: int) -> Seq<u8> {
    be_bytes((len as u32) as nat, 4)
}

/// The bytes that the server sends back for one frame: a header with the
/// combined length, then the encoded inference results, then the image.
pub open spec fn response_bytes(results: Seq<u8>, image: Seq<u8>) -> Seq<u8> {
    length_header((results.len() + image.len()) as int) + results + image
}

/// Encodes the header that announces a message of `len` bytes.
pub fn encode_length_header(len: usize) -> (header: [u8; 4])
    ensures
        header@ == length_header(len as int),
{
    u32_to_be_bytes(len as u32)
}

/// Decodes a received header: the length of the message that follows.
pub fn decode_length_header(header: [u8; 4]) -> (len: usize)
    ensures
        len as nat == be_value(header@),
{
    u32_from_be_bytes(header) as usize
}

/// The server's reply to one frame: the header announcing
/// `results.len() + image.len()` bytes, the encoded results, the image.
pub fn build_response(results: &[u8], image: &[u8]) -> (response: Vec<u8>)
    requires
        results@.len() + image@.len() <= usize::MAX,
    ensures
        response@ == response_bytes(results@, image@),
{
    let total_length = results.len() + image.len();
    let header = encode_length_header(total_length);
    let mut response: Vec<u8> = Vec::new();
    let mut k: usize = 0;
    while k < HEADER_LEN
        invariant
            k <= HEADER_LEN,
            header@.len() == 4,
            response@ == header@.take(k as int),
        decreases HEADER_LEN - k,
    {
        response.push(header[k]);
        k += 1;
        assert(response@ =~= header@.take(k as int));
    }
    assert(header@.take(4) =~= header@);
    append_bytes(&mut response, results);
    append_bytes(&mut response, image);
    response
}

/// Appends `bytes` to `out`.
fn append_bytes(out: &mut Vec<u8>, bytes: &[u8])
    ensures
        final(out)@ == old(out)@ + bytes@,
{
    let mut k: usize = 0;
    while k < bytes.len()
        invariant
            k <= bytes@.len(),
            out@ == old(out)@ + bytes@.take(k as int),
        decreases bytes@.len() - k,
    {
        out.push(bytes[k]);
        k += 1;
        assert(out@ =~= old(out)@ + bytes@.take(k as int));
    }
    assert(bytes@.take(k as int) =~= bytes@);
}

/// Splits a received reply body into the encoded results, its first
/// `result_size` bytes, and the image that follows them.
pub fn split_response(received: &[u8], result_size: usize) -> (parts: (Vec<u8>, Vec<u8>))
    requires
        result_size <= received@.len(),
    ensures
        parts.0@ == received@.take(result_size as int),
        parts.1@ == received@.skip(result_size as int),
{
    let mut results: Vec<u8> = Vec::new();
    let mut image: Vec<u8> = Vec::new();
    let mut k: usize = 0;
    while k < received.len()
        invariant
            result_size <= received@.len(),
            k <= received@.len(),
            k <= result_size ==> results@ == received@.take(k as int) && image@.len() == 0,
            k > result_size ==> results@ == received@.take(result_size as int) && image@
                == received@.subrange(result_size as int, k as int),
        decreases received@.len() - k,
    {
        if k < result_size {
            results.push(received[k]);
        } else {
            image.push(received[k]);
        }
        k += 1;
        assert(k <= result_size ==> results@ =~= received@.take(k as int));
        assert(k > result_size ==> image@ =~= received@.subrange(result_size as int, k as int));
    }
    assert(received@.subrange(result_size as int, k as int) =~= received@.skip(result_size as int));
    assert(k == result_size ==> image@ =~= received@.skip(result_size as int));
    (results, image)
}

/// A header decodes to the length it was encoded from, when that length
/// fits in 32 bits.
pub proof fn lemma_header_roundtrip(len: int)
    requires
        0 <= len <= u32::MAX,
    ensures
        length_header(len).len() == HEADER_LEN,
        be_value(length_header(len)) == len,
{
    lemma_byte_range_of_words();
    lemma_be_value_of_bytes((len as u32) as nat, 4);
}

/// A client reading a server reply finds, in its header, the length of the
/// rest, and splitting that rest at the size of the results gives back the
/// results and the image, when the reply's length fits in 32 bits.
pub proof fn lemma_response_roundtrip(results: Seq<u8>, image: Seq<u8>)
    requires
        results.len() + image.len() <= u32::MAX,
    ensures
        ({
            let response = response_bytes(results, image);
            let body = response.skip(HEADER_LEN as int);
            &&& be_value(response.take(HEADER_LEN as int)) == body.len()
            &&& body.take(results.len() as int) == results
            &&& body.skip(results.len() as int) == image
        }),
{
    lemma_header_roundtrip((results.len() + image.len()) as int);
    let response = response_bytes(results, image);
    let header = length_header((results.len() + image.len()) as int);
    assert(response.take(HEADER_LEN as int) =~= header);
    assert(response.skip(HEADER_LEN as int) =~= results + image);
    assert((results + image).take(results.len() as int) =~= results);
    assert((results + image).skip(results.len() as int) =~= image);
}

} // verus!
