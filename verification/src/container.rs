//! The split-stream container for image codecs.
//!
//! When one document is split between two codec configurations whose
//! outputs cannot simply be concatenated (image formats), the first
//! stream is prefixed with a fixed 11-byte signature, the big-endian
//! byte offset of the second stream, and the original image width and
//! height, so a reader can find and rejoin the two halves. Byte-level
//! codecs need no container: their self-delimited streams concatenate.
use vstd::prelude::*;

verus! {

/// The 11-byte signature that opens a split container.
pub open spec fn mix_signature() -> Seq<u8> {
    seq![137u8, 77u8, 73u8, 88u8, 80u8, 78u8, 71u8, 13u8, 10u8, 26u8, 10u8]
}

/// The eight big-endian bytes of v.
pub open spec fn be64(v: u64) -> Seq<u8> {
    seq![
        (((v >> 56) & 0xff) as u8),
        (((v >> 48) & 0xff) as u8),
        (((v >> 40) & 0xff) as u8),
        (((v >> 32) & 0xff) as u8),
        (((v >> 24) & 0xff) as u8),
        (((v >> 16) & 0xff) as u8),
        (((v >> 8) & 0xff) as u8),
        ((v & 0xff) as u8),
    ]
}

/// The four big-endian bytes of v.
pub open spec fn be32(v: u32) -> Seq<u8> {
    seq![
        (((v >> 24) & 0xff) as u8),
        (((v >> 16) & 0xff) as u8),
        (((v >> 8) & 0xff) as u8),
        ((v & 0xff) as u8),
    ]
}

/// The value whose big-endian bytes the eight entries are.
pub open spec fn u64_of_be(b: Seq<u8>) -> u64 {
    (((b[0] as u64) << 56) | ((b[1] as u64) << 48) | ((b[2] as u64) << 40) | ((b[3] as u64) << 32)
        | ((b[4] as u64) << 24) | ((b[5] as u64) << 16) | ((b[6] as u64) << 8) | (b[7] as u64))
}

/// The value whose big-endian bytes the four entries are.
pub open spec fn u32_of_be(b: Seq<u8>) -> u32 {
    (((b[0] as u32) << 24) | ((b[1] as u32) << 16) | ((b[2] as u32) << 8) | (b[3] as u32))
}

/// The whole 27-byte container head.
pub open spec fn header_spec(second_stream_offset: u64, width: u32, height: u32) -> Seq<u8> {
    mix_signature() + be64(second_stream_offset) + be32(width) + be32(height)
}

/// Writing a value big-endian and reading it back is the identity.
pub proof fn lemma_be64_roundtrip(v: u64)
    ensures
        u64_of_be(be64(v)) == v,
{
    assert(((((((v >> 56) & 0xff) as u8) as u64) << 56) | (((((v >> 48) & 0xff) as u8) as u64)
        << 48) | (((((v >> 40) & 0xff) as u8) as u64) << 40) | (((((v >> 32) & 0xff) as u8)
        as u64) << 32) | (((((v >> 24) & 0xff) as u8) as u64) << 24) | (((((v >> 16)
        & 0xff) as u8) as u64) << 16) | (((((v >> 8) & 0xff) as u8) as u64) << 8) | (((v
        & 0xff) as u8) as u64)) == v) by (bit_vector);
}

/// Writing a value big-endian and reading it back is the identity.
pub proof fn lemma_be32_roundtrip(v: u32)
    ensures
        u32_of_be(be32(v)) == v,
{
    assert(((((((v >> 24) & 0xff) as u8) as u32) << 24) | (((((v >> 16) & 0xff) as u8) as u32)
        << 16) | (((((v >> 8) & 0xff) as u8) as u32) << 8) | (((v & 0xff) as u8) as u32)) == v)
        by (bit_vector);
}

/// Low byte of a u64, exactly.
fn low_byte64(x: u64) -> (r: u8)
    ensures
        r == ((x & 0xff) as u8),
{
    proof {
        assert(x & 0xff < 256) by (bit_vector);
    }
    (x & 0xff) as u8
}

/// Low byte of a u32, exactly.
fn low_byte32(x: u32) -> (r: u8)
    ensures
        r == ((x & 0xff) as u8),
{
    proof {
        assert(x & 0xff < 256) by (bit_vector);
    }
    (x & 0xff) as u8
}

/// Build the 27-byte head that precedes the first compressed stream
/// of a split image output.
pub fn split_header(second_stream_offset: u64, width: u32, height: u32) -> (r: Vec<u8>)
    ensures
        r@ == header_spec(second_stream_offset, width, height),
        r@.len() == 27,
{
    let mut r: Vec<u8> = Vec::new();
    r.push(137u8);
    r.push(77u8);
    r.push(73u8);
    r.push(88u8);
    r.push(80u8);
    r.push(78u8);
    r.push(71u8);
    r.push(13u8);
    r.push(10u8);
    r.push(26u8);
    r.push(10u8);
    let o = second_stream_offset;
    r.push(low_byte64(o >> 56));
    r.push(low_byte64(o >> 48));
    r.push(low_byte64(o >> 40));
    r.push(low_byte64(o >> 32));
    r.push(low_byte64(o >> 24));
    r.push(low_byte64(o >> 16));
    r.push(low_byte64(o >> 8));
    r.push(low_byte64(o));
    proof {
        assert(o >> 0 == o) by (bit_vector);
    }
    r.push(low_byte32(width >> 24));
    r.push(low_byte32(width >> 16));
    r.push(low_byte32(width >> 8));
    r.push(low_byte32(width));
    r.push(low_byte32(height >> 24));
    r.push(low_byte32(height >> 16));
    r.push(low_byte32(height >> 8));
    r.push(low_byte32(height));
    proof {
        assert(r@ =~= header_spec(second_stream_offset, width, height));
    }
    r
}

/// Read a split container head back: the second stream's offset and
/// the original image dimensions. `None` exactly when the bytes are
/// too short or do not open with the signature.
pub fn parse_split_header(bytes: &Vec<u8>) -> (r: Option<(u64, u32, u32)>)
    ensures
        r is Some <==> (bytes@.len() >= 27 && bytes@.subrange(0, 11) == mix_signature()),
        r matches Some(t) ==> t.0 == u64_of_be(bytes@.subrange(11, 19)) && t.1 == u32_of_be(
            bytes@.subrange(19, 23),
        ) && t.2 == u32_of_be(bytes@.subrange(23, 27)),
{
    if bytes.len() < 27 {
        return None;
    }
    let sig: [u8; 11] = [137u8, 77u8, 73u8, 88u8, 80u8, 78u8, 71u8, 13u8, 10u8, 26u8, 10u8];
    let mut i: usize = 0;
    while i < 11
        invariant
            0 <= i <= 11,
            bytes@.len() >= 27,
            sig@ == mix_signature(),
            forall|j: int| 0 <= j < i ==> bytes@[j] == mix_signature()[j],
        decreases 11 - i,
    {
        if bytes[i] != sig[i] {
            proof {
                assert(bytes@.subrange(0, 11)[i as int] != mix_signature()[i as int]);
            }
            return None;
        }
        i += 1;
    }
    proof {
        assert(bytes@.subrange(0, 11) =~= mix_signature());
    }
    let o = ((bytes[11] as u64) << 56) | ((bytes[12] as u64) << 48) | ((bytes[13] as u64) << 40)
        | ((bytes[14] as u64) << 32) | ((bytes[15] as u64) << 24) | ((bytes[16] as u64) << 16) | ((
    bytes[17] as u64) << 8) | (bytes[18] as u64);
    let w = ((bytes[19] as u32) << 24) | ((bytes[20] as u32) << 16) | ((bytes[21] as u32) << 8) | (
    bytes[22] as u32);
    let h = ((bytes[23] as u32) << 24) | ((bytes[24] as u32) << 16) | ((bytes[25] as u32) << 8) | (
    bytes[26] as u32);
    proof {
        assert(bytes@.subrange(11, 19)[0] == bytes@[11]);
        assert(o == u64_of_be(bytes@.subrange(11, 19)));
        assert(w == u32_of_be(bytes@.subrange(19, 23)));
        assert(h == u32_of_be(bytes@.subrange(23, 27)));
    }
    Some((o, w, h))
}

} // verus!
