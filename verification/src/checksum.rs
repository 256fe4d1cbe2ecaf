use vstd::prelude::*;

verus! {

/// The CRC-32/CKSUM checksum of a byte sequence, as the `crc` crate computes it:
/// polynomial 0x04C11DB7, initial value 0, no reflection of input or output,
/// final XOR with 0xFFFFFFFF.
pub uninterp spec fn crc32_cksum(data: Seq<u8>) -> u32;

/// Computes the CRC-32/CKSUM checksum of `data`.
///
/// Trusted: calls `crc::Crc::<u32>::checksum` with the catalogue algorithm
/// `CRC_32_CKSUM`. The contract claims only that the result is a function of
/// the bytes, which it names `crc32_cksum`.
#[verifier::external_body]
pub(crate) fn crc32_cksum_of(data: &[u8]) -> (sum: u32)
    ensures
        sum == crc32_cksum(data@),
{
    crc::Crc::<u32>::new(&crc::CRC_32_CKSUM).checksum(data)
}

/// Computes the CRC-32/CKSUM checksum of a payload.
pub fn checksum(payload: &[u8]) -> (sum: u32)
    ensures
        sum == crc32_cksum(payload@),
{
    crc32_cksum_of(payload)
}

/// Byte `i` of `value` in big-endian order: byte 0 is the most significant.
pub open spec fn spec_be_byte(value: u32, i: int) -> u8 {
    if i == 0 {
        (value >> 24) as u8
    } else if i == 1 {
        ((value >> 16) & 0xFF) as u8
    } else if i == 2 {
        ((value >> 8) & 0xFF) as u8
    } else {
        (value & 0xFF) as u8
    }
}

/// The four bytes of `value`, most significant first.
pub open spec fn be_bytes(value: u32) -> Seq<u8> {
    seq![
        spec_be_byte(value, 0),
        spec_be_byte(value, 1),
        spec_be_byte(value, 2),
        spec_be_byte(value, 3),
    ]
}

/// Byte `i` of `value` in big-endian order.
pub fn be_byte(value: u32, i: usize) -> (b: u8)
    requires
        i < 4,
    ensures
        b == spec_be_byte(value, i as int),
        b == be_bytes(value)[i as int],
{
    if i == 0 {
        assert((value >> 24) <= 0xFF) by (bit_vector);
        (value >> 24) as u8
    } else if i == 1 {
        assert((value >> 16) & 0xFF <= 0xFF) by (bit_vector);
        ((value >> 16) & 0xFF) as u8
    } else if i == 2 {
        assert((value >> 8) & 0xFF <= 0xFF) by (bit_vector);
        ((value >> 8) & 0xFF) as u8
    } else {
        assert(value & 0xFF <= 0xFF) by (bit_vector);
        (value & 0xFF) as u8
    }
}

/// One step of reading a big-endian value: the bytes so far move up, the new
/// byte comes in at the bottom.
pub open spec fn spec_push_byte(value: u32, byte: u8) -> u32 {
    (value << 8) | (byte as u32)
}

/// Appends `byte` to a big-endian value read so far.
pub fn push_byte(value: u32, byte: u8) -> (r: u32)
    ensures
        r == spec_push_byte(value, byte),
{
    (value << 8) | (byte as u32)
}

/// Reading the four big-endian bytes of a value, whatever was read before,
/// gives the value back.
pub proof fn lemma_be_bytes_read_back(before: u32, value: u32)
    ensures
        ({
            let one: u32 = spec_push_byte(before, spec_be_byte(value, 0));
            let two: u32 = spec_push_byte(one, spec_be_byte(value, 1));
            let three: u32 = spec_push_byte(two, spec_be_byte(value, 2));
            spec_push_byte(three, spec_be_byte(value, 3)) == value
        }),
{
    let b0: u8 = (value >> 24) as u8;
    let b1: u8 = ((value >> 16) & 0xFF) as u8;
    let b2: u8 = ((value >> 8) & 0xFF) as u8;
    let b3: u8 = (value & 0xFF) as u8;
    let one: u32 = (before << 8) | (b0 as u32);
    let two: u32 = (one << 8) | (b1 as u32);
    let three: u32 = (two << 8) | (b2 as u32);
    assert((three << 8) | (b3 as u32) == value) by (bit_vector)
        requires
            b0 == (value >> 24) as u8,
            b1 == ((value >> 16) & 0xFF) as u8,
            b2 == ((value >> 8) & 0xFF) as u8,
            b3 == (value & 0xFF) as u8,
            one == (before << 8) | (b0 as u32),
            two == (one << 8) | (b1 as u32),
            three == (two << 8) | (b2 as u32),
    ;
}

} // verus!
