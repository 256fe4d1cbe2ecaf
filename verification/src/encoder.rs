use vstd::prelude::*;
use crate::checksum::crc32_cksum;
use crate::error::StegoError;
use crate::framing::{framed, FramedStream};
use crate::geometry::{lemma_buffer_len, validate, ImageGeometry};
use crate::samples::{
    bit_from_top, carries_bit, embed_bits, embedded, embedded_bits, lemma_msb_bit_range,
    sample_index, sample_position, set_lsb, stream_bit,
};

verus! {

/// What embedding a payload reports.
#[derive(Clone, Copy, Debug, PartialEq, Eq, Structural)]
pub struct EncodeReport {
    /// The CRC-32/CKSUM checksum of the payload.
    pub checksum: u32,
    /// The number of framed bytes that went into the carrier: the payload's
    /// length and twelve.
    pub embedded_bytes: usize,
}

/// Embedding changes nothing but the least-significant bit of the bytes that
/// carry a sample's bit: the other bytes, and the upper seven bits of every
/// byte, stay as they were.
pub proof fn lemma_embedding_touches_low_bits_only(
    samples: Seq<u8>,
    geometry: ImageGeometry,
    stream: Seq<u8>,
    n: int,
)
    ensures
        embed_bits(samples, geometry, stream, n).len() == samples.len(),
        forall|i: int|
            0 <= i < samples.len() && !carries_bit(geometry, i) ==> #[trigger] embed_bits(
                samples,
                geometry,
                stream,
                n,
            )[i] == samples[i],
        forall|i: int|
            0 <= i < samples.len() ==> #[trigger] embed_bits(samples, geometry, stream, n)[i] & 0xFE
                == samples[i] & 0xFE,
{
    let after: Seq<u8> = embed_bits(samples, geometry, stream, n);
    assert forall|i: int| 0 <= i < samples.len() implies #[trigger] after[i] & 0xFE == samples[i]
        & 0xFE by {
        let bit: u8 = stream_bit(stream, sample_index(geometry, i));
        let sample: u8 = samples[i];
        lemma_msb_bit_range(stream[sample_index(geometry, i) / 8], sample_index(geometry, i) % 8);
        assert(((sample & 0xFE) | bit) & 0xFE == sample & 0xFE) by (bit_vector)
            requires
                bit <= 1,
        ;
    }
}

/// Writes the bytes that `stream` still holds into the least-significant bits
/// of the samples, one bit per sample in buffer order, the most significant
/// bit of each byte first.
///
/// Embedding ends when the stream is exhausted or the samples are; samples
/// that were not reached keep their values. The result is the number of
/// bytes of which all eight bits went into the carrier.
pub fn embed(
    samples: &mut Vec<u8>,
    geometry: &ImageGeometry,
    stream: &mut FramedStream,
) -> (complete: usize)
    requires
        geometry.wf(),
        geometry.buffer_len() <= old(samples)@.len(),
        old(stream).wf(),
    ensures
        final(samples)@ == embedded(old(samples)@, *geometry, old(stream).remaining()),
        final(samples)@.len() == old(samples)@.len(),
        complete == embedded_bits(*geometry, old(stream).remaining()) / 8,
        final(stream).wf(),
        final(stream).payload() == old(stream).payload(),
        final(stream).consumed() == old(stream).consumed() + (embedded_bits(
            *geometry,
            old(stream).remaining(),
        ) + 7) / 8,
{
    let len: usize = samples.len();
    proof {
        lemma_buffer_len(*geometry);
    }
    let count: usize = geometry.count_samples() as usize;
    let ghost before: Seq<u8> = samples@;
    let ghost source: Seq<u8> = stream.remaining();
    let ghost consumed: nat = stream.consumed();
    let mut k: usize = 0;
    let mut current: u8 = 0;
    assert(samples@ =~= embed_bits(before, *geometry, source, 0));
    while k < count
        invariant_except_break
            k % 8 != 0 ==> current == source[k as int / 8],
        invariant
            geometry.wf(),
            geometry.buffer_len() <= samples@.len() == len,
            before.len() == len,
            count == geometry.sample_count(),
            k <= count,
            k <= 8 * source.len(),
            samples@ == embed_bits(before, *geometry, source, k as int),
            stream.wf(),
            stream.payload() == old(stream).payload(),
            source == old(stream).remaining(),
            consumed == old(stream).consumed(),
            stream.consumed() == consumed + (k + 7) / 8,
        ensures
            k == embedded_bits(*geometry, source),
        decreases count - k,
    {
        let i: u8 = (k % 8) as u8;
        if i == 0 {
            assert(stream.remaining() =~= source.skip(k as int / 8));
            let next: Option<u8> = stream.next_byte();
            match next {
                Some(byte) => {
                    current = byte;
                },
                None => {
                    break ;
                },
            }
        }
        let bit: u8 = bit_from_top(current, i);
        assert(bit == stream_bit(source, k as int));
        let at: usize = sample_position(geometry, k);
        let sample: u8 = samples[at];
        samples.set(at, set_lsb(sample, bit));
        k = k + 1;
        assert(samples@ =~= embed_bits(before, *geometry, source, k as int));
    }
    k / 8
}

/// The carrier buffer after a payload has been hidden in it.
pub open spec fn encoded(samples: Seq<u8>, geometry: ImageGeometry, payload: Seq<u8>) -> Seq<u8> {
    embedded(samples, geometry, framed(payload))
}

/// Hides `payload` in the least-significant bits of the carrier's samples.
///
/// The payload is framed by the start marker, the end marker and its
/// checksum. Where payload and framing do not fit, nothing is written.
pub fn encode(
    samples: &mut Vec<u8>,
    geometry: &ImageGeometry,
    payload: &[u8],
) -> (r: Result<EncodeReport, StegoError>)
    requires
        geometry.wf(),
        geometry.buffer_len() <= old(samples)@.len(),
    ensures
        geometry.fits(payload@.len()) ==> final(samples)@ == encoded(
            old(samples)@,
            *geometry,
            payload@,
        ),
        geometry.fits(payload@.len()) ==> (r matches Ok(report) && report.checksum == crc32_cksum(
            payload@,
        ) && report.embedded_bytes == payload@.len() + 12),
        !geometry.fits(payload@.len()) ==> r == Err::<EncodeReport, StegoError>(
            StegoError::CapacityExceeded,
        ) && final(samples)@ == old(samples)@,
        final(samples)@.len() == old(samples)@.len(),
        forall|i: int|
            0 <= i < old(samples)@.len() && !carries_bit(*geometry, i) ==> final(samples)@[i] == old(
                samples,
            )@[i],
        geometry.bit_depth == 16 ==> forall|i: int|
            0 <= i < old(samples)@.len() && i % 2 == 0 ==> final(samples)@[i] == old(samples)@[i],
        forall|i: int|
            0 <= i < old(samples)@.len() ==> #[trigger] final(samples)@[i] & 0xFE == old(samples)@[i]
                & 0xFE,
{
    let len: usize = samples.len();
    proof {
        lemma_buffer_len(*geometry);
    }
    match validate(payload.len() as u64, geometry) {
        Err(e) => Err(e),
        Ok(_) => {
            let mut stream: FramedStream = FramedStream::new(payload);
            let sum: u32 = stream.checksum();
            proof {
                lemma_embedding_touches_low_bits_only(
                    samples@,
                    *geometry,
                    framed(payload@),
                    embedded_bits(*geometry, framed(payload@)) as int,
                );
            }
            let complete: usize = embed(samples, geometry, &mut stream);
            Ok(EncodeReport { checksum: sum, embedded_bytes: complete })
        },
    }
}

} // verus!
