use vstd::prelude::*;
use crate::geometry::ImageGeometry;

verus! {

/// A sample byte with its least-significant bit replaced by `bit`.
pub open spec fn spec_set_lsb(sample: u8, bit: u8) -> u8 {
    (sample & 0xFE) | bit
}

/// The least-significant bit of a sample byte.
pub open spec fn spec_get_lsb(sample: u8) -> u8 {
    sample & 0x01
}

/// Replaces the least-significant bit of a sample byte by `bit`.
pub fn set_lsb(sample: u8, bit: u8) -> (r: u8)
    ensures
        r == spec_set_lsb(sample, bit),
        bit <= 1 ==> spec_get_lsb(r) == bit && r & 0xFE == sample & 0xFE,
{
    assert(bit <= 1 ==> ((sample & 0xFE) | bit) & 0x01 == bit && ((sample & 0xFE) | bit) & 0xFE
        == sample & 0xFE) by (bit_vector);
    (sample & 0xFE) | bit
}

/// Reads the least-significant bit of a sample byte.
pub fn get_lsb(sample: u8) -> (bit: u8)
    ensures
        bit == spec_get_lsb(sample),
        bit <= 1,
{
    assert(sample & 0x01 <= 1) by (bit_vector);
    sample & 0x01
}

/// Writing a bit and reading it back gives the bit, and the other seven bits
/// of the sample stay as they were.
pub proof fn lemma_set_then_get(sample: u8, bit: u8)
    requires
        bit <= 1,
    ensures
        spec_get_lsb(spec_set_lsb(sample, bit)) == bit,
        spec_set_lsb(sample, bit) & 0xFE == sample & 0xFE,
{
    assert(bit <= 1 ==> ((sample & 0xFE) | bit) & 0x01 == bit && ((sample & 0xFE) | bit) & 0xFE
        == sample & 0xFE) by (bit_vector);
}

/// Bit `i` of a byte, counted from the most significant one: bit 0 is the
/// byte's bit 7.
pub open spec fn msb_bit(byte: u8, i: int) -> u8 {
    (byte >> ((7 - i) as u8)) & 1
}

/// Bit `i` of a byte, counted from the most significant one.
pub fn bit_from_top(byte: u8, i: u8) -> (bit: u8)
    requires
        i < 8,
    ensures
        bit == msb_bit(byte, i as int),
        bit <= 1,
{
    let down: u8 = 7 - i;
    assert((byte >> down) & 1 <= 1) by (bit_vector);
    (byte >> down) & 1
}

/// The position in the buffer of the byte that carries the bit of sample `k`:
/// the sample itself at 8 bits, the low-order byte of the big-endian sample at 16.
pub open spec fn sample_offset(geometry: ImageGeometry, k: int) -> int {
    if geometry.bit_depth == 16 {
        2 * k + 1
    } else {
        k
    }
}

/// Whether the buffer byte at `i` carries a bit: every byte at 8 bits, the
/// odd ones at 16.
pub open spec fn carries_bit(geometry: ImageGeometry, i: int) -> bool {
    geometry.bit_depth != 16 || i % 2 == 1
}

/// The sample that the buffer byte at `i` belongs to.
pub open spec fn sample_index(geometry: ImageGeometry, i: int) -> int {
    if geometry.bit_depth == 16 {
        i / 2
    } else {
        i
    }
}

/// Bit `k` of a byte stream in embedding order: bytes in order, and within a
/// byte the most significant bit first.
pub open spec fn stream_bit(stream: Seq<u8>, k: int) -> u8 {
    msb_bit(stream[k / 8], k % 8)
}

/// The bit that sample `k` of a carrier holds.
pub open spec fn carrier_bit(samples: Seq<u8>, geometry: ImageGeometry, k: int) -> u8 {
    spec_get_lsb(samples[sample_offset(geometry, k)])
}

/// The value of the `n` carrier bits from sample `first` on, the first of
/// them as the most significant.
pub open spec fn gather(samples: Seq<u8>, geometry: ImageGeometry, first: int, n: nat) -> u8
    decreases n,
{
    if n == 0 {
        0
    } else {
        (gather(samples, geometry, first, (n - 1) as nat) << 1) | carrier_bit(
            samples,
            geometry,
            first + n - 1,
        )
    }
}

/// The value of eight bits, the first as the most significant.
pub open spec fn join8(b0: u8, b1: u8, b2: u8, b3: u8, b4: u8, b5: u8, b6: u8, b7: u8) -> u8 {
    let a1: u8 = (0u8 << 1) | b0;
    let a2: u8 = (a1 << 1) | b1;
    let a3: u8 = (a2 << 1) | b2;
    let a4: u8 = (a3 << 1) | b3;
    let a5: u8 = (a4 << 1) | b4;
    let a6: u8 = (a5 << 1) | b5;
    let a7: u8 = (a6 << 1) | b6;
    (a7 << 1) | b7
}

/// Eight carrier bits gathered are those eight bits joined.
pub proof fn lemma_gather_eight(samples: Seq<u8>, geometry: ImageGeometry, first: int)
    ensures
        gather(samples, geometry, first, 8) == join8(
            carrier_bit(samples, geometry, first),
            carrier_bit(samples, geometry, first + 1),
            carrier_bit(samples, geometry, first + 2),
            carrier_bit(samples, geometry, first + 3),
            carrier_bit(samples, geometry, first + 4),
            carrier_bit(samples, geometry, first + 5),
            carrier_bit(samples, geometry, first + 6),
            carrier_bit(samples, geometry, first + 7),
        ),
{
    reveal_with_fuel(gather, 9);
}

/// The eight bits of a byte, joined again, are the byte.
pub proof fn lemma_join8_of_bits(x: u8)
    ensures
        join8(
            msb_bit(x, 0),
            msb_bit(x, 1),
            msb_bit(x, 2),
            msb_bit(x, 3),
            msb_bit(x, 4),
            msb_bit(x, 5),
            msb_bit(x, 6),
            msb_bit(x, 7),
        ) == x,
{
    assert(join8(
        (x >> 7u8) & 1,
        (x >> 6u8) & 1,
        (x >> 5u8) & 1,
        (x >> 4u8) & 1,
        (x >> 3u8) & 1,
        (x >> 2u8) & 1,
        (x >> 1u8) & 1,
        (x >> 0u8) & 1,
    ) == x) by (bit_vector);
}

/// Eight bits that join to the same byte are the same bits.
pub proof fn lemma_join8_injective(b: Seq<u8>, c: Seq<u8>)
    requires
        b.len() == 8,
        c.len() == 8,
        forall|i: int| 0 <= i < 8 ==> b[i] <= 1 && c[i] <= 1,
        join8(b[0], b[1], b[2], b[3], b[4], b[5], b[6], b[7]) == join8(
            c[0],
            c[1],
            c[2],
            c[3],
            c[4],
            c[5],
            c[6],
            c[7],
        ),
    ensures
        b =~= c,
{
    let (b0, b1, b2, b3, b4, b5, b6, b7): (u8, u8, u8, u8, u8, u8, u8, u8) = (
        b[0],
        b[1],
        b[2],
        b[3],
        b[4],
        b[5],
        b[6],
        b[7],
    );
    let (c0, c1, c2, c3, c4, c5, c6, c7): (u8, u8, u8, u8, u8, u8, u8, u8) = (
        c[0],
        c[1],
        c[2],
        c[3],
        c[4],
        c[5],
        c[6],
        c[7],
    );
    assert(b0 == c0 && b1 == c1 && b2 == c2 && b3 == c3 && b4 == c4 && b5 == c5 && b6 == c6 && b7
        == c7) by (bit_vector)
        requires
            b0 <= 1 && b1 <= 1 && b2 <= 1 && b3 <= 1 && b4 <= 1 && b5 <= 1 && b6 <= 1 && b7 <= 1,
            c0 <= 1 && c1 <= 1 && c2 <= 1 && c3 <= 1 && c4 <= 1 && c5 <= 1 && c6 <= 1 && c7 <= 1,
            join8(b0, b1, b2, b3, b4, b5, b6, b7) == join8(c0, c1, c2, c3, c4, c5, c6, c7),
    ;
}

/// Byte `j` of what a carrier holds: the bits of samples `8 * j` to `8 * j + 7`.
pub open spec fn extracted_byte(samples: Seq<u8>, geometry: ImageGeometry, j: int) -> u8 {
    gather(samples, geometry, 8 * j, 8)
}

/// The bytes that a carrier holds: one for every eight samples, a rest of
/// fewer than eight samples left aside.
pub open spec fn extracted(samples: Seq<u8>, geometry: ImageGeometry) -> Seq<u8> {
    Seq::new(geometry.sample_count() / 8, |j: int| extracted_byte(samples, geometry, j))
}

/// The buffer after the first `n` bits of `stream` have gone into the first
/// `n` samples: only the least-significant bit of the byte that carries a
/// sample's bit changes.
pub open spec fn embed_bits(
    samples: Seq<u8>,
    geometry: ImageGeometry,
    stream: Seq<u8>,
    n: int,
) -> Seq<u8> {
    Seq::new(
        samples.len(),
        |i: int|
            if carries_bit(geometry, i) && sample_index(geometry, i) < n {
                spec_set_lsb(samples[i], stream_bit(stream, sample_index(geometry, i)))
            } else {
                samples[i]
            },
    )
}

/// How many bits of `stream` go into the carrier: all of them, or as many as
/// there are samples.
pub open spec fn embedded_bits(geometry: ImageGeometry, stream: Seq<u8>) -> nat {
    if 8 * stream.len() <= geometry.sample_count() {
        8 * stream.len()
    } else {
        geometry.sample_count()
    }
}

/// The buffer after `stream` has been embedded. Where the carrier has fewer
/// samples than the stream has bits, the stream is cut off there.
pub open spec fn embedded(samples: Seq<u8>, geometry: ImageGeometry, stream: Seq<u8>) -> Seq<u8> {
    embed_bits(samples, geometry, stream, embedded_bits(geometry, stream) as int)
}

/// The bit that a sample holds is 0 or 1.
pub proof fn lemma_carrier_bit_range(samples: Seq<u8>, geometry: ImageGeometry, k: int)
    ensures
        carrier_bit(samples, geometry, k) <= 1,
{
    let sample: u8 = samples[sample_offset(geometry, k)];
    assert(sample & 0x01 <= 1) by (bit_vector);
}

/// Inverting the least-significant bit of a sample byte changes the bit that
/// it holds.
pub proof fn lemma_inverted_lsb(sample: u8)
    ensures
        spec_get_lsb(sample ^ 1) != spec_get_lsb(sample),
        (sample ^ 1) & 0xFE == sample & 0xFE,
{
    assert((sample ^ 1) & 0x01 != sample & 0x01 && (sample ^ 1) & 0xFE == sample & 0xFE)
        by (bit_vector);
}

/// Two carriers hold the same byte in eight samples exactly when they hold
/// the same eight bits there.
pub proof fn lemma_extracted_byte_by_bits(
    a: Seq<u8>,
    b: Seq<u8>,
    geometry: ImageGeometry,
    j: int,
)
    ensures
        extracted_byte(a, geometry, j) == extracted_byte(b, geometry, j) <==> (forall|k: int|
            8 * j <= k < 8 * j + 8 ==> #[trigger] carrier_bit(a, geometry, k) == carrier_bit(
                b,
                geometry,
                k,
            )),
{
    let first: int = 8 * j;
    let bits_a: Seq<u8> = Seq::new(8, |i: int| carrier_bit(a, geometry, first + i));
    let bits_b: Seq<u8> = Seq::new(8, |i: int| carrier_bit(b, geometry, first + i));
    lemma_gather_eight(a, geometry, first);
    lemma_gather_eight(b, geometry, first);
    assert(carrier_bit(a, geometry, first) == bits_a[0]);
    assert(carrier_bit(b, geometry, first) == bits_b[0]);
    if extracted_byte(a, geometry, j) == extracted_byte(b, geometry, j) {
        assert forall|i: int| 0 <= i < 8 implies bits_a[i] <= 1 && bits_b[i] <= 1 by {
            lemma_carrier_bit_range(a, geometry, first + i);
            lemma_carrier_bit_range(b, geometry, first + i);
        }
        lemma_join8_injective(bits_a, bits_b);
        assert forall|k: int| 8 * j <= k < 8 * j + 8 implies #[trigger] carrier_bit(
            a,
            geometry,
            k,
        ) == carrier_bit(b, geometry, k) by {
            assert(bits_a[k - first] == bits_b[k - first]);
        }
    }
    if forall|k: int|
        8 * j <= k < 8 * j + 8 ==> #[trigger] carrier_bit(a, geometry, k) == carrier_bit(
            b,
            geometry,
            k,
        ) {
        assert forall|i: int| 0 <= i < 8 implies bits_a[i] == bits_b[i] by {
            assert(carrier_bit(a, geometry, first + i) == carrier_bit(b, geometry, first + i));
        }
        assert(bits_a =~= bits_b);
    }
}

/// A bit of a byte is 0 or 1.
pub proof fn lemma_msb_bit_range(byte: u8, i: int)
    ensures
        msb_bit(byte, i) <= 1,
{
    let down: u8 = (7 - i) as u8;
    assert((byte >> down) & 1 <= 1) by (bit_vector);
}

/// A sample that a bit was embedded in holds that bit.
pub proof fn lemma_embedded_bit(
    samples: Seq<u8>,
    geometry: ImageGeometry,
    stream: Seq<u8>,
    n: int,
    k: int,
)
    requires
        0 <= k < n,
        sample_offset(geometry, k) < samples.len(),
    ensures
        carrier_bit(embed_bits(samples, geometry, stream, n), geometry, k) == stream_bit(stream, k),
{
    lemma_msb_bit_range(stream[k / 8], k % 8);
    lemma_set_then_get(samples[sample_offset(geometry, k)], stream_bit(stream, k));
}

/// Eight samples that a whole byte of the stream was embedded in hold that byte.
pub proof fn lemma_embedded_byte(
    samples: Seq<u8>,
    geometry: ImageGeometry,
    stream: Seq<u8>,
    n: int,
    j: int,
)
    requires
        0 <= j,
        8 * j + 8 <= n,
        sample_offset(geometry, 8 * j + 7) < samples.len(),
    ensures
        extracted_byte(embed_bits(samples, geometry, stream, n), geometry, j) == stream[j],
{
    let after: Seq<u8> = embed_bits(samples, geometry, stream, n);
    lemma_gather_eight(after, geometry, 8 * j);
    assert forall|i: int| 0 <= i < 8 implies carrier_bit(after, geometry, 8 * j + i) == msb_bit(
        stream[j],
        i,
    ) by {
        lemma_embedded_bit(samples, geometry, stream, n, 8 * j + i);
        assert((8 * j + i) / 8 == j);
        assert((8 * j + i) % 8 == i);
    }
    assert(carrier_bit(after, geometry, 8 * j) == carrier_bit(after, geometry, 8 * j + 0));
    lemma_join8_of_bits(stream[j]);
}

/// The position in the buffer of the byte that carries the bit of sample `k`.
pub fn sample_position(geometry: &ImageGeometry, k: usize) -> (at: usize)
    requires
        geometry.wf(),
        k < geometry.sample_count(),
        geometry.buffer_len() <= usize::MAX,
    ensures
        at == sample_offset(*geometry, k as int),
        at < geometry.buffer_len(),
        carries_bit(*geometry, at as int),
        sample_index(*geometry, at as int) == k,
{
    if geometry.bit_depth == 16 {
        2 * k + 1
    } else {
        k
    }
}

} // verus!
