use vstd::prelude::*;
use crate::checksum::{be_bytes, crc32_cksum, lemma_be_bytes_read_back, spec_be_byte};
use crate::decoder::{decoded_outcome, recovered};
use crate::encoder::encoded;
use crate::error::StegoError;
use crate::framing::{end_marker, framed, start_marker};
use crate::geometry::{lemma_buffer_len, ImageGeometry};
use crate::samples::{
    carrier_bit, embedded, embedded_bits, extracted, extracted_byte, lemma_embedded_byte,
    lemma_extracted_byte_by_bits, lemma_inverted_lsb, sample_offset,
};
use crate::scanner::{
    lemma_clean_concat, lemma_clean_empty, lemma_clean_false_start,
    lemma_clean_without_marker_lead, lemma_payload_fixed, lemma_payload_grows,
    lemma_read_four_injective, lemma_run_concat, lemma_run_one, lemma_run_terminal,
    lemma_scan_checksum, lemma_scan_clean_payload, lemma_scan_end_marker,
    lemma_scan_start_marker, lemma_search_accounts_for_bytes, lemma_seeking_start_holds_nothing,
    lemma_start_search, occurs_in, read_four, scan_of, scan_run, scan_start, scan_step,
    scans_cleanly, seeking_end, Scan, ScanState,
};

verus! {

/// Bytes that begin with the start marker, a payload that is scanned cleanly,
/// and the end marker are scanned to that payload; the four bytes that follow
/// are read as the checksum, and whatever follows those is not looked at.
pub proof fn lemma_scan_frame(payload: Seq<u8>, bytes: Seq<u8>)
    requires
        scans_cleanly(payload),
        bytes.len() >= payload.len() + 12,
        bytes.take(payload.len() as int + 8) == start_marker() + payload + end_marker(),
    ensures
        scan_of(bytes) == (Scan {
            state: ScanState::ReadingChecksum(4),
            payload: payload,
            stored: read_four(
                0,
                bytes[payload.len() as int + 8],
                bytes[payload.len() as int + 9],
                bytes[payload.len() as int + 10],
                bytes[payload.len() as int + 11],
            ),
        }),
{
    let n: int = payload.len() as int;
    let head: Seq<u8> = start_marker() + payload + end_marker();
    let sum: Seq<u8> = seq![bytes[n + 8], bytes[n + 9], bytes[n + 10], bytes[n + 11]];
    let tail: Seq<u8> = bytes.skip(n + 12);
    assert(bytes =~= head + sum + tail) by {
        assert forall|i: int| 0 <= i < n + 8 implies bytes[i] == head[i] by {
            assert(bytes.take(n + 8)[i] == bytes[i]);
        }
    }
    let s0: Scan = scan_start();
    let s1: Scan = Scan { state: ScanState::SeekingEnd(0), ..s0 };
    let s2: Scan = Scan { state: ScanState::SeekingEnd(0), payload: payload, stored: 0 };
    let s3: Scan = Scan { state: ScanState::ReadingChecksum(0), ..s2 };
    let s4: Scan = Scan {
        state: ScanState::ReadingChecksum(4),
        stored: read_four(0, bytes[n + 8], bytes[n + 9], bytes[n + 10], bytes[n + 11]),
        ..s3
    };
    lemma_scan_start_marker(s0);
    lemma_scan_clean_payload(s1, payload);
    assert(s1.payload + payload =~= payload);
    lemma_scan_end_marker(s2);
    lemma_scan_checksum(s3, bytes[n + 8], bytes[n + 9], bytes[n + 10], bytes[n + 11]);
    lemma_run_terminal(s4, tail);
    lemma_run_concat(s0, start_marker(), payload);
    lemma_run_concat(s0, start_marker() + payload, end_marker());
    lemma_run_concat(s0, head, sum);
    lemma_run_concat(s0, head + sum, tail);
}

/// A carrier that a stream was embedded in whole holds the stream's bytes
/// first.
pub proof fn lemma_extracted_holds_stream(
    samples: Seq<u8>,
    geometry: ImageGeometry,
    stream: Seq<u8>,
)
    requires
        geometry.wf(),
        geometry.buffer_len() <= samples.len(),
        8 * stream.len() <= geometry.sample_count(),
    ensures
        stream.len() <= extracted(embedded(samples, geometry, stream), geometry).len(),
        extracted(embedded(samples, geometry, stream), geometry).take(stream.len() as int)
            == stream,
{
    let after: Seq<u8> = embedded(samples, geometry, stream);
    let bytes: Seq<u8> = extracted(after, geometry);
    let n: int = 8 * (stream.len() as int);
    lemma_buffer_len(geometry);
    assert(embedded_bits(geometry, stream) == n);
    assert forall|j: int| 0 <= j < stream.len() implies bytes[j] == stream[j] by {
        lemma_embedded_byte(samples, geometry, stream, n, j);
    }
    assert(bytes.take(stream.len() as int) =~= stream);
}

/// Round trip: a payload that fits into the carrier and is scanned cleanly
/// is recovered from the carrier that it was hidden in, byte for byte and
/// with a checksum that agrees.
pub proof fn lemma_round_trip(samples: Seq<u8>, geometry: ImageGeometry, payload: Seq<u8>)
    requires
        geometry.wf(),
        geometry.buffer_len() <= samples.len(),
        geometry.fits(payload.len()),
        scans_cleanly(payload),
    ensures
        recovered(encoded(samples, geometry, payload), geometry).payload == payload,
        recovered(encoded(samples, geometry, payload), geometry).stored == crc32_cksum(payload),
        decoded_outcome(encoded(samples, geometry, payload), geometry) == Ok::<(), StegoError>(()),
{
    let n: int = payload.len() as int;
    let sum: u32 = crc32_cksum(payload);
    let frame: Seq<u8> = framed(payload);
    let bytes: Seq<u8> = extracted(encoded(samples, geometry, payload), geometry);
    lemma_extracted_holds_stream(samples, geometry, frame);
    assert(bytes.take(n + 8) =~= start_marker() + payload + end_marker()) by {
        assert forall|i: int| 0 <= i < n + 8 implies bytes[i] == frame[i] by {
            assert(bytes.take(n + 12)[i] == bytes[i]);
        }
    }
    assert forall|i: int| 0 <= i < 4 implies bytes[n + 8 + i] == spec_be_byte(sum, i) by {
        assert(bytes.take(n + 12)[n + 8 + i] == bytes[n + 8 + i]);
        assert(frame[n + 8 + i] == be_bytes(sum)[i]);
    }
    assert(bytes[n + 8] == bytes[n + 8 + 0]);
    lemma_scan_frame(payload, bytes);
    lemma_be_bytes_read_back(0, sum);
}

/// Empty payload: where the twelve bytes of framing fit, the empty payload is
/// recovered as such, with the checksum of no bytes.
pub proof fn lemma_empty_round_trip(samples: Seq<u8>, geometry: ImageGeometry)
    requires
        geometry.wf(),
        geometry.buffer_len() <= samples.len(),
        geometry.fits(0),
    ensures
        recovered(encoded(samples, geometry, Seq::empty()), geometry).payload == Seq::<u8>::empty(),
        recovered(encoded(samples, geometry, Seq::empty()), geometry).stored == crc32_cksum(
            Seq::empty(),
        ),
        decoded_outcome(encoded(samples, geometry, Seq::empty()), geometry) == Ok::<(), StegoError>(
            (),
        ),
{
    lemma_clean_empty();
    lemma_round_trip(samples, geometry, Seq::empty());
}

/// A payload without the byte that the end marker begins with is recovered
/// from the carrier that it was hidden in.
pub proof fn lemma_round_trip_without_marker_lead(
    samples: Seq<u8>,
    geometry: ImageGeometry,
    payload: Seq<u8>,
)
    requires
        geometry.wf(),
        geometry.buffer_len() <= samples.len(),
        geometry.fits(payload.len()),
        forall|i: int| 0 <= i < payload.len() ==> payload[i] != 0x0E,
    ensures
        recovered(encoded(samples, geometry, payload), geometry).payload == payload,
        decoded_outcome(encoded(samples, geometry, payload), geometry) == Ok::<(), StegoError>(()),
{
    lemma_clean_without_marker_lead(payload);
    lemma_round_trip(samples, geometry, payload);
}

/// Bytes that begin with the frame of a payload that is not scanned cleanly
/// are not scanned to that payload. Either the end marker is found within
/// it and cuts it short, or its last bytes are held back as the marker's
/// beginning and the marker itself is taken for payload.
pub proof fn lemma_scan_unclean_frame(payload: Seq<u8>, bytes: Seq<u8>)
    requires
        !scans_cleanly(payload),
        bytes.len() >= payload.len() + 12,
        bytes.take(payload.len() as int + 12) == framed(payload),
    ensures
        scan_of(bytes).payload != payload,
{
    let n: int = payload.len() as int;
    let frame: Seq<u8> = framed(payload);
    let rest: Seq<u8> = bytes.skip(n + 4);
    assert(bytes =~= start_marker() + payload + rest) by {
        assert forall|i: int| 0 <= i < n + 4 implies bytes[i] == (start_marker() + payload)[i] by {
            assert(bytes.take(n + 12)[i] == bytes[i]);
            assert(frame[i] == (start_marker() + payload)[i]);
        }
    }
    assert(rest[0] == end_marker()[0]) by {
        assert(bytes.take(n + 12)[n + 4] == bytes[n + 4]);
        assert(frame[n + 4] == end_marker()[0]);
    }
    let s0: Scan = scan_start();
    lemma_scan_start_marker(s0);
    lemma_run_concat(s0, start_marker(), payload);
    lemma_run_concat(s0, start_marker() + payload, rest);
    let after_payload: Scan = scan_run(seeking_end(), payload);
    assert(scan_run(s0, start_marker()) == seeking_end());
    lemma_search_accounts_for_bytes(payload);
    match after_payload.state {
        ScanState::SeekingEnd(held) => {
            let one: Seq<u8> = seq![rest[0]];
            let others: Seq<u8> = rest.skip(1);
            assert(rest =~= one + others);
            lemma_run_concat(after_payload, one, others);
            lemma_run_one(after_payload, rest[0]);
            let taken: Scan = scan_step(after_payload, rest[0]);
            assert(taken.payload.len() == n + 1) by {
                assert(after_payload.payload + end_marker().take(held as int) == payload);
                assert(taken.payload =~= payload + one);
            }
            lemma_payload_grows(taken, others);
        },
        _ => {
            lemma_payload_fixed(after_payload, rest);
        },
    }
}

/// Round trip, the other way: a payload that is not scanned cleanly is not
/// recovered from the carrier that it was hidden in.
pub proof fn lemma_round_trip_needs_clean_scan(
    samples: Seq<u8>,
    geometry: ImageGeometry,
    payload: Seq<u8>,
)
    requires
        geometry.wf(),
        geometry.buffer_len() <= samples.len(),
        geometry.fits(payload.len()),
        !scans_cleanly(payload),
    ensures
        recovered(encoded(samples, geometry, payload), geometry).payload != payload,
{
    lemma_extracted_holds_stream(samples, geometry, framed(payload));
    lemma_scan_unclean_frame(
        payload,
        extracted(encoded(samples, geometry, payload), geometry),
    );
}

/// A beginning of the end marker within the payload does no harm: where a
/// byte follows that does not continue the marker, and the payload is
/// scanned cleanly before and after, the whole payload is recovered.
pub proof fn lemma_false_end_marker_round_trip(
    samples: Seq<u8>,
    geometry: ImageGeometry,
    before: Seq<u8>,
    n: int,
    byte: u8,
    after: Seq<u8>,
)
    requires
        geometry.wf(),
        geometry.buffer_len() <= samples.len(),
        scans_cleanly(before),
        scans_cleanly(after),
        1 <= n <= 3,
        byte != end_marker()[n],
        geometry.fits((before + end_marker().take(n).push(byte) + after).len()),
    ensures
        ({
            let payload: Seq<u8> = before + end_marker().take(n).push(byte) + after;
            &&& recovered(encoded(samples, geometry, payload), geometry).payload == payload
            &&& decoded_outcome(encoded(samples, geometry, payload), geometry) == Ok::<
                (),
                StegoError,
            >(())
        }),
{
    let middle: Seq<u8> = end_marker().take(n).push(byte);
    lemma_clean_false_start(n, byte);
    lemma_clean_concat(before, middle);
    lemma_clean_concat(before + middle, after);
    lemma_round_trip(samples, geometry, before + middle + after);
}

/// Bytes that begin with the frame of a payload that holds the whole end
/// marker, and is scanned cleanly up to it, are scanned to the payload up to
/// the marker.
pub proof fn lemma_scan_cut_frame(before: Seq<u8>, after: Seq<u8>, bytes: Seq<u8>)
    requires
        scans_cleanly(before),
        bytes.len() >= (before + end_marker() + after).len() + 12,
        bytes.take((before + end_marker() + after).len() as int + 12) == framed(
            before + end_marker() + after,
        ),
    ensures
        scan_of(bytes).payload == before,
{
    let payload: Seq<u8> = before + end_marker() + after;
    let m: int = before.len() as int;
    let n: int = payload.len() as int;
    let frame: Seq<u8> = framed(payload);
    assert(bytes.take(m + 8) =~= start_marker() + before + end_marker()) by {
        assert forall|i: int| 0 <= i < m + 8 implies bytes[i] == (start_marker() + before
            + end_marker())[i] by {
            assert(bytes.take(n + 12)[i] == bytes[i]);
            assert(frame[i] == (start_marker() + payload)[i]);
        }
    }
    lemma_scan_frame(before, bytes);
}

/// The whole end marker within the payload ends it: where the payload is
/// scanned cleanly up to the marker, what is recovered is the payload up to
/// there, whatever follows.
pub proof fn lemma_end_marker_in_payload(
    samples: Seq<u8>,
    geometry: ImageGeometry,
    before: Seq<u8>,
    after: Seq<u8>,
)
    requires
        geometry.wf(),
        geometry.buffer_len() <= samples.len(),
        scans_cleanly(before),
        geometry.fits((before + end_marker() + after).len()),
    ensures
        recovered(encoded(samples, geometry, before + end_marker() + after), geometry).payload
            == before,
{
    let payload: Seq<u8> = before + end_marker() + after;
    lemma_extracted_holds_stream(samples, geometry, framed(payload));
    lemma_scan_cut_frame(before, after, extracted(encoded(samples, geometry, payload), geometry));
}

/// The buffer with the least-significant bit of the byte at `at` inverted.
pub open spec fn flip_lsb(samples: Seq<u8>, at: int) -> Seq<u8> {
    samples.update(at, samples[at] ^ 1)
}

/// Inverting the bit of sample `k` changes the byte that the sample belongs
/// to, and no other byte that the carrier holds.
pub proof fn lemma_flip_changes_one_byte(samples: Seq<u8>, geometry: ImageGeometry, k: int)
    requires
        geometry.wf(),
        geometry.buffer_len() <= samples.len(),
        0 <= k < geometry.sample_count(),
    ensures
        ({
            let flipped: Seq<u8> = flip_lsb(samples, sample_offset(geometry, k));
            &&& extracted_byte(flipped, geometry, k / 8) != extracted_byte(samples, geometry, k / 8)
            &&& forall|j: int|
                0 <= j < geometry.sample_count() / 8 && j != k / 8 ==> extracted_byte(
                    flipped,
                    geometry,
                    j,
                ) == extracted_byte(samples, geometry, j)
        }),
{
    let at: int = sample_offset(geometry, k);
    let flipped: Seq<u8> = flip_lsb(samples, at);
    lemma_buffer_len(geometry);
    lemma_inverted_lsb(samples[at]);
    lemma_extracted_byte_by_bits(flipped, samples, geometry, k / 8);
    assert(carrier_bit(flipped, geometry, k) != carrier_bit(samples, geometry, k));
    assert forall|j: int|
        0 <= j < geometry.sample_count() / 8 && j != k / 8 implies extracted_byte(
        flipped,
        geometry,
        j,
    ) == extracted_byte(samples, geometry, j) by {
        lemma_extracted_byte_by_bits(flipped, samples, geometry, j);
        assert forall|i: int| 8 * j <= i < 8 * j + 8 implies #[trigger] carrier_bit(
            flipped,
            geometry,
            i,
        ) == carrier_bit(samples, geometry, i) by {
            assert(sample_offset(geometry, i) != at);
        }
    }
}

/// A frame of which one checksum byte has been changed is scanned to its
/// payload, and the mismatch of the checksums is found.
pub proof fn lemma_scan_frame_with_changed_checksum(payload: Seq<u8>, bytes: Seq<u8>, at: int)
    requires
        scans_cleanly(payload),
        bytes.len() >= payload.len() + 12,
        payload.len() + 8 <= at < payload.len() + 12,
        bytes[at] != framed(payload)[at],
        forall|i: int| 0 <= i < payload.len() + 12 && i != at ==> bytes[i] == framed(payload)[i],
    ensures
        scan_of(bytes).payload == payload,
        scan_of(bytes).state == ScanState::ReadingChecksum(4),
        scan_of(bytes).stored != crc32_cksum(payload),
{
    let n: int = payload.len() as int;
    let sum: u32 = crc32_cksum(payload);
    let frame: Seq<u8> = framed(payload);
    assert(bytes.take(n + 8) =~= start_marker() + payload + end_marker()) by {
        assert forall|i: int| 0 <= i < n + 8 implies bytes.take(n + 8)[i] == frame[i] by {
            assert(bytes[i] == frame[i]);
        }
    }
    lemma_scan_frame(payload, bytes);
    let read: Seq<u8> = seq![bytes[n + 8], bytes[n + 9], bytes[n + 10], bytes[n + 11]];
    let stored: u32 = read_four(0, read[0], read[1], read[2], read[3]);
    lemma_be_bytes_read_back(0, sum);
    if stored == sum {
        lemma_read_four_injective(0, read, be_bytes(sum));
        assert(read[at - n - 8] == be_bytes(sum)[at - n - 8]);
        assert(frame[at] == be_bytes(sum)[at - n - 8]);
        assert(false);
    }
}

/// Inverting the bit of one sample changes one of the bytes that the carrier
/// holds, and leaves the others.
pub proof fn lemma_flip_changes_one_extracted(samples: Seq<u8>, geometry: ImageGeometry, k: int)
    requires
        geometry.wf(),
        geometry.buffer_len() <= samples.len(),
        0 <= k < 8 * (geometry.sample_count() / 8),
    ensures
        ({
            let before: Seq<u8> = extracted(samples, geometry);
            let after: Seq<u8> = extracted(flip_lsb(samples, sample_offset(geometry, k)), geometry);
            &&& after.len() == before.len()
            &&& after[k / 8] != before[k / 8]
            &&& forall|j: int| 0 <= j < before.len() && j != k / 8 ==> after[j] == before[j]
        }),
{
    lemma_flip_changes_one_byte(samples, geometry, k);
}

/// Checksum detection: after any one bit of the embedded checksum has been
/// inverted, the payload is still recovered byte for byte, and the mismatch
/// of the checksums is reported.
pub proof fn lemma_checksum_bit_flip(
    samples: Seq<u8>,
    geometry: ImageGeometry,
    payload: Seq<u8>,
    bit: int,
)
    requires
        geometry.wf(),
        geometry.buffer_len() <= samples.len(),
        geometry.fits(payload.len()),
        scans_cleanly(payload),
        0 <= bit < 32,
    ensures
        ({
            let k: int = 8 * (payload.len() as int + 8) + bit;
            let tampered: Seq<u8> = flip_lsb(
                encoded(samples, geometry, payload),
                sample_offset(geometry, k),
            );
            &&& recovered(tampered, geometry).payload == payload
            &&& decoded_outcome(tampered, geometry) == Err::<(), StegoError>(
                StegoError::ChecksumMismatch,
            )
        }),
{
    let n: int = payload.len() as int;
    let k: int = 8 * (n + 8) + bit;
    let frame: Seq<u8> = framed(payload);
    let whole: Seq<u8> = encoded(samples, geometry, payload);
    let tampered: Seq<u8> = flip_lsb(whole, sample_offset(geometry, k));
    let bytes: Seq<u8> = extracted(whole, geometry);
    let changed: Seq<u8> = extracted(tampered, geometry);
    assert(whole.len() == samples.len());
    lemma_extracted_holds_stream(samples, geometry, frame);
    lemma_flip_changes_one_extracted(whole, geometry, k);
    assert forall|i: int| 0 <= i < n + 12 implies bytes[i] == frame[i] by {
        assert(bytes.take(n + 12)[i] == bytes[i]);
    }
    lemma_scan_frame_with_changed_checksum(payload, changed, k / 8);
}

/// Missing start marker: a carrier that does not hold the start marker's four
/// bytes in a row is reported as having none, and nothing is recovered from it.
pub proof fn lemma_missing_start_marker(samples: Seq<u8>, geometry: ImageGeometry)
    requires
        !occurs_in(extracted(samples, geometry), start_marker()),
    ensures
        decoded_outcome(samples, geometry) == Err::<(), StegoError>(
            StegoError::StartMarkerNotFound,
        ),
        recovered(samples, geometry).payload.len() == 0,
{
    lemma_start_search(extracted(samples, geometry));
    lemma_seeking_start_holds_nothing(extracted(samples, geometry));
}

} // verus!
