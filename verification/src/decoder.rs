use vstd::prelude::*;
use crate::checksum::{checksum, crc32_cksum};
use crate::error::StegoError;
use crate::geometry::{lemma_buffer_len, ImageGeometry};
use crate::samples::{
    carrier_bit, extracted, extracted_byte, gather, get_lsb, sample_position,
};
use crate::scanner::{
    lemma_run_prefix_terminal, lemma_seeking_start_holds_nothing, scan_of, scan_start, Scan,
    ScanState, Scanner,
};

verus! {

/// What a finished scan amounts to, given the checksum of the payload that it
/// recovered.
pub open spec fn spec_verdict(
    state: ScanState,
    stored: u32,
    computed: u32,
) -> Result<(), StegoError> {
    match state {
        ScanState::SeekingStart(_) => Err(StegoError::StartMarkerNotFound),
        ScanState::SeekingEnd(_) => Err(StegoError::EndMarkerNotFound),
        ScanState::ReadingChecksum(n) => {
            if n != 4 {
                Err(StegoError::ChecksumTruncated)
            } else if stored == computed {
                Ok(())
            } else {
                Err(StegoError::ChecksumMismatch)
            }
        },
    }
}

/// Judges a scan that has no more bytes to take: `stored` is the checksum read
/// from the carrier, `computed` that of the recovered payload.
pub fn verdict(state: ScanState, stored: u32, computed: u32) -> (r: Result<(), StegoError>)
    ensures
        r == spec_verdict(state, stored, computed),
{
    match state {
        ScanState::SeekingStart(_) => Err(StegoError::StartMarkerNotFound),
        ScanState::SeekingEnd(_) => Err(StegoError::EndMarkerNotFound),
        ScanState::ReadingChecksum(n) => {
            if n != 4 {
                Err(StegoError::ChecksumTruncated)
            } else if stored == computed {
                Ok(())
            } else {
                Err(StegoError::ChecksumMismatch)
            }
        },
    }
}

/// The scan of all the bytes that a carrier holds.
pub open spec fn recovered(samples: Seq<u8>, geometry: ImageGeometry) -> Scan {
    scan_of(extracted(samples, geometry))
}

/// What decoding a carrier reports.
pub open spec fn decoded_outcome(
    samples: Seq<u8>,
    geometry: ImageGeometry,
) -> Result<(), StegoError> {
    let scan: Scan = recovered(samples, geometry);
    spec_verdict(scan.state, scan.stored, crc32_cksum(scan.payload))
}

/// What was recovered from a carrier.
#[derive(Debug)]
pub struct Decoded {
    /// The payload bytes that were confirmed. They are complete only when
    /// `outcome` is `Ok` or `Err(ChecksumMismatch)`.
    pub payload: Vec<u8>,
    /// The checksum read from the carrier, as far as it was read.
    pub stored_checksum: u32,
    /// The checksum of `payload`.
    pub computed_checksum: u32,
    /// `Ok` when the frame was found whole and the checksums agree.
    pub outcome: Result<(), StegoError>,
}

/// Recovers the payload that the least-significant bits of a carrier hold.
///
/// The bits of the samples are taken in buffer order, eight to a byte, the
/// first as the most significant, and the bytes are scanned for the frame
/// until it is complete or the samples run out.
pub fn decode(samples: &[u8], geometry: &ImageGeometry) -> (d: Decoded)
    requires
        geometry.wf(),
        geometry.buffer_len() <= samples@.len(),
    ensures
        d.payload@ == recovered(samples@, *geometry).payload,
        d.stored_checksum == recovered(samples@, *geometry).stored,
        d.computed_checksum == crc32_cksum(d.payload@),
        d.outcome == decoded_outcome(samples@, *geometry),
        d.outcome == Err::<(), StegoError>(StegoError::StartMarkerNotFound) ==> d.payload@.len()
            == 0,
{
    let len: usize = samples.len();
    proof {
        lemma_buffer_len(*geometry);
    }
    let count: usize = geometry.count_samples() as usize;
    let ghost bytes: Seq<u8> = extracted(samples@, *geometry);
    let mut scanner: Scanner = Scanner::new();
    let mut k: usize = 0;
    let mut acc: u8 = 0;
    assert(bytes.take(0) =~= Seq::<u8>::empty());
    while k < count && !scanner.is_terminal()
        invariant
            geometry.wf(),
            geometry.buffer_len() <= samples@.len() == len,
            count == geometry.sample_count(),
            bytes == extracted(samples@, *geometry),
            k <= count,
            acc == gather(samples@, *geometry, k - k % 8, (k % 8) as nat),
            scanner@ == scan_of(bytes.take(k as int / 8)),
            scanner@.state.wf(),
        decreases count - k,
    {
        let at: usize = sample_position(geometry, k);
        let bit: u8 = get_lsb(samples[at]);
        assert(bit == carrier_bit(samples@, *geometry, k as int));
        acc = (acc << 1) | bit;
        k = k + 1;
        if k % 8 == 0 {
            let ghost j: int = k as int / 8 - 1;
            assert(acc == extracted_byte(samples@, *geometry, j));
            assert(bytes.take(j + 1).drop_last() =~= bytes.take(j));
            assert(bytes.take(j + 1).last() == bytes[j]);
            scanner.feed(acc);
            acc = 0;
        }
    }
    proof {
        if scanner@.state.is_terminal() {
            lemma_run_prefix_terminal(scan_start(), bytes, k as int / 8);
        } else {
            assert(bytes.take(k as int / 8) =~= bytes);
        }
        lemma_seeking_start_holds_nothing(bytes);
    }
    let state: ScanState = scanner.state();
    let stored: u32 = scanner.stored_checksum();
    let payload: Vec<u8> = scanner.into_payload();
    let computed: u32 = checksum(payload.as_slice());
    let outcome: Result<(), StegoError> = verdict(state, stored, computed);
    Decoded { payload, stored_checksum: stored, computed_checksum: computed, outcome }
}

} // verus!
