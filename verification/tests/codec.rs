use lsb_stego::checksum::checksum;
use lsb_stego::decoder::decode;
use lsb_stego::encoder::{embed, encode};
use lsb_stego::error::StegoError;
use lsb_stego::framing::FramedStream;
use lsb_stego::geometry::{capacity, ImageGeometry};
use lsb_stego::samples::sample_position;

fn carrier(geometry: &ImageGeometry) -> Vec<u8> {
    let len = geometry.buffer_size() as usize;
    (0..len).map(|i| ((i * 37 + 11) % 251) as u8).collect()
}

fn rgb(width: u32, height: u32) -> ImageGeometry {
    ImageGeometry { width, height, channels: 3, bit_depth: 8 }
}

fn lsbs(samples: &[u8], geometry: &ImageGeometry, count: usize) -> Vec<u8> {
    (0..count).map(|k| samples[sample_position(geometry, k)] & 1).collect()
}

fn bits_of(bytes: &[u8]) -> Vec<u8> {
    let mut bits = Vec::new();
    for &byte in bytes {
        for i in 0..8 {
            bits.push((byte >> (7 - i)) & 1);
        }
    }
    bits
}

#[test]
fn round_trip_recovers_the_payload() {
    let geometry = rgb(16, 16);
    let mut samples = carrier(&geometry);
    let payload = b"hello, carrier".to_vec();
    let report = encode(&mut samples, &geometry, &payload).unwrap();
    assert_eq!(report.checksum, 0xCDF6_DF16);
    assert_eq!(report.embedded_bytes, payload.len() + 12);
    let decoded = decode(&samples, &geometry);
    assert_eq!(decoded.outcome, Ok(()));
    assert_eq!(decoded.payload, payload);
    assert_eq!(decoded.stored_checksum, 0xCDF6_DF16);
    assert_eq!(decoded.computed_checksum, 0xCDF6_DF16);
}

#[test]
fn round_trip_for_every_channel_count_and_depth() {
    for channels in 1..=4u8 {
        for bit_depth in [8u8, 16u8] {
            let geometry = ImageGeometry { width: 13, height: 11, channels, bit_depth };
            let mut samples = carrier(&geometry);
            let payload: Vec<u8> = (0..5u8).map(|i| i.wrapping_mul(53)).collect();
            encode(&mut samples, &geometry, &payload).unwrap();
            let decoded = decode(&samples, &geometry);
            assert_eq!(decoded.outcome, Ok(()));
            assert_eq!(decoded.payload, payload);
        }
    }
}

#[test]
fn round_trip_of_every_single_byte_but_the_marker_lead() {
    let geometry = rgb(8, 8);
    for byte in 0..=255u8 {
        let mut samples = carrier(&geometry);
        encode(&mut samples, &geometry, &[byte]).unwrap();
        let decoded = decode(&samples, &geometry);
        if byte != 0x0E {
            assert_eq!(decoded.outcome, Ok(()));
            assert_eq!(decoded.payload, vec![byte]);
        } else {
            assert_ne!(decoded.payload, vec![byte]);
        }
    }
}

#[test]
fn the_embedded_bits_are_the_frame_most_significant_bit_first() {
    let geometry = rgb(16, 16);
    let mut samples = carrier(&geometry);
    let payload = b"123456789";
    encode(&mut samples, &geometry, payload).unwrap();
    let mut frame = vec![0x0F, 0x1F, 0x2F, 0xFF];
    frame.extend_from_slice(payload);
    frame.extend_from_slice(&[0x0E, 0x1E, 0x2E, 0xEE, 0x76, 0x5E, 0x76, 0x80]);
    assert_eq!(lsbs(&samples, &geometry, 8 * frame.len()), bits_of(&frame));
}

#[test]
fn encoding_changes_least_significant_bits_only() {
    let geometry = rgb(16, 16);
    let untouched = carrier(&geometry);
    let mut samples = untouched.clone();
    encode(&mut samples, &geometry, b"some payload").unwrap();
    assert_eq!(samples.len(), untouched.len());
    for (after, before) in samples.iter().zip(untouched.iter()) {
        assert_eq!(after & 0xFE, before & 0xFE);
    }
}

#[test]
fn samples_after_the_frame_keep_their_values() {
    let geometry = rgb(16, 16);
    let untouched = carrier(&geometry);
    let mut samples = untouched.clone();
    let payload = b"abc";
    encode(&mut samples, &geometry, payload).unwrap();
    let used = 8 * (payload.len() + 12);
    assert_eq!(&samples[used..], &untouched[used..]);
    assert_ne!(&samples[..used], &untouched[..used]);
}

#[test]
fn capacity_boundary() {
    let geometry = rgb(10, 10);
    let limit = capacity(&geometry) as usize;
    assert_eq!(limit, 37);
    let fits: Vec<u8> = vec![0x41; limit - 12];
    let mut samples = carrier(&geometry);
    let report = encode(&mut samples, &geometry, &fits).unwrap();
    assert_eq!(report.embedded_bytes, limit);
    let decoded = decode(&samples, &geometry);
    assert_eq!(decoded.outcome, Ok(()));
    assert_eq!(decoded.payload, fits);

    let too_long: Vec<u8> = vec![0x41; limit - 11];
    let untouched = carrier(&geometry);
    let mut samples = untouched.clone();
    assert_eq!(encode(&mut samples, &geometry, &too_long), Err(StegoError::CapacityExceeded));
    assert_eq!(samples, untouched);
}

#[test]
fn a_carrier_too_small_for_the_framing_takes_nothing() {
    let geometry = rgb(5, 5);
    let untouched = carrier(&geometry);
    let mut samples = untouched.clone();
    assert_eq!(encode(&mut samples, &geometry, &[]), Err(StegoError::CapacityExceeded));
    assert_eq!(samples, untouched);
}

#[test]
fn empty_payload_round_trips() {
    let geometry = rgb(8, 8);
    let mut samples = carrier(&geometry);
    let report = encode(&mut samples, &geometry, &[]).unwrap();
    assert_eq!(report.checksum, 0xFFFF_FFFF);
    assert_eq!(report.embedded_bytes, 12);
    let decoded = decode(&samples, &geometry);
    assert_eq!(decoded.outcome, Ok(()));
    assert!(decoded.payload.is_empty());
    assert_eq!(decoded.stored_checksum, 0xFFFF_FFFF);
    assert_eq!(decoded.computed_checksum, 0xFFFF_FFFF);
}

#[test]
fn a_broken_end_marker_in_the_payload_is_payload() {
    let geometry = rgb(16, 16);
    for held in 1..=3usize {
        let mut payload = b"before".to_vec();
        payload.extend_from_slice(&[0x0E, 0x1E, 0x2E][..held]);
        payload.extend_from_slice(b"after");
        let mut samples = carrier(&geometry);
        encode(&mut samples, &geometry, &payload).unwrap();
        let decoded = decode(&samples, &geometry);
        assert_eq!(decoded.outcome, Ok(()));
        assert_eq!(decoded.payload, payload);
    }
}

#[test]
fn an_end_marker_broken_at_its_last_byte_is_payload() {
    let geometry = rgb(16, 16);
    let payload = vec![0x41, 0x0E, 0x1E, 0x2E, 0xEF, 0x0E, 0x1E, 0x2E, 0x0E, 0x42];
    let mut samples = carrier(&geometry);
    encode(&mut samples, &geometry, &payload).unwrap();
    let decoded = decode(&samples, &geometry);
    assert_eq!(decoded.outcome, Ok(()));
    assert_eq!(decoded.payload, payload);
}

#[test]
fn a_whole_end_marker_in_the_payload_ends_it() {
    let geometry = rgb(16, 16);
    let mut payload = b"before".to_vec();
    payload.extend_from_slice(&[0x0E, 0x1E, 0x2E, 0xEE]);
    payload.extend_from_slice(b"after");
    let mut samples = carrier(&geometry);
    encode(&mut samples, &geometry, &payload).unwrap();
    let decoded = decode(&samples, &geometry);
    assert_eq!(decoded.payload, b"before".to_vec());
    assert_eq!(decoded.stored_checksum, u32::from_be_bytes([b'a', b'f', b't', b'e']));
    assert_eq!(decoded.computed_checksum, checksum(b"before"));
    assert_eq!(decoded.outcome, Err(StegoError::ChecksumMismatch));
}

#[test]
fn a_payload_that_ends_like_the_end_marker_begins_hides_the_marker() {
    let geometry = rgb(8, 8);
    let payload = vec![0x41, 0x0E];
    let mut samples = vec![0u8; geometry.buffer_size() as usize];
    encode(&mut samples, &geometry, &payload).unwrap();
    let decoded = decode(&samples, &geometry);
    assert_eq!(decoded.outcome, Err(StegoError::EndMarkerNotFound));
    let mut expected = vec![0x41, 0x0E, 0x0E, 0x1E, 0x2E, 0xEE];
    expected.extend_from_slice(&checksum(&payload).to_be_bytes());
    assert_eq!(&decoded.payload[..10], &expected[..]);
    assert!(decoded.payload[10..].iter().all(|&byte| byte == 0));
}

#[test]
fn a_flipped_checksum_bit_is_detected() {
    let geometry = rgb(16, 16);
    let payload = b"integrity".to_vec();
    let mut encoded = carrier(&geometry);
    let report = encode(&mut encoded, &geometry, &payload).unwrap();
    for bit in 0..32usize {
        let mut samples = encoded.clone();
        let k = 8 * (payload.len() + 8) + bit;
        samples[sample_position(&geometry, k)] ^= 1;
        let decoded = decode(&samples, &geometry);
        assert_eq!(decoded.outcome, Err(StegoError::ChecksumMismatch));
        assert_eq!(decoded.payload, payload);
        assert_eq!(decoded.computed_checksum, report.checksum);
        assert_eq!(decoded.stored_checksum, report.checksum ^ (1u32 << (31 - bit)));
    }
}

#[test]
fn a_flipped_payload_bit_is_detected() {
    let geometry = rgb(16, 16);
    let payload = b"integrity".to_vec();
    let mut samples = carrier(&geometry);
    let report = encode(&mut samples, &geometry, &payload).unwrap();
    samples[8 * 4 + 3] ^= 1;
    let decoded = decode(&samples, &geometry);
    assert_eq!(decoded.outcome, Err(StegoError::ChecksumMismatch));
    assert_eq!(decoded.stored_checksum, report.checksum);
    assert_eq!(decoded.payload[0], payload[0] ^ 0x10);
    assert_eq!(&decoded.payload[1..], &payload[1..]);
}

#[test]
fn sixteen_bit_depth_leaves_the_high_order_bytes() {
    let geometry = ImageGeometry { width: 12, height: 12, channels: 2, bit_depth: 16 };
    let untouched = carrier(&geometry);
    let mut samples = untouched.clone();
    let payload = b"sixteen".to_vec();
    encode(&mut samples, &geometry, &payload).unwrap();
    assert_eq!(samples.len(), untouched.len());
    for i in (0..samples.len()).step_by(2) {
        assert_eq!(samples[i], untouched[i]);
        assert_eq!(samples[i + 1] & 0xFE, untouched[i + 1] & 0xFE);
    }
    let mut frame = vec![0x0F, 0x1F, 0x2F, 0xFF];
    frame.extend_from_slice(&payload);
    frame.extend_from_slice(&[0x0E, 0x1E, 0x2E, 0xEE]);
    frame.extend_from_slice(&checksum(&payload).to_be_bytes());
    let low: Vec<u8> = (0..8 * frame.len()).map(|k| samples[2 * k + 1] & 1).collect();
    assert_eq!(low, bits_of(&frame));
    let decoded = decode(&samples, &geometry);
    assert_eq!(decoded.outcome, Ok(()));
    assert_eq!(decoded.payload, payload);
}

#[test]
fn an_untouched_carrier_has_no_start_marker() {
    let geometry = rgb(16, 16);
    for fill in [0x00u8, 0xFF, 0x55] {
        let samples = vec![fill; geometry.buffer_size() as usize];
        let decoded = decode(&samples, &geometry);
        assert_eq!(decoded.outcome, Err(StegoError::StartMarkerNotFound));
        assert!(decoded.payload.is_empty());
        assert_eq!(decoded.stored_checksum, 0);
        assert_eq!(decoded.computed_checksum, 0xFFFF_FFFF);
    }
    let decoded = decode(&carrier(&geometry), &geometry);
    assert_eq!(decoded.outcome, Err(StegoError::StartMarkerNotFound));
    assert!(decoded.payload.is_empty());
}

#[test]
fn an_empty_carrier_has_no_start_marker() {
    let geometry = rgb(0, 0);
    let decoded = decode(&[], &geometry);
    assert_eq!(decoded.outcome, Err(StegoError::StartMarkerNotFound));
    assert!(decoded.payload.is_empty());
}

#[test]
fn embedding_stops_where_the_samples_run_out() {
    let geometry = ImageGeometry { width: 10, height: 10, channels: 1, bit_depth: 8 };
    let untouched = vec![0xFFu8; 100];
    let mut samples = untouched.clone();
    let payload = b"too long for a hundred samples";
    let mut stream = FramedStream::new(payload);
    let complete = embed(&mut samples, &geometry, &mut stream);
    assert_eq!(complete, 12);
    let mut frame = vec![0x0F, 0x1F, 0x2F, 0xFF];
    frame.extend_from_slice(payload);
    assert_eq!(lsbs(&samples, &geometry, 100), bits_of(&frame)[..100].to_vec());
    assert_eq!(stream.next_byte(), Some(payload[9]));
}

#[test]
fn a_frame_cut_off_in_the_payload_has_no_end_marker() {
    let geometry = ImageGeometry { width: 10, height: 10, channels: 1, bit_depth: 8 };
    let mut samples = vec![0xFFu8; 100];
    let payload = b"too long for a hundred samples";
    let mut stream = FramedStream::new(payload);
    embed(&mut samples, &geometry, &mut stream);
    let decoded = decode(&samples, &geometry);
    assert_eq!(decoded.outcome, Err(StegoError::EndMarkerNotFound));
    assert_eq!(decoded.payload, payload[..8].to_vec());
}

#[test]
fn a_frame_cut_off_in_the_checksum_is_reported() {
    let payload = b"abc";
    let geometry = ImageGeometry { width: 8 * 13, height: 1, channels: 1, bit_depth: 8 };
    let mut samples = vec![0u8; 8 * 13];
    let mut stream = FramedStream::new(payload);
    assert_eq!(embed(&mut samples, &geometry, &mut stream), 13);
    let decoded = decode(&samples, &geometry);
    assert_eq!(decoded.outcome, Err(StegoError::ChecksumTruncated));
    assert_eq!(decoded.payload, payload.to_vec());
    assert_eq!(decoded.stored_checksum, checksum(payload) >> 16);
}

#[test]
fn embedding_a_whole_stream_leaves_the_rest_of_the_carrier() {
    let geometry = rgb(16, 16);
    let untouched = carrier(&geometry);
    let mut samples = untouched.clone();
    let mut stream = FramedStream::new(b"xy");
    assert_eq!(embed(&mut samples, &geometry, &mut stream), 14);
    assert_eq!(stream.next_byte(), None);
    assert_eq!(&samples[8 * 14..], &untouched[8 * 14..]);
}

#[test]
fn a_buffer_longer_than_the_image_is_left_alone_past_it() {
    let geometry = rgb(8, 8);
    let mut samples = vec![0xAAu8; 8 * 8 * 3 + 10];
    let payload = vec![0xFFu8; 12];
    encode(&mut samples, &geometry, &payload).unwrap();
    assert_eq!(&samples[8 * 8 * 3..], &[0xAAu8; 10][..]);
    let decoded = decode(&samples, &geometry);
    assert_eq!(decoded.outcome, Ok(()));
    assert_eq!(decoded.payload, payload);
}

#[test]
fn a_frame_that_does_not_begin_at_the_first_sample_is_found() {
    let geometry = rgb(16, 16);
    let mut shifted = vec![0u8; geometry.buffer_size() as usize];
    let mut encoded = vec![0u8; geometry.buffer_size() as usize];
    encode(&mut encoded, &geometry, b"late").unwrap();
    let used = 8 * (4 + 12);
    shifted[16..16 + used].copy_from_slice(&encoded[..used]);
    let decoded = decode(&shifted, &geometry);
    assert_eq!(decoded.outcome, Ok(()));
    assert_eq!(decoded.payload, b"late".to_vec());
}
