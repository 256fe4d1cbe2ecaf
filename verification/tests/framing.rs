use lsb_stego::checksum::checksum;
use lsb_stego::framing::{
    end_marker_byte, start_marker_byte, FramedStream, END_MARKER, START_MARKER,
};

fn drain(stream: &mut FramedStream) -> Vec<u8> {
    let mut bytes = Vec::new();
    while let Some(byte) = stream.next_byte() {
        bytes.push(byte);
    }
    bytes
}

#[test]
fn markers_are_the_fixed_constants() {
    assert_eq!(START_MARKER, 0x0F1F_2FFF);
    assert_eq!(END_MARKER, 0x0E1E_2EEE);
    let start: Vec<u8> = (0..4).map(start_marker_byte).collect();
    let end: Vec<u8> = (0..4).map(end_marker_byte).collect();
    assert_eq!(start, vec![0x0F, 0x1F, 0x2F, 0xFF]);
    assert_eq!(end, vec![0x0E, 0x1E, 0x2E, 0xEE]);
}

#[test]
fn framed_stream_is_start_payload_end_checksum() {
    let payload = b"123456789";
    let mut stream = FramedStream::new(payload);
    assert_eq!(stream.checksum(), 0x765E_7680);
    let mut expected = vec![0x0F, 0x1F, 0x2F, 0xFF];
    expected.extend_from_slice(payload);
    expected.extend_from_slice(&[0x0E, 0x1E, 0x2E, 0xEE]);
    expected.extend_from_slice(&[0x76, 0x5E, 0x76, 0x80]);
    assert_eq!(drain(&mut stream), expected);
}

#[test]
fn framed_stream_of_nothing_is_twelve_bytes() {
    let mut stream = FramedStream::new(&[]);
    assert_eq!(
        drain(&mut stream),
        vec![0x0F, 0x1F, 0x2F, 0xFF, 0x0E, 0x1E, 0x2E, 0xEE, 0xFF, 0xFF, 0xFF, 0xFF]
    );
}

#[test]
fn framed_stream_stays_empty_once_exhausted() {
    let mut stream = FramedStream::new(b"x");
    assert_eq!(drain(&mut stream).len(), 13);
    assert_eq!(stream.next_byte(), None);
    assert_eq!(stream.next_byte(), None);
}

#[test]
fn framed_stream_carries_the_checksum_of_its_payload() {
    let payload: Vec<u8> = (0..=255u8).collect();
    let mut stream = FramedStream::new(&payload);
    let bytes = drain(&mut stream);
    assert_eq!(bytes.len(), payload.len() + 12);
    let sum = checksum(&payload);
    assert_eq!(&bytes[bytes.len() - 4..], &sum.to_be_bytes()[..]);
    assert_eq!(&bytes[4..4 + payload.len()], &payload[..]);
}
