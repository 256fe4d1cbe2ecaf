use lsb_stego::checksum::{be_byte, checksum, push_byte};
use lsb_stego::geometry::ImageGeometry;
use lsb_stego::samples::{bit_from_top, get_lsb, sample_position, set_lsb};

#[test]
fn set_lsb_replaces_the_lowest_bit() {
    assert_eq!(set_lsb(0xFF, 0), 0xFE);
    assert_eq!(set_lsb(0xFE, 1), 0xFF);
    assert_eq!(set_lsb(0x00, 1), 0x01);
    assert_eq!(set_lsb(0x00, 0), 0x00);
    assert_eq!(set_lsb(0xA5, 0), 0xA4);
    assert_eq!(set_lsb(0xA4, 1), 0xA5);
}

#[test]
fn get_lsb_reads_the_lowest_bit() {
    assert_eq!(get_lsb(0x00), 0);
    assert_eq!(get_lsb(0x01), 1);
    assert_eq!(get_lsb(0xFE), 0);
    assert_eq!(get_lsb(0xFF), 1);
    assert_eq!(get_lsb(0x80), 0);
}

#[test]
fn set_then_get_gives_the_bit_for_every_sample() {
    for sample in 0..=255u8 {
        for bit in 0..=1u8 {
            let written = set_lsb(sample, bit);
            assert_eq!(get_lsb(written), bit);
            assert_eq!(written & 0xFE, sample & 0xFE);
        }
    }
}

#[test]
fn bits_are_counted_from_the_top() {
    assert_eq!(bit_from_top(0x80, 0), 1);
    assert_eq!(bit_from_top(0x80, 1), 0);
    assert_eq!(bit_from_top(0x01, 7), 1);
    assert_eq!(bit_from_top(0x01, 0), 0);
    let bits: Vec<u8> = (0..8).map(|i| bit_from_top(0x0F, i)).collect();
    assert_eq!(bits, vec![0, 0, 0, 0, 1, 1, 1, 1]);
    let bits: Vec<u8> = (0..8).map(|i| bit_from_top(0xEE, i)).collect();
    assert_eq!(bits, vec![1, 1, 1, 0, 1, 1, 1, 0]);
}

#[test]
fn an_eight_bit_sample_is_its_own_byte() {
    let geometry = ImageGeometry { width: 4, height: 2, channels: 3, bit_depth: 8 };
    assert_eq!(sample_position(&geometry, 0), 0);
    assert_eq!(sample_position(&geometry, 5), 5);
    assert_eq!(sample_position(&geometry, 23), 23);
}

#[test]
fn a_sixteen_bit_sample_is_addressed_at_its_low_order_byte() {
    let geometry = ImageGeometry { width: 4, height: 2, channels: 3, bit_depth: 16 };
    assert_eq!(sample_position(&geometry, 0), 1);
    assert_eq!(sample_position(&geometry, 5), 11);
    assert_eq!(sample_position(&geometry, 23), 47);
}

#[test]
fn checksum_is_crc32_cksum() {
    assert_eq!(checksum(b"123456789"), 0x765E_7680);
    assert_eq!(checksum(b"a"), 0x579B_24DF);
    assert_eq!(checksum(b"hello, carrier"), 0xCDF6_DF16);
}

#[test]
fn checksum_of_nothing() {
    assert_eq!(checksum(&[]), 0xFFFF_FFFF);
}

#[test]
fn checksum_is_not_the_common_crc32() {
    assert_ne!(checksum(b"123456789"), 0xCBF4_3926);
}

#[test]
fn big_endian_bytes_start_at_the_top() {
    assert_eq!(be_byte(0x0F1F_2FFF, 0), 0x0F);
    assert_eq!(be_byte(0x0F1F_2FFF, 1), 0x1F);
    assert_eq!(be_byte(0x0F1F_2FFF, 2), 0x2F);
    assert_eq!(be_byte(0x0F1F_2FFF, 3), 0xFF);
}

#[test]
fn pushed_bytes_come_in_at_the_bottom() {
    assert_eq!(push_byte(0, 0x76), 0x76);
    assert_eq!(push_byte(0x76, 0x5E), 0x765E);
    assert_eq!(push_byte(0x0076_5E76, 0x80), 0x765E_7680);
    assert_eq!(push_byte(0xAABB_CCDD, 0xEE), 0xBBCC_DDEE);
}

#[test]
fn big_endian_bytes_read_back() {
    for value in [0u32, 1, 0x765E_7680, 0xFFFF_FFFF, 0x0E1E_2EEE] {
        let mut read: u32 = 0xDEAD_BEEF;
        for i in 0..4 {
            read = push_byte(read, be_byte(value, i));
        }
        assert_eq!(read, value);
    }
}
