use lsb_stego::error::StegoError;
use lsb_stego::geometry::{
    capacity, check_info, validate, CarrierHeader, ColorModel, ImageGeometry, FRAME_OVERHEAD,
};

fn header(color: ColorModel, bit_depth: u8) -> CarrierHeader {
    CarrierHeader { width: 7, height: 5, color, bit_depth, has_palette: false, interlaced: false }
}

#[test]
fn channels_follow_the_colour_model() {
    assert_eq!(ColorModel::Grayscale.channels(), 1);
    assert_eq!(ColorModel::GrayscaleAlpha.channels(), 2);
    assert_eq!(ColorModel::Rgb.channels(), 3);
    assert_eq!(ColorModel::Rgba.channels(), 4);
    assert_eq!(ColorModel::Indexed.channels(), 1);
}

#[test]
fn geometry_is_taken_from_the_header() {
    let geometry = ImageGeometry::from_header(&header(ColorModel::Rgba, 16));
    assert_eq!(geometry, ImageGeometry { width: 7, height: 5, channels: 4, bit_depth: 16 });
    assert!(geometry.is_wf());
}

#[test]
fn check_info_accepts_the_four_colour_models_at_both_depths() {
    for color in [ColorModel::Grayscale, ColorModel::GrayscaleAlpha, ColorModel::Rgb, ColorModel::Rgba]
    {
        for depth in [8u8, 16u8] {
            let geometry = check_info(&header(color, depth)).unwrap();
            assert_eq!(geometry.width, 7);
            assert_eq!(geometry.height, 5);
            assert_eq!(geometry.channels, color.channels());
            assert_eq!(geometry.bit_depth, depth);
        }
    }
}

#[test]
fn check_info_rejects_small_bit_depths() {
    for depth in [1u8, 2u8, 4u8, 0u8, 24u8] {
        assert_eq!(
            check_info(&header(ColorModel::Grayscale, depth)),
            Err(StegoError::UnsupportedCarrierFormat)
        );
    }
}

#[test]
fn check_info_rejects_a_palette() {
    let mut h = header(ColorModel::Rgb, 8);
    h.has_palette = true;
    assert_eq!(check_info(&h), Err(StegoError::UnsupportedCarrierFormat));
    assert_eq!(
        check_info(&header(ColorModel::Indexed, 8)),
        Err(StegoError::UnsupportedCarrierFormat)
    );
}

#[test]
fn check_info_rejects_interlacing() {
    let mut h = header(ColorModel::Rgb, 8);
    h.interlaced = true;
    assert_eq!(check_info(&h), Err(StegoError::UnsupportedCarrierFormat));
}

#[test]
fn capacity_is_an_eighth_of_the_samples_rounded_down() {
    let geometry = ImageGeometry { width: 10, height: 10, channels: 3, bit_depth: 8 };
    assert_eq!(geometry.count_samples(), 300);
    assert_eq!(capacity(&geometry), 37);
    let small = ImageGeometry { width: 1, height: 7, channels: 1, bit_depth: 8 };
    assert_eq!(capacity(&small), 0);
    let exact = ImageGeometry { width: 4, height: 4, channels: 4, bit_depth: 8 };
    assert_eq!(capacity(&exact), 8);
}

#[test]
fn capacity_does_not_depend_on_the_bit_depth() {
    let eight = ImageGeometry { width: 10, height: 10, channels: 3, bit_depth: 8 };
    let sixteen = ImageGeometry { width: 10, height: 10, channels: 3, bit_depth: 16 };
    assert_eq!(capacity(&eight), capacity(&sixteen));
    assert_eq!(eight.buffer_size(), 300);
    assert_eq!(sixteen.buffer_size(), 600);
}

#[test]
fn capacity_of_the_largest_image_fits() {
    let geometry = ImageGeometry { width: u32::MAX, height: u32::MAX, channels: 4, bit_depth: 16 };
    let samples: u128 = (u32::MAX as u128) * (u32::MAX as u128) * 4;
    assert_eq!(geometry.count_samples(), samples);
    assert_eq!(capacity(&geometry) as u128, samples / 8);
    assert_eq!(geometry.buffer_size(), 2 * samples);
}

#[test]
fn validate_accepts_up_to_capacity_less_framing() {
    let geometry = ImageGeometry { width: 10, height: 10, channels: 3, bit_depth: 8 };
    assert_eq!(FRAME_OVERHEAD, 12);
    assert_eq!(validate(0, &geometry), Ok(()));
    assert_eq!(validate(capacity(&geometry) - 12, &geometry), Ok(()));
    assert_eq!(validate(capacity(&geometry) - 11, &geometry), Err(StegoError::CapacityExceeded));
    assert_eq!(validate(u64::MAX, &geometry), Err(StegoError::CapacityExceeded));
}

#[test]
fn validate_rejects_everything_where_the_framing_does_not_fit() {
    let geometry = ImageGeometry { width: 5, height: 5, channels: 3, bit_depth: 8 };
    assert_eq!(capacity(&geometry), 9);
    assert_eq!(validate(0, &geometry), Err(StegoError::CapacityExceeded));
}

#[test]
fn geometries_with_other_channels_or_depths_are_not_well_formed() {
    assert!(!ImageGeometry { width: 1, height: 1, channels: 0, bit_depth: 8 }.is_wf());
    assert!(!ImageGeometry { width: 1, height: 1, channels: 5, bit_depth: 8 }.is_wf());
    assert!(!ImageGeometry { width: 1, height: 1, channels: 3, bit_depth: 4 }.is_wf());
    assert!(ImageGeometry { width: 0, height: 0, channels: 1, bit_depth: 16 }.is_wf());
}
