use base64::Engine;
use vision_rust_core::decimal::decimal_string;
use vision_rust_core::error::VisionError;
use vision_rust_core::grid::PixelArray;
use vision_rust_core::png::{array_to_base64_png, check_overlay_shapes};

#[test]
fn test_thumbnail_creation() {
    // Create a simple test image
    let mut data = Vec::new();
    for y in 0..100u32 {
        for x in 0..100u32 {
            data.extend_from_slice(&[(x % 256) as u8, (y % 256) as u8, 128]);
        }
    }
    let img = PixelArray::from_vec(100, 100, 3, data).unwrap();
    let encoded = array_to_base64_png(&img).unwrap();
    assert!(!encoded.is_empty());
}

#[test]
fn png_base64_decodes_to_a_png_file() {
    let img = PixelArray::from_vec(2, 2, 4, vec![255; 16]).unwrap();
    let encoded = array_to_base64_png(&img).unwrap();
    assert_eq!(encoded.len() % 4, 0);
    let bytes = base64::engine::general_purpose::STANDARD.decode(&encoded).unwrap();
    assert_eq!(&bytes[..8], &[0x89, b'P', b'N', b'G', 0x0D, 0x0A, 0x1A, 0x0A]);
    assert!(encoded.starts_with("iVBORw0KGgo"));
}

#[test]
fn unsupported_channel_counts_are_invalid_input() {
    let img = PixelArray::from_vec(1, 1, 2, vec![0, 0]).unwrap();
    match array_to_base64_png(&img) {
        Err(VisionError::InvalidInput(m)) => assert_eq!(m, "Unsupported channel count: 2"),
        other => panic!("unexpected {other:?}"),
    }
}

#[test]
fn test_overlay_shape_mismatch() {
    let result = check_overlay_shapes(100, 100, 3, 50, 50);
    assert!(result.is_err());
}

#[test]
fn overlay_shape_errors_name_the_shapes() {
    match check_overlay_shapes(100, 80, 3, 50, 40) {
        Err(VisionError::ShapeMismatch { expected, actual }) => {
            assert_eq!(expected, "(100, 80)");
            assert_eq!(actual, "(50, 40)");
        }
        other => panic!("unexpected {other:?}"),
    }
    match check_overlay_shapes(10, 10, 4, 10, 10) {
        Err(VisionError::InvalidInput(m)) => assert_eq!(m, "Image must have 3 channels"),
        other => panic!("unexpected {other:?}"),
    }
    assert!(check_overlay_shapes(10, 10, 3, 10, 10).is_ok());
}

#[test]
fn decimal_text() {
    assert_eq!(decimal_string(0), "0");
    assert_eq!(decimal_string(7), "7");
    assert_eq!(decimal_string(10), "10");
    assert_eq!(decimal_string(12345), "12345");
    assert_eq!(decimal_string(usize::MAX), usize::MAX.to_string());
}

#[test]
fn pixel_array_shape_is_checked() {
    assert!(PixelArray::from_vec(2, 2, 3, vec![0; 12]).is_some());
    assert!(PixelArray::from_vec(2, 2, 3, vec![0; 11]).is_none());
    assert!(PixelArray::from_vec(0, 5, 3, vec![]).is_some());
    assert!(PixelArray::from_vec(usize::MAX, 2, 0, vec![]).is_some());
}

#[test]
fn empty_images_are_refused_by_the_encoder_and_small_ones_encode() {
    let empty = PixelArray::from_vec(0, 5, 3, Vec::new()).unwrap();
    assert!(matches!(array_to_base64_png(&empty), Err(VisionError::ImageError(_))));
    let one = PixelArray::from_vec(1, 1, 4, vec![1, 2, 3, 4]).unwrap();
    assert!(array_to_base64_png(&one).is_ok());
}
