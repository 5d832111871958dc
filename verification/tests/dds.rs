use wc3_formats::dds::{encode_jpg, encode_png, ConvError};

fn u32le(v: &mut Vec<u8>, x: u32) {
    v.extend_from_slice(&x.to_le_bytes());
}

/// A DXT1 DDS file of the given size, every block one colour.
fn dxt1(width: u32, height: u32) -> Vec<u8> {
    let mut v = b"DDS ".to_vec();
    u32le(&mut v, 124);
    u32le(&mut v, 0x1 | 0x2 | 0x4 | 0x1000);
    u32le(&mut v, height);
    u32le(&mut v, width);
    for _ in 0..3 {
        u32le(&mut v, 0);
    }
    v.extend_from_slice(&[0; 44]);
    u32le(&mut v, 32);
    u32le(&mut v, 0x4);
    v.extend_from_slice(b"DXT1");
    for _ in 0..5 {
        u32le(&mut v, 0);
    }
    v.extend_from_slice(&[0; 20]);
    assert_eq!(v.len(), 128);
    for _ in 0..(width / 4) * (height / 4) {
        v.extend_from_slice(&[0x00, 0xf8, 0x00, 0xf8, 0, 0, 0, 0]);
    }
    v
}

#[test]
fn dds_to_png_and_jpeg() {
    let dds = dxt1(8, 4);
    let png = encode_png(&dds).unwrap();
    assert_eq!(&png[..8], b"\x89PNG\r\n\x1a\n");
    let jpg = encode_jpg(&dds).unwrap();
    assert_eq!(&jpg[..2], &[0xff, 0xd8]);
    assert_eq!(&jpg[jpg.len() - 2..], &[0xff, 0xd9]);
}

#[test]
fn zero_width_textures_are_refused() {
    assert!(matches!(encode_png(&dxt1(0, 4)), Err(ConvError::ZeroWidth)));
    assert!(matches!(encode_jpg(&dxt1(0, 4)), Err(ConvError::ZeroWidth)));
}

#[test]
fn what_is_no_dds_is_an_image_error() {
    assert!(matches!(encode_png(b"not a texture"), Err(ConvError::Image(_))));
    assert!(matches!(encode_jpg(&dxt1(6, 4)), Err(ConvError::Image(_))));
}
