use world_smith::map::bmp::{decode_provinces, encode_provinces, BmpError};

#[test]
fn test_roundtrip_bmp() {
    let width = 2u32;
    let height = 2u32;
    let pixels: Vec<u8> = vec![
        255, 0, 0, 0, 255, 0, //
        0, 0, 255, 128, 64, 32,
    ];

    let bytes = encode_provinces(&pixels, width, height).unwrap();
    let (w2, h2, pixels2) = decode_provinces(&bytes).unwrap();

    assert_eq!(w2, width);
    assert_eq!(h2, height);
    assert_eq!(pixels, pixels2, "BMP ラウンドトリップで RGB 値が劣化しました！");
}

#[test]
fn encoded_file_is_an_uncompressed_bmp() {
    let bytes = encode_provinces(&[1, 2, 3], 1, 1).unwrap();
    assert_eq!(&bytes[0..2], b"BM");
    // 24 bits per pixel
    assert_eq!(bytes[28], 24);
    // a 3-byte row is padded to 4 bytes
    assert_eq!(bytes.len() as u32, u32::from_le_bytes([bytes[10], bytes[11], bytes[12], bytes[13]]) + 4);
}

#[test]
fn wrong_buffer_length_is_refused() {
    assert_eq!(encode_provinces(&[1, 2, 3, 4], 1, 1), Err(BmpError::WrongLength));
    assert_eq!(encode_provinces(&[], 1, 1), Err(BmpError::WrongLength));
    assert!(encode_provinces(&[], 0, 0).is_ok());
}

#[test]
fn bytes_that_are_not_a_bmp_are_refused() {
    assert!(decode_provinces(b"not an image").is_none());
    assert!(decode_provinces(&[]).is_none());
}
