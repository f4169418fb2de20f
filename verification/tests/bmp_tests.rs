use mazecaster::bmp::encode_bmp;

fn le32(bytes: &[u8], at: usize) -> u32 {
    u32::from_le_bytes([bytes[at], bytes[at + 1], bytes[at + 2], bytes[at + 3]])
}

fn le16(bytes: &[u8], at: usize) -> u16 {
    u16::from_le_bytes([bytes[at], bytes[at + 1]])
}

#[test]
fn header_fields() {
    // 2 x 2 image: each row 6 bytes, padded to 8.
    let rgb = vec![0u8; 12];
    let file = encode_bmp(2, 2, &rgb);
    assert_eq!(&file[0..2], b"BM");
    assert_eq!(le32(&file, 2), 54 + 16);
    assert_eq!(le16(&file, 6), 0);
    assert_eq!(le16(&file, 8), 0);
    assert_eq!(le32(&file, 10), 54);
    assert_eq!(le32(&file, 14), 40);
    assert_eq!(le32(&file, 18), 2);
    assert_eq!(le32(&file, 22), 2);
    assert_eq!(le16(&file, 26), 1);
    assert_eq!(le16(&file, 28), 24);
    assert_eq!(le32(&file, 30), 0);
    assert_eq!(le32(&file, 34), 16);
    assert_eq!(le32(&file, 38), 2835);
    assert_eq!(le32(&file, 42), 2835);
    assert_eq!(le32(&file, 46), 0);
    assert_eq!(le32(&file, 50), 0);
    assert_eq!(file.len(), 70);
}

#[test]
fn rows_bottom_up_in_bgr_with_padding() {
    // pixel (0,0) red, (1,0) green, (0,1) blue, (1,1) white
    let rgb = vec![255, 0, 0, 0, 255, 0, 0, 0, 255, 255, 255, 255];
    let file = encode_bmp(2, 2, &rgb);
    let data = &file[54..];
    assert_eq!(data, &[255, 0, 0, 255, 255, 255, 0, 0, 0, 0, 255, 0, 255, 0, 0, 0][..]);
}

#[test]
fn row_of_four_pixels_needs_no_padding() {
    let rgb: Vec<u8> = (0..12).collect();
    let file = encode_bmp(4, 1, &rgb);
    assert_eq!(file.len(), 54 + 12);
    assert_eq!(&file[54..], &[2, 1, 0, 5, 4, 3, 8, 7, 6, 11, 10, 9][..]);
}

#[test]
fn single_pixel_row_padded_to_four() {
    let rgb = vec![1, 2, 3];
    let file = encode_bmp(1, 1, &rgb);
    assert_eq!(&file[54..], &[3, 2, 1, 0][..]);
    assert_eq!(le32(&file, 34), 4);
}

#[test]
fn empty_image_is_header_only() {
    let file = encode_bmp(0, 3, &[]);
    assert_eq!(file.len(), 54);
    assert_eq!(le32(&file, 2), 54);
    assert_eq!(le32(&file, 34), 0);
    assert_eq!(le32(&file, 22), 3);
}

#[test]
fn extra_input_bytes_are_ignored() {
    let rgb = vec![1, 2, 3, 9, 9, 9];
    let file = encode_bmp(1, 1, &rgb);
    assert_eq!(&file[54..], &[3, 2, 1, 0][..]);
}

#[test]
fn law_row_stride_on_values() {
    for w in 0usize..9 {
        let rgb = vec![0u8; w * 3];
        let file = encode_bmp(w, 1, &rgb);
        let stride = file.len() - 54;
        assert_eq!(stride % 4, 0);
        assert!(3 * w <= stride && stride < 3 * w + 4);
    }
}

#[test]
fn law_pixel_location_on_values() {
    let (w, h) = (3usize, 2usize);
    let rgb: Vec<u8> = (0..(w * h * 3) as u8).collect();
    let file = encode_bmp(w, h, &rgb);
    let stride = 12;
    for y in 0..h {
        for x in 0..w {
            let at = 54 + (h - 1 - y) * stride + 3 * x;
            let src = 3 * (y * w + x);
            assert_eq!(file[at], rgb[src + 2]);
            assert_eq!(file[at + 1], rgb[src + 1]);
            assert_eq!(file[at + 2], rgb[src]);
        }
    }
}
