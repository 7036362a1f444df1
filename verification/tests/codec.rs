use raster_canvas::canvas::Canvas;
use raster_canvas::codec::decode_header;
use raster_canvas::codec::encode_header;
use raster_canvas::codec::encode_image;
use raster_canvas::codec::encode_row;
use raster_canvas::rect;

#[test]
fn test_encode_header_bytes() {
    let header = encode_header(2, 2);
    assert_eq!(header, b"P6\n2 2\n255\n".to_vec());
    let header = encode_header(13, 240);
    assert_eq!(header, b"P6\n13 240\n255\n".to_vec());
    let header = encode_header(0, 0);
    assert_eq!(header, b"P6\n0 0\n255\n".to_vec());
}

#[test]
fn test_encode_row_bytes() {
    let pixels = vec![0x112233, 0x445566, 0x778899, 0xAABBCC];
    let row = encode_row(&pixels, 2, 2, 1);
    assert_eq!(row, vec![0x77, 0x88, 0x99, 0xAA, 0xBB, 0xCC]);
    let row = encode_row(&pixels, 2, 2, 0);
    assert_eq!(row, vec![0x11, 0x22, 0x33, 0x44, 0x55, 0x66]);
}

#[test]
fn test_encode_image_length() {
    let width = 13usize;
    let height = 7usize;
    let pixels = vec![0x010203; width * height];
    let bytes = encode_image(&pixels, width, height);
    let header_len = encode_header(width, height).len();
    assert_eq!(bytes.len(), header_len + width * height * 3);
}

#[test]
fn test_decode_header_round_trip() {
    let pixels = vec![0u32; 13 * 240];
    let bytes = encode_image(&pixels, 13, 240);
    let header_len = encode_header(13, 240).len();
    let decoded = decode_header(&bytes);
    assert_eq!(Some((13, 240, header_len)), decoded);
}

#[test]
fn test_decode_header_rejects() {
    assert_eq!(None, decode_header(&b"".to_vec()));
    assert_eq!(None, decode_header(&b"P5\n2 2\n255\n".to_vec()));
    assert_eq!(None, decode_header(&b"P6\n 2 2\n255\n".to_vec()));
    assert_eq!(None, decode_header(&b"P6\n2 2\n254\n".to_vec()));
    assert_eq!(None, decode_header(&b"P6\n2 2 255\n".to_vec()));
    assert_eq!(None, decode_header(&b"P6\n2 2\n255".to_vec()));
}

#[test]
fn test_end_to_end() {
    // Two non-overlapping rectangles on a filled background survive the
    // encode/decode trip byte for byte.
    let background = 0x112233;
    let red_box = 0xFF0000;
    let green_box = 0x00FF00;
    let mut canvas = Canvas::new(8, 6);
    canvas.fill(background);
    canvas.draw(1, 1, rect(2, 2), red_box);
    canvas.draw(5, 3, rect(2, 2), green_box);

    let bytes = encode_image(&canvas.pixels, canvas.width, canvas.height);
    let (width, height, header_len) = decode_header(&bytes).unwrap();
    assert_eq!(8, width);
    assert_eq!(6, height);
    assert_eq!(bytes.len(), header_len + width * height * 3);

    let body = &bytes[header_len..];
    for y in 0..height {
        for x in 0..width {
            let expected = if (1..=2).contains(&x) && (1..=2).contains(&y) {
                red_box
            } else if (5..=6).contains(&x) && (3..=4).contains(&y) {
                green_box
            } else {
                background
            };
            let at = (y * width + x) * 3;
            assert_eq!(body[at], ((expected >> 16) & 0xFF) as u8);
            assert_eq!(body[at + 1], ((expected >> 8) & 0xFF) as u8);
            assert_eq!(body[at + 2], (expected & 0xFF) as u8);
        }
    }
}
