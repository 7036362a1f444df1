use raster_canvas::canvas::Canvas;
use raster_canvas::rect::nomalize_rect;
use raster_canvas::rect::NomalizedRect;

fn assert_rect(rect: NomalizedRect, rect_expect: NomalizedRect) {
    assert_eq!(rect.x1, rect_expect.x1);
    assert_eq!(rect.y1, rect_expect.y1);
    assert_eq!(rect.x2, rect_expect.x2);
    assert_eq!(rect.y2, rect_expect.y2);
}

#[test]
fn test_normalize_rect() {
    let canvas = Canvas::new(20, 20);
    let Some(rect) = nomalize_rect(&canvas, 2, 2, 2, 2) else { panic!() };
    let expect: NomalizedRect = NomalizedRect {
        x1: 2,
        y1: 2,
        x2: 3,
        y2: 3,
    };
    assert_rect(rect, expect);

    let canvas = Canvas::new(20, 20);
    let Some(rect) = nomalize_rect(&canvas, 2, 2, -2, -2) else { panic!() };
    let expect: NomalizedRect = NomalizedRect {
        x1: 1,
        y1: 1,
        x2: 2,
        y2: 2,
    };
    assert_rect(rect, expect);

    let canvas = Canvas::new(20, 20);
    let Some(rect) = nomalize_rect(&canvas, 1, 1, -2, -2) else { panic!() };
    let expect: NomalizedRect = NomalizedRect {
        x1: 0,
        y1: 0,
        x2: 1,
        y2: 1,
    };
    assert_rect(rect, expect);

    let canvas = Canvas::new(20, 20);
    let Some(rect) = nomalize_rect(&canvas, 18, 18, 4, 4) else { panic!() };
    let expect: NomalizedRect = NomalizedRect {
        x1: 18,
        y1: 18,
        x2: 19,
        y2: 19,
    };
    assert_rect(rect, expect);
}

#[test]
fn test_normalize_zero_extent() {
    let canvas = Canvas::new(20, 20);
    assert!(nomalize_rect(&canvas, 2, 2, 0, 5).is_none());
    assert!(nomalize_rect(&canvas, 2, 2, 5, 0).is_none());
    assert!(nomalize_rect(&canvas, 2, 2, 0, 0).is_none());
}

#[test]
fn test_canvas_fill() {
    let mut canvas = Canvas::new(2, 2);
    let color = 0xFF0000;
    canvas.fill(color);
    for i in 0..canvas.pixels.len() {
        assert_eq!(canvas.pixels[i], color);
    }
}

#[test]
fn test_set_pixel() {
    let mut canvas = Canvas::new(2, 2);
    let result = canvas.set_pixel(2, 2, 0xFF0000);
    assert_eq!(Err("Coordinates are out of bounds"), result);

    let expected = Ok((255, 0, 0));
    let mut canvas = Canvas::new(2, 2);
    let set_result = canvas.set_pixel(0, 0, 0xFF0000);
    assert_eq!(Ok(()), set_result);

    let result = canvas.get_pixel(0, 0);
    assert_eq!(expected, result);
}

#[test]
fn test_get_pixel() {
    let canvas = Canvas::new(2, 2);
    let result = canvas.get_pixel(2, 2);
    assert_eq!(Err("Coordinates are out of bounds"), result);

    let mut canvas = Canvas::new(2, 2);
    canvas.fill(0xFF0000);
    let expected = Ok((255, 0, 0));
    let result = canvas.get_pixel(0, 0);
    assert_eq!(expected, result);

    let mut canvas = Canvas::new(2, 2);
    canvas.fill(0x00FF00);
    let expected = Ok((0, 255, 0));
    let result = canvas.get_pixel(0, 0);
    assert_eq!(expected, result);

    let mut canvas = Canvas::new(2, 2);
    canvas.fill(0x0000FF);
    let expected = Ok((0, 0, 255));
    let result = canvas.get_pixel(0, 0);
    assert_eq!(expected, result);

    let pixels: [u32; 0] = [];
    let canvas = Canvas {
        width: 2,
        height: 2,
        stride: 2,
        pixels: pixels.to_vec(),
    };
    let result = canvas.get_pixel(0, 0);
    assert_eq!(Err("Array is empty"), result);
}

#[test]
fn test_set_get_round_trip() {
    let mut canvas = Canvas::new(4, 3);
    assert_eq!(Ok(()), canvas.set_pixel(3, 2, 0x123456));
    assert_eq!(Ok((0x12, 0x34, 0x56)), canvas.get_pixel(3, 2));
    assert_eq!(Ok(()), canvas.set_pixel(0, 1, 0x00A1B2));
    assert_eq!(Ok((0x00, 0xA1, 0xB2)), canvas.get_pixel(0, 1));
}

#[test]
fn test_empty_buffer_set_pixel() {
    let pixels: [u32; 0] = [];
    let mut canvas = Canvas {
        width: 2,
        height: 2,
        stride: 2,
        pixels: pixels.to_vec(),
    };
    assert_eq!(Err("Array is empty"), canvas.set_pixel(0, 0, 0xFF0000));
    assert_eq!(Err("Array is empty"), canvas.set_pixel(5, 7, 0xFF0000));
    let canvas = Canvas::new(0, 4);
    assert_eq!(Err("Array is empty"), canvas.get_pixel(0, 0));
}

#[test]
fn test_bounds_one_past_edge() {
    let mut canvas = Canvas::new(3, 2);
    assert_eq!(Err("Coordinates are out of bounds"), canvas.get_pixel(3, 0));
    assert_eq!(Err("Coordinates are out of bounds"), canvas.get_pixel(0, 2));
    assert_eq!(Err("Coordinates are out of bounds"), canvas.set_pixel(3, 0, 1));
    assert_eq!(Err("Coordinates are out of bounds"), canvas.set_pixel(0, 2, 1));
    assert_eq!(Ok(()), canvas.set_pixel(2, 1, 1));
}
