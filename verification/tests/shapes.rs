use raster_canvas::canvas::Canvas;
use raster_canvas::circle;
use raster_canvas::rect;

#[test]
fn test_draw_rect() {
    let mut canvas = Canvas::new(6, 5);
    canvas.draw(1, 2, rect(3, 2), 0xAA55CC);
    for y in 0..5usize {
        for x in 0..6usize {
            let expected = if (1..=3).contains(&x) && (2..=3).contains(&y) {
                (0xAA, 0x55, 0xCC)
            } else {
                (0, 0, 0)
            };
            assert_eq!(Ok(expected), canvas.get_pixel(x, y));
        }
    }
}

#[test]
fn test_draw_rect_negative_extent() {
    // The same cells as drawing (2, 2) at (2, 3): extents extend leftward
    // and upward from the origin.
    let mut canvas = Canvas::new(6, 6);
    canvas.draw(3, 4, rect(-2, -2), 0x010203);
    for y in 0..6usize {
        for x in 0..6usize {
            let expected = if (2..=3).contains(&x) && (3..=4).contains(&y) {
                (1, 2, 3)
            } else {
                (0, 0, 0)
            };
            assert_eq!(Ok(expected), canvas.get_pixel(x, y));
        }
    }
}

#[test]
fn test_draw_rect_clipped() {
    let mut canvas = Canvas::new(4, 4);
    canvas.draw(-2, -1, rect(3, 3), 0xFFFFFF);
    for y in 0..4usize {
        for x in 0..4usize {
            let expected = if x == 0 && (0..=1).contains(&y) {
                (255, 255, 255)
            } else {
                (0, 0, 0)
            };
            assert_eq!(Ok(expected), canvas.get_pixel(x, y));
        }
    }
}

#[test]
fn test_draw_rect_zero_extent() {
    let mut canvas = Canvas::new(4, 4);
    canvas.draw(1, 1, rect(0, 3), 0xFFFFFF);
    canvas.draw(1, 1, rect(3, 0), 0xFFFFFF);
    for y in 0..4usize {
        for x in 0..4usize {
            assert_eq!(Ok((0, 0, 0)), canvas.get_pixel(x, y));
        }
    }
}

#[test]
fn test_draw_circle_unit_radius() {
    // Radius 1 at (0, 0): bounding box [0,1]x[0,1], center (1,1); the
    // corner (0, 0) lies at squared distance 2 and stays unpainted.
    let mut canvas = Canvas::new(4, 4);
    canvas.draw(0, 0, circle(1), 0x0000FF);
    assert_eq!(Ok((0, 0, 0)), canvas.get_pixel(0, 0));
    assert_eq!(Ok((0, 0, 255)), canvas.get_pixel(1, 0));
    assert_eq!(Ok((0, 0, 255)), canvas.get_pixel(0, 1));
    assert_eq!(Ok((0, 0, 255)), canvas.get_pixel(1, 1));
    assert_eq!(Ok((0, 0, 0)), canvas.get_pixel(2, 0));
    assert_eq!(Ok((0, 0, 0)), canvas.get_pixel(2, 2));
}

#[test]
fn test_circle_symmetry() {
    // Radius 3 drawn at (5, 5): center (8, 8). Within the box rows and
    // columns that have a reflected mate, painted cells mirror in x, in y,
    // and in both.
    let mut canvas = Canvas::new(20, 20);
    canvas.draw(5, 5, circle(3), 0x00FF00);
    for y in 6..=10usize {
        for x in 6..=10usize {
            let here = canvas.get_pixel(x, y).unwrap();
            assert_eq!(here, canvas.get_pixel(16 - x, y).unwrap());
            assert_eq!(here, canvas.get_pixel(x, 16 - y).unwrap());
            assert_eq!(here, canvas.get_pixel(16 - x, 16 - y).unwrap());
        }
    }
}

#[test]
fn test_circle_negative_radius() {
    let mut canvas = Canvas::new(4, 4);
    canvas.fill(0x111111);
    canvas.draw(1, 1, circle(-1), 0xFF0000);
    canvas.draw(1, 1, circle(0), 0xFF0000);
    for y in 0..4usize {
        for x in 0..4usize {
            assert_eq!(Ok((0x11, 0x11, 0x11)), canvas.get_pixel(x, y));
        }
    }
}

#[test]
fn test_circle_clipped() {
    // Radius 2 at (-2, -2): center (0, 0); only the quarter that overlaps
    // the canvas is painted, without any out-of-bounds write.
    let mut canvas = Canvas::new(4, 4);
    canvas.draw(-2, -2, circle(2), 0x123456);
    for y in 0..4usize {
        for x in 0..4usize {
            let inside = x * x + y * y <= 4;
            let expected = if x <= 1 && y <= 1 && inside {
                (0x12, 0x34, 0x56)
            } else {
                (0, 0, 0)
            };
            assert_eq!(Ok(expected), canvas.get_pixel(x, y));
        }
    }
}
