use glyph_raster::{CapacityExceeded, Geometry, Point, Raster};

fn px(x: i16, y: i16) -> Point {
    Point::from_pixels(x, y)
}

fn line(a: Point, b: Point) -> Geometry {
    Geometry::Line { a, b }
}

fn draw_rect(r: &mut Raster, x0: i16, y0: i16, x1: i16, y1: i16) {
    r.draw(&line(px(x0, y0), px(x1, y0)));
    r.draw(&line(px(x1, y0), px(x1, y1)));
    r.draw(&line(px(x1, y1), px(x0, y1)));
    r.draw(&line(px(x0, y1), px(x0, y0)));
}

#[test]
fn horizontal_line_adds_nothing() {
    let mut r = Raster::new(4, 4);
    r.draw_line(&Point::new(-300, 512), &Point::new(900, 512));
    r.draw_line(&px(0, 0), &px(4, 0));
    assert_eq!(r.get_bitmap(), vec![0u8; 16]);
}

#[test]
fn closed_rectangle_is_filled() {
    let mut r = Raster::new(4, 4);
    draw_rect(&mut r, 1, 1, 3, 3);
    let expected: Vec<u8> = vec![
        0, 0, 0, 0, //
        0, 255, 255, 0, //
        0, 255, 255, 0, //
        0, 0, 0, 0,
    ];
    assert_eq!(r.consume_bitmap(), expected);
}

#[test]
fn rectangle_against_right_edge_is_filled() {
    let mut r = Raster::new(4, 3);
    draw_rect(&mut r, 2, 0, 4, 3);
    let expected: Vec<u8> = vec![
        0, 0, 255, 255, //
        0, 0, 255, 255, //
        0, 0, 255, 255,
    ];
    assert_eq!(r.consume_bitmap(), expected);
}

#[test]
fn counter_clockwise_rectangle_is_filled() {
    let mut r = Raster::new(3, 3);
    r.draw(&line(px(0, 0), px(0, 3)));
    r.draw(&line(px(0, 3), px(3, 3)));
    r.draw(&line(px(3, 3), px(3, 0)));
    r.draw(&line(px(3, 0), px(0, 0)));
    assert_eq!(r.get_bitmap(), vec![255u8; 9]);
}

#[test]
fn consume_twice_gives_blank_second_bitmap() {
    let mut r = Raster::new(4, 4);
    draw_rect(&mut r, 1, 1, 3, 3);
    let first = r.consume_bitmap();
    assert_eq!(first[5], 255);
    assert_eq!(r.consume_bitmap(), vec![0u8; 16]);
}

#[test]
fn get_twice_gives_same_bitmap() {
    let mut r = Raster::new(4, 4);
    r.draw(&Geometry::Curve { a: px(0, 0), b: px(4, 2), c: px(0, 4) });
    r.draw(&line(px(0, 4), px(0, 0)));
    let first = r.get_bitmap();
    let second = r.get_bitmap();
    assert_eq!(first, second);
    assert!(first.iter().any(|&b| b > 0));
}

#[test]
fn straight_curve_matches_its_chord() {
    let p0 = Point::new(100, 50);
    let p2 = Point::new(900, 1000);
    let p1 = Point::new(500, 525);
    let mut by_curve = Raster::new(4, 4);
    by_curve.draw_curve(&p0, &p1, &p2);
    let mut by_line = Raster::new(4, 4);
    by_line.draw_line(&p0, &p2);
    assert_eq!(by_curve.get_bitmap(), by_line.get_bitmap());
}

#[test]
fn diagonal_line_scenario() {
    let mut r = Raster::new(4, 4);
    r.draw(&line(px(1, 1), px(3, 3)));
    let bitmap = r.consume_bitmap();
    let expected: Vec<u8> = vec![
        0, 0, 0, 0, //
        0, 127, 255, 255, //
        255, 255, 255, 255, //
        255, 255, 255, 255,
    ];
    assert_eq!(bitmap, expected);
    assert!(bitmap[0..4].iter().all(|&b| b == 0));
    assert_eq!(bitmap[4], 0);
}

#[test]
fn upward_line_has_negative_winding() {
    let mut down = Raster::new(2, 2);
    down.draw_line(&px(1, 0), &px(1, 1));
    let mut up = Raster::new(2, 2);
    up.draw_line(&px(1, 1), &px(1, 0));
    assert_eq!(down.get_bitmap(), vec![0, 255, 255, 255]);
    assert_eq!(up.get_bitmap(), down.get_bitmap());
}

#[test]
fn half_covered_pixel() {
    let mut r = Raster::new(2, 1);
    r.draw_line(&Point::new(128, 0), &Point::new(128, 256));
    r.draw_line(&Point::new(512, 256), &Point::new(512, 0));
    assert_eq!(r.get_bitmap(), vec![127, 255]);
}

#[test]
fn quarter_height_edge() {
    let mut r = Raster::new(1, 1);
    r.draw_line(&Point::new(0, 0), &Point::new(0, 64));
    r.draw_line(&Point::new(256, 64), &Point::new(256, 0));
    assert_eq!(r.get_bitmap(), vec![63]);
}

#[test]
fn refit_beyond_capacity_fails() {
    let mut r = Raster::new(4, 4);
    assert_eq!(
        r.refit(5, 4),
        Err(CapacityExceeded { width: 5, height: 4, capacity: 20 })
    );
    assert_eq!(
        r.refit(usize::MAX, 2),
        Err(CapacityExceeded { width: usize::MAX, height: 2, capacity: 20 })
    );
    assert_eq!(r.refit(4, 5), Err(CapacityExceeded { width: 4, height: 5, capacity: 20 }));
    assert_eq!(r.get_bitmap().len(), 16);
}

#[test]
fn refit_below_capacity_succeeds() {
    let mut r = Raster::new(4, 4);
    assert_eq!(r.refit(19, 1), Ok(()));
    assert_eq!(r.get_bitmap().len(), 19);
    assert_eq!(r.refit(2, 3), Ok(()));
    draw_rect(&mut r, 0, 0, 2, 3);
    assert_eq!(r.consume_bitmap(), vec![255u8; 6]);
}

#[test]
fn refit_then_draw_touches_only_new_area() {
    let mut r = Raster::new(4, 4);
    assert_eq!(r.refit(2, 2), Ok(()));
    draw_rect(&mut r, 1, 0, 2, 2);
    assert_eq!(r.consume_bitmap(), vec![0, 255, 0, 255]);
    assert_eq!(r.refit(4, 4), Ok(()));
    let wide = r.get_bitmap();
    // the cleared 2x2 area reads as blank; only the slack cell at index 4,
    // which took the overshoot of the right edge, holds anything, and every
    // cell after it is untouched
    assert_eq!(&wide[0..4], &[0u8, 0, 0, 0]);
    assert!(wide[4..].iter().all(|&b| b == wide[4]));
}

#[test]
fn empty_raster_has_empty_bitmap() {
    let mut r = Raster::new(0, 0);
    assert_eq!(r.get_bitmap(), Vec::<u8>::new());
    assert_eq!(r.consume_bitmap(), Vec::<u8>::new());
}

#[test]
fn rows_above_and_below_are_clipped() {
    let mut r = Raster::new(2, 2);
    r.draw_line(&Point::new(256, -512), &Point::new(256, 1024));
    r.draw_line(&Point::new(512, 1024), &Point::new(512, -512));
    assert_eq!(r.get_bitmap(), vec![0, 255, 0, 255]);
}

#[test]
fn curved_shape_covers_its_inside() {
    let mut r = Raster::new(8, 8);
    r.draw(&Geometry::Curve { a: px(1, 1), b: px(9, 4), c: px(1, 7) });
    r.draw(&line(px(1, 7), px(1, 1)));
    let bitmap = r.consume_bitmap();
    assert_eq!(bitmap[4 * 8 + 2], 255);
    assert_eq!(bitmap[4 * 8], 0);
    assert_eq!(bitmap[0], 0);
    assert!(bitmap[4 * 8 + 4] > 0);
    assert_eq!(bitmap[4 * 8 + 7], 0);
}

#[test]
fn geometry_kind() {
    assert!(line(px(0, 0), px(1, 1)).is_line());
    assert!(!Geometry::Curve { a: px(0, 0), b: px(1, 1), c: px(2, 0) }.is_line());
}
