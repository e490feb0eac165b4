use laboratorio_1::canvas::Canvas;
use laboratorio_1::export::to_rgb_image;
use laboratorio_1::geometry::Point;

#[test]
fn image_has_the_channels_of_each_pixel() {
    let mut canvas = Canvas::new(3, 2, 0xFFFFFF).unwrap();
    canvas.plot(Point { x: 0, y: 0 }, 0xFF0000);
    canvas.plot(Point { x: 1, y: 0 }, 0x00FF00);
    canvas.plot(Point { x: 2, y: 0 }, 0x0000FF);
    canvas.plot(Point { x: 0, y: 1 }, 0x123456);
    canvas.plot(Point { x: 1, y: 1 }, 0xAB000000);
    let picture = to_rgb_image(&canvas).unwrap();
    assert_eq!(picture.image.dimensions(), (3, 2));
    assert_eq!(picture.image.get_pixel(0, 0).0, [0xFF, 0, 0]);
    assert_eq!(picture.image.get_pixel(1, 0).0, [0, 0xFF, 0]);
    assert_eq!(picture.image.get_pixel(2, 0).0, [0, 0, 0xFF]);
    assert_eq!(picture.image.get_pixel(0, 1).0, [0x12, 0x34, 0x56]);
    assert_eq!(picture.image.get_pixel(1, 1).0, [0, 0, 0]);
    assert_eq!(picture.image.get_pixel(2, 1).0, [0xFF, 0xFF, 0xFF]);
}

#[test]
fn image_bytes_run_row_after_row() {
    let mut canvas = Canvas::new(2, 2, 0).unwrap();
    canvas.plot(Point { x: 1, y: 0 }, 0x010203);
    canvas.plot(Point { x: 0, y: 1 }, 0x040506);
    let picture = to_rgb_image(&canvas).unwrap();
    assert_eq!(picture.image.as_raw(), &vec![0, 0, 0, 1, 2, 3, 4, 5, 6, 0, 0, 0]);
}

#[test]
fn empty_canvas_gives_an_empty_image() {
    let canvas = Canvas::new(0, 0, 5).unwrap();
    let picture = to_rgb_image(&canvas).unwrap();
    assert_eq!(picture.image.dimensions(), (0, 0));
    let canvas = Canvas::new(4, 0, 5).unwrap();
    let picture = to_rgb_image(&canvas).unwrap();
    assert_eq!(picture.image.dimensions(), (4, 0));
    assert!(picture.image.as_raw().is_empty());
}

#[test]
fn canvas_wider_than_an_image_is_refused() {
    let canvas = Canvas::new(u32::MAX as usize + 1, 0, 0).unwrap();
    assert!(to_rgb_image(&canvas).is_none());
    let canvas = Canvas::new(0, u32::MAX as usize + 1, 0).unwrap();
    assert!(to_rgb_image(&canvas).is_none());
}
