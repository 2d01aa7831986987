use libppm::colors::BLACK;
use libppm::colors::MAGENTA;
use libppm::colors::RED;
use libppm::colors::WHITE;
use libppm::coordinate::CircleCoordinates;
use libppm::coordinate::Coordinate;
use libppm::graphics::image::Image;
use libppm::ppm::PPMImage;

#[test]
fn test_draw_circle() {
    let mut image = Image::builder().rows(512).cols(512).build().unwrap();
    image.fill(MAGENTA);
    image
        .draw_circle(
            BLACK,
            CircleCoordinates {
                center: Coordinate::new(256, 256),
                radius: 100,
            },
        )
        .unwrap();

    let ppm = PPMImage::builder()
        .image(&image)
        .filename("test_draw_circle.ppm")
        .build()
        .unwrap();
    assert!(ppm.serialize().is_ok());
}

#[test]
fn test_draw_japanese_flag() {
    // Dimensions from the official flag construction:
    // flag height : flag width = 2:3
    // circle diameter : 3/5 of the flag's height
    let unit_length = 512;
    let radius: f32 = ((3.0 / 5.0) * (unit_length * 2) as f32) / 2.0;

    let flag_height = unit_length * 2;
    let flag_width = unit_length * 3;

    let mut image = Image::builder()
        .rows(flag_height)
        .cols(flag_width)
        .build()
        .unwrap();
    image.fill(WHITE);
    image
        .draw_filled_circle(
            RED,
            CircleCoordinates {
                center: Coordinate::new(flag_height as i32 / 2, flag_width as i32 / 2),
                radius: radius as u32,
            },
        )
        .unwrap();

    let ppm = PPMImage::builder()
        .image(&image)
        .filename("japanese_flag.ppm")
        .build()
        .unwrap();
    assert!(ppm.serialize().is_ok());
}
