use libppm::colors::BLACK;
use libppm::colors::CYAN;
use libppm::colors::GRAY;
use libppm::colors::LIME;
use libppm::colors::MAGENTA;
use libppm::colors::OLIVE;
use libppm::colors::SILVER;
use libppm::colors::WHITE;
use libppm::colors::YELLOW;
use libppm::coordinate::Coordinate;
use libppm::coordinate::LineCoordinates;
use libppm::graphics::image::Image;
use libppm::ppm::PPMImage;
use libppm::validate::ValidationError;

#[test]
fn test_big_image() {
    let mut image = Image::builder().rows(1080).cols(1920).build().unwrap();
    image.fill(MAGENTA);
    image.checkerboard(16, BLACK);

    let ppm = PPMImage::builder()
        .image(&image)
        .filename("big_image.ppm")
        .build()
        .unwrap();
    assert!(ppm.serialize().is_ok());
}

#[test]
fn lines_test_fill() {
    let mut image = Image::builder().rows(640).cols(640).build().unwrap();
    image.fill(YELLOW);

    let ppm = PPMImage::builder()
        .image(&image)
        .filename("yellow_image.ppm")
        .build()
        .unwrap();
    assert!(ppm.serialize().is_ok());
}

#[test]
fn lines_test_line_dda() {
    let rows = 512;
    let cols = 512;
    let mut image = Image::builder().rows(rows).cols(cols).build().unwrap();
    image.fill(MAGENTA);

    image
        .draw_line_dda(
            BLACK,
            LineCoordinates::new(0, 0, rows as i32 - 1, cols as i32 - 1),
        )
        .unwrap();
    image
        .draw_line_dda(
            BLACK,
            LineCoordinates::new(rows as i32 - 1, cols as i32 - 1, 37, 128),
        )
        .unwrap();
    image
        .draw_line_dda(
            BLACK,
            LineCoordinates::new(0, cols as i32 / 2, rows as i32 / 2, cols as i32 / 2),
        )
        .unwrap();

    let ppm = PPMImage::builder()
        .image(&image)
        .filename("test_line_dda.ppm")
        .build()
        .unwrap();
    assert!(ppm.serialize().is_ok());
}

#[test]
fn test_draw_line_with_oob_coordinate() {
    let rows = 32;
    let cols = 32;
    let mut invalid_image = Image::builder().rows(rows).cols(cols).build().unwrap();
    invalid_image.fill(MAGENTA);

    let invalid_image_without_error = invalid_image.clone();

    match invalid_image.draw_line_dda(
        BLACK,
        LineCoordinates::new(0, 0, rows as i32, cols as i32),
    ) {
        Err(ValidationError::OutOfBoundsInImageError {
            coordinate,
            rows: err_rows,
            cols: err_cols,
        }) => {
            assert_eq!(
                coordinate,
                Coordinate {
                    x: rows as i32,
                    y: cols as i32,
                },
            );
            assert_eq!(err_rows, rows);
            assert_eq!(err_cols, cols);

            assert_eq!(invalid_image, invalid_image_without_error);
        }
        _ => panic!("Expected to get an error."),
    }
}

#[test]
fn test_draw_line_bresenham() {
    let rows = 32;
    let cols = 32;
    let mut image = Image::builder().rows(rows).cols(cols).build().unwrap();
    image.fill(MAGENTA);

    // Line with slope == 1
    image
        .draw_line_bresenham(
            BLACK,
            LineCoordinates::new(0, 0, (rows - 1) as i32, (cols - 1) as i32),
        )
        .unwrap();
    // Line with slope == 1, but x1 < x0
    image
        .draw_line_bresenham(
            OLIVE,
            LineCoordinates::new(
                (rows - 2) as i32,
                (cols - 2) as i32,
                (rows / 2) as i32,
                (cols / 2) as i32,
            ),
        )
        .unwrap();
    // Line with slope = infinity (vertical line)
    image
        .draw_line_bresenham(LIME, LineCoordinates::new(1, 1, 1, (cols - 2) as i32))
        .unwrap();
    // Line with slope = infinity (vertical line), but y1 < y0
    image
        .draw_line_bresenham(
            OLIVE,
            LineCoordinates::new(1, (cols / 2) as i32, 1, (cols - 2) as i32),
        )
        .unwrap();
    // Line with slope = 0 (horizontal line)
    image
        .draw_line_bresenham(GRAY, LineCoordinates::new(1, 1, (rows - 2) as i32, 1))
        .unwrap();
    // Line with slope = 0 (horizontal line), but x1 < x0
    image
        .draw_line_bresenham(
            OLIVE,
            LineCoordinates::new((rows / 2) as i32, 1, (rows - 2) as i32, 1),
        )
        .unwrap();
    // Line with slope : 0 < slope < 1
    image
        .draw_line_bresenham(
            SILVER,
            LineCoordinates::new(1, 1, (rows - 2) as i32, (cols / 2) as i32),
        )
        .unwrap();
    // Line with slope : 0 < slope < 1, but x1 < x0
    image
        .draw_line_bresenham(
            OLIVE,
            LineCoordinates::new(
                (rows - 2) as i32,
                (cols / 2) as i32,
                (rows / 2) as i32,
                (cols / 4) as i32,
            ),
        )
        .unwrap();
    // Line with slope : 1 < slope
    image
        .draw_line_bresenham(
            CYAN,
            LineCoordinates::new(1, 1, (rows / 2) as i32, (cols - 2) as i32),
        )
        .unwrap();
    // Line with slope : 1 < slope, but x1 < x0
    image
        .draw_line_bresenham(
            WHITE,
            LineCoordinates::new(
                (rows / 2) as i32,
                (cols - 2) as i32,
                (rows / 4) as i32,
                (cols / 4) as i32,
            ),
        )
        .unwrap();

    let ppm = PPMImage::builder()
        .image(&image)
        .filename("test_draw_line_bresenham.ppm")
        .build()
        .unwrap();
    assert!(ppm.serialize().is_ok());
}
