use libppm::colors::BLACK;
use libppm::colors::CYAN;
use libppm::colors::GRAY;
use libppm::colors::RED;
use libppm::colors::TEAL;
use libppm::colors::WHITE;
use libppm::coordinate::CircleCoordinates;
use libppm::coordinate::Coordinate;
use libppm::coordinate::LineCoordinates;
use libppm::graphics::image::Image;
use libppm::ppm::PPMImage;
use libppm::ppm::PPMImageBuilderError;
use libppm::ppm::ppm_bytes;
use libppm::validate;
use libppm::validate::ValidationError;

fn colored_points(image: &Image, color: u32) -> Vec<(i32, i32)> {
    let mut out = Vec::new();
    for i in 0..*image.get_rows() as i32 {
        for j in 0..*image.get_cols() as i32 {
            if image.get_pixel(Coordinate::new(i, j)).unwrap() == color {
                out.push((i, j));
            }
        }
    }
    out
}

#[test]
fn set_pixel_then_get_pixel_roundtrip() {
    let mut image = Image::builder().rows(8).cols(8).build().unwrap();
    image.fill(GRAY);
    let before = image.clone();

    let p = Coordinate::new(3, 4);
    image.set_pixel(p, CYAN).unwrap();

    assert_eq!(image.get_pixel(p).unwrap(), CYAN);
    for i in 0..8 {
        for j in 0..8 {
            if (i, j) != (3, 4) {
                let q = Coordinate::new(i, j);
                assert_eq!(image.get_pixel(q).unwrap(), before.get_pixel(q).unwrap());
            }
        }
    }
}

#[test]
fn out_of_bounds_set_and_get_leave_buffer_unchanged() {
    let mut image = Image::builder().rows(8).cols(8).build().unwrap();
    image.fill(GRAY);
    let before = image.clone();

    for p in [
        Coordinate::new(8, 0),
        Coordinate::new(0, 8),
        Coordinate::new(-1, 0),
        Coordinate::new(0, -1),
    ] {
        match image.set_pixel(p, CYAN) {
            Err(ValidationError::OutOfBoundsInImageError { coordinate, rows, cols }) => {
                assert_eq!(coordinate, p);
                assert_eq!(rows, 8);
                assert_eq!(cols, 8);
            }
            _ => panic!("expected a bounds error"),
        }
        match image.get_pixel(p) {
            Err(ValidationError::OutOfBoundsInImageError { coordinate, .. }) => {
                assert_eq!(coordinate, p);
            }
            _ => panic!("expected a bounds error"),
        }
    }

    assert_eq!(image, before);
}

#[test]
fn fill_then_get_pixel_everywhere() {
    let mut image = Image::builder().rows(5).cols(7).build().unwrap();
    image.fill(TEAL);
    for i in 0..5 {
        for j in 0..7 {
            assert_eq!(image.get_pixel(Coordinate::new(i, j)).unwrap(), TEAL);
        }
    }
}

#[test]
fn horizontal_line_plots_exactly_eleven_pixels() {
    let mut image = Image::builder().rows(32).cols(32).build().unwrap();
    image.fill(WHITE);
    image
        .draw_line_bresenham(BLACK, LineCoordinates::new(0, 5, 10, 5))
        .unwrap();

    let pts = colored_points(&image, BLACK);
    assert_eq!(pts.len(), 11);
    for (x, y) in pts {
        assert!((0..=10).contains(&x));
        assert_eq!(y, 5);
    }
}

#[test]
fn vertical_line_plots_exactly_eleven_pixels() {
    let mut image = Image::builder().rows(32).cols(32).build().unwrap();
    image.fill(WHITE);
    image
        .draw_line_bresenham(BLACK, LineCoordinates::new(5, 0, 5, 10))
        .unwrap();

    let pts = colored_points(&image, BLACK);
    assert_eq!(pts.len(), 11);
    for (x, y) in pts {
        assert_eq!(x, 5);
        assert!((0..=10).contains(&y));
    }
}

#[test]
fn diagonal_line_plots_exactly_ten_pixels() {
    let mut image = Image::builder().rows(32).cols(32).build().unwrap();
    image.fill(WHITE);
    image
        .draw_line_bresenham(BLACK, LineCoordinates::new(0, 0, 9, 9))
        .unwrap();

    let pts = colored_points(&image, BLACK);
    assert_eq!(pts.len(), 10);
    for (x, y) in pts {
        assert_eq!(x, y);
        assert!((0..=9).contains(&x));
    }
}

#[test]
fn bresenham_and_dda_terminate_and_stay_in_bounds() {
    // Bresenham visits both endpoint pixels.
    let mut bres = Image::builder().rows(32).cols(32).build().unwrap();
    bres.fill(WHITE);
    bres.draw_line_bresenham(BLACK, LineCoordinates::new(0, 0, 31, 31))
        .unwrap();
    assert_eq!(bres.get_pixel(Coordinate::new(0, 0)).unwrap(), BLACK);
    assert_eq!(bres.get_pixel(Coordinate::new(31, 31)).unwrap(), BLACK);

    // The DDA walk takes `steps` steps starting at the first endpoint, so it
    // visits the start pixel and stops one step short of the end pixel.
    let mut dda = Image::builder().rows(32).cols(32).build().unwrap();
    dda.fill(WHITE);
    dda.draw_line_dda(BLACK, LineCoordinates::new(0, 0, 31, 31))
        .unwrap();
    assert_eq!(dda.get_pixel(Coordinate::new(0, 0)).unwrap(), BLACK);
    assert_eq!(dda.get_pixel(Coordinate::new(30, 30)).unwrap(), BLACK);
    assert_eq!(dda.get_pixel(Coordinate::new(31, 31)).unwrap(), WHITE);

    // Every plotted pixel of either algorithm lies on the diagonal's bounding
    // box; the two pixel sets are not required to coincide.
    for (x, y) in colored_points(&bres, BLACK) {
        assert!((0..=31).contains(&x) && (0..=31).contains(&y));
    }
    for (x, y) in colored_points(&dda, BLACK) {
        assert!((0..=31).contains(&x) && (0..=31).contains(&y));
    }
}

#[test]
fn circle_points_are_symmetric_and_near_radius() {
    let r: i32 = 10;
    let (cx, cy) = (32i32, 32i32);
    let mut image = Image::builder().rows(64).cols(64).build().unwrap();
    image.fill(WHITE);
    image
        .draw_circle(
            BLACK,
            CircleCoordinates::from_coordinate(Coordinate::new(cx, cy), r as u32),
        )
        .unwrap();

    let pts = colored_points(&image, BLACK);
    assert!(!pts.is_empty());
    let has = |x: i32, y: i32| pts.contains(&(x, y));
    for &(x, y) in &pts {
        let (a, b) = (x - cx, y - cy);
        // 8-way symmetry around the center.
        for (u, v) in [
            (a, b),
            (-a, b),
            (a, -b),
            (-a, -b),
            (b, a),
            (b, -a),
            (-b, a),
            (-b, -a),
        ] {
            assert!(has(cx + u, cy + v));
        }
        // Midpoint tolerance: within one pixel of the radius.
        let d2 = a * a + b * b;
        assert!((r - 1) * (r - 1) <= d2 && d2 <= (r + 1) * (r + 1));
    }
}

#[test]
fn filled_circle_covers_interior_and_spares_exterior() {
    let r: i32 = 6;
    let (cx, cy) = (16i32, 16i32);
    let mut image = Image::builder().rows(32).cols(32).build().unwrap();
    image.fill(WHITE);
    image
        .draw_filled_circle(
            RED,
            CircleCoordinates::from_coordinate(Coordinate::new(cx, cy), r as u32),
        )
        .unwrap();

    for i in 0..32 {
        for j in 0..32 {
            let d2 = (i - cx) * (i - cx) + (j - cy) * (j - cy);
            let px = image.get_pixel(Coordinate::new(i, j)).unwrap();
            if d2 <= (r - 1) * (r - 1) {
                // Strictly inside the border: filled.
                assert_eq!(px, RED);
            }
            if d2 > (r + 1) * (r + 1) {
                // Strictly outside the border: untouched.
                assert_eq!(px, WHITE);
            }
        }
    }
}

#[test]
fn serializing_short_pixel_data_fails() {
    let data = vec![BLACK; 15];
    match ppm_bytes(4, 4, &data) {
        Err(ValidationError::NotEnoughPixelData { expected, actual }) => {
            assert_eq!(expected, 16);
            assert_eq!(actual, 15);
        }
        _ => panic!("expected a pixel-data-length error"),
    }
}

#[test]
fn serializing_excess_pixel_data_fails() {
    let data = vec![BLACK; 17];
    match ppm_bytes(4, 4, &data) {
        Err(ValidationError::TooMuchPixelData { expected, actual }) => {
            assert_eq!(expected, 16);
            assert_eq!(actual, 17);
        }
        _ => panic!("expected a pixel-data-length error"),
    }
}

#[test]
fn serializer_produces_exact_ppm_bytes() {
    let data = vec![0x00112233u32, 0x00AABBCCu32];
    let bytes = ppm_bytes(1, 2, &data).unwrap();
    let mut expected = b"P6\n2 1\n255\n".to_vec();
    expected.extend_from_slice(&[0x11, 0x22, 0x33, 0xAA, 0xBB, 0xCC]);
    assert_eq!(bytes, expected);
}

#[test]
fn ppm_image_serialize_matches_raw_serializer() {
    let mut image = Image::builder().rows(2).cols(2).build().unwrap();
    image.fill(0x00010203);
    let ppm = PPMImage::builder()
        .image(&image)
        .filename("small.ppm")
        .build()
        .unwrap();
    let via_image = ppm.serialize().unwrap();
    let via_raw = ppm_bytes(2, 2, image.get_data()).unwrap();
    assert_eq!(via_image, via_raw);
}

#[test]
fn ppm_builder_requires_image_and_filename() {
    let err = PPMImage::builder().filename("x.ppm").build().unwrap_err();
    assert_eq!(err, PPMImageBuilderError::ImageNotProvided);

    let image = Image::builder().rows(1).cols(1).build().unwrap();
    let err = PPMImage::builder().image(&image).build().unwrap_err();
    assert_eq!(err, PPMImageBuilderError::FilenameNotProvided);
}

#[test]
fn checkerboard_paints_only_even_tiles() {
    let mut image = Image::builder().rows(4).cols(4).build().unwrap();
    image.fill(WHITE);
    image.checkerboard(2, BLACK);
    for i in 0..4i32 {
        for j in 0..4i32 {
            let expected = if (i / 2 + j / 2) % 2 == 0 { BLACK } else { WHITE };
            assert_eq!(image.get_pixel(Coordinate::new(i, j)).unwrap(), expected);
        }
    }
}

#[test]
fn validator_reports_memory_bounds_on_mismatched_buffer() {
    // A buffer whose stored length undercuts its declared dimensions trips the
    // defensive in-memory check for coordinates past the stored data.
    let image = Image {
        rows: 4,
        cols: 4,
        data: vec![BLACK; 10],
    };
    match validate::coordinate(&image, &Coordinate::new(2, 3)) {
        Err(ValidationError::OutOfBoundsInMemoryError {
            coordinate,
            rows,
            cols,
            data_length,
        }) => {
            assert_eq!(coordinate, Coordinate::new(2, 3));
            assert_eq!(rows, 4);
            assert_eq!(cols, 4);
            assert_eq!(data_length, 10);
        }
        _ => panic!("expected the in-memory bounds error"),
    }
    assert!(validate::coordinate(&image, &Coordinate::new(0, 0)).is_ok());
}

#[test]
fn pixel_data_length_accepts_consistent_buffer() {
    let image = Image::builder().rows(3).cols(5).build().unwrap();
    assert!(validate::pixel_data_length(&image).is_ok());
}

#[test]
fn line_validation_reports_first_bad_endpoint() {
    let image = Image::builder().rows(4).cols(4).build().unwrap();
    let line = LineCoordinates::new(-1, 0, 9, 9);
    match validate::line_coordinates(&image, &line) {
        Err(ValidationError::OutOfBoundsInImageError { coordinate, .. }) => {
            assert_eq!(coordinate, Coordinate::new(-1, 0));
        }
        _ => panic!("expected a bounds error"),
    }
}

#[test]
fn circle_validation_checks_center_only() {
    let image = Image::builder().rows(4).cols(4).build().unwrap();
    // A huge radius is fine at validation time; only the center must be in.
    assert!(validate::circle_coordinates(
        &image,
        &CircleCoordinates::new(1, 1, 1000)
    )
    .is_ok());
    assert!(validate::circle_coordinates(
        &image,
        &CircleCoordinates::new(4, 1, 1)
    )
    .is_err());
}
