use crate::coordinate::CircleCoordinates;
use crate::coordinate::Coordinate;
use crate::coordinate::LineCoordinates;
use crate::graphics::image::Image;
use vstd::prelude::*;

verus! {

/// The ways a coordinate or a buffer can fail validation.  Each variant
/// carries only the minimal diagnostic data: the offending coordinate and the
/// image's dimensions, never a snapshot of the pixel data.
#[derive(Debug, PartialEq, Eq, Structural, Clone, Copy)]
pub enum ValidationError {
    /// The coordinate lies outside `[0, rows) x [0, cols)`.
    OutOfBoundsInImageError { coordinate: Coordinate, rows: usize, cols: usize },
    /// The coordinate passed the dimension check but its flat index exceeds
    /// the stored data length - a defensive second check that only fires on a
    /// buffer whose length does not match its declared dimensions.
    OutOfBoundsInMemoryError { coordinate: Coordinate, rows: usize, cols: usize, data_length: usize },
    /// The stored pixel count falls short of `rows * cols`.
    NotEnoughPixelData { expected: usize, actual: usize },
    /// The stored pixel count exceeds `rows * cols`.
    TooMuchPixelData { expected: usize, actual: usize },
}

/// Whether `coord` passes both validation checks against `image`: it lies in
/// `[0, rows) x [0, cols)` and its flat index does not exceed the data length.
pub open spec fn spec_coord_ok(image: Image, coord: Coordinate) -> bool {
    image.spec_in_bounds(coord) && image.spec_index_of(coord) <= image.data@.len()
}

/// The exact error `coordinate` reports for a coordinate that fails validation.
pub open spec fn spec_coord_error(image: Image, coord: Coordinate) -> ValidationError {
    if !image.spec_in_bounds(coord) {
        ValidationError::OutOfBoundsInImageError {
            coordinate: coord,
            rows: image.rows,
            cols: image.cols,
        }
    } else {
        ValidationError::OutOfBoundsInMemoryError {
            coordinate: coord,
            rows: image.rows,
            cols: image.cols,
            data_length: image.data@.len() as usize,
        }
    }
}

/// The result `coordinate` returns for any image and coordinate.
pub open spec fn spec_coordinate(image: Image, coord: Coordinate) -> Result<(), ValidationError> {
    if spec_coord_ok(image, coord) {
        Ok(())
    } else {
        Err(spec_coord_error(image, coord))
    }
}

/// The result `line_coordinates` returns: the first endpoint is checked first.
pub open spec fn spec_line_coordinates(image: Image, coords: LineCoordinates) -> Result<
    (),
    ValidationError,
> {
    if !spec_coord_ok(image, coords.first) {
        Err(spec_coord_error(image, coords.first))
    } else if !spec_coord_ok(image, coords.second) {
        Err(spec_coord_error(image, coords.second))
    } else {
        Ok(())
    }
}

/// Validates that a given coordinate is within a given image: first against
/// the declared dimensions, then (defensively) against the actual data length.
pub fn coordinate(image: &Image, coord: &Coordinate) -> (r: Result<(), ValidationError>)
    requires
        image.rows * image.cols <= usize::MAX,
    ensures
        r == spec_coordinate(*image, *coord),
{
    if coord.x < 0 || coord.y < 0 || coord.x as usize >= image.rows || coord.y as usize
        >= image.cols {
        return Err(
            ValidationError::OutOfBoundsInImageError {
                coordinate: *coord,
                rows: image.rows,
                cols: image.cols,
            },
        );
    }
    let data_length = image.data.len();
    assert((coord.x as usize) * image.cols + (coord.y as usize) <= image.rows * image.cols) by {
        crate::graphics::image::lemma_index_bounds(
            image.rows as int,
            image.cols as int,
            coord.x as int,
            coord.y as int,
        );
    }
    if (coord.x as usize) * image.cols + (coord.y as usize) > data_length {
        return Err(
            ValidationError::OutOfBoundsInMemoryError {
                coordinate: *coord,
                rows: image.rows,
                cols: image.cols,
                data_length,
            },
        );
    }
    Ok(())
}

/// Validates that both endpoints of a line are within a given image.
pub fn line_coordinates(image: &Image, coords: &LineCoordinates) -> (r: Result<
    (),
    ValidationError,
>)
    requires
        image.rows * image.cols <= usize::MAX,
    ensures
        r == spec_line_coordinates(*image, *coords),
{
    coordinate(image, &coords.first)?;
    coordinate(image, &coords.second)?;
    Ok(())
}

/// Validates a circle: only the center is range-checked; the radius may
/// legally push points outside the buffer, which the drawing call surfaces.
pub fn circle_coordinates(image: &Image, coord: &CircleCoordinates) -> (r: Result<
    (),
    ValidationError,
>)
    requires
        image.rows * image.cols <= usize::MAX,
    ensures
        r == spec_coordinate(*image, coord.center),
{
    coordinate(image, &coord.center)?;
    Ok(())
}

/// Validates that the stored pixel count exactly matches `rows * cols`.
pub fn pixel_data_length(image: &Image) -> (r: Result<(), ValidationError>)
    requires
        image.rows * image.cols <= usize::MAX,
    ensures
        image.data@.len() > image.rows * image.cols ==> r == Err::<(), ValidationError>(
            ValidationError::TooMuchPixelData {
                expected: (image.rows * image.cols) as usize,
                actual: image.data@.len() as usize,
            },
        ),
        image.data@.len() < image.rows * image.cols ==> r == Err::<(), ValidationError>(
            ValidationError::NotEnoughPixelData {
                expected: (image.rows * image.cols) as usize,
                actual: image.data@.len() as usize,
            },
        ),
        image.data@.len() == image.rows * image.cols ==> r == Ok::<(), ValidationError>(()),
{
    let expected = image.rows * image.cols;
    let actual = image.data.len();
    if actual > expected {
        Err(ValidationError::TooMuchPixelData { expected, actual })
    } else if actual < expected {
        Err(ValidationError::NotEnoughPixelData { expected, actual })
    } else {
        Ok(())
    }
}

} // verus!
