use libppm::colors::BLACK;
use libppm::graphics::image::Image;
use libppm::graphics::image::ImageBuilderError;

#[test]
fn test_image_builder() {
    let image = Image::builder().rows(512).cols(512).build().unwrap();
    assert_eq!(
        image,
        Image {
            rows: 512,
            cols: 512,
            data: vec![BLACK; 512 * 512],
        }
    );
}

#[test]
fn builder_rejects_missing_rows() {
    let err = Image::builder().cols(4).build().unwrap_err();
    assert_eq!(err, ImageBuilderError::RowsNotProvided);
}

#[test]
fn builder_rejects_missing_cols() {
    let err = Image::builder().rows(4).build().unwrap_err();
    assert_eq!(err, ImageBuilderError::ColumnsNotProvided);
}

#[test]
fn builder_rejects_zero_rows() {
    let err = Image::builder().rows(0).cols(4).build().unwrap_err();
    assert_eq!(err, ImageBuilderError::ZeroSizedImage);
}

#[test]
fn builder_rejects_zero_cols() {
    let err = Image::builder().rows(4).cols(0).build().unwrap_err();
    assert_eq!(err, ImageBuilderError::ZeroSizedImage);
}

#[test]
fn builder_rejects_mismatched_data() {
    let err = Image::builder()
        .rows(4)
        .cols(4)
        .data(vec![BLACK; 15])
        .build()
        .unwrap_err();
    assert_eq!(err, ImageBuilderError::DataDoesntMatchDimensions);
}

#[test]
fn builder_accepts_matching_data() {
    let image = Image::builder()
        .rows(2)
        .cols(3)
        .data(vec![7; 6])
        .build()
        .unwrap();
    assert_eq!(*image.get_rows(), 2);
    assert_eq!(*image.get_cols(), 3);
    assert_eq!(image.get_data_length(), 6);
    assert_eq!(*image.get_data(), vec![7; 6]);
}
