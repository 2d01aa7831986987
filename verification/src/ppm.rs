use crate::graphics::image::Image;
use crate::validate;
use crate::validate::ValidationError;
use vstd::prelude::*;

verus! {

/// The decimal digits of `n`, most significant first, as ASCII bytes.
pub open spec fn spec_dec_digits(n: nat) -> Seq<u8>
    decreases n,
{
    if n < 10 {
        seq![(48 + n) as u8]
    } else {
        spec_dec_digits(n / 10).push((48 + n % 10) as u8)
    }
}

/// The three bytes of a packed 0x00RRGGBB color: red, green, blue.
pub open spec fn spec_color_bytes(c: u32) -> Seq<u8> {
    seq![((c >> 16) & 0xFF) as u8, ((c >> 8) & 0xFF) as u8, (c & 0xFF) as u8]
}

/// The pixel data of a buffer as a PPM byte stream: three bytes per pixel in
/// buffer order.
pub open spec fn spec_pixel_bytes(data: Seq<u32>) -> Seq<u8>
    decreases data.len(),
{
    if data.len() == 0 {
        Seq::empty()
    } else {
        spec_pixel_bytes(data.drop_last()) + spec_color_bytes(data.last())
    }
}

/// The PPM (P6) header for an image: `P6\n<cols> <rows>\n255\n` in ASCII.
pub open spec fn spec_header(rows: nat, cols: nat) -> Seq<u8> {
    seq![80u8, 54u8, 10u8] + spec_dec_digits(cols) + seq![32u8] + spec_dec_digits(rows) + seq![
        10u8,
        50u8,
        53u8,
        53u8,
        10u8,
    ]
}

/// Appends the decimal digits of `n` to `out`.
fn push_decimal(out: &mut Vec<u8>, n: usize)
    ensures
        final(out)@ == old(out)@ + spec_dec_digits(n as nat),
    decreases n,
{
    if n < 10 {
        out.push(48 + n as u8);
        proof {
            assert(final(out)@ =~= old(out)@ + spec_dec_digits(n as nat));
        }
    } else {
        push_decimal(out, n / 10);
        out.push(48 + (n % 10) as u8);
        proof {
            assert(final(out)@ =~= old(out)@ + spec_dec_digits(n as nat));
        }
    }
}

/// Builds the PPM (P6) header bytes for an image with the given dimensions.
fn header_bytes(rows: usize, cols: usize) -> (r: Vec<u8>)
    ensures
        r@ == spec_header(rows as nat, cols as nat),
{
    let mut out: Vec<u8> = Vec::new();
    out.push(80);
    out.push(54);
    out.push(10);
    push_decimal(&mut out, cols);
    out.push(32);
    push_decimal(&mut out, rows);
    out.push(10);
    out.push(50);
    out.push(53);
    out.push(53);
    out.push(10);
    proof {
        assert(out@ =~= spec_header(rows as nat, cols as nat));
    }
    out
}

/// Appends the three RGB bytes of every pixel, in buffer order.
fn push_pixel_bytes(out: &mut Vec<u8>, data: &Vec<u32>)
    ensures
        final(out)@ == old(out)@ + spec_pixel_bytes(data@),
{
    let mut i: usize = 0;
    while i < data.len()
        invariant
            i <= data@.len(),
            out@ == old(out)@ + spec_pixel_bytes(data@.subrange(0, i as int)),
        decreases data@.len() - i,
    {
        let pixel = data[i];
        proof {
            assert(((pixel >> 16) & 0xFF) < 256 && ((pixel >> 8) & 0xFF) < 256 && (pixel & 0xFF)
                < 256) by (bit_vector);
        }
        out.push(((pixel >> 16) & 0xFF) as u8);
        out.push(((pixel >> 8) & 0xFF) as u8);
        out.push((pixel & 0xFF) as u8);
        i = i + 1;
        proof {
            let pre = data@.subrange(0, i - 1);
            let cur = data@.subrange(0, i as int);
            assert(cur.drop_last() =~= pre);
            assert(cur.last() == pixel);
            assert(out@ =~= old(out)@ + spec_pixel_bytes(cur));
        }
    }
    proof {
        assert(data@.subrange(0, data@.len() as int) =~= data@);
    }
}

/// Serializes a pixel buffer with the given declared dimensions to a PPM (P6)
/// byte stream: the ASCII header, then three bytes per pixel.  A buffer whose
/// stored pixel count does not exactly match the dimensions is rejected before
/// any byte is produced.
pub fn ppm_bytes(rows: usize, cols: usize, data: &Vec<u32>) -> (r: Result<Vec<u8>, ValidationError>)
    requires
        rows * cols <= usize::MAX,
    ensures
        data@.len() > rows * cols ==> r == Err::<Vec<u8>, ValidationError>(
            ValidationError::TooMuchPixelData {
                expected: (rows * cols) as usize,
                actual: data@.len() as usize,
            },
        ),
        data@.len() < rows * cols ==> r == Err::<Vec<u8>, ValidationError>(
            ValidationError::NotEnoughPixelData {
                expected: (rows * cols) as usize,
                actual: data@.len() as usize,
            },
        ),
        data@.len() == rows * cols ==> (r matches Ok(bytes) && bytes@ == spec_header(
            rows as nat,
            cols as nat,
        ) + spec_pixel_bytes(data@)),
{
    let expected = rows * cols;
    let actual = data.len();
    if actual > expected {
        return Err(ValidationError::TooMuchPixelData { expected, actual });
    }
    if actual < expected {
        return Err(ValidationError::NotEnoughPixelData { expected, actual });
    }
    let mut out = header_bytes(rows, cols);
    push_pixel_bytes(&mut out, data);
    Ok(out)
}

/// A pixel buffer paired with its PPM header and output filename, ready to be
/// serialized and written out.
#[derive(Debug, Clone)]
pub struct PPMImage {
    pub image: Image,
    pub header: Vec<u8>,
    pub filename: String,
}

/// The ways building a `PPMImage` can fail.
#[derive(Debug, PartialEq, Eq, Structural, Clone, Copy)]
pub enum PPMImageBuilderError {
    ImageNotProvided,
    FilenameNotProvided,
}

impl PPMImage {
    pub fn builder() -> (r: PPMImageBuilder)
        ensures
            r.image is None,
            r.filename is None,
    {
        PPMImageBuilder::new()
    }

    /// Serializes the image to a PPM byte stream: the stored header, then the
    /// pixel data, three bytes per pixel.  Fails with a pixel-data-length
    /// error, producing no bytes, if the stored pixel count does not match the
    /// image's declared dimensions.
    pub fn serialize(&self) -> (r: Result<Vec<u8>, ValidationError>)
        requires
            self.image.rows * self.image.cols <= usize::MAX,
        ensures
            self.image.data@.len() > self.image.rows * self.image.cols ==> r == Err::<
                Vec<u8>,
                ValidationError,
            >(
                ValidationError::TooMuchPixelData {
                    expected: (self.image.rows * self.image.cols) as usize,
                    actual: self.image.data@.len() as usize,
                },
            ),
            self.image.data@.len() < self.image.rows * self.image.cols ==> r == Err::<
                Vec<u8>,
                ValidationError,
            >(
                ValidationError::NotEnoughPixelData {
                    expected: (self.image.rows * self.image.cols) as usize,
                    actual: self.image.data@.len() as usize,
                },
            ),
            self.image.data@.len() == self.image.rows * self.image.cols ==> (r matches Ok(bytes)
                && bytes@ == self.header@ + spec_pixel_bytes(self.image.data@)),
    {
        if let Err(e) = validate::pixel_data_length(&self.image) {
            return Err(e);
        }
        let mut buffer: Vec<u8> = Vec::new();
        let mut i: usize = 0;
        while i < self.header.len()
            invariant
                i <= self.header@.len(),
                buffer@ == self.header@.subrange(0, i as int),
            decreases self.header@.len() - i,
        {
            buffer.push(self.header[i]);
            i = i + 1;
            assert(buffer@ =~= self.header@.subrange(0, i as int));
        }
        proof {
            assert(buffer@ =~= self.header@);
        }
        push_pixel_bytes(&mut buffer, &self.image.data);
        Ok(buffer)
    }
}

/// Configuration for constructing a [`PPMImage`]; both the image and the
/// output filename must be provided.
#[derive(Debug, Default, Clone)]
pub struct PPMImageBuilder {
    pub image: Option<Image>,
    pub filename: Option<String>,
}

impl PPMImageBuilder {
    pub fn new() -> (r: Self)
        ensures
            r.image is None,
            r.filename is None,
    {
        PPMImageBuilder { image: None, filename: None }
    }

    pub fn image(self, image: &Image) -> (r: Self)
        ensures
            r.image matches Some(im) && im.rows == image.rows && im.cols == image.cols && im.data@
                == image.data@,
            r.filename == self.filename,
    {
        Self { image: Some(image.clone()), ..self }
    }

    pub fn filename(self, filename: &str) -> (r: Self)
        ensures
            r.filename matches Some(f) && f@ == filename@,
            r.image == self.image,
    {
        Self { filename: Some(filename.to_owned()), ..self }
    }

    /// Builds the `PPMImage`.  Fails fast when the image or the filename is
    /// missing; on success the header is computed from the image's dimensions.
    pub fn build(&self) -> (r: Result<PPMImage, PPMImageBuilderError>)
        ensures
            self.image is None ==> r == Err::<PPMImage, PPMImageBuilderError>(
                PPMImageBuilderError::ImageNotProvided,
            ),
            self.image is Some && self.filename is None ==> r == Err::<
                PPMImage,
                PPMImageBuilderError,
            >(PPMImageBuilderError::FilenameNotProvided),
            self.image matches Some(im) ==> (self.filename matches Some(f) ==> r matches Ok(p)
                && p.image.rows == im.rows && p.image.cols == im.cols && p.image.data@ == im.data@
                && p.filename@ == f@ && p.header@ == spec_header(im.rows as nat, im.cols as nat)),
    {
        let image = match &self.image {
            None => {
                return Err(PPMImageBuilderError::ImageNotProvided);
            },
            Some(image) => image,
        };
        let filename = match &self.filename {
            None => {
                return Err(PPMImageBuilderError::FilenameNotProvided);
            },
            Some(filename) => filename,
        };
        let header = header_bytes(*image.get_rows(), *image.get_cols());
        Ok(PPMImage { image: image.clone(), header, filename: filename.clone() })
    }
}

} // verus!
