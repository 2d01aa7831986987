use crate::colors::BLACK;
use crate::coordinate::Coordinate;
use crate::validate;
use vstd::prelude::*;

verus! {

/// General form of an image: a flat row-major buffer of packed RGB colors.
///
/// Well-formed images (see [`Image::wf`]) always satisfy
/// `data.len() == rows * cols`; the builder is the only constructor and
/// rejects anything else, and every operation preserves it.
#[derive(Debug)]
pub struct Image {
    pub rows: usize,
    pub cols: usize,
    pub data: Vec<u32>,
}

/// The pixel of a row-major buffer with `cols` columns at row `i`, column `j`.
pub open spec fn pix(data: Seq<u32>, cols: int, i: int, j: int) -> u32 {
    data[i * cols + j]
}

impl Image {
    /// The buffer invariant: positive dimensions, a representable pixel
    /// count, and a data length that exactly matches the dimensions.
    pub open spec fn wf(&self) -> bool {
        &&& self.rows >= 1
        &&& self.cols >= 1
        &&& self.rows * self.cols <= usize::MAX
        &&& self.data@.len() == self.rows * self.cols
    }

    /// Whether `c` lies inside `[0, rows) x [0, cols)`.
    pub open spec fn spec_in_bounds(&self, c: Coordinate) -> bool {
        &&& 0 <= c.x < self.rows
        &&& 0 <= c.y < self.cols
    }

    /// The flat row-major index of a coordinate: `x` is the row, `y` the column.
    pub open spec fn spec_index_of(&self, c: Coordinate) -> int {
        c.x * self.cols + c.y
    }

    /// The color stored at an in-bounds coordinate.
    pub open spec fn spec_pixel(&self, c: Coordinate) -> u32 {
        self.data@[self.spec_index_of(c)]
    }
}

/// A row-major index of an in-bounds cell lies within the buffer.
pub proof fn lemma_index_bounds(rows: int, cols: int, i: int, j: int)
    requires
        0 <= i < rows,
        0 <= j < cols,
    ensures
        0 <= i * cols + j < rows * cols,
{
    assert(0 <= i * cols + j < rows * cols) by (nonlinear_arith)
        requires
            0 <= i < rows,
            0 <= j < cols,
    ;
}

/// Row-major indexing is injective: distinct in-bounds cells have distinct
/// flat indexes.
pub proof fn lemma_index_injective(cols: int, i1: int, j1: int, i2: int, j2: int)
    requires
        0 <= j1 < cols,
        0 <= j2 < cols,
        i1 * cols + j1 == i2 * cols + j2,
    ensures
        i1 == i2 && j1 == j2,
{
    assert(i1 == i2 && j1 == j2) by (nonlinear_arith)
        requires
            0 <= j1 < cols,
            0 <= j2 < cols,
            i1 * cols + j1 == i2 * cols + j2,
    ;
}

/// Writing one in-bounds cell of a row-major buffer changes that cell to the
/// new color and no other cell.
pub proof fn lemma_pixel_update(
    prev: Seq<u32>,
    cur: Seq<u32>,
    rows: int,
    cols: int,
    px: int,
    py: int,
    color: u32,
)
    requires
        prev.len() == rows * cols,
        cur == prev.update(px * cols + py, color),
        0 <= px < rows,
        0 <= py < cols,
    ensures
        cur.len() == prev.len(),
        forall|i: int, j: int|
            0 <= i < rows && 0 <= j < cols ==> #[trigger] pix(cur, cols, i, j) == if i == px && j
                == py {
                color
            } else {
                pix(prev, cols, i, j)
            },
{
    lemma_index_bounds(rows, cols, px, py);
    assert forall|i: int, j: int| 0 <= i < rows && 0 <= j < cols implies #[trigger] pix(
        cur,
        cols,
        i,
        j,
    ) == if i == px && j == py {
        color
    } else {
        pix(prev, cols, i, j)
    } by {
        lemma_index_bounds(rows, cols, i, j);
        if i * cols + j == px * cols + py {
            lemma_index_injective(cols, i, j, px, py);
        }
    }
}

/// Setting one cell and reading any cell back: the written cell holds the new
/// color, every other cell is untouched.  This is the law behind `set_pixel`
/// followed by `get_pixel`.
pub proof fn lemma_set_then_get(img: Image, p: Coordinate, q: Coordinate, c: u32)
    requires
        img.wf(),
        img.spec_in_bounds(p),
        img.spec_in_bounds(q),
    ensures
        img.data@.update(img.spec_index_of(p), c)[img.spec_index_of(q)] == if p == q {
            c
        } else {
            img.spec_pixel(q)
        },
{
    lemma_index_bounds(img.rows as int, img.cols as int, p.x as int, p.y as int);
    lemma_index_bounds(img.rows as int, img.cols as int, q.x as int, q.y as int);
    if img.spec_index_of(p) == img.spec_index_of(q) {
        lemma_index_injective(
            img.cols as int,
            p.x as int,
            p.y as int,
            q.x as int,
            q.y as int,
        );
    }
}

/// A buffer whose every cell holds `c` reads back `c` at every in-bounds
/// coordinate.  This is the law behind `fill` followed by `get_pixel`.
pub proof fn lemma_fill_then_get(img: Image, c: u32, p: Coordinate)
    requires
        img.wf(),
        img.spec_in_bounds(p),
        forall|i: int| 0 <= i < img.data@.len() ==> img.data@[i] == c,
    ensures
        img.spec_pixel(p) == c,
{
    lemma_index_bounds(img.rows as int, img.cols as int, p.x as int, p.y as int);
}

/// Copies a pixel buffer element by element.
fn copy_pixel_data(v: &Vec<u32>) -> (r: Vec<u32>)
    ensures
        r@ == v@,
{
    let mut r: Vec<u32> = Vec::new();
    let mut i: usize = 0;
    while i < v.len()
        invariant
            i <= v@.len(),
            r@ == v@.subrange(0, i as int),
        decreases v@.len() - i,
    {
        r.push(v[i]);
        i = i + 1;
        assert(r@ == v@.subrange(0, i as int));
    }
    assert(r@ == v@);
    r
}

impl Clone for Image {
    fn clone(&self) -> (r: Self)
        ensures
            r.rows == self.rows,
            r.cols == self.cols,
            r.data@ == self.data@,
    {
        Image { rows: self.rows, cols: self.cols, data: copy_pixel_data(&self.data) }
    }
}

impl PartialEq for Image {
    fn eq(&self, other: &Image) -> (r: bool)
    {
        if self.rows != other.rows || self.cols != other.cols || self.data.len()
            != other.data.len() {
            return false;
        }
        let mut i: usize = 0;
        while i < self.data.len()
            invariant
                i <= self.data@.len(),
                self.data@.len() == other.data@.len(),
                forall|k: int| 0 <= k < i ==> self.data@[k] == other.data@[k],
            decreases self.data@.len() - i,
        {
            if self.data[i] != other.data[i] {
                return false;
            }
            i = i + 1;
        }
        proof {
            assert(self.data@ =~= other.data@);
        }
        true
    }
}

impl vstd::std_specs::cmp::PartialEqSpecImpl for Image {
    open spec fn obeys_eq_spec() -> bool {
        true
    }

    open spec fn eq_spec(&self, other: &Image) -> bool {
        &&& self.rows == other.rows
        &&& self.cols == other.cols
        &&& self.data@ == other.data@
    }
}

impl Image {
    pub fn builder() -> (r: ImageBuilder)
        ensures
            r == (ImageBuilder { rows: None::<usize>, cols: None::<usize>, data: None::<Vec<u32>> }),
    {
        ImageBuilder::new()
    }

    /// Sets a single pixel to a provided color, after validating the
    /// coordinate.  A rejected call leaves the buffer unchanged.
    pub fn set_pixel(&mut self, coord: Coordinate, color: u32) -> (r: Result<
        (),
        validate::ValidationError,
    >)
        requires
            old(self).wf(),
        ensures
            final(self).wf(),
            final(self).rows == old(self).rows,
            final(self).cols == old(self).cols,
            r is Ok <==> old(self).spec_in_bounds(coord),
            r is Ok ==> final(self).data@ == old(self).data@.update(
                old(self).spec_index_of(coord),
                color,
            ),
            r is Err ==> final(self).data@ == old(self).data@ && r == Err::<
                (),
                validate::ValidationError,
            >(validate::spec_coord_error(*old(self), coord)),
    {
        proof {
            if self.spec_in_bounds(coord) {
                lemma_index_bounds(
                    self.rows as int,
                    self.cols as int,
                    coord.x as int,
                    coord.y as int,
                );
            }
        }
        if let Err(e) = validate::coordinate(&*self, &coord) {
            return Err(e);
        }
        let pixel_index = (coord.x as usize) * self.cols + (coord.y as usize);
        self.data.set(pixel_index, color);
        Ok(())
    }

    /// Gets a single pixel's color, after validating the coordinate.
    pub fn get_pixel(&self, coord: Coordinate) -> (r: Result<u32, validate::ValidationError>)
        requires
            self.wf(),
        ensures
            r is Ok <==> self.spec_in_bounds(coord),
            r is Ok ==> r == Ok::<u32, validate::ValidationError>(self.spec_pixel(coord)),
            r is Err ==> r == Err::<u32, validate::ValidationError>(
                validate::spec_coord_error(*self, coord),
            ),
    {
        proof {
            if self.spec_in_bounds(coord) {
                lemma_index_bounds(
                    self.rows as int,
                    self.cols as int,
                    coord.x as int,
                    coord.y as int,
                );
            }
        }
        if let Err(e) = validate::coordinate(self, &coord) {
            return Err(e);
        }
        let pixel_index = (coord.x as usize) * self.cols + (coord.y as usize);
        Ok(self.data[pixel_index])
    }

    /// Fills the image with a provided color: afterwards every cell holds it.
    pub fn fill(&mut self, color: u32)
        requires
            old(self).wf(),
        ensures
            final(self).wf(),
            final(self).rows == old(self).rows,
            final(self).cols == old(self).cols,
            final(self).data@.len() == old(self).data@.len(),
            forall|i: int| 0 <= i < final(self).data@.len() ==> final(self).data@[i] == color,
    {
        let mut index: usize = 0;
        let n = self.data.len();
        while index < n
            invariant
                self.wf(),
                self.rows == old(self).rows,
                self.cols == old(self).cols,
                n == self.data@.len(),
                index <= n,
                forall|i: int| 0 <= i < index ==> self.data@[i] == color,
            decreases n - index,
        {
            self.data.set(index, color);
            index = index + 1;
        }
    }

    /// Paints a checkerboard pattern: every cell whose tile parity
    /// `(row / tile_size + col / tile_size) % 2` is even is assigned
    /// `tile_color`; the remaining cells keep whatever they already held.
    /// This deliberately paints only the even tiles - it is a two-color
    /// checkerboard only when combined with a prior `fill`.
    pub fn checkerboard(&mut self, tile_size: usize, tile_color: u32)
        requires
            old(self).wf(),
            tile_size >= 1,
        ensures
            final(self).wf(),
            final(self).rows == old(self).rows,
            final(self).cols == old(self).cols,
            forall|i: int, j: int|
                0 <= i < final(self).rows && 0 <= j < final(self).cols ==> #[trigger] pix(
                    final(self).data@,
                    final(self).cols as int,
                    i,
                    j,
                ) == if (i / tile_size as int + j / tile_size as int) % 2 == 0 {
                    tile_color
                } else {
                    pix(old(self).data@, old(self).cols as int, i, j)
                },
    {
        let rows = self.rows;
        let cols = self.cols;
        let mut row: usize = 0;
        while row < rows
            invariant
                self.wf(),
                self.rows == old(self).rows,
                self.cols == old(self).cols,
                rows == self.rows,
                cols == self.cols,
                row <= rows,
                tile_size >= 1,
                forall|i: int, j: int|
                    0 <= i < rows && 0 <= j < cols ==> #[trigger] pix(
                        self.data@,
                        cols as int,
                        i,
                        j,
                    ) == if i < row && (i / tile_size as int + j / tile_size as int) % 2 == 0 {
                        tile_color
                    } else {
                        pix(old(self).data@, cols as int, i, j)
                    },
            decreases rows - row,
        {
            let mut col: usize = 0;
            while col < cols
                invariant
                    self.wf(),
                    self.rows == old(self).rows,
                    self.cols == old(self).cols,
                    rows == self.rows,
                    cols == self.cols,
                    row < rows,
                    col <= cols,
                    tile_size >= 1,
                    forall|i: int, j: int|
                        0 <= i < rows && 0 <= j < cols ==> #[trigger] pix(
                            self.data@,
                            cols as int,
                            i,
                            j,
                        ) == if (i < row || (i == row && j < col)) && (i / tile_size as int + j
                            / tile_size as int) % 2 == 0 {
                            tile_color
                        } else {
                            pix(old(self).data@, cols as int, i, j)
                        },
                decreases cols - col,
            {
                proof {
                    lemma_index_bounds(rows as int, cols as int, row as int, col as int);
                    assert((row as int) / (tile_size as int) <= row as int && (col as int) / (
                    tile_size as int) <= col as int) by (nonlinear_arith)
                        requires
                            tile_size >= 1,
                            row >= 0,
                            col >= 0,
                    ;
                    assert((row as int) + (col as int) < (rows as int) * (cols as int))
                        by (nonlinear_arith)
                        requires
                            1 <= rows,
                            1 <= cols,
                            row < rows,
                            col < cols,
                    ;
                }
                let pixel_index = row * cols + col;
                let ghost prev = self.data@;
                if (row / tile_size + col / tile_size) % 2 == 0 {
                    self.data.set(pixel_index, tile_color);
                }
                proof {
                    assert forall|i: int, j: int| 0 <= i < rows && 0 <= j < cols implies #[trigger] pix(
                        self.data@,
                        cols as int,
                        i,
                        j,
                    ) == if (i < row || (i == row && j < col + 1)) && (i / tile_size as int + j
                        / tile_size as int) % 2 == 0 {
                        tile_color
                    } else {
                        pix(old(self).data@, cols as int, i, j)
                    } by {
                        lemma_index_bounds(rows as int, cols as int, i, j);
                        lemma_index_bounds(rows as int, cols as int, row as int, col as int);
                        assert(pix(prev, cols as int, i, j) == prev[i * (cols as int) + j]);
                        if i * (cols as int) + j == (row as int) * (cols as int) + col as int {
                            lemma_index_injective(cols as int, i, j, row as int, col as int);
                            assert(i == row as int && j == col as int);
                        } else {
                            assert(self.data@[i * (cols as int) + j] == prev[i * (cols as int)
                                + j]);
                        }
                    }
                }
                col = col + 1;
            }
            row = row + 1;
        }
    }

    pub fn get_rows(&self) -> (r: &usize)
        ensures
            *r == self.rows,
    {
        &self.rows
    }

    pub fn get_cols(&self) -> (r: &usize)
        ensures
            *r == self.cols,
    {
        &self.cols
    }

    pub fn get_data(&self) -> (r: &Vec<u32>)
        ensures
            r@ == self.data@,
    {
        &self.data
    }

    pub fn get_data_length(&self) -> (r: usize)
        ensures
            r == self.data@.len(),
    {
        self.data.len()
    }
}

/// Configuration for constructing an [`Image`].  `build` performs all
/// required-field and consistency checks at once; no partially-valid image is
/// ever returned.
#[derive(Debug, Clone)]
pub struct ImageBuilder {
    pub rows: Option<usize>,
    pub cols: Option<usize>,
    pub data: Option<Vec<u32>>,
}

/// The ways image construction can fail.
#[derive(Debug, PartialEq, Eq, Structural, Clone, Copy)]
pub enum ImageBuilderError {
    RowsNotProvided,
    ColumnsNotProvided,
    DataDoesntMatchDimensions,
    ZeroSizedImage,
}

impl ImageBuilder {
    pub fn new() -> (r: Self)
        ensures
            r == (ImageBuilder { rows: None::<usize>, cols: None::<usize>, data: None::<Vec<u32>> }),
    {
        Self { rows: None, cols: None, data: None }
    }

    pub fn rows(self, rows: usize) -> (r: Self)
        ensures
            r == (ImageBuilder { rows: Some(rows), ..self }),
    {
        Self { rows: Some(rows), ..self }
    }

    pub fn cols(self, cols: usize) -> (r: Self)
        ensures
            r == (ImageBuilder { cols: Some(cols), ..self }),
    {
        Self { cols: Some(cols), ..self }
    }

    pub fn data(self, data: Vec<u32>) -> (r: Self)
        ensures
            r == (ImageBuilder { data: Some(data), ..self }),
    {
        Self { data: Some(data), ..self }
    }

    /// Builds the image.  Fails fast: missing or zero dimensions and data of
    /// the wrong length are rejected before any image exists; when no data is
    /// supplied the buffer is initialized to black.
    pub fn build(&self) -> (r: Result<Image, ImageBuilderError>)
        requires
            match (self.rows, self.cols) {
                (Some(rv), Some(cv)) => rv * cv <= usize::MAX,
                _ => true,
            },
        ensures
            match self.rows {
                None => r == Err::<Image, ImageBuilderError>(ImageBuilderError::RowsNotProvided),
                Some(rv) => if rv == 0 {
                    r == Err::<Image, ImageBuilderError>(ImageBuilderError::ZeroSizedImage)
                } else {
                    match self.cols {
                        None => r == Err::<Image, ImageBuilderError>(
                            ImageBuilderError::ColumnsNotProvided,
                        ),
                        Some(cv) => if cv == 0 {
                            r == Err::<Image, ImageBuilderError>(ImageBuilderError::ZeroSizedImage)
                        } else {
                            match self.data {
                                Some(d) => if d@.len() != rv * cv {
                                    r == Err::<Image, ImageBuilderError>(
                                        ImageBuilderError::DataDoesntMatchDimensions,
                                    )
                                } else {
                                    r matches Ok(img) && img.wf() && img.rows == rv && img.cols
                                        == cv && img.data@ == d@
                                },
                                None => r matches Ok(img) && img.wf() && img.rows == rv && img.cols
                                    == cv && img.data@ =~= Seq::new(
                                    (rv * cv) as nat,
                                    |i: int| BLACK,
                                ),
                            }
                        },
                    }
                },
            },
    {
        let rows = match self.rows {
            Some(rows) => {
                if rows == 0 {
                    return Err(ImageBuilderError::ZeroSizedImage);
                }
                rows
            },
            None => {
                return Err(ImageBuilderError::RowsNotProvided);
            },
        };
        let cols = match self.cols {
            Some(cols) => {
                if cols == 0 {
                    return Err(ImageBuilderError::ZeroSizedImage);
                }
                cols
            },
            None => {
                return Err(ImageBuilderError::ColumnsNotProvided);
            },
        };
        let data = match &self.data {
            Some(data) => {
                if data.len() != rows * cols {
                    return Err(ImageBuilderError::DataDoesntMatchDimensions);
                }
                copy_pixel_data(data)
            },
            None => {
                let n = rows * cols;
                let mut d: Vec<u32> = Vec::new();
                let mut i: usize = 0;
                while i < n
                    invariant
                        i <= n,
                        d@.len() == i,
                        forall|k: int| 0 <= k < i ==> d@[k] == BLACK,
                    decreases n - i,
                {
                    d.push(BLACK);
                    i = i + 1;
                }
                d
            },
        };
        Ok(Image { rows, cols, data })
    }
}

} // verus!
