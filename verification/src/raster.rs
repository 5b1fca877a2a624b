use vstd::prelude::*;
use vstd::slice::slice_to_vec;
use crate::pixel::Pixel;
use crate::settings::SortError;

verus! {

/// What an image is to the contracts: a grid of pixels, row by row from the
/// top, each row from the left.
pub struct Grid {
    pub width: nat,
    pub height: nat,
    pub rows: Seq<Seq<Pixel>>,
}

impl Grid {
    /// There are `height` rows of `width` pixels each.
    pub open spec fn well_formed(self) -> bool {
        &&& self.rows.len() == self.height
        &&& forall|y: int| 0 <= y < self.height ==> (#[trigger] self.rows[y]).len() == self.width
    }

    /// Column `x`, read from the bottom of the image to the top.
    pub open spec fn column_up(self, x: int) -> Seq<Pixel> {
        Seq::new(self.height, |k: int| self.rows[self.height - 1 - k][x])
    }
}

/// The grid turned a quarter clockwise: row `y` of the result is column `y`
/// of `grid`, read from the bottom to the top.
pub open spec fn rotate90(grid: Grid) -> Grid {
    Grid {
        width: grid.height,
        height: grid.width,
        rows: Seq::new(
            grid.width,
            |y: int| Seq::new(grid.height, |x: int| grid.rows[grid.height - 1 - x][y]),
        ),
    }
}

/// The grid turned a quarter anticlockwise: row `y` of the result is column
/// `width - 1 - y` of `grid`, read from the top to the bottom.
pub open spec fn rotate270(grid: Grid) -> Grid {
    Grid {
        width: grid.height,
        height: grid.width,
        rows: Seq::new(
            grid.width,
            |y: int| Seq::new(grid.height, |x: int| grid.rows[x][grid.width - 1 - y]),
        ),
    }
}

/// The grid of `height` rows that `pixels` holds one after the other.
pub open spec fn grid_of_pixels(width: nat, height: nat, pixels: Seq<Pixel>) -> Grid {
    Grid {
        width,
        height,
        rows: Seq::new(height, |y: int| pixels.subrange(y * width, (y + 1) * width)),
    }
}

/// Pixel `i` of a buffer of raw bytes, four bytes to a pixel: red, green,
/// blue, alpha.
pub open spec fn pixel_at(bytes: Seq<u8>, i: int) -> Pixel {
    Pixel { r: bytes[4 * i], g: bytes[4 * i + 1], b: bytes[4 * i + 2], a: bytes[4 * i + 3] }
}

/// The pixels that a buffer of raw bytes holds.
pub open spec fn pixels_of_bytes(bytes: Seq<u8>) -> Seq<Pixel> {
    Seq::new((bytes.len() / 4) as nat, |i: int| pixel_at(bytes, i))
}

/// The position of pixel `(x, y)` in a row-major buffer lies in the buffer,
/// and the rows do not overlap.
pub proof fn lemma_position_in_bounds(x: int, y: int, width: int, height: int)
    by (nonlinear_arith)
    requires
        0 <= x < width,
        0 <= y < height,
    ensures
        0 <= y * width,
        y * width + x < (y + 1) * width,
        (y + 1) * width == y * width + width,
        (y + 1) * width <= height * width,
        height * width == width * height,
{
}

/// An image of RGBA pixels with eight bits per channel, stored row by row.
#[derive(Debug)]
pub struct ImageBuffer {
    width: usize,
    height: usize,
    pixels: Vec<Pixel>,
}

impl View for ImageBuffer {
    type V = Grid;

    closed spec fn view(&self) -> Grid {
        grid_of_pixels(self.width as nat, self.height as nat, self.pixels@)
    }
}

impl ImageBuffer {
    /// The buffer holds `width * height` pixels.
    #[verifier::type_invariant]
    spec fn consistent(self) -> bool {
        self.pixels.len() == self.width * self.height
    }

    /// The number of columns. An image is always a well-formed grid.
    pub fn width(&self) -> (width: usize)
        ensures
            width == self@.width,
            self@.well_formed(),
    {
        proof {
            use_type_invariant(self);
            self.lemma_view_well_formed();
        }
        self.width
    }

    /// The number of rows.
    pub fn height(&self) -> (height: usize)
        ensures
            height == self@.height,
            self@.well_formed(),
    {
        proof {
            use_type_invariant(self);
            self.lemma_view_well_formed();
        }
        self.height
    }

    /// Every row of the grid lies in the buffer and has `width` pixels.
    proof fn lemma_view_well_formed(self)
        requires
            self.consistent(),
        ensures
            self@.well_formed(),
    {
        let grid = self@;
        assert forall|y: int| 0 <= y < grid.height implies (#[trigger] grid.rows[y]).len()
            == grid.width by {
            lemma_row_in_bounds(y, self.width as int, self.height as int);
        }
    }

    /// The pixel in column `x` of row `y`, if there is one.
    pub fn get_pixel(&self, x: usize, y: usize) -> (pixel: Option<Pixel>)
        ensures
            pixel == if x < self@.width && y < self@.height {
                Some(self@.rows[y as int][x as int])
            } else {
                None
            },
    {
        proof {
            use_type_invariant(self);
        }
        if x < self.width && y < self.height {
            proof {
                lemma_position_in_bounds(x as int, y as int, self.width as int, self.height as int);
            }
            Some(self.pixels[y * self.width + x])
        } else {
            None
        }
    }

    /// An image from its dimensions and its raw bytes: four bytes to a pixel
    /// (red, green, blue, alpha), row by row. A buffer of any other length
    /// than `4 * (width * height)` is refused.
    pub fn from_raw(width: usize, height: usize, bytes: Vec<u8>) -> (result: Result<
        Self,
        SortError,
    >)
        ensures
            match result {
                Ok(image) => bytes.len() == 4 * (width * height) && image@ == grid_of_pixels(
                    width as nat,
                    height as nat,
                    pixels_of_bytes(bytes@),
                ),
                Err(error) => bytes.len() != 4 * (width * height) && error
                    == SortError::UnsupportedPixelFormat,
            },
    {
        let count = match width.checked_mul(height) {
            Some(count) => count,
            None => {
                return Err(SortError::UnsupportedPixelFormat);
            },
        };
        let length = match count.checked_mul(4) {
            Some(length) => length,
            None => {
                return Err(SortError::UnsupportedPixelFormat);
            },
        };
        if bytes.len() != length {
            return Err(SortError::UnsupportedPixelFormat);
        }
        let mut pixels: Vec<Pixel> = Vec::new();
        let mut i: usize = 0;
        while i < count
            invariant
                i <= count,
                bytes.len() == 4 * count,
                pixels.len() == i,
                forall|k: int| 0 <= k < i ==> #[trigger] pixels@[k] == pixel_at(bytes@, k),
            decreases count - i,
        {
            pixels.push(
                Pixel {
                    r: bytes[4 * i],
                    g: bytes[4 * i + 1],
                    b: bytes[4 * i + 2],
                    a: bytes[4 * i + 3],
                },
            );
            i += 1;
        }
        assert(pixels@ =~= pixels_of_bytes(bytes@));
        Ok(ImageBuffer { width, height, pixels })
    }

    /// The raw bytes of the image: four bytes to a pixel (red, green, blue,
    /// alpha), row by row.
    pub fn to_raw(&self) -> (bytes: Vec<u8>)
        ensures
            bytes.len() == 4 * (self@.width * self@.height),
            self@ == grid_of_pixels(self@.width, self@.height, pixels_of_bytes(bytes@)),
    {
        proof {
            use_type_invariant(self);
        }
        let mut bytes: Vec<u8> = Vec::new();
        let mut i: usize = 0;
        while i < self.pixels.len()
            invariant
                i <= self.pixels.len(),
                bytes.len() == 4 * i,
                forall|k: int| 0 <= k < i ==> self.pixels@[k] == #[trigger] pixel_at(bytes@, k),
            decreases self.pixels.len() - i,
        {
            let pixel = self.pixels[i];
            let ghost filled = bytes@;
            bytes.push(pixel.r);
            bytes.push(pixel.g);
            bytes.push(pixel.b);
            bytes.push(pixel.a);
            proof {
                assert forall|k: int| 0 <= k < i + 1 implies self.pixels@[k] == #[trigger] pixel_at(
                    bytes@,
                    k,
                ) by {
                    if k < i {
                        assert(self.pixels@[k] == pixel_at(filled, k));
                    }
                }
            }
            i += 1;
        }
        assert(self.pixels@ =~= pixels_of_bytes(bytes@));
        bytes
    }

    /// The image without pixels.
    pub fn empty() -> (image: Self)
        ensures
            image@ == (Grid { width: 0, height: 0, rows: Seq::empty() }),
    {
        let image = ImageBuffer { width: 0, height: 0, pixels: Vec::new() };
        assert(image@.rows =~= Seq::empty());
        image
    }

    /// An image from its dimensions and its pixels, row by row.
    pub(crate) fn from_pixels(width: usize, height: usize, pixels: Vec<Pixel>) -> (image: Self)
        requires
            pixels.len() == width * height,
        ensures
            image@ == grid_of_pixels(width as nat, height as nat, pixels@),
    {
        ImageBuffer { width, height, pixels }
    }

    /// The dimensions of the image and its pixels, row by row.
    pub(crate) fn into_pixels(self) -> (parts: (usize, usize, Vec<Pixel>))
        ensures
            parts.2.len() == parts.0 * parts.1,
            self@ == grid_of_pixels(parts.0 as nat, parts.1 as nat, parts.2@),
            self@.well_formed(),
    {
        proof {
            use_type_invariant(&self);
            self.lemma_view_well_formed();
        }
        (self.width, self.height, self.pixels)
    }
}

impl Clone for ImageBuffer {
    /// A copy of the image, pixel for pixel.
    fn clone(&self) -> (copy: Self)
        ensures
            copy@ == self@,
    {
        proof {
            use_type_invariant(self);
        }
        let pixels = slice_to_vec(self.pixels.as_slice());
        ImageBuffer { width: self.width, height: self.height, pixels }
    }
}

/// Turns the image a quarter clockwise.
pub fn Rotate90(image: &ImageBuffer) -> (turned: ImageBuffer)
    ensures
        turned@ == rotate90(image@),
{
    proof {
        use_type_invariant(image);
    }
    let width = image.width;
    let height = image.height;
    let ghost target = rotate90(image@);
    let mut pixels: Vec<Pixel> = Vec::new();
    let mut y: usize = 0;
    while y < width
        invariant
            y <= width,
            width == image.width,
            height == image.height,
            image.pixels.len() == width * height,
            target == rotate90(image@),
            pixels.len() == y * height,
            forall|r: int|
                0 <= r < y ==> #[trigger] pixels@.subrange(r * height, (r + 1) * height)
                    == target.rows[r],
        decreases width - y,
    {
        let mut row: Vec<Pixel> = Vec::new();
        let mut x: usize = 0;
        while x < height
            invariant
                x <= height,
                y < width,
                width == image.width,
                height == image.height,
                image.pixels.len() == width * height,
                row.len() == x,
                forall|k: int|
                    0 <= k < x ==> #[trigger] row@[k] == image@.rows[height - 1 - k][y as int],
            decreases height - x,
        {
            proof {
                lemma_position_in_bounds(
                    y as int,
                    height - 1 - x,
                    width as int,
                    height as int,
                );
            }
            row.push(image.pixels[(height - 1 - x) * width + y]);
            x += 1;
        }
        let ghost done = pixels@;
        let ghost gathered = row@;
        assert(gathered =~= target.rows[y as int]);
        pixels.append(&mut row);
        proof {
            lemma_rows_after_append(done, gathered, y as int, height as int);
        }
        y += 1;
    }
    proof {
        lemma_position_in_bounds(0, 0, 1, 1);
        assert(width * height == height * width) by (nonlinear_arith);
        assert(grid_of_pixels(height as nat, width as nat, pixels@).rows =~= target.rows);
    }
    ImageBuffer { width: height, height: width, pixels }
}

/// Turns the image a quarter anticlockwise.
pub fn Rotate270(image: &ImageBuffer) -> (turned: ImageBuffer)
    ensures
        turned@ == rotate270(image@),
{
    proof {
        use_type_invariant(image);
    }
    let width = image.width;
    let height = image.height;
    let ghost target = rotate270(image@);
    let mut pixels: Vec<Pixel> = Vec::new();
    let mut y: usize = 0;
    while y < width
        invariant
            y <= width,
            width == image.width,
            height == image.height,
            image.pixels.len() == width * height,
            target == rotate270(image@),
            pixels.len() == y * height,
            forall|r: int|
                0 <= r < y ==> #[trigger] pixels@.subrange(r * height, (r + 1) * height)
                    == target.rows[r],
        decreases width - y,
    {
        let mut row: Vec<Pixel> = Vec::new();
        let mut x: usize = 0;
        while x < height
            invariant
                x <= height,
                y < width,
                width == image.width,
                height == image.height,
                image.pixels.len() == width * height,
                row.len() == x,
                forall|k: int| 0 <= k < x ==> #[trigger] row@[k] == image@.rows[k][width - 1 - y],
            decreases height - x,
        {
            proof {
                lemma_position_in_bounds(width - 1 - y, x as int, width as int, height as int);
            }
            row.push(image.pixels[x * width + (width - 1 - y)]);
            x += 1;
        }
        let ghost done = pixels@;
        let ghost gathered = row@;
        assert(gathered =~= target.rows[y as int]);
        pixels.append(&mut row);
        proof {
            lemma_rows_after_append(done, gathered, y as int, height as int);
        }
        y += 1;
    }
    proof {
        assert(width * height == height * width) by (nonlinear_arith);
        assert(grid_of_pixels(height as nat, width as nat, pixels@).rows =~= target.rows);
    }
    ImageBuffer { width: height, height: width, pixels }
}

/// Adding one more row of `width` pixels to `count` rows leaves those rows
/// as they are, and the new row is row `count`.
proof fn lemma_rows_after_append(done: Seq<Pixel>, row: Seq<Pixel>, count: int, width: int)
    requires
        0 <= count,
        0 <= width,
        done.len() == count * width,
        row.len() == width,
    ensures
        (done + row).len() == (count + 1) * width,
        (done + row).subrange(count * width, (count + 1) * width) == row,
        forall|r: int|
            0 <= r < count ==> #[trigger] (done + row).subrange(r * width, (r + 1) * width)
                == done.subrange(r * width, (r + 1) * width),
{
    assert((count + 1) * width == count * width + width) by (nonlinear_arith);
    assert((done + row).subrange(count * width, (count + 1) * width) =~= row);
    assert forall|r: int| 0 <= r < count implies #[trigger] (done + row).subrange(
        r * width,
        (r + 1) * width,
    ) == done.subrange(r * width, (r + 1) * width) by {
        lemma_row_in_bounds(r, width, count);
        assert(width * count == count * width) by (nonlinear_arith);
        assert((done + row).subrange(r * width, (r + 1) * width) =~= done.subrange(
            r * width,
            (r + 1) * width,
        ));
    }
}

/// Row `y` of a row-major buffer lies in the buffer.
pub proof fn lemma_row_in_bounds(y: int, width: int, height: int)
    by (nonlinear_arith)
    requires
        0 <= width,
        0 <= y < height,
    ensures
        0 <= y * width <= (y + 1) * width <= width * height,
        (y + 1) * width - y * width == width,
{
}

} // verus!
