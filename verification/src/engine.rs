use rayon::iter::{IntoParallelRefMutIterator, ParallelIterator};
use rayon::slice::ParallelSliceMut;
use vstd::prelude::*;
use crate::line::{line_sorted, SortPixelsInLine};
use crate::pixel::Pixel;
use crate::raster::{
    grid_of_pixels, lemma_row_in_bounds, rotate270, rotate90, Grid, ImageBuffer, Rotate270,
    Rotate90,
};
use crate::settings::{PixelSorterSettings, SortError, SortMode, Threshold};
use crate::span::{in_band, InBand};
use crate::theorems::{lemma_sort_keeps_alpha, lemma_sort_keeps_outside};

verus! {

/// White for a pixel in the band, black for one outside it; the alpha stays.
pub open spec fn mask_pixel(p: Pixel, threshold: Threshold) -> Pixel {
    if in_band(p, threshold) {
        Pixel { r: 255, g: 255, b: 255, a: p.a }
    } else {
        Pixel { r: 0, g: 0, b: 0, a: p.a }
    }
}

/// The grid with every pixel replaced by its mask.
pub open spec fn mask(grid: Grid, threshold: Threshold) -> Grid {
    Grid {
        width: grid.width,
        height: grid.height,
        rows: Seq::new(
            grid.height,
            |y: int| Seq::new(grid.width, |x: int| mask_pixel(grid.rows[y][x], threshold)),
        ),
    }
}

/// `after` has the shape of `before`, and each of its rows is the row of
/// `before` with its spans sorted.
pub open spec fn rows_sorted(
    before: Grid,
    after: Grid,
    threshold: Threshold,
    mode: SortMode,
    invert: bool,
) -> bool {
    &&& after.width == before.width
    &&& after.height == before.height
    &&& after.well_formed()
    &&& forall|y: int|
        0 <= y < before.height ==> line_sorted(
            #[trigger] before.rows[y],
            after.rows[y],
            threshold,
            mode,
            invert,
        )
}

/// `after` has the shape of `before`, and each of its columns, read from the
/// bottom to the top, is the column of `before` with its spans sorted.
pub open spec fn columns_sorted(
    before: Grid,
    after: Grid,
    threshold: Threshold,
    mode: SortMode,
    invert: bool,
) -> bool {
    &&& after.width == before.width
    &&& after.height == before.height
    &&& after.well_formed()
    &&& forall|x: int|
        0 <= x < before.width ==> line_sorted(
            #[trigger] before.column_up(x),
            after.column_up(x),
            threshold,
            mode,
            invert,
        )
}

/// What a pass with `settings` makes of an image.
pub open spec fn image_sorted(before: Grid, after: Grid, settings: PixelSorterSettings) -> bool {
    if settings.vertical {
        columns_sorted(before, after, settings.threshold, settings.sortMode, settings.invert)
    } else {
        rows_sorted(before, after, settings.threshold, settings.sortMode, settings.invert)
    }
}

/// Replaces `pixel` by its mask.
pub fn ThresholdPixel(pixel: &mut Pixel, threshold: &Threshold)
    ensures
        *final(pixel) == mask_pixel(*old(pixel), *threshold),
{
    let value: u8 = if InBand(pixel, threshold) {
        255
    } else {
        0
    };
    *pixel = Pixel { r: value, g: value, b: value, a: pixel.a };
}

/// Masks every pixel, in parallel.
///
/// Trusted: rayon's `par_iter_mut` hands out each element of the vector
/// once, as a mutable reference, and `for_each` runs the closure on each
/// of them; so every pixel ends as `ThresholdPixel` leaves it.
#[verifier::external_body]
fn MaskPixelsInParallel(pixels: &mut Vec<Pixel>, threshold: &Threshold)
    ensures
        final(pixels).len() == old(pixels).len(),
        forall|i: int|
            0 <= i < old(pixels).len() ==> #[trigger] final(pixels)@[i] == mask_pixel(
                old(pixels)@[i],
                *threshold,
            ),
{
    pixels.par_iter_mut().for_each(|pixel| ThresholdPixel(pixel, threshold));
}

/// Sorts the spans of every row of `width` pixels, in parallel.
///
/// Trusted: rayon's `par_chunks_mut` cuts the vector into chunks of `width`
/// elements that do not overlap, in order, and `for_each` runs the closure
/// on each of them; so every full row ends as `SortPixelsInLine` leaves it.
/// `par_chunks_mut` panics on a chunk size of zero.
#[verifier::external_body]
fn SortRowsInParallel(pixels: &mut Vec<Pixel>, width: usize, settings: &PixelSorterSettings)
    requires
        width > 0,
    ensures
        final(pixels).len() == old(pixels).len(),
        forall|y: int|
            0 <= y && (y + 1) * width <= old(pixels).len() ==> line_sorted(
                #[trigger] old(pixels)@.subrange(y * width, (y + 1) * width),
                final(pixels)@.subrange(y * width, (y + 1) * width),
                settings.threshold,
                settings.sortMode,
                settings.invert,
            ),
{
    pixels.par_chunks_mut(width).for_each(|line| SortPixelsInLine(line, settings));
}

/// Sorts the spans of every row of an image given by its parts.
fn SortRows(width: usize, height: usize, pixels: &mut Vec<Pixel>, settings: &PixelSorterSettings)
    requires
        width > 0,
        old(pixels).len() == width * height,
    ensures
        final(pixels).len() == old(pixels).len(),
        rows_sorted(
            grid_of_pixels(width as nat, height as nat, old(pixels)@),
            grid_of_pixels(width as nat, height as nat, final(pixels)@),
            settings.threshold,
            settings.sortMode,
            settings.invert,
        ),
{
    let ghost before = grid_of_pixels(width as nat, height as nat, pixels@);
    let ghost entered = pixels@;
    SortRowsInParallel(pixels, width, settings);
    proof {
        let after = grid_of_pixels(width as nat, height as nat, pixels@);
        assert forall|y: int| 0 <= y < height implies (#[trigger] after.rows[y]).len()
            == width by {
            lemma_row_in_bounds(y, width as int, height as int);
        }
        assert forall|y: int| 0 <= y < before.height implies line_sorted(
            #[trigger] before.rows[y],
            after.rows[y],
            settings.threshold,
            settings.sortMode,
            settings.invert,
        ) by {
            lemma_row_in_bounds(y, width as int, height as int);
            assert(line_sorted(
                entered.subrange(y * width, (y + 1) * width),
                pixels@.subrange(y * width, (y + 1) * width),
                settings.threshold,
                settings.sortMode,
                settings.invert,
            ));
        }
    }
}

/// Replaces every pixel by white if its brightness lies in the band of
/// `settings` and by black if not, leaving every alpha as it is. A band with
/// `min > max` is refused, and the image stays as it is.
pub fn ThresholdImage(img: &mut ImageBuffer, settings: &PixelSorterSettings) -> (result: Result<
    (),
    SortError,
>)
    ensures
        final(img)@.width == old(img)@.width,
        final(img)@.height == old(img)@.height,
        forall|x: int, y: int|
            0 <= x < old(img)@.width && 0 <= y < old(img)@.height
                ==> (#[trigger] final(img)@.rows[y][x]).a == old(img)@.rows[y][x].a,
        match result {
            Ok(_) => settings.threshold.valid() && final(img)@ == mask(
                old(img)@,
                settings.threshold,
            ),
            Err(error) => !settings.threshold.valid() && error == SortError::InvalidThreshold
                && final(img)@ == old(img)@,
        },
{
    if !settings.threshold.is_valid() {
        return Err(SortError::InvalidThreshold);
    }
    let ghost before = img@;
    let mut taken = ImageBuffer::empty();
    core::mem::swap(img, &mut taken);
    let (width, height, mut pixels) = taken.into_pixels();
    MaskPixelsInParallel(&mut pixels, &settings.threshold);
    proof {
        let after = grid_of_pixels(width as nat, height as nat, pixels@);
        let expected = mask(before, settings.threshold);
        assert forall|y: int| 0 <= y < height implies #[trigger] after.rows[y]
            == expected.rows[y] by {
            lemma_row_in_bounds(y, width as int, height as int);
            assert(after.rows[y] =~= expected.rows[y]);
        }
        assert(after.rows =~= expected.rows);
    }
    *img = ImageBuffer::from_pixels(width, height, pixels);
    Ok(())
}

/// Sorts the spans of every row of the image, or of every column when
/// `settings.vertical` is set; a column is sorted from the bottom to the
/// top. The image keeps its width and height, every pixel its alpha. A band
/// with `min > max` is refused, and the image stays as it is.
pub fn SortImage(img: &mut ImageBuffer, settings: &PixelSorterSettings) -> (result: Result<
    (),
    SortError,
>)
    ensures
        final(img)@.width == old(img)@.width,
        final(img)@.height == old(img)@.height,
        forall|x: int, y: int|
            0 <= x < old(img)@.width && 0 <= y < old(img)@.height
                ==> (#[trigger] final(img)@.rows[y][x]).a == old(img)@.rows[y][x].a,
        forall|x: int, y: int|
            0 <= x < old(img)@.width && 0 <= y < old(img)@.height && !in_band(
                old(img)@.rows[y][x],
                settings.threshold,
            ) ==> #[trigger] final(img)@.rows[y][x] == old(img)@.rows[y][x],
        match result {
            Ok(_) => settings.threshold.valid() && image_sorted(old(img)@, final(img)@, *settings),
            Err(error) => !settings.threshold.valid() && error == SortError::InvalidThreshold
                && final(img)@ == old(img)@,
        },
{
    if !settings.threshold.is_valid() {
        return Err(SortError::InvalidThreshold);
    }
    if img.width() == 0 || img.height() == 0 {
        // An image without pixels is sorted as it is.
        return Ok(());
    }
    let ghost before = img@;
    let mut taken = ImageBuffer::empty();
    core::mem::swap(img, &mut taken);
    if settings.vertical {
        let turned = Rotate90(&taken);
        let (width, height, mut pixels) = turned.into_pixels();
        SortRows(width, height, &mut pixels, settings);
        let sorted = ImageBuffer::from_pixels(width, height, pixels);
        *img = Rotate270(&sorted);
        proof {
            lemma_columns_sorted_by_rows(
                before,
                sorted@,
                settings.threshold,
                settings.sortMode,
                settings.invert,
            );
        }
    } else {
        let (width, height, mut pixels) = taken.into_pixels();
        SortRows(width, height, &mut pixels, settings);
        *img = ImageBuffer::from_pixels(width, height, pixels);
    }
    proof {
        lemma_sort_keeps_alpha(before, img@, *settings);
        lemma_sort_keeps_outside(before, img@, *settings);
    }
    Ok(())
}

/// Sorting the rows of the grid turned clockwise, and turning the result
/// back, sorts the columns of the grid.
pub proof fn lemma_columns_sorted_by_rows(
    before: Grid,
    sorted: Grid,
    threshold: Threshold,
    mode: SortMode,
    invert: bool,
)
    requires
        rows_sorted(rotate90(before), sorted, threshold, mode, invert),
    ensures
        columns_sorted(before, rotate270(sorted), threshold, mode, invert),
{
    let after = rotate270(sorted);
    assert forall|x: int| 0 <= x < before.width implies line_sorted(
        #[trigger] before.column_up(x),
        after.column_up(x),
        threshold,
        mode,
        invert,
    ) by {
        assert(before.column_up(x) =~= rotate90(before).rows[x]);
        assert(sorted.rows[x].len() == sorted.width);
        assert(after.column_up(x) =~= sorted.rows[x]);
    }
}

} // verus!
