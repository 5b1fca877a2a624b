use pixelsorter::{
    ImageBuffer, Pixel, PixelSorterSettings, Rotate270, Rotate90, SortError, SortImage, SortMode,
    SortPixelsInLine, Threshold, ThresholdImage, ThresholdPixel,
};

fn raster(width: usize, height: usize, pixels: &[[u8; 4]]) -> ImageBuffer {
    let bytes: Vec<u8> = pixels.iter().flat_map(|p| p.iter().copied()).collect();
    ImageBuffer::from_raw(width, height, bytes).unwrap()
}

fn noise(width: usize, height: usize, seed: u32) -> Vec<u8> {
    let mut state = seed;
    let mut bytes = Vec::with_capacity(4 * width * height);
    for _ in 0..4 * width * height {
        state = state.wrapping_mul(1664525).wrapping_add(1013904223);
        bytes.push((state >> 24) as u8);
    }
    bytes
}

fn pass(min: u8, max: u8, mode: SortMode, vertical: bool, invert: bool) -> PixelSorterSettings {
    PixelSorterSettings {
        vertical,
        threshold: Threshold { min, max },
        showThresholds: false,
        sortMode: mode,
        invert,
    }
}

fn row_of(bytes: &[u8], width: usize, y: usize) -> Vec<Pixel> {
    bytes[4 * width * y..4 * width * (y + 1)]
        .chunks(4)
        .map(|c| Pixel { r: c[0], g: c[1], b: c[2], a: c[3] })
        .collect()
}

#[test]
fn raw_bytes_round_trip() {
    let bytes = noise(7, 5, 1);
    let img = ImageBuffer::from_raw(7, 5, bytes.clone()).unwrap();
    assert_eq!(img.width(), 7);
    assert_eq!(img.height(), 5);
    assert_eq!(img.to_raw(), bytes);
}

#[test]
fn copy_is_apart_from_the_image_it_was_made_of() {
    let bytes = noise(6, 4, 41);
    let loaded = ImageBuffer::from_raw(6, 4, bytes.clone()).unwrap();
    let mut working = loaded.clone();
    assert_eq!((working.width(), working.height()), (6, 4));
    assert_eq!(working.to_raw(), bytes);
    assert_eq!(SortImage(&mut working, &pass(0, 255, SortMode::Red, false, false)), Ok(()));
    assert_ne!(working.to_raw(), bytes);
    assert_eq!(loaded.to_raw(), bytes);
}

#[test]
fn pixels_are_addressed_by_column_and_row() {
    let img = raster(
        2,
        3,
        &[
            [1, 2, 3, 4],
            [5, 6, 7, 8],
            [9, 10, 11, 12],
            [13, 14, 15, 16],
            [17, 18, 19, 20],
            [21, 22, 23, 24],
        ],
    );
    assert_eq!(img.get_pixel(0, 0), Some(Pixel { r: 1, g: 2, b: 3, a: 4 }));
    assert_eq!(img.get_pixel(1, 0), Some(Pixel { r: 5, g: 6, b: 7, a: 8 }));
    assert_eq!(img.get_pixel(0, 1), Some(Pixel { r: 9, g: 10, b: 11, a: 12 }));
    assert_eq!(img.get_pixel(1, 2), Some(Pixel { r: 21, g: 22, b: 23, a: 24 }));
    assert_eq!(img.get_pixel(2, 0), None);
    assert_eq!(img.get_pixel(0, 3), None);
}

#[test]
fn buffer_of_the_wrong_length_is_refused() {
    assert!(matches!(
        ImageBuffer::from_raw(2, 2, vec![0; 15]),
        Err(SortError::UnsupportedPixelFormat)
    ));
    assert!(matches!(
        ImageBuffer::from_raw(2, 2, vec![0; 17]),
        Err(SortError::UnsupportedPixelFormat)
    ));
    // Three bytes to a pixel is not RGBA.
    assert!(matches!(
        ImageBuffer::from_raw(2, 2, vec![0; 12]),
        Err(SortError::UnsupportedPixelFormat)
    ));
    assert!(matches!(
        ImageBuffer::from_raw(1, 1, vec![]),
        Err(SortError::UnsupportedPixelFormat)
    ));
    assert!(ImageBuffer::from_raw(2, 2, vec![0; 16]).is_ok());
}

#[test]
fn dimensions_too_large_for_the_machine_are_refused() {
    assert!(matches!(
        ImageBuffer::from_raw(usize::MAX, 2, vec![]),
        Err(SortError::UnsupportedPixelFormat)
    ));
    assert!(matches!(
        ImageBuffer::from_raw(usize::MAX / 4 + 1, 1, vec![0; 4]),
        Err(SortError::UnsupportedPixelFormat)
    ));
}

#[test]
fn empty_images() {
    let none = ImageBuffer::empty();
    assert_eq!((none.width(), none.height()), (0, 0));
    assert_eq!(none.to_raw(), Vec::<u8>::new());
    for (width, height) in [(0usize, 0usize), (0, 5), (5, 0)] {
        for vertical in [false, true] {
            let mut img = ImageBuffer::from_raw(width, height, vec![]).unwrap();
            let s = pass(0, 255, SortMode::Red, vertical, false);
            assert_eq!(SortImage(&mut img, &s), Ok(()));
            assert_eq!((img.width(), img.height()), (width, height));
            assert_eq!(img.to_raw(), Vec::<u8>::new());
            assert_eq!(ThresholdImage(&mut img, &s), Ok(()));
            assert_eq!((img.width(), img.height()), (width, height));
            assert_eq!(img.to_raw(), Vec::<u8>::new());
        }
    }
}

#[test]
fn quarter_turn_clockwise() {
    // a b c      d a
    // d e f  ->  e b
    //            f c
    let img = raster(
        3,
        2,
        &[[1, 0, 0, 0], [2, 0, 0, 0], [3, 0, 0, 0], [4, 0, 0, 0], [5, 0, 0, 0], [6, 0, 0, 0]],
    );
    let turned = Rotate90(&img);
    assert_eq!((turned.width(), turned.height()), (2, 3));
    let reds: Vec<u8> = turned.to_raw().chunks(4).map(|c| c[0]).collect();
    assert_eq!(reds, vec![4, 1, 5, 2, 6, 3]);
}

#[test]
fn quarter_turn_anticlockwise() {
    // a b c      c f
    // d e f  ->  b e
    //            a d
    let img = raster(
        3,
        2,
        &[[1, 0, 0, 0], [2, 0, 0, 0], [3, 0, 0, 0], [4, 0, 0, 0], [5, 0, 0, 0], [6, 0, 0, 0]],
    );
    let turned = Rotate270(&img);
    assert_eq!((turned.width(), turned.height()), (2, 3));
    let reds: Vec<u8> = turned.to_raw().chunks(4).map(|c| c[0]).collect();
    assert_eq!(reds, vec![3, 6, 2, 5, 1, 4]);
}

#[test]
fn quarter_turns_undo_each_other() {
    let bytes = noise(9, 4, 7);
    let img = ImageBuffer::from_raw(9, 4, bytes.clone()).unwrap();
    assert_eq!(Rotate270(&Rotate90(&img)).to_raw(), bytes);
    assert_eq!(Rotate90(&Rotate270(&img)).to_raw(), bytes);
    let full = Rotate90(&Rotate90(&Rotate90(&Rotate90(&img))));
    assert_eq!((full.width(), full.height()), (9, 4));
    assert_eq!(full.to_raw(), bytes);
}

#[test]
fn quarter_turns_agree_with_the_image_crate() {
    for (width, height) in [(1usize, 1usize), (5, 3), (3, 5), (1, 6), (6, 1), (16, 16)] {
        let bytes = noise(width, height, (width * 31 + height) as u32);
        let ours = ImageBuffer::from_raw(width, height, bytes.clone()).unwrap();
        let theirs = image::RgbaImage::from_raw(width as u32, height as u32, bytes).unwrap();

        let turned = Rotate90(&ours);
        let expected = image::imageops::rotate90(&theirs);
        assert_eq!(turned.width() as u32, expected.width());
        assert_eq!(turned.height() as u32, expected.height());
        assert_eq!(turned.to_raw(), expected.into_raw());

        let turned = Rotate270(&ours);
        let expected = image::imageops::rotate270(&theirs);
        assert_eq!(turned.width() as u32, expected.width());
        assert_eq!(turned.height() as u32, expected.height());
        assert_eq!(turned.to_raw(), expected.into_raw());
    }
}

#[test]
fn mask_pixel_keeps_alpha() {
    let t = Threshold::new(100, 200);
    let mut inside = Pixel { r: 150, g: 150, b: 150, a: 77 };
    ThresholdPixel(&mut inside, &t);
    assert_eq!(inside, Pixel { r: 255, g: 255, b: 255, a: 77 });
    let mut outside = Pixel { r: 250, g: 250, b: 250, a: 0 };
    ThresholdPixel(&mut outside, &t);
    assert_eq!(outside, Pixel { r: 0, g: 0, b: 0, a: 0 });
}

#[test]
fn mask_does_not_read_the_sort_mode() {
    let bytes = noise(8, 8, 3);
    let mut by_hue = ImageBuffer::from_raw(8, 8, bytes.clone()).unwrap();
    let mut by_red = ImageBuffer::from_raw(8, 8, bytes).unwrap();
    assert_eq!(ThresholdImage(&mut by_hue, &pass(90, 160, SortMode::Hue, false, false)), Ok(()));
    assert_eq!(ThresholdImage(&mut by_red, &pass(90, 160, SortMode::Red, true, true)), Ok(()));
    assert_eq!(by_hue.to_raw(), by_red.to_raw());
}

#[test]
fn mask_of_a_whole_image() {
    let bytes = noise(33, 17, 5);
    let mut img = ImageBuffer::from_raw(33, 17, bytes.clone()).unwrap();
    assert_eq!(ThresholdImage(&mut img, &pass(100, 180, SortMode::Lightness, false, false)), Ok(()));
    assert_eq!((img.width(), img.height()), (33, 17));
    let masked = img.to_raw();
    for (before, after) in bytes.chunks(4).zip(masked.chunks(4)) {
        let mean = (before[0] as u32 + before[1] as u32 + before[2] as u32) / 3;
        let value = if (100..=180).contains(&mean) { 255 } else { 0 };
        assert_eq!(after, [value, value, value, before[3]]);
    }
}

#[test]
fn rows_are_sorted_one_by_one() {
    let (width, height) = (40, 25);
    let bytes = noise(width, height, 11);
    let s = pass(60, 190, SortMode::Saturation, false, false);
    let mut img = ImageBuffer::from_raw(width, height, bytes.clone()).unwrap();
    assert_eq!(SortImage(&mut img, &s), Ok(()));
    assert_eq!((img.width(), img.height()), (width, height));
    let sorted = img.to_raw();
    for y in 0..height {
        let mut line = row_of(&bytes, width, y);
        SortPixelsInLine(&mut line, &s);
        assert_eq!(row_of(&sorted, width, y), line);
    }
    assert_ne!(sorted, bytes);
}

#[test]
fn column_is_sorted_from_the_bottom_up() {
    // One column; all pixels in the band. The smallest red ends at the bottom.
    let mut img = raster(1, 4, &[[10, 0, 0, 1], [30, 0, 0, 2], [20, 0, 0, 3], [40, 0, 0, 4]]);
    assert_eq!(SortImage(&mut img, &pass(0, 255, SortMode::Red, true, false)), Ok(()));
    assert_eq!((img.width(), img.height()), (1, 4));
    assert_eq!(
        img.to_raw(),
        vec![40, 0, 0, 1, 30, 0, 0, 2, 20, 0, 0, 3, 10, 0, 0, 4]
    );
}

#[test]
fn vertical_pass_leaves_rows_apart() {
    // Two columns, sorted each on its own; the right one holds one pixel
    // outside the band, which splits it in two spans.
    let mut img = raster(
        2,
        3,
        &[
            [90, 90, 90, 1],
            [50, 50, 50, 2],
            [30, 30, 30, 3],
            [255, 255, 255, 4],
            [60, 60, 60, 5],
            [70, 70, 70, 6],
        ],
    );
    assert_eq!(SortImage(&mut img, &pass(0, 200, SortMode::Average, true, false)), Ok(()));
    assert_eq!(
        img.to_raw(),
        vec![
            90, 90, 90, 1, 50, 50, 50, 2, //
            60, 60, 60, 3, 255, 255, 255, 4, //
            30, 30, 30, 5, 70, 70, 70, 6,
        ]
    );
}

#[test]
fn vertical_pass_is_a_horizontal_pass_on_the_turned_image() {
    let (width, height) = (13, 21);
    let bytes = noise(width, height, 17);
    for invert in [false, true] {
        let vertical = pass(80, 200, SortMode::Hue, true, invert);
        let horizontal = pass(80, 200, SortMode::Hue, false, invert);

        let mut direct = ImageBuffer::from_raw(width, height, bytes.clone()).unwrap();
        assert_eq!(SortImage(&mut direct, &vertical), Ok(()));

        let theirs =
            image::RgbaImage::from_raw(width as u32, height as u32, bytes.clone()).unwrap();
        let turned = image::imageops::rotate90(&theirs);
        let mut by_rows = ImageBuffer::from_raw(height, width, turned.into_raw()).unwrap();
        assert_eq!(SortImage(&mut by_rows, &horizontal), Ok(()));
        let sorted =
            image::RgbaImage::from_raw(height as u32, width as u32, by_rows.to_raw()).unwrap();
        let back = image::imageops::rotate270(&sorted);

        assert_eq!((direct.width(), direct.height()), (width, height));
        assert_eq!(direct.to_raw(), back.into_raw());
    }
}

#[test]
fn sorting_keeps_alpha_and_pixels_outside_the_band() {
    let (width, height) = (31, 19);
    let bytes = noise(width, height, 23);
    for vertical in [false, true] {
        let s = pass(100, 150, SortMode::Lightness, vertical, false);
        let mut img = ImageBuffer::from_raw(width, height, bytes.clone()).unwrap();
        assert_eq!(SortImage(&mut img, &s), Ok(()));
        let sorted = img.to_raw();
        assert_eq!(sorted.len(), bytes.len());
        for (before, after) in bytes.chunks(4).zip(sorted.chunks(4)) {
            assert_eq!(after[3], before[3]);
            let mean = (before[0] as u32 + before[1] as u32 + before[2] as u32) / 3;
            if !(100..=150).contains(&mean) {
                assert_eq!(after, before);
            }
        }
    }
}

#[test]
fn sorting_keeps_the_colours_of_each_row() {
    let (width, height) = (50, 6);
    let bytes = noise(width, height, 29);
    let s = pass(0, 255, SortMode::Blue, false, true);
    let mut img = ImageBuffer::from_raw(width, height, bytes.clone()).unwrap();
    assert_eq!(SortImage(&mut img, &s), Ok(()));
    let sorted = img.to_raw();
    for y in 0..height {
        let mut before: Vec<[u8; 3]> =
            row_of(&bytes, width, y).iter().map(|p| [p.r, p.g, p.b]).collect();
        let after: Vec<[u8; 3]> =
            row_of(&sorted, width, y).iter().map(|p| [p.r, p.g, p.b]).collect();
        // The whole row is one span: blue falls along it.
        for pair in after.windows(2) {
            assert!(pair[0][2] >= pair[1][2]);
        }
        let mut after = after;
        before.sort();
        after.sort();
        assert_eq!(before, after);
    }
}

#[test]
fn second_pass_changes_nothing() {
    let (width, height) = (23, 14);
    let bytes = noise(width, height, 37);
    for vertical in [false, true] {
        for invert in [false, true] {
            let s = pass(70, 180, SortMode::Saturation, vertical, invert);
            let mut img = ImageBuffer::from_raw(width, height, bytes.clone()).unwrap();
            assert_eq!(SortImage(&mut img, &s), Ok(()));
            let once = img.to_raw();
            assert_eq!(SortImage(&mut img, &s), Ok(()));
            assert_eq!(img.to_raw(), once);
        }
    }
}

#[test]
fn large_image_is_sorted_row_by_row() {
    let (width, height) = (257, 129);
    let bytes = noise(width, height, 31);
    let s = pass(40, 220, SortMode::Lightness, false, false);
    let mut img = ImageBuffer::from_raw(width, height, bytes.clone()).unwrap();
    assert_eq!(SortImage(&mut img, &s), Ok(()));
    let sorted = img.to_raw();
    for y in [0, 1, 64, 127, 128] {
        let mut line = row_of(&bytes, width, y);
        SortPixelsInLine(&mut line, &s);
        assert_eq!(row_of(&sorted, width, y), line);
    }
}
