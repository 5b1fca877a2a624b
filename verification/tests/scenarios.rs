use pixelsorter::{
    ImageBuffer, PixelSorterSettings, SortError, SortImage, SortMode, Threshold, ThresholdImage,
};

fn image(width: usize, height: usize, pixels: &[[u8; 4]]) -> ImageBuffer {
    let bytes: Vec<u8> = pixels.iter().flat_map(|p| p.iter().copied()).collect();
    ImageBuffer::from_raw(width, height, bytes).unwrap()
}

fn settings(min: u8, max: u8, mode: SortMode) -> PixelSorterSettings {
    PixelSorterSettings {
        vertical: false,
        threshold: Threshold { min, max },
        showThresholds: false,
        sortMode: mode,
        invert: false,
    }
}

#[test]
fn one_span_in_a_row_is_sorted_by_red() {
    // Brightness 50, 150, 160, 140, 50: positions 1..=3 form the only span.
    let mut img = image(
        5,
        1,
        &[
            [50, 50, 50, 10],
            [200, 150, 100, 20],
            [100, 180, 200, 30],
            [200, 120, 100, 40],
            [50, 50, 50, 50],
        ],
    );
    let result = SortImage(&mut img, &settings(100, 200, SortMode::Red));
    assert_eq!(result, Ok(()));
    assert_eq!(
        img.to_raw(),
        vec![
            50, 50, 50, 10, //
            100, 180, 200, 20, //
            200, 150, 100, 30, //
            200, 120, 100, 40, //
            50, 50, 50, 50,
        ]
    );
}

#[test]
fn inverted_band_is_rejected_and_the_image_untouched() {
    let mut img = image(2, 1, &[[150, 150, 150, 255], [120, 120, 120, 255]]);
    let before = img.to_raw();
    let bad = settings(200, 100, SortMode::Lightness);
    assert_eq!(SortImage(&mut img, &bad), Err(SortError::InvalidThreshold));
    assert_eq!(img.to_raw(), before);
    assert_eq!(ThresholdImage(&mut img, &bad), Err(SortError::InvalidThreshold));
    assert_eq!(img.to_raw(), before);
}

#[test]
fn all_black_image_outside_the_band_is_unchanged() {
    let mut img = image(3, 2, &[[0, 0, 0, 255]; 6]);
    let before = img.to_raw();
    assert_eq!(SortImage(&mut img, &settings(1, 255, SortMode::Hue)), Ok(()));
    assert_eq!(img.to_raw(), before);
}

#[test]
fn mask_is_white_at_both_ends_of_the_band_and_black_below() {
    let mut img = image(
        3,
        1,
        &[[100, 100, 100, 1], [200, 200, 200, 2], [99, 99, 99, 3]],
    );
    let mut s = settings(100, 200, SortMode::Lightness);
    s.showThresholds = true;
    assert_eq!(ThresholdImage(&mut img, &s), Ok(()));
    assert_eq!(
        img.to_raw(),
        vec![255, 255, 255, 1, 255, 255, 255, 2, 0, 0, 0, 3]
    );
}
