use std::cmp::Ordering;

use pixelsorter::{
    ComesBefore, GetPixelAverage, GetPixelHue, GetPixelLightness, GetPixelOrdering,
    GetPixelSaturation, GetPixelSortingNumber, Pixel, PixelSorterSettings, SortMode, Threshold,
    METRIC_SCALE,
};

fn px(r: u8, g: u8, b: u8) -> Pixel {
    Pixel { r, g, b, a: 255 }
}

fn with_mode(mode: SortMode, invert: bool) -> PixelSorterSettings {
    PixelSorterSettings { sortMode: mode, invert, ..PixelSorterSettings::default() }
}

#[test]
fn default_settings() {
    let s = PixelSorterSettings::default();
    assert!(!s.vertical);
    assert_eq!(s.threshold, Threshold { min: 127, max: 223 });
    assert!(!s.showThresholds);
    assert_eq!(s.sortMode, SortMode::Lightness);
    assert!(!s.invert);
}

#[test]
fn threshold_is_inclusive_at_both_ends() {
    let t = Threshold::new(100, 200);
    assert_eq!(t, Threshold { min: 100, max: 200 });
    assert!(t.contains(&100));
    assert!(t.contains(&200));
    assert!(t.contains(&150));
    assert!(!t.contains(&99));
    assert!(!t.contains(&201));
    assert!(t.is_valid());
}

#[test]
fn inverted_threshold_contains_nothing() {
    let t = Threshold::new(200, 100);
    assert!(!t.is_valid());
    for value in 0..=255u8 {
        assert!(!t.contains(&value));
    }
}

#[test]
fn single_value_threshold() {
    let t = Threshold::new(7, 7);
    assert!(t.is_valid());
    assert!(t.contains(&7));
    assert!(!t.contains(&6));
    assert!(!t.contains(&8));
}

#[test]
fn average_truncates_and_does_not_overflow() {
    assert_eq!(GetPixelAverage(&px(255, 255, 255)), 255);
    assert_eq!(GetPixelAverage(&px(0, 0, 0)), 0);
    assert_eq!(GetPixelAverage(&px(1, 1, 0)), 0);
    assert_eq!(GetPixelAverage(&px(255, 255, 254)), 254);
    assert_eq!(GetPixelAverage(&px(200, 150, 100)), 150);
    assert_eq!(GetPixelAverage(&px(10, 20, 31)), 20);
}

#[test]
fn average_ignores_alpha() {
    let opaque = Pixel { r: 10, g: 200, b: 90, a: 255 };
    let clear = Pixel { r: 10, g: 200, b: 90, a: 0 };
    assert_eq!(GetPixelAverage(&opaque), GetPixelAverage(&clear));
    assert_eq!(GetPixelHue(&opaque), GetPixelHue(&clear));
    assert_eq!(GetPixelSaturation(&opaque), GetPixelSaturation(&clear));
    assert_eq!(GetPixelLightness(&opaque), GetPixelLightness(&clear));
}

#[test]
fn hue_of_primary_and_secondary_colours() {
    assert_eq!(GetPixelHue(&px(255, 0, 0)), 0);
    assert_eq!(GetPixelHue(&px(255, 255, 0)), 60 * METRIC_SCALE);
    assert_eq!(GetPixelHue(&px(0, 255, 0)), 120 * METRIC_SCALE);
    assert_eq!(GetPixelHue(&px(0, 255, 255)), 180 * METRIC_SCALE);
    assert_eq!(GetPixelHue(&px(0, 0, 255)), 240 * METRIC_SCALE);
    assert_eq!(GetPixelHue(&px(255, 0, 255)), 300 * METRIC_SCALE);
}

#[test]
fn hue_wraps_round_in_the_red_branch() {
    // Red is the maximum and green is below blue: -1/5 of a sextant wraps to 5 + 4/5.
    assert_eq!(GetPixelHue(&px(200, 100, 120)), 348 * METRIC_SCALE);
    assert_eq!(GetPixelHue(&px(200, 100, 50)), 20 * METRIC_SCALE);
    assert_eq!(GetPixelHue(&px(100, 150, 200)), 210 * METRIC_SCALE);
    assert_eq!(GetPixelHue(&px(100, 200, 150)), 150 * METRIC_SCALE);
    assert_eq!(GetPixelHue(&px(4, 2, 1)), 20 * METRIC_SCALE);
    assert_eq!(GetPixelHue(&px(4, 1, 0)), 15 * METRIC_SCALE);
    assert_eq!(GetPixelHue(&px(4, 3, 1)), 40 * METRIC_SCALE);
    // 1/7 of a sextant: rounded down.
    assert_eq!(GetPixelHue(&px(7, 1, 0)), 8_571_428);
}

#[test]
fn hue_stays_below_a_full_turn() {
    let almost = GetPixelHue(&px(255, 0, 1));
    assert_eq!(almost, 359_764_705);
    assert!(almost < 360 * METRIC_SCALE);
}

#[test]
fn grey_pixels_have_hue_and_saturation_zero() {
    for value in [0u8, 1, 127, 128, 254, 255] {
        let grey = px(value, value, value);
        assert_eq!(GetPixelHue(&grey), 0);
        assert_eq!(GetPixelSaturation(&grey), 0);
    }
}

#[test]
fn lightness_is_the_midpoint_in_percent() {
    assert_eq!(GetPixelLightness(&px(0, 0, 0)), 0);
    assert_eq!(GetPixelLightness(&px(255, 255, 255)), 100 * METRIC_SCALE);
    assert_eq!(GetPixelLightness(&px(255, 0, 0)), 50 * METRIC_SCALE);
    assert_eq!(GetPixelLightness(&px(200, 100, 50)), 49_019_607);
    assert_eq!(GetPixelLightness(&px(100, 150, 200)), 58_823_529);
    assert_eq!(GetPixelLightness(&px(128, 128, 128)), 50_196_078);
    assert_eq!(GetPixelLightness(&px(1, 0, 0)), 196_078);
}

#[test]
fn saturation_in_percent() {
    assert_eq!(GetPixelSaturation(&px(255, 0, 0)), 100 * METRIC_SCALE);
    assert_eq!(GetPixelSaturation(&px(200, 100, 50)), 60 * METRIC_SCALE);
    assert_eq!(GetPixelSaturation(&px(100, 150, 200)), 47_619_047);
    assert_eq!(GetPixelSaturation(&px(255, 255, 254)), 100 * METRIC_SCALE);
    assert_eq!(GetPixelSaturation(&px(1, 0, 0)), 100 * METRIC_SCALE);
    assert_eq!(GetPixelSaturation(&px(255, 128, 128)), 100 * METRIC_SCALE);
    // Spread 128 over a range of 510 - 256 = 254.
    assert_eq!(GetPixelSaturation(&px(192, 128, 64)), 50_393_700);
    assert_eq!(GetPixelSaturation(&px(150, 100, 50)), 50 * METRIC_SCALE);
}

#[test]
fn sorting_number_follows_the_mode() {
    let p = px(200, 100, 50);
    assert_eq!(GetPixelSortingNumber(&p, &with_mode(SortMode::Red, false)), 200 * METRIC_SCALE);
    assert_eq!(GetPixelSortingNumber(&p, &with_mode(SortMode::Green, false)), 100 * METRIC_SCALE);
    assert_eq!(GetPixelSortingNumber(&p, &with_mode(SortMode::Blue, false)), 50 * METRIC_SCALE);
    assert_eq!(GetPixelSortingNumber(&p, &with_mode(SortMode::Average, false)), 116 * METRIC_SCALE);
    assert_eq!(GetPixelSortingNumber(&p, &with_mode(SortMode::Hue, false)), 20 * METRIC_SCALE);
    assert_eq!(GetPixelSortingNumber(&p, &with_mode(SortMode::Saturation, false)), 60 * METRIC_SCALE);
    assert_eq!(GetPixelSortingNumber(&p, &with_mode(SortMode::Lightness, false)), 49_019_607);
}

#[test]
fn sorting_number_does_not_read_the_direction() {
    let p = px(12, 34, 56);
    for mode in [
        SortMode::Average,
        SortMode::Red,
        SortMode::Green,
        SortMode::Blue,
        SortMode::Hue,
        SortMode::Saturation,
        SortMode::Lightness,
    ] {
        assert_eq!(
            GetPixelSortingNumber(&p, &with_mode(mode, false)),
            GetPixelSortingNumber(&p, &with_mode(mode, true))
        );
    }
}

#[test]
fn ordering_compares_by_metric() {
    let dark = px(10, 0, 0);
    let light = px(20, 0, 0);
    let up = with_mode(SortMode::Red, false);
    assert_eq!(GetPixelOrdering(&dark, &light, &up), Ordering::Less);
    assert_eq!(GetPixelOrdering(&light, &dark, &up), Ordering::Greater);
    assert_eq!(GetPixelOrdering(&dark, &px(10, 99, 99), &up), Ordering::Equal);
    assert!(ComesBefore(&dark, &light, &up));
    assert!(!ComesBefore(&light, &dark, &up));
    assert!(!ComesBefore(&dark, &dark, &up));
}

#[test]
fn ordering_is_reversed_when_inverted() {
    let dark = px(10, 0, 0);
    let light = px(20, 0, 0);
    let down = with_mode(SortMode::Red, true);
    assert_eq!(GetPixelOrdering(&dark, &light, &down), Ordering::Greater);
    assert_eq!(GetPixelOrdering(&light, &dark, &down), Ordering::Less);
    assert_eq!(GetPixelOrdering(&dark, &px(10, 99, 99), &down), Ordering::Equal);
    assert!(ComesBefore(&light, &dark, &down));
    assert!(!ComesBefore(&dark, &light, &down));
}

#[test]
fn fixed_point_metric_agrees_with_the_real_formulas() {
    // Every colour on a coarse lattice: the fixed-point value is the real
    // value times the scale, rounded down (within one unit of float error).
    let scale = METRIC_SCALE as f64;
    let mut r = 0u32;
    while r <= 255 {
        let mut g = 0u32;
        while g <= 255 {
            let mut b = 0u32;
            while b <= 255 {
                let p = px(r as u8, g as u8, b as u8);
                let (rf, gf, bf) = (r as f64, g as f64, b as f64);
                let max = rf.max(gf).max(bf);
                let min = rf.min(gf).min(bf);
                let lightness = (max + min) * 100.0 / 510.0;
                let saturation = if max == min {
                    0.0
                } else {
                    (max - min) * 100.0 / (255.0 - (max + min - 255.0).abs())
                };
                let hue = if max == min {
                    0.0
                } else if max == rf {
                    ((gf - bf) / (max - min)).rem_euclid(6.0) * 60.0
                } else if max == gf {
                    (2.0 + (bf - rf) / (max - min)) * 60.0
                } else {
                    (4.0 + (rf - gf) / (max - min)) * 60.0
                };
                assert!((GetPixelLightness(&p) as f64 - (lightness * scale).floor()).abs() <= 1.0);
                assert!((GetPixelSaturation(&p) as f64 - (saturation * scale).floor()).abs() <= 1.0);
                assert!((GetPixelHue(&p) as f64 - (hue * scale).floor()).abs() <= 1.0);
                b += 17;
            }
            g += 17;
        }
        r += 17;
    }
}
