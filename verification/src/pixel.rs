use vstd::prelude::*;
use crate::settings::{PixelSorterSettings, SortMode};

verus! {

/// One RGBA pixel with eight bits per channel.
#[derive(Clone, Copy, Debug, PartialEq, Eq, Structural)]
pub struct Pixel {
    pub r: u8,
    pub g: u8,
    pub b: u8,
    pub a: u8,
}

/// Every metric is a fixed-point number: the value times `METRIC_SCALE`,
/// rounded down. Hue is in degrees, saturation and lightness are in percent,
/// the channels and their mean are in steps of one.
pub const METRIC_SCALE: u32 = 1_000_000;

/// `value` as a fixed-point number: `value` times `METRIC_SCALE`.
pub open spec fn fixed(value: int) -> int {
    value * 1_000_000
}

/// A colour: the three colour channels of a pixel, without its alpha.
#[derive(Clone, Copy, Debug, PartialEq, Eq, Structural)]
pub struct Rgb {
    pub r: u8,
    pub g: u8,
    pub b: u8,
}

/// The colour of a pixel.
pub open spec fn rgb(p: Pixel) -> Rgb {
    Rgb { r: p.r, g: p.g, b: p.b }
}

/// The colours of a line of pixels, position by position.
pub open spec fn colors(line: Seq<Pixel>) -> Seq<Rgb> {
    Seq::new(line.len(), |i: int| rgb(line[i]))
}

/// The integer mean of the three colour channels.
pub open spec fn average(c: Rgb) -> int {
    (c.r as int + c.g as int + c.b as int) / 3
}

/// The strongest of the three channels.
pub open spec fn max_channel(c: Rgb) -> int {
    if c.r >= c.g && c.r >= c.b {
        c.r as int
    } else if c.g >= c.b {
        c.g as int
    } else {
        c.b as int
    }
}

/// The weakest of the three channels.
pub open spec fn min_channel(c: Rgb) -> int {
    if c.r <= c.g && c.r <= c.b {
        c.r as int
    } else if c.g <= c.b {
        c.g as int
    } else {
        c.b as int
    }
}

/// The spread between the strongest and the weakest channel.
pub open spec fn chroma(c: Rgb) -> int {
    max_channel(c) - min_channel(c)
}

/// The position on the colour wheel, in units of one sixth of a turn
/// divided by `chroma(c)`; it lies in `[0, 6 * chroma(c))`.
///
/// The first of red, green, blue that attains the maximum decides the
/// branch. In the red branch a negative offset wraps round by a full turn.
pub open spec fn wheel_position(c: Rgb) -> int {
    let spread = chroma(c);
    if max_channel(c) == c.r {
        if c.g >= c.b {
            c.g - c.b
        } else {
            c.g - c.b + 6 * spread
        }
    } else if max_channel(c) == c.g {
        2 * spread + (c.b - c.r)
    } else {
        4 * spread + (c.r - c.g)
    }
}

/// Hue in degrees `[0, 360)`, as a fixed-point number; 0 for a grey.
pub open spec fn hue(c: Rgb) -> int {
    if chroma(c) == 0 {
        0
    } else {
        fixed(wheel_position(c) * 60) / chroma(c)
    }
}

/// Lightness in percent `[0, 100]`, as a fixed-point number: the midpoint of
/// the strongest and the weakest channel.
pub open spec fn lightness(c: Rgb) -> int {
    fixed((max_channel(c) + min_channel(c)) * 100) / 510
}

/// What the chroma is divided by to give the saturation: `1 - |2L - 1|` for
/// lightness `L` in `[0, 1]`, times 255.
pub open spec fn saturation_range(c: Rgb) -> int {
    let sum = max_channel(c) + min_channel(c);
    if sum <= 255 {
        sum
    } else {
        510 - sum
    }
}

/// Saturation in percent `[0, 100]`, as a fixed-point number; 0 for a grey,
/// black and white included.
pub open spec fn saturation(c: Rgb) -> int {
    if chroma(c) == 0 {
        0
    } else {
        fixed(chroma(c) * 100) / saturation_range(c)
    }
}

/// The value by which `mode` ranks a colour.
pub open spec fn metric(c: Rgb, mode: SortMode) -> int {
    match mode {
        SortMode::Average => fixed(average(c)),
        SortMode::Red => fixed(c.r as int),
        SortMode::Green => fixed(c.g as int),
        SortMode::Blue => fixed(c.b as int),
        SortMode::Hue => hue(c),
        SortMode::Saturation => saturation(c),
        SortMode::Lightness => lightness(c),
    }
}

fn MaxChannel(pixel: &Pixel) -> (max: u8)
    ensures
        max == max_channel(rgb(*pixel)),
{
    if pixel.r >= pixel.g && pixel.r >= pixel.b {
        pixel.r
    } else if pixel.g >= pixel.b {
        pixel.g
    } else {
        pixel.b
    }
}

fn MinChannel(pixel: &Pixel) -> (min: u8)
    ensures
        min == min_channel(rgb(*pixel)),
{
    if pixel.r <= pixel.g && pixel.r <= pixel.b {
        pixel.r
    } else if pixel.g <= pixel.b {
        pixel.g
    } else {
        pixel.b
    }
}

/// `value` as a fixed-point number.
fn Fixed(value: u64) -> (scaled: u64)
    requires
        value <= 100_000,
    ensures
        scaled == fixed(value as int),
{
    assert(value * METRIC_SCALE == value * 1_000_000) by (nonlinear_arith)
        requires
            METRIC_SCALE == 1_000_000,
    ;
    value * (METRIC_SCALE as u64)
}

/// The brightness of a pixel: the mean of its colour channels, rounded
/// down. The alpha plays no part.
pub fn GetPixelAverage(pixel: &Pixel) -> (avg: u8)
    ensures
        avg == average(rgb(*pixel)),
{
    ((pixel.r as u32 + pixel.g as u32 + pixel.b as u32) / 3) as u8
}

/// The lightness of a pixel in percent, as a fixed-point number.
pub fn GetPixelLightness(pixel: &Pixel) -> (value: u32)
    ensures
        value == lightness(rgb(*pixel)),
        value <= fixed(100),
{
    let sum: u64 = MaxChannel(pixel) as u64 + MinChannel(pixel) as u64;
    (Fixed(sum * 100) / 510) as u32
}

/// The saturation of a pixel in percent, as a fixed-point number; 0 for a
/// grey pixel.
pub fn GetPixelSaturation(pixel: &Pixel) -> (value: u32)
    ensures
        value == saturation(rgb(*pixel)),
        value <= fixed(100),
{
    let max: u64 = MaxChannel(pixel) as u64;
    let min: u64 = MinChannel(pixel) as u64;
    if max == min {
        return 0;
    }
    let sum: u64 = max + min;
    let range: u64 = if sum <= 255 { sum } else { 510 - sum };
    let spread: u64 = max - min;
    let scaled: u64 = Fixed(spread * 100);
    proof {
        lemma_quotient_bound(scaled as int, range as int, fixed(100));
    }
    (scaled / range) as u32
}

/// The hue of a pixel in degrees, as a fixed-point number; 0 for a grey
/// pixel.
pub fn GetPixelHue(pixel: &Pixel) -> (value: u32)
    ensures
        value == hue(rgb(*pixel)),
        value < fixed(360),
{
    let max: u64 = MaxChannel(pixel) as u64;
    let min: u64 = MinChannel(pixel) as u64;
    if max == min {
        return 0;
    }
    let c: u64 = max - min;
    let r: u64 = pixel.r as u64;
    let g: u64 = pixel.g as u64;
    let b: u64 = pixel.b as u64;
    let position: u64 = if max == r {
        if g >= b {
            g - b
        } else {
            6 * c - (b - g)
        }
    } else if max == g {
        2 * c + b - r
    } else {
        4 * c + r - g
    };
    assert(position == wheel_position(rgb(*pixel)));
    assert(position < 6 * c);
    let scaled: u64 = Fixed(position * 60);
    proof {
        assert(scaled <= 359_999_999 * c);
        lemma_quotient_bound(scaled as int, c as int, 359_999_999);
    }
    (scaled / c) as u32
}

/// Returns the number that a pixel should be sorted by: the metric that
/// `settings.sortMode` selects, as a fixed-point number.
pub fn GetPixelSortingNumber(pixel: &Pixel, settings: &PixelSorterSettings) -> (value: u32)
    ensures
        value == metric(rgb(*pixel), settings.sortMode),
{
    match settings.sortMode {
        SortMode::Average => Fixed(GetPixelAverage(pixel) as u64) as u32,
        SortMode::Red => Fixed(pixel.r as u64) as u32,
        SortMode::Green => Fixed(pixel.g as u64) as u32,
        SortMode::Blue => Fixed(pixel.b as u64) as u32,
        SortMode::Hue => GetPixelHue(pixel),
        SortMode::Saturation => GetPixelSaturation(pixel),
        SortMode::Lightness => GetPixelLightness(pixel),
    }
}

/// A quotient is at most `bound` when the dividend is at most `bound` times
/// the divisor.
proof fn lemma_quotient_bound(dividend: int, divisor: int, bound: int)
    by (nonlinear_arith)
    requires
        0 <= dividend,
        0 < divisor,
        dividend <= bound * divisor,
    ensures
        dividend / divisor <= bound,
{
}

} // verus!
