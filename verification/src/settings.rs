use vstd::prelude::*;

verus! {

/// An inclusive band `[min, max]` of brightness values.
///
/// The band is meant to satisfy `min <= max`; the fields stay public so that
/// a settings panel can bind to them, and the engine checks the band before
/// it touches an image.
#[derive(Clone, Copy, Debug, PartialEq, Eq, Structural)]
pub struct Threshold {
    pub min: u8,
    pub max: u8,
}

impl Threshold {
    /// Whether `min <= max`.
    pub open spec fn valid(self) -> bool {
        self.min <= self.max
    }

    /// Whether `value` lies in the band, both ends included.
    pub open spec fn holds(self, value: int) -> bool {
        self.min <= value <= self.max
    }

    pub fn new(min: u8, max: u8) -> (threshold: Self)
        ensures
            threshold.min == min,
            threshold.max == max,
    {
        Threshold { min, max }
    }

    pub fn contains(&self, value: &u8) -> (inside: bool)
        ensures
            inside == self.holds(*value as int),
    {
        *value >= self.min && *value <= self.max
    }

    pub fn is_valid(&self) -> (ok: bool)
        ensures
            ok == self.valid(),
    {
        self.min <= self.max
    }
}

/// The colour-space projection by which pixels inside a span are ranked.
#[derive(Clone, Copy, Debug, PartialEq, Eq, Structural)]
pub enum SortMode {
    Average,
    Red,
    Green,
    Blue,
    Hue,
    Saturation,
    Lightness,
}

/// Everything one pass over an image reads.
#[derive(Clone, Copy, Debug, PartialEq, Eq, Structural)]
pub struct PixelSorterSettings {
    /// Sort along columns instead of rows.
    pub vertical: bool,
    pub threshold: Threshold,
    /// Show the band as a black and white mask instead of sorting.
    pub showThresholds: bool,
    pub sortMode: SortMode,
    /// Rank from the largest metric value down to the smallest.
    pub invert: bool,
}

impl Default for PixelSorterSettings {
    fn default() -> (settings: Self)
        ensures
            settings == (PixelSorterSettings {
                vertical: false,
                threshold: Threshold { min: 127, max: 223 },
                showThresholds: false,
                sortMode: SortMode::Lightness,
                invert: false,
            }),
    {
        PixelSorterSettings {
            vertical: false,
            threshold: Threshold::new(127, 223),
            showThresholds: false,
            sortMode: SortMode::Lightness,
            invert: false,
        }
    }
}

/// Why the engine refused an input.
#[derive(Clone, Copy, Debug, PartialEq, Eq, Structural)]
pub enum SortError {
    /// The band has `min > max`.
    InvalidThreshold,
    /// The buffer does not hold four bytes for each of `width * height` pixels.
    UnsupportedPixelFormat,
}

} // verus!
