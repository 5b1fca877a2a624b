use core::cmp::Ordering;
use vstd::prelude::*;
use crate::pixel::{metric, rgb, GetPixelSortingNumber, Pixel};
use crate::settings::PixelSorterSettings;

verus! {

/// Whether an item of rank `x` belongs strictly before one of rank
/// `y`: smaller first, or larger first when `invert` is set.
pub open spec fn precedes(x: int, y: int, invert: bool) -> bool {
    if invert {
        x > y
    } else {
        x < y
    }
}

/// How two ranks compare in the direction that `invert` selects.
pub open spec fn rank_order(x: int, y: int, invert: bool) -> Ordering {
    if precedes(x, y, invert) {
        Ordering::Less
    } else if precedes(y, x, invert) {
        Ordering::Greater
    } else {
        Ordering::Equal
    }
}

/// Compares two pixels by the ranking metric of `settings`, reversed when
/// `settings.invert` is set.
pub fn GetPixelOrdering(a: &Pixel, b: &Pixel, settings: &PixelSorterSettings) -> (order: Ordering)
    ensures
        order == rank_order(
            metric(rgb(*a), settings.sortMode),
            metric(rgb(*b), settings.sortMode),
            settings.invert,
        ),
{
    let x = GetPixelSortingNumber(a, settings);
    let y = GetPixelSortingNumber(b, settings);
    let order = if x < y {
        Ordering::Less
    } else if x > y {
        Ordering::Greater
    } else {
        Ordering::Equal
    };
    if settings.invert {
        match order {
            Ordering::Less => Ordering::Greater,
            Ordering::Greater => Ordering::Less,
            Ordering::Equal => Ordering::Equal,
        }
    } else {
        order
    }
}

/// Whether `a` belongs strictly before `b`.
pub fn ComesBefore(a: &Pixel, b: &Pixel, settings: &PixelSorterSettings) -> (before: bool)
    ensures
        before == precedes(
            metric(rgb(*a), settings.sortMode),
            metric(rgb(*b), settings.sortMode),
            settings.invert,
        ),
{
    match GetPixelOrdering(a, b, settings) {
        Ordering::Less => true,
        _ => false,
    }
}

} // verus!
