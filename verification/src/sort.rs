use vstd::prelude::*;
use crate::ordering::{precedes, ComesBefore};
use crate::pixel::{colors, metric, rgb, Pixel, Rgb};
use crate::settings::{PixelSorterSettings, SortMode};

verus! {

/// No item of `s` belongs strictly before one that stands earlier: the rank
/// never falls along `s`, or never rises when `invert` is set.
pub open spec fn in_rank_order<T>(s: Seq<T>, rank: spec_fn(T) -> int, invert: bool) -> bool {
    forall|i: int, j: int|
        0 <= i < j < s.len() ==> !precedes(rank(#[trigger] s[j]), rank(#[trigger] s[i]), invert)
}

/// Those items of `s` whose rank is `value`, in the order in which they
/// stand in `s`.
pub open spec fn ranked<T>(s: Seq<T>, rank: spec_fn(T) -> int, value: int) -> Seq<T>
    decreases s.len(),
{
    if s.len() == 0 {
        Seq::empty()
    } else if rank(s.last()) == value {
        ranked(s.drop_last(), rank, value).push(s.last())
    } else {
        ranked(s.drop_last(), rank, value)
    }
}

/// `after` holds the items of `before` in stable rank order: the rank is
/// monotone along `after`, and the items that share a rank stand in the
/// order that they had in `before`.
pub open spec fn stably_sorted<T>(
    before: Seq<T>,
    after: Seq<T>,
    rank: spec_fn(T) -> int,
    invert: bool,
) -> bool {
    &&& after.len() == before.len()
    &&& in_rank_order(after, rank, invert)
    &&& forall|value: int| #[trigger] ranked(after, rank, value) == ranked(before, rank, value)
}

/// The rank of a pixel: the metric of its colour.
pub open spec fn pixel_rank(mode: SortMode) -> spec_fn(Pixel) -> int {
    |p: Pixel| metric(rgb(p), mode)
}

/// The rank of a colour: its metric.
pub open spec fn color_rank(mode: SortMode) -> spec_fn(Rgb) -> int {
    |c: Rgb| metric(c, mode)
}

/// An item added at the end is ranked last at its own rank, and nowhere
/// else.
pub proof fn lemma_ranked_push<T>(s: Seq<T>, item: T, rank: spec_fn(T) -> int, value: int)
    ensures
        ranked(s.push(item), rank, value) == if rank(item) == value {
            ranked(s, rank, value).push(item)
        } else {
            ranked(s, rank, value)
        },
{
    assert(s.push(item).drop_last() =~= s);
}

/// What is ranked at a value in two sequences joined is what is ranked at it
/// in the first, then what is ranked at it in the second.
pub proof fn lemma_ranked_concat<T>(a: Seq<T>, b: Seq<T>, rank: spec_fn(T) -> int, value: int)
    ensures
        ranked(a + b, rank, value) == ranked(a, rank, value) + ranked(b, rank, value),
    decreases b.len(),
{
    if b.len() == 0 {
        assert(a + b =~= a);
        assert(ranked(a, rank, value) + ranked(b, rank, value) =~= ranked(a, rank, value));
    } else {
        lemma_ranked_concat(a, b.drop_last(), rank, value);
        assert((a + b).drop_last() =~= a + b.drop_last());
        if rank(b.last()) == value {
            assert(ranked(a, rank, value) + ranked(b.drop_last(), rank, value).push(b.last())
                =~= (ranked(a, rank, value) + ranked(b.drop_last(), rank, value)).push(b.last()));
        }
    }
}

/// Nothing is ranked at a value that no item of `s` has.
pub proof fn lemma_ranked_absent<T>(s: Seq<T>, rank: spec_fn(T) -> int, value: int)
    requires
        forall|i: int| 0 <= i < s.len() ==> rank(#[trigger] s[i]) != value,
    ensures
        ranked(s, rank, value) == Seq::<T>::empty(),
    decreases s.len(),
{
    if s.len() > 0 {
        lemma_ranked_absent(s.drop_last(), rank, value);
    }
}

/// The colours of the pixels ranked at a value are the colours ranked at it.
pub proof fn lemma_ranked_colors(s: Seq<Pixel>, mode: SortMode, value: int)
    ensures
        ranked(colors(s), color_rank(mode), value) == colors(
            ranked(s, pixel_rank(mode), value),
        ),
    decreases s.len(),
{
    if s.len() == 0 {
        assert(colors(s) =~= Seq::<Rgb>::empty());
        assert(colors(ranked(s, pixel_rank(mode), value)) =~= Seq::<Rgb>::empty());
    } else {
        let rest = s.drop_last();
        lemma_ranked_colors(rest, mode, value);
        assert(colors(s).drop_last() =~= colors(rest));
        assert(colors(s).last() == rgb(s.last()));
        if metric(rgb(s.last()), mode) == value {
            assert(colors(ranked(rest, pixel_rank(mode), value).push(s.last())) =~= colors(
                ranked(rest, pixel_rank(mode), value),
            ).push(rgb(s.last())));
        }
    }
}

/// Pixels in stable rank order have their colours in stable rank order.
pub proof fn lemma_stably_sorted_colors(
    before: Seq<Pixel>,
    after: Seq<Pixel>,
    mode: SortMode,
    invert: bool,
)
    requires
        stably_sorted(before, after, pixel_rank(mode), invert),
    ensures
        stably_sorted(colors(before), colors(after), color_rank(mode), invert),
{
    assert forall|i: int, j: int| 0 <= i < j < colors(after).len() implies !precedes(
        color_rank(mode)(#[trigger] colors(after)[j]),
        color_rank(mode)(#[trigger] colors(after)[i]),
        invert,
    ) by {
        assert(!precedes(pixel_rank(mode)(after[j]), pixel_rank(mode)(after[i]), invert));
    }
    assert forall|value: int| #[trigger]
        ranked(colors(after), color_rank(mode), value) == ranked(
            colors(before),
            color_rank(mode),
            value,
        ) by {
        lemma_ranked_colors(before, mode, value);
        lemma_ranked_colors(after, mode, value);
        assert(ranked(after, pixel_rank(mode), value) == ranked(before, pixel_rank(mode), value));
    }
}

/// Merges two runs that are each in rank order. Where a pixel of `left` and
/// one of `right` have the same rank, the one of `left` comes first.
fn Merge(left: &Vec<Pixel>, right: &Vec<Pixel>, settings: &PixelSorterSettings) -> (merged: Vec<
    Pixel,
>)
    requires
        in_rank_order(left@, pixel_rank(settings.sortMode), settings.invert),
        in_rank_order(right@, pixel_rank(settings.sortMode), settings.invert),
    ensures
        merged.len() == left.len() + right.len(),
        in_rank_order(merged@, pixel_rank(settings.sortMode), settings.invert),
        forall|value: int| #[trigger]
            ranked(merged@, pixel_rank(settings.sortMode), value) == ranked(
                left@,
                pixel_rank(settings.sortMode),
                value,
            ) + ranked(right@, pixel_rank(settings.sortMode), value),
{
    let ghost rank = pixel_rank(settings.sortMode);
    let ghost invert = settings.invert;
    let mut merged: Vec<Pixel> = Vec::new();
    let mut i: usize = 0;
    let mut j: usize = 0;
    proof {
        assert(left@.take(0) =~= Seq::<Pixel>::empty());
        assert(right@.take(0) =~= Seq::<Pixel>::empty());
        assert forall|value: int| #[trigger]
            ranked(merged@, rank, value) == ranked(left@.take(0), rank, value) + ranked(
                right@.take(0),
                rank,
                value,
            ) by {
            assert(ranked(merged@, rank, value) =~= ranked(left@.take(0), rank, value) + ranked(
                right@.take(0),
                rank,
                value,
            ));
        }
    }
    while i < left.len() || j < right.len()
        invariant
            rank == pixel_rank(settings.sortMode),
            invert == settings.invert,
            i <= left.len(),
            j <= right.len(),
            merged.len() == i + j,
            in_rank_order(left@, rank, invert),
            in_rank_order(right@, rank, invert),
            in_rank_order(merged@, rank, invert),
            forall|p: int|
                0 <= p < merged.len() && i < left.len() ==> !precedes(
                    rank(left@[i as int]),
                    rank(#[trigger] merged@[p]),
                    invert,
                ),
            forall|p: int|
                0 <= p < merged.len() && j < right.len() ==> !precedes(
                    rank(right@[j as int]),
                    rank(#[trigger] merged@[p]),
                    invert,
                ),
            forall|q: int|
                0 <= q < j && i < left.len() ==> precedes(
                    rank(#[trigger] right@[q]),
                    rank(left@[i as int]),
                    invert,
                ),
            forall|value: int| #[trigger]
                ranked(merged@, rank, value) == ranked(left@.take(i as int), rank, value) + ranked(
                    right@.take(j as int),
                    rank,
                    value,
                ),
        decreases left.len() - i + right.len() - j,
    {
        let take_right = if j >= right.len() {
            false
        } else if i >= left.len() {
            true
        } else {
            ComesBefore(&right[j], &left[i], settings)
        };
        let ghost before = merged@;
        if take_right {
            let pixel = right[j];
            merged.push(pixel);
            proof {
                assert(right@.take(j + 1) =~= right@.take(j as int).push(pixel));
                assert forall|value: int| #[trigger]
                    ranked(merged@, rank, value) == ranked(left@.take(i as int), rank, value)
                        + ranked(right@.take(j + 1), rank, value) by {
                    lemma_ranked_push(before, pixel, rank, value);
                    lemma_ranked_push(right@.take(j as int), pixel, rank, value);
                    let kept_left = ranked(left@.take(i as int), rank, value);
                    let kept_right = ranked(right@.take(j as int), rank, value);
                    assert(ranked(before, rank, value) == kept_left + kept_right);
                    assert((kept_left + kept_right).push(pixel) =~= kept_left + kept_right.push(
                        pixel,
                    ));
                }
            }
            j += 1;
        } else {
            let pixel = left[i];
            merged.push(pixel);
            proof {
                assert(left@.take(i + 1) =~= left@.take(i as int).push(pixel));
                assert forall|value: int| #[trigger]
                    ranked(merged@, rank, value) == ranked(left@.take(i + 1), rank, value)
                        + ranked(right@.take(j as int), rank, value) by {
                    lemma_ranked_push(before, pixel, rank, value);
                    lemma_ranked_push(left@.take(i as int), pixel, rank, value);
                    let kept_left = ranked(left@.take(i as int), rank, value);
                    let kept_right = ranked(right@.take(j as int), rank, value);
                    assert(ranked(before, rank, value) == kept_left + kept_right);
                    if rank(pixel) == value {
                        lemma_ranked_absent(right@.take(j as int), rank, value);
                        assert((kept_left + kept_right).push(pixel) =~= kept_left.push(pixel)
                            + kept_right);
                    }
                }
            }
            i += 1;
        }
    }
    proof {
        assert(left@.take(i as int) =~= left@);
        assert(right@.take(j as int) =~= right@);
    }
    merged
}

/// Sorts the pixels `pixels[lo..hi]` into a new vector, stably.
fn SortRange(pixels: &Vec<Pixel>, lo: usize, hi: usize, settings: &PixelSorterSettings) -> (sorted:
    Vec<Pixel>)
    requires
        lo <= hi <= pixels.len(),
    ensures
        stably_sorted(
            pixels@.subrange(lo as int, hi as int),
            sorted@,
            pixel_rank(settings.sortMode),
            settings.invert,
        ),
    decreases hi - lo,
{
    let ghost rank = pixel_rank(settings.sortMode);
    let ghost whole = pixels@.subrange(lo as int, hi as int);
    if hi - lo <= 1 {
        let mut sorted: Vec<Pixel> = Vec::new();
        if lo < hi {
            sorted.push(pixels[lo]);
        }
        assert(sorted@ =~= whole);
        sorted
    } else {
        let mid = lo + (hi - lo) / 2;
        let left = SortRange(pixels, lo, mid, settings);
        let right = SortRange(pixels, mid, hi, settings);
        let sorted = Merge(&left, &right, settings);
        proof {
            let first = pixels@.subrange(lo as int, mid as int);
            let second = pixels@.subrange(mid as int, hi as int);
            assert(whole =~= first + second);
            assert forall|value: int| #[trigger]
                ranked(sorted@, rank, value) == ranked(whole, rank, value) by {
                lemma_ranked_concat(first, second, rank, value);
            }
        }
        sorted
    }
}

/// Returns the pixels of `pixels` in stable rank order: by the ranking
/// metric of `settings`, rising, or falling when `settings.invert` is set,
/// with pixels of equal metric value in the order in which they came.
pub fn StableSort(pixels: &Vec<Pixel>, settings: &PixelSorterSettings) -> (sorted: Vec<Pixel>)
    ensures
        stably_sorted(pixels@, sorted@, pixel_rank(settings.sortMode), settings.invert),
{
    assert(pixels@.subrange(0, pixels.len() as int) =~= pixels@);
    SortRange(pixels, 0, pixels.len(), settings)
}

} // verus!
