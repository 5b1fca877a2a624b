use vstd::prelude::*;
use crate::engine::{columns_sorted, image_sorted, mask, rows_sorted};
use crate::line::{lemma_span_is_listed, line_sorted};
use crate::ordering::precedes;
use crate::pixel::{colors, metric, rgb, Pixel};
use crate::raster::{rotate270, rotate90, Grid};
use crate::settings::{PixelSorterSettings, SortMode, Threshold};
use crate::sort::{color_rank, in_rank_order, lemma_ranked_absent, ranked, stably_sorted};
use crate::span::{in_band, is_span, spans_of, Span};

verus! {

/// The settings with another direction.
pub open spec fn with_vertical(settings: PixelSorterSettings, vertical: bool) -> PixelSorterSettings {
    PixelSorterSettings { vertical, ..settings }
}

/// A sorted image has the width and the height of the image it was made
/// from, whichever direction was sorted.
pub proof fn lemma_sort_keeps_shape(before: Grid, after: Grid, settings: PixelSorterSettings)
    requires
        image_sorted(before, after, settings),
    ensures
        after.width == before.width,
        after.height == before.height,
        after.well_formed(),
{
}

/// Sorting leaves every alpha where it was.
pub proof fn lemma_sort_keeps_alpha(before: Grid, after: Grid, settings: PixelSorterSettings)
    requires
        before.well_formed(),
        image_sorted(before, after, settings),
    ensures
        forall|x: int, y: int|
            0 <= x < before.width && 0 <= y < before.height ==> (#[trigger] after.rows[y][x]).a
                == before.rows[y][x].a,
{
    assert forall|x: int, y: int| 0 <= x < before.width && 0 <= y < before.height implies (
    #[trigger] after.rows[y][x]).a == before.rows[y][x].a by {
        if settings.vertical {
            let k = before.height - 1 - y;
            assert(before.column_up(x)[k] == before.rows[y][x]);
            assert(after.column_up(x)[k] == after.rows[y][x]);
        } else {
            assert(before.rows[y].len() == before.width);
        }
    }
}

/// The mask leaves every alpha where it was.
pub proof fn lemma_mask_keeps_alpha(before: Grid, threshold: Threshold)
    ensures
        forall|x: int, y: int|
            0 <= x < before.width && 0 <= y < before.height ==> (#[trigger] mask(
                before,
                threshold,
            ).rows[y][x]).a == before.rows[y][x].a,
{
}

/// Sorting leaves every pixel outside the band exactly as it was: such a
/// pixel lies in no span.
pub proof fn lemma_sort_keeps_outside(before: Grid, after: Grid, settings: PixelSorterSettings)
    requires
        before.well_formed(),
        image_sorted(before, after, settings),
    ensures
        forall|x: int, y: int|
            0 <= x < before.width && 0 <= y < before.height && !in_band(
                before.rows[y][x],
                settings.threshold,
            ) ==> #[trigger] after.rows[y][x] == before.rows[y][x],
{
    assert forall|x: int, y: int|
        0 <= x < before.width && 0 <= y < before.height && !in_band(
            before.rows[y][x],
            settings.threshold,
        ) implies #[trigger] after.rows[y][x] == before.rows[y][x] by {
        if settings.vertical {
            let k = before.height - 1 - y;
            assert(before.column_up(x)[k] == before.rows[y][x]);
            assert(after.column_up(x)[k] == after.rows[y][x]);
        } else {
            assert(before.rows[y].len() == before.width);
        }
    }
}

/// Along a span of a sorted line the metric never falls, or never rises when
/// the direction is inverted.
pub proof fn lemma_span_is_monotone(
    before: Seq<Pixel>,
    after: Seq<Pixel>,
    threshold: Threshold,
    mode: SortMode,
    invert: bool,
    start: int,
    end: int,
)
    requires
        line_sorted(before, after, threshold, mode, invert),
        is_span(before, threshold, start, end),
    ensures
        forall|i: int, j: int|
            start <= i <= j < end ==> if invert {
                metric(rgb(#[trigger] after[i]), mode) >= metric(rgb(#[trigger] after[j]), mode)
            } else {
                metric(rgb(after[i]), mode) <= metric(rgb(after[j]), mode)
            },
{
    let sorted = colors(after.subrange(start, end));
    assert forall|i: int, j: int| start <= i <= j < end implies if invert {
        metric(rgb(#[trigger] after[i]), mode) >= metric(rgb(#[trigger] after[j]), mode)
    } else {
        metric(rgb(after[i]), mode) <= metric(rgb(after[j]), mode)
    } by {
        if i < j {
            assert(sorted[i - start] == rgb(after[i]));
            assert(sorted[j - start] == rgb(after[j]));
            assert(!precedes(
                color_rank(mode)(sorted[j - start]),
                color_rank(mode)(sorted[i - start]),
                invert,
            ));
        }
    }
}

/// Sorting a span is stable: for every metric value, the colours that carry
/// it stand in the span in the order in which they stood before. Two pixels
/// of equal metric value therefore never change places.
pub proof fn lemma_span_is_stable(
    before: Seq<Pixel>,
    after: Seq<Pixel>,
    threshold: Threshold,
    mode: SortMode,
    invert: bool,
    start: int,
    end: int,
    value: int,
)
    requires
        line_sorted(before, after, threshold, mode, invert),
        is_span(before, threshold, start, end),
    ensures
        ranked(colors(after.subrange(start, end)), color_rank(mode), value) == ranked(
            colors(before.subrange(start, end)),
            color_rank(mode),
            value,
        ),
{
}

/// A span of a sorted line holds the colours that it held before, each as
/// often as before: sorting neither makes nor loses a colour.
pub proof fn lemma_span_keeps_colors(
    before: Seq<Pixel>,
    after: Seq<Pixel>,
    threshold: Threshold,
    mode: SortMode,
    invert: bool,
    start: int,
    end: int,
)
    requires
        line_sorted(before, after, threshold, mode, invert),
        is_span(before, threshold, start, end),
    ensures
        colors(after.subrange(start, end)).to_multiset() == colors(
            before.subrange(start, end),
        ).to_multiset(),
{
    lemma_stable_sort_keeps_items(
        colors(before.subrange(start, end)),
        colors(after.subrange(start, end)),
        color_rank(mode),
        invert,
    );
}

/// A stable sort keeps every item, each as often as it occurred.
pub proof fn lemma_stable_sort_keeps_items<T>(
    before: Seq<T>,
    after: Seq<T>,
    rank: spec_fn(T) -> int,
    invert: bool,
)
    requires
        stably_sorted(before, after, rank, invert),
    ensures
        after.to_multiset() == before.to_multiset(),
{
    assert forall|item: T| after.to_multiset().count(item) == before.to_multiset().count(item) by {
        lemma_count_by_rank(before, rank, item);
        lemma_count_by_rank(after, rank, item);
        assert(ranked(after, rank, rank(item)) == ranked(before, rank, rank(item)));
    }
    assert(after.to_multiset() =~= before.to_multiset());
}

/// An item occurs in a sequence as often as among the items of its own rank.
proof fn lemma_count_by_rank<T>(s: Seq<T>, rank: spec_fn(T) -> int, item: T)
    ensures
        s.to_multiset().count(item) == ranked(s, rank, rank(item)).to_multiset().count(item),
    decreases s.len(),
{
    broadcast use vstd::multiset::group_multiset_axioms;

    if s.len() == 0 {
        assert(s =~= Seq::<T>::empty());
    } else {
        let last = s.last();
        let rest = s.drop_last();
        lemma_count_by_rank(rest, rank, item);
        assert(s =~= rest.push(last));
        vstd::seq_lib::to_multiset_build(rest, last);
        if rank(last) == rank(item) {
            vstd::seq_lib::to_multiset_build(ranked(rest, rank, rank(item)), last);
        }
    }
}

/// Turning a grid a quarter one way and a quarter back gives the grid.
pub proof fn lemma_rotation_round_trip(grid: Grid)
    requires
        grid.well_formed(),
    ensures
        rotate270(rotate90(grid)) == grid,
        rotate90(rotate270(grid)) == grid,
{
    let there = rotate270(rotate90(grid));
    assert forall|y: int| 0 <= y < grid.height implies #[trigger] there.rows[y] == grid.rows[y] by {
        assert(grid.rows[y].len() == grid.width);
        assert(there.rows[y] =~= grid.rows[y]);
    }
    assert(there.rows =~= grid.rows);
    let back = rotate90(rotate270(grid));
    assert forall|y: int| 0 <= y < grid.height implies #[trigger] back.rows[y] == grid.rows[y] by {
        assert(grid.rows[y].len() == grid.width);
        assert(back.rows[y] =~= grid.rows[y]);
    }
    assert(back.rows =~= grid.rows);
}

/// Sorting the columns of an image is sorting the rows of the image turned
/// a quarter clockwise: a vertical pass relates `before` and `after` exactly
/// when a horizontal pass relates the two turned grids.
pub proof fn lemma_vertical_is_horizontal_turned(
    before: Grid,
    after: Grid,
    settings: PixelSorterSettings,
)
    requires
        before.well_formed(),
        after.well_formed(),
    ensures
        image_sorted(before, after, with_vertical(settings, true)) == image_sorted(
            rotate90(before),
            rotate90(after),
            with_vertical(settings, false),
        ),
{
    let threshold = settings.threshold;
    let mode = settings.sortMode;
    let invert = settings.invert;
    let turned_before = rotate90(before);
    let turned_after = rotate90(after);
    if after.width == before.width && after.height == before.height {
        assert forall|x: int| 0 <= x < before.width implies #[trigger] before.column_up(x)
            == turned_before.rows[x] && after.column_up(x) == turned_after.rows[x] by {
            assert(before.column_up(x) =~= turned_before.rows[x]);
            assert(after.column_up(x) =~= turned_after.rows[x]);
        }
        if columns_sorted(before, after, threshold, mode, invert) {
            assert forall|x: int| 0 <= x < turned_before.height implies line_sorted(
                #[trigger] turned_before.rows[x],
                turned_after.rows[x],
                threshold,
                mode,
                invert,
            ) by {
                assert(line_sorted(
                    before.column_up(x),
                    after.column_up(x),
                    threshold,
                    mode,
                    invert,
                ));
            }
            assert(rows_sorted(turned_before, turned_after, threshold, mode, invert));
        }
        if rows_sorted(turned_before, turned_after, threshold, mode, invert) {
            assert forall|x: int| 0 <= x < before.width implies line_sorted(
                #[trigger] before.column_up(x),
                after.column_up(x),
                threshold,
                mode,
                invert,
            ) by {
                assert(line_sorted(
                    turned_before.rows[x],
                    turned_after.rows[x],
                    threshold,
                    mode,
                    invert,
                ));
            }
            assert(columns_sorted(before, after, threshold, mode, invert));
        }
    }
}

/// The first position of the run of pixels in the band that holds `i`.
proof fn lemma_run_start(line: Seq<Pixel>, threshold: Threshold, i: int) -> (start: int)
    requires
        0 <= i < line.len(),
        in_band(line[i], threshold),
    ensures
        0 <= start <= i,
        forall|p: int| start <= p <= i ==> in_band(#[trigger] line[p], threshold),
        start == 0 || !in_band(line[start - 1], threshold),
    decreases i,
{
    if i == 0 || !in_band(line[i - 1], threshold) {
        i
    } else {
        lemma_run_start(line, threshold, i - 1)
    }
}

/// The position after the last of the run of pixels in the band that holds
/// `i`.
proof fn lemma_run_end(line: Seq<Pixel>, threshold: Threshold, i: int) -> (end: int)
    requires
        0 <= i < line.len(),
        in_band(line[i], threshold),
    ensures
        i < end <= line.len(),
        forall|p: int| i <= p < end ==> in_band(#[trigger] line[p], threshold),
        end == line.len() || !in_band(line[end], threshold),
    decreases line.len() - i,
{
    if i + 1 == line.len() || !in_band(line[i + 1], threshold) {
        i + 1
    } else {
        lemma_run_end(line, threshold, i + 1)
    }
}

/// Every pixel in the band lies in a span.
pub proof fn lemma_span_around(line: Seq<Pixel>, threshold: Threshold, i: int) -> (span: (int, int))
    requires
        0 <= i < line.len(),
        in_band(line[i], threshold),
    ensures
        is_span(line, threshold, span.0, span.1),
        span.0 <= i < span.1,
{
    let start = lemma_run_start(line, threshold, i);
    let end = lemma_run_end(line, threshold, i);
    (start, end)
}

/// Some item of `s` has the rank at which an item is ranked.
proof fn lemma_ranked_has_item<T>(s: Seq<T>, rank: spec_fn(T) -> int, value: int) -> (i: int)
    requires
        ranked(s, rank, value).len() > 0,
    ensures
        0 <= i < s.len(),
        rank(s[i]) == value,
{
    if forall|i: int| 0 <= i < s.len() ==> rank(#[trigger] s[i]) != value {
        lemma_ranked_absent(s, rank, value);
    }
    choose|i: int| 0 <= i < s.len() && rank(#[trigger] s[i]) == value
}

/// No item of a sequence in rank order belongs strictly after the last one.
proof fn lemma_last_is_not_preceded<T>(s: Seq<T>, rank: spec_fn(T) -> int, invert: bool, i: int)
    requires
        in_rank_order(s, rank, invert),
        0 <= i < s.len(),
    ensures
        !precedes(rank(s.last()), rank(s[i]), invert),
{
    if i < s.len() - 1 {
        assert(!precedes(rank(s[s.len() - 1]), rank(s[i]), invert));
    }
}

/// A stable sort has one result: two sequences that both hold the items of
/// `before` in stable rank order are the same sequence.
pub proof fn lemma_stable_sort_is_unique<T>(
    before: Seq<T>,
    first: Seq<T>,
    second: Seq<T>,
    rank: spec_fn(T) -> int,
    invert: bool,
)
    requires
        stably_sorted(before, first, rank, invert),
        stably_sorted(before, second, rank, invert),
    ensures
        first == second,
    decreases first.len(),
{
    if first.len() == 0 {
        assert(first =~= second);
    } else {
        let value = rank(first.last());
        let other = rank(second.last());
        assert(ranked(first, rank, value) == ranked(second, rank, value));
        assert(ranked(first, rank, other) == ranked(second, rank, other));
        let i = lemma_ranked_has_item(second, rank, value);
        lemma_last_is_not_preceded(second, rank, invert, i);
        let j = lemma_ranked_has_item(first, rank, other);
        lemma_last_is_not_preceded(first, rank, invert, j);
        assert(value == other);
        let ranked_first = ranked(first.drop_last(), rank, value);
        let ranked_second = ranked(second.drop_last(), rank, value);
        assert(ranked_first.push(first.last()) == ranked_second.push(second.last()));
        assert(ranked_first.push(first.last()).last() == first.last());
        assert(ranked_second.push(second.last()).last() == second.last());
        assert(first.last() == second.last());
        assert(ranked_first =~= ranked_first.push(first.last()).drop_last());
        assert(ranked_second =~= ranked_second.push(second.last()).drop_last());
        let shorter = first.drop_last();
        assert(stably_sorted(shorter, shorter, rank, invert)) by {
            assert forall|a: int, b: int| 0 <= a < b < shorter.len() implies !precedes(
                rank(#[trigger] shorter[b]),
                rank(#[trigger] shorter[a]),
                invert,
            ) by {
                assert(!precedes(rank(first[b]), rank(first[a]), invert));
            }
        }
        assert(stably_sorted(shorter, second.drop_last(), rank, invert)) by {
            assert forall|a: int, b: int| 0 <= a < b < second.drop_last().len() implies !precedes(
                rank(#[trigger] second.drop_last()[b]),
                rank(#[trigger] second.drop_last()[a]),
                invert,
            ) by {
                assert(!precedes(rank(second[b]), rank(second[a]), invert));
            }
            assert forall|v: int| #[trigger]
                ranked(second.drop_last(), rank, v) == ranked(shorter, rank, v) by {
                assert(ranked(first, rank, v) == ranked(second, rank, v));
            }
        }
        lemma_stable_sort_is_unique(shorter, shorter, second.drop_last(), rank, invert);
        assert(first =~= shorter.push(first.last()));
        assert(second =~= second.drop_last().push(second.last()));
    }
}

/// Sorting a line has one result.
pub proof fn lemma_sorted_line_is_unique(
    before: Seq<Pixel>,
    first: Seq<Pixel>,
    second: Seq<Pixel>,
    threshold: Threshold,
    mode: SortMode,
    invert: bool,
)
    requires
        line_sorted(before, first, threshold, mode, invert),
        line_sorted(before, second, threshold, mode, invert),
    ensures
        first == second,
{
    assert forall|i: int| 0 <= i < before.len() implies first[i] == second[i] by {
        assert(first[i].a == second[i].a);
        if in_band(before[i], threshold) {
            let (start, end) = lemma_span_around(before, threshold, i);
            lemma_stable_sort_is_unique(
                colors(before.subrange(start, end)),
                colors(first.subrange(start, end)),
                colors(second.subrange(start, end)),
                color_rank(mode),
                invert,
            );
            assert(colors(first.subrange(start, end))[i - start] == rgb(first[i]));
            assert(colors(second.subrange(start, end))[i - start] == rgb(second[i]));
        }
    }
    assert(first =~= second);
}

/// A pass over an image has one result: the contract of the sort leaves no
/// choice.
pub proof fn lemma_sorted_image_is_unique(
    before: Grid,
    first: Grid,
    second: Grid,
    settings: PixelSorterSettings,
)
    requires
        before.well_formed(),
        image_sorted(before, first, settings),
        image_sorted(before, second, settings),
    ensures
        first == second,
{
    let threshold = settings.threshold;
    let mode = settings.sortMode;
    let invert = settings.invert;
    assert forall|y: int| 0 <= y < before.height implies #[trigger] first.rows[y]
        == second.rows[y] by {
        if settings.vertical {
            assert forall|x: int| 0 <= x < before.width implies first.rows[y][x]
                == second.rows[y][x] by {
                lemma_sorted_line_is_unique(
                    before.column_up(x),
                    first.column_up(x),
                    second.column_up(x),
                    threshold,
                    mode,
                    invert,
                );
                let k = before.height - 1 - y;
                assert(first.column_up(x)[k] == first.rows[y][x]);
                assert(second.column_up(x)[k] == second.rows[y][x]);
            }
            assert(first.rows[y] =~= second.rows[y]);
        } else {
            lemma_sorted_line_is_unique(
                before.rows[y],
                first.rows[y],
                second.rows[y],
                threshold,
                mode,
                invert,
            );
        }
    }
    assert(first.rows =~= second.rows);
}

/// Two lists of the spans of a line agree on their first `count` spans.
proof fn lemma_spans_agree(
    line: Seq<Pixel>,
    threshold: Threshold,
    first: Seq<Span>,
    second: Seq<Span>,
    count: int,
)
    requires
        spans_of(line, threshold, first),
        spans_of(line, threshold, second),
        0 <= count <= first.len(),
        count <= second.len(),
    ensures
        forall|k: int| 0 <= k < count ==> #[trigger] first[k] == second[k],
    decreases count,
{
    if count > 0 {
        lemma_spans_agree(line, threshold, first, second, count - 1);
        let k = count - 1;
        let m = lemma_span_is_listed(
            line,
            threshold,
            second,
            first[k].start as int,
            first[k].end as int,
        );
        let n = lemma_span_is_listed(
            line,
            threshold,
            first,
            second[k].start as int,
            second[k].end as int,
        );
        if m < k {
            assert(first[m] == second[m]);
            assert(first[m].end < first[k].start);
        }
        if n < k {
            assert(first[n] == second[n]);
            assert(second[n].end < second[k].start);
        }
        if m > k {
            assert(second[k].end < second[m].start);
            if n > k {
                assert(first[k].end < first[n].start);
            }
        }
        assert(first[k] == second[k]);
    }
}

/// A line has one list of spans: the contract of the detector leaves no
/// choice.
pub proof fn lemma_spans_are_unique(
    line: Seq<Pixel>,
    threshold: Threshold,
    first: Seq<Span>,
    second: Seq<Span>,
)
    requires
        spans_of(line, threshold, first),
        spans_of(line, threshold, second),
    ensures
        first == second,
{
    if first.len() <= second.len() {
        lemma_spans_agree(line, threshold, first, second, first.len() as int);
        if first.len() < second.len() {
            let extra = second[first.len() as int];
            let m = lemma_span_is_listed(
                line,
                threshold,
                first,
                extra.start as int,
                extra.end as int,
            );
            assert(first[m] == second[m]);
            assert(second[m].end < second[first.len() as int].start);
        }
    } else {
        lemma_spans_agree(line, threshold, first, second, second.len() as int);
        let extra = first[second.len() as int];
        let m = lemma_span_is_listed(line, threshold, second, extra.start as int, extra.end as int);
        assert(first[m] == second[m]);
        assert(first[m].end < first[second.len() as int].start);
    }
    assert(first =~= second);
}

/// Whatever is ranked at a value is an item of the sequence.
proof fn lemma_ranked_is_item<T>(s: Seq<T>, rank: spec_fn(T) -> int, value: int, k: int) -> (i: int)
    requires
        0 <= k < ranked(s, rank, value).len(),
    ensures
        0 <= i < s.len(),
        s[i] == ranked(s, rank, value)[k],
    decreases s.len(),
{
    if rank(s.last()) == value && k == ranked(s.drop_last(), rank, value).len() {
        s.len() - 1
    } else {
        lemma_ranked_is_item(s.drop_last(), rank, value, k)
    }
}

/// Every item of a sequence is ranked at its own rank.
proof fn lemma_item_is_ranked<T>(s: Seq<T>, rank: spec_fn(T) -> int, i: int) -> (k: int)
    requires
        0 <= i < s.len(),
    ensures
        0 <= k < ranked(s, rank, rank(s[i])).len(),
        ranked(s, rank, rank(s[i]))[k] == s[i],
    decreases s.len(),
{
    if i == s.len() - 1 {
        ranked(s.drop_last(), rank, rank(s[i])).len() as int
    } else {
        lemma_item_is_ranked(s.drop_last(), rank, i)
    }
}

/// Every item of a stably sorted sequence is an item of the sequence that
/// was sorted.
pub proof fn lemma_stable_sort_makes_no_item<T>(
    before: Seq<T>,
    after: Seq<T>,
    rank: spec_fn(T) -> int,
    invert: bool,
    i: int,
) -> (j: int)
    requires
        stably_sorted(before, after, rank, invert),
        0 <= i < after.len(),
    ensures
        0 <= j < before.len(),
        before[j] == after[i],
{
    let value = rank(after[i]);
    let k = lemma_item_is_ranked(after, rank, i);
    assert(ranked(after, rank, value) == ranked(before, rank, value));
    lemma_ranked_is_item(before, rank, value, k)
}

/// Sorting moves no pixel into the band or out of it: each position of a
/// sorted line is in the band exactly if it was before.
pub proof fn lemma_sort_keeps_band(
    before: Seq<Pixel>,
    after: Seq<Pixel>,
    threshold: Threshold,
    mode: SortMode,
    invert: bool,
)
    requires
        line_sorted(before, after, threshold, mode, invert),
    ensures
        forall|i: int|
            0 <= i < before.len() ==> in_band(#[trigger] after[i], threshold) == in_band(
                before[i],
                threshold,
            ),
{
    assert forall|i: int| 0 <= i < before.len() implies in_band(#[trigger] after[i], threshold)
        == in_band(before[i], threshold) by {
        if in_band(before[i], threshold) {
            let (start, end) = lemma_span_around(before, threshold, i);
            let j = lemma_stable_sort_makes_no_item(
                colors(before.subrange(start, end)),
                colors(after.subrange(start, end)),
                color_rank(mode),
                invert,
                i - start,
            );
            assert(rgb(before[start + j]) == rgb(after[i]));
            assert(in_band(before[start + j], threshold));
        }
    }
}

/// A sorted line is sorted already: a second pass leaves it as it is.
pub proof fn lemma_sorted_line_is_fixed(
    before: Seq<Pixel>,
    after: Seq<Pixel>,
    threshold: Threshold,
    mode: SortMode,
    invert: bool,
)
    requires
        line_sorted(before, after, threshold, mode, invert),
    ensures
        line_sorted(after, after, threshold, mode, invert),
{
    lemma_sort_keeps_band(before, after, threshold, mode, invert);
    assert forall|start: int, end: int| #[trigger]
        is_span(after, threshold, start, end) implies stably_sorted(
        colors(after.subrange(start, end)),
        colors(after.subrange(start, end)),
        color_rank(mode),
        invert,
    ) by {
        assert(is_span(before, threshold, start, end)) by {
            assert forall|i: int| start <= i < end implies in_band(
                #[trigger] before[i],
                threshold,
            ) by {
                assert(in_band(after[i], threshold));
            }
        }
    }
}

/// A sorted image is sorted already: a second pass with the same settings
/// leaves it as it is.
pub proof fn lemma_sorted_image_is_fixed(before: Grid, after: Grid, settings: PixelSorterSettings)
    requires
        image_sorted(before, after, settings),
    ensures
        image_sorted(after, after, settings),
{
    let threshold = settings.threshold;
    let mode = settings.sortMode;
    let invert = settings.invert;
    if settings.vertical {
        assert forall|x: int| 0 <= x < after.width implies line_sorted(
            #[trigger] after.column_up(x),
            after.column_up(x),
            threshold,
            mode,
            invert,
        ) by {
            lemma_sorted_line_is_fixed(
                before.column_up(x),
                after.column_up(x),
                threshold,
                mode,
                invert,
            );
        }
    } else {
        assert forall|y: int| 0 <= y < after.height implies line_sorted(
            #[trigger] after.rows[y],
            after.rows[y],
            threshold,
            mode,
            invert,
        ) by {
            lemma_sorted_line_is_fixed(before.rows[y], after.rows[y], threshold, mode, invert);
        }
    }
}

} // verus!
