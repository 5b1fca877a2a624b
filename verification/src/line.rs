use vstd::prelude::*;
use vstd::slice::{slice_subrange, slice_to_vec};
use crate::pixel::{colors, rgb, Pixel};
use crate::settings::{PixelSorterSettings, SortMode, Threshold};
use crate::sort::{color_rank, lemma_stably_sorted_colors, stably_sorted, StableSort};
use crate::span::{covered, in_band, is_span, spans_of, DetectSpans, Span};

verus! {

/// `after` is `before` with each of its spans sorted:
/// - every pixel keeps its alpha;
/// - a pixel outside the band stays as it is;
/// - within each span the colours are in stable rank order.
pub open spec fn line_sorted(
    before: Seq<Pixel>,
    after: Seq<Pixel>,
    threshold: Threshold,
    mode: SortMode,
    invert: bool,
) -> bool {
    &&& after.len() == before.len()
    &&& forall|i: int| 0 <= i < before.len() ==> (#[trigger] after[i]).a == before[i].a
    &&& forall|i: int|
        0 <= i < before.len() && !in_band(before[i], threshold) ==> #[trigger] after[i]
            == before[i]
    &&& forall|start: int, end: int| #[trigger]
        is_span(before, threshold, start, end) ==> stably_sorted(
            colors(before.subrange(start, end)),
            colors(after.subrange(start, end)),
            color_rank(mode),
            invert,
        )
}

/// Every span of a line is one of the spans that the detector lists.
pub proof fn lemma_span_is_listed(
    line: Seq<Pixel>,
    threshold: Threshold,
    spans: Seq<Span>,
    start: int,
    end: int,
) -> (k: int)
    requires
        spans_of(line, threshold, spans),
        is_span(line, threshold, start, end),
    ensures
        0 <= k < spans.len(),
        spans[k].start == start,
        spans[k].end == end,
{
    assert(in_band(line[start], threshold));
    assert(covered(spans, start));
    let k = choose|k: int|
        0 <= k < spans.len() && (#[trigger] spans[k]).start <= start < spans[k].end;
    let listed = spans[k];
    assert(is_span(line, threshold, listed.start as int, listed.end as int));
    if listed.start < start {
        assert(in_band(line[start - 1], threshold));
    }
    if listed.end < end {
        assert(in_band(line[listed.end as int], threshold));
    }
    if end < listed.end {
        assert(in_band(line[end], threshold));
    }
    k
}

/// Writes the colours of `sorted` over `line[start..]`, leaving each alpha
/// where it is.
fn WriteColors(line: &mut [Pixel], start: usize, sorted: &Vec<Pixel>)
    requires
        start + sorted.len() <= old(line)@.len(),
    ensures
        final(line)@.len() == old(line)@.len(),
        forall|i: int|
            0 <= i < old(line)@.len() && !(start <= i < start + sorted.len())
                ==> #[trigger] final(line)@[i] == old(line)@[i],
        forall|i: int|
            start <= i < start + sorted.len() ==> rgb(#[trigger] final(line)@[i]) == rgb(
                sorted@[i - start],
            ) && final(line)@[i].a == old(line)@[i].a,
{
    let ghost before = line@;
    let total = line.len();
    let count = sorted.len();
    let mut n: usize = 0;
    while n < count
        invariant
            n <= count,
            count == sorted.len(),
            start + count <= before.len() == total,
            line@.len() == before.len(),
            forall|i: int|
                0 <= i < before.len() && !(start <= i < start + n) ==> #[trigger] line@[i]
                    == before[i],
            forall|i: int|
                start <= i < start + n ==> rgb(#[trigger] line@[i]) == rgb(sorted@[i - start])
                    && line@[i].a == before[i].a,
        decreases count - n,
    {
        let alpha = line[start + n].a;
        let color = sorted[n];
        line[start + n] = Pixel { r: color.r, g: color.g, b: color.b, a: alpha };
        n += 1;
    }
}

/// Sorts each span of `line` in place: the colours of a span are put in
/// stable rank order, every alpha and every pixel outside the band stay.
pub fn SortPixelsInLine(line: &mut [Pixel], settings: &PixelSorterSettings)
    ensures
        line_sorted(
            old(line)@,
            final(line)@,
            settings.threshold,
            settings.sortMode,
            settings.invert,
        ),
{
    let ghost before = line@;
    let ghost threshold = settings.threshold;
    let ghost mode = settings.sortMode;
    let ghost invert = settings.invert;
    let spans = DetectSpans(line, &settings.threshold);
    let mut k: usize = 0;
    while k < spans.len()
        invariant
            threshold == settings.threshold,
            mode == settings.sortMode,
            invert == settings.invert,
            k <= spans.len(),
            spans_of(before, threshold, spans@),
            line@.len() == before.len(),
            forall|i: int| 0 <= i < before.len() ==> (#[trigger] line@[i]).a == before[i].a,
            forall|i: int|
                0 <= i < before.len() && !covered(spans@.take(k as int), i) ==> #[trigger] line@[i]
                    == before[i],
            forall|m: int|
                0 <= m < k ==> stably_sorted(
                    colors(
                        before.subrange((#[trigger] spans@[m]).start as int, spans@[m].end as int),
                    ),
                    colors(line@.subrange(spans@[m].start as int, spans@[m].end as int)),
                    color_rank(mode),
                    invert,
                ),
        decreases spans.len() - k,
    {
        let span = spans[k];
        let ghost entered = line@;
        let ghost start = span.start as int;
        let ghost end = span.end as int;
        assert(is_span(before, threshold, start, end));
        proof {
            assert forall|i: int| start <= i < end implies !covered(spans@.take(k as int), i) by {
                if covered(spans@.take(k as int), i) {
                    let m = choose|m: int|
                        0 <= m < spans@.take(k as int).len() && (#[trigger] spans@.take(
                            k as int,
                        )[m]).start <= i < spans@.take(k as int)[m].end;
                    assert(spans@.take(k as int)[m] == spans@[m]);
                    assert(spans@[m].end < spans@[k as int].start);
                }
            }
        }
        let snapshot = slice_to_vec(slice_subrange(line, span.start, span.end));
        assert(snapshot@ =~= before.subrange(start, end));
        let sorted = StableSort(&snapshot, settings);
        WriteColors(line, span.start, &sorted);
        proof {
            let written = line@.subrange(start, end);
            assert forall|i: int| 0 <= i < written.len() implies rgb(#[trigger] written[i]) == rgb(
                sorted@[i],
            ) by {
                assert(rgb(line@[start + i]) == rgb(sorted@[start + i - start]));
            }
            assert(colors(written) =~= colors(sorted@));
            lemma_stably_sorted_colors(snapshot@, sorted@, mode, invert);
            assert forall|i: int|
                0 <= i < before.len() && !covered(
                    spans@.take(k + 1),
                    i,
                ) implies #[trigger] line@[i] == before[i] by {
                assert(spans@.take(k + 1)[k as int] == spans@[k as int]);
                if covered(spans@.take(k as int), i) {
                    let m = choose|m: int|
                        0 <= m < spans@.take(k as int).len() && (#[trigger] spans@.take(
                            k as int,
                        )[m]).start <= i < spans@.take(k as int)[m].end;
                    assert(spans@.take(k + 1)[m] == spans@.take(k as int)[m]);
                }
            }
            assert forall|m: int| 0 <= m < k + 1 implies stably_sorted(
                colors(before.subrange((#[trigger] spans@[m]).start as int, spans@[m].end as int)),
                colors(line@.subrange(spans@[m].start as int, spans@[m].end as int)),
                color_rank(mode),
                invert,
            ) by {
                if m < k {
                    assert(spans@[m].end < spans@[k as int].start);
                    assert(line@.subrange(spans@[m].start as int, spans@[m].end as int)
                        =~= entered.subrange(spans@[m].start as int, spans@[m].end as int));
                }
            }
        }
        k += 1;
    }
    proof {
        assert(spans@.take(k as int) =~= spans@);
        assert forall|i: int|
            0 <= i < before.len() && !in_band(before[i], threshold) implies #[trigger] line@[i]
            == before[i] by {
            if covered(spans@, i) {
                let m = choose|m: int|
                    0 <= m < spans@.len() && (#[trigger] spans@[m]).start <= i < spans@[m].end;
                assert(is_span(before, threshold, spans@[m].start as int, spans@[m].end as int));
            }
        }
        assert forall|start: int, end: int| #[trigger]
            is_span(before, threshold, start, end) implies stably_sorted(
            colors(before.subrange(start, end)),
            colors(line@.subrange(start, end)),
            color_rank(mode),
            invert,
        ) by {
            let m = lemma_span_is_listed(before, threshold, spans@, start, end);
            assert(spans@[m].start == start);
        }
    }
}

} // verus!
