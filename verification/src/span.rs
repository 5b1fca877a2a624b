use vstd::prelude::*;
use crate::pixel::{average, rgb, GetPixelAverage, Pixel};
use crate::settings::Threshold;

verus! {

/// A run `[start, end)` of positions in one line.
#[derive(Clone, Copy, Debug, PartialEq, Eq, Structural)]
pub struct Span {
    pub start: usize,
    pub end: usize,
}

/// Whether the brightness of `p`, the mean of its colour channels, lies in
/// the band. The band is always tested against the mean, whatever metric
/// ranks the pixels.
pub open spec fn in_band(p: Pixel, threshold: Threshold) -> bool {
    threshold.holds(average(rgb(p)))
}

/// `[start, end)` is a span of `line`: a run of pixels in the band that is
/// not empty and cannot be extended to either side.
pub open spec fn is_span(line: Seq<Pixel>, threshold: Threshold, start: int, end: int) -> bool {
    &&& 0 <= start < end <= line.len()
    &&& forall|i: int| start <= i < end ==> in_band(#[trigger] line[i], threshold)
    &&& (start == 0 || !in_band(line[start - 1], threshold))
    &&& (end == line.len() || !in_band(line[end], threshold))
}

/// Position `i` lies in one of `spans`.
pub open spec fn covered(spans: Seq<Span>, i: int) -> bool {
    exists|k: int| 0 <= k < spans.len() && (#[trigger] spans[k]).start <= i < spans[k].end
}

/// `spans` lists the spans of `line` from left to right, and leaves none out.
pub open spec fn spans_of(line: Seq<Pixel>, threshold: Threshold, spans: Seq<Span>) -> bool {
    &&& forall|k: int|
        0 <= k < spans.len() ==> is_span(
            line,
            threshold,
            (#[trigger] spans[k]).start as int,
            spans[k].end as int,
        )
    &&& forall|k: int, l: int|
        0 <= k < l < spans.len() ==> (#[trigger] spans[k]).end < (#[trigger] spans[l]).start
    &&& forall|i: int|
        0 <= i < line.len() && in_band(#[trigger] line[i], threshold) ==> covered(spans, i)
}

/// Whether `pixel` lies in the band.
pub fn InBand(pixel: &Pixel, threshold: &Threshold) -> (inside: bool)
    ensures
        inside == in_band(*pixel, *threshold),
{
    threshold.contains(&GetPixelAverage(pixel))
}

/// Scans `line` once from left to right and returns its spans. A span that
/// is still open at the last pixel is closed at the end of the line.
pub fn DetectSpans(line: &[Pixel], threshold: &Threshold) -> (spans: Vec<Span>)
    ensures
        spans_of(line@, *threshold, spans@),
{
    let ghost t = *threshold;
    let n = line.len();
    let mut spans: Vec<Span> = Vec::new();
    let mut open: bool = false;
    let mut start: usize = 0;
    let mut i: usize = 0;
    while i < n
        invariant
            t == *threshold,
            n == line@.len(),
            i <= n,
            forall|k: int|
                0 <= k < spans.len() ==> is_span(
                    line@,
                    t,
                    (#[trigger] spans@[k]).start as int,
                    spans@[k].end as int,
                ),
            forall|k: int, l: int|
                0 <= k < l < spans.len() ==> (#[trigger] spans@[k]).end < (
                #[trigger] spans@[l]).start,
            forall|k: int| 0 <= k < spans.len() ==> (#[trigger] spans@[k]).end < i,
            forall|k: int| 0 <= k < spans.len() && open ==> (#[trigger] spans@[k]).end < start,
            forall|p: int|
                0 <= p < i && in_band(#[trigger] line@[p], t) ==> covered(spans@, p) || (open
                    && start <= p),
            open ==> start < i,
            open ==> forall|p: int| start <= p < i ==> in_band(#[trigger] line@[p], t),
            open ==> start == 0 || !in_band(line@[start - 1], t),
            !open ==> i == 0 || !in_band(line@[i - 1], t),
        decreases n - i,
    {
        let inside = InBand(&line[i], threshold);
        if inside {
            if !open {
                open = true;
                start = i;
            }
        } else if open {
            let ghost closed = spans@;
            spans.push(Span { start, end: i });
            open = false;
            proof {
                lemma_covered_after_push(closed, Span { start, end: i });
            }
        }
        i += 1;
    }
    if open {
        let ghost closed = spans@;
        spans.push(Span { start, end: n });
        proof {
            lemma_covered_after_push(closed, Span { start, end: n });
        }
    }
    spans
}

/// A position that lies in one of `spans`, or in `last`, lies in one of
/// them when `last` is added at the end.
proof fn lemma_covered_after_push(spans: Seq<Span>, last: Span)
    ensures
        forall|p: int|
            covered(spans, p) || last.start <= p < last.end ==> #[trigger] covered(
                spans.push(last),
                p,
            ),
{
    let longer = spans.push(last);
    assert forall|p: int| covered(spans, p) || last.start <= p < last.end implies #[trigger] covered(
        longer,
        p,
    ) by {
        if covered(spans, p) {
            let k = choose|k: int|
                0 <= k < spans.len() && (#[trigger] spans[k]).start <= p < spans[k].end;
            assert(longer[k] == spans[k]);
        } else {
            assert(longer[spans.len() as int] == last);
        }
    }
}

} // verus!
