use vstd::prelude::*;
use crate::pixel::{
    average, chroma, fixed, max_channel, metric, min_channel, saturation_range, wheel_position, Rgb,
};
use crate::settings::SortMode;

verus! {

/// The metric of a colour as an exact fraction: its numerator and its
/// denominator, which is positive. Hue is in degrees, saturation and
/// lightness are in percent.
pub open spec fn exact_metric(c: Rgb, mode: SortMode) -> (int, int) {
    match mode {
        SortMode::Average => (average(c), 1),
        SortMode::Red => (c.r as int, 1),
        SortMode::Green => (c.g as int, 1),
        SortMode::Blue => (c.b as int, 1),
        SortMode::Hue => if chroma(c) == 0 {
            (0, 1)
        } else {
            (60 * wheel_position(c), chroma(c))
        },
        SortMode::Saturation => if chroma(c) == 0 {
            (0, 1)
        } else {
            (100 * chroma(c), saturation_range(c))
        },
        SortMode::Lightness => (100 * (max_channel(c) + min_channel(c)), 510),
    }
}

/// The fixed-point metric is the exact fraction, scaled and rounded down.
pub proof fn lemma_metric_is_rounded_down(c: Rgb, mode: SortMode)
    ensures
        0 <= exact_metric(c, mode).0,
        0 < exact_metric(c, mode).1 <= 510,
        metric(c, mode) == fixed(exact_metric(c, mode).0) / exact_metric(c, mode).1,
{
    let (numerator, denominator) = exact_metric(c, mode);
    match mode {
        SortMode::Hue => {
            if chroma(c) != 0 {
                assert(fixed(wheel_position(c) * 60) == fixed(60 * wheel_position(c)));
            }
        },
        SortMode::Saturation => {
            if chroma(c) != 0 {
                assert(fixed(chroma(c) * 100) == fixed(100 * chroma(c)));
            }
        },
        SortMode::Lightness => {
            assert(fixed((max_channel(c) + min_channel(c)) * 100) == fixed(
                100 * (max_channel(c) + min_channel(c)),
            ));
        },
        _ => {},
    }
}

/// Two fractions, scaled and rounded down, compare as the fractions do when
/// the scale is at least the product of their denominators: rounding then
/// neither merges two different values nor swaps them.
pub proof fn lemma_rounding_keeps_order(a: int, d: int, b: int, e: int, scale: int)
    requires
        0 <= a,
        0 <= b,
        0 < d,
        0 < e,
        d * e <= scale,
    ensures
        (a * scale / d < b * scale / e) == (a * e < b * d),
        (a * scale / d == b * scale / e) == (a * e == b * d),
{
    assert(d * e == e * d) by (nonlinear_arith);
    lemma_rounding_keeps_strict_order(a, d, b, e, scale);
    lemma_rounding_keeps_strict_order(b, e, a, d, scale);
}

proof fn lemma_rounding_keeps_strict_order(a: int, d: int, b: int, e: int, scale: int)
    requires
        0 <= a,
        0 <= b,
        0 < d,
        0 < e,
        d * e <= scale,
    ensures
        (a * scale / d < b * scale / e) == (a * e < b * d),
{
    let x = a * scale;
    let y = b * scale;
    let qa = x / d;
    let ra = x % d;
    let qb = y / e;
    let rb = y % e;
    vstd::arithmetic::div_mod::lemma_fundamental_div_mod(x, d);
    vstd::arithmetic::div_mod::lemma_fundamental_div_mod(y, e);
    vstd::arithmetic::div_mod::lemma_mod_bound(x, d);
    vstd::arithmetic::div_mod::lemma_mod_bound(y, e);
    assert(x == d * qa + ra && 0 <= ra < d);
    assert(y == e * qb + rb && 0 <= rb < e);
    // The difference of the cross products, written in two ways.
    let difference = y * d - x * e;
    assert(difference == scale * (b * d - a * e)) by (nonlinear_arith)
        requires
            difference == y * d - x * e,
            x == a * scale,
            y == b * scale,
    ;
    assert(difference == d * e * (qb - qa) + rb * d - ra * e) by (nonlinear_arith)
        requires
            difference == y * d - x * e,
            x == d * qa + ra,
            y == e * qb + rb,
    ;
    assert(0 <= rb * d < d * e && 0 <= ra * e < d * e) by (nonlinear_arith)
        requires
            0 <= ra < d,
            0 <= rb < e,
            0 < d,
            0 < e,
    ;
    if a * e < b * d {
        assert(difference >= d * e) by (nonlinear_arith)
            requires
                difference == scale * (b * d - a * e),
                b * d - a * e >= 1,
                scale >= d * e,
                d * e > 0,
        ;
        assert(qb - qa > 0) by (nonlinear_arith)
            requires
                d * e * (qb - qa) > 0,
                d * e > 0,
        ;
    } else {
        assert(difference <= 0) by (nonlinear_arith)
            requires
                difference == scale * (b * d - a * e),
                b * d - a * e <= 0,
                scale >= 0,
        ;
        assert(qb - qa < 1) by (nonlinear_arith)
            requires
                d * e * (qb - qa) < d * e,
                d * e > 0,
        ;
    }
}

/// The fixed-point metric ranks two colours exactly as their exact metric
/// values compare, in every mode: it is smaller, or equal, exactly when the
/// fraction is.
pub proof fn lemma_metric_order_is_exact(p: Rgb, q: Rgb, mode: SortMode)
    ensures
        (metric(p, mode) < metric(q, mode)) == (exact_metric(p, mode).0 * exact_metric(q, mode).1
            < exact_metric(q, mode).0 * exact_metric(p, mode).1),
        (metric(p, mode) == metric(q, mode)) == (exact_metric(p, mode).0 * exact_metric(q, mode).1
            == exact_metric(q, mode).0 * exact_metric(p, mode).1),
{
    let (a, d) = exact_metric(p, mode);
    let (b, e) = exact_metric(q, mode);
    lemma_metric_is_rounded_down(p, mode);
    lemma_metric_is_rounded_down(q, mode);
    assert(d * e <= 1_000_000) by (nonlinear_arith)
        requires
            0 < d <= 510,
            0 < e <= 510,
    ;
    lemma_rounding_keeps_order(a, d, b, e, 1_000_000);
}

} // verus!
