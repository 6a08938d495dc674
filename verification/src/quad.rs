//! Scored quads: a region, its average color, and its subdivision priority.

use vstd::prelude::*;
use crate::geometry::{Rect, calc_area};
use crate::raster::{Image, Rgba8};
use crate::stats::{calc_color_and_error, avg_spec, err_spec};
use crate::math::{iroot5, iroot5_spec, pow5, lemma_pow5_monotonic};

verus! {

/// Regions whose width or height is at most this are never worth splitting
/// and are ranked below every other quad.
pub const MIN_SIZE: u32 = 4;

/// Subdivision priority of a quad. An undersized region is Excluded and ranks
/// strictly below every Eligible score; Eligible scores compare by value.
#[derive(Clone, Copy, PartialEq, Eq, Structural, Debug)]
pub enum Score {
    Excluded,
    Eligible(u128),
}

/// Strict order on scores: Excluded lies below every Eligible value.
pub open spec fn score_lt(a: Score, b: Score) -> bool {
    match (a, b) {
        (Score::Excluded, Score::Eligible(_)) => true,
        (Score::Eligible(x), Score::Eligible(y)) => x < y,
        (Score::Excluded, Score::Excluded) => false,
        (Score::Eligible(_), Score::Excluded) => false,
    }
}

/// Non-strict counterpart of score_lt.
pub open spec fn score_le(a: Score, b: Score) -> bool {
    score_lt(a, b) || a == b
}

/// Whether a strictly outranks b.
pub fn score_gt(a: &Score, b: &Score) -> (r: bool)
    ensures
        r == score_lt(*b, *a),
{
    match (a, b) {
        (Score::Eligible(x), Score::Eligible(y)) => *x > *y,
        (Score::Eligible(_), Score::Excluded) => true,
        (Score::Excluded, _) => false,
    }
}

/// A region with its derived average color and priority score.
#[derive(Clone, Copy, PartialEq, Eq, Structural, Debug)]
pub struct Quad {
    pub rect: Rect,
    pub score: Score,
    pub color: Rgba8,
}

/// The combined perceptual error of a region, in fixed point: the luma-like
/// weighted sum of the three channel errors, with weights 0.2989, 0.587 and
/// 0.114 scaled by 10000.
pub open spec fn combined_error_spec(img: Image, r: Rect) -> int {
    2989 * err_spec(img, r, 0) + 5870 * err_spec(img, r, 1) + 1140 * err_spec(img, r, 2)
}

/// The fifth root of the region's area, carrying 8 extra bits of fixed-point
/// precision.
pub open spec fn area_root_spec(r: Rect) -> int {
    iroot5_spec((r.area() * 0x100_0000_0000) as nat) as int
}

/// The priority score of a region: Excluded when either dimension is at most
/// MIN_SIZE, else the combined error scaled by the fifth root of the area.
pub open spec fn score_spec(img: Image, r: Rect) -> Score {
    if r.width() <= MIN_SIZE || r.height() <= MIN_SIZE {
        Score::Excluded
    } else {
        Score::Eligible((combined_error_spec(img, r) * area_root_spec(r)) as u128)
    }
}

/// The average color of a region: the per-channel truncated means, fully
/// opaque.
pub open spec fn color_spec(img: Image, r: Rect) -> Rgba8 {
    Rgba8 {
        r: avg_spec(img, r, 0) as u8,
        g: avg_spec(img, r, 1) as u8,
        b: avg_spec(img, r, 2) as u8,
        a: 255,
    }
}

/// The quad derived from a region: the region, its score, and its color.
pub open spec fn quad_spec(img: Image, r: Rect) -> Quad {
    Quad { rect: r, score: score_spec(img, r), color: color_spec(img, r) }
}

/// Scores a region: estimates the three color channels, combines their errors
/// into a priority, and applies the minimum-size exclusion.
pub fn create_quad(img: &Image, rect: Rect) -> (q: Quad)
    requires
        img.wf(),
        img.contains_rect(rect),
    ensures
        q == quad_spec(*img, rect),
{
    proof {
        crate::raster::lemma_contained_area(*img, rect);
    }
    let r = calc_color_and_error(img, &rect, 0);
    let g = calc_color_and_error(img, &rect, 1);
    let b = calc_color_and_error(img, &rect, 2);
    let color = Rgba8 { r: r.color, g: g.color, b: b.color, a: 255 };
    let ce: u128 = 2989 * (r.error as u128) + 5870 * (g.error as u128) + 1140 * (b.error as u128);
    proof {
        assert(rect.area() * 0x100_0000_0000 <= 0xFFFFFFFF0000000000) by (nonlinear_arith)
            requires 1 <= rect.area() <= 0xFFFF_FFFF;
        assert(0x8000int * 0x8000 * 0x8000 * 0x8000 * 0x8000 == 0x8000000000000000000)
            by (nonlinear_arith);
        assert(pow5(0x8000) == 0x8000000000000000000);
    }
    let scaled_area: u128 = (calc_area(&rect) as u128) * 0x100_0000_0000;
    let rt: u128 = iroot5(scaled_area);
    proof {
        lemma_root_bound(scaled_area as nat);
        assert(ce * rt <= 0xFFFF_FFFF_FFFF_FFFF_FFFF_FFFF * 0x10000) by (nonlinear_arith)
            requires ce <= 0xFFFF_FFFF_FFFF_FFFF_FFFF_FFFF && rt <= 0x10000;
    }
    let score_val: u128 = ce * rt;
    let width = rect.right - rect.left + 1;
    let height = rect.bottom - rect.top + 1;
    let score = if width <= MIN_SIZE || height <= MIN_SIZE {
        Score::Excluded
    } else {
        Score::Eligible(score_val)
    };
    Quad { rect, score, color }
}

/// The scaled fifth root of a bounded area stays below 2^16.
proof fn lemma_root_bound(n: nat)
    requires
        n <= 0xFFFFFFFF0000000000,
    ensures
        iroot5_spec(n) <= 0x10000,
{
    crate::math::lemma_iroot5_bounds(n);
    let r = iroot5_spec(n);
    if r > 0x10000 {
        lemma_pow5_monotonic(0x10000, r as int);
        assert(0x10000int * 0x10000 * 0x10000 * 0x10000 * 0x10000 == 0x100000000000000000000)
            by (nonlinear_arith);
        assert(pow5(0x10000) == 0x100000000000000000000);
    }
}

/// An undersized quad ranks strictly below every quad whose region exceeds
/// the minimum size on both axes, whatever the two regions' errors.
pub proof fn lemma_excluded_below_eligible(img1: Image, r1: Rect, img2: Image, r2: Rect)
    requires
        r1.width() <= MIN_SIZE || r1.height() <= MIN_SIZE,
        r2.width() > MIN_SIZE,
        r2.height() > MIN_SIZE,
    ensures
        score_lt(score_spec(img1, r1), score_spec(img2, r2)),
{
}

/// On an image whose three color channels are uniform, every region's quad
/// carries the common color, and its score is Excluded or zero: no region has
/// any error to reduce.
pub proof fn lemma_uniform_image_scores(img: Image, r: Rect, vr: u8, vg: u8, vb: u8)
    requires
        img.wf(),
        img.contains_rect(r),
        crate::stats::uniform_chan(img, r, 0, vr as int),
        crate::stats::uniform_chan(img, r, 1, vg as int),
        crate::stats::uniform_chan(img, r, 2, vb as int),
    ensures
        color_spec(img, r) == (Rgba8 { r: vr, g: vg, b: vb, a: 255 }),
        combined_error_spec(img, r) == 0,
        score_spec(img, r) == if r.width() <= MIN_SIZE || r.height() <= MIN_SIZE {
            Score::Excluded
        } else {
            Score::Eligible(0)
        },
{
    crate::stats::lemma_estimator_uniform(img, r, 0, vr as int);
    crate::stats::lemma_estimator_uniform(img, r, 1, vg as int);
    crate::stats::lemma_estimator_uniform(img, r, 2, vb as int);
    assert(0 * area_root_spec(r) == 0) by (nonlinear_arith);
}

} // verus!
