//! Per-channel statistics over a region: histogram, truncated mean, and
//! population standard deviation in fixed point.

use vstd::prelude::*;
use vstd::pervasive::VecAdditionalExecFns;
use crate::geometry::Rect;
use crate::raster::{Image, chan};
use crate::math::{isqrt, isqrt_spec, lemma_isqrt_bounds};

verus! {

/// Fixed-point scale of channel errors: an error of one intensity unit is
/// stored as 65536.
pub const ERR_ONE: u64 = 65536;

/// How many pixels in row y, columns left..x (x exclusive), carry channel
/// value v.
pub open spec fn row_count(img: Image, y: int, l: int, x: int, c: int, v: int) -> int
    decreases x - l,
{
    if x <= l {
        0
    } else {
        row_count(img, y, l, x - 1, c, v)
            + if chan(img.pix(x - 1, y), c) == v { 1int } else { 0int }
    }
}

/// How many pixels in rows top..yend (yend exclusive) of the region's columns
/// carry channel value v.
pub open spec fn rect_count(img: Image, r: Rect, yend: int, c: int, v: int) -> int
    decreases yend - r.top,
{
    if yend <= r.top {
        0
    } else {
        rect_count(img, r, yend - 1, c, v)
            + row_count(img, yend - 1, r.left as int, r.right + 1, c, v)
    }
}

/// How many pixels of the whole region carry channel value v.
pub open spec fn cnt(img: Image, r: Rect, c: int, v: int) -> int {
    rect_count(img, r, r.bottom + 1, c, v)
}

/// Sum over v < n of cnt(v): pixels counted over the first n histogram buckets.
pub open spec fn cnt_below(img: Image, r: Rect, c: int, n: int) -> int
    decreases n,
{
    if n <= 0 {
        0
    } else {
        cnt_below(img, r, c, n - 1) + cnt(img, r, c, n - 1)
    }
}

/// Sum over v < n of v * cnt(v): the channel's intensity total.
pub open spec fn total_below(img: Image, r: Rect, c: int, n: int) -> int
    decreases n,
{
    if n <= 0 {
        0
    } else {
        total_below(img, r, c, n - 1) + (n - 1) * cnt(img, r, c, n - 1)
    }
}

/// Sum over v < n of v * v * cnt(v): the channel's squared-intensity total.
pub open spec fn sq_below(img: Image, r: Rect, c: int, n: int) -> int
    decreases n,
{
    if n <= 0 {
        0
    } else {
        sq_below(img, r, c, n - 1) + (n - 1) * (n - 1) * cnt(img, r, c, n - 1)
    }
}

/// The channel's intensity total over the region.
pub open spec fn chan_total(img: Image, r: Rect, c: int) -> int {
    total_below(img, r, c, 256)
}

/// The channel's squared-intensity total over the region.
pub open spec fn chan_sq_total(img: Image, r: Rect, c: int) -> int {
    sq_below(img, r, c, 256)
}

/// The truncated mean intensity of the channel over the region.
pub open spec fn avg_spec(img: Image, r: Rect, c: int) -> int {
    chan_total(img, r, c) / r.area()
}

/// area^2 times the population variance of the channel over the region,
/// written without division: area * sq_total - total^2. The guard keeps the
/// expression total on every input; lemma_var_num_exact shows it never fires.
pub open spec fn var_num_spec(img: Image, r: Rect, c: int) -> int {
    let n = r.area();
    let t = chan_total(img, r, c);
    let m = chan_sq_total(img, r, c);
    if n * m >= t * t {
        n * m - t * t
    } else {
        0
    }
}

/// The population standard deviation of the channel over the region, in
/// ERR_ONE fixed point: isqrt(var_num * ERR_ONE^2) / area.
pub open spec fn err_spec(img: Image, r: Rect, c: int) -> int {
    isqrt_spec((var_num_spec(img, r, c) * 0x1_0000_0000) as nat) as int / r.area()
}

/// Mean and error of one channel over one region.
#[derive(Clone, Copy, PartialEq, Eq, Structural, Debug)]
pub struct CalcAndColor {
    pub color: u8,
    pub error: u64,
}

/// Row counts are between 0 and the number of pixels scanned.
pub proof fn lemma_row_count_bounds(img: Image, y: int, l: int, x: int, c: int, v: int)
    requires
        l <= x,
    ensures
        0 <= row_count(img, y, l, x, c, v) <= x - l,
    decreases x - l,
{
    if x > l {
        lemma_row_count_bounds(img, y, l, x - 1, c, v);
    }
}

/// Region counts are between 0 and the number of pixels scanned.
pub proof fn lemma_rect_count_bounds(img: Image, r: Rect, yend: int, c: int, v: int)
    requires
        r.wf(),
        r.top <= yend,
    ensures
        0 <= rect_count(img, r, yend, c, v) <= (yend - r.top) * r.width(),
    decreases yend - r.top,
{
    if yend > r.top {
        lemma_rect_count_bounds(img, r, yend - 1, c, v);
        lemma_row_count_bounds(img, yend - 1, r.left as int, r.right + 1, c, v);
        assert((yend - 1 - r.top) * r.width() + r.width() == (yend - r.top) * r.width())
            by (nonlinear_arith);
        assert(0 <= (yend - 1 - r.top) * r.width()) by (nonlinear_arith)
            requires yend - 1 - r.top >= 0 && r.width() >= 0;
    } else {
        assert((yend - r.top) * r.width() == 0) by (nonlinear_arith)
            requires yend == r.top;
    }
}

/// A partial scan position strictly precedes the region's full pixel count.
pub proof fn lemma_partial_lt_area(r: Rect, y: int, x: int)
    requires
        r.wf(),
        r.top <= y <= r.bottom,
        r.left <= x <= r.right,
    ensures
        0 <= (y - r.top) * r.width() + (x - r.left) < r.area(),
{
    assert(0 <= (y - r.top) * r.width()) by (nonlinear_arith)
        requires y >= r.top && r.width() >= 0;
    assert((y - r.top) * r.width() + (x - r.left) < (r.bottom - r.top + 1) * r.width())
        by (nonlinear_arith)
        requires
            r.top <= y <= r.bottom && r.left <= x <= r.right && r.width() == r.right - r.left + 1
                && r.width() >= 1;
    assert(r.area() == (r.bottom - r.top + 1) * r.width()) by (nonlinear_arith)
        requires r.area() == r.width() * r.height() && r.height() == r.bottom - r.top + 1;
}

/// An empty row scan has zero pixels in every bucket prefix.
proof fn lemma_row_sum_empty(img: Image, y: int, l: int, c: int, n: int)
    ensures
        row_sum_below(img, y, l, l, c, n) == 0,
    decreases n,
{
    if n > 0 {
        lemma_row_sum_empty(img, y, l, c, n - 1);
    }
}

/// Sum over v < n of row_count(v).
pub open spec fn row_sum_below(img: Image, y: int, l: int, x: int, c: int, n: int) -> int
    decreases n,
{
    if n <= 0 {
        0
    } else {
        row_sum_below(img, y, l, x, c, n - 1) + row_count(img, y, l, x, c, n - 1)
    }
}

/// Scanning one more pixel raises the bucket-prefix sum by one exactly when
/// the pixel's value falls inside the prefix.
proof fn lemma_row_sum_step(img: Image, y: int, l: int, x: int, c: int, n: int)
    requires
        l < x,
    ensures
        row_sum_below(img, y, l, x, c, n) == row_sum_below(img, y, l, x - 1, c, n)
            + if (chan(img.pix(x - 1, y), c) as int) < n && 0 <= n { 1int } else { 0int },
    decreases n,
{
    if n > 0 {
        lemma_row_sum_step(img, y, l, x, c, n - 1);
    }
}

/// Every pixel of a row scan lands in exactly one of the 256 buckets.
proof fn lemma_row_sum_total(img: Image, y: int, l: int, x: int, c: int)
    requires
        l <= x,
    ensures
        row_sum_below(img, y, l, x, c, 256) == x - l,
    decreases x - l,
{
    if x == l {
        lemma_row_sum_empty(img, y, l, c, 256);
    } else {
        lemma_row_sum_total(img, y, l, x - 1, c);
        lemma_row_sum_step(img, y, l, x, c, 256);
    }
}

/// Sum over v < n of rect_count(v).
pub open spec fn rect_sum_below(img: Image, r: Rect, yend: int, c: int, n: int) -> int
    decreases n,
{
    if n <= 0 {
        0
    } else {
        rect_sum_below(img, r, yend, c, n - 1) + rect_count(img, r, yend, c, n - 1)
    }
}

/// An empty region scan has zero pixels in every bucket prefix.
proof fn lemma_rect_sum_empty(img: Image, r: Rect, c: int, n: int)
    ensures
        rect_sum_below(img, r, r.top as int, c, n) == 0,
    decreases n,
{
    if n > 0 {
        lemma_rect_sum_empty(img, r, c, n - 1);
    }
}

/// Scanning one more row adds that row's bucket-prefix sum.
proof fn lemma_rect_sum_step(img: Image, r: Rect, yend: int, c: int, n: int)
    requires
        r.top < yend,
    ensures
        rect_sum_below(img, r, yend, c, n) == rect_sum_below(img, r, yend - 1, c, n)
            + row_sum_below(img, yend - 1, r.left as int, r.right + 1, c, n),
    decreases n,
{
    if n > 0 {
        lemma_rect_sum_step(img, r, yend, c, n - 1);
    }
}

/// Every pixel of a region scan lands in exactly one of the 256 buckets.
pub proof fn lemma_rect_sum_total(img: Image, r: Rect, yend: int, c: int)
    requires
        r.wf(),
        r.top <= yend,
    ensures
        rect_sum_below(img, r, yend, c, 256) == (yend - r.top) * r.width(),
    decreases yend - r.top,
{
    if yend == r.top {
        lemma_rect_sum_empty(img, r, c, 256);
        assert((yend - r.top) * r.width() == 0) by (nonlinear_arith)
            requires yend == r.top;
    } else {
        lemma_rect_sum_total(img, r, yend - 1, c);
        lemma_rect_sum_step(img, r, yend, c, 256);
        lemma_row_sum_total(img, yend - 1, r.left as int, r.right + 1, c);
        assert((yend - 1 - r.top) * r.width() + r.width() == (yend - r.top) * r.width())
            by (nonlinear_arith);
    }
}

/// The histogram buckets of a region sum to its area.
pub proof fn lemma_cnt_below_area(img: Image, r: Rect, c: int)
    requires
        r.wf(),
    ensures
        cnt_below(img, r, c, 256) == r.area(),
{
    lemma_rect_sum_total(img, r, r.bottom + 1, c);
    lemma_cnt_below_eq_rect_sum(img, r, c, 256);
    assert((r.bottom + 1 - r.top) * r.width() == r.area()) by (nonlinear_arith)
        requires
            r.area() == r.width() * r.height() && r.height() == r.bottom - r.top + 1;
}

/// cnt_below is rect_sum_below taken at the full height.
proof fn lemma_cnt_below_eq_rect_sum(img: Image, r: Rect, c: int, n: int)
    ensures
        cnt_below(img, r, c, n) == rect_sum_below(img, r, r.bottom + 1, c, n),
    decreases n,
{
    if n > 0 {
        lemma_cnt_below_eq_rect_sum(img, r, c, n - 1);
    }
}

/// The intensity total is at most 255 times the pixel count.
pub proof fn lemma_total_bound(img: Image, r: Rect, c: int, n: int)
    requires
        r.wf(),
        0 <= n <= 256,
    ensures
        0 <= total_below(img, r, c, n) <= 255 * cnt_below(img, r, c, n),
    decreases n,
{
    if n > 0 {
        lemma_total_bound(img, r, c, n - 1);
        lemma_rect_count_bounds(img, r, r.bottom + 1, c, n - 1);
        assert(0 <= (n - 1) * cnt(img, r, c, n - 1) <= 255 * cnt(img, r, c, n - 1))
            by (nonlinear_arith)
            requires 0 <= n - 1 <= 255 && 0 <= cnt(img, r, c, n - 1);
    }
}

/// Histogram of one channel over one region: bucket v holds the number of
/// pixels whose channel value is v.
pub fn get_rect_color(img: &Image, rect: &Rect, color_index: usize) -> (hist: Vec<u32>)
    requires
        img.wf(),
        img.contains_rect(*rect),
    ensures
        hist@.len() == 256,
        forall|v: int| 0 <= v < 256 ==> hist@[v] == cnt(*img, *rect, color_index as int, v),
{
    let ghost c = color_index as int;
    proof {
        crate::raster::lemma_contained_area(*img, *rect);
    }
    let mut hist: Vec<u32> = Vec::new();
    let mut i: usize = 0;
    while i < 256
        invariant
            i <= 256,
            hist@.len() == i,
            forall|v: int| 0 <= v < i ==> hist@[v] == 0,
        decreases 256 - i,
    {
        hist.push(0);
        i = i + 1;
    }
    let mut y: u32 = rect.top;
    while y <= rect.bottom
        invariant
            img.wf(),
            img.contains_rect(*rect),
            rect.area() <= u32::MAX,
            c == color_index as int,
            rect.top <= y,
            y <= rect.bottom + 1,
            hist@.len() == 256,
            forall|v: int| 0 <= v < 256 ==> hist@[v] == rect_count(*img, *rect, y as int, c, v),
        decreases rect.bottom + 1 - y,
    {
        let mut x: u32 = rect.left;
        while x <= rect.right
            invariant
                img.wf(),
                img.contains_rect(*rect),
                rect.area() <= u32::MAX,
                c == color_index as int,
                rect.top <= y <= rect.bottom,
                rect.left <= x,
                x <= rect.right + 1,
                hist@.len() == 256,
                forall|v: int| 0 <= v < 256 ==> hist@[v] == rect_count(*img, *rect, y as int, c, v)
                    + row_count(*img, y as int, rect.left as int, x as int, c, v),
            decreases rect.right + 1 - x,
        {
            let p = img.get_pixel(x, y);
            let u = p.channel(color_index);
            let ui = u as usize;
            proof {
                lemma_rect_count_bounds(*img, *rect, y as int, c, ui as int);
                lemma_row_count_bounds(*img, y as int, rect.left as int, x as int, c, ui as int);
                lemma_partial_lt_area(*rect, y as int, x as int);
                assert(hist@[ui as int] < rect.area());
            }
            let ghost prev = hist@;
            let h = hist[ui];
            hist.set(ui, h + 1);
            x = x + 1;
            proof {
                assert forall|v: int| 0 <= v < 256 implies hist@[v]
                    == rect_count(*img, *rect, y as int, c, v)
                        + row_count(*img, y as int, rect.left as int, x as int, c, v) by {
                    assert(prev[v] == rect_count(*img, *rect, y as int, c, v)
                        + row_count(*img, y as int, rect.left as int, x as int - 1, c, v));
                    assert(row_count(*img, y as int, rect.left as int, x as int, c, v)
                        == row_count(*img, y as int, rect.left as int, x as int - 1, c, v)
                            + if chan(img.pix(x as int - 1, y as int), c) == v { 1int } else { 0int });
                    assert(chan(img.pix(x as int - 1, y as int), c) == ui as int);
                    if v == ui as int {
                        assert(hist@[v] == prev[v] + 1);
                    } else {
                        assert(hist@[v] == prev[v]);
                    }
                }
            }
        }
        y = y + 1;
        proof {
            assert forall|v: int| 0 <= v < 256 implies hist@[v]
                == rect_count(*img, *rect, y as int, c, v) by {
                assert(rect_count(*img, *rect, y as int, c, v)
                    == rect_count(*img, *rect, y as int - 1, c, v)
                        + row_count(*img, y as int - 1, rect.left as int, rect.right as int + 1, c, v));
            }
        }
    }
    hist
}

/// Mean and fixed-point standard deviation of one channel over one region,
/// computed from the histogram.
pub fn calc_color_and_error(img: &Image, rect: &Rect, color_index: usize) -> (s: CalcAndColor)
    requires
        img.wf(),
        img.contains_rect(*rect),
    ensures
        s.color == avg_spec(*img, *rect, color_index as int),
        s.error == err_spec(*img, *rect, color_index as int),
{
    let ghost c = color_index as int;
    proof {
        crate::raster::lemma_contained_area(*img, *rect);
    }
    let hist = get_rect_color(img, rect, color_index);
    let mut total: u64 = 0;
    let mut num: u64 = 0;
    let mut m2: u64 = 0;
    let mut i: usize = 0;
    while i < 256
        invariant
            hist@.len() == 256,
            forall|v: int| 0 <= v < 256 ==> hist@[v] == cnt(*img, *rect, c, v),
            i <= 256,
            total == total_below(*img, *rect, c, i as int),
            num == cnt_below(*img, *rect, c, i as int),
            m2 == sq_below(*img, *rect, c, i as int),
            total <= i * 1095216660225,
            num <= i * 4294967295,
            m2 <= i * 279280248357375,
        decreases 256 - i,
    {
        let h: u32 = hist[i];
        proof {
            assert((i as int) * (h as int) <= 255 * 4294967295) by (nonlinear_arith)
                requires 0 <= i < 256 && 0 <= h <= 4294967295u32;
            assert((i as int) * (i as int) <= 65025) by (nonlinear_arith)
                requires 0 <= i < 256;
            assert((i as int) * (i as int) * (h as int) <= 65025 * 4294967295)
                by (nonlinear_arith)
                requires 0 <= i < 256 && 0 <= h <= 4294967295u32;
        }
        let w: u64 = (i as u64) * (h as u64);
        let w2: u64 = (i as u64) * (i as u64) * (h as u64);
        total = total + w;
        num = num + (h as u64);
        m2 = m2 + w2;
        i = i + 1;
        proof {
            assert(total_below(*img, *rect, c, i as int)
                == total_below(*img, *rect, c, i as int - 1)
                    + (i as int - 1) * cnt(*img, *rect, c, i as int - 1));
            assert(cnt_below(*img, *rect, c, i as int)
                == cnt_below(*img, *rect, c, i as int - 1) + cnt(*img, *rect, c, i as int - 1));
            assert(sq_below(*img, *rect, c, i as int)
                == sq_below(*img, *rect, c, i as int - 1)
                    + (i as int - 1) * (i as int - 1) * cnt(*img, *rect, c, i as int - 1));
        }
    }
    proof {
        lemma_cnt_below_area(*img, *rect, c);
        lemma_total_bound(*img, *rect, c, 256);
        assert(num == rect.area());
        assert(num >= 1);
        assert(total / num <= 255) by (nonlinear_arith)
            requires 0 <= total <= 255 * (num as int) && num >= 1;
    }
    let avg: u64 = total / num;
    let color: u8 = avg as u8;
    proof {
        assert((num as int) * (m2 as int) <= 4294967295 * 71495743579488000)
            by (nonlinear_arith)
            requires num <= 4294967295u64 && m2 <= 71495743579488000u64;
        assert((total as int) * (total as int) <= 280375465017600 * 280375465017600)
            by (nonlinear_arith)
            requires total <= 280375465017600u64;
    }
    let nm: u128 = (num as u128) * (m2 as u128);
    let t2: u128 = (total as u128) * (total as u128);
    let dvar: u128 = if nm >= t2 {
        nm - t2
    } else {
        0
    };
    proof {
        assert(dvar * 0x1_0000_0000 < 0x4000_0000_0000_0000_0000_0000_0000_0000u128)
            by (nonlinear_arith)
            requires dvar <= 4294967295 * 71495743579488000;
    }
    let scaled: u128 = dvar * 0x1_0000_0000;
    let root: u128 = isqrt(scaled);
    proof {
        lemma_isqrt_bounds(scaled as nat);
        assert(root < 0x1_0000_0000_0000_0000u128) by (nonlinear_arith)
            requires
                (root as int) * (root as int) <= scaled as int
                    && scaled < 0x4000_0000_0000_0000_0000_0000_0000_0000u128;
    }
    let err128: u128 = root / (num as u128);
    let error: u64 = err128 as u64;
    proof {
        assert(dvar == var_num_spec(*img, *rect, c));
        assert(err128 <= root) by (nonlinear_arith)
            requires err128 == root / (num as u128) && num >= 1u64 && root >= 0u128;
        assert(err128 == err_spec(*img, *rect, c));
    }
    CalcAndColor { color, error }
}

/// Over any prefix of the histogram the sums satisfy the Cauchy-Schwarz
/// inequality: total^2 <= count * squared-total.
pub proof fn lemma_histogram_cauchy(img: Image, r: Rect, c: int, k: int)
    requires
        r.wf(),
        0 <= k,
    ensures
        0 <= cnt_below(img, r, c, k),
        0 <= total_below(img, r, c, k),
        0 <= sq_below(img, r, c, k),
        total_below(img, r, c, k) * total_below(img, r, c, k)
            <= cnt_below(img, r, c, k) * sq_below(img, r, c, k),
    decreases k,
{
    if k == 0 {
        assert(0int * 0 <= 0 * 0) by (nonlinear_arith);
    } else {
        lemma_histogram_cauchy(img, r, c, k - 1);
        lemma_rect_count_bounds(img, r, r.bottom + 1, c, k - 1);
        let n = cnt_below(img, r, c, k - 1);
        let t = total_below(img, r, c, k - 1);
        let m = sq_below(img, r, c, k - 1);
        let v = k - 1;
        let q = cnt(img, r, c, k - 1);
        assert(cnt_below(img, r, c, k) == n + q);
        assert(total_below(img, r, c, k) == t + v * q);
        assert(sq_below(img, r, c, k) == m + v * v * q);
        assert(0 <= v * q) by (nonlinear_arith)
            requires 0 <= v && 0 <= q;
        assert(0 <= v * v * q) by (nonlinear_arith)
            requires 0 <= v && 0 <= q;
        if n == 0 {
            assert(t == 0) by (nonlinear_arith)
                requires t * t <= n * m && n == 0 && 0 <= m;
            assert(n * (v * v) + m - 2 * t * v >= 0) by (nonlinear_arith)
                requires n == 0 && t == 0 && 0 <= m;
        } else {
            assert(n * (n * (v * v) + m - 2 * t * v) == (n * v - t) * (n * v - t) + (n * m - t
                * t)) by (nonlinear_arith);
            assert(n * (n * (v * v) + m - 2 * t * v) >= 0) by (nonlinear_arith)
                requires
                    n * (n * (v * v) + m - 2 * t * v) == (n * v - t) * (n * v - t) + (n * m - t
                        * t) && t * t <= n * m;
            assert(n * (v * v) + m - 2 * t * v >= 0) by (nonlinear_arith)
                requires n > 0 && n * (n * (v * v) + m - 2 * t * v) >= 0;
        }
        assert((t + v * q) * (t + v * q) <= (n + q) * (m + v * v * q)) by (nonlinear_arith)
            requires
                t * t <= n * m && 0 <= q && n * (v * v) + m - 2 * t * v >= 0;
    }
}

/// The variance numerator's guard never fires: for a real histogram the area
/// times the squared-intensity total dominates the squared intensity total,
/// so var_num_spec is exactly their difference.
pub proof fn lemma_var_num_exact(img: Image, r: Rect, c: int)
    requires
        r.wf(),
    ensures
        chan_total(img, r, c) * chan_total(img, r, c) <= r.area() * chan_sq_total(img, r, c),
        var_num_spec(img, r, c) == r.area() * chan_sq_total(img, r, c) - chan_total(img, r, c)
            * chan_total(img, r, c),
{
    lemma_histogram_cauchy(img, r, c, 256);
    lemma_cnt_below_area(img, r, c);
}

/// Every pixel of the region carries value v on channel c.
pub open spec fn uniform_chan(img: Image, r: Rect, c: int, v: int) -> bool {
    forall|x: int, y: int| r.contains(x, y) ==> chan(#[trigger] img.pix(x, y), c) == v
}

/// Over a uniform region a row scan counts every pixel into bucket v and none
/// elsewhere.
proof fn lemma_row_count_uniform(img: Image, r: Rect, y: int, x: int, c: int, v: int, u: int)
    requires
        r.wf(),
        uniform_chan(img, r, c, v),
        r.top <= y <= r.bottom,
        r.left <= x <= r.right + 1,
    ensures
        row_count(img, y, r.left as int, x, c, u) == if u == v { x - r.left } else { 0int },
    decreases x - r.left,
{
    if x > r.left {
        lemma_row_count_uniform(img, r, y, x - 1, c, v, u);
        assert(r.contains(x - 1, y));
    }
}

/// Over a uniform region the full count lands in bucket v alone.
proof fn lemma_rect_count_uniform(img: Image, r: Rect, yend: int, c: int, v: int, u: int)
    requires
        r.wf(),
        uniform_chan(img, r, c, v),
        r.top <= yend <= r.bottom + 1,
    ensures
        rect_count(img, r, yend, c, u) == if u == v { (yend - r.top) * r.width() } else { 0int },
    decreases yend - r.top,
{
    if yend == r.top {
        assert((yend - r.top) * r.width() == 0) by (nonlinear_arith)
            requires yend == r.top;
    } else {
        lemma_rect_count_uniform(img, r, yend - 1, c, v, u);
        lemma_row_count_uniform(img, r, yend - 1, r.right + 1, c, v, u);
        assert((yend - 1 - r.top) * r.width() + r.width() == (yend - r.top) * r.width())
            by (nonlinear_arith);
    }
}

/// Over a uniform region the count in bucket v is the area.
proof fn lemma_cnt_uniform(img: Image, r: Rect, c: int, v: int, u: int)
    requires
        r.wf(),
        uniform_chan(img, r, c, v),
    ensures
        cnt(img, r, c, u) == if u == v { r.area() } else { 0int },
{
    lemma_rect_count_uniform(img, r, r.bottom + 1, c, v, u);
    assert((r.bottom + 1 - r.top) * r.width() == r.area()) by (nonlinear_arith)
        requires r.area() == r.width() * r.height() && r.height() == r.bottom - r.top + 1;
}

/// Over a uniform region the intensity total is v times the area (once the
/// prefix passes v).
proof fn lemma_total_uniform(img: Image, r: Rect, c: int, v: int, n: int)
    requires
        r.wf(),
        uniform_chan(img, r, c, v),
        0 <= v,
    ensures
        total_below(img, r, c, n) == if v < n { v * r.area() } else { 0int },
        sq_below(img, r, c, n) == if v < n { v * v * r.area() } else { 0int },
    decreases n,
{
    if n > 0 {
        lemma_total_uniform(img, r, c, v, n - 1);
        lemma_cnt_uniform(img, r, c, v, n - 1);
        if n - 1 == v {
            assert((n - 1) * cnt(img, r, c, n - 1) == v * r.area());
            assert((n - 1) * (n - 1) * cnt(img, r, c, n - 1) == v * v * r.area());
        } else {
            assert((n - 1) * cnt(img, r, c, n - 1) == 0) by (nonlinear_arith)
                requires cnt(img, r, c, n - 1) == 0;
            assert((n - 1) * (n - 1) * cnt(img, r, c, n - 1) == 0) by (nonlinear_arith)
                requires cnt(img, r, c, n - 1) == 0;
        }
    }
}

/// Estimator on a uniform region: the mean is the common value and the error
/// is zero.
pub proof fn lemma_estimator_uniform(img: Image, r: Rect, c: int, v: int)
    requires
        img.wf(),
        img.contains_rect(r),
        0 <= v < 256,
        uniform_chan(img, r, c, v),
    ensures
        avg_spec(img, r, c) == v,
        err_spec(img, r, c) == 0,
{
    crate::raster::lemma_contained_area(img, r);
    lemma_total_uniform(img, r, c, v, 256);
    let a = r.area();
    assert(chan_total(img, r, c) == v * a);
    assert(chan_sq_total(img, r, c) == v * v * a);
    assert(v * a / a == v) by (nonlinear_arith)
        requires a >= 1 && 0 <= v;
    assert(a * (v * v * a) == (v * a) * (v * a)) by (nonlinear_arith);
    assert(var_num_spec(img, r, c) == 0);
    assert(isqrt_spec(0) == 0);
    assert(0int / a == 0) by (nonlinear_arith)
        requires a >= 1;
}

} // verus!
