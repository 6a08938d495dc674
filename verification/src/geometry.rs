//! Rectangular pixel regions and their quadrant split.

use vstd::prelude::*;

verus! {

/// A rectangular range of pixels, with inclusive bounds on both axes.
#[derive(Clone, Copy, PartialEq, Eq, Structural, Debug)]
pub struct Rect {
    pub left: u32,
    pub right: u32,
    pub top: u32,
    pub bottom: u32,
}

impl Rect {
    /// Both coordinate ranges are non-empty.
    pub open spec fn wf(self) -> bool {
        self.left <= self.right && self.top <= self.bottom
    }

    pub open spec fn width(self) -> int {
        self.right - self.left + 1
    }

    pub open spec fn height(self) -> int {
        self.bottom - self.top + 1
    }

    pub open spec fn area(self) -> int {
        self.width() * self.height()
    }

    pub open spec fn contains(self, x: int, y: int) -> bool {
        self.left <= x <= self.right && self.top <= y <= self.bottom
    }

    /// Splitting at the floored center produces four non-empty children
    /// exactly when both dimensions are at least 3: with a dimension of 2 the
    /// floored center equals the low bound and the low child degenerates.
    pub open spec fn splittable(self) -> bool {
        self.wf() && self.width() >= 3 && self.height() >= 3
    }

    pub open spec fn center_x(self) -> int {
        (self.left + self.right) / 2
    }

    pub open spec fn center_y(self) -> int {
        (self.top + self.bottom) / 2
    }

    /// The four quadrants of this region, in the order
    /// top-left, top-right, bottom-left, bottom-right.
    pub open spec fn split_spec(self) -> Seq<Rect> {
        let cx = self.center_x();
        let cy = self.center_y();
        seq![
            Rect { left: self.left, right: (cx - 1) as u32, top: self.top, bottom: (cy - 1) as u32 },
            Rect { left: cx as u32, right: self.right, top: self.top, bottom: (cy - 1) as u32 },
            Rect { left: self.left, right: (cx - 1) as u32, top: cy as u32, bottom: self.bottom },
            Rect { left: cx as u32, right: self.right, top: cy as u32, bottom: self.bottom },
        ]
    }

    /// Quadrant split at the floored center, as four child regions.
    pub fn split(&self) -> (children: [Rect; 4])
        requires
            self.splittable(),
        ensures
            children@ == self.split_spec(),
    {
        proof {
            lemma_center_in_range(*self);
        }
        let center_x: u32 = (((self.left as u64) + (self.right as u64)) / 2) as u32;
        let center_y: u32 = (((self.top as u64) + (self.bottom as u64)) / 2) as u32;

        let children = [
            Rect { left: self.left, right: center_x - 1, top: self.top, bottom: center_y - 1 },
            Rect { left: center_x, right: self.right, top: self.top, bottom: center_y - 1 },
            Rect { left: self.left, right: center_x - 1, top: center_y, bottom: self.bottom },
            Rect { left: center_x, right: self.right, top: center_y, bottom: self.bottom },
        ];
        proof {
            assert(children@ =~= self.split_spec());
        }
        children
    }
}

/// For a splittable region the floored center lies strictly inside both
/// ranges, so every child range is non-empty.
pub proof fn lemma_center_in_range(r: Rect)
    requires
        r.splittable(),
    ensures
        r.left + 1 <= r.center_x() <= r.right,
        r.top + 1 <= r.center_y() <= r.bottom,
{
}

/// Each child of a split is a well-formed region lying inside its parent's
/// bounds.
pub proof fn lemma_split_children_wf(r: Rect)
    requires
        r.splittable(),
    ensures
        r.split_spec().len() == 4,
        forall|i: int| 0 <= i < 4 ==> (#[trigger] r.split_spec()[i]).wf(),
        forall|i: int| 0 <= i < 4 ==> (#[trigger] r.split_spec()[i]).left >= r.left,
        forall|i: int| 0 <= i < 4 ==> (#[trigger] r.split_spec()[i]).right <= r.right,
        forall|i: int| 0 <= i < 4 ==> (#[trigger] r.split_spec()[i]).top >= r.top,
        forall|i: int| 0 <= i < 4 ==> (#[trigger] r.split_spec()[i]).bottom <= r.bottom,
        forall|i: int, x: int, y: int|
            0 <= i < 4 && #[trigger] r.split_spec()[i].contains(x, y) ==> r.contains(x, y),
{
    lemma_center_in_range(r);
}

/// The four children partition the parent: a point lies in the parent exactly
/// when it lies in one of the children, and never in two of them.
pub proof fn lemma_split_partition(r: Rect, x: int, y: int)
    requires
        r.splittable(),
    ensures
        r.contains(x, y) <==> exists|i: int|
            0 <= i < 4 && (#[trigger] r.split_spec()[i]).contains(x, y),
        forall|i: int, j: int|
            0 <= i < 4 && 0 <= j < 4 && i != j ==> !(#[trigger] r.split_spec()[i].contains(x, y)
                && #[trigger] r.split_spec()[j].contains(x, y)),
{
    lemma_center_in_range(r);
    if r.contains(x, y) {
        let cx = r.center_x();
        let cy = r.center_y();
        if x < cx && y < cy {
            assert(r.split_spec()[0].contains(x, y));
        } else if x >= cx && y < cy {
            assert(r.split_spec()[1].contains(x, y));
        } else if x < cx && y >= cy {
            assert(r.split_spec()[2].contains(x, y));
        } else {
            assert(r.split_spec()[3].contains(x, y));
        }
    }
}

/// The children's widths and heights pair up to the parent's, so their areas
/// sum exactly to the parent's area.
pub proof fn lemma_split_area_sum(r: Rect)
    requires
        r.splittable(),
    ensures
        r.split_spec()[0].area() + r.split_spec()[1].area() + r.split_spec()[2].area()
            + r.split_spec()[3].area() == r.area(),
{
    lemma_center_in_range(r);
    let c = r.split_spec();
    let w0 = c[0].width();
    let w1 = c[1].width();
    let h0 = c[0].height();
    let h2 = c[2].height();
    assert(w0 + w1 == r.width());
    assert(h0 + h2 == r.height());
    assert(c[0].area() == w0 * h0);
    assert(c[1].area() == w1 * h0);
    assert(c[2].area() == w0 * h2);
    assert(c[3].area() == w1 * h2);
    assert(w0 * h0 + w1 * h0 + w0 * h2 + w1 * h2 == (w0 + w1) * (h0 + h2))
        by (nonlinear_arith);
}

/// Area of a region, as the product of its width and height.
pub fn calc_area(rect: &Rect) -> (a: u32)
    requires
        rect.wf(),
        rect.area() <= u32::MAX,
    ensures
        a == rect.area(),
{
    proof {
        assert(rect.width() <= rect.width() * rect.height()) by (nonlinear_arith)
            requires rect.height() >= 1 && rect.width() >= 0;
        assert(rect.height() <= rect.width() * rect.height()) by (nonlinear_arith)
            requires rect.width() >= 1 && rect.height() >= 0;
    }
    (rect.right - rect.left + 1) * (rect.bottom - rect.top + 1)
}

} // verus!
