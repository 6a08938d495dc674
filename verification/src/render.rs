//! Painting a quad onto the canvas: solid interior, black border.

use vstd::prelude::*;
use crate::raster::{Image, Rgba8};
use crate::quad::Quad;

verus! {

/// The border color: opaque black.
pub open spec fn border_color() -> Rgba8 {
    Rgba8 { r: 0, g: 0, b: 0, a: 255 }
}

/// What a quad paints at a coordinate inside its region: the border color on
/// the region's edge, the quad's color inside.
pub open spec fn rendered_pix(q: Quad, x: int, y: int) -> Rgba8 {
    if x == q.rect.left || x == q.rect.right || y == q.rect.top || y == q.rect.bottom {
        border_color()
    } else {
        q.color
    }
}

/// Paints the quad's region onto the canvas: every border pixel black, every
/// interior pixel the quad's color, and every pixel outside the region kept.
pub fn render(img: &mut Image, quad: &Quad)
    requires
        old(img).wf(),
        old(img).contains_rect(quad.rect),
    ensures
        final(img).wf(),
        final(img).width == old(img).width,
        final(img).height == old(img).height,
        forall|x: int, y: int| final(img).in_bounds(x, y) ==> #[trigger] final(img).pix(x, y)
            == if quad.rect.contains(x, y) { rendered_pix(*quad, x, y) } else { old(img).pix(x, y) },
{
    let rect = quad.rect;
    let ghost img0 = *img;
    let mut y: u32 = rect.top;
    while y <= rect.bottom
        invariant
            img.wf(),
            img.width == img0.width,
            img.height == img0.height,
            img.contains_rect(rect),
            rect == quad.rect,
            rect.top <= y,
            y <= rect.bottom + 1,
            forall|i: int, j: int| img.in_bounds(i, j) ==> #[trigger] img.pix(i, j)
                == if rect.contains(i, j) && j < y { rendered_pix(*quad, i, j) } else { img0.pix(i, j) },
        decreases rect.bottom + 1 - y,
    {
        let mut x: u32 = rect.left;
        while x <= rect.right
            invariant
                img.wf(),
                img.width == img0.width,
                img.height == img0.height,
                img.contains_rect(rect),
                rect == quad.rect,
                rect.top <= y <= rect.bottom,
                rect.left <= x,
                x <= rect.right + 1,
                forall|i: int, j: int| img.in_bounds(i, j) ==> #[trigger] img.pix(i, j)
                    == if rect.contains(i, j) && (j < y || (j == y && i < x)) {
                        rendered_pix(*quad, i, j)
                    } else {
                        img0.pix(i, j)
                    },
            decreases rect.right + 1 - x,
        {
            if x == rect.left || x == rect.right || y == rect.top || y == rect.bottom {
                img.put_pixel(x, y, Rgba8 { r: 0, g: 0, b: 0, a: 255 });
            } else {
                img.put_pixel(x, y, quad.color);
            }
            proof {
                assert(img.pix(x as int, y as int) == rendered_pix(*quad, x as int, y as int));
            }
            x = x + 1;
        }
        y = y + 1;
    }
}

} // verus!
