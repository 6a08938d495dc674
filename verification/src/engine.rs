//! The decomposition engine: a collection of scored quads tiling the image,
//! refined one split at a time.

use vstd::prelude::*;
use crate::geometry::{Rect, lemma_split_children_wf, lemma_split_partition};
use crate::raster::{Image, Rgba8};
use crate::quad::{Quad, Score, score_lt, score_le, score_gt, quad_spec, create_quad};
use crate::render::{render, rendered_pix};

verus! {

/// The index the linear scan selects among the first n quads: the earliest
/// maximum, later quads winning only by strictly outranking it.
pub open spec fn best_index_spec(s: Seq<Quad>, n: int) -> int
    decreases n,
{
    if n <= 1 {
        0
    } else {
        let b = best_index_spec(s, n - 1);
        if score_lt(s[b].score, s[n - 1].score) {
            n - 1
        } else {
            b
        }
    }
}

/// The selected index is valid and outranks or ties every scanned quad.
pub proof fn lemma_best_index_props(s: Seq<Quad>, n: int)
    requires
        1 <= n <= s.len(),
    ensures
        0 <= best_index_spec(s, n) < n,
        forall|j: int| 0 <= j < n ==> score_le(#[trigger] s[j].score, s[best_index_spec(s, n)].score),
    decreases n,
{
    if n > 1 {
        lemma_best_index_props(s, n - 1);
    }
}

/// Linear scan for the highest-scoring quad; the first of equally ranked
/// quads wins.
pub fn find_best(heap: &Vec<Quad>) -> (i: usize)
    requires
        heap@.len() >= 1,
    ensures
        i < heap@.len(),
        i == best_index_spec(heap@, heap@.len() as int),
{
    let mut best_i: usize = 0;
    let mut i: usize = 1;
    while i < heap.len()
        invariant
            1 <= i <= heap@.len(),
            best_i < i,
            best_i == best_index_spec(heap@, i as int),
        decreases heap@.len() - i,
    {
        if score_gt(&heap[i].score, &heap[best_i].score) {
            best_i = i;
        }
        i = i + 1;
        proof {
            assert(best_index_spec(heap@, i as int) == {
                let b = best_index_spec(heap@, i as int - 1);
                if score_lt(heap@[b].score, heap@[i as int - 1].score) {
                    i as int - 1
                } else {
                    b
                }
            });
        }
    }
    proof {
        lemma_best_index_props(heap@, heap@.len() as int);
    }
    best_i
}

/// Selects the highest-scoring quad, splits its region, scores and renders
/// the four children, and returns them to the collection.
pub fn draw(src: &Image, dst: &mut Image, heap: &mut Vec<Quad>)
    requires
        src.wf(),
        old(dst).wf(),
        old(dst).width == src.width,
        old(dst).height == src.height,
        old(heap)@.len() >= 1,
        forall|k: int| 0 <= k < old(heap)@.len()
            ==> src.contains_rect((#[trigger] old(heap)@[k]).rect),
        old(heap)@[best_index_spec(old(heap)@, old(heap)@.len() as int)].rect.splittable(),
    ensures
        final(dst).wf(),
        final(dst).width == src.width,
        final(dst).height == src.height,
        final(heap)@.len() == old(heap)@.len() + 3,
        ({
            let b = best_index_spec(old(heap)@, old(heap)@.len() as int);
            let kids = old(heap)@[b].rect.split_spec();
            &&& final(heap)@ == old(heap)@.update(b, old(heap)@.last()).drop_last()
                .push(quad_spec(*src, kids[0])).push(quad_spec(*src, kids[1]))
                .push(quad_spec(*src, kids[2])).push(quad_spec(*src, kids[3]))
            &&& forall|x: int, y: int| final(dst).in_bounds(x, y)
                ==> #[trigger] final(dst).pix(x, y) == if kids[3].contains(x, y) {
                    rendered_pix(quad_spec(*src, kids[3]), x, y)
                } else if kids[2].contains(x, y) {
                    rendered_pix(quad_spec(*src, kids[2]), x, y)
                } else if kids[1].contains(x, y) {
                    rendered_pix(quad_spec(*src, kids[1]), x, y)
                } else if kids[0].contains(x, y) {
                    rendered_pix(quad_spec(*src, kids[0]), x, y)
                } else {
                    old(dst).pix(x, y)
                }
        }),
{
    let best_i = find_best(heap);
    let quad = heap.swap_remove(best_i);
    let ghost parent = quad.rect;
    proof {
        lemma_split_children_wf(parent);
        assert forall|i: int| 0 <= i < 4
            implies src.contains_rect(#[trigger] parent.split_spec()[i]) by {
        }
    }
    let children = quad.rect.split();
    let c0 = create_quad(src, children[0]);
    render(dst, &c0);
    heap.push(c0);
    let c1 = create_quad(src, children[1]);
    render(dst, &c1);
    heap.push(c1);
    let c2 = create_quad(src, children[2]);
    render(dst, &c2);
    heap.push(c2);
    let c3 = create_quad(src, children[3]);
    render(dst, &c3);
    heap.push(c3);
}

/// How many quads of the collection cover the point.
pub open spec fn cover_count(s: Seq<Quad>, x: int, y: int) -> int
    decreases s.len(),
{
    if s.len() == 0 {
        0
    } else {
        cover_count(s.drop_last(), x, y) + if s.last().rect.contains(x, y) {
            1int
        } else {
            0int
        }
    }
}

/// Appending a quad adds its coverage.
pub proof fn lemma_cc_push(s: Seq<Quad>, q: Quad, x: int, y: int)
    ensures
        cover_count(s.push(q), x, y) == cover_count(s, x, y) + if q.rect.contains(x, y) {
            1int
        } else {
            0int
        },
{
    assert(s.push(q).drop_last() =~= s);
    assert(s.push(q).last() == q);
}

/// Replacing a quad swaps its coverage for the new quad's.
pub proof fn lemma_cc_update(s: Seq<Quad>, i: int, q: Quad, x: int, y: int)
    requires
        0 <= i < s.len(),
    ensures
        cover_count(s.update(i, q), x, y) == cover_count(s, x, y) - (if s[i].rect.contains(x, y) {
            1int
        } else {
            0int
        }) + if q.rect.contains(x, y) {
            1int
        } else {
            0int
        },
    decreases s.len(),
{
    let t = s.update(i, q);
    if i == s.len() - 1 {
        assert(t.drop_last() =~= s.drop_last());
        assert(t.last() == q);
    } else {
        assert(t.drop_last() =~= s.drop_last().update(i, q));
        assert(t.last() == s.last());
        lemma_cc_update(s.drop_last(), i, q, x, y);
    }
}

/// Removing a quad by swapping in the last removes exactly its coverage.
pub proof fn lemma_cc_swap_remove(s: Seq<Quad>, i: int, x: int, y: int)
    requires
        0 <= i < s.len(),
    ensures
        cover_count(s.update(i, s.last()).drop_last(), x, y) == cover_count(s, x, y)
            - if s[i].rect.contains(x, y) { 1int } else { 0int },
{
    lemma_cc_update(s, i, s.last(), x, y);
    let t = s.update(i, s.last());
    assert(cover_count(t, x, y) == cover_count(t.drop_last(), x, y) + if t.last().rect.contains(x, y) {
        1int
    } else {
        0int
    });
    assert(t.last() == s.last());
}

/// Coverage counts are never negative.
pub proof fn lemma_cc_nonneg(s: Seq<Quad>, x: int, y: int)
    ensures
        cover_count(s, x, y) >= 0,
    decreases s.len(),
{
    if s.len() > 0 {
        lemma_cc_nonneg(s.drop_last(), x, y);
    }
}

/// A covering quad forces a positive count.
pub proof fn lemma_cc_one(s: Seq<Quad>, i: int, x: int, y: int)
    requires
        0 <= i < s.len(),
        s[i].rect.contains(x, y),
    ensures
        cover_count(s, x, y) >= 1,
    decreases s.len(),
{
    lemma_cc_nonneg(s.drop_last(), x, y);
    if i < s.len() - 1 {
        lemma_cc_one(s.drop_last(), i, x, y);
    }
}

/// Two covering quads force a count of at least two.
pub proof fn lemma_cc_two(s: Seq<Quad>, i: int, j: int, x: int, y: int)
    requires
        0 <= i < j < s.len(),
        s[i].rect.contains(x, y),
        s[j].rect.contains(x, y),
    ensures
        cover_count(s, x, y) >= 2,
    decreases s.len(),
{
    if j == s.len() - 1 {
        lemma_cc_one(s.drop_last(), i, x, y);
    } else {
        lemma_cc_two(s.drop_last(), i, j, x, y);
    }
}

/// A positive count names a covering quad.
pub proof fn lemma_cc_pos(s: Seq<Quad>, x: int, y: int)
    requires
        cover_count(s, x, y) >= 1,
    ensures
        exists|i: int| 0 <= i < s.len() && (#[trigger] s[i]).rect.contains(x, y),
    decreases s.len(),
{
    if s.last().rect.contains(x, y) {
        assert(s[s.len() - 1].rect.contains(x, y));
    } else {
        lemma_cc_pos(s.drop_last(), x, y);
        let i = choose|i: int|
            0 <= i < s.drop_last().len() && (#[trigger] s.drop_last()[i]).rect.contains(x, y);
        assert(s[i].rect.contains(x, y));
    }
}

/// The decomposition engine: the read-only source, the painted canvas, the
/// active collection of unresolved quads, and the step count.
pub struct Engine {
    pub src: Image,
    pub canvas: Image,
    pub heap: Vec<Quad>,
    pub steps: u32,
}

impl Engine {
    /// Every reachable engine state: the canvas matches the source's
    /// dimensions, the collection holds 1 + 3 * steps honestly scored quads,
    /// and their regions tile the image exactly, every pixel covered by
    /// exactly one quad.
    pub open spec fn wf(self) -> bool {
        &&& self.src.wf()
        &&& self.canvas.wf()
        &&& self.canvas.width == self.src.width
        &&& self.canvas.height == self.src.height
        &&& self.heap@.len() == 1 + 3 * (self.steps as int)
        &&& forall|k: int| 0 <= k < self.heap@.len()
            ==> self.src.contains_rect((#[trigger] self.heap@[k]).rect)
        &&& forall|k: int| 0 <= k < self.heap@.len()
            ==> #[trigger] self.heap@[k] == quad_spec(self.src, self.heap@[k].rect)
        &&& forall|x: int, y: int| self.src.in_bounds(x, y)
            ==> cover_count(self.heap@, x, y) == 1
    }

    /// Seeds the engine: one root quad spanning the whole image, already
    /// rendered onto a fresh canvas.
    pub fn new(src: Image) -> (e: Engine)
        requires
            src.wf(),
        ensures
            e.wf(),
            e.steps == 0,
            e.src == src,
            e.heap@.len() == 1,
            e.heap@[0] == quad_spec(src, (Rect {
                left: 0,
                right: (src.width - 1) as u32,
                top: 0,
                bottom: (src.height - 1) as u32,
            })),
            forall|x: int, y: int| e.canvas.in_bounds(x, y) ==> #[trigger] e.canvas.pix(x, y)
                == rendered_pix(e.heap@[0], x, y),
    {
        let root_rect = Rect { left: 0, right: src.width - 1, top: 0, bottom: src.height - 1 };
        let root = create_quad(&src, root_rect);
        let mut canvas = Image::new_filled(src.width, src.height, Rgba8 { r: 0, g: 0, b: 0, a: 255 });
        render(&mut canvas, &root);
        let mut heap: Vec<Quad> = Vec::new();
        heap.push(root);
        let e = Engine { src, canvas, heap, steps: 0 };
        proof {
            assert forall|x: int, y: int| e.src.in_bounds(x, y)
                implies cover_count(e.heap@, x, y) == 1 by {
                assert(e.heap@.len() == 1);
                assert(e.heap@.drop_last() =~= Seq::<Quad>::empty());
                assert(cover_count(Seq::<Quad>::empty(), x, y) == 0);
                assert(e.heap@.last() == root);
                assert(root.rect == root_rect);
                assert(root.rect.contains(x, y));
                assert(cover_count(e.heap@, x, y)
                    == cover_count(e.heap@.drop_last(), x, y) + 1);
            }
        }
        e
    }

    /// One decomposition step: the highest-priority quad is replaced by its
    /// four rendered children. Declined (leaving the state unchanged) when
    /// the selected region is too small to split, which spec-wise only
    /// happens after every region has shrunk to the exclusion size.
    pub fn step(&mut self) -> (ok: bool)
        requires
            old(self).wf(),
            old(self).steps < u32::MAX,
        ensures
            final(self).wf(),
            final(self).src == old(self).src,
            ok == old(self).heap@[best_index_spec(old(self).heap@,
                old(self).heap@.len() as int)].rect.splittable(),
            !ok ==> *final(self) == *old(self),
            ok ==> final(self).steps == old(self).steps + 1,
            ok ==> final(self).heap@.len() == old(self).heap@.len() + 3,
            ok ==> ({
                let b = best_index_spec(old(self).heap@, old(self).heap@.len() as int);
                let kids = old(self).heap@[b].rect.split_spec();
                let src = old(self).src;
                &&& final(self).heap@ == old(self).heap@.update(b, old(self).heap@.last())
                    .drop_last().push(quad_spec(src, kids[0])).push(quad_spec(src, kids[1]))
                    .push(quad_spec(src, kids[2])).push(quad_spec(src, kids[3]))
                &&& forall|x: int, y: int| final(self).canvas.in_bounds(x, y)
                    ==> #[trigger] final(self).canvas.pix(x, y) == if kids[3].contains(x, y) {
                        rendered_pix(quad_spec(src, kids[3]), x, y)
                    } else if kids[2].contains(x, y) {
                        rendered_pix(quad_spec(src, kids[2]), x, y)
                    } else if kids[1].contains(x, y) {
                        rendered_pix(quad_spec(src, kids[1]), x, y)
                    } else if kids[0].contains(x, y) {
                        rendered_pix(quad_spec(src, kids[0]), x, y)
                    } else {
                        old(self).canvas.pix(x, y)
                    }
            }),
    {
        let b = find_best(&self.heap);
        let r = self.heap[b].rect;
        proof {
            crate::raster::lemma_contained_area(self.src, r);
        }
        let w = r.right - r.left + 1;
        let h = r.bottom - r.top + 1;
        if w < 3 || h < 3 {
            return false;
        }
        let ghost s0 = self.heap@;
        let ghost bb = b as int;
        let ghost parent = s0[bb].rect;
        let ghost kids = parent.split_spec();
        let ghost src0 = self.src;
        draw(&self.src, &mut self.canvas, &mut self.heap);
        self.steps = self.steps + 1;
        proof {
            lemma_split_children_wf(parent);
            let s1 = s0.update(bb, s0.last()).drop_last();
            let q0 = quad_spec(src0, kids[0]);
            let q1 = quad_spec(src0, kids[1]);
            let q2 = quad_spec(src0, kids[2]);
            let q3 = quad_spec(src0, kids[3]);
            assert(self.heap@ == s1.push(q0).push(q1).push(q2).push(q3));
            assert forall|x: int, y: int| self.src.in_bounds(x, y)
                implies cover_count(self.heap@, x, y) == 1 by {
                lemma_cc_swap_remove(s0, bb, x, y);
                lemma_cc_push(s1, q0, x, y);
                lemma_cc_push(s1.push(q0), q1, x, y);
                lemma_cc_push(s1.push(q0).push(q1), q2, x, y);
                lemma_cc_push(s1.push(q0).push(q1).push(q2), q3, x, y);
                lemma_split_partition(parent, x, y);
                if parent.contains(x, y) {
                    assert(exists|i: int|
                        0 <= i < 4 && #[trigger] parent.split_spec()[i].contains(x, y));
                }
            }
        }
        true
    }
}

/// The tiling law: in every reachable engine state the quads' regions are
/// pairwise disjoint and together cover exactly the image's bounds.
pub proof fn lemma_tiling_invariant(e: Engine)
    requires
        e.wf(),
    ensures
        forall|x: int, y: int| e.src.in_bounds(x, y)
            ==> exists|i: int| 0 <= i < e.heap@.len() && (#[trigger] e.heap@[i]).rect.contains(x, y),
        forall|i: int, j: int, x: int, y: int|
            0 <= i < j < e.heap@.len() && #[trigger] e.heap@[i].rect.contains(x, y)
                ==> !(#[trigger] e.heap@[j].rect.contains(x, y)),
{
    assert forall|x: int, y: int| e.src.in_bounds(x, y)
        implies exists|i: int|
            0 <= i < e.heap@.len() && (#[trigger] e.heap@[i]).rect.contains(x, y) by {
        lemma_cc_pos(e.heap@, x, y);
    }
    assert forall|i: int, j: int, x: int, y: int|
        0 <= i < j < e.heap@.len() && #[trigger] e.heap@[i].rect.contains(x, y)
            implies !(#[trigger] e.heap@[j].rect.contains(x, y)) by {
        if e.heap@[j].rect.contains(x, y) {
            lemma_cc_two(e.heap@, i, j, x, y);
            assert(e.src.contains_rect(e.heap@[i].rect));
            assert(e.src.in_bounds(x, y));
        }
    }
}

} // verus!
