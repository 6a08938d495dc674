use quads::engine::{draw, find_best, Engine};
use quads::geometry::Rect;
use quads::quad::{create_quad, Score};
use quads::raster::{Image, Rgba8};
use quads::render::render;

fn gray(v: u8) -> Rgba8 {
    Rgba8 { r: v, g: v, b: v, a: 255 }
}

fn black() -> Rgba8 {
    Rgba8 { r: 0, g: 0, b: 0, a: 255 }
}

fn checker2x2() -> Image {
    let pixels = vec![gray(0), gray(255), gray(255), gray(0)];
    Image::from_pixels(2, 2, pixels).unwrap()
}

fn coverage(e: &Engine, x: u32, y: u32) -> usize {
    e.heap
        .iter()
        .filter(|q| {
            q.rect.left <= x && x <= q.rect.right && q.rect.top <= y && y <= q.rect.bottom
        })
        .count()
}

#[test]
fn zero_steps_renders_root_border_everywhere() {
    // a 2x2 root region consists of border pixels only, so the whole canvas
    // is black whatever the computed average color
    let e = Engine::new(checker2x2());
    assert_eq!(e.heap.len(), 1);
    assert_eq!(e.steps, 0);
    for y in 0..2u32 {
        for x in 0..2u32 {
            assert_eq!(e.canvas.get_pixel(x, y), black());
        }
    }
}

#[test]
fn collection_grows_by_three_each_step() {
    let img = Image::new_filled(64, 64, Rgba8 { r: 10, g: 20, b: 30, a: 255 });
    let mut e = Engine::new(img);
    assert_eq!(e.heap.len(), 1);
    for k in 1..=5u32 {
        let ok = e.step();
        assert!(ok);
        assert_eq!(e.steps, k);
        assert_eq!(e.heap.len(), (1 + 3 * k) as usize);
    }
}

#[test]
fn tiling_holds_after_steps() {
    let mut img = Image::new_filled(32, 24, gray(40));
    img.put_pixel(3, 3, gray(200));
    img.put_pixel(20, 10, gray(0));
    let mut e = Engine::new(img);
    for _ in 0..4 {
        assert!(e.step());
        for y in 0..24u32 {
            for x in 0..32u32 {
                assert_eq!(coverage(&e, x, y), 1);
            }
        }
    }
}

#[test]
fn uniform_image_scores_stay_flat() {
    let fill = Rgba8 { r: 90, g: 60, b: 30, a: 255 };
    let img = Image::new_filled(64, 64, fill);
    let mut e = Engine::new(img);
    for _ in 0..10 {
        assert!(e.step());
        for q in e.heap.iter() {
            match q.score {
                Score::Excluded => {}
                Score::Eligible(v) => assert_eq!(v, 0),
            }
        }
    }
    // the canvas differs from a flat image only by the black split borders
    for y in 0..64u32 {
        for x in 0..64u32 {
            let p = e.canvas.get_pixel(x, y);
            assert!(p == fill || p == black());
        }
    }
}

#[test]
fn step_declines_unsplittable_selection() {
    // a 3x3 root splits once into children of at most 2x2; every later
    // selection is too small to split and the engine stops changing state
    let img = Image::new_filled(3, 3, gray(128));
    let mut e = Engine::new(img);
    assert!(e.step());
    assert_eq!(e.heap.len(), 4);
    let before_len = e.heap.len();
    let before_steps = e.steps;
    assert!(!e.step());
    assert_eq!(e.heap.len(), before_len);
    assert_eq!(e.steps, before_steps);
}

#[test]
fn find_best_picks_strict_maximum() {
    let mut img = Image::new_filled(12, 8, gray(100));
    for y in 0..8u32 {
        for x in 6..12u32 {
            let v = if (x + y) % 2 == 0 { 0 } else { 255 };
            img.put_pixel(x, y, gray(v));
        }
    }
    let uniform = create_quad(&img, Rect { left: 0, right: 5, top: 0, bottom: 7 });
    let noisy = create_quad(&img, Rect { left: 6, right: 11, top: 0, bottom: 7 });
    let heap = vec![uniform, noisy];
    assert_eq!(find_best(&heap), 1);
    let heap = vec![noisy, uniform];
    assert_eq!(find_best(&heap), 0);
    // ties resolve to the first maximum under the scan order
    let heap = vec![uniform, uniform];
    assert_eq!(find_best(&heap), 0);
}

#[test]
fn draw_replaces_best_with_four_children() {
    let mut img = Image::new_filled(12, 8, gray(100));
    for y in 0..8u32 {
        for x in 6..12u32 {
            let v = if (x + y) % 2 == 0 { 0 } else { 255 };
            img.put_pixel(x, y, gray(v));
        }
    }
    let uniform = create_quad(&img, Rect { left: 0, right: 5, top: 0, bottom: 7 });
    let noisy = create_quad(&img, Rect { left: 6, right: 11, top: 0, bottom: 7 });
    let mut canvas = Image::new_filled(12, 8, gray(0));
    render(&mut canvas, &uniform);
    render(&mut canvas, &noisy);
    let mut heap = vec![uniform, noisy];
    draw(&img, &mut canvas, &mut heap);
    assert_eq!(heap.len(), 5);
    // the uniform quad survives; the noisy one was split
    assert_eq!(heap[0].rect, Rect { left: 0, right: 5, top: 0, bottom: 7 });
    let kids = Rect { left: 6, right: 11, top: 0, bottom: 7 }.split();
    for i in 0..4 {
        assert_eq!(heap[1 + i].rect, kids[i]);
    }
}

#[test]
fn render_paints_border_and_interior() {
    let img = Image::new_filled(8, 8, gray(100));
    let q = create_quad(&img, Rect { left: 1, right: 6, top: 1, bottom: 6 });
    let mut canvas = Image::new_filled(8, 8, gray(7));
    render(&mut canvas, &q);
    for y in 0..8u32 {
        for x in 0..8u32 {
            let p = canvas.get_pixel(x, y);
            let inside = 1 <= x && x <= 6 && 1 <= y && y <= 6;
            if !inside {
                assert_eq!(p, gray(7));
            } else if x == 1 || x == 6 || y == 1 || y == 6 {
                assert_eq!(p, black());
            } else {
                assert_eq!(p, gray(100));
            }
        }
    }
}
