use quads::geometry::{calc_area, Rect};
use quads::math::{iroot5, isqrt};
use quads::quad::{create_quad, Quad, Score, score_gt, MIN_SIZE};
use quads::raster::{Image, Rgba8};
use quads::stats::{calc_color_and_error, get_rect_color, ERR_ONE};

fn gray(v: u8) -> Rgba8 {
    Rgba8 { r: v, g: v, b: v, a: 255 }
}

fn checker2x2() -> Image {
    // (0,0) black, (1,0) white, (0,1) white, (1,1) black
    let pixels = vec![gray(0), gray(255), gray(255), gray(0)];
    Image::from_pixels(2, 2, pixels).unwrap()
}

#[test]
fn split_even_dimensions_tiles_parent() {
    let r = Rect { left: 0, right: 9, top: 0, bottom: 9 };
    let c = r.split();
    assert_eq!(c[0], Rect { left: 0, right: 3, top: 0, bottom: 3 });
    assert_eq!(c[1], Rect { left: 4, right: 9, top: 0, bottom: 3 });
    assert_eq!(c[2], Rect { left: 0, right: 3, top: 4, bottom: 9 });
    assert_eq!(c[3], Rect { left: 4, right: 9, top: 4, bottom: 9 });
    let total: u32 = c.iter().map(|k| calc_area(k)).sum();
    assert_eq!(total, calc_area(&r));
}

#[test]
fn split_odd_dimensions_tiles_parent() {
    let r = Rect { left: 0, right: 6, top: 0, bottom: 4 };
    let c = r.split();
    assert_eq!(c[0], Rect { left: 0, right: 2, top: 0, bottom: 1 });
    assert_eq!(c[1], Rect { left: 3, right: 6, top: 0, bottom: 1 });
    assert_eq!(c[2], Rect { left: 0, right: 2, top: 2, bottom: 4 });
    assert_eq!(c[3], Rect { left: 3, right: 6, top: 2, bottom: 4 });
    let total: u32 = c.iter().map(|k| calc_area(k)).sum();
    assert_eq!(total, calc_area(&r));
    // no gaps and no overlaps: each parent point lies in exactly one child
    for y in 0..=4u32 {
        for x in 0..=6u32 {
            let mut covered = 0;
            for k in c.iter() {
                if k.left <= x && x <= k.right && k.top <= y && y <= k.bottom {
                    covered += 1;
                }
            }
            assert_eq!(covered, 1);
        }
    }
}

#[test]
fn split_offset_region() {
    let r = Rect { left: 10, right: 14, top: 20, bottom: 26 };
    let c = r.split();
    assert_eq!(c[0], Rect { left: 10, right: 11, top: 20, bottom: 22 });
    assert_eq!(c[3], Rect { left: 12, right: 14, top: 23, bottom: 26 });
}

#[test]
fn calc_area_values() {
    assert_eq!(calc_area(&Rect { left: 3, right: 3, top: 7, bottom: 7 }), 1);
    assert_eq!(calc_area(&Rect { left: 2, right: 5, top: 3, bottom: 4 }), 8);
    assert_eq!(calc_area(&Rect { left: 0, right: 63, top: 0, bottom: 63 }), 4096);
}

#[test]
fn isqrt_values() {
    assert_eq!(isqrt(0), 0);
    assert_eq!(isqrt(1), 1);
    assert_eq!(isqrt(15), 3);
    assert_eq!(isqrt(16), 4);
    assert_eq!(isqrt(260100), 510);
    assert_eq!(isqrt(1117120993689600), 33423360);
    assert_eq!(isqrt(u128::MAX), u64::MAX as u128);
}

#[test]
fn iroot5_values() {
    assert_eq!(iroot5(0), 0);
    assert_eq!(iroot5(1), 1);
    assert_eq!(iroot5(31), 1);
    assert_eq!(iroot5(32), 2);
    assert_eq!(iroot5(242), 2);
    assert_eq!(iroot5(243), 3);
}

#[test]
fn histogram_counts_checker() {
    let img = checker2x2();
    let r = Rect { left: 0, right: 1, top: 0, bottom: 1 };
    let hist = get_rect_color(&img, &r, 0);
    assert_eq!(hist.len(), 256);
    assert_eq!(hist[0], 2);
    assert_eq!(hist[255], 2);
    assert_eq!(hist[7], 0);
    assert_eq!(hist[128], 0);
}

#[test]
fn histogram_subregion() {
    let img = checker2x2();
    let r = Rect { left: 0, right: 0, top: 0, bottom: 1 };
    let hist = get_rect_color(&img, &r, 0);
    assert_eq!(hist[0], 1);
    assert_eq!(hist[255], 1);
}

#[test]
fn estimator_uniform_region() {
    let img = Image::new_filled(8, 8, gray(77));
    let r = Rect { left: 0, right: 7, top: 0, bottom: 7 };
    for chan in 0..3usize {
        let s = calc_color_and_error(&img, &r, chan);
        assert_eq!(s.color, 77);
        assert_eq!(s.error, 0);
    }
}

#[test]
fn estimator_half_black_half_white() {
    let img = checker2x2();
    let r = Rect { left: 0, right: 1, top: 0, bottom: 1 };
    let s = calc_color_and_error(&img, &r, 0);
    // mean 127.5 truncates to 127; deviation 127.5 in ERR_ONE fixed point
    assert_eq!(s.color, 127);
    assert_eq!(s.error, 127 * ERR_ONE + ERR_ONE / 2);
    assert_eq!(s.error, 8355840);
}

#[test]
fn image_accessors_roundtrip() {
    let mut img = Image::new_filled(3, 2, gray(5));
    img.put_pixel(2, 1, Rgba8 { r: 1, g: 2, b: 3, a: 255 });
    assert_eq!(img.get_pixel(2, 1), Rgba8 { r: 1, g: 2, b: 3, a: 255 });
    assert_eq!(img.get_pixel(0, 0), gray(5));
    assert_eq!(img.get_pixel(1, 1), gray(5));
}

#[test]
fn from_pixels_rejects_bad_shapes() {
    assert!(Image::from_pixels(0, 4, vec![]).is_none());
    assert!(Image::from_pixels(4, 0, vec![]).is_none());
    assert!(Image::from_pixels(2, 2, vec![gray(0); 3]).is_none());
    assert!(Image::from_pixels(2, 2, vec![gray(0); 4]).is_some());
}

#[test]
fn small_region_is_excluded() {
    let img = Image::new_filled(16, 16, gray(9));
    // width 4 <= MIN_SIZE
    let q = create_quad(&img, Rect { left: 0, right: 3, top: 0, bottom: 9 });
    assert_eq!(q.score, Score::Excluded);
    // height 4 <= MIN_SIZE
    let q = create_quad(&img, Rect { left: 0, right: 9, top: 0, bottom: 3 });
    assert_eq!(q.score, Score::Excluded);
    assert_eq!(MIN_SIZE, 4);
}

#[test]
fn noisy_region_outranks_excluded_and_uniform() {
    // left half uniform, right half alternating black/white
    let mut img = Image::new_filled(12, 8, gray(100));
    for y in 0..8u32 {
        for x in 6..12u32 {
            let v = if (x + y) % 2 == 0 { 0 } else { 255 };
            img.put_pixel(x, y, gray(v));
        }
    }
    let uniform = create_quad(&img, Rect { left: 0, right: 5, top: 0, bottom: 7 });
    let noisy = create_quad(&img, Rect { left: 6, right: 11, top: 0, bottom: 7 });
    let small = create_quad(&img, Rect { left: 0, right: 2, top: 0, bottom: 7 });
    assert_eq!(uniform.score, Score::Eligible(0));
    match noisy.score {
        Score::Eligible(v) => assert!(v > 0),
        Score::Excluded => panic!("noisy region must be eligible"),
    }
    assert_eq!(small.score, Score::Excluded);
    assert!(score_gt(&noisy.score, &uniform.score));
    assert!(score_gt(&noisy.score, &small.score));
    assert!(score_gt(&uniform.score, &small.score));
    assert!(!score_gt(&small.score, &uniform.score));
}

#[test]
fn quad_color_is_opaque_average() {
    let mut img = Image::new_filled(6, 6, Rgba8 { r: 10, g: 20, b: 30, a: 0 });
    img.put_pixel(0, 0, Rgba8 { r: 10, g: 20, b: 30, a: 0 });
    let q: Quad = create_quad(&img, Rect { left: 0, right: 5, top: 0, bottom: 5 });
    assert_eq!(q.color, Rgba8 { r: 10, g: 20, b: 30, a: 255 });
}
