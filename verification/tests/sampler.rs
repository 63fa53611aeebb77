use ascii_art::grid::PixelGrid;
use ascii_art::utils::{get_blocks_num, sub_image, sub_image_mean, sub_image_mean_rgb};

#[test]
fn uniform_block_mean_is_exact() {
    // A block filled with one color averages to exactly that color.
    let g = PixelGrid::new(24, 24, 7, 9, 11);
    let m = sub_image_mean(&g, 0, 0, 12, 12);
    assert_eq!(m.sum, (7 + 9 + 11) * 144);
    assert_eq!(m.den, 3 * 144);
    let (mr, mg, mb) = sub_image_mean_rgb(&g, 12, 0, 12, 12);
    assert_eq!(mr.sum, 7 * 144);
    assert_eq!(mg.sum, 9 * 144);
    assert_eq!(mb.sum, 11 * 144);
    assert_eq!(mr.den, 144);
    assert_eq!(mg.den, 144);
    assert_eq!(mb.den, 144);
}

#[test]
fn mixed_block_mean() {
    // Two pixels: (0,0,0) and (255,255,255); mean luminance 127.5 = 765/6.
    let data = vec![0, 0, 0, 255, 255, 255];
    let g = PixelGrid::from_raw(2, 1, data);
    let m = sub_image_mean(&g, 0, 0, 2, 1);
    assert_eq!(m.sum, 765);
    assert_eq!(m.den, 6);
}

#[test]
fn sub_image_crops() {
    let mut g = PixelGrid::new(4, 4, 1, 1, 1);
    g.set(2, 1, 50, 60, 70);
    let s = sub_image(&g, 2, 1, 2, 2);
    assert_eq!(s.width(), 2);
    assert_eq!(s.height(), 2);
    assert_eq!(s.get(0, 0), (50, 60, 70));
    assert_eq!(s.get(1, 0), (1, 1, 1));
    assert_eq!(s.get(0, 1), (1, 1, 1));
}

#[test]
fn block_grid_dimensions() {
    let g = PixelGrid::new(100, 50, 0, 0, 0);
    assert_eq!(get_blocks_num(&g, [12, 12]), (8, 4));
    let exact = PixelGrid::new(24, 36, 0, 0, 0);
    assert_eq!(get_blocks_num(&exact, [12, 12]), (2, 3));
    let small = PixelGrid::new(5, 5, 0, 0, 0);
    assert_eq!(get_blocks_num(&small, [12, 12]), (0, 0));
}

#[test]
fn raw_roundtrip() {
    let data: Vec<u8> = (0..27).collect();
    let g = PixelGrid::from_raw(3, 3, data.clone());
    assert_eq!(g.get(1, 2), (data[3 * (2 * 3 + 1)], data[3 * (2 * 3 + 1) + 1], data[3 * (2 * 3 + 1) + 2]));
    assert_eq!(g.into_raw(), data);
}
