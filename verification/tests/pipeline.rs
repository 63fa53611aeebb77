use ascii_art::constants::ENGLISH;
use ascii_art::glyph::FontError;
use ascii_art::grid::PixelGrid;
use ascii_art::img_to_colorful_img::{colorful_block_cell, img_to_colorful_img};
use ascii_art::img_to_img::img_to_img;
use ascii_art::utils::{get_char, sub_image_mean, write_text, Mean};

fn load_font() -> Vec<u8> {
    let mut db = fontdb::Database::new();
    db.load_fonts_dir("/usr/share/fonts/truetype/dejavu");
    let face = db
        .faces()
        .find(|f| f.post_script_name == "DejaVuSans")
        .or_else(|| db.faces().next())
        .expect("no system font found")
        .id;
    db.with_face_data(face, |data, _| data.to_vec()).expect("font data unreadable")
}

fn assert_cell_matches(out: &PixelGrid, reference: &PixelGrid, x0: usize, y0: usize) {
    for dy in 0..reference.height() {
        for dx in 0..reference.width() {
            assert_eq!(out.get(x0 + dx, y0 + dy), reference.get(dx, dy));
        }
    }
}

#[test]
fn img_to_img_test_img_to_img() {
    // A 24x24 solid-black image in light mode with the set "Aa": mean 0 picks
    // 'A', drawn black-on-white in all four 12x12 cells.
    let font = load_font();
    let img = PixelGrid::new(24, 24, 0, 0, 0);
    let out = img_to_img(&img, "Aa", Some([12, 12]), false, &font).unwrap();
    assert_eq!(out.width(), 24);
    assert_eq!(out.height(), 24);
    let mut reference = PixelGrid::new(12, 12, 255, 255, 255);
    write_text("A", &mut reference, 0, 0, &font, false, [12, 12], None).unwrap();
    for i in 0..2 {
        for j in 0..2 {
            assert_cell_matches(&out, &reference, i * 12, j * 12);
        }
    }
    // The glyph must actually be drawn: the cell is not all background.
    let mut saw_dark = false;
    for dy in 0..12 {
        for dx in 0..12 {
            if reference.get(dx, dy) != (255, 255, 255) {
                saw_dark = true;
            }
        }
    }
    assert!(saw_dark);
}

#[test]
fn dark_mode_white_image() {
    // A 24x24 solid-white image in dark mode: mean 255 picks 'a', drawn
    // white-on-black in all four cells.
    let font = load_font();
    let img = PixelGrid::new(24, 24, 255, 255, 255);
    let out = img_to_img(&img, "Aa", Some([12, 12]), true, &font).unwrap();
    let mut reference = PixelGrid::new(12, 12, 0, 0, 0);
    write_text("a", &mut reference, 0, 0, &font, true, [12, 12], None).unwrap();
    for i in 0..2 {
        for j in 0..2 {
            assert_cell_matches(&out, &reference, i * 12, j * 12);
        }
    }
    let mut saw_light = false;
    for dy in 0..12 {
        for dx in 0..12 {
            if reference.get(dx, dy) != (0, 0, 0) {
                saw_light = true;
            }
        }
    }
    assert!(saw_light);
}

#[test]
fn img_to_colorful_img_test_img_to_img() {
    // A 12x12 image of solid (200, 100, 50) is one block: the cell background
    // is exactly that color, with a black glyph for mean (200+100+50)/3.
    let font = load_font();
    let img = PixelGrid::new(12, 12, 200, 100, 50);
    let out = img_to_colorful_img(&img, ENGLISH, Some([12, 12]), &font).unwrap();
    assert_eq!(out.width(), 12);
    assert_eq!(out.height(), 12);
    let expected_char = get_char(ENGLISH, Mean { sum: 200 + 100 + 50, den: 3 });
    assert_eq!(expected_char, 'M');
    let mut reference = PixelGrid::new(12, 12, 200, 100, 50);
    write_text("M", &mut reference, 0, 0, &font, false, [12, 12], Some([0, 0, 0])).unwrap();
    assert_cell_matches(&out, &reference, 0, 0);
    // The fill color shows through around the glyph.
    let mut fill_pixels = 0;
    for dy in 0..12 {
        for dx in 0..12 {
            if out.get(dx, dy) == (200, 100, 50) {
                fill_pixels += 1;
            }
        }
    }
    assert!(fill_pixels > 0);
}

#[test]
fn border_pixels_keep_background() {
    // 25x30 with 12x12 blocks: only [0,24) x [0,24) is covered; the right
    // column and bottom rows keep the white background.
    let font = load_font();
    let img = PixelGrid::new(25, 30, 100, 100, 100);
    let out = img_to_img(&img, ENGLISH, Some([12, 12]), false, &font).unwrap();
    for y in 0..30 {
        assert_eq!(out.get(24, y), (255, 255, 255));
    }
    for y in 24..30 {
        for x in 0..25 {
            assert_eq!(out.get(x, y), (255, 255, 255));
        }
    }
}

#[test]
fn image_smaller_than_one_block() {
    // 5x5 with 12x12 blocks: zero blocks, output entirely background, no
    // error even with unparseable font bytes.
    let img = PixelGrid::new(5, 5, 1, 2, 3);
    let bogus = vec![1u8, 2, 3];
    let out = img_to_img(&img, "Aa", Some([12, 12]), false, &bogus).unwrap();
    for y in 0..5 {
        for x in 0..5 {
            assert_eq!(out.get(x, y), (255, 255, 255));
        }
    }
    let out2 = img_to_colorful_img(&img, "Aa", Some([12, 12]), &bogus).unwrap();
    for y in 0..5 {
        for x in 0..5 {
            assert_eq!(out2.get(x, y), (0, 0, 0));
        }
    }
}

#[test]
fn bad_font_is_reported() {
    let img = PixelGrid::new(24, 24, 0, 0, 0);
    let bogus = vec![0u8; 16];
    let res = img_to_img(&img, "Aa", Some([12, 12]), false, &bogus);
    assert_eq!(res.err(), Some(FontError));
    let res2 = img_to_colorful_img(&img, "Aa", Some([12, 12]), &bogus);
    assert_eq!(res2.err(), Some(FontError));
}

#[test]
fn default_block_size_is_twelve() {
    let font = load_font();
    let img = PixelGrid::new(24, 24, 0, 0, 0);
    let with_default = img_to_img(&img, "Aa", None, false, &font).unwrap();
    let explicit = img_to_img(&img, "Aa", Some([12, 12]), false, &font).unwrap();
    for y in 0..24 {
        for x in 0..24 {
            assert_eq!(with_default.get(x, y), explicit.get(x, y));
        }
    }
}

#[test]
fn test_write_text() {
    let font = load_font();
    let mut img = PixelGrid::new(100, 100, 0, 0, 0);
    write_text("H", &mut img, 10, 10, &font, false, [10, 10], Some([255, 0, 0])).unwrap();
    // The glyph is red-on-black and stays inside its cell.
    for y in 0..100 {
        for x in 0..100 {
            let p = img.get(x, y);
            if x < 10 || x >= 20 || y < 10 || y >= 20 {
                assert_eq!(p, (0, 0, 0));
            } else {
                assert_eq!(p.1, p.2);
            }
        }
    }
}

#[test]
fn crop() {
    let font = load_font();
    let mut img = PixelGrid::new(100, 100, 0, 0, 0);
    write_text("H", &mut img, 10, 10, &font, false, [10, 10], Some([255, 255, 255])).unwrap();
    let r = sub_image_mean(&img, 10, 10, 10, 10);
    println!("{}", r.sum as f64 / r.den as f64);
    let c = get_char("AaBbCcDdEeFfGgHhIiJjKkLlMmNnOoPpQqRrSsTtUuVvWwXxYyZz", r);
    println!("{}", c);
}

#[test]
fn block_cell_matches_pipeline() {
    // Rendering one block on its own gives exactly that block of the full
    // colorful rendering.
    let font = load_font();
    let mut data: Vec<u8> = Vec::new();
    for _y in 0..12 {
        for x in 0..24 {
            if x < 12 {
                data.extend_from_slice(&[200, 100, 50]);
            } else {
                data.extend_from_slice(&[10, 20, 30]);
            }
        }
    }
    let img = PixelGrid::from_raw(24, 12, data);
    let out = img_to_colorful_img(&img, ENGLISH, Some([12, 12]), &font).unwrap();
    for i in 0..2u32 {
        let cell = colorful_block_cell(&img, ENGLISH, 12, 12, i, 0, &font).unwrap();
        assert_eq!(cell.width(), 12);
        assert_eq!(cell.height(), 12);
        assert_cell_matches(&out, &cell, i as usize * 12, 0);
    }
}
