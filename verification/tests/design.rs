use nhdesigngen::color::{NHColor, NHPaletteItem};
use nhdesigngen::design::Design;
use nhdesigngen::error::Error;
use nhdesigngen::quant::Optimizer;
use nhdesigngen::remap::Ditherer;
use nhdesigngen::window::Window;

fn square(pixels: &[(u8, u8, u8, u8)], side: usize) -> (Vec<(u8, u8, u8, u8)>, (usize, usize)) {
    (pixels.to_vec(), (side, side))
}

#[test]
fn default_design_has_sixteen_slot_palette() {
    let d = Design::default();
    let palette = d.palette();
    assert_eq!(palette.len(), 16);
    assert_eq!(palette[15], NHPaletteItem::Transparent);
    for i in 0..15 {
        assert_eq!(palette[i], NHPaletteItem::Color(NHColor { h: 0, s: 0, v: 0 }));
    }
    assert_eq!(d.dimensions(), (1, 1));
}

#[test]
fn load_image_rejects_dimension_mismatch() {
    let mut d = Design::default();
    let (pixels, dims) = square(&[(1, 2, 3, 255), (4, 5, 6, 255), (7, 8, 9, 255)], 2);
    let r = d.load_image(pixels, dims);
    assert_eq!(r, Err(Error::DimensionMismatch));
    // nothing changed
    assert_eq!(d.dimensions(), (1, 1));
}

#[test]
fn load_image_rejects_oversized_image() {
    let mut d = Design::default();
    let pixels: Vec<(u8, u8, u8, u8)> = vec![(0, 0, 0, 255); 65 * 64];
    let r = d.load_image(pixels, (65, 64));
    assert_eq!(r, Err(Error::SizeLimitExceeded));
    assert_eq!(d.dimensions(), (1, 1));
}

#[test]
fn load_image_checks_dimensions_before_size() {
    let mut d = Design::default();
    // both wrong: the dimension mismatch wins
    let pixels: Vec<(u8, u8, u8, u8)> = vec![(0, 0, 0, 255); 10];
    assert_eq!(d.load_image(pixels, (65, 64)), Err(Error::DimensionMismatch));
}

#[test]
fn load_image_accepts_a_full_size_image() {
    let mut d = Design::default();
    let pixels: Vec<(u8, u8, u8, u8)> = vec![(12, 34, 56, 255); 64 * 64];
    assert_eq!(d.load_image(pixels, (64, 64)), Ok(()));
    assert_eq!(d.dimensions(), (64, 64));
}

#[test]
fn load_image_accepts_an_empty_image() {
    let mut d = Design::default();
    assert_eq!(d.load_image(Vec::new(), (0, 0)), Ok(()));
    assert_eq!(d.dimensions(), (0, 0));
    let out = d.generate(Ditherer::NoDither);
    assert_eq!(out.len(), 0);
}

#[test]
fn load_histogram_rejects_oversized_buffer() {
    let mut d = Design::default();
    let big: Vec<(u8, u8, u8, u8)> = vec![(1, 1, 1, 255); 4097];
    assert_eq!(d.load_histogram(vec![big]), Err(Error::SizeLimitExceeded));
}

#[test]
fn load_histogram_accepts_the_cap_exactly() {
    let mut d = Design::default();
    let full: Vec<(u8, u8, u8, u8)> = vec![(1, 1, 1, 255); 4096];
    assert_eq!(d.load_histogram(vec![full]), Ok(()));
}

#[test]
fn load_histogram_image_order_is_irrelevant() {
    let a: Vec<(u8, u8, u8, u8)> = vec![(1, 1, 1, 255), (1, 1, 1, 255), (2, 2, 2, 255)];
    let b: Vec<(u8, u8, u8, u8)> = vec![(2, 2, 2, 255), (3, 3, 3, 128)];
    let c: Vec<(u8, u8, u8, u8)> = vec![(9, 9, 9, 0), (1, 1, 1, 255)];

    let mut d1 = Design::default();
    assert_eq!(d1.load_histogram(vec![a.clone(), b.clone(), c.clone()]), Ok(()));
    let mut d2 = Design::default();
    assert_eq!(d2.load_histogram(vec![c, a, b]), Ok(()));

    for t in [(1u8, 1u8, 1u8, 255u8), (2, 2, 2, 255), (3, 3, 3, 128), (9, 9, 9, 0)] {
        let color = nhdesigngen::color::Color::new(t.0, t.1, t.2, t.3);
        assert_eq!(d1.histogram.count_of(&color), d2.histogram.count_of(&color));
    }
    assert_eq!(d1.histogram.count_of(&nhdesigngen::color::Color::new(1, 1, 1, 255)), 3);
}

#[test]
fn optimize_palette_standard_mode_yields_sixteen_entries() {
    let mut d = Design::default();
    let image: Vec<(u8, u8, u8, u8)> =
        vec![(255, 0, 0, 255), (0, 255, 0, 255), (0, 0, 255, 255), (7, 7, 7, 255)];
    assert_eq!(d.load_histogram(vec![image]), Ok(()));
    d.optimize_palette(Optimizer::KMeans);
    let palette = d.palette();
    assert_eq!(palette.len(), 16);
    assert_eq!(palette[15], NHPaletteItem::Transparent);
    for i in 0..15 {
        assert!(matches!(palette[i], NHPaletteItem::Color(_)));
    }
}

#[test]
fn optimize_palette_survives_an_empty_histogram() {
    let mut d = Design::default();
    assert_eq!(d.load_histogram(vec![]), Ok(()));
    d.optimize_palette(Optimizer::WeightedKMeans);
    assert_eq!(d.palette().len(), 16);
    assert_eq!(d.palette()[15], NHPaletteItem::Transparent);
}

#[test]
fn pro_mode_reserves_the_last_slot() {
    let mut d = Design::default();
    let image: Vec<(u8, u8, u8, u8)> = vec![(200, 10, 10, 255), (10, 200, 10, 255)];
    assert_eq!(d.load_histogram(vec![image]), Ok(()));
    d.optimize_palette_pro(Optimizer::KMeans, 32);
    assert_eq!(d.palette().len(), 32);
    assert_eq!(d.palette()[31], NHPaletteItem::Transparent);
    for i in 0..31 {
        assert!(matches!(d.palette()[i], NHPaletteItem::Color(_)));
    }
}

#[test]
fn generate_output_length_and_range() {
    let mut d = Design::default();
    let pixels: Vec<(u8, u8, u8, u8)> = vec![
        (255, 0, 0, 255),
        (0, 255, 0, 255),
        (0, 0, 255, 255),
        (20, 20, 20, 255),
        (200, 200, 0, 128),
        (0, 0, 0, 0),
    ];
    assert_eq!(d.load_image(pixels.clone(), (3, 2)), Ok(()));
    assert_eq!(d.load_histogram(vec![pixels]), Ok(()));
    d.optimize_palette(Optimizer::KMeans);
    for ditherer in [
        Ditherer::NoDither,
        Ditherer::FloydSteinberg,
        Ditherer::FloydSteinbergVanilla,
        Ditherer::FloydSteinbergCheckered,
        Ditherer::Ordered,
    ] {
        let out = d.generate(ditherer);
        assert_eq!(out.len(), 6);
        for b in &out {
            assert!((*b as usize) < d.palette().len());
        }
    }
}

#[test]
fn transparent_pixels_hit_the_transparent_slot_under_every_ditherer() {
    let mut d = Design::default();
    let pixels: Vec<(u8, u8, u8, u8)> = vec![
        (250, 10, 10, 255),
        (10, 10, 250, 0),
        (99, 99, 99, 0),
        (10, 250, 10, 255),
        (0, 0, 0, 0),
        (130, 10, 200, 255),
    ];
    assert_eq!(d.load_image(pixels.clone(), (2, 3)), Ok(()));
    assert_eq!(d.load_histogram(vec![pixels]), Ok(()));
    d.optimize_palette(Optimizer::WeightedKMeans);
    for ditherer in [
        Ditherer::NoDither,
        Ditherer::FloydSteinberg,
        Ditherer::FloydSteinbergVanilla,
        Ditherer::FloydSteinbergCheckered,
        Ditherer::Ordered,
    ] {
        let out = d.generate(ditherer);
        assert_eq!(out[1], 15);
        assert_eq!(out[2], 15);
        assert_eq!(out[4], 15);
        assert_ne!(out[0], 15);
    }
}

#[test]
fn generate_is_repeatable() {
    let mut d = Design::default();
    let pixels: Vec<(u8, u8, u8, u8)> =
        vec![(250, 10, 10, 255), (10, 250, 10, 255), (10, 10, 250, 255), (1, 2, 3, 255)];
    assert_eq!(d.load_image(pixels.clone(), (2, 2)), Ok(()));
    assert_eq!(d.load_histogram(vec![pixels]), Ok(()));
    d.optimize_palette(Optimizer::KMeans);
    let first = d.generate(Ditherer::FloydSteinberg);
    let second = d.generate(Ditherer::FloydSteinberg);
    assert_eq!(first, second);
}

#[test]
fn end_to_end_red_and_blue() {
    let mut d = Design::default();
    let pixels: Vec<(u8, u8, u8, u8)> =
        vec![(255, 0, 0, 255), (255, 0, 0, 255), (0, 0, 255, 255), (0, 0, 0, 0)];
    assert_eq!(d.load_image(pixels.clone(), (2, 2)), Ok(()));
    assert_eq!(d.load_histogram(vec![pixels]), Ok(()));
    d.optimize_palette(Optimizer::KMeans);

    let palette = d.palette();
    assert_eq!(palette.len(), 16);
    let red_q = NHPaletteItem::Color(NHColor { h: 0, s: 14, v: 14 });
    let blue_q = NHPaletteItem::Color(NHColor { h: 20, s: 14, v: 14 });
    let mut i_red: Option<u8> = None;
    let mut i_blue: Option<u8> = None;
    for i in 0..15 {
        if palette[i] == red_q && i_red.is_none() {
            i_red = Some(i as u8);
        }
        if palette[i] == blue_q && i_blue.is_none() {
            i_blue = Some(i as u8);
        }
    }
    let i_red = i_red.expect("a palette slot converged near red");
    let i_blue = i_blue.expect("a palette slot converged near blue");

    let out = d.generate_named("none").expect("none is a recognized ditherer");
    assert_eq!(out, vec![i_red, i_red, i_blue, 15]);
}

#[test]
fn unknown_strategy_names_fail() {
    let mut d = Design::default();
    assert_eq!(d.optimize_palette_named("fancykmeans"), Err(Error::UnknownStrategy));
    assert!(matches!(d.generate_named("bayer16"), Err(Error::UnknownStrategy)));
    assert_eq!(d.optimize_palette_named("kmeans"), Ok(()));
    assert_eq!(d.optimize_palette_named("weightedkmeans"), Ok(()));
    for name in ["none", "floydsteinberg", "floydsteinbergvanilla", "floydsteinbergcheckered",
        "ordered"] {
        assert!(d.generate_named(name).is_ok());
    }
}

#[test]
fn window_update_mirrors_the_design() {
    let mut d = Design::default();
    let pixels: Vec<(u8, u8, u8, u8)> = vec![(250, 10, 10, 255); 9];
    assert_eq!(d.load_image(pixels.clone(), (3, 3)), Ok(()));
    assert_eq!(d.load_histogram(vec![pixels]), Ok(()));
    d.optimize_palette(Optimizer::KMeans);
    let mut w = Window::new(d);
    assert_eq!(w.width, 3);
    assert_eq!(w.height, 3);
    assert_eq!(w.palette_rgba.len(), 16);
    // the transparent slot decodes to the canonical zero color
    assert_eq!(w.palette_rgba[15].a, 0);
    // refreshing without changes keeps the same view
    let before = w.palette_rgba.clone();
    w.update();
    assert_eq!(w.palette_rgba, before);
}
