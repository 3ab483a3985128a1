use nhdesigngen::color::{
    color_to_item, hsva_to_quantized, hsva_to_rgb, item_to_color, quantized_to_hsva, rgb_to_hsva,
    Color, NHColor, NHPaletteItem, HSVA,
};

#[test]
fn rgb_hsv_round_trip_on_sample_colors() {
    let samples: Vec<(u8, u8, u8, u8)> = vec![
        (255, 0, 0, 255),
        (0, 255, 0, 255),
        (0, 0, 255, 255),
        (255, 255, 0, 128),
        (100, 200, 50, 255),
        (200, 100, 50, 7),
        (50, 100, 200, 255),
        (1, 2, 3, 4),
        (254, 253, 255, 255),
        (17, 17, 17, 255),
        (0, 0, 0, 0),
        (255, 255, 255, 255),
        (128, 0, 128, 200),
        (0, 128, 128, 200),
        (128, 128, 0, 200),
        (240, 10, 250, 255),
    ];
    for s in samples {
        let c = Color::new(s.0, s.1, s.2, s.3);
        let h = rgb_to_hsva(&c);
        let back = hsva_to_rgb(&h);
        assert_eq!(back, c);
    }
}

#[test]
fn rgb_hsv_round_trip_exhaustive_grays_and_reds() {
    let mut v: u16 = 0;
    while v < 256 {
        let gray = Color::new(v as u8, v as u8, v as u8, 255);
        assert_eq!(hsva_to_rgb(&rgb_to_hsva(&gray)), gray);
        let red = Color::new(255, v as u8, 0, 255);
        assert_eq!(hsva_to_rgb(&rgb_to_hsva(&red)), red);
        let teal = Color::new(0, v as u8, 200, 31);
        assert_eq!(hsva_to_rgb(&rgb_to_hsva(&teal)), teal);
        v += 1;
    }
}

#[test]
fn quantized_round_trip_exhaustive() {
    let mut h: u8 = 0;
    while h < 30 {
        let mut s: u8 = 0;
        while s < 15 {
            let mut v: u8 = 0;
            while v < 15 {
                let item = NHPaletteItem::Color(NHColor { h, s, v });
                let decoded = quantized_to_hsva(&item);
                let again = hsva_to_quantized(&decoded);
                assert_eq!(again, item);
                v += 1;
            }
            s += 1;
        }
        h += 1;
    }
}

#[test]
fn transparent_round_trip() {
    let decoded = quantized_to_hsva(&NHPaletteItem::Transparent);
    assert_eq!(decoded.a_num, 0);
    assert_eq!(hsva_to_quantized(&decoded), NHPaletteItem::Transparent);
}

#[test]
fn pure_red_quantizes_to_full_saturation_step() {
    let red = Color::new(255, 0, 0, 255);
    let item = color_to_item(&red);
    assert_eq!(item, NHPaletteItem::Color(NHColor { h: 0, s: 14, v: 14 }));
    // full saturation and value are deliberately unreachable: the decoded
    // color backs off from pure red
    let back = item_to_color(&item);
    assert_eq!(back, Color::new(238, 16, 16, 255));
}

#[test]
fn pure_blue_quantizes_to_hue_twenty() {
    let blue = Color::new(0, 0, 255, 255);
    let item = color_to_item(&blue);
    assert_eq!(item, NHPaletteItem::Color(NHColor { h: 20, s: 14, v: 14 }));
    assert_eq!(item_to_color(&item), Color::new(16, 16, 238, 255));
}

#[test]
fn transparent_pixel_becomes_transparent_item() {
    let ghost = Color::new(90, 120, 33, 0);
    assert_eq!(color_to_item(&ghost), NHPaletteItem::Transparent);
    assert_eq!(item_to_color(&NHPaletteItem::Transparent), Color::new(0, 0, 0, 0));
}

#[test]
fn hue_wraps_into_range() {
    // a color with blue just above green: hue near 240 degrees
    let c = Color::new(10, 10, 250, 255);
    let h = rgb_to_hsva(&c);
    // hue numerator stays under a full turn times its denominator
    assert!(h.h_num < 360 * h.h_den);
    assert_eq!(hsva_to_rgb(&h), c);
}

#[test]
fn default_values() {
    let h = HSVA::default();
    assert_eq!(h.a_num, 1);
    assert_eq!(h.v_num, 0);
    let item = NHPaletteItem::default();
    assert_eq!(item, NHPaletteItem::Color(NHColor { h: 0, s: 0, v: 0 }));
}
