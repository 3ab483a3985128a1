use nhdesigngen::color::Color;
use nhdesigngen::histogram::Histogram;

fn colors(raw: &[(u8, u8, u8, u8)]) -> Vec<Color> {
    let mut v: Vec<Color> = Vec::new();
    for t in raw {
        v.push(Color::new(t.0, t.1, t.2, t.3));
    }
    v
}

#[test]
fn new_histogram_is_empty() {
    let h = Histogram::new();
    assert_eq!(h.count_of(&Color::new(1, 2, 3, 4)), 0);
    assert_eq!(h.entries().len(), 0);
}

#[test]
fn accumulate_counts_opaque_pixels_and_skips_transparent() {
    let mut h = Histogram::new();
    let red = Color::new(255, 0, 0, 255);
    let blue = Color::new(0, 0, 255, 255);
    let ghost = Color::new(9, 9, 9, 0);
    h.accumulate(&colors(&[(255, 0, 0, 255), (0, 0, 255, 255), (255, 0, 0, 255), (9, 9, 9, 0)]));
    assert_eq!(h.count_of(&red), 2);
    assert_eq!(h.count_of(&blue), 1);
    assert_eq!(h.count_of(&ghost), 0);
    assert_eq!(h.entries().len(), 2);
}

#[test]
fn semi_transparent_pixels_keep_their_alpha_as_part_of_the_key() {
    let mut h = Histogram::new();
    h.accumulate(&colors(&[(10, 20, 30, 128), (10, 20, 30, 255)]));
    assert_eq!(h.count_of(&Color::new(10, 20, 30, 128)), 1);
    assert_eq!(h.count_of(&Color::new(10, 20, 30, 255)), 1);
}

#[test]
fn merge_is_order_independent() {
    let a: Vec<Color> = colors(&[(1, 1, 1, 255), (2, 2, 2, 255), (1, 1, 1, 255)]);
    let b: Vec<Color> = colors(&[(2, 2, 2, 255), (3, 3, 3, 255), (0, 0, 0, 0)]);

    let mut ab = Histogram::new();
    ab.accumulate(&a);
    ab.accumulate(&b);

    let mut ba = Histogram::new();
    ba.accumulate(&b);
    ba.accumulate(&a);

    let mut concat = Histogram::new();
    let mut joined = a.clone();
    joined.extend_from_slice(&b);
    concat.accumulate(&joined);

    for t in [(1u8, 1u8, 1u8, 255u8), (2, 2, 2, 255), (3, 3, 3, 255), (0, 0, 0, 0)] {
        let c = Color::new(t.0, t.1, t.2, t.3);
        assert_eq!(ab.count_of(&c), ba.count_of(&c));
        assert_eq!(ab.count_of(&c), concat.count_of(&c));
    }
    assert_eq!(ab.count_of(&Color::new(1, 1, 1, 255)), 2);
    assert_eq!(ab.count_of(&Color::new(2, 2, 2, 255)), 2);
    assert_eq!(ab.count_of(&Color::new(3, 3, 3, 255)), 1);
}
