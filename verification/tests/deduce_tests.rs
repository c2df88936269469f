use bgone::background::detect_background_color;
use bgone::color::{Color, ForegroundColorSpec, NormalizedColor};
use bgone::deduce::{deduce_unknown_colors, select_most_different_colors};
use bgone::fixed::UNIT;
use bgone::raster::{Raster, Rgba};
use bgone::unmix::unmix_colors;

// 0.05 in fixed-point units: the default deduction threshold.
const THRESHOLD: i64 = UNIT / 20;

fn opaque(c: Color) -> Rgba {
    Rgba::new(c.r, c.g, c.b, 255)
}

// Alpha-blend a pure color over a background at `p` percent opacity,
// rounding to the nearest 8-bit value.
fn blend8(fg: u8, bg: u8, p: i32) -> u8 {
    ((p * fg as i32 + (100 - p) * bg as i32 + 50) / 100) as u8
}

#[test]
fn test_no_unknowns() {
    let specs = vec![
        ForegroundColorSpec::Known(Color::new(255, 0, 0)),
        ForegroundColorSpec::Known(Color::new(0, 255, 0)),
    ];

    let img = Raster::new(10, 10, opaque(Color::new(0, 0, 0)));
    let result = deduce_unknown_colors(&img, &specs, Color::new(0, 0, 0), THRESHOLD);

    assert_eq!(result, vec![Color::new(255, 0, 0), Color::new(0, 255, 0)]);
}

#[test]
fn color_deduction_tests_test_pure_color_deduction() {
    // Pure green square on black background.
    let width = 100;
    let height = 100;
    let mut img = Raster::new(width, height, opaque(Color::new(0, 0, 0)));
    for y in 25..75 {
        for x in 25..75 {
            img.set_pixel(x, y, opaque(Color::new(0, 255, 0)));
        }
    }

    let specs = vec![ForegroundColorSpec::Unknown];
    let background = Color::new(0, 0, 0);
    let result = deduce_unknown_colors(&img, &specs, background, THRESHOLD);

    assert_eq!(result.len(), 1);
    let deduced_color = result[0];

    // Should deduce pure green
    assert_eq!(deduced_color.r, 0);
    assert_eq!(deduced_color.g, 255);
    assert_eq!(deduced_color.b, 0);
}

#[test]
fn integration_test_test_pure_color_deduction() {
    // A red gradient circle on white background.
    let mut img = Raster::new(100, 100, opaque(Color::new(255, 255, 255)));

    let center_x = 50.0_f32;
    let center_y = 50.0_f32;
    let radius = 40.0_f32;

    for y in 0..100usize {
        for x in 0..100usize {
            let dx = x as f32 - center_x;
            let dy = y as f32 - center_y;
            let dist = (dx * dx + dy * dy).sqrt();

            if dist < radius {
                let alpha = 1.0 - (dist / radius);
                // Blend pure red with white based on alpha
                let r = (255.0 * alpha + 255.0 * (1.0 - alpha)) as u8;
                let g = (0.0 * alpha + 255.0 * (1.0 - alpha)) as u8;
                let b = (0.0 * alpha + 255.0 * (1.0 - alpha)) as u8;
                img.set_pixel(x, y, opaque(Color::new(r, g, b)));
            }
        }
    }

    let specs = vec![ForegroundColorSpec::Unknown];
    let result = deduce_unknown_colors(&img, &specs, Color::new(255, 255, 255), THRESHOLD);

    // The deduced color should be pure red or very close to it
    assert!(result[0].r >= 253, "Red channel should be close to 255, got {}", result[0].r);
    assert!(result[0].g < 30, "Green channel should be close to 0, got {}", result[0].g);
    assert!(result[0].b < 20, "Blue channel should be close to 0, got {}", result[0].b);
}

// Paint a filled circle of a pure color at the given opacity bands over a
// white background: fully opaque core, then rings at 75%, 50%, and 25%.
fn paint_banded_circle(img: &mut Raster, cx: i32, cy: i32, color: Color) {
    let w = img.width() as i32;
    let h = img.height() as i32;
    for y in 0..h {
        for x in 0..w {
            let dx = x - cx;
            let dy = y - cy;
            let d2 = dx * dx + dy * dy;
            let p = if d2 <= 64 {
                100
            } else if d2 <= 81 {
                75
            } else if d2 <= 100 {
                50
            } else if d2 <= 121 {
                25
            } else {
                continue;
            };
            let blended = Color::new(
                blend8(color.r, 255, p),
                blend8(color.g, 255, p),
                blend8(color.b, 255, p),
            );
            img.set_pixel(x as usize, y as usize, opaque(blended));
        }
    }
}

#[test]
fn test_three_gradients_deduced_as_pure_colors() {
    // Three side-by-side radial gradients (red, green, blue) on white;
    // all three foregrounds unknown.
    let mut img = Raster::new(93, 31, opaque(Color::new(255, 255, 255)));
    paint_banded_circle(&mut img, 15, 15, Color::new(255, 0, 0));
    paint_banded_circle(&mut img, 46, 15, Color::new(0, 255, 0));
    paint_banded_circle(&mut img, 77, 15, Color::new(0, 0, 255));

    let specs = vec![
        ForegroundColorSpec::Unknown,
        ForegroundColorSpec::Unknown,
        ForegroundColorSpec::Unknown,
    ];
    let result = deduce_unknown_colors(&img, &specs, Color::new(255, 255, 255), THRESHOLD);

    assert_eq!(result.len(), 3);
    for expected in [Color::new(255, 0, 0), Color::new(0, 255, 0), Color::new(0, 0, 255)] {
        assert!(
            result.contains(&expected),
            "expected {:?} among deduced colors, got {:?}",
            expected,
            result
        );
    }
}

#[test]
fn test_known_color_passes_through_mixed_specs() {
    // One known color among unknowns keeps its position.
    let mut img = Raster::new(50, 50, opaque(Color::new(0, 0, 0)));
    for y in 10..40 {
        for x in 10..25 {
            img.set_pixel(x, y, opaque(Color::new(0, 255, 0)));
        }
        for x in 25..40 {
            img.set_pixel(x, y, opaque(Color::new(255, 255, 0)));
        }
    }
    let specs = vec![
        ForegroundColorSpec::Known(Color::new(255, 0, 0)),
        ForegroundColorSpec::Unknown,
    ];
    let result = deduce_unknown_colors(&img, &specs, Color::new(0, 0, 0), THRESHOLD);
    assert_eq!(result.len(), 2);
    assert_eq!(result[0], Color::new(255, 0, 0));
}

#[test]
fn test_select_most_different_colors_passthrough() {
    let colors = vec![Color::new(1, 2, 3), Color::new(4, 5, 6)];
    assert_eq!(select_most_different_colors(&colors, 5), colors);
}

#[test]
fn test_select_most_different_colors_greedy() {
    let colors = vec![
        Color::new(255, 0, 0),
        Color::new(128, 0, 0),
        Color::new(0, 255, 0),
        Color::new(0, 0, 255),
    ];
    let sel = select_most_different_colors(&colors, 2);
    assert_eq!(sel.len(), 2);
    // Two distinct, fully saturated colors are picked.
    assert_ne!(sel[0], sel[1]);
    assert!(!sel.contains(&Color::new(128, 0, 0)));
}

#[test]
fn test_end_to_end_red_square_on_black() {
    // A 100x100 raster, black background, with a 50x50 red square:
    // detection finds black, and unmixing a pure red pixel against the
    // red foreground gives full weight and opacity.
    let mut img = Raster::new(100, 100, opaque(Color::new(0, 0, 0)));
    for y in 25..75 {
        for x in 25..75 {
            img.set_pixel(x, y, opaque(Color::new(255, 0, 0)));
        }
    }
    let detected = detect_background_color(&img);
    assert_eq!(detected, Color::new(0, 0, 0));

    let result = unmix_colors(
        Color::new(255, 0, 0),
        &vec![NormalizedColor::new(UNIT, 0, 0)],
        NormalizedColor::new(0, 0, 0),
    );
    assert_eq!(result.weights[0], UNIT);
    assert_eq!(result.alpha, UNIT);
}

#[test]
fn test_deduce_empty_specs() {
    // No specifications at all: an empty palette comes back.
    let img = Raster::new(4, 4, opaque(Color::new(10, 20, 30)));
    let result = deduce_unknown_colors(&img, &vec![], Color::new(10, 20, 30), THRESHOLD);
    assert!(result.is_empty());
}

#[test]
fn test_deduce_unknown_on_uniform_image_falls_back() {
    // A raster that is all background yields no candidates from the image;
    // the unknown is filled from the standard palette.
    let img = Raster::new(8, 8, opaque(Color::new(0, 0, 0)));
    let specs = vec![ForegroundColorSpec::Unknown];
    let result = deduce_unknown_colors(&img, &specs, Color::new(0, 0, 0), THRESHOLD);
    assert_eq!(result.len(), 1);
}

#[test]
fn test_two_unknowns_pair_search() {
    // Two solid squares on black; both foregrounds unknown.  The pair
    // search must recover both colors exactly.
    let mut img = Raster::new(60, 30, opaque(Color::new(0, 0, 0)));
    for y in 5..25 {
        for x in 5..25 {
            img.set_pixel(x, y, opaque(Color::new(255, 0, 0)));
        }
        for x in 35..55 {
            img.set_pixel(x, y, opaque(Color::new(0, 255, 0)));
        }
    }
    let specs = vec![ForegroundColorSpec::Unknown, ForegroundColorSpec::Unknown];
    let result = deduce_unknown_colors(&img, &specs, Color::new(0, 0, 0), THRESHOLD);
    assert_eq!(result.len(), 2);
    assert!(result.contains(&Color::new(255, 0, 0)), "expected red, got {:?}", result);
    assert!(result.contains(&Color::new(0, 255, 0)), "expected green, got {:?}", result);
}
