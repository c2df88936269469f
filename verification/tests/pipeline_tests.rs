use bgone::color::{Color, NormalizedColor};
use bgone::fixed::UNIT;
use bgone::pipeline::{
    find_minimum_alpha_for_color, process_pixel, process_pixel_non_strict_no_fg,
};
use bgone::raster::Rgba;

fn n(r: i64, g: i64, b: i64) -> NormalizedColor {
    NormalizedColor::new(r, g, b)
}

// Composite an RGBA output over a background color, per channel:
// round(a * fg / 255 + (255 - a) * bg / 255).
fn overlay_channel(fg: u8, a: u8, bg: u8) -> i32 {
    let num = a as i32 * fg as i32 + (255 - a as i32) * bg as i32;
    (num + 127) / 255
}

fn assert_reconstructs(out: Rgba, bg: Color, obs: Color) {
    assert!(
        (overlay_channel(out.r, out.a, bg.r) - obs.r as i32).abs() <= 1,
        "red channel off: {:?} over {:?} vs {:?}",
        out,
        bg,
        obs
    );
    assert!((overlay_channel(out.g, out.a, bg.g) - obs.g as i32).abs() <= 1);
    assert!((overlay_channel(out.b, out.a, bg.b) - obs.b as i32).abs() <= 1);
}

#[test]
fn test_non_strict_optimal_alpha() {
    // Light pink on white background.
    // Observed: (255, 242, 242), Background: (255, 255, 255).
    // The optimal solution is (255, 0, 0) with alpha ~0.051.
    let observed = Color::new(255, 242, 242);
    let background = Color::new(255, 255, 255);
    let out = process_pixel_non_strict_no_fg(observed, background);

    // Perfect reconstruction within one unit per channel
    assert_eq!(overlay_channel(out.r, out.a, background.r), 255);
    assert!((overlay_channel(out.g, out.a, background.g) - 242).abs() <= 1, "G component mismatch");
    assert!((overlay_channel(out.b, out.a, background.b) - 242).abs() <= 1, "B component mismatch");

    // The optimal alpha for (255, 0, 0) is ~0.051 = 13/255
    assert!(out.a as f64 / 255.0 <= 0.052, "Alpha not optimal: {} (expected ~0.051)", out.a);
}

#[test]
fn test_non_strict_edge_cases() {
    // Color very close to background
    let observed = Color::new(254, 255, 255);
    let background = Color::new(255, 255, 255);
    let out = process_pixel_non_strict_no_fg(observed, background);
    assert!(
        out.a as f64 / 255.0 <= 0.005,
        "Alpha not minimal for near-background color: {}",
        out.a
    );

    // Cyan-tinted pixel: the optimal solution is cyan at alpha ~0.5
    let observed = Color::new(128, 255, 255);
    let out = process_pixel_non_strict_no_fg(observed, background);
    assert!(out.a as f64 / 255.0 <= 0.502, "Alpha not optimal for cyan tint: {}", out.a);
}

#[test]
fn test_non_strict_alpha_minimization() {
    // Alpha minimization across different scenarios; each result must
    // reconstruct the observation within one 8-bit unit per channel.
    let test_cases: Vec<(Color, Color)> = vec![
        (Color::new(200, 200, 255), Color::new(255, 255, 255)),  // Blue tint on white
        (Color::new(255, 200, 200), Color::new(200, 200, 200)),  // Red tint on gray
        (Color::new(100, 150, 200), Color::new(255, 255, 255)),  // Dark blue on white
        (Color::new(255, 128, 0), Color::new(0, 0, 0)),  // Orange on black
    ];
    for (observed, background) in test_cases {
        let out = process_pixel_non_strict_no_fg(observed, background);
        assert_reconstructs(out, background, observed);
        assert!(out.a > 0, "Alpha out of range: {}", out.a);
    }
}

#[test]
fn test_round_trip_sample_grid() {
    // The non-strict round trip holds across a grid of observations and
    // backgrounds, including equal and extreme values.
    let values: [u8; 6] = [0, 1, 127, 128, 254, 255];
    for &ro in values.iter() {
        for &go in values.iter() {
            for &rb in values.iter() {
                let obs = Color::new(ro, go, go.wrapping_add(ro) % 200);
                let bg = Color::new(rb, 255 - rb, 40);
                let out = process_pixel_non_strict_no_fg(obs, bg);
                assert_reconstructs(out, bg, obs);
            }
        }
    }
}

#[test]
fn test_background_pixel_fully_transparent() {
    let bg = Color::new(20, 25, 30);
    let out = process_pixel_non_strict_no_fg(bg, bg);
    assert_eq!(out, Rgba::new(0, 0, 0, 0));

    // The same through the mode dispatcher, in every mode.
    let out2 = process_pixel(bg, &vec![], bg, false, None);
    assert_eq!(out2, Rgba::new(0, 0, 0, 0));
    let out3 = process_pixel(bg, &vec![n(UNIT, 0, 0)], bg, true, None);
    assert_eq!(out3, Rgba::new(0, 0, 0, 0));
    let out4 = process_pixel(bg, &vec![n(UNIT, 0, 0)], bg, false, Some(UNIT / 20));
    assert_eq!(out4, Rgba::new(0, 0, 0, 0));
}

#[test]
fn test_find_minimum_alpha_prefers_extreme_corner() {
    // (128, 255, 255) on white: cyan (0, 255, 255) at alpha 127/255.
    let (fg, a) = find_minimum_alpha_for_color(Color::new(128, 255, 255), Color::new(255, 255, 255));
    assert_eq!(fg, Color::new(0, 255, 255));
    assert_eq!(a, 127 * 400); // 127/255 in fixed point
}

#[test]
fn test_process_pixel_strict_red_square() {
    // Strict mode with the exact foreground color: full opacity, pure color.
    let out = process_pixel(
        Color::new(255, 0, 0),
        &vec![n(UNIT, 0, 0)],
        Color::new(0, 0, 0),
        true,
        None,
    );
    assert_eq!(out, Rgba::new(255, 0, 0, 255));

    // A 50% blend keeps the pure color at half opacity.
    let out2 = process_pixel(
        Color::new(127, 0, 0),
        &vec![n(UNIT, 0, 0)],
        Color::new(0, 0, 0),
        true,
        None,
    );
    assert_eq!(out2.r, 255);
    assert_eq!(out2.g, 0);
    assert_eq!(out2.b, 0);
    assert!((out2.a as i32 - 127).abs() <= 1);
}
