use bgone::color::{Color, NormalizedColor};
use bgone::fixed::UNIT;
use bgone::unmix::{
    color_distance, compute_result_color, is_color_close_to_foreground, unmix_colors, UnmixResult,
};

// 0.01 in fixed-point units: the tolerance for approximate comparisons.
const EPS: i64 = UNIT / 100;

fn n(r: i64, g: i64, b: i64) -> NormalizedColor {
    NormalizedColor::new(r, g, b)
}

#[test]
fn test_unmix_no_foreground_colors() {
    let result = unmix_colors(Color::new(128, 128, 128), &vec![], n(0, 0, 0));
    assert_eq!(result.weights.len(), 0);
    assert_eq!(result.alpha, 0);
}

#[test]
fn test_unmix_single_color_pure() {
    // Pure red on black background
    let result = unmix_colors(Color::new(255, 0, 0), &vec![n(UNIT, 0, 0)], n(0, 0, 0));
    assert_eq!(result.weights.len(), 1);
    assert_eq!(result.weights[0], UNIT);
    assert_eq!(result.alpha, UNIT);
}

#[test]
fn test_unmix_single_color_blend() {
    // ~50% red on black = rgb(127, 0, 0)
    let result = unmix_colors(Color::new(127, 0, 0), &vec![n(UNIT, 0, 0)], n(0, 0, 0));
    // ~0.498 in fixed point
    assert!((result.weights[0] - 498 * UNIT / 1000).abs() < EPS);
    assert!((result.alpha - 498 * UNIT / 1000).abs() < EPS);
}

#[test]
fn test_unmix_single_color_identical_fg_bg() {
    // When foreground and background are the same, weight should be 0
    let result = unmix_colors(Color::new(255, 0, 0), &vec![n(UNIT, 0, 0)], n(UNIT, 0, 0));
    assert_eq!(result.weights[0], 0);
    assert_eq!(result.alpha, 0);
}

#[test]
fn test_unmix_multiple_colors() {
    // Yellow (mix of red and green) on black
    let result = unmix_colors(
        Color::new(255, 255, 0),
        &vec![n(UNIT, 0, 0), n(0, UNIT, 0)],
        n(0, 0, 0),
    );
    assert_eq!(result.weights.len(), 2);
    // Should be roughly 50/50 mix of red and green
    assert!((result.weights[0] - UNIT / 2).abs() < UNIT / 10);
    assert!((result.weights[1] - UNIT / 2).abs() < UNIT / 10);
    assert!((result.alpha - UNIT).abs() < UNIT / 10);
}

#[test]
fn test_compute_result_color_zero_alpha() {
    let unmix = UnmixResult { weights: vec![UNIT], alpha: 0 };
    let (color, alpha) = compute_result_color(&unmix, &vec![n(UNIT, 0, 0)]);
    assert_eq!(color, n(0, 0, 0));
    assert_eq!(alpha, 0);
}

#[test]
fn test_compute_result_color_weighted() {
    let unmix = UnmixResult { weights: vec![3 * UNIT / 10, 7 * UNIT / 10], alpha: UNIT };
    let (color, alpha) = compute_result_color(&unmix, &vec![n(UNIT, 0, 0), n(0, UNIT, 0)]);
    assert!((color.r - 3 * UNIT / 10).abs() <= 1);
    assert!((color.g - 7 * UNIT / 10).abs() <= 1);
    assert_eq!(color.b, 0);
    assert_eq!(alpha, UNIT);
}

#[test]
fn test_unmix_edge_cases() {
    // Identical foreground colors (singular matrix)
    let result1 = unmix_colors(
        Color::new(128, 0, 0),
        &vec![n(UNIT, 0, 0), n(UNIT, 0, 0)], // Same color twice
        n(0, 0, 0),
    );
    assert_eq!(result1.weights.len(), 2);
    let total_weight: i64 = result1.weights.iter().sum();
    assert!((total_weight - 502 * UNIT / 1000).abs() < EPS); // ~50% red

    // Observed color equal to the background
    let result2 = unmix_colors(
        Color::new(128, 128, 128),
        &vec![n(UNIT, 0, 0), n(0, UNIT, 0)],
        n(502 * UNIT / 1000, 502 * UNIT / 1000, 502 * UNIT / 1000),
    );
    assert!(result2.alpha < EPS); // Should be nearly transparent
}

#[test]
fn test_color_distance() {
    let d1 = color_distance(n(0, 0, 0), n(UNIT, 0, 0));
    assert_eq!(d1, UNIT);

    let d2 = color_distance(n(0, 0, 0), n(UNIT, UNIT, UNIT));
    // sqrt(3) in fixed point
    assert!((d2 - 1732 * UNIT / 1000).abs() < EPS);
}

#[test]
fn test_is_color_close_to_foreground() {
    let red = n(UNIT, 0, 0);
    let black = n(0, 0, 0);
    let observed = n(UNIT / 2, 0, 0); // 50% red

    // Should be close to red when mixed with black background
    assert!(is_color_close_to_foreground(observed, &vec![red], black, UNIT / 10));

    // Purple should not be close to red
    let purple = n(UNIT / 2, 0, UNIT / 2);
    assert!(!is_color_close_to_foreground(purple, &vec![red], black, UNIT / 10));
}

#[test]
fn color_deduction_tests_test_opacity_optimization() {
    // Unmixing optimizes for opacity
    let observed = Color::new(128, 0, 0); // ~50% red on black
    let foregrounds = vec![n(UNIT, 0, 0)]; // Pure red
    let background = n(0, 0, 0); // Black

    let result = unmix_colors(observed, &foregrounds, background);
    let (color, alpha) = compute_result_color(&result, &foregrounds);

    // Should get pure red with ~50% opacity
    assert!((color.r - UNIT).abs() < EPS);
    assert!(color.g.abs() < EPS);
    assert!(color.b.abs() < EPS);
    assert!((alpha - 502 * UNIT / 1000).abs() < EPS); // ~50%

    // With multiple colors it should still optimize for opacity
    let observed = Color::new(255, 255, 0); // Yellow
    let foregrounds = vec![n(UNIT, 0, 0), n(0, UNIT, 0), n(0, 0, UNIT)]; // R,G,B
    let result = unmix_colors(observed, &foregrounds, background);

    // Should use red and green at full opacity, not blue
    assert!(result.weights[0] > 4 * UNIT / 10); // Red weight
    assert!(result.weights[1] > 4 * UNIT / 10); // Green weight
    assert!(result.weights[2] < UNIT / 10); // Blue weight (should be near 0)
    assert!(result.alpha > 95 * UNIT / 100); // Should achieve high opacity

    // Gradient case
    let observed = Color::new(200, 100, 100); // Reddish color
    let foregrounds = vec![n(UNIT, 0, 0), n(UNIT / 2, UNIT / 2, UNIT / 2)]; // Red and gray
    let background = n(UNIT, UNIT, UNIT); // White

    let result = unmix_colors(observed, &foregrounds, background);
    // Should achieve good opacity
    assert!(result.alpha > 6 * UNIT / 10);
}

#[test]
fn integration_test_test_opacity_optimization() {
    // Gray (128, 128, 128) could be 50% white on black or 100% gray on
    // black; the high-opacity gray solution must win.
    let observed = Color::new(128, 128, 128);
    let background = n(0, 0, 0); // Black

    // Test 1: When gray is available as a foreground color
    let foreground_colors = vec![
        n(UNIT, UNIT, UNIT),  // White
        n(502 * UNIT / 1000, 502 * UNIT / 1000, 502 * UNIT / 1000),  // Gray (very close to 128/255)
    ];

    let result = unmix_colors(observed, &foreground_colors, background);
    assert!(result.weights[1] > 9 * UNIT / 10, "Should use mostly gray, got weight: {}", result.weights[1]);
    assert!(result.alpha > 99 * UNIT / 100, "Should have near-full opacity, got: {}", result.alpha);

    // Test 2: Pink (255, 128, 128) on white background
    let observed2 = Color::new(255, 128, 128);
    let background2 = n(UNIT, UNIT, UNIT); // White
    let foreground_colors2 = vec![
        n(UNIT, 0, 0),  // Pure red
        n(UNIT, 502 * UNIT / 1000, 502 * UNIT / 1000),  // Pink (close to target)
    ];

    let result2 = unmix_colors(observed2, &foreground_colors2, background2);
    assert!(result2.weights[1] > 9 * UNIT / 10, "Should use mostly pink, got weight: {}", result2.weights[1]);

    // Test 3: Orange (255, 128, 0) = mix of red and yellow on black
    let observed3 = Color::new(255, 128, 0);
    let background3 = n(0, 0, 0);
    let foreground_colors3 = vec![
        n(UNIT, 0, 0),  // Red
        n(UNIT, UNIT, 0),  // Yellow
        n(0, 0, UNIT),  // Blue (not needed)
    ];

    let result3 = unmix_colors(observed3, &foreground_colors3, background3);
    assert!(result3.alpha > 99 * UNIT / 100, "Should have near-full opacity for orange, got: {}", result3.alpha);
    assert!(
        result3.weights[0] > 3 * UNIT / 10 && result3.weights[0] < 7 * UNIT / 10,
        "Red weight should be moderate: {}",
        result3.weights[0]
    );
    assert!(
        result3.weights[1] > 3 * UNIT / 10 && result3.weights[1] < 7 * UNIT / 10,
        "Yellow weight should be moderate: {}",
        result3.weights[1]
    );
}

#[test]
fn test_is_color_close_threshold_zero() {
    // With a zero threshold nothing is close, not even an exact match,
    // since the comparison is strict.
    let red = n(UNIT, 0, 0);
    let black = n(0, 0, 0);
    assert!(!is_color_close_to_foreground(red, &vec![red], black, 0));
}

#[test]
fn test_unmix_observed_equals_background_any_palette() {
    // A pixel exactly equal to the background is fully transparent for
    // every foreground list.
    let bg = n(77 * 400, 88 * 400, 99 * 400);
    for fgs in [
        vec![],
        vec![n(UNIT, 0, 0)],
        vec![n(UNIT, 0, 0), n(0, UNIT, 0)],
        vec![n(UNIT, 0, 0), n(0, UNIT, 0), n(0, 0, UNIT), n(UNIT, UNIT, 0)],
    ] {
        let r = unmix_colors(Color::new(77, 88, 99), &fgs, bg);
        assert_eq!(r.alpha, 0);
        assert!(r.weights.iter().all(|&w| w == 0));
    }
}
