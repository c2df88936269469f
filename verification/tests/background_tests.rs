use bgone::background::{
    detect_background_color, detect_background_color_with_config, BackgroundDetectionConfig,
};
use bgone::color::Color;
use bgone::raster::{Raster, Rgba};

fn uniform_raster(width: usize, height: usize, p: Rgba) -> Raster {
    Raster::new(width, height, p)
}

#[test]
fn test_detect_uniform_background() {
    // An image with a uniform blue background
    let img = uniform_raster(100, 100, Rgba::new(0, 0, 255, 255));
    let detected = detect_background_color(&img);
    assert_eq!(detected, Color::new(0, 0, 255));
}

#[test]
fn test_detect_background_with_center_object() {
    // An image with white background and red center
    let mut img = uniform_raster(100, 100, Rgba::new(255, 255, 255, 255));
    for y in 0..100 {
        for x in 0..100 {
            if x > 25 && x < 75 && y > 25 && y < 75 {
                img.set_pixel(x, y, Rgba::new(255, 0, 0, 255));
            }
        }
    }
    let detected = detect_background_color(&img);
    assert_eq!(detected, Color::new(255, 255, 255));
}

#[test]
fn test_custom_config() {
    let img = uniform_raster(100, 100, Rgba::new(128, 128, 128, 255));
    let config = BackgroundDetectionConfig {
        edge_sample_interval: 5, // Sample more frequently
    };
    let detected = detect_background_color_with_config(&img, &config);
    assert_eq!(detected, Color::new(128, 128, 128));
}

#[test]
fn test_detect_translucent_border() {
    // Translucent border pixels are composited over black before tallying:
    // (255, 0, 0) at alpha 127 counts as round(255 * 127 / 255) = 127.
    let img = uniform_raster(40, 40, Rgba::new(255, 0, 0, 127));
    let detected = detect_background_color(&img);
    assert_eq!(detected, Color::new(127, 0, 0));
}

#[test]
fn test_detect_majority_border() {
    // Two border colors: the more frequent one wins.  The whole left half
    // of the border is green, the right half plus one more pixel is blue.
    let mut img = uniform_raster(21, 21, Rgba::new(0, 255, 0, 255));
    for y in 0..21 {
        for x in 10..21 {
            img.set_pixel(x, y, Rgba::new(0, 0, 255, 255));
        }
    }
    // Sampled border points (stride 10): columns 0, 10, 20 and rows 0, 10,
    // 20 on each edge; blue covers columns 10 and 20 plus the right edge.
    let detected = detect_background_color(&img);
    assert_eq!(detected, Color::new(0, 0, 255));
}

#[test]
fn test_detect_single_pixel() {
    // An image smaller than the sampling stride still samples its corners.
    let img = uniform_raster(1, 1, Rgba::new(9, 8, 7, 255));
    assert_eq!(detect_background_color(&img), Color::new(9, 8, 7));
}
