use bgone::color::{
    denormalize_color, normalize_color, parse_foreground_spec, parse_foreground_specs,
    parse_hex_color, Color, ColorParseError, ForegroundColorSpec, NormalizedColor,
};

#[test]
fn test_parse_hex_color() {
    // Full format with # prefix
    assert_eq!(parse_hex_color("#ff0000").unwrap(), Color::new(255, 0, 0));
    assert_eq!(parse_hex_color("#00ff00").unwrap(), Color::new(0, 255, 0));
    assert_eq!(parse_hex_color("#0000ff").unwrap(), Color::new(0, 0, 255));

    // Full format without # prefix
    assert_eq!(parse_hex_color("ff0000").unwrap(), Color::new(255, 0, 0));
    assert_eq!(parse_hex_color("00ff00").unwrap(), Color::new(0, 255, 0));
    assert_eq!(parse_hex_color("0000ff").unwrap(), Color::new(0, 0, 255));

    // Shorthand with # prefix
    assert_eq!(parse_hex_color("#f00").unwrap(), Color::new(255, 0, 0));
    assert_eq!(parse_hex_color("#0f0").unwrap(), Color::new(0, 255, 0));
    assert_eq!(parse_hex_color("#00f").unwrap(), Color::new(0, 0, 255));
    assert_eq!(parse_hex_color("#fff").unwrap(), Color::new(255, 255, 255));
    assert_eq!(parse_hex_color("#000").unwrap(), Color::new(0, 0, 0));
    assert_eq!(parse_hex_color("#369").unwrap(), Color::new(51, 102, 153)); // 3*17=51, 6*17=102, 9*17=153

    // Shorthand without # prefix
    assert_eq!(parse_hex_color("f00").unwrap(), Color::new(255, 0, 0));
    assert_eq!(parse_hex_color("0f0").unwrap(), Color::new(0, 255, 0));
    assert_eq!(parse_hex_color("00f").unwrap(), Color::new(0, 0, 255));

    // Error cases
    assert!(parse_hex_color("ff").is_err()); // Wrong length
    assert!(parse_hex_color("ffff").is_err()); // Wrong length
    assert!(parse_hex_color("#gggggg").is_err()); // Invalid hex
    assert!(parse_hex_color("#ggg").is_err()); // Invalid hex shorthand
}

#[test]
fn test_parse_hex_color_error_values() {
    // The error carries the offending length or the first bad character.
    assert_eq!(parse_hex_color("ffff"), Err(ColorParseError::InvalidLength(4)));
    assert_eq!(parse_hex_color("#gggggg"), Err(ColorParseError::InvalidDigit('g')));
    assert_eq!(parse_hex_color("ab!cde"), Err(ColorParseError::InvalidDigit('!')));
    assert_eq!(parse_hex_color(""), Err(ColorParseError::InvalidLength(0)));
    assert_eq!(parse_hex_color("#"), Err(ColorParseError::InvalidLength(0)));
}

#[test]
fn test_normalize_color() {
    assert_eq!(
        normalize_color(Color::new(255, 127, 0)),
        NormalizedColor::new(255 * 400, 127 * 400, 0)
    );
}

#[test]
fn test_denormalize_round_trip() {
    // Denormalizing an exact normalization gives the color back.
    for c in [
        Color::new(0, 0, 0),
        Color::new(255, 255, 255),
        Color::new(1, 127, 254),
        Color::new(20, 25, 30),
    ] {
        assert_eq!(denormalize_color(normalize_color(c)), c);
    }
    // Out-of-range values clamp.
    assert_eq!(denormalize_color(NormalizedColor::new(-5, 102001, 200)), Color::new(0, 255, 1));
}

#[test]
fn test_parse_foreground_spec() {
    // Test unknown placeholder
    assert_eq!(parse_foreground_spec("auto").unwrap(), ForegroundColorSpec::Unknown);

    // Test known colors
    assert_eq!(
        parse_foreground_spec("#ff0000").unwrap(),
        ForegroundColorSpec::Known(Color::new(255, 0, 0))
    );
    assert_eq!(
        parse_foreground_spec("f00").unwrap(),
        ForegroundColorSpec::Known(Color::new(255, 0, 0))
    );

    // Test invalid input
    assert!(parse_foreground_spec("invalid").is_err());
}

#[test]
fn test_parse_foreground_specs_list() {
    let ok = parse_foreground_specs(&vec![
        String::from("#ff0000"),
        String::from("auto"),
        String::from("0f0"),
    ])
    .unwrap();
    assert_eq!(
        ok,
        vec![
            ForegroundColorSpec::Known(Color::new(255, 0, 0)),
            ForegroundColorSpec::Unknown,
            ForegroundColorSpec::Known(Color::new(0, 255, 0)),
        ]
    );
    let err = parse_foreground_specs(&vec![String::from("#ff0000"), String::from("nope")]);
    assert_eq!(err, Err((1, ColorParseError::InvalidLength(4))));
}
