use bgone::paths::{determine_output_path, output_file_name};

#[test]
fn test_determine_output_path_explicit() {
    let input = "/some/path/input.png";
    let output = Some("/other/path/output.png");

    let result = determine_output_path(input, output, &vec![]).unwrap();
    assert_eq!(result, "/other/path/output.png");
}

#[test]
fn test_determine_output_path_auto_base() {
    let result = determine_output_path("test.png", None, &vec![]).unwrap();
    assert_eq!(result, "test-bgone.png");
}

#[test]
fn test_determine_output_path_auto_incremental() {
    let taken = vec![String::from("test-bgone.png")];
    let result = determine_output_path("test.png", None, &taken).unwrap();
    assert_eq!(result, "test-bgone-1.png");
}

#[test]
fn test_determine_output_path_auto_multiple_increments() {
    let taken = vec![
        String::from("test-bgone.png"),
        String::from("test-bgone-1.png"),
        String::from("test-bgone-2.png"),
    ];
    let result = determine_output_path("test.png", None, &taken).unwrap();
    assert_eq!(result, "test-bgone-3.png");
}

#[test]
fn test_determine_output_path_preserves_extension() {
    let result = determine_output_path("image.jpg", None, &vec![]).unwrap();
    assert_eq!(result, "image-bgone.jpg");
}

#[test]
fn test_determine_output_path_no_extension() {
    let result = determine_output_path("image", None, &vec![]).unwrap();
    assert_eq!(result, "image-bgone.png");
}

#[test]
fn test_determine_output_path_complex_filename() {
    let result = determine_output_path("my-image-2024.png", None, &vec![]).unwrap();
    assert_eq!(result, "my-image-2024-bgone.png");
}

#[test]
fn test_determine_output_path_with_directory() {
    let result = determine_output_path("/a/b/photo.jpeg", None, &vec![]).unwrap();
    assert_eq!(result, "/a/b/photo-bgone.jpeg");
}

#[test]
fn test_output_file_name_attempts() {
    assert_eq!(output_file_name("dir/pic.png", 0), "dir/pic-bgone.png");
    assert_eq!(output_file_name("dir/pic.png", 7), "dir/pic-bgone-7.png");
    assert_eq!(output_file_name("dir/pic.png", 42), "dir/pic-bgone-42.png");
    assert_eq!(output_file_name("dir/pic.png", 999), "dir/pic-bgone-999.png");
    // A leading dot alone is not an extension separator.
    assert_eq!(output_file_name(".hidden", 0), ".hidden-bgone.png");
}
