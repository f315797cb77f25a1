use kobo_driver::filesystem::{io_error_from, map_path_for, output_path_for, rs_path_for, IoError};

#[test]
fn rs_path_for_replaces_kobo_extension() {
    let output_path = rs_path_for("src/demo.kobo");
    assert_eq!(output_path, "src/demo.rs");
}

#[test]
fn rs_path_for_adds_extension_when_missing() {
    assert_eq!(rs_path_for("src/demo"), "src/demo.rs");
}

#[test]
fn io_error_from_classifies_by_kind() {
    let err = io_error_from(std::io::Error::new(std::io::ErrorKind::NotFound, "gone"), "a.kobo");
    assert!(matches!(err, IoError::NotFound { ref path } if path == "a.kobo"));
    let err = io_error_from(
        std::io::Error::new(std::io::ErrorKind::PermissionDenied, "no"),
        "b.kobo",
    );
    assert!(matches!(err, IoError::PermissionDenied { ref path } if path == "b.kobo"));
    let err = io_error_from(std::io::Error::new(std::io::ErrorKind::Other, "weird"), "c.kobo");
    assert!(matches!(err, IoError::Other(ref detail) if detail == "weird"));
}

#[test]
fn output_path_for_uses_configured_output_dir() {
    let output_dir = Some("generated".to_string());
    let output_path = output_path_for("src/demo.kobo", &output_dir);
    assert_eq!(output_path, "generated/demo.rs");
}

#[test]
fn map_path_for_uses_kobo_map_suffix() {
    let output_dir = Some("generated".to_string());
    let map_path = map_path_for("src/demo.kobo", &output_dir);
    assert_eq!(map_path, "generated/demo.kobo.map");
}

#[test]
fn paths_stay_beside_the_input_without_an_output_dir() {
    assert_eq!(output_path_for("src/demo.kobo", &None), "src/demo.rs");
    assert_eq!(map_path_for("src/demo.kobo", &None), "src/demo.kobo.map");
}
