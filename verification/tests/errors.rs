use kobo_driver::errors::DriverError;
use kobo_driver::errors::format_cycle;

#[test]
fn io_error_displays() {
    let err = DriverError::IoError(std::io::Error::new(
        std::io::ErrorKind::NotFound,
        "file not found",
    ));
    let msg = err.message();
    assert!(msg.contains("file not found"), "got: {msg}");
}

#[test]
fn parse_failed_displays_file_and_message() {
    let err = DriverError::ParseFailed {
        file: "src/main.kobo".to_string(),
        message: "unexpected token".to_string(),
    };
    let msg = err.message();
    assert!(msg.contains("main.kobo"), "got: {msg}");
    assert!(msg.contains("unexpected token"), "got: {msg}");
}

#[test]
fn transform_failed_displays() {
    let err = DriverError::TransformFailed {
        file: "lib.kobo".to_string(),
        message: "scope error".to_string(),
    };
    let msg = err.message();
    assert!(msg.contains("lib.kobo"), "got: {msg}");
    assert!(msg.contains("scope error"), "got: {msg}");
}

#[test]
fn cargo_build_failed_displays_exit_code() {
    let err = DriverError::CargoBuildFailed {
        stderr: "error[E0425]: cannot find value".to_string(),
        exit_code: 101,
    };
    let msg = err.message();
    assert!(msg.contains("101"), "got: {msg}");
    assert!(msg.contains("E0425"), "got: {msg}");
}

#[test]
fn cargo_toml_gen_failed_displays() {
    let err = DriverError::CargoTomlGenFailed {
        message: "invalid name".to_string(),
    };
    let msg = err.message();
    assert!(msg.contains("invalid name"), "got: {msg}");
}

#[test]
fn circular_dependency_displays_cycle() {
    let err = DriverError::CircularDependency {
        cycle: vec![
            "a.kobo".to_string(),
            "b.kobo".to_string(),
            "a.kobo".to_string(),
        ],
    };
    let msg = err.message();
    assert!(msg.contains("a.kobo -> b.kobo -> a.kobo"), "got: {msg}");
}

#[test]
fn messages_match_the_display_forms_exactly() {
    let err = DriverError::ParseFailed {
        file: "src/main.kobo".to_string(),
        message: "unexpected token".to_string(),
    };
    assert_eq!(err.message(), "parse failed for src/main.kobo: unexpected token");
    let err = DriverError::CargoBuildFailed {
        stderr: "boom".to_string(),
        exit_code: -3,
    };
    assert_eq!(err.message(), "cargo build failed (exit code -3): boom");
    let err = DriverError::IoError(std::io::Error::new(std::io::ErrorKind::Other, "disk"));
    assert_eq!(err.message(), "I/O error: disk");
}

#[test]
fn format_cycle_joins_with_arrows() {
    assert_eq!(format_cycle(&[]), "");
    assert_eq!(format_cycle(&["x".to_string()]), "x");
    assert_eq!(
        format_cycle(&["a".to_string(), "b".to_string()]),
        "a -> b"
    );
}
