//! Errors of the driver pipeline and their rendered messages.
use vstd::prelude::*;
use crate::strings::{push_signed_decimal, signed_decimal_text};

verus! {

/// Declares `std::io::Error` so that errors can carry it through the library.
#[verifier::external_type_specification]
#[verifier::external_body]
pub struct ExIoError(std::io::Error);

/// Renders an I/O error (`<std::io::Error as Display>`).
///
/// Trusted, and nothing is stated of the text: for errors that come from the
/// operating system it depends on the platform's error strings.
#[verifier::external_body]
pub(crate) fn io_error_text(error: &std::io::Error) -> (text: String) {
    error.to_string()
}

/// Errors that can occur during the kobo driver pipeline.
pub enum DriverError {
    IoError(std::io::Error),
    ParseFailed { file: String, message: String },
    TransformFailed { file: String, message: String },
    CargoBuildFailed { stderr: String, exit_code: i32 },
    CargoTomlGenFailed { message: String },
    CircularDependency { cycle: Vec<String> },
}

/// The items of `parts`, separated by `sep`.
pub open spec fn joined(parts: Seq<Seq<char>>, sep: Seq<char>) -> Seq<char>
    decreases parts.len(),
{
    if parts.len() == 0 {
        Seq::empty()
    } else if parts.len() == 1 {
        parts[0]
    } else {
        joined(parts.drop_last(), sep) + sep + parts.last()
    }
}

/// The character views of a list of strings.
pub open spec fn string_views(items: Seq<String>) -> Seq<Seq<char>> {
    items.map_values(|s: String| s@)
}

/// Renders a dependency cycle as its paths joined by `" -> "`.
pub fn format_cycle(cycle: &[String]) -> (text: String)
    ensures
        text@ == joined(string_views(cycle@), " -> "@),
{
    let mut text = String::new();
    let mut i: usize = 0;
    while i < cycle.len()
        invariant
            i <= cycle@.len(),
            text@ == joined(string_views(cycle@.take(i as int)), " -> "@),
        decreases cycle@.len() - i,
    {
        let ghost before = text@;
        if i > 0 {
            text.append(" -> ");
        }
        text.append(cycle[i].as_str());
        proof {
            let parts = string_views(cycle@.take(i + 1));
            assert(parts.drop_last() =~= string_views(cycle@.take(i as int)));
            assert(parts.last() == cycle@[i as int]@);
            if i == 0 {
                assert(parts.len() == 1);
            }
        }
        i = i + 1;
    }
    assert(cycle@.take(cycle@.len() as int) =~= cycle@);
    text
}

impl DriverError {
    /// The message this error displays.
    pub fn message(&self) -> (text: String)
        ensures
            match self {
                DriverError::IoError(_) => "I/O error: "@.is_prefix_of(text@),
                DriverError::ParseFailed { file, message } =>
                    text@ == "parse failed for "@ + file@ + ": "@ + message@,
                DriverError::TransformFailed { file, message } =>
                    text@ == "transform failed for "@ + file@ + ": "@ + message@,
                DriverError::CargoBuildFailed { stderr, exit_code } =>
                    text@ == "cargo build failed (exit code "@ + signed_decimal_text(*exit_code as int)
                        + "): "@ + stderr@,
                DriverError::CargoTomlGenFailed { message } =>
                    text@ == "Cargo.toml generation failed: "@ + message@,
                DriverError::CircularDependency { cycle } =>
                    text@ == "circular dependency detected: "@ + joined(string_views(cycle@), " -> "@),
            },
    {
        let mut text = String::new();
        match self {
            DriverError::IoError(error) => {
                text.append("I/O error: ");
                let ghost prefix = text@;
                let detail = io_error_text(error);
                text.append(detail.as_str());
                assert(prefix.is_prefix_of(text@)) by {
                    assert(text@.subrange(0, prefix.len() as int) =~= prefix);
                }
            },
            DriverError::ParseFailed { file, message } => {
                text.append("parse failed for ");
                text.append(file.as_str());
                text.append(": ");
                text.append(message.as_str());
            },
            DriverError::TransformFailed { file, message } => {
                text.append("transform failed for ");
                text.append(file.as_str());
                text.append(": ");
                text.append(message.as_str());
            },
            DriverError::CargoBuildFailed { stderr, exit_code } => {
                text.append("cargo build failed (exit code ");
                push_signed_decimal(&mut text, *exit_code);
                text.append("): ");
                text.append(stderr.as_str());
            },
            DriverError::CargoTomlGenFailed { message } => {
                text.append("Cargo.toml generation failed: ");
                text.append(message.as_str());
            },
            DriverError::CircularDependency { cycle } => {
                text.append("circular dependency detected: ");
                let rendered = format_cycle(cycle.as_slice());
                text.append(rendered.as_str());
            },
        }
        text
    }
}

} // verus!
