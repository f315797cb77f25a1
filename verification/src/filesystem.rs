//! File-system errors and output-path derivation of the driver.
use vstd::prelude::*;
use crate::errors::io_error_text;

verus! {

/// File-system errors emitted by the driver.
pub enum IoError {
    NotFound { path: String },
    PermissionDenied { path: String },
    Utf8Error { path: String },
    Other(String),
}

/// The classes of `std::io::ErrorKind` that the driver tells apart.
#[derive(Clone, Copy, Debug, PartialEq, Eq, Structural)]
pub enum IoErrorClass {
    NotFound,
    PermissionDenied,
    Other,
}

/// Classifies an I/O error by its kind (`std::io::Error::kind`).
///
/// Trusted: maps `ErrorKind::NotFound` and `ErrorKind::PermissionDenied` to
/// the classes of the same name and every other kind to `Other`; nothing is
/// stated because the kind of an operating-system error depends on the
/// platform.
#[verifier::external_body]
fn io_error_class(error: &std::io::Error) -> (class: IoErrorClass) {
    match error.kind() {
        std::io::ErrorKind::NotFound => IoErrorClass::NotFound,
        std::io::ErrorKind::PermissionDenied => IoErrorClass::PermissionDenied,
        _ => IoErrorClass::Other,
    }
}

/// Path of `path` with its extension replaced (`std::path::Path::with_extension`).
pub uninterp spec fn path_with_extension(path: Seq<char>, extension: Seq<char>) -> Seq<char>;

/// No character of `s` is a path separator (`/`, or `\\` on Windows).
pub open spec fn no_separator(s: Seq<char>) -> bool {
    forall|i: int| 0 <= i < s.len() ==> s[i] != '/' && s[i] != '\\'
}

/// Replaces the extension of a path (`Path::with_extension`).
///
/// Trusted: the result is named `path_with_extension` of the two arguments;
/// std's rules for file stems (dot files, trailing separators) are not
/// restated. std panics on an extension that holds a path separator, so
/// such extensions are ruled out.
#[verifier::external_body]
fn with_extension(path: &str, extension: &str) -> (res: String)
    requires
        no_separator(extension@),
    ensures
        res@ == path_with_extension(path@, extension@),
{
    std::path::Path::new(path).with_extension(extension).to_string_lossy().into_owned()
}

impl IoError {
    /// The message this error displays.
    pub fn message(&self) -> (text: String)
        ensures
            match self {
                IoError::NotFound { path } => text@ == "file not found: "@ + path@,
                IoError::PermissionDenied { path } => text@ == "permission denied: "@ + path@,
                IoError::Utf8Error { path } => text@ == "file is not valid UTF-8: "@ + path@,
                IoError::Other(message) => text@ == message@,
            },
    {
        let mut text = String::new();
        match self {
            IoError::NotFound { path } => {
                text.append("file not found: ");
                text.append(path.as_str());
            },
            IoError::PermissionDenied { path } => {
                text.append("permission denied: ");
                text.append(path.as_str());
            },
            IoError::Utf8Error { path } => {
                text.append("file is not valid UTF-8: ");
                text.append(path.as_str());
            },
            IoError::Other(message) => {
                text.append(message.as_str());
            },
        }
        text
    }
}

/// The driver error for an I/O failure of the given class at `path`;
/// `detail` is the rendered I/O error, kept for unclassified failures.
pub fn io_error_for_class(class: IoErrorClass, path: &str, detail: String) -> (error: IoError)
    ensures
        match class {
            IoErrorClass::NotFound => error matches IoError::NotFound { path: p } && p@ == path@,
            IoErrorClass::PermissionDenied =>
                error matches IoError::PermissionDenied { path: p } && p@ == path@,
            IoErrorClass::Other => error matches IoError::Other(m) && m@ == detail@,
        },
{
    match class {
        IoErrorClass::NotFound => IoError::NotFound { path: path.to_owned() },
        IoErrorClass::PermissionDenied => IoError::PermissionDenied { path: path.to_owned() },
        IoErrorClass::Other => IoError::Other(detail),
    }
}

/// Converts an I/O failure at `path` into the driver's error.
pub fn io_error_from(source: std::io::Error, path: &str) -> (error: IoError)
    ensures
        error matches IoError::NotFound { path: p } ==> p@ == path@,
        error matches IoError::PermissionDenied { path: p } ==> p@ == path@,
        !(error is Utf8Error),
{
    let class = io_error_class(&source);
    let detail = io_error_text(&source);
    io_error_for_class(class, path, detail)
}

/// Derives the default output `.rs` path from a `.kobo` input path.
pub fn rs_path_for(kobo_path: &str) -> (rs_path: String)
    ensures
        rs_path@ == path_with_extension(kobo_path@, "rs"@),
{
    proof {
        reveal_strlit("rs");
    }
    with_extension(kobo_path, "rs")
}

/// The last component of a path, where it has one (`Path::file_name`).
pub uninterp spec fn path_file_name(path: Seq<char>) -> Option<Seq<char>>;

/// A directory joined with a relative name (`Path::join`).
pub uninterp spec fn path_joined(dir: Seq<char>, name: Seq<char>) -> Seq<char>;

/// The last component of a path (`Path::file_name`).
///
/// Trusted: the result is named `path_file_name` of the path; std's rules
/// for `..` and trailing separators are not restated.
#[verifier::external_body]
fn file_name(path: &str) -> (name: Option<String>)
    ensures
        match name {
            Some(n) => path_file_name(path@) == Some(n@),
            None => path_file_name(path@) is None,
        },
{
    std::path::Path::new(path).file_name().map(|n| n.to_string_lossy().into_owned())
}

/// Joins a name onto a directory (`Path::join`).
///
/// Trusted: the result is named `path_joined` of the two arguments; std's
/// rule that an absolute name replaces the directory is not restated.
#[verifier::external_body]
fn join(dir: &str, name: &str) -> (joined: String)
    ensures
        joined@ == path_joined(dir@, name@),
{
    std::path::Path::new(dir).join(name).to_string_lossy().into_owned()
}

/// Where a generated file goes: `default_path`, or, where an output
/// directory is configured, its file name (`fallback` where it has none) in
/// that directory.
pub open spec fn placed_path(default_path: Seq<char>, output_dir: Option<String>, fallback: Seq<char>) -> Seq<char> {
    match output_dir {
        None => default_path,
        Some(dir) => path_joined(dir@, match path_file_name(default_path) {
            Some(n) => n,
            None => fallback,
        }),
    }
}

fn placed(default_path: String, output_dir: &Option<String>, fallback: &str) -> (r: String)
    ensures
        r@ == placed_path(default_path@, *output_dir, fallback@),
{
    match output_dir {
        None => default_path,
        Some(dir) => {
            let name = match file_name(default_path.as_str()) {
                Some(n) => n,
                None => fallback.to_owned(),
            };
            join(dir.as_str(), name.as_str())
        },
    }
}

/// The output path of the `.rs` file of a `.kobo` input, in the configured
/// output directory where there is one.
pub fn output_path_for(kobo_path: &str, output_dir: &Option<String>) -> (path: String)
    ensures
        path@ == placed_path(path_with_extension(kobo_path@, "rs"@), *output_dir, "out.rs"@),
{
    placed(rs_path_for(kobo_path), output_dir, "out.rs")
}

/// The path of the source map of a `.kobo` input, in the configured output
/// directory where there is one.
pub fn map_path_for(kobo_path: &str, output_dir: &Option<String>) -> (path: String)
    ensures
        path@ == placed_path(path_with_extension(kobo_path@, "kobo.map"@), *output_dir, "out.kobo.map"@),
{
    proof {
        reveal_strlit("kobo.map");
    }
    placed(with_extension(kobo_path, "kobo.map"), output_dir, "out.kobo.map")
}

} // verus!
