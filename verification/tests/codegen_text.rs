use kobo_driver::error_policy::{
    explicit_error_policy_source, insert_typed_error_maps, replace_all, typed_error_policy_source,
    ErrorPolicySite,
};
use kobo_driver::manifest::{split_path, stable_hash};
use kobo_driver::sourcemap::{
    discharge_anchor_detail, last_path_segment_text, proof_source_map_entry_id, spans_overlap,
    terminal_action_name, RsSpan,
};

fn site(line: usize, operation: &str, source_error: &str, variant: &str, offset: usize) -> ErrorPolicySite {
    ErrorPolicySite {
        line,
        operation: operation.to_string(),
        source_error: source_error.to_string(),
        variant: variant.to_string(),
        generated_offset: offset,
    }
}

#[test]
fn stable_hash_is_fnv1a_in_hex() {
    assert_eq!(stable_hash(""), "cbf29ce484222325");
    assert_eq!(stable_hash("a"), "af63dc4c8601ec8c");
    assert_eq!(stable_hash("foobar"), "85944171f73967e8");
    assert_eq!(stable_hash("é").len(), 16);
}

#[test]
fn split_path_drops_empty_segments() {
    assert_eq!(split_path("std::io::Error"), vec!["std".to_string(), "io".to_string(), "Error".to_string()]);
    assert_eq!(split_path("::a::::b::"), vec!["a".to_string(), "b".to_string()]);
    assert_eq!(split_path("a:::b"), vec!["a".to_string(), ":b".to_string()]);
    assert!(split_path("").is_empty());
}

#[test]
fn source_map_details() {
    let a = RsSpan { line: 1, column_start: 2, column_end: 5 };
    let b = RsSpan { line: 9, column_start: 5, column_end: 8 };
    let c = RsSpan { line: 1, column_start: 6, column_end: 8 };
    assert!(spans_overlap(&a, &b));
    assert!(spans_overlap(&b, &a));
    assert!(!spans_overlap(&a, &c));
    assert_eq!(proof_source_map_entry_id("run", 12), "proof-map-run-12");
    assert_eq!(discharge_anchor_detail("escape:channel"), "escape");
    assert_eq!(discharge_anchor_detail("suppressed:why"), "suppressed");
    assert_eq!(discharge_anchor_detail("commit"), "commit");
    assert_eq!(terminal_action_name("detach_with_policy"), "detach-with-policy");
    assert_eq!(terminal_action_name("join"), "join");
    assert_eq!(last_path_segment_text("a::b::c"), Some("c".to_string()));
    assert_eq!(last_path_segment_text("a:::b"), Some("b".to_string()));
    assert_eq!(last_path_segment_text("a::"), None);
    assert_eq!(last_path_segment_text("plain"), Some("plain".to_string()));
    assert_eq!(last_path_segment_text(""), None);
}

#[test]
fn replace_all_is_left_to_right() {
    assert_eq!(replace_all("aaa", "aa", "b"), "ba");
    assert_eq!(replace_all("x std::io::Error y std::io::Error", "std::io::Error", "E"), "x E y E");
    assert_eq!(replace_all("none", "zz", "b"), "none");
}

#[test]
fn explicit_policy_appends_site_comments() {
    let sites = vec![site(3, "read", "std::io::Error", "Read", 0)];
    assert_eq!(
        explicit_error_policy_source("fn main() {}", &sites),
        "fn main() {}\n// kobo: explicit error policy evidence required\n// kobo: error_site line 3 operation read source std::io::Error\n"
    );
    assert_eq!(
        explicit_error_policy_source("x\n", &[]),
        "x\n// kobo: explicit error policy evidence required\n"
    );
}

#[test]
fn typed_maps_are_inserted_at_used_offsets() {
    let source = "let a = f()?; let b = g()?;";
    let sites = vec![site(1, "f", "E1", "F", 11), site(1, "skip", "E", "S", 5), site(1, "g", "E2", "G", 25), site(1, "far", "E", "X", 99)];
    assert_eq!(
        insert_typed_error_maps(source, &sites),
        "let a = f().map_err(KoboTypedError::F)?; let b = g().map_err(KoboTypedError::G)?;"
    );
    assert_eq!(insert_typed_error_maps(source, &[]), source);
}

#[test]
fn typed_policy_declares_the_enum() {
    let source = "fn r() -> Result<(), std::io::Error> { f()? }";
    let sites = vec![site(1, "read", "ParseError", "Read", 42), site(2, "again", "Other", "Read", 0)];
    let output = typed_error_policy_source(source, &sites);
    let expected = "#[derive(Debug)]\n#[allow(dead_code)]\nenum KoboTypedError {\n    Io(std::io::Error),\n    Read(ParseError),\n}\n\nimpl std::fmt::Display for KoboTypedError {\n    fn fmt(&self, f: &mut std::fmt::Formatter<'_>) -> std::fmt::Result {\n        match self {\n            Self::Io(error) => write!(f, \"io failed: {error}\"),\n            Self::Read(error) => write!(f, \"read failed: {error}\"),\n        }\n    }\n}\n\nimpl std::error::Error for KoboTypedError {}\n\nimpl From<std::io::Error> for KoboTypedError {\n    fn from(error: std::io::Error) -> Self {\n        Self::Io(error)\n    }\n}\n\nfn r() -> Result<(), KoboTypedError> { f().map_err(KoboTypedError::Read)? }";
    assert_eq!(output, expected);
    assert_eq!(typed_error_policy_source(source, &[]), source);
    let declared = "enum KoboTypedError {}";
    assert_eq!(typed_error_policy_source(declared, &sites[..1]), declared);
}

#[test]
fn typed_policy_rewrite_is_idempotent() {
    let source = "fn r() -> Result<(), std::io::Error> { f()? }";
    let sites = vec![site(1, "read", "ParseError", "Read", 42)];
    let once = typed_error_policy_source(source, &sites);
    assert!(once.contains("enum KoboTypedError"));
    assert_eq!(typed_error_policy_source(&once, &sites), once);
}
