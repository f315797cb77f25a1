use kobo_driver::capability::{capability_context, capability_params, ident_prefix, ident_suffix, normalize_type_prefix};

fn chars(s: &str) -> Vec<char> {
    s.chars().collect()
}

#[test]
fn ident_prefix_skips_leading_space_and_stops_at_punctuation() {
    assert_eq!(ident_prefix("  foo_1 bar").as_deref(), Some("foo_1"));
    assert_eq!(ident_prefix("\tcount(x)").as_deref(), Some("count"));
    assert_eq!(ident_prefix(" (x"), None);
    assert_eq!(ident_prefix(""), None);
}

#[test]
fn ident_suffix_takes_the_last_identifier() {
    assert_eq!(ident_suffix("&mut self.inner").as_deref(), Some("inner"));
    assert_eq!(ident_suffix("  x  ").as_deref(), Some("x"));
    assert_eq!(ident_suffix("mut value"), Some("value".to_string()));
    assert_eq!(ident_suffix(".."), None);
    assert_eq!(ident_suffix(""), None);
}

#[test]
fn normalize_type_prefix_drops_references_and_mut() {
    assert_eq!(normalize_type_prefix("  &mut  Foo<T> "), "Foo<T>");
    assert_eq!(normalize_type_prefix("&&muted"), "muted");
    assert_eq!(normalize_type_prefix(" & str"), "str");
    assert_eq!(normalize_type_prefix("mut"), "mut");
    assert_eq!(normalize_type_prefix("u8"), "u8");
}

#[test]
fn capability_params_reads_name_and_type_of_each_piece() {
    let params = capability_params("self: &mut Self, count: usize, mut x: &Vec<u8>, bad, (: u8");
    let got: Vec<(String, Option<String>)> = params.into_iter().map(|p| (p.name, p.ty)).collect();
    assert_eq!(
        got,
        vec![
            ("self".to_string(), Some("Self".to_string())),
            ("count".to_string(), Some("usize".to_string())),
            ("x".to_string(), Some("Vec".to_string())),
        ]
    );
    assert!(capability_params("").is_empty());
    let untyped = capability_params("a: (u8, u8)");
    assert_eq!(untyped.len(), 1);
    assert_eq!(untyped[0].name, "a");
    assert_eq!(untyped[0].ty, None);
}

#[test]
fn capability_context_finds_the_enclosing_function() {
    let text = "fn update(state: &mut State, n: u32) using { state.count }";
    let source = chars(text);
    let using = text.find(" using {").unwrap();
    let (function, owner, params) = capability_context(&source, using).expect("context");
    assert_eq!(function, "update");
    assert_eq!(owner.as_deref(), Some("n"));
    assert_eq!(params.len(), 2);
    assert_eq!(params[0].name, "state");
    assert_eq!(params[0].ty.as_deref(), Some("State"));
    assert_eq!(params[1].name, "n");
    assert_eq!(params[1].ty.as_deref(), Some("u32"));
}

#[test]
fn capability_context_needs_a_function_and_a_parameter_list() {
    let text = "let x = 1; using { a }";
    let source = chars(text);
    assert!(capability_context(&source, text.find(" using").unwrap()).is_none());
    let text = "fn (a: u8) using { a }";
    let source = chars(text);
    assert!(capability_context(&source, text.find(" using").unwrap()).is_none());
    let text = "fn f using { a }";
    let source = chars(text);
    assert!(capability_context(&source, text.find(" using").unwrap()).is_none());
    let text = "fn g() using { a }";
    let source = chars(text);
    let (function, owner, params) = capability_context(&source, text.find(" using").unwrap()).unwrap();
    assert_eq!(function, "g");
    assert!(owner.is_none());
    assert!(params.is_empty());
}
