use kobo_driver::field_views::{capability_field, collect_field_capability_views, FieldCapabilityView};
use kobo_driver::scenario::KoboSpan;

fn span(start: u32, end: u32) -> KoboSpan {
    KoboSpan { file_id: 7, start, end }
}

fn fields(view: &FieldCapabilityView) -> Vec<(&str, bool, KoboSpan)> {
    view.fields.iter().map(|f| (f.name.as_str(), f.mutable, f.span)).collect()
}

#[test]
fn fields_are_grouped_by_owner_with_byte_spans() {
    let source = "// caf\u{e9}\nfn update(state: &mut State, cfg: &Config) using { mut state.count, cfg.limit, name } {\n}\n";
    let views = collect_field_capability_views(source, 7);
    assert_eq!(views.len(), 2);

    assert_eq!(views[0].function, "update");
    assert_eq!(views[0].owner, "state");
    assert_eq!(views[0].owner_type.as_deref(), Some("State"));
    assert_eq!(views[0].using_span, span(51, 94));
    assert_eq!(fields(&views[0]), vec![("count", true, span(70, 75))]);

    assert_eq!(views[1].owner, "cfg");
    assert_eq!(views[1].owner_type.as_deref(), Some("Config"));
    assert_eq!(fields(&views[1]), vec![("limit", false, span(81, 86)), ("name", false, span(88, 92))]);
}

#[test]
fn later_lists_of_the_same_function_and_owner_join_the_first_view() {
    let source = "fn a(x: T) using { y } { }\nfn b() using { z } {}\nfn a(x: T) using { w } {}";
    let views = collect_field_capability_views(source, 7);
    assert_eq!(views.len(), 2);
    assert_eq!(views[0].function, "a");
    assert_eq!(views[0].owner, "x");
    assert_eq!(views[0].owner_type.as_deref(), Some("T"));
    assert_eq!(views[0].using_span, span(10, 22));
    assert_eq!(fields(&views[0]), vec![("y", false, span(19, 20)), ("w", false, span(68, 69))]);
    assert_eq!(views[1].function, "b");
    assert_eq!(views[1].owner, "value");
    assert_eq!(views[1].owner_type, None);
    assert_eq!(fields(&views[1]), vec![("z", false, span(42, 43))]);
}

#[test]
fn lists_without_a_function_or_a_closing_brace_give_nothing() {
    assert!(collect_field_capability_views("let v = x using { a }", 7).is_empty());
    assert!(collect_field_capability_views("fn f(a: A) using { a.b", 7).is_empty());
    assert!(collect_field_capability_views("fn f(a: A) {}", 7).is_empty());
}

#[test]
fn a_piece_without_an_identifier_is_skipped() {
    let source = "fn f(a: A) using { , a.b, - } {}";
    let views = collect_field_capability_views(source, 0);
    assert_eq!(views.len(), 1);
    assert_eq!(views[0].fields.len(), 1);
    assert_eq!(views[0].fields[0].name, "b");
}

#[test]
fn capability_field_reads_owner_mut_and_name() {
    let chars: Vec<char> = "  mut  self.items ".chars().collect();
    let (owner, name, mutable, span) = capability_field(&chars, 0, chars.len(), 3).unwrap();
    assert_eq!(owner.as_deref(), Some("self"));
    assert_eq!(name, "items");
    assert!(mutable);
    assert_eq!(span, KoboSpan { file_id: 3, start: 12, end: 17 });

    let chars: Vec<char> = "mutable".chars().collect();
    let (owner, name, mutable, _) = capability_field(&chars, 0, chars.len(), 3).unwrap();
    assert_eq!(owner, None);
    assert_eq!(name, "mutable");
    assert!(!mutable);
}
