use kobo_driver::debt::OwnershipTier;
use kobo_driver::scenario::KoboSpan;
use kobo_driver::sourcemap::{
    build_source_map_entries, wrap_source_map, LoweringSite, ResolvedAnchor, RsSpan, SourceMapEntry,
};

fn span(start: u32, end: u32) -> KoboSpan {
    KoboSpan { file_id: 0, start, end }
}

fn entry(id: &str, line: usize, columns: (usize, usize), kobo: KoboSpan) -> SourceMapEntry {
    SourceMapEntry {
        id: id.to_string(),
        core_event_id: None,
        binding_name: id.to_string(),
        rs_span: RsSpan { line, column_start: columns.0, column_end: columns.1 },
        kobo_span: kobo,
        ownership_tier: "plain".to_string(),
        solver_outcome: None,
        decision_source: None,
        solver_node_id: None,
    }
}

#[test]
fn lowering_sites_become_entries_at_their_anchors() {
    let sites = vec![
        LoweringSite { node: 1, binding_name: "names".to_string(), ownership_tier: OwnershipTier::RcMutShared, kobo_span: span(4, 9) },
        LoweringSite { node: 12, binding_name: "count".to_string(), ownership_tier: OwnershipTier::Undecided, kobo_span: span(20, 25) },
    ];
    let anchors = vec![
        (12, ResolvedAnchor { line: 5, column_start: 0, column_end: 3 }),
        (1, ResolvedAnchor { line: 2, column_start: 4, column_end: 9 }),
        (1, ResolvedAnchor { line: 9, column_start: 0, column_end: 1 }),
    ];
    let entries = build_source_map_entries(&sites, &anchors);
    assert_eq!(entries.len(), 2);
    assert_eq!(entries[0].id, "map-1");
    assert_eq!(entries[0].binding_name, "names");
    assert_eq!(entries[0].rs_span, RsSpan { line: 2, column_start: 4, column_end: 9 });
    assert_eq!(entries[0].kobo_span, span(4, 9));
    assert_eq!(entries[0].ownership_tier, "rc_refcell");
    assert_eq!(entries[0].solver_node_id, Some(1));
    assert_eq!(entries[0].core_event_id, None);
    assert_eq!(entries[1].id, "map-12");
    assert_eq!(entries[1].ownership_tier, "plain");
}

#[test]
fn wrapped_map_names_its_files() {
    let map = wrap_source_map("src/main.kobo", "src/main.rs", vec![]);
    assert_eq!(map.version, 3);
    assert_eq!(map.generated_file(), "src/main.rs");
    assert_eq!(map.kobo_path(), "src/main.kobo");
    let mut bare = wrap_source_map("a.kobo", "a.rs", vec![]);
    bare.sources.clear();
    assert_eq!(bare.kobo_path(), "a.rs");
}

#[test]
fn lookup_prefers_an_overlapping_entry_on_the_line() {
    let map = wrap_source_map(
        "src/main.kobo",
        "src/main.rs",
        vec![
            entry("a", 2, (0, 3), span(1, 2)),
            entry("b", 2, (10, 14), span(3, 4)),
            entry("c", 3, (0, 40), span(5, 6)),
        ],
    );
    assert_eq!(map.lookup_kobo_span(RsSpan { line: 2, column_start: 12, column_end: 20 }), Some(span(3, 4)));
    assert_eq!(map.lookup_kobo_span(RsSpan { line: 2, column_start: 0, column_end: 47 }), Some(span(1, 2)));
    assert_eq!(map.lookup_kobo_span(RsSpan { line: 2, column_start: 5, column_end: 8 }), Some(span(1, 2)));
    assert_eq!(map.lookup_kobo_span(RsSpan { line: 7, column_start: 0, column_end: 1 }), None);
}

fn check_source_map_supports_forward_and_reverse_lookup() {
    let anchors = vec![(1, ResolvedAnchor { line: 2, column_start: 4, column_end: 9 })];
    let entries = build_source_map_entries(
        &[LoweringSite {
            node: 1,
            binding_name: "names".to_string(),
            ownership_tier: OwnershipTier::RcMutShared,
            kobo_span: span(4, 9),
        }],
        &anchors,
    );
    let source_map = wrap_source_map("src/main.kobo", "src/main.rs", entries);
    assert_eq!(source_map.generated_file(), "src/main.rs");
    assert_eq!(source_map.kobo_path(), "src/main.kobo");
    let kobo_span = source_map
        .lookup_kobo_span(RsSpan { line: 2, column_start: 0, column_end: 47 })
        .expect("mapped line should resolve");
    assert_eq!(kobo_span, span(4, 9));
    let rs_spans = source_map.lookup_rs_spans(span(4, 9));
    assert_eq!(rs_spans.len(), 1);
    assert_eq!(rs_spans[0].line, 2);
}

#[test]
fn tests_source_map_supports_forward_and_reverse_lookup() {
    check_source_map_supports_forward_and_reverse_lookup();
}

#[test]
fn sourcemap_source_map_supports_forward_and_reverse_lookup() {
    check_source_map_supports_forward_and_reverse_lookup();
}

#[test]
fn reverse_lookup_keeps_overlapping_and_equal_spans_of_the_same_file() {
    let mut other_file = entry("d", 4, (0, 2), span(5, 8));
    other_file.kobo_span.file_id = 1;
    let map = wrap_source_map(
        "src/main.kobo",
        "src/main.rs",
        vec![
            entry("a", 1, (0, 3), span(0, 4)),
            entry("b", 2, (0, 3), span(7, 12)),
            entry("c", 3, (0, 3), span(6, 6)),
            other_file,
        ],
    );
    let lines: Vec<usize> = map.lookup_rs_spans(span(4, 8)).iter().map(|s| s.line).collect();
    assert_eq!(lines, vec![2, 3]);
    let empty: Vec<usize> = map.lookup_rs_spans(span(6, 6)).iter().map(|s| s.line).collect();
    assert_eq!(empty, vec![3]);
}
