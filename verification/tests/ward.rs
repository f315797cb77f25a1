use kobo_driver::ward::{
    blank_non_newlines, find_keyword, find_ward_keyword, mask_field_capability_views,
    matching_brace_in_bytes, parse_ward_block, parse_ward_facts, preprocess_ward_syntax_mapped,
    scrub_comments_and_strings, ward_to_attribute_source,
};

fn chars(s: &str) -> Vec<char> {
    s.chars().collect()
}

fn text(c: &[char]) -> String {
    c.iter().collect()
}

#[test]
fn scrub_blanks_comments_and_strings_keeping_newlines() {
    let source = chars("a // x\nb /* y\nz */ c \"s\\\"t\" d");
    let cleaned = scrub_comments_and_strings(&source);
    assert_eq!(text(&cleaned), "a     \nb     \n     c        d");
    assert_eq!(cleaned.len(), source.len());
}

#[test]
fn scrub_handles_unterminated_comment_and_string() {
    assert_eq!(text(&scrub_comments_and_strings(&chars("x /* open"))), "x        ");
    assert_eq!(text(&scrub_comments_and_strings(&chars("x \"open"))), "x      ");
}

#[test]
fn blank_non_newlines_clamps_the_end() {
    let mut bytes = chars("ab\ncd");
    blank_non_newlines(&mut bytes, 1, 99);
    assert_eq!(text(&bytes), "a \n  ");
}

#[test]
fn find_keyword_requires_boundaries() {
    let source = chars("award ward\tx scenario s {}");
    assert_eq!(find_ward_keyword(&source, 0), Some(6));
    assert_eq!(find_keyword(&source, 0, &chars("scenario")), Some(13));
    assert_eq!(find_keyword(&chars("wardx ward"), 0, &chars("ward")), None);
    // At offset 0 the character checked "before" the keyword is its own first one.
    assert_eq!(find_keyword(&chars("ward "), 0, &chars("ward")), None);
    assert_eq!(find_keyword(&chars(" ward "), 0, &chars("ward")), Some(1));
}

#[test]
fn matching_brace_counts_depth() {
    let source = chars("x { { } } }");
    assert_eq!(matching_brace_in_bytes(&source, 2), Some(8));
    assert_eq!(matching_brace_in_bytes(&chars("{ {"), 0), None);
    assert_eq!(matching_brace_in_bytes(&chars("} {"), 0), Some(0));
}

#[test]
fn parse_ward_block_finds_name_and_body() {
    let source = chars("ward Queue { state items: u32 }");
    let cleaned = scrub_comments_and_strings(&source);
    let ward = parse_ward_block(&source, &cleaned, 0).expect("block");
    assert_eq!(text(&ward.name), "Queue");
    assert_eq!(ward.start, 0);
    assert_eq!(ward.end, source.len());
    assert_eq!(text(&ward.body), " state items: u32 ");
}

#[test]
fn parse_ward_facts_reads_each_line_kind() {
    let body = chars(
        "\n  state items: Vec<u32>\n  obligation Ticket must ack | nack |\n  invariant items.len() < 8\n  temporal eventually ack\n  port io\n  recording r1\n  debt later\n  scenario happy {\n    push(1);\n  }\n",
    );
    let facts = parse_ward_facts(&body);
    assert_eq!(facts.states.len(), 1);
    assert_eq!(text(&facts.states[0].0), "items");
    assert_eq!(text(&facts.states[0].1), "Vec<u32>");
    assert_eq!(facts.obligations.len(), 1);
    assert_eq!(text(&facts.obligations[0].0), "Ticket");
    let actions: Vec<String> = facts.obligations[0].1.iter().map(|a| text(a)).collect();
    assert_eq!(actions, vec!["ack".to_string(), "nack".to_string()]);
    let comments: Vec<String> = facts.metadata_comments.iter().map(|c| text(c)).collect();
    assert_eq!(
        comments,
        vec![
            "// kobo: invariant items.len() < 8".to_string(),
            "// kobo: temporal eventually ack".to_string(),
            "// kobo: port io".to_string(),
            "// kobo: recording r1".to_string(),
            "// kobo: debt later".to_string(),
        ]
    );
    assert_eq!(facts.scenarios.len(), 1);
    assert_eq!(text(&facts.scenarios[0].0), "happy");
    assert_eq!(text(&facts.scenarios[0].1), "    push(1);\n  ");
}

#[test]
fn ward_rewrites_to_attribute_items() {
    let source = chars("ward Q {\n state n: u8\n obligation T must done\n}");
    let cleaned = scrub_comments_and_strings(&source);
    let ward = parse_ward_block(&source, &cleaned, 0).expect("block");
    let out = text(&ward_to_attribute_source(&ward));
    assert_eq!(
        out,
        "#[kobo::ward]\nstruct Q {\n    n: u8,\n}\n\n#[kobo::must_call(done)]\nstruct T {}\n\nimpl T {\n    fn done(self) {}\n}\n\n"
    );
}

#[test]
fn preprocess_without_wards_is_identity() {
    let source = chars("fn main() { let reward = 1; }");
    let result = preprocess_ward_syntax_mapped(&source);
    assert_eq!(text(&result.rewritten), "fn main() { let reward = 1; }");
    assert!(result.source_map.is_none());
}

#[test]
fn preprocess_maps_generated_ranges_back() {
    let source = chars("fn a() {}\nward W {}\nfn b() {}");
    let result = preprocess_ward_syntax_mapped(&source);
    let expected = "fn a() {}\n#[kobo::ward]\nstruct W {\n}\n\n\nfn b() {}";
    assert_eq!(text(&result.rewritten), expected);
    let segments = result.source_map.expect("mapped");
    assert_eq!(segments.len(), 3);
    assert_eq!((segments[0].generated_start, segments[0].generated_end), (0, 10));
    assert_eq!((segments[0].original_start, segments[0].original_end), (0, 10));
    assert_eq!((segments[1].original_start, segments[1].original_end), (10, 19));
    assert_eq!((segments[2].original_start, segments[2].original_end), (19, 29));
    assert_eq!(segments[2].generated_end as usize, expected.len());
}

#[test]
fn mask_blanks_using_lists_keeping_length() {
    let source = chars("fn f(x: S) using { x.a, mut x.b } {}");
    let masked = text(&mask_field_capability_views(&source));
    assert_eq!(masked, format!("fn f(x: S){}{{}}", " ".repeat(24)));
    let wide = chars("f using {é}");
    assert_eq!(text(&mask_field_capability_views(&wide)), format!("f{}", " ".repeat(11)));
}
