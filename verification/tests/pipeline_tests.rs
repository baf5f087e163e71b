use macro_railroad_annotation::lowering::{fold_rules, matcher_eq, normalize, remove_internal};
use macro_railroad_annotation::parser::parse_rules;
use macro_railroad_annotation::pipeline::generate_railroad;
use macro_railroad_annotation::render::render_svg;
use macro_railroad_annotation::splice::AttrInfo;
use macro_railroad_annotation::tree::Matcher;

fn build_tree(src: &str) -> Matcher {
    let rules = parse_rules(src).expect("parse");
    let rules = remove_internal(rules);
    let tree = fold_rules(rules);
    normalize(tree)
}

fn lit(s: &str) -> Matcher {
    Matcher::Literal(s.to_string())
}

fn cap(name: &str, kind: &str) -> Matcher {
    Matcher::Capture { name: name.to_string(), kind: kind.to_string() }
}

#[test]
fn scenario_two_literal_branches() {
    // Two alternatives with no common affix: two sibling literal branches.
    let t = build_tree("macro_rules! m { (a) => {}; (b) => {} }");
    let expected = Matcher::Alternation(vec![lit("a"), lit("b")]);
    assert!(matcher_eq(&t, &expected));
}

#[test]
fn scenario_two_literal_branches_payload() {
    let t = build_tree("macro_rules! m { (a) => {}; (b) => {} }");
    let svg = render_svg(&t);
    assert_eq!(svg.matches("<text").count(), 2);
    assert!(svg.contains(">a</text>"));
    assert!(svg.contains(">b</text>"));
}

#[test]
fn scenario_common_prefix_folding() {
    // A shared leading literal folds out of the alternation.
    let t = build_tree("macro_rules! m { (a $x:expr) => {}; (a $y:expr) => {} }");
    let expected = Matcher::Sequence(vec![
        lit("a"),
        Matcher::Alternation(vec![cap("x", "expr"), cap("y", "expr")]),
    ]);
    assert!(matcher_eq(&t, &expected));
}

#[test]
fn scenario_common_suffix_folding() {
    let t = build_tree("macro_rules! m { ($x:expr b) => {}; ($y:ty b) => {} }");
    let expected = Matcher::Sequence(vec![
        Matcher::Alternation(vec![cap("x", "expr"), cap("y", "ty")]),
        lit("b"),
    ]);
    assert!(matcher_eq(&t, &expected));
}

#[test]
fn scenario_internal_alternative_removed() {
    // The internal-convention alternative disappears; one visible branch.
    let t = build_tree("macro_rules! m { (@helper x) => {}; (a) => {} }");
    assert!(matcher_eq(&t, &lit("a")));
    let svg = render_svg(&t);
    assert!(svg.contains(">a</text>"));
    assert!(!svg.contains("helper"));
}

#[test]
fn scenario_no_label_inserts_placeholder() {
    // Without an explicit label a placeholder line and a matching
    // label-definition line are produced.
    let attrs = vec![
        AttrInfo { span_start: 10, outer_doc: true },
        AttrInfo { span_start: 50, outer_doc: false },
    ];
    let patch = generate_railroad(
        "macro_rules! demo { (a) => {} }",
        None,
        Some("demo".to_string()),
        &attrs,
        20,
    )
    .expect("pipeline");
    let image = patch.image_line.expect("placeholder expected");
    // the label-definition line binds the same label the placeholder uses
    let after = patch.label_line.split('[').nth(1).expect("label open");
    let label = after.split(']').next().expect("label close");
    assert_eq!(label.len(), 16);
    assert!(label.chars().all(|c| c.is_ascii_alphanumeric()));
    assert!(image.ends_with(&format!("][{label}]\n\n")));
    assert!(image.contains("_Here would be a railroad diagram of the macro [`demo`]_"));
    // placed at the first annotation starting at or after the invocation
    assert_eq!(patch.image_pos, 1);
    // the label line goes after the last outer doc annotation
    assert_eq!(patch.label_pos, 1);
}

#[test]
fn scenario_explicit_label_no_placeholder() {
    let attrs: Vec<AttrInfo> = Vec::new();
    let patch = generate_railroad(
        "macro_rules! demo { (a) => {} }",
        Some("foo".to_string()),
        Some("demo".to_string()),
        &attrs,
        0,
    )
    .expect("pipeline");
    assert!(patch.image_line.is_none());
    assert!(patch.label_line.starts_with("\n \n  [foo]: data:image/svg+xml;base64,"));
    assert_eq!(patch.label_pos, 0);
    assert_eq!(patch.image_pos, 0);
}

#[test]
fn deterministic_payload() {
    // Same grammar, same label: byte-identical output.
    let attrs: Vec<AttrInfo> = Vec::new();
    let src = "macro_rules! m { (a $x:expr) => {}; (b) => {} }";
    let p1 = generate_railroad(src, Some("l".to_string()), None, &attrs, 0).expect("first");
    let p2 = generate_railroad(src, Some("l".to_string()), None, &attrs, 0).expect("second");
    assert_eq!(p1.label_line, p2.label_line);
}

#[test]
fn normalization_idempotent_on_example() {
    let t1 = build_tree("macro_rules! m { ($( $x:expr ),* b) => {}; (a b) => {} }");
    let svg1 = render_svg(&t1);
    let t2 = normalize(t1);
    let svg2 = render_svg(&t2);
    assert_eq!(svg1, svg2);
}

#[test]
fn repetition_with_separator_parses() {
    let t = build_tree("macro_rules! m { ($( $x:expr ),*) => {} }");
    let expected = Matcher::Repetition {
        body: Box::new(cap("x", "expr")),
        separator: Some(",".to_string()),
        min_count: 0,
    };
    assert!(matcher_eq(&t, &expected));
}

#[test]
fn plus_and_question_quantifiers_parse() {
    let t = build_tree("macro_rules! m { ($( $x:expr )+) => {} }");
    let expected = Matcher::Repetition {
        body: Box::new(cap("x", "expr")),
        separator: None,
        min_count: 1,
    };
    assert!(matcher_eq(&t, &expected));

    let t2 = build_tree("macro_rules! m { ($( $x:expr )?) => {} }");
    let expected2 = Matcher::Optional(Box::new(cap("x", "expr")));
    assert!(matcher_eq(&t2, &expected2));
}

#[test]
fn grouped_tokens_keep_their_delimiters() {
    let t = build_tree("macro_rules! m { ([ $x:ty ]) => {} }");
    let expected = Matcher::Sequence(vec![lit("["), cap("x", "ty"), lit("]")]);
    assert!(matcher_eq(&t, &expected));
}

#[test]
fn adjacent_literals_merge() {
    let t = build_tree("macro_rules! m { (fn f) => {} }");
    assert!(matcher_eq(&t, &lit("fn f")));
}

#[test]
fn empty_rule_list_is_not_an_error() {
    let rules = parse_rules("macro_rules! m { }").expect("empty list parses");
    assert!(rules.is_empty());
}

#[test]
fn malformed_input_is_rejected() {
    assert!(parse_rules("fn main() {}").is_err());
    assert!(parse_rules("macro_rules!").is_err());
    assert!(parse_rules("macro_rules! m { (a) => }").is_err());
    assert!(parse_rules("macro_rules! m { (a }").is_err());
}

#[test]
fn syntax_error_carries_offset_and_expectation() {
    let e = parse_rules("macro_rules! m { (a) => }").unwrap_err();
    assert!(!e.expected.is_empty());
    assert!(e.offset > 0);
}
