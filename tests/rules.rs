use lily::rules::{Rule, Rules};

#[test]
fn rule_parse_splits_on_arrow() {
    let r = Rule::parse("  A  ->  F[-A]F  ").unwrap();
    assert_eq!(r.rule, "A");
    assert_eq!(r.replace, "F[-A]F");
}

#[test]
fn rule_parse_without_arrow_is_none() {
    assert!(Rule::parse("A = B").is_none());
    assert!(Rule::parse("").is_none());
}

#[test]
fn rule_parse_splits_at_first_arrow_only() {
    let r = Rule::parse("a -> b -> c").unwrap();
    assert_eq!(r.rule, "a");
    assert_eq!(r.replace, "b -> c");
    let r = Rule::parse("A -> B->C").unwrap();
    assert_eq!(r, Rule::new("A", "B->C"));
}

#[test]
fn rule_to_string_writes_arrow() {
    assert_eq!(Rule::new("A", "AB").to_string(), "A -> AB");
}

#[test]
fn rules_parse_skips_bad_lines() {
    let rs = Rules::parse("A -> B\nnot a rule\r\nB -> A\r\n\n");
    assert_eq!(rs.len(), 2);
    assert_eq!(rs.get(0).rule, "A");
    assert_eq!(rs.get(1).replace, "A");
}

#[test]
fn example_one_iteration() {
    let rs = Rules::parse("A -> F[-A]F[-A]+FA");
    assert_eq!(rs.expand("A", 1), "F[-A]F[-A]+FA");
}

#[test]
fn example_two_iterations_two_rules() {
    let rs = Rules::parse("A -> F[-A]F[-A]+FA\nF -> FF");
    assert_eq!(rs.expand("A", 1), "F[-A]F[-A]+FA");
    assert_eq!(
        rs.expand("A", 2),
        "FF[-F[-A]F[-A]+FA]FF[-F[-A]F[-A]+FA]+FFF[-A]F[-A]+FA"
    );
}

#[test]
fn zero_iterations_keep_start() {
    let rs = Rules::parse("A -> AB");
    assert_eq!(rs.expand("AXA", 0), "AXA");
}

#[test]
fn empty_rules_are_identity() {
    let rs = Rules::new();
    assert_eq!(rs.apply("F[+F]"), "F[+F]");
}

#[test]
fn no_match_leaves_input() {
    let rs = Rules::parse("Q -> R\nXY -> Z");
    assert_eq!(rs.apply("XAYX"), "XAYX");
}

#[test]
fn earlier_rule_wins() {
    let mut rs = Rules::new();
    rs.push("A", "first");
    rs.push("A", "second");
    assert_eq!(rs.apply("BAB"), "BfirstB");
}

#[test]
fn longer_pattern_consumes_its_characters() {
    let mut rs = Rules::new();
    rs.push("ab", "X");
    rs.push("a", "Y");
    assert_eq!(rs.apply("aab"), "YX");
}

#[test]
fn fixed_point_stays_fixed() {
    let rs = Rules::parse("A -> A");
    let once = rs.apply("AB");
    assert_eq!(once, "AB");
    assert_eq!(rs.apply(&once), "AB");
}

#[test]
fn apply_is_repeatable() {
    let rs = Rules::parse("F -> FF\nA -> F[A]");
    assert_eq!(rs.apply("FA"), rs.apply("FA"));
    assert_eq!(rs.apply("FA"), "FFF[A]");
}

#[test]
fn empty_pattern_never_matches() {
    let rs = Rules::parse("-> X\nA -> B");
    assert_eq!(rs.len(), 2);
    assert_eq!(rs.apply("AC"), "BC");
}

#[test]
fn multibyte_characters_are_rewritten() {
    let rs = Rules::parse("é -> e\nλx -> L");
    assert_eq!(rs.apply("aébλxé"), "aebLe");
}
