use std::path::PathBuf;

use codewhale_tui::rules::{Rule, RulesRegistry, MAX_RULES_INJECTION_CHARS};

fn rule(namespace: &str, filename: &str, content: &str) -> Rule {
    Rule {
        namespace: namespace.to_string(),
        filename: filename.to_string(),
        content: content.to_string(),
        path: PathBuf::from(namespace).join(filename),
    }
}

#[test]
fn discovers_rules_from_nested_dirs() {
    let registry = RulesRegistry::from_rules(vec![
        rule("common", "style.md", "# Style\nBe consistent."),
        rule("rust", "patterns.md", "# Patterns\nUse Result."),
    ]);
    assert_eq!(registry.len(), 2);
    assert!(registry.namespaces().contains(&"common".to_string()));
    assert!(registry.namespaces().contains(&"rust".to_string()));
}

#[test]
fn filters_by_language() {
    let registry = RulesRegistry::from_rules(vec![
        rule("common", "style.md", "common rule"),
        rule("rust", "ownership.md", "rust rule"),
        rule("typescript", "react.md", "ts rule"),
    ]);
    let injection = registry.system_prompt_injection(&["rust"]);
    assert!(injection.contains("common rule"));
    assert!(injection.contains("rust rule"));
    assert!(!injection.contains("ts rule"));
}

#[test]
fn injection_text_is_exact_and_ordered() {
    let registry = RulesRegistry::from_rules(vec![
        rule("rust", "b.md", "B"),
        rule("root", "top.md", "T"),
        rule("common", "a.md", "A"),
        rule("python", "p.md", "P"),
    ]);
    assert_eq!(
        registry.system_prompt_injection(&["rust"]),
        "\n## Rule: common/a.md\n\nA\n\n## Rule: root/top.md\n\nT\n\n## Rule: rust/b.md\n\nB\n"
    );
    assert_eq!(
        registry.system_prompt_injection(&[]),
        "\n## Rule: common/a.md\n\nA\n\n## Rule: root/top.md\n\nT\n"
    );
}

#[test]
fn injection_stops_at_the_first_rule_over_budget() {
    let big = "x".repeat(MAX_RULES_INJECTION_CHARS);
    let registry = RulesRegistry::from_rules(vec![
        rule("common", "a.md", "small"),
        rule("common", "b.md", &big),
        rule("common", "c.md", "tiny"),
    ]);
    let injection = registry.system_prompt_injection(&[]);
    assert_eq!(injection, "\n## Rule: common/a.md\n\nsmall\n");
    assert!(injection.len() <= MAX_RULES_INJECTION_CHARS);
}

#[test]
fn injection_budget_counts_bytes() {
    // Each entry is 14 bytes of framing plus namespace, file name and content.
    let fill = 4000 - 14 - "common".len() - "a.md".len();
    let mut wide = "é".repeat(fill / 2);
    if fill % 2 == 1 {
        wide.push('x');
    }
    assert_eq!(wide.len(), fill);
    let registry = RulesRegistry::from_rules(vec![
        rule("common", "a.md", &wide),
        rule("common", "b.md", &"y".repeat(fill)),
        rule("common", "c.md", ""),
    ]);
    let injection = registry.system_prompt_injection(&[]);
    assert_eq!(injection.len(), 8000);
    assert!(!injection.contains("c.md"));

    let exact = RulesRegistry::from_rules(vec![rule(
        "common",
        "a.md",
        &"z".repeat(MAX_RULES_INJECTION_CHARS - 24),
    )]);
    assert_eq!(exact.system_prompt_injection(&[]).len(), MAX_RULES_INJECTION_CHARS);
    let over = RulesRegistry::from_rules(vec![rule(
        "common",
        "a.md",
        &"z".repeat(MAX_RULES_INJECTION_CHARS - 23),
    )]);
    assert_eq!(over.system_prompt_injection(&[]), "");
}

#[test]
fn namespaces_are_sorted_and_unique() {
    let registry = RulesRegistry::from_rules(vec![
        rule("rust", "b.md", ""),
        rule("common", "z.md", ""),
        rule("rust", "a.md", ""),
        rule("root", "r.md", ""),
        rule("common", "y.md", ""),
    ]);
    assert_eq!(registry.namespaces(), vec!["common", "root", "rust"]);
    assert_eq!(RulesRegistry::default().namespaces(), Vec::<String>::new());
    assert!(RulesRegistry::default().is_empty());
    assert_eq!(registry.len(), 5);
}

#[test]
fn rules_are_ordered_by_namespace_then_file() {
    let registry = RulesRegistry::from_rules(vec![
        rule("rust", "b.md", "rb"),
        rule("common", "z.md", "cz"),
        rule("rust", "a.md", "ra"),
        rule("common", "y.md", "cy"),
    ]);
    assert_eq!(
        registry.system_prompt_injection(&["rust"]),
        "\n## Rule: common/y.md\n\ncy\n\n## Rule: common/z.md\n\ncz\n\n## Rule: rust/a.md\n\nra\n\n## Rule: rust/b.md\n\nrb\n"
    );
}

#[test]
fn rule_order_does_not_depend_on_listing_order() {
    let first = RulesRegistry::from_rules(vec![
        rule("rust", "a.md", "1"),
        rule("common", "b.md", "2"),
        rule("root", "c.md", "3"),
    ]);
    let second = RulesRegistry::from_rules(vec![
        rule("root", "c.md", "3"),
        rule("rust", "a.md", "1"),
        rule("common", "b.md", "2"),
    ]);
    assert_eq!(
        first.system_prompt_injection(&["rust"]),
        second.system_prompt_injection(&["rust"])
    );
    assert_eq!(first.namespaces(), second.namespaces());
}
