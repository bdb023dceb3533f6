use std::path::PathBuf;

use codewhale_tui::agents::{AgentDefinition, AgentKind, AgentRegistry};
use codewhale_tui::files::markdown_stem;

fn agent(file: &str, content: &str) -> AgentDefinition {
    let stem = markdown_stem(file).expect("a markdown file");
    AgentDefinition::from_file(stem, content.to_string(), PathBuf::from(file))
}

#[test]
fn discovers_role_and_specialist_agents() {
    let registry = AgentRegistry::from_definitions(vec![
        agent("tech-lead.md", "# Tech Lead\n\nYou are a tech lead."),
        agent("specialist-security-auditor.md", "# Security Auditor\n\nAudit for vulnerabilities."),
    ]);
    assert_eq!(registry.len(), 2);
    assert_eq!(registry.roles().len(), 1);
    assert_eq!(registry.specialists().len(), 1);

    let lead = registry.find_by_name("tech-lead").unwrap();
    assert_eq!(lead.kind, AgentKind::Role);
    assert_eq!(lead.description, "Tech Lead");

    let specialist = registry.find_by_name("security-auditor").unwrap();
    assert_eq!(specialist.kind, AgentKind::Specialist);
}

#[test]
fn specialist_prefix_is_stripped_from_the_name() {
    let d = agent("specialist-tdd-guide.md", "no heading here");
    assert_eq!(d.kind, AgentKind::Specialist);
    assert_eq!(d.name, "tdd-guide");
    assert_eq!(d.prompt, "no heading here");
    assert_eq!(d.path, PathBuf::from("specialist-tdd-guide.md"));
}

#[test]
fn description_falls_back_to_the_name() {
    let d = agent("architect.md", "You design systems.\n#\n##   \n");
    assert_eq!(d.kind, AgentKind::Role);
    assert_eq!(d.description, "architect");
}

#[test]
fn bare_prefix_gives_an_empty_specialist_name() {
    let d = agent("specialist-.md", "");
    assert_eq!(d.kind, AgentKind::Specialist);
    assert_eq!(d.name, "");
    assert_eq!(d.description, "");
}

#[test]
fn prefix_must_stand_at_the_start() {
    let d = agent("my-specialist-x.md", "# X");
    assert_eq!(d.kind, AgentKind::Role);
    assert_eq!(d.name, "my-specialist-x");
}

#[test]
fn agents_are_sorted_by_name_and_listed() {
    let registry = AgentRegistry::from_definitions(vec![
        agent("zeta.md", "# Z"),
        agent("specialist-alpha.md", "# A"),
        agent("Beta.md", "# B"),
        agent("beta.md", "# b"),
    ]);
    assert_eq!(registry.list_names(), vec!["Beta", "alpha", "beta", "zeta"]);
    let roles: Vec<&str> = registry.roles().iter().map(|d| d.name.as_str()).collect();
    assert_eq!(roles, vec!["Beta", "beta", "zeta"]);
    let specialists: Vec<&str> = registry.specialists().iter().map(|d| d.name.as_str()).collect();
    assert_eq!(specialists, vec!["alpha"]);
    assert_eq!(registry.roles().len() + registry.specialists().len(), registry.len());
}

#[test]
fn equal_names_keep_their_order_and_the_first_is_found() {
    let registry = AgentRegistry::from_definitions(vec![
        agent("x.md", "# role x"),
        agent("specialist-x.md", "# specialist x"),
    ]);
    assert_eq!(registry.list_names(), vec!["x", "x"]);
    let found = registry.find_by_name("x").unwrap();
    assert_eq!(found.kind, AgentKind::Role);
    assert_eq!(found.description, "role x");
    assert!(registry.find_by_name("y").is_none());
}

#[test]
fn empty_registry() {
    let registry = AgentRegistry::default();
    assert!(registry.is_empty());
    assert_eq!(registry.len(), 0);
    assert!(registry.list_names().is_empty());
    assert!(registry.find_by_name("").is_none());
    let filled = AgentRegistry::from_definitions(vec![agent("a.md", "")]);
    assert!(!filled.is_empty());
}

#[test]
fn agent_order_does_not_depend_on_listing_order() {
    let first = AgentRegistry::from_definitions(vec![
        agent("b.md", ""),
        agent("specialist-c.md", ""),
        agent("a.md", ""),
    ]);
    let second = AgentRegistry::from_definitions(vec![
        agent("a.md", ""),
        agent("b.md", ""),
        agent("specialist-c.md", ""),
    ]);
    assert_eq!(first.list_names(), second.list_names());
    assert_eq!(first.list_names(), vec!["a", "b", "c"]);
}

#[test]
fn cloned_definitions_keep_their_path() {
    let d = agent("specialist-x.md", "# X");
    let copy = d.clone();
    assert_eq!(copy.path, d.path);
    assert_eq!(copy.name, "x");
    assert_eq!(copy.description, "X");
}
