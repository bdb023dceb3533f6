use std::path::PathBuf;

use codewhale_tui::agents::{AgentKind, AgentRegistry};
use codewhale_tui::contexts::ContextRegistry;
use codewhale_tui::files::ListedFile;
use codewhale_tui::rules::{RulesEntry, RulesRegistry};

fn file(name: &str, content: Option<&str>) -> ListedFile {
    ListedFile {
        name: name.to_string(),
        content: content.map(str::to_string),
        path: PathBuf::from(name),
    }
}

#[test]
fn rules_listing_follows_the_selection_rule() {
    let registry = RulesRegistry::from_listing(vec![
        RulesEntry::Dir(
            "rust".to_string(),
            vec![
                file("ownership.md", Some("rust rule")),
                file("notes.txt", Some("not a rule")),
                file("broken.md", None),
                file(".hidden.md", Some("kept: only top-level names are tested")),
            ],
        ),
        RulesEntry::Dir(".git".to_string(), vec![file("config.md", Some("hidden dir"))]),
        RulesEntry::File(file("top.md", Some("root rule"))),
        RulesEntry::File(file(".secret.md", Some("hidden file"))),
        RulesEntry::File(file("README", Some("no extension"))),
        RulesEntry::Dir("common".to_string(), vec![file("style.md", Some("common rule"))]),
    ]);
    assert_eq!(registry.len(), 4);
    assert_eq!(registry.namespaces(), vec!["common", "root", "rust"]);
    assert_eq!(
        registry.system_prompt_injection(&["rust"]),
        "\n## Rule: common/style.md\n\ncommon rule\n\n## Rule: root/top.md\n\nroot rule\n\n## Rule: rust/.hidden.md\n\nkept: only top-level names are tested\n\n## Rule: rust/ownership.md\n\nrust rule\n"
    );
}

#[test]
fn empty_rules_listing() {
    let registry = RulesRegistry::from_listing(Vec::new());
    assert!(registry.is_empty());
}

#[test]
fn contexts_listing_names_by_stem_in_strict_order() {
    let registry = ContextRegistry::from_listing(vec![
        file("review.md", Some("R")),
        file("dev.md", Some("D")),
        file("notes.txt", Some("N")),
        file("broken.md", None),
        file("dev.md.bak", Some("B")),
    ]);
    assert_eq!(registry.list_names(), vec!["dev", "review"]);
    assert_eq!(registry.find_by_name("review").unwrap().content, "R");
    assert_eq!(registry.find_by_name("dev").unwrap().path, PathBuf::from("dev.md"));
}

#[test]
fn agents_listing_builds_definitions() {
    let registry = AgentRegistry::from_listing(vec![
        file("tech-lead.md", Some("# Tech Lead\n\nYou are a tech lead.")),
        file("specialist-tdd-guide.md", Some("## TDD Guide")),
        file("image.png", Some("binary")),
        file("unreadable.md", None),
    ]);
    assert_eq!(registry.list_names(), vec!["tdd-guide", "tech-lead"]);
    let guide = registry.find_by_name("tdd-guide").unwrap();
    assert_eq!(guide.kind, AgentKind::Specialist);
    assert_eq!(guide.description, "TDD Guide");
    assert_eq!(guide.path, PathBuf::from("specialist-tdd-guide.md"));
    assert_eq!(registry.roles().len(), 1);
}

#[test]
fn cloned_registries_keep_their_entries() {
    let registry = AgentRegistry::from_listing(vec![file("b.md", Some("")), file("a.md", Some(""))]);
    let copy = registry.clone();
    assert_eq!(copy.list_names(), vec!["a", "b"]);
    let rules = RulesRegistry::from_listing(vec![RulesEntry::File(file("x.md", Some("X")))]);
    assert_eq!(rules.clone().system_prompt_injection(&[]), rules.system_prompt_injection(&[]));
    let contexts = ContextRegistry::from_listing(vec![file("c.md", Some("C"))]);
    assert_eq!(contexts.clone().list_names(), vec!["c"]);
}

#[test]
fn rules_listings_in_any_order_give_the_same_registry() {
    let tree = || {
        vec![
            RulesEntry::Dir("rust".to_string(), vec![file("b.md", Some("rb")), file("a.md", Some("ra"))]),
            RulesEntry::File(file("top.md", Some("t"))),
            RulesEntry::Dir("common".to_string(), vec![file("c.md", Some("cc"))]),
        ]
    };
    let mut reordered = tree();
    reordered.reverse();
    if let RulesEntry::Dir(_, files) = &mut reordered[2] {
        files.reverse();
    }
    let first = RulesRegistry::from_listing(tree());
    let second = RulesRegistry::from_listing(reordered);
    assert_eq!(first.len(), second.len());
    assert_eq!(first.namespaces(), second.namespaces());
    for langs in [&[][..], &["rust"][..], &["python"][..]] {
        assert_eq!(
            first.system_prompt_injection(langs),
            second.system_prompt_injection(langs)
        );
    }
}
