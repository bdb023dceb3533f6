use std::path::PathBuf;

use codewhale_tui::contexts::{Context, ContextRegistry};
use codewhale_tui::files::markdown_stem;

fn contexts(files: &[(&str, &str)]) -> ContextRegistry {
    let mut found = Vec::new();
    for (file, content) in files {
        if let Some(name) = markdown_stem(file) {
            found.push(Context {
                name,
                content: content.to_string(),
                path: PathBuf::from(file),
            });
        }
    }
    ContextRegistry::from_contexts(found)
}

#[test]
fn discovers_context_files() {
    let registry = contexts(&[
        ("dev.md", "Development context."),
        ("review.md", "Review context."),
        ("notes.txt", "Not a context."),
    ]);
    assert_eq!(registry.len(), 2);
    assert!(registry.find_by_name("dev").is_some());
    assert!(registry.find_by_name("review").is_some());
    assert!(registry.find_by_name("notes").is_none());
}

#[test]
fn contexts_are_sorted_and_found_by_exact_name() {
    let registry = contexts(&[
        ("research.md", "R"),
        ("dev.md", "D"),
        ("review.md", "V"),
    ]);
    assert_eq!(registry.list_names(), vec!["dev", "research", "review"]);
    let dev = registry.find_by_name("dev").unwrap();
    assert_eq!(dev.content, "D");
    assert_eq!(dev.path, PathBuf::from("dev.md"));
    assert!(registry.find_by_name("Dev").is_none());
    assert!(registry.find_by_name("dev.md").is_none());
    assert!(!registry.is_empty());
    assert!(ContextRegistry::default().is_empty());
}
