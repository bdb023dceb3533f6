use codewhale_tui::files::{is_hidden_name, is_markdown_file_name, markdown_stem};
use codewhale_tui::markdown::extract_first_heading;
use codewhale_tui::text::{same_text, text_le_exec};
use codewhale_tui::welcome::{welcome_lines, WelcomeStyle, LOGO_HEIGHT};

#[test]
fn first_heading_is_found_after_other_lines() {
    let content = "intro\n\n  ### Deep Title ###  \r\n# Later";
    assert_eq!(extract_first_heading(content), Some("Deep Title ###".to_string()));
}

#[test]
fn empty_headings_are_skipped() {
    assert_eq!(extract_first_heading("#\n ## \t\n#   Real"), Some("Real".to_string()));
    assert_eq!(extract_first_heading("no heading\nat all"), None);
    assert_eq!(extract_first_heading(""), None);
    assert_eq!(extract_first_heading("####"), None);
}

#[test]
fn heading_after_hashes_and_spaces_keeps_inner_hash() {
    assert_eq!(extract_first_heading("# # Title"), Some("# Title".to_string()));
    assert_eq!(extract_first_heading("\u{3000}#\u{a0}Wide\u{2003}"), Some("Wide".to_string()));
    assert_eq!(extract_first_heading("x # not a heading\n#Tight"), Some("Tight".to_string()));
}

#[test]
fn markdown_names() {
    assert_eq!(markdown_stem("dev.md"), Some("dev".to_string()));
    assert_eq!(markdown_stem("a.b.md"), Some("a.b".to_string()));
    assert_eq!(markdown_stem(".hidden.md"), Some(".hidden".to_string()));
    assert_eq!(markdown_stem(".md"), None);
    assert_eq!(markdown_stem("md"), None);
    assert_eq!(markdown_stem("notes.txt"), None);
    assert_eq!(markdown_stem("README.MD"), None);
    assert_eq!(markdown_stem("x.md.bak"), None);
    assert_eq!(markdown_stem("..md"), Some(".".to_string()));
    assert!(is_markdown_file_name("style.md"));
    assert!(!is_markdown_file_name("style.mdx"));
    assert!(!is_markdown_file_name(".."));
}

#[test]
fn hidden_names() {
    assert!(is_hidden_name(".git"));
    assert!(is_hidden_name("."));
    assert!(!is_hidden_name("rust"));
    assert!(!is_hidden_name(""));
}

#[test]
fn text_order_is_byte_order() {
    assert!(text_le_exec("Z", "a"));
    assert!(text_le_exec("ab", "abc"));
    assert!(!text_le_exec("abc", "ab"));
    assert!(text_le_exec("", ""));
    assert!(text_le_exec("z", "é"));
    assert!(same_text("é", "é"));
    assert!(!same_text("e", "é"));
}

#[test]
fn welcome_screen_lines() {
    let lines = welcome_lines("1.2.3");
    assert_eq!(lines.len(), LOGO_HEIGHT + 5);
    assert!(lines[..LOGO_HEIGHT].iter().all(|l| l.style == WelcomeStyle::Logo));
    assert!(lines[3].text.contains("🐋"));
    assert_eq!(lines[LOGO_HEIGHT].text, "");
    assert_eq!(lines[LOGO_HEIGHT].style, WelcomeStyle::Plain);
    assert_eq!(lines[LOGO_HEIGHT + 1].text, "   Version 1.2.3");
    assert_eq!(lines[LOGO_HEIGHT + 1].style, WelcomeStyle::Muted);
    assert_eq!(lines[LOGO_HEIGHT + 3].style, WelcomeStyle::Primary);
    assert_eq!(
        lines[LOGO_HEIGHT + 4].text,
        "   Press Enter to continue.  Ctrl+C exits."
    );
}
