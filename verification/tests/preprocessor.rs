use mdbook_slides::frontmatter::{split_frontmatter, FrontmatterConfig, ParseResult};
use mdbook_slides::{chapter_action, looks_like_mangled_slides_frontmatter, ChapterAction};

/// Frontmatter parsed as the preprocessor does, with the YAML read through
/// serde_yaml_ng's `Value`.
fn parse(content: &str) -> ParseResult {
    match split_frontmatter(content) {
        Some(b) => {
            let value: serde_yaml_ng::Value = serde_yaml_ng::from_str(&b.yaml).unwrap();
            let slides = value.get("slides").and_then(|v| v.as_bool()).unwrap_or(false);
            ParseResult { config: FrontmatterConfig { slides }, content: b.body }
        }
        None => ParseResult { config: FrontmatterConfig::default(), content: content.to_string() },
    }
}

/// The new content of a chapter, as the preprocessor computes it.
fn process(name: &str, content: &str) -> String {
    match chapter_action(name, content, &parse(content)) {
        ChapterAction::Render(html) => html,
        ChapterAction::WarnMangled | ChapterAction::Keep => content.to_string(),
    }
}

#[test]
fn test_process_slides_chapter() {
    let content = process("Test", "---\nslides: true\n---\n# Slide 1\n\n---\n\n# Slide 2\n");
    assert!(content.starts_with("<div"));
    assert!(content.contains("Slide 1"));
    assert!(content.contains("Slide 2"));
}

#[test]
fn test_skip_non_slides_chapter() {
    let original = "# Just a regular chapter\nWith content.".to_string();
    let content = process("Normal", &original);
    assert_eq!(content, original);
}

#[test]
fn test_mangled_frontmatter_heuristic() {
    assert!(looks_like_mangled_slides_frontmatter("slides: true\n---\n# Deck"));
    assert!(looks_like_mangled_slides_frontmatter("## slides: true\n\n# Deck"));
    assert!(!looks_like_mangled_slides_frontmatter("# Just a chapter\n\nProse."));
    let mut body = "x".repeat(300);
    body.push_str("slides: true");
    assert!(!looks_like_mangled_slides_frontmatter(&body));
}

#[test]
fn test_preprocessor_name_and_renderer() {
    let preprocessor = mdbook_slides::SlidesPreprocessor;
    assert_eq!(preprocessor.name(), "slides");
    assert!(preprocessor.supports_renderer("html").unwrap());
    assert!(!preprocessor.supports_renderer("latex").unwrap());
}

#[test]
fn heuristic_is_case_blind_and_stops_at_200_characters() {
    assert!(looks_like_mangled_slides_frontmatter("SLIDES:TRUE"));
    let mut edge = "y".repeat(188);
    edge.push_str("slides: true");
    assert_eq!(edge.chars().count(), 200);
    assert!(looks_like_mangled_slides_frontmatter(&edge));
    edge.insert(0, 'z');
    assert!(!looks_like_mangled_slides_frontmatter(&edge));
    let mut wide = "é".repeat(150);
    wide.push_str("slides:true");
    assert!(looks_like_mangled_slides_frontmatter(&wide));
}

#[test]
fn mangled_deck_is_left_alone_with_a_warning() {
    let content = "slides: true\n## Deck\n\nbody";
    let parsed = parse(content);
    assert!(matches!(chapter_action("D", content, &parsed), ChapterAction::WarnMangled));
    let plain = "# Prose";
    assert!(matches!(chapter_action("P", plain, &parse(plain)), ChapterAction::Keep));
}

#[test]
fn renderer_names_are_compared_exactly() {
    let p = mdbook_slides::SlidesPreprocessor;
    assert!(!p.supports_renderer("HTML").unwrap());
    assert!(!p.supports_renderer("htm").unwrap());
    assert!(!p.supports_renderer("html5").unwrap());
    assert!(!p.supports_renderer("").unwrap());
}

#[test]
fn heuristic_keeps_firing_when_text_is_appended() {
    let mut content = String::from("# Deck\nslides: true\n");
    assert!(looks_like_mangled_slides_frontmatter(&content));
    content.push_str(&"more ".repeat(100));
    assert!(looks_like_mangled_slides_frontmatter(&content));
    let top: String = content.chars().take(200).collect();
    assert_eq!(
        looks_like_mangled_slides_frontmatter(&top),
        looks_like_mangled_slides_frontmatter(&content)
    );
}
